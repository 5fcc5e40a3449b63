//! The definitions that every program sees, added straight to a tree's ids and
//! kinds, for [`Ast::resolve_symbols`](crate::ast::Ast::resolve_symbols).
use crate::arena::{lemma_world_space, Arena, World};
use crate::ast::{lemma_kind_frame, AstId, AstKind, AstMarker};
use crate::resolve::DefinitionMap;
use vstd::prelude::*;

verus! {

/// Room in a tree of `n` nodes for a prelude's definitions: at most 256 more.
pub open spec fn room_for_prelude(n: nat) -> bool {
    n + 256 <= 4294967295
}

/// A set of definitions added to a tree: new nodes, after the ones already
/// there, each recorded under its qualified name. The kinds of the nodes
/// already there are kept.
pub trait Prelude {
    fn apply(
        &self,
        ids: &mut World<AstMarker>,
        kinds: &mut Arena<AstMarker, AstKind>,
        qualified_idents_map: &mut DefinitionMap,
    )
        requires
            old(ids).wf(),
            old(kinds).wf(),
            room_for_prelude(old(ids).allocated()),
        ensures
            final(ids).wf(),
            final(kinds).wf(),
            final(ids).allocated() >= old(ids).allocated(),
            forall|j: nat| j < old(ids).allocated() ==> #[trigger] final(kinds).value_at(j) == old(kinds).value_at(j),
    ;
}

/// The standard prelude: the primitive types `I32`, `F32`, `String`, `Char`
/// and `Bool`, and the constants `true` and `false`.
pub struct StandardPrelude;

/// Name `.name` is mapped to a node of kind `kind`.
pub open spec fn primitive_defined(
    kinds: Arena<AstMarker, AstKind>,
    map: Map<Seq<char>, AstId>,
    name: Seq<char>,
    kind: AstKind,
) -> bool {
    &&& map.contains_key(seq!['.'] + name)
    &&& kinds.value_at(map[seq!['.'] + name]@) == kind
}

/// Adds a node of kind `kind` and maps `.name` to it.
fn add_primitive(
    ids: &mut World<AstMarker>,
    kinds: &mut Arena<AstMarker, AstKind>,
    map: &mut DefinitionMap,
    name: &str,
    kind: AstKind,
) -> (r: AstId)
    requires
        old(ids).wf(),
        old(kinds).wf(),
        old(ids).allocated() < 4294967295,
    ensures
        final(ids).wf(),
        final(kinds).wf(),
        r@ == old(ids).allocated(),
        final(ids).allocated() == old(ids).allocated() + 1,
        final(kinds).value_at(r@) == kind,
        forall|j: nat| j != r@ ==> #[trigger] final(kinds).value_at(j) == old(kinds).value_at(j),
        final(map)@ == old(map)@.insert(seq!['.'] + name@, r),
{
    proof {
        lemma_world_space(*ids);
    }
    let id = ids.allocate();
    let ghost before = *kinds;
    id.put(kinds, kind);
    proof {
        assert forall|j: nat| j != id@ implies #[trigger] kinds.value_at(j) == before.value_at(j) by {
            lemma_kind_frame(before, *kinds, id@, kind, j);
        }
        reveal_strlit(".");
    }
    let mut key = ".".to_owned();
    key.append(name);
    proof {
        assert(key@ =~= seq!['.'] + name@);
    }
    map.insert(key, id);
    id
}

impl Prelude for StandardPrelude {
    fn apply(
        &self,
        ids: &mut World<AstMarker>,
        kinds: &mut Arena<AstMarker, AstKind>,
        qualified_idents_map: &mut DefinitionMap,
    )
        ensures
            final(ids).allocated() == old(ids).allocated() + 7,
            primitive_defined(*final(kinds), final(qualified_idents_map)@, "I32"@, AstKind::BuiltinI32),
            primitive_defined(*final(kinds), final(qualified_idents_map)@, "F32"@, AstKind::BuiltinF32),
            primitive_defined(*final(kinds), final(qualified_idents_map)@, "String"@, AstKind::BuiltinString),
            primitive_defined(*final(kinds), final(qualified_idents_map)@, "Char"@, AstKind::BuiltinChar),
            primitive_defined(*final(kinds), final(qualified_idents_map)@, "Bool"@, AstKind::BuiltinBool),
            primitive_defined(*final(kinds), final(qualified_idents_map)@, "true"@, AstKind::BuiltinTrue),
            primitive_defined(*final(kinds), final(qualified_idents_map)@, "false"@, AstKind::BuiltinFalse),
    {
        let ghost n = ids.allocated();
        let ghost k0 = *kinds;
        let i32_id = add_primitive(ids, kinds, qualified_idents_map, "I32", AstKind::BuiltinI32);
        let ghost k1 = *kinds;
        let f32_id = add_primitive(ids, kinds, qualified_idents_map, "F32", AstKind::BuiltinF32);
        let ghost k2 = *kinds;
        let string_id = add_primitive(ids, kinds, qualified_idents_map, "String", AstKind::BuiltinString);
        let ghost k3 = *kinds;
        let char_id = add_primitive(ids, kinds, qualified_idents_map, "Char", AstKind::BuiltinChar);
        let ghost k4 = *kinds;
        let bool_id = add_primitive(ids, kinds, qualified_idents_map, "Bool", AstKind::BuiltinBool);
        let ghost k5 = *kinds;
        let true_id = add_primitive(ids, kinds, qualified_idents_map, "true", AstKind::BuiltinTrue);
        let ghost k6 = *kinds;
        let false_id = add_primitive(ids, kinds, qualified_idents_map, "false", AstKind::BuiltinFalse);
        proof {
            reveal_strlit("I32");
            reveal_strlit("F32");
            reveal_strlit("String");
            reveal_strlit("Char");
            reveal_strlit("Bool");
            reveal_strlit("true");
            reveal_strlit("false");
            let k_i32 = seq!['.'] + "I32"@;
            let k_f32 = seq!['.'] + "F32"@;
            let k_string = seq!['.'] + "String"@;
            let k_char = seq!['.'] + "Char"@;
            let k_bool = seq!['.'] + "Bool"@;
            let k_true = seq!['.'] + "true"@;
            let k_false = seq!['.'] + "false"@;
            assert(k_string.len() == 7 && k_false.len() == 6 && k_i32.len() == 4 && k_f32.len() == 4);
            assert(k_char.len() == 5 && k_bool.len() == 5 && k_true.len() == 5);
            assert(k_i32[1] != k_f32[1]);
            assert(k_char[1] != k_bool[1] && k_char[1] != k_true[1] && k_bool[1] != k_true[1]);
            assert(kinds.value_at(i32_id@) == AstKind::BuiltinI32) by {
                assert(k2.value_at(i32_id@) == k1.value_at(i32_id@));
                assert(k3.value_at(i32_id@) == k2.value_at(i32_id@));
                assert(k4.value_at(i32_id@) == k3.value_at(i32_id@));
                assert(k5.value_at(i32_id@) == k4.value_at(i32_id@));
                assert(k6.value_at(i32_id@) == k5.value_at(i32_id@));
                assert(kinds.value_at(i32_id@) == k6.value_at(i32_id@));
            }
            assert(kinds.value_at(f32_id@) == AstKind::BuiltinF32) by {
                assert(k3.value_at(f32_id@) == k2.value_at(f32_id@));
                assert(k4.value_at(f32_id@) == k3.value_at(f32_id@));
                assert(k5.value_at(f32_id@) == k4.value_at(f32_id@));
                assert(k6.value_at(f32_id@) == k5.value_at(f32_id@));
                assert(kinds.value_at(f32_id@) == k6.value_at(f32_id@));
            }
            assert(kinds.value_at(string_id@) == AstKind::BuiltinString) by {
                assert(k4.value_at(string_id@) == k3.value_at(string_id@));
                assert(k5.value_at(string_id@) == k4.value_at(string_id@));
                assert(k6.value_at(string_id@) == k5.value_at(string_id@));
                assert(kinds.value_at(string_id@) == k6.value_at(string_id@));
            }
            assert(kinds.value_at(char_id@) == AstKind::BuiltinChar) by {
                assert(k5.value_at(char_id@) == k4.value_at(char_id@));
                assert(k6.value_at(char_id@) == k5.value_at(char_id@));
                assert(kinds.value_at(char_id@) == k6.value_at(char_id@));
            }
            assert(kinds.value_at(bool_id@) == AstKind::BuiltinBool) by {
                assert(k6.value_at(bool_id@) == k5.value_at(bool_id@));
                assert(kinds.value_at(bool_id@) == k6.value_at(bool_id@));
            }
            assert(kinds.value_at(true_id@) == AstKind::BuiltinTrue) by {
                assert(kinds.value_at(true_id@) == k6.value_at(true_id@));
            }
            assert forall|j: nat| j < n implies #[trigger] kinds.value_at(j) == k0.value_at(j) by {
                assert(k1.value_at(j) == k0.value_at(j));
                assert(k2.value_at(j) == k1.value_at(j));
                assert(k3.value_at(j) == k2.value_at(j));
                assert(k4.value_at(j) == k3.value_at(j));
                assert(k5.value_at(j) == k4.value_at(j));
                assert(k6.value_at(j) == k5.value_at(j));
                assert(kinds.value_at(j) == k6.value_at(j));
            }
        }
    }
}

} // verus!
