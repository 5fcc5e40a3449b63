//! Name resolution worked straight on a tree's tables: a field or binding
//! names its first child, which becomes a definition of the field or binding
//! under the qualified name, and its second child lies in that scope; blocks
//! open a scope of their own; every identifier is bound to the definition its
//! qualified name reaches by going up scope by scope.
use crate::arena::Arena;
use crate::ast::{Ast, AstId, AstKind, AstMarker};
use crate::error::{ErrorKind, Errors};
use crate::file::Files;
use crate::prelude::{room_for_prelude, Prelude};
use crate::resolve::{
    bind_identifiers, holds_tables, lemma_holds_tables, lemma_tables_held, redefined, renamed, tables_at, NameTables, block_name, grouping_removed, grouping_step, in_forest, join, lemma_forest_kept, lookup,
    scoped_name, ungrouped_below, unresolved_ids, unresolved_message, DefinitionMap,
};
use crate::text::push_decimal;
use vstd::prelude::*;

pub use crate::resolve::Symbols;

verus! {

/// What qualification works on: the symbol tables, the definitions found so
/// far by qualified name, and the identifiers still to bind.
pub type Tables = (Symbols, Map<Seq<char>, AstId>, Seq<AstId>);

/// Symbol tables made of a table of qualified names and a table of definitions.
pub open spec fn tables_of(
    qualified_idents: Arena<AstMarker, String>,
    definitions: Arena<AstMarker, Option<AstId>>,
) -> Symbols {
    Symbols { qualified_idents, definitions }
}

/// What qualifying the names below node `id` in scope `path` makes of the
/// tables `t`: a field or binding names its first child `path.name` (after the
/// child's identifier), makes that child and itself refer to itself, records
/// itself under that name, and qualifies its second child in that scope; an
/// argument qualifies its second child, a projection its first; an identifier
/// is named `path.name` and listed; a block is named `path.__blk` and its
/// index, and qualifies its children in that scope; other nodes qualify their
/// children in order. Children are followed down the ranks of `rank`.
pub open spec fn qualify_spec(ast: Ast, id: AstId, path: Seq<char>, t: NameTables, rank: Map<nat, nat>) -> NameTables
    decreases rank[id@], 1nat, 0nat,
{
    let kind = ast.kind_of(id@);
    let ch = ast.children_of(id@);
    if kind == AstKind::VField || kind == AstKind::TField || kind == AstKind::Bind {
        if ch.len() >= 2 && rank[ch[1]@] < rank[id@] {
            let x = ch[0]@;
            let name = join(path, ast.ident_of(x));
            let t1: NameTables = (
                renamed(t.0, x, name),
                redefined(redefined(t.1, x, Some(id)), id@, Some(id)),
                t.2.insert(name, id),
                t.3,
            );
            qualify_spec(ast, ch[1], name, t1, rank)
        } else {
            t
        }
    } else if kind == AstKind::Arg || kind == AstKind::Proj {
        let c: int = if kind == AstKind::Arg {
            1
        } else {
            0
        };
        if ch.len() > c && rank[ch[c]@] < rank[id@] {
            qualify_spec(ast, ch[c], path, t, rank)
        } else {
            t
        }
    } else if kind == AstKind::VIdent || kind == AstKind::TIdent {
        (renamed(t.0, id@, join(path, ast.ident_of(id@))), t.1, t.2, t.3.push(id))
    } else if kind == AstKind::Block {
        let name = block_name(path, id@);
        children_spec(ast, id, name, (renamed(t.0, id@, name), t.1, t.2, t.3), rank, ch.len())
    } else {
        children_spec(ast, id, path, t, rank, ch.len())
    }
}

/// What qualifying the names below the first `k` children of node `id`, in
/// order and in scope `path`, makes of the tables `t`.
pub open spec fn children_spec(ast: Ast, id: AstId, path: Seq<char>, t: NameTables, rank: Map<nat, nat>, k: nat) -> NameTables
    decreases rank[id@], 0nat, k,
{
    if k == 0 {
        t
    } else {
        let before = children_spec(ast, id, path, t, rank, (k - 1) as nat);
        let c = ast.children_of(id@)[k - 1];
        if k - 1 < ast.children_of(id@).len() && rank[c@] < rank[id@] {
            qualify_spec(ast, c, path, before, rank)
        } else {
            before
        }
    }
}

/// Qualification does not depend on which ranks of which forest it follows.
proof fn lemma_qualify_rank_free(
    ast: Ast,
    id: AstId,
    path: Seq<char>,
    t: NameTables,
    lo1: nat,
    hi1: nat,
    r1: Map<nat, nat>,
    lo2: nat,
    hi2: nat,
    r2: Map<nat, nat>,
)
    requires
        ast.forest(lo1, hi1, r1),
        ast.forest(lo2, hi2, r2),
        lo1 <= id@ < hi1,
        lo2 <= id@ < hi2,
    ensures
        qualify_spec(ast, id, path, t, r1) == qualify_spec(ast, id, path, t, r2),
    decreases r1[id@], 1nat, 0nat,
{
    assert(ast.node_wf(id@, lo1, hi1, r1));
    assert(ast.node_wf(id@, lo2, hi2, r2));
    let kind = ast.kind_of(id@);
    let ch = ast.children_of(id@);
    if kind == AstKind::VField || kind == AstKind::TField || kind == AstKind::Bind {
        let x = ch[0]@;
        let name = join(path, ast.ident_of(x));
        let t1: NameTables = (
            renamed(t.0, x, name),
            redefined(redefined(t.1, x, Some(id)), id@, Some(id)),
            t.2.insert(name, id),
            t.3,
        );
        lemma_qualify_rank_free(ast, ch[1], name, t1, lo1, hi1, r1, lo2, hi2, r2);
    } else if kind == AstKind::Arg || kind == AstKind::Proj {
        let c: int = if kind == AstKind::Arg {
            1
        } else {
            0
        };
        lemma_qualify_rank_free(ast, ch[c], path, t, lo1, hi1, r1, lo2, hi2, r2);
    } else if kind == AstKind::VIdent || kind == AstKind::TIdent {
    } else if kind == AstKind::Block {
        let name = block_name(path, id@);
        lemma_children_rank_free(ast, id, name, (renamed(t.0, id@, name), t.1, t.2, t.3), lo1, hi1, r1, lo2, hi2, r2, ch.len());
    } else {
        lemma_children_rank_free(ast, id, path, t, lo1, hi1, r1, lo2, hi2, r2, ch.len());
    }
}

/// Qualification of the first `k` children does not depend on the ranks
/// either.
proof fn lemma_children_rank_free(
    ast: Ast,
    id: AstId,
    path: Seq<char>,
    t: NameTables,
    lo1: nat,
    hi1: nat,
    r1: Map<nat, nat>,
    lo2: nat,
    hi2: nat,
    r2: Map<nat, nat>,
    k: nat,
)
    requires
        ast.forest(lo1, hi1, r1),
        ast.forest(lo2, hi2, r2),
        lo1 <= id@ < hi1,
        lo2 <= id@ < hi2,
        k <= ast.children_of(id@).len(),
    ensures
        children_spec(ast, id, path, t, r1, k) == children_spec(ast, id, path, t, r2, k),
    decreases r1[id@], 0nat, k,
{
    assert(ast.node_wf(id@, lo1, hi1, r1));
    assert(ast.node_wf(id@, lo2, hi2, r2));
    if k > 0 {
        lemma_children_rank_free(ast, id, path, t, lo1, hi1, r1, lo2, hi2, r2, (k - 1) as nat);
        let before = children_spec(ast, id, path, t, r1, (k - 1) as nat);
        let c = ast.children_of(id@)[k - 1];
        lemma_qualify_rank_free(ast, c, path, before, lo1, hi1, r1, lo2, hi2, r2);
    }
}

/// What qualifying the nodes below a node, in scope `path`, keeps and adds:
/// only nodes of the range ranked at most `top` change; every name given is a
/// scoped name; only definitions of names longer than the scope's are added;
/// and the identifiers listed are nodes of the range ranked at most `top` that
/// now have scoped names.
pub open spec fn qualify_step(
    ast: Ast,
    a: Tables,
    b: Tables,
    path: Seq<char>,
    lo: nat,
    hi: nat,
    rank: Map<nat, nat>,
    top: int,
) -> bool {
    &&& b.0.wf()
    &&& forall|j: nat|
        !(lo <= j < hi && rank[j] <= top) ==> #[trigger] b.0.qualified_of(j) == a.0.qualified_of(j)
            && b.0.definition_of(j) == a.0.definition_of(j)
    &&& forall|j: nat| #[trigger] b.0.qualified_of(j) != a.0.qualified_of(j) ==> scoped_name(b.0.qualified_of(j), path)
    &&& forall|key: Seq<char>|
        key.len() <= path.len() ==> (#[trigger] b.1.contains_key(key) == a.1.contains_key(key) && (a.1.contains_key(
            key,
        ) ==> b.1[key] == a.1[key]))
    &&& b.2.len() >= a.2.len()
    &&& b.2.take(a.2.len() as int) == a.2
    &&& forall|k: int|
        a.2.len() <= k < b.2.len() ==> {
            let x = (#[trigger] b.2[k])@;
            &&& lo <= x < hi
            &&& rank[x] <= top
            &&& (ast.kind_of(x) == AstKind::VIdent || ast.kind_of(x) == AstKind::TIdent)
            &&& scoped_name(b.0.qualified_of(x), path)
        }
}

/// Steps compose, when the second runs in a scope at least as long.
proof fn lemma_step_trans(
    ast: Ast,
    a: Tables,
    b: Tables,
    c: Tables,
    path: Seq<char>,
    path2: Seq<char>,
    lo: nat,
    hi: nat,
    rank: Map<nat, nat>,
    top: int,
)
    requires
        qualify_step(ast, a, b, path, lo, hi, rank, top),
        qualify_step(ast, b, c, path2, lo, hi, rank, top),
        path2.len() >= path.len(),
    ensures
        qualify_step(ast, a, c, path, lo, hi, rank, top),
{
    assert forall|j: nat| #[trigger] c.0.qualified_of(j) != a.0.qualified_of(j) implies scoped_name(
        c.0.qualified_of(j),
        path,
    ) by {
        if c.0.qualified_of(j) == b.0.qualified_of(j) {
            assert(b.0.qualified_of(j) != a.0.qualified_of(j));
        } else {
            assert(scoped_name(c.0.qualified_of(j), path2));
        }
    }
    assert forall|key: Seq<char>| key.len() <= path.len() implies (#[trigger] c.1.contains_key(key) == a.1.contains_key(
        key,
    ) && (a.1.contains_key(key) ==> c.1[key] == a.1[key])) by {
        assert(b.1.contains_key(key) == a.1.contains_key(key));
    }
    let na = a.2.len();
    let nb = b.2.len();
    assert(c.2.take(na as int) =~= a.2) by {
        assert forall|k: int| 0 <= k < na implies c.2[k] == a.2[k] by {
            assert(c.2.take(nb as int)[k] == b.2[k]);
            assert(b.2.take(na as int)[k] == a.2[k]);
        }
    }
    assert forall|k: int| na <= k < c.2.len() implies {
        let x = (#[trigger] c.2[k])@;
        &&& lo <= x < hi
        &&& rank[x] <= top
        &&& (ast.kind_of(x) == AstKind::VIdent || ast.kind_of(x) == AstKind::TIdent)
        &&& scoped_name(c.0.qualified_of(x), path)
    } by {
        let x = c.2[k]@;
        if k < nb {
            assert(c.2.take(nb as int)[k] == b.2[k]);
            assert(b.2[k]@ == x);
            if c.0.qualified_of(x) != b.0.qualified_of(x) {
                assert(scoped_name(c.0.qualified_of(x), path2));
            }
        }
    }
}

/// A step confined to nodes ranked at most `t1` is confined to nodes ranked
/// at most any `t2` above.
proof fn lemma_step_widen(
    ast: Ast,
    a: Tables,
    b: Tables,
    path: Seq<char>,
    lo: nat,
    hi: nat,
    rank: Map<nat, nat>,
    t1: int,
    t2: int,
)
    requires
        qualify_step(ast, a, b, path, lo, hi, rank, t1),
        t1 <= t2,
    ensures
        qualify_step(ast, a, b, path, lo, hi, rank, t2),
{
}

/// Doing nothing is a step.
proof fn lemma_step_refl(ast: Ast, a: Tables, path: Seq<char>, lo: nat, hi: nat, rank: Map<nat, nat>, top: int)
    requires
        a.0.wf(),
    ensures
        qualify_step(ast, a, a, path, lo, hi, rank, top),
{
    assert(a.2.take(a.2.len() as int) =~= a.2);
}

/// Naming node `x` with a scoped name, mapping that name to node `id`, and
/// changing no other node than `x` and `id`, whose name stays, is a step.
proof fn lemma_define_step(
    ast: Ast,
    a: Tables,
    b: Tables,
    id: nat,
    x: nat,
    def: AstId,
    name: Seq<char>,
    path: Seq<char>,
    lo: nat,
    hi: nat,
    rank: Map<nat, nat>,
    top: int,
)
    requires
        b.0.wf(),
        b.0.qualified_of(x) == name,
        b.0.qualified_of(id) == a.0.qualified_of(id),
        forall|j: nat|
            j != id && j != x ==> #[trigger] b.0.qualified_of(j) == a.0.qualified_of(j) && b.0.definition_of(j)
                == a.0.definition_of(j),
        b.1 == a.1.insert(name, def),
        b.2 == a.2,
        scoped_name(name, path),
        lo <= id < hi,
        lo <= x < hi,
        rank[id] <= top,
        rank[x] <= top,
    ensures
        qualify_step(ast, a, b, path, lo, hi, rank, top),
{
    assert(b.2.take(a.2.len() as int) =~= a.2);
}

/// Naming node `id` with a scoped name, and changing nothing else, is a step.
proof fn lemma_name_step(
    ast: Ast,
    a: Tables,
    b: Tables,
    id: nat,
    name: Seq<char>,
    path: Seq<char>,
    lo: nat,
    hi: nat,
    rank: Map<nat, nat>,
    top: int,
)
    requires
        b.0.wf(),
        b.0.qualified_of(id) == name,
        forall|j: nat| j != id ==> #[trigger] b.0.qualified_of(j) == a.0.qualified_of(j),
        b.0.definitions == a.0.definitions,
        b.1 == a.1,
        b.2 == a.2,
        scoped_name(name, path),
        lo <= id < hi,
        rank[id] <= top,
    ensures
        qualify_step(ast, a, b, path, lo, hi, rank, top),
{
    assert(b.2.take(a.2.len() as int) =~= a.2);
}

/// The name `path.ident` as text.
fn joined(path: &str, ident: &str) -> (r: String)
    ensures
        r@ == join(path@, ident@),
{
    proof {
        reveal_strlit(".");
    }
    let mut name = path.to_owned();
    name.append(".");
    name.append(ident);
    proof {
        assert(name@ =~= join(path@, ident@));
    }
    name
}

/// A joined name is scoped in its path.
proof fn lemma_joined_scoped(path: Seq<char>, ident: Seq<char>)
    ensures
        scoped_name(join(path, ident), path),
{
    assert(join(path, ident)[path.len() as int] == '.');
}

impl Ast {
    /// Qualifies the names below node `id` in scope `path`: the first child of
    /// a field or binding gets the name `path.name` (its own identifier) and
    /// refers to the field or binding, which refers to itself and is recorded
    /// under that name, and the second child is qualified in that scope;
    /// identifiers get the name `path.name` and are listed to be bound; blocks
    /// get the name `path.__blk` and their index, and open that scope for their
    /// children; arguments and projections pass on to one child, other nodes
    /// to all of theirs.
    #[verifier::spinoff_prover]
    fn qualify_below(
        &self,
        id: AstId,
        path: &str,
        symbols: &mut Symbols,
        map: &mut DefinitionMap,
        unresolved: &mut Vec<AstId>,
        Ghost(lo): Ghost<nat>,
        Ghost(hi): Ghost<nat>,
        Ghost(rank): Ghost<Map<nat, nat>>,
    )
        requires
            old(symbols).wf(),
            self.forest(lo, hi, rank),
            lo <= id@ < hi,
        ensures
            qualify_step(
                *self,
                (*old(symbols), old(map)@, old(unresolved)@),
                (*final(symbols), final(map)@, final(unresolved)@),
                path@,
                lo,
                hi,
                rank,
                rank[id@] as int,
            ),
            holds_tables(
                *final(symbols),
                final(map)@,
                final(unresolved)@,
                qualify_spec(*self, id, path@, tables_at(*old(symbols), old(map)@, old(unresolved)@), rank),
            ),
            ({
                let kind = self.kind_of(id@);
                if kind == AstKind::VField || kind == AstKind::TField || kind == AstKind::Bind {
                    let name = join(path@, self.ident_of(self.children_of(id@)[0]@));
                    &&& final(symbols).qualified_of(id@) == old(symbols).qualified_of(id@)
                    &&& final(symbols).definition_of(id@) == Some(id)
                    &&& final(map)@.contains_key(name)
                    &&& final(map)@[name] == id
                } else if kind == AstKind::VIdent || kind == AstKind::TIdent {
                    &&& final(symbols).qualified_of(id@) == join(path@, self.ident_of(id@))
                    &&& final(symbols).definitions == old(symbols).definitions
                    &&& final(map)@ == old(map)@
                    &&& final(unresolved)@ == old(unresolved)@.push(id)
                } else if kind == AstKind::Block {
                    &&& final(symbols).qualified_of(id@) == block_name(path@, id@)
                    &&& final(symbols).definition_of(id@) == old(symbols).definition_of(id@)
                } else {
                    &&& final(symbols).qualified_of(id@) == old(symbols).qualified_of(id@)
                    &&& final(symbols).definition_of(id@) == old(symbols).definition_of(id@)
                }
            }),
        decreases rank[id@], 1nat,
    {
        proof {
            assert(self.node_wf(id@, lo, hi, rank));
        }
        let ghost a: Tables = (*symbols, map@, unresolved@);
        let kind = *id.get(&self.kinds);
        if kind == AstKind::VField || kind == AstKind::TField || kind == AstKind::Bind {
            let name_node = id.get(&self.children).get(0);
            let body = id.get(&self.children).get(1);
            proof {
                assert(self.children_of(id@)[0] == name_node);
                assert(self.children_of(id@)[1] == body);
                assert(rank[name_node@] < rank[id@] && rank[body@] < rank[id@]);
            }
            let name = joined(path, name_node.get(&self.idents).as_str());
            let ghost s0 = *symbols;
            symbols.set_qualified(name_node, name.clone());
            let ghost s1 = *symbols;
            map.insert(name.clone(), id);
            symbols.set_definition(name_node, Some(id));
            let ghost s2 = *symbols;
            symbols.set_definition(id, Some(id));
            let ghost b: Tables = (*symbols, map@, unresolved@);
            proof {
                lemma_joined_scoped(path@, self.ident_of(name_node@));
                assert forall|j: nat| j != id@ && j != name_node@ implies #[trigger] symbols.qualified_of(j)
                    == s0.qualified_of(j) && symbols.definition_of(j) == s0.definition_of(j) by {
                    assert(s1.qualified_of(j) == s0.qualified_of(j));
                    assert(s2.definition_of(j) == s1.definition_of(j));
                }
                assert(symbols.qualified_of(id@) == s0.qualified_of(id@)) by {
                    assert(s1.qualified_of(id@) == s0.qualified_of(id@));
                }
                lemma_define_step(*self, a, b, id@, name_node@, id, name@, path@, lo, hi, rank, rank[id@] as int);
                let ta = tables_at(a.0, a.1, a.2);
                let t1: NameTables = (
                    renamed(ta.0, name_node@, name@),
                    redefined(redefined(ta.1, name_node@, Some(id)), id@, Some(id)),
                    ta.2.insert(name@, id),
                    ta.3,
                );
                assert(tables_at(b.0, b.1, b.2).0 =~= t1.0);
                assert(tables_at(b.0, b.1, b.2).1 =~= t1.1);
                assert(tables_at(b.0, b.1, b.2) == t1);
                assert(qualify_spec(*self, id, path@, ta, rank) == qualify_spec(*self, body, name@, t1, rank));
            }
            self.qualify_below(body, name.as_str(), symbols, map, unresolved, Ghost(lo), Ghost(hi), Ghost(rank));
            proof {
                let c: Tables = (*symbols, map@, unresolved@);
                assert(qualify_step(*self, b, c, name@, lo, hi, rank, rank[body@] as int));
                assert(symbols.qualified_of(id@) == b.0.qualified_of(id@));
                assert(symbols.definition_of(id@) == b.0.definition_of(id@));
                assert(c.1.contains_key(name@) == b.1.contains_key(name@));
                lemma_step_widen(*self, b, c, name@, lo, hi, rank, rank[body@] as int, rank[id@] as int);
                lemma_step_trans(*self, a, b, c, path@, name@, lo, hi, rank, rank[id@] as int);
            }
        } else if kind == AstKind::Arg || kind == AstKind::Proj {
            let child = if kind == AstKind::Arg {
                id.get(&self.children).get(1)
            } else {
                id.get(&self.children).get(0)
            };
            proof {
                assert(rank[child@] < rank[id@]);
                let ta = tables_at(a.0, a.1, a.2);
                assert(qualify_spec(*self, id, path@, ta, rank) == qualify_spec(*self, child, path@, ta, rank));
            }
            self.qualify_below(child, path, symbols, map, unresolved, Ghost(lo), Ghost(hi), Ghost(rank));
            proof {
                let c: Tables = (*symbols, map@, unresolved@);
                assert(symbols.qualified_of(id@) == a.0.qualified_of(id@));
                assert(symbols.definition_of(id@) == a.0.definition_of(id@));
                lemma_step_widen(*self, a, c, path@, lo, hi, rank, rank[child@] as int, rank[id@] as int);
            }
        } else if kind == AstKind::VIdent || kind == AstKind::TIdent {
            let name = joined(path, id.get(&self.idents).as_str());
            symbols.set_qualified(id, name);
            unresolved.push(id);
            proof {
                lemma_joined_scoped(path@, self.ident_of(id@));
                assert(unresolved@.take(a.2.len() as int) =~= a.2);
                let ta = tables_at(a.0, a.1, a.2);
                let q = qualify_spec(*self, id, path@, ta, rank);
                assert forall|i: nat| #[trigger] symbols.qualified_of(i) == (q.0)(i) by {}
                assert forall|i: nat| #[trigger] symbols.definition_of(i) == (q.1)(i) by {}
            }
        } else if kind == AstKind::Block {
            let mut name = path.to_owned();
            proof {
                reveal_strlit(".__blk");
            }
            name.append(".__blk");
            push_decimal(&mut name, id.index() as u64);
            symbols.set_qualified(id, name.clone());
            let ghost b: Tables = (*symbols, map@, unresolved@);
            proof {
                assert(name@ =~= block_name(path@, id@));
                assert(name@[path@.len() as int] == '.');
                lemma_name_step(*self, a, b, id@, name@, path@, lo, hi, rank, rank[id@] as int);
                let ta = tables_at(a.0, a.1, a.2);
                let t1: NameTables = (renamed(ta.0, id@, name@), ta.1, ta.2, ta.3);
                assert(tables_at(b.0, b.1, b.2).0 =~= t1.0);
                assert(tables_at(b.0, b.1, b.2).1 =~= t1.1);
                assert(tables_at(b.0, b.1, b.2) == t1);
            }
            self.qualify_children(id, name.as_str(), symbols, map, unresolved, Ghost(lo), Ghost(hi), Ghost(rank));
            proof {
                let c: Tables = (*symbols, map@, unresolved@);
                assert(symbols.qualified_of(id@) == b.0.qualified_of(id@));
                assert(symbols.definition_of(id@) == b.0.definition_of(id@));
                lemma_step_widen(*self, b, c, name@, lo, hi, rank, rank[id@] - 1, rank[id@] as int);
                lemma_step_trans(*self, a, b, c, path@, name@, lo, hi, rank, rank[id@] as int);
            }
        } else {
            self.qualify_children(id, path, symbols, map, unresolved, Ghost(lo), Ghost(hi), Ghost(rank));
            proof {
                let c: Tables = (*symbols, map@, unresolved@);
                assert(symbols.qualified_of(id@) == a.0.qualified_of(id@));
                assert(symbols.definition_of(id@) == a.0.definition_of(id@));
                lemma_step_widen(*self, a, c, path@, lo, hi, rank, rank[id@] - 1, rank[id@] as int);
            }
        }
    }

    /// Qualifies the names below each child of node `id`, in scope `path`.
    fn qualify_children(
        &self,
        id: AstId,
        path: &str,
        symbols: &mut Symbols,
        map: &mut DefinitionMap,
        unresolved: &mut Vec<AstId>,
        Ghost(lo): Ghost<nat>,
        Ghost(hi): Ghost<nat>,
        Ghost(rank): Ghost<Map<nat, nat>>,
    )
        requires
            old(symbols).wf(),
            self.forest(lo, hi, rank),
            lo <= id@ < hi,
        ensures
            qualify_step(
                *self,
                (*old(symbols), old(map)@, old(unresolved)@),
                (*final(symbols), final(map)@, final(unresolved)@),
                path@,
                lo,
                hi,
                rank,
                rank[id@] - 1,
            ),
            holds_tables(
                *final(symbols),
                final(map)@,
                final(unresolved)@,
                children_spec(
                    *self,
                    id,
                    path@,
                    tables_at(*old(symbols), old(map)@, old(unresolved)@),
                    rank,
                    self.children_of(id@).len(),
                ),
            ),
        decreases rank[id@], 0nat,
    {
        proof {
            assert(self.node_wf(id@, lo, hi, rank));
        }
        let ghost a: Tables = (*symbols, map@, unresolved@);
        let n = id.get(&self.children).len();
        let mut i: usize = 0;
        proof {
            lemma_step_refl(*self, a, path@, lo, hi, rank, rank[id@] - 1);
            lemma_tables_held(a.0, a.1, a.2);
        }
        while i < n
            invariant
                i <= n,
                n == self.children_of(id@).len(),
                self.forest(lo, hi, rank),
                self.node_wf(id@, lo, hi, rank),
                lo <= id@ < hi,
                a == (*old(symbols), old(map)@, old(unresolved)@),
                qualify_step(*self, a, (*symbols, map@, unresolved@), path@, lo, hi, rank, rank[id@] - 1),
                holds_tables(
                    *symbols,
                    map@,
                    unresolved@,
                    children_spec(*self, id, path@, tables_at(a.0, a.1, a.2), rank, i as nat),
                ),
            decreases n - i,
        {
            let child = id.get(&self.children).get(i);
            proof {
                assert(self.children_of(id@)[i as int] == child);
                let before = children_spec(*self, id, path@, tables_at(a.0, a.1, a.2), rank, i as nat);
                lemma_holds_tables(*symbols, map@, unresolved@, before);
                assert(rank[child@] < rank[id@]);
                assert(children_spec(*self, id, path@, tables_at(a.0, a.1, a.2), rank, (i + 1) as nat) == qualify_spec(
                    *self,
                    child,
                    path@,
                    before,
                    rank,
                ));
            }
            let ghost b: Tables = (*symbols, map@, unresolved@);
            self.qualify_below(child, path, symbols, map, unresolved, Ghost(lo), Ghost(hi), Ghost(rank));
            proof {
                let c: Tables = (*symbols, map@, unresolved@);
                assert(qualify_step(*self, b, c, path@, lo, hi, rank, rank[id@] - 1));
                lemma_step_trans(*self, a, b, c, path@, path@, lo, hi, rank, rank[id@] - 1);
            }
            i = i + 1;
        }
    }

    /// Qualifies the names below node `id` in scope `path`, as `qualify_below`
    /// does, filling the given tables.
    pub fn qualify_idents(
        &self,
        id: AstId,
        path: &str,
        files: &Files,
        qualified_idents: &mut Arena<AstMarker, String>,
        definitions_map: &mut DefinitionMap,
        definitions: &mut Arena<AstMarker, Option<AstId>>,
        unresolved: &mut Vec<AstId>,
    )
        requires
            old(qualified_idents).wf(),
            old(definitions).wf(),
            in_forest(*self, id@),
        ensures
            final(qualified_idents).wf(),
            final(definitions).wf(),
            ({
                let s0 = tables_of(*old(qualified_idents), *old(definitions));
                let s1 = tables_of(*final(qualified_idents), *final(definitions));
                &&& forall|lo: nat, hi: nat, rank: Map<nat, nat>|
                    lo <= id@ < hi && #[trigger] self.forest(lo, hi, rank) ==> holds_tables(
                        s1,
                        final(definitions_map)@,
                        final(unresolved)@,
                        qualify_spec(*self, id, path@, tables_at(s0, old(definitions_map)@, old(unresolved)@), rank),
                    )
                &&& forall|j: nat| #[trigger] s1.qualified_of(j) != s0.qualified_of(j) ==> scoped_name(s1.qualified_of(j), path@)
                &&& forall|key: Seq<char>|
                    key.len() <= path@.len() ==> (#[trigger] final(definitions_map)@.contains_key(key)
                        == old(definitions_map)@.contains_key(key) && (old(definitions_map)@.contains_key(key)
                        ==> final(definitions_map)@[key] == old(definitions_map)@[key]))
                &&& final(unresolved)@.take(old(unresolved)@.len() as int) == old(unresolved)@
                &&& forall|k: int|
                    old(unresolved)@.len() <= k < final(unresolved)@.len() ==> {
                        let x = (#[trigger] final(unresolved)@[k])@;
                        &&& (self.kind_of(x) == AstKind::VIdent || self.kind_of(x) == AstKind::TIdent)
                        &&& scoped_name(s1.qualified_of(x), path@)
                    }
                &&& {
                    let kind = self.kind_of(id@);
                    if kind == AstKind::VField || kind == AstKind::TField || kind == AstKind::Bind {
                        let name = join(path@, self.ident_of(self.children_of(id@)[0]@));
                        &&& s1.qualified_of(id@) == s0.qualified_of(id@)
                        &&& s1.definition_of(id@) == Some(id)
                        &&& final(definitions_map)@.contains_key(name)
                        &&& final(definitions_map)@[name] == id
                    } else if kind == AstKind::VIdent || kind == AstKind::TIdent {
                        &&& s1.qualified_of(id@) == join(path@, self.ident_of(id@))
                        &&& *final(definitions) == *old(definitions)
                        &&& final(definitions_map)@ == old(definitions_map)@
                        &&& final(unresolved)@ == old(unresolved)@.push(id)
                    } else if kind == AstKind::Block {
                        &&& s1.qualified_of(id@) == block_name(path@, id@)
                        &&& s1.definition_of(id@) == s0.definition_of(id@)
                    } else {
                        &&& s1.qualified_of(id@) == s0.qualified_of(id@)
                        &&& s1.definition_of(id@) == s0.definition_of(id@)
                    }
                }
            }),
    {
        let ghost (lo, hi, rank) = choose|lo: nat, hi: nat, rank: Map<nat, nat>|
            lo <= id@ < hi && #[trigger] self.forest(lo, hi, rank);
        let mut symbols = Symbols { qualified_idents: Arena::new(), definitions: Arena::new() };
        std::mem::swap(&mut symbols.qualified_idents, qualified_idents);
        std::mem::swap(&mut symbols.definitions, definitions);
        let ghost s0 = symbols;
        proof {
            assert(s0 == tables_of(*old(qualified_idents), *old(definitions)));
        }
        self.qualify_below(id, path, &mut symbols, definitions_map, unresolved, Ghost(lo), Ghost(hi), Ghost(rank));
        let ghost s1 = symbols;
        std::mem::swap(&mut symbols.qualified_idents, qualified_idents);
        std::mem::swap(&mut symbols.definitions, definitions);
        proof {
            assert(s1 == tables_of(*qualified_idents, *definitions));
            assert forall|lo2: nat, hi2: nat, r2: Map<nat, nat>| lo2 <= id@ < hi2 && #[trigger] self.forest(lo2, hi2, r2) implies holds_tables(
                s1,
                definitions_map@,
                unresolved@,
                qualify_spec(*self, id, path@, tables_at(s0, old(definitions_map)@, old(unresolved)@), r2),
            ) by {
                lemma_qualify_rank_free(
                    *self,
                    id,
                    path@,
                    tables_at(s0, old(definitions_map)@, old(unresolved)@),
                    lo,
                    hi,
                    rank,
                    lo2,
                    hi2,
                    r2,
                );
            }
            let a: Tables = (s0, old(definitions_map)@, old(unresolved)@);
            let c: Tables = (s1, definitions_map@, unresolved@);
            assert forall|key: Seq<char>| key.len() <= path@.len() implies (#[trigger] definitions_map@.contains_key(key)
                == old(definitions_map)@.contains_key(key) && (old(definitions_map)@.contains_key(key)
                ==> definitions_map@[key] == old(definitions_map)@[key])) by {
                assert(c.1.contains_key(key) == a.1.contains_key(key));
            }
        }
    }

    /// Binds every identifier of `unresolved`, in order, as
    /// [`bind_identifiers`] does, in the given tables.
    pub fn find_definitions(
        &self,
        qualified_idents: &mut Arena<AstMarker, String>,
        definitions_map: &mut DefinitionMap,
        definitions: &mut Arena<AstMarker, Option<AstId>>,
        errors: &mut Errors,
        unresolved: &Vec<AstId>,
    )
        requires
            old(qualified_idents).wf(),
            old(definitions).wf(),
            old(errors).wf(),
            forall|k: int|
                0 <= k < unresolved@.len() ==> {
                    let kind = self.kind_of((#[trigger] unresolved@[k])@);
                    kind == AstKind::VIdent || kind == AstKind::TIdent
                },
        ensures
            final(qualified_idents).wf(),
            final(definitions).wf(),
            final(errors).wf(),
            final(definitions_map)@ == old(definitions_map)@,
            Errors::extends(*old(errors), *final(errors)),
            forall|i: nat|
                old(errors).count() <= i < final(errors).count() ==> #[trigger] final(errors).kind_of(i)
                    == ErrorKind::Resolve,
            ({
                let s0 = tables_of(*old(qualified_idents), *old(definitions));
                let s1 = tables_of(*final(qualified_idents), *final(definitions));
                let map = old(definitions_map)@;
                let ids = unresolved@;
                &&& forall|j: nat|
                    (forall|m: int| 0 <= m < ids.len() ==> ids[m]@ != j) ==> #[trigger] s1.qualified_of(j)
                        == s0.qualified_of(j) && s1.definition_of(j) == s0.definition_of(j)
                &&& ids.no_duplicates() ==> forall|m: int|
                    0 <= m < ids.len() ==> {
                        let id = (#[trigger] ids[m])@;
                        match lookup(map, s0.qualified_of(id)) {
                            Some((name, def)) => s1.qualified_of(id) == name && s1.definition_of(id) == Some(def),
                            None => s1.qualified_of(id) == Seq::<char>::empty() && s1.definition_of(id)
                                == s0.definition_of(id),
                        }
                    }
                &&& {
                    let unbound = unresolved_ids(map, s0, ids);
                    ids.no_duplicates() && old(errors).count() + ids.len() <= 4294967295 ==> {
                        &&& final(errors).count() == old(errors).count() + unbound.len()
                        &&& forall|j: int|
                            0 <= j < unbound.len() ==> {
                                let e = (old(errors).count() + j) as nat;
                                let u = (#[trigger] unbound[j])@;
                                &&& final(errors).message_of(e) == unresolved_message(self.ident_of(u))
                                &&& self.location_of(u) is Some ==> final(errors).location_of(e)
                                    == self.location_of(u)
                            }
                    }
                }
            }),
    {
        let mut symbols = Symbols { qualified_idents: Arena::new(), definitions: Arena::new() };
        std::mem::swap(&mut symbols.qualified_idents, qualified_idents);
        std::mem::swap(&mut symbols.definitions, definitions);
        bind_identifiers(self, &mut symbols, definitions_map, errors, unresolved);
        std::mem::swap(&mut symbols.qualified_idents, qualified_idents);
        std::mem::swap(&mut symbols.definitions, definitions);
    }

    /// Resolves the names of the tree under `root`: the prelude's definitions
    /// are added after the nodes already there, the names below `root` are
    /// qualified from the empty scope, and every identifier found is bound, as
    /// [`Ast::find_definitions`] does. Only name resolution errors are
    /// reported; the tree keeps its nodes, their children and locations.
    pub fn resolve_symbols(&mut self, files: &Files, root: AstId, errors: &mut Errors, prelude: impl Prelude) -> (r: Symbols)
        requires
            old(self).wf(),
            in_forest(*old(self), root@),
            room_for_prelude(old(self).count()),
            old(errors).wf(),
        ensures
            final(self).wf(),
            r.wf(),
            final(errors).wf(),
            final(self).count() >= old(self).count(),
            forall|j: nat| j < old(self).count() ==> #[trigger] final(self).kind_of(j) == old(self).kind_of(j),
            final(self).children == old(self).children,
            final(self).locations == old(self).locations,
            final(self).idents == old(self).idents,
            final(self).literals == old(self).literals,
            Errors::extends(*old(errors), *final(errors)),
            forall|i: nat|
                old(errors).count() <= i < final(errors).count() ==> #[trigger] final(errors).kind_of(i)
                    == ErrorKind::Resolve,
            ({
                let kind = old(self).kind_of(root@);
                kind == AstKind::VField || kind == AstKind::TField || kind == AstKind::Bind ==> r.definition_of(root@)
                    == Some(root)
            }),
    {
        let ghost (lo, hi, rank) = choose|lo: nat, hi: nat, rank: Map<nat, nat>|
            lo <= root@ < hi && #[trigger] self.forest(lo, hi, rank);
        let ghost a0 = *self;
        let mut qualified_idents: Arena<AstMarker, String> = Arena::new();
        let mut qualified_idents_map = DefinitionMap::new();
        let mut definitions: Arena<AstMarker, Option<AstId>> = Arena::new();
        let mut unresolved: Vec<AstId> = Vec::new();
        prelude.apply(&mut self.ids, &mut self.kinds, &mut qualified_idents_map);
        proof {
            assert(Ast::same_nodes(a0, *self, a0.count()));
            lemma_forest_kept(a0, *self, lo, hi, rank);
            assert(lo <= root@ < hi && self.forest(lo, hi, rank));
        }
        self.qualify_idents(root, "", files, &mut qualified_idents, &mut qualified_idents_map, &mut definitions, &mut unresolved);
        let ghost d1 = definitions;
        let ghost q1 = qualified_idents;
        proof {
            assert(unresolved@.take(0) =~= Seq::<AstId>::empty());
        }
        self.find_definitions(&mut qualified_idents, &mut qualified_idents_map, &mut definitions, errors, &unresolved);
        proof {
            let kind = a0.kind_of(root@);
            if kind == AstKind::VField || kind == AstKind::TField || kind == AstKind::Bind {
                assert(self.kind_of(root@) == kind);
                assert forall|m: int| 0 <= m < unresolved@.len() implies unresolved@[m]@ != root@ by {
                    let x = unresolved@[m]@;
                    assert(self.kind_of(x) == AstKind::VIdent || self.kind_of(x) == AstKind::TIdent);
                }
                assert(tables_of(qualified_idents, definitions).qualified_of(root@) == tables_of(q1, d1).qualified_of(root@));
            }
        }
        Symbols { qualified_idents, definitions }
    }

    /// Removes the groups below node `root`: each child that is a group, once
    /// the groups below it are removed, is replaced by the group's only child,
    /// and the group takes that child's location.
    pub fn simplify(&mut self, root: AstId)
        requires
            old(self).wf(),
            in_forest(*old(self), root@),
        ensures
            grouping_step(*old(self), *final(self)),
            grouping_removed(*final(self), root@),
    {
        let ghost (lo, hi, rank) = choose|lo: nat, hi: nat, rank: Map<nat, nat>|
            lo <= root@ < hi && #[trigger] self.forest(lo, hi, rank);
        self.remove_groups_in(root, Ghost(lo), Ghost(hi), Ghost(rank));
    }
}

} // verus!
