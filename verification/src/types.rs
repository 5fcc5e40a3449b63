//! Type checking: every node of the tree is assigned a type, built bottom-up
//! from literals, definitions and operators, and mismatches are reported.
//!
//! The checker follows references between types and definitions, which may
//! form cycles; each recursive walk carries a depth budget, and a walk that
//! exhausts it, or that meets a table in a state no well-formed tree produces,
//! stops and reports that it could not finish (`None`).
use crate::arena::{
    is_default, lemma_default_option, lemma_stored_at_frame, lemma_world_space, Arena, Id, World,
};
use crate::ast::{Ast, AstId, AstKind, AstMarker, InfixKind, Literal};
use crate::error::{ErrorKind, Errors};
use crate::resolve::Symbols;
use crate::text::{decimal, push_decimal, push_signed_decimal, signed_decimal};
use vstd::prelude::*;

verus! {

/// The types of values.
#[derive(Clone, Copy, Debug, PartialEq, Eq, Hash, Structural)]
pub enum Type {
    NoneType,
    String,
    Char,
    I32,
    F32,
    Bool,
    ConstI32(i32),
    ConstBool(bool),
    Struct,
    Tuple,
    Func,
    Vector,
    Array(usize),
    Optional,
    Union,
    Unknown,
    Weak,
}

impl Default for Type {
    fn default() -> (r: Self)
        ensures
            r == Type::Unknown,
    {
        Type::Unknown
    }
}

/// A default type is `Unknown`.
pub proof fn lemma_default_type(t: Type)
    ensures
        is_default(t) ==> t == Type::Unknown,
{
}

/// The kinds of type errors.
#[derive(Clone, Copy, Debug, PartialEq, Eq, Hash, Structural)]
pub enum TypeError {
    VoidHasNoType,
    CannotCallNonFunc,
    ArgumentMismatch,
    ArrayTypeMismatch,
    AssignTypeMismatch,
    NonBooleanCondition,
    OperatorTypeMismatch,
    IllegalAst,
}

/// Marks ids, worlds and arenas that belong to [`Types`].
#[derive(Debug)]
pub struct TypeMarker;

/// The identifier of a type.
pub type TypeId = Id<TypeMarker>;

/// The type table: the types handed out so far with, per type, what it is, the
/// definition of a struct type, and its component types; and, per tree node,
/// the type assigned to it.
pub struct Types {
    pub ids: World<TypeMarker>,
    pub types: Arena<TypeMarker, Type>,
    pub type_definitions: Arena<TypeMarker, Option<AstId>>,
    pub type_children: Arena<TypeMarker, Vec<TypeId>>,
    pub type_assignments: Arena<AstMarker, Option<TypeId>>,
}

/// A default component list is empty.
pub proof fn lemma_default_type_list(v: Vec<TypeId>)
    ensures
        is_default(v) ==> v@ == Seq::<TypeId>::empty(),
{
}

impl Types {
    /// The table's internal consistency.
    pub open spec fn wf(&self) -> bool {
        &&& self.ids.wf()
        &&& self.types.wf()
        &&& self.type_definitions.wf()
        &&& self.type_children.wf()
        &&& self.type_assignments.wf()
    }

    /// The number of types handed out so far.
    pub open spec fn count(&self) -> nat {
        self.ids.allocated()
    }

    /// What type `t` is.
    pub open spec fn type_of(&self, t: TypeId) -> Type {
        self.types.value_at(t@)
    }

    /// The component types of type `t`.
    pub open spec fn children_of(&self, t: TypeId) -> Seq<TypeId> {
        self.type_children.value_at(t@)@
    }

    /// The definition of struct type `t`.
    pub open spec fn definition_of(&self, t: TypeId) -> Option<AstId> {
        self.type_definitions.value_at(t@)
    }

    /// The type assigned to node `i`.
    pub open spec fn assignment_of(&self, i: nat) -> Option<TypeId> {
        self.type_assignments.value_at(i)
    }

    /// Every type that the table refers to has been handed out: the types
    /// assigned to nodes, and the components of each type.
    pub open spec fn closed(&self) -> bool {
        &&& forall|i: nat| #[trigger] self.assignment_of(i) is Some ==> self.assignment_of(i)->0@ < self.count()
        &&& forall|t: TypeId| #[trigger] self.children_of(t).len() > 0 ==> t@ < self.count()
        &&& forall|t: TypeId, k: int|
            0 <= k < self.children_of(t).len() ==> (#[trigger] self.children_of(t)[k])@ < self.count()
    }

    /// An empty table.
    pub fn new() -> (r: Self)
        ensures
            r.wf(),
            r.closed(),
            r.count() == 0,
            forall|i: nat| #[trigger] r.assignment_of(i) is None,
    {
        let r = Types {
            ids: World::new(),
            types: Arena::new(),
            type_definitions: Arena::new(),
            type_children: Arena::new(),
            type_assignments: Arena::new(),
        };
        proof {
            assert forall|i: nat| #[trigger] r.assignment_of(i) is None by {
                lemma_default_option(r.type_assignments.value_at(i));
            }
        }
        r
    }

    /// Hands out a new type, if the table has room for one.
    fn new_type(&mut self) -> (r: Option<TypeId>)
        requires
            old(self).wf(),
            old(self).closed(),
        ensures
            final(self).wf(),
            final(self).closed(),
            r is Some <==> old(self).count() < 4294967295,
            r matches Some(t) ==> t@ == old(self).count() && final(self).count() == old(self).count() + 1,
            r is None ==> *final(self) == *old(self),
            final(self).types == old(self).types,
            final(self).type_definitions == old(self).type_definitions,
            final(self).type_children == old(self).type_children,
            final(self).type_assignments == old(self).type_assignments,
    {
        let n = self.ids.num_allocs();
        if n >= 4294967295 {
            return None;
        }
        proof {
            lemma_world_space(self.ids);
        }
        let t = self.ids.allocate();
        proof {
            lemma_closed_kept(*old(self), *self);
        }
        Some(t)
    }

    /// Hands out a new type of kind `ty`, if the table has room for one.
    fn new_type_of(&mut self, ty: Type) -> (r: Option<TypeId>)
        requires
            old(self).wf(),
            old(self).closed(),
            ty != Type::Unknown,
        ensures
            tstep(*old(self), *final(self)),
            final(self).wf(),
            final(self).closed(),
            r is Some <==> old(self).count() < 4294967295,
            r matches Some(t) ==> t@ == old(self).count() && final(self).count() == old(self).count() + 1
                && final(self).type_of(t) == ty,
            r is None ==> *final(self) == *old(self),
            forall|u: TypeId| (r is None || u@ != r->0@) ==> #[trigger] final(self).type_of(u) == old(self).type_of(u),
            final(self).type_definitions == old(self).type_definitions,
            final(self).type_children == old(self).type_children,
            final(self).type_assignments == old(self).type_assignments,
    {
        match self.new_type() {
            None => None,
            Some(t) => {
                let ghost mid = *self;
                self.set_type(t, ty);
                proof {
                    assert forall|u: TypeId| u@ != t@ implies #[trigger] self.type_of(u) == old(self).type_of(u) by {
                        assert(mid.type_of(u) == old(self).type_of(u));
                    }
                }
                Some(t)
            },
        }
    }

    /// Sets what type `t` is.
    fn set_type(&mut self, t: TypeId, ty: Type)
        requires
            old(self).wf(),
            old(self).closed(),
            ty != Type::Unknown,
        ensures
            tstep(*old(self), *final(self)),
            final(self).wf(),
            final(self).closed(),
            final(self).type_of(t) == ty,
            forall|u: TypeId| u@ != t@ ==> #[trigger] final(self).type_of(u) == old(self).type_of(u),
            final(self).ids == old(self).ids,
            final(self).type_definitions == old(self).type_definitions,
            final(self).type_children == old(self).type_children,
            final(self).type_assignments == old(self).type_assignments,
    {
        let ghost before = self.types;
        t.put(&mut self.types, ty);
        proof {
            assert forall|u: TypeId| u@ != t@ implies #[trigger] self.type_of(u) == old(self).type_of(u) by {
                lemma_stored_at_frame(before, self.types, t@, ty, u@);
                lemma_default_type(self.type_of(u));
                lemma_default_type(before.value_at(u@));
            }
            lemma_closed_kept(*old(self), *self);
        }
    }

    /// Sets the definition of struct type `t`.
    fn set_definition(&mut self, t: TypeId, def: Option<AstId>)
        requires
            old(self).wf(),
            old(self).closed(),
        ensures
            tstep(*old(self), *final(self)),
            final(self).wf(),
            final(self).closed(),
            final(self).definition_of(t) == def,
            forall|u: TypeId| u@ != t@ ==> #[trigger] final(self).definition_of(u) == old(self).definition_of(u),
            final(self).ids == old(self).ids,
            final(self).types == old(self).types,
            final(self).type_children == old(self).type_children,
            final(self).type_assignments == old(self).type_assignments,
    {
        let ghost before = self.type_definitions;
        t.put(&mut self.type_definitions, def);
        proof {
            assert forall|u: TypeId| u@ != t@ implies #[trigger] self.definition_of(u) == old(self).definition_of(u) by {
                lemma_stored_at_frame(before, self.type_definitions, t@, def, u@);
                lemma_default_option(self.definition_of(u));
                lemma_default_option(before.value_at(u@));
            }
            lemma_closed_kept(*old(self), *self);
        }
    }

    /// Appends `child` to the components of type `t`.
    fn push_child(&mut self, t: TypeId, child: TypeId)
        requires
            old(self).wf(),
            old(self).closed(),
            child@ < old(self).count(),
            t@ < old(self).count(),
        ensures
            tstep(*old(self), *final(self)),
            final(self).wf(),
            final(self).closed(),
            final(self).children_of(t) == old(self).children_of(t).push(child),
            forall|u: TypeId| u@ != t@ ==> #[trigger] final(self).children_of(u) == old(self).children_of(u),
            final(self).ids == old(self).ids,
            final(self).types == old(self).types,
            final(self).type_definitions == old(self).type_definitions,
            final(self).type_assignments == old(self).type_assignments,
    {
        let ghost old_children = self.type_children;
        let list = t.get_mut(&mut self.type_children);
        let ghost before = *list;
        list.push(child);
        proof {
            let grown = self.type_children.slots().update(t@ as int, before);
            crate::arena::lemma_grown_to_frame(old_children, grown, t@ + 1, t@);
            lemma_default_type_list(before);
            lemma_default_type_list(old_children.value_at(t@));
            assert forall|u: TypeId| u@ != t@ implies #[trigger] self.children_of(u) == old(self).children_of(u) by {
                crate::arena::lemma_grown_to_frame(old_children, grown, t@ + 1, u@);
                lemma_default_type_list(crate::arena::slot_value(grown, old_children.fallback(), u@));
                lemma_default_type_list(old_children.value_at(u@));
                assert(self.type_children.value_at(u@) == crate::arena::slot_value(grown, old_children.fallback(), u@));
            }
            assert forall|u: TypeId, k: int|
                0 <= k < self.children_of(u).len() implies (#[trigger] self.children_of(u)[k])@ < self.count() by {
                if u@ != t@ {
                    assert(self.children_of(u) == old(self).children_of(u));
                    assert(old(self).children_of(u)[k] == self.children_of(u)[k]);
                } else if k < old(self).children_of(u).len() {
                    assert(self.children_of(u)[k] == old(self).children_of(t)[k]);
                    assert(old(self).children_of(u) == old(self).children_of(t));
                }
            }
            assert forall|i: nat| #[trigger] self.assignment_of(i) is Some implies self.assignment_of(i)->0@
                < self.count() by {
                assert(self.assignment_of(i) == old(self).assignment_of(i));
            }
            assert forall|u: TypeId| #[trigger] self.children_of(u).len() > 0 implies u@ < self.count() by {
                if u@ != t@ {
                    assert(self.children_of(u) == old(self).children_of(u));
                }
            }
        }
    }

    /// Assigns type `t` to node `id`.
    fn assign(&mut self, id: AstId, t: TypeId) -> (r: TypeId)
        requires
            old(self).wf(),
            old(self).closed(),
            t@ < old(self).count(),
        ensures
            tstep(*old(self), *final(self)),
            r == t,
            final(self).wf(),
            final(self).closed(),
            final(self).assignment_of(id@) == Some(t),
            forall|i: nat| i != id@ ==> #[trigger] final(self).assignment_of(i) == old(self).assignment_of(i),
            final(self).ids == old(self).ids,
            final(self).types == old(self).types,
            final(self).type_definitions == old(self).type_definitions,
            final(self).type_children == old(self).type_children,
    {
        let ghost before = self.type_assignments;
        id.put(&mut self.type_assignments, Some(t));
        proof {
            assert forall|i: nat| i != id@ implies #[trigger] self.assignment_of(i) == old(self).assignment_of(i) by {
                lemma_stored_at_frame(before, self.type_assignments, id@, Some(t), i);
                lemma_default_option(self.assignment_of(i));
                lemma_default_option(before.value_at(i));
            }
            assert forall|i: nat| #[trigger] self.assignment_of(i) is Some implies self.assignment_of(i)->0@
                < self.count() by {
                if i != id@ {
                    assert(self.assignment_of(i) == old(self).assignment_of(i));
                }
            }
            assert forall|u: TypeId, k: int|
                0 <= k < self.children_of(u).len() implies (#[trigger] self.children_of(u)[k])@ < self.count() by {
                assert(self.children_of(u) == old(self).children_of(u));
                assert(old(self).children_of(u)[k] == self.children_of(u)[k]);
            }
            assert forall|u: TypeId| #[trigger] self.children_of(u).len() > 0 implies u@ < self.count() by {
                assert(self.children_of(u) == old(self).children_of(u));
            }
        }
        t
    }

    /// Gives node `id` a type of kind `ty`: its assigned type is reused if it
    /// has one, otherwise a new type is handed out (if there is room) and
    /// assigned to it.
    fn assign_new(&mut self, id: AstId, ty: Type) -> (r: Option<TypeId>)
        requires
            old(self).wf(),
            old(self).closed(),
            ty != Type::Unknown,
        ensures
            tstep(*old(self), *final(self)),
            final(self).wf(),
            final(self).closed(),
            r matches Some(t) ==> {
                &&& final(self).assignment_of(id@) == Some(t)
                &&& final(self).type_of(t) == ty
                &&& t@ < final(self).count()
                &&& old(self).assignment_of(id@) matches Some(u) ==> t == u
                &&& old(self).assignment_of(id@) is None ==> t@ == old(self).count() && final(self).count()
                    == old(self).count() + 1
            },
            r is None ==> old(self).assignment_of(id@) is None && *final(self) == *old(self),
            room_for(*old(self), id) ==> r is Some,
            forall|u: TypeId| (r is None || u@ != r->0@) ==> #[trigger] final(self).type_of(u) == old(self).type_of(u),
            forall|i: nat| i != id@ ==> #[trigger] final(self).assignment_of(i) == old(self).assignment_of(i),
            final(self).count() >= old(self).count(),
            final(self).type_definitions == old(self).type_definitions,
            final(self).type_children == old(self).type_children,
    {
        match *id.get(&self.type_assignments) {
            Some(t) => {
                proof {
                    assert(old(self).assignment_of(id@) == Some(t));
                }
                self.set_type(t, ty);
                Some(t)
            },
            None => {
                match self.new_type_of(ty) {
                    None => None,
                    Some(t) => {
                        let ghost mid = *self;
                        self.assign(id, t);
                        proof {
                            assert forall|u: TypeId| u@ != t@ implies #[trigger] self.type_of(u) == old(self).type_of(u) by {
                                assert(mid.type_of(u) == old(self).type_of(u));
                            }
                        }
                        Some(t)
                    },
                }
            },
        }
    }
}

/// The table stays closed while it only grows and no assignment or component
/// list changes.
pub proof fn lemma_closed_kept(a: Types, b: Types)
    requires
        a.closed(),
        b.count() >= a.count(),
        b.type_assignments == a.type_assignments,
        b.type_children == a.type_children,
    ensures
        b.closed(),
{
    assert forall|i: nat| #[trigger] b.assignment_of(i) is Some implies b.assignment_of(i)->0@ < b.count() by {
        assert(b.assignment_of(i) == a.assignment_of(i));
    }
    assert forall|t: TypeId| #[trigger] b.children_of(t).len() > 0 implies t@ < b.count() by {
        assert(b.children_of(t) == a.children_of(t));
    }
    assert forall|t: TypeId, k: int|
        0 <= k < b.children_of(t).len() implies (#[trigger] b.children_of(t)[k])@ < b.count() by {
        assert(b.children_of(t) == a.children_of(t));
        assert(a.children_of(t)[k] == b.children_of(t)[k]);
    }
}

impl Default for Types {
    fn default() -> (r: Self)
        ensures
            r.wf(),
            r.closed(),
            r.count() == 0,
            forall|i: nat| #[trigger] r.assignment_of(i) is None,
    {
        Types::new()
    }
}

/// Component `k` of type `t`, if it has one.
pub open spec fn child_at(ts: Types, t: TypeId, k: int) -> Option<TypeId> {
    if 0 <= k < ts.children_of(t).len() {
        Some(ts.children_of(t)[k])
    } else {
        None
    }
}

/// The depth budget of a walk over pairs of types, for a table of `n` types:
/// one more than the number of pairs, so that a walk that does not revisit a
/// pair never runs out.
pub open spec fn pair_budget(n: nat) -> nat {
    if n < 4294967295 {
        n * n + 1
    } else {
        18446744073709551615
    }
}

/// Whether a value of type `lhs` is also one of type `rhs`, within depth
/// `fuel` (`None` when the walk runs out of depth or meets a type that lacks a
/// component it must have).
pub open spec fn subtype_spec(ts: Types, lhs: TypeId, rhs: TypeId, fuel: nat) -> Option<bool>
    decreases fuel, ts.children_of(lhs).len() + 1,
{
    if fuel == 0 {
        None
    } else {
        let f = (fuel - 1) as nat;
        let a = ts.type_of(lhs);
        let b = ts.type_of(rhs);
        if a == Type::Weak || b == Type::Weak {
            Some(true)
        } else {
            match (a, b) {
                (Type::NoneType, Type::NoneType) => Some(true),
                (Type::String, Type::String) => Some(true),
                (Type::Char, Type::Char) => Some(true),
                (Type::I32, Type::I32) => Some(true),
                (Type::F32, Type::F32) => Some(true),
                (Type::Bool, Type::Bool) => Some(true),
                (Type::ConstBool(x), Type::ConstBool(y)) => Some(x == y),
                (Type::ConstBool(_), Type::Bool) => Some(true),
                (Type::ConstI32(_), Type::I32) => Some(true),
                (Type::ConstI32(x), Type::ConstI32(y)) => Some(x == y),
                (Type::Struct, Type::Struct) => Some(lhs@ == rhs@),
                (Type::Tuple, Type::Tuple) | (Type::Tuple, Type::Struct) => {
                    if ts.children_of(lhs).len() != ts.children_of(rhs).len() {
                        Some(false)
                    } else {
                        all_subtype_spec(ts, ts.children_of(lhs), ts.children_of(rhs), 0, fuel)
                    }
                },
                (Type::Array(n1), Type::Array(n2)) => {
                    if n1 != n2 {
                        Some(false)
                    } else {
                        match (child_at(ts, lhs, 0), child_at(ts, rhs, 0)) {
                            (Some(l), Some(r)) => subtype_spec(ts, l, r, f),
                            _ => None,
                        }
                    }
                },
                (Type::Array(n), Type::Vector) => {
                    if n == 0 {
                        Some(true)
                    } else {
                        match (child_at(ts, lhs, 0), child_at(ts, rhs, 0)) {
                            (Some(l), Some(r)) => subtype_spec(ts, l, r, f),
                            _ => None,
                        }
                    }
                },
                (Type::Vector, Type::Vector) => match (child_at(ts, lhs, 0), child_at(ts, rhs, 0)) {
                    (Some(l), Some(r)) => subtype_spec(ts, l, r, f),
                    _ => None,
                },
                (Type::Func, Type::Func) => match (
                    child_at(ts, lhs, 0),
                    child_at(ts, rhs, 0),
                    child_at(ts, lhs, 1),
                    child_at(ts, rhs, 1),
                ) {
                    (Some(l0), Some(r0), Some(l1), Some(r1)) => match subtype_spec(ts, r0, l0, f) {
                        None => None,
                        Some(false) => Some(false),
                        Some(true) => subtype_spec(ts, l1, r1, f),
                    },
                    _ => None,
                },
                (_, Type::Optional) => match child_at(ts, rhs, 0) {
                    Some(r) => subtype_spec(ts, lhs, r, f),
                    None => None,
                },
                _ => Some(false),
            }
        }
    }
}

/// Whether each of `l[i..]` is a subtype of the type at the same position of
/// `r`, checked in order, each within depth `fuel - 1`.
pub open spec fn all_subtype_spec(ts: Types, l: Seq<TypeId>, r: Seq<TypeId>, i: int, fuel: nat) -> Option<bool>
    decreases fuel, l.len() - i,
{
    if fuel == 0 || i < 0 || i >= l.len() || i >= r.len() {
        Some(true)
    } else {
        match subtype_spec(ts, l[i], r[i], (fuel - 1) as nat) {
            None => None,
            Some(false) => Some(false),
            Some(true) => all_subtype_spec(ts, l, r, i + 1, fuel),
        }
    }
}

impl Types {
    /// Component `k` of type `t`, if it has one.
    fn child(&self, t: TypeId, k: usize) -> (r: Option<TypeId>)
        ensures
            r == child_at(*self, t, k as int),
    {
        let kids = t.get(&self.type_children);
        if k < kids.len() {
            Some(kids[k])
        } else {
            None
        }
    }

    /// Whether a value of type `lhs` is also one of type `rhs`, within depth
    /// `fuel`.
    fn subtype_fuel(&self, lhs: TypeId, rhs: TypeId, fuel: u64) -> (r: Option<bool>)
        ensures
            r == subtype_spec(*self, lhs, rhs, fuel as nat),
        decreases fuel, self.children_of(lhs).len() + 1,
    {
        if fuel == 0 {
            return None;
        }
        let f = fuel - 1;
        let a = *lhs.get(&self.types);
        let b = *rhs.get(&self.types);
        if a == Type::Weak || b == Type::Weak {
            return Some(true);
        }
        match (a, b) {
            (Type::NoneType, Type::NoneType) => Some(true),
            (Type::String, Type::String) => Some(true),
            (Type::Char, Type::Char) => Some(true),
            (Type::I32, Type::I32) => Some(true),
            (Type::F32, Type::F32) => Some(true),
            (Type::Bool, Type::Bool) => Some(true),
            (Type::ConstBool(x), Type::ConstBool(y)) => Some(x == y),
            (Type::ConstBool(_), Type::Bool) => Some(true),
            (Type::ConstI32(_), Type::I32) => Some(true),
            (Type::ConstI32(x), Type::ConstI32(y)) => Some(x == y),
            (Type::Struct, Type::Struct) => Some(lhs.index() == rhs.index()),
            (Type::Tuple, Type::Tuple) | (Type::Tuple, Type::Struct) => {
                let l = lhs.get(&self.type_children);
                let r = rhs.get(&self.type_children);
                if l.len() != r.len() {
                    return Some(false);
                }
                let mut i: usize = 0;
                while i < l.len()
                    invariant
                        fuel > 0,
                        f == fuel - 1,
                        subtype_spec(*self, lhs, rhs, fuel as nat) == all_subtype_spec(*self, l@, r@, 0, fuel as nat),
                        l@ == self.children_of(lhs),
                        r@ == self.children_of(rhs),
                        l@.len() == r@.len(),
                        i <= l@.len(),
                        all_subtype_spec(*self, l@, r@, 0, fuel as nat) == all_subtype_spec(*self, l@, r@, i as int, fuel as nat),
                    decreases l@.len() - i,
                {
                    match self.subtype_fuel(l[i], r[i], f) {
                        None => return None,
                        Some(false) => return Some(false),
                        Some(true) => {},
                    }
                    i = i + 1;
                }
                Some(true)
            },
            (Type::Array(n1), Type::Array(n2)) => {
                if n1 != n2 {
                    return Some(false);
                }
                match (self.child(lhs, 0), self.child(rhs, 0)) {
                    (Some(l), Some(r)) => self.subtype_fuel(l, r, f),
                    _ => None,
                }
            },
            (Type::Array(n), Type::Vector) => {
                if n == 0 {
                    return Some(true);
                }
                match (self.child(lhs, 0), self.child(rhs, 0)) {
                    (Some(l), Some(r)) => self.subtype_fuel(l, r, f),
                    _ => None,
                }
            },
            (Type::Vector, Type::Vector) => match (self.child(lhs, 0), self.child(rhs, 0)) {
                (Some(l), Some(r)) => self.subtype_fuel(l, r, f),
                _ => None,
            },
            (Type::Func, Type::Func) => match (self.child(lhs, 0), self.child(rhs, 0), self.child(lhs, 1), self.child(rhs, 1)) {
                (Some(l0), Some(r0), Some(l1), Some(r1)) => match self.subtype_fuel(r0, l0, f) {
                    None => None,
                    Some(false) => Some(false),
                    Some(true) => self.subtype_fuel(l1, r1, f),
                },
                _ => None,
            },
            (_, Type::Optional) => match self.child(rhs, 0) {
                Some(r) => self.subtype_fuel(lhs, r, f),
                None => None,
            },
            _ => Some(false),
        }
    }

    /// The depth budget for walks over pairs of types of this table.
    fn pair_budget(&self) -> (r: u64)
        ensures
            r == pair_budget(self.count()),
    {
        let n = self.ids.num_allocs();
        if n < 4294967295 {
            assert(n * n + 1 <= 18446744073709551615) by (nonlinear_arith)
                requires
                    n < 4294967295,
            ;
            (n as u64) * (n as u64) + 1
        } else {
            18446744073709551615u64
        }
    }

    /// Whether a value of type `lhs` is also one of type `rhs`: `Weak` on
    /// either side matches; constants match their type and equal constants;
    /// a struct only itself; a tuple a tuple or struct of as many components,
    /// each a subtype; an array an array of the same length or a vector, whose
    /// elements are subtypes (an empty array any vector); a vector a vector of
    /// supertypes; a function a function of supertype parameters and subtype
    /// result; any type an optional of a supertype.
    fn subtype(&self, lhs: TypeId, rhs: TypeId) -> (r: Option<bool>)
        ensures
            r == subtype_spec(*self, lhs, rhs, pair_budget(self.count())),
    {
        let budget = self.pair_budget();
        self.subtype_fuel(lhs, rhs, budget)
    }

    /// Whether `lhs` is a supertype of `rhs`.
    fn supertype(&self, lhs: TypeId, rhs: TypeId) -> (r: Option<bool>)
        ensures
            r == subtype_spec(*self, rhs, lhs, pair_budget(self.count())),
    {
        self.subtype(rhs, lhs)
    }

    /// Whether `lhs` and `rhs` are subtypes of each other; the second check is
    /// made only when the first holds.
    fn equal(&self, lhs: TypeId, rhs: TypeId) -> (r: Option<bool>)
        ensures
            r == match subtype_spec(*self, lhs, rhs, pair_budget(self.count())) {
                Some(true) => subtype_spec(*self, rhs, lhs, pair_budget(self.count())),
                other => other,
            },
    {
        match self.subtype(lhs, rhs) {
            Some(true) => self.subtype(rhs, lhs),
            other => other,
        }
    }
}

/// How `{:?}` renders a type.
pub open spec fn debug_text(ty: Type) -> Seq<char> {
    match ty {
        Type::NoneType => "None"@,
        Type::String => "String"@,
        Type::Char => "Char"@,
        Type::I32 => "I32"@,
        Type::F32 => "F32"@,
        Type::Bool => "Bool"@,
        Type::ConstI32(i) => "ConstI32("@ + signed_decimal(i as int) + ")"@,
        Type::ConstBool(b) => if b {
            "ConstBool(true)"@
        } else {
            "ConstBool(false)"@
        },
        Type::Struct => "Struct"@,
        Type::Tuple => "Tuple"@,
        Type::Func => "Func"@,
        Type::Vector => "Vector"@,
        Type::Array(n) => "Array("@ + decimal(n as nat) + ")"@,
        Type::Optional => "Optional"@,
        Type::Union => "Union"@,
        Type::Unknown => "Unknown"@,
        Type::Weak => "Weak"@,
    }
}

/// How `{:?}` renders a type.
pub fn debug_string(ty: Type) -> (r: String)
    ensures
        r@ == debug_text(ty),
{
    match ty {
        Type::NoneType => "None".to_owned(),
        Type::String => "String".to_owned(),
        Type::Char => "Char".to_owned(),
        Type::I32 => "I32".to_owned(),
        Type::F32 => "F32".to_owned(),
        Type::Bool => "Bool".to_owned(),
        Type::ConstI32(i) => {
            let mut buf = "ConstI32(".to_owned();
            push_signed_decimal(&mut buf, i as i64);
            buf.append(")");
            buf
        },
        Type::ConstBool(b) => if b {
            "ConstBool(true)".to_owned()
        } else {
            "ConstBool(false)".to_owned()
        },
        Type::Struct => "Struct".to_owned(),
        Type::Tuple => "Tuple".to_owned(),
        Type::Func => "Func".to_owned(),
        Type::Vector => "Vector".to_owned(),
        Type::Array(n) => {
            let mut buf = "Array(".to_owned();
            push_decimal(&mut buf, n as u64);
            buf.append(")");
            buf
        },
        Type::Optional => "Optional".to_owned(),
        Type::Union => "Union".to_owned(),
        Type::Unknown => "Unknown".to_owned(),
        Type::Weak => "Weak".to_owned(),
    }
}

/// The separator written before element `j` of a list: none before the first.
pub open spec fn sep_before(j: int, sep: Seq<char>) -> Seq<char> {
    if j > 0 {
        sep
    } else {
        Seq::empty()
    }
}

/// How type `t` is written, within depth `fuel`: a primitive by its name, a
/// constant by its value, a tuple as its components in parentheses, a struct
/// by its name (or, expanded, as its field names and types in parentheses), a
/// function as its parameter and result types, a vector or array as brackets
/// (with the length of an array) before the element type, an optional as its
/// type followed by `?`, and a union as its members separated by `|`. `None`
/// when the walk runs out of depth or meets a type that lacks what it needs.
pub open spec fn type_text(ts: Types, ast: Ast, t: TypeId, expand: bool, fuel: nat) -> Option<Seq<char>>
    decreases fuel, ts.children_of(t).len() + 1,
{
    if fuel == 0 {
        None
    } else {
        let f = (fuel - 1) as nat;
        match ts.type_of(t) {
            Type::NoneType => Some("_"@),
            Type::String => Some("String"@),
            Type::Char => Some("Char"@),
            Type::I32 => Some("I32"@),
            Type::ConstI32(i) => Some(signed_decimal(i as int)),
            Type::F32 => Some("F32"@),
            Type::Bool => Some("Bool"@),
            Type::ConstBool(b) => Some(
                if b {
                    "true"@
                } else {
                    "false"@
                },
            ),
            Type::Tuple => match list_text(ts, ast, ts.children_of(t), 0, ", "@, Seq::empty(), fuel) {
                Some(x) => Some("("@ + x + ")"@),
                None => None,
            },
            Type::Struct => match ts.definition_of(t) {
                None => None,
                Some(def) => if expand {
                    if ast.children_of(def@).len() == 0 {
                        None
                    } else {
                        let sid = ast.children_of(def@)[0];
                        match fields_text(ts, ast, ts.children_of(t), ast.children_of(sid@), 0, Seq::empty(), fuel) {
                            Some(x) => Some("("@ + x + ")"@),
                            None => None,
                        }
                    }
                } else {
                    Some(ast.ident_of(def@))
                },
            },
            Type::Func => match (child_at(ts, t, 0), child_at(ts, t, 1)) {
                (Some(c0), Some(c1)) => match (type_text(ts, ast, c0, false, f), type_text(ts, ast, c1, false, f)) {
                    (Some(x), Some(y)) => Some(x + " "@ + y),
                    _ => None,
                },
                _ => None,
            },
            Type::Vector => match child_at(ts, t, 0) {
                Some(c0) => match type_text(ts, ast, c0, false, f) {
                    Some(x) => Some("[]"@ + x),
                    None => None,
                },
                None => None,
            },
            Type::Array(n) => if n == 0 {
                Some("[]"@)
            } else {
                match child_at(ts, t, 0) {
                    Some(c0) => match type_text(ts, ast, c0, false, f) {
                        Some(x) => Some("["@ + decimal(n as nat) + "]"@ + x),
                        None => None,
                    },
                    None => None,
                }
            },
            Type::Optional => match child_at(ts, t, 0) {
                Some(c0) => match type_text(ts, ast, c0, false, f) {
                    Some(x) => Some(x + "?"@),
                    None => None,
                },
                None => None,
            },
            Type::Union => list_text(ts, ast, ts.children_of(t), 0, "|"@, Seq::empty(), fuel),
            Type::Unknown => Some("Unassigned"@),
            Type::Weak => Some("Unknown"@),
        }
    }
}

/// `acc` followed by the types `kids[i..]`, each written within depth
/// `fuel - 1` and preceded by `sep` unless it is the first of the list.
pub open spec fn list_text(
    ts: Types,
    ast: Ast,
    kids: Seq<TypeId>,
    i: int,
    sep: Seq<char>,
    acc: Seq<char>,
    fuel: nat,
) -> Option<Seq<char>>
    decreases fuel, kids.len() - i,
{
    if fuel == 0 || i < 0 || i >= kids.len() {
        Some(acc)
    } else {
        match type_text(ts, ast, kids[i], false, (fuel - 1) as nat) {
            None => None,
            Some(x) => list_text(ts, ast, kids, i + 1, sep, acc + sep_before(i, sep) + x, fuel),
        }
    }
}

/// `acc` followed by the fields `fields[i..]` with their types `kids[i..]`, as
/// far as both go: each the field's name, a space and its type (written within
/// depth `fuel - 1`), separated by `, `.
pub open spec fn fields_text(
    ts: Types,
    ast: Ast,
    kids: Seq<TypeId>,
    fields: Seq<AstId>,
    i: int,
    acc: Seq<char>,
    fuel: nat,
) -> Option<Seq<char>>
    decreases fuel, kids.len() - i,
{
    if fuel == 0 || i < 0 || i >= kids.len() || i >= fields.len() {
        Some(acc)
    } else {
        match type_text(ts, ast, kids[i], false, (fuel - 1) as nat) {
            None => None,
            Some(x) => fields_text(
                ts,
                ast,
                kids,
                fields,
                i + 1,
                acc + sep_before(i, ", "@) + ast.ident_of(fields[i]@) + " "@ + x,
                fuel,
            ),
        }
    }
}

/// The depth budget of a walk over single types, for a table of `n` types: a
/// walk that does not revisit a type never runs out.
pub open spec fn walk_budget(n: nat) -> nat {
    n + 2
}

impl Types {
    /// Writes type `t` into `buf`, within depth `fuel`; returns whether the
    /// walk finished.
    fn write_type_fuel(&self, t: TypeId, expand: bool, ast: &Ast, buf: &mut String, fuel: u64) -> (r: bool)
        ensures
            r == type_text(*self, *ast, t, expand, fuel as nat) is Some,
            type_text(*self, *ast, t, expand, fuel as nat) matches Some(x) ==> final(buf)@ == old(buf)@ + x,
        decreases fuel, self.children_of(t).len() + 1,
    {
        if fuel == 0 {
            return false;
        }
        let f = fuel - 1;
        match *t.get(&self.types) {
            Type::NoneType => {
                buf.append("_");
                true
            },
            Type::String => {
                buf.append("String");
                true
            },
            Type::Char => {
                buf.append("Char");
                true
            },
            Type::I32 => {
                buf.append("I32");
                true
            },
            Type::ConstI32(i) => {
                push_signed_decimal(buf, i as i64);
                true
            },
            Type::F32 => {
                buf.append("F32");
                true
            },
            Type::Bool => {
                buf.append("Bool");
                true
            },
            Type::ConstBool(b) => {
                if b {
                    buf.append("true");
                } else {
                    buf.append("false");
                }
                true
            },
            Type::Tuple => {
                buf.append("(");
                let ghost start = buf@;
                if !self.write_list(t, ast, buf, ", ", fuel) {
                    return false;
                }
                buf.append(")");
                proof {
                    let x = buf@.subrange(start.len() as int, buf@.len() - 1);
                    assert(old(buf)@ + "("@ == start);
                }
                true
            },
            Type::Struct => {
                match *t.get(&self.type_definitions) {
                    None => false,
                    Some(def) => {
                        if expand {
                            let fields_of_def = def.get(&ast.children);
                            if fields_of_def.len() == 0 {
                                return false;
                            }
                            let sid = fields_of_def.get(0);
                            buf.append("(");
                            if !self.write_fields(t, sid, ast, buf, fuel) {
                                return false;
                            }
                            buf.append(")");
                            true
                        } else {
                            buf.append(def.get(&ast.idents).as_str());
                            true
                        }
                    },
                }
            },
            Type::Func => {
                match (self.child(t, 0), self.child(t, 1)) {
                    (Some(c0), Some(c1)) => {
                        if !self.write_type_fuel(c0, false, ast, buf, f) {
                            return false;
                        }
                        buf.append(" ");
                        self.write_type_fuel(c1, false, ast, buf, f)
                    },
                    _ => false,
                }
            },
            Type::Vector => {
                match self.child(t, 0) {
                    Some(c0) => {
                        buf.append("[]");
                        self.write_type_fuel(c0, false, ast, buf, f)
                    },
                    None => false,
                }
            },
            Type::Array(n) => {
                if n == 0 {
                    buf.append("[]");
                    return true;
                }
                match self.child(t, 0) {
                    Some(c0) => {
                        buf.append("[");
                        push_decimal(buf, n as u64);
                        buf.append("]");
                        self.write_type_fuel(c0, false, ast, buf, f)
                    },
                    None => false,
                }
            },
            Type::Optional => {
                match self.child(t, 0) {
                    Some(c0) => {
                        if !self.write_type_fuel(c0, false, ast, buf, f) {
                            return false;
                        }
                        buf.append("?");
                        true
                    },
                    None => false,
                }
            },
            Type::Union => self.write_list(t, ast, buf, "|", fuel),
            Type::Unknown => {
                buf.append("Unassigned");
                true
            },
            Type::Weak => {
                buf.append("Unknown");
                true
            },
        }
    }

    /// Writes the components of type `t` into `buf`, separated by `sep`, each
    /// within depth `fuel - 1`; returns whether every walk finished.
    fn write_list(&self, t: TypeId, ast: &Ast, buf: &mut String, sep: &str, fuel: u64) -> (r: bool)
        requires
            fuel > 0,
        ensures
            r == list_text(*self, *ast, self.children_of(t), 0, sep@, Seq::empty(), fuel as nat) is Some,
            list_text(*self, *ast, self.children_of(t), 0, sep@, Seq::empty(), fuel as nat) matches Some(x)
                ==> final(buf)@ == old(buf)@ + x,
        decreases fuel, self.children_of(t).len() + 1, 0nat,
    {
        let kids = t.get(&self.type_children);
        let mut i: usize = 0;
        let ghost mut acc: Seq<char> = Seq::empty();
        while i < kids.len()
            invariant
                fuel > 0,
                kids@ == self.children_of(t),
                i <= kids@.len(),
                buf@ == old(buf)@ + acc,
                list_text(*self, *ast, kids@, 0, sep@, Seq::empty(), fuel as nat) == list_text(
                    *self,
                    *ast,
                    kids@,
                    i as int,
                    sep@,
                    acc,
                    fuel as nat,
                ),
            decreases kids@.len() - i,
        {
            let ghost before = buf@;
            if i > 0 {
                buf.append(sep);
            }
            let ghost mid = buf@;
            if !self.write_type_fuel(kids[i], false, ast, buf, fuel - 1) {
                return false;
            }
            proof {
                let x = type_text(*self, *ast, kids@[i as int], false, (fuel - 1) as nat)->0;
                assert(mid == before + sep_before(i as int, sep@));
                acc = acc + sep_before(i as int, sep@) + x;
                assert(buf@ =~= old(buf)@ + acc);
            }
            i = i + 1;
        }
        proof {
            assert(buf@ =~= old(buf)@ + acc);
        }
        true
    }

    /// Writes the fields of struct node `sid` with the components of type `t`
    /// into `buf`, as far as both go; returns whether every walk finished.
    fn write_fields(&self, t: TypeId, sid: AstId, ast: &Ast, buf: &mut String, fuel: u64) -> (r: bool)
        requires
            fuel > 0,
        ensures
            r == fields_text(*self, *ast, self.children_of(t), ast.children_of(sid@), 0, Seq::empty(), fuel as nat) is Some,
            fields_text(*self, *ast, self.children_of(t), ast.children_of(sid@), 0, Seq::empty(), fuel as nat) matches Some(x)
                ==> final(buf)@ == old(buf)@ + x,
        decreases fuel, self.children_of(t).len() + 1, 0nat,
    {
        let kids = t.get(&self.type_children);
        let fields = sid.get(&ast.children);
        let mut i: usize = 0;
        let ghost mut acc: Seq<char> = Seq::empty();
        while i < kids.len() && i < fields.len()
            invariant
                fuel > 0,
                kids@ == self.children_of(t),
                crate::ast::child_ids(*fields) == ast.children_of(sid@),
                i <= kids@.len(),
                buf@ == old(buf)@ + acc,
                fields_text(*self, *ast, kids@, ast.children_of(sid@), 0, Seq::empty(), fuel as nat) == fields_text(
                    *self,
                    *ast,
                    kids@,
                    ast.children_of(sid@),
                    i as int,
                    acc,
                    fuel as nat,
                ),
            decreases kids@.len() - i,
        {
            let ghost before = buf@;
            if i > 0 {
                buf.append(", ");
            }
            let field = fields.get(i);
            buf.append(field.get(&ast.idents).as_str());
            buf.append(" ");
            let ghost mid = buf@;
            if !self.write_type_fuel(kids[i], false, ast, buf, fuel - 1) {
                return false;
            }
            proof {
                let x = type_text(*self, *ast, kids@[i as int], false, (fuel - 1) as nat)->0;
                acc = acc + sep_before(i as int, ", "@) + ast.ident_of(field@) + " "@ + x;
                assert(buf@ =~= old(buf)@ + acc);
            }
            i = i + 1;
        }
        proof {
            assert(buf@ =~= old(buf)@ + acc);
        }
        true
    }

    /// The text of type `t`, as `type_text` writes it within the walk budget;
    /// when the walk cannot finish, what was written up to that point.
    pub fn string_of_type(&self, tid: TypeId, expand: bool, ast: &Ast) -> (r: String)
        requires
            self.wf(),
        ensures
            type_text(*self, *ast, tid, expand, walk_budget(self.count())) matches Some(x) ==> r@ == x,
    {
        let mut result = String::new();
        proof {
            crate::arena::lemma_world_space(self.ids);
        }
        let n = self.ids.num_allocs();
        let budget: u64 = (n as u64) + 2;
        self.write_type_fuel(tid, expand, ast, &mut result, budget);
        proof {
            assert(Seq::<char>::empty() + type_text(*self, *ast, tid, expand, walk_budget(self.count()))->0
                =~= type_text(*self, *ast, tid, expand, walk_budget(self.count()))->0);
        }
        result
    }
}

/// `new` only adds types to `old`: the types handed out before, their
/// definitions and components, and the assignments are kept.
pub open spec fn grows(old: Types, new: Types) -> bool {
    &&& new.wf()
    &&& new.closed()
    &&& new.count() >= old.count()
    &&& new.type_assignments == old.type_assignments
    &&& forall|u: TypeId|
        u@ < old.count() ==> #[trigger] new.type_of(u) == old.type_of(u) && new.children_of(u)
            == old.children_of(u) && new.definition_of(u) == old.definition_of(u)
}

/// Growth composes.
proof fn lemma_grows_trans(a: Types, b: Types, c: Types)
    requires
        grows(a, b),
        grows(b, c),
    ensures
        grows(a, c),
{
    assert forall|u: TypeId| u@ < a.count() implies #[trigger] c.type_of(u) == a.type_of(u) && c.children_of(u)
        == a.children_of(u) && c.definition_of(u) == a.definition_of(u) by {
        assert(b.type_of(u) == a.type_of(u));
    }
}

/// A change confined to a type handed out after `base` keeps growth from `base`.
proof fn lemma_grows_touch(base: Types, a: Types, b: Types, t: TypeId)
    requires
        grows(base, a),
        t@ >= base.count(),
        b.wf(),
        b.closed(),
        b.count() == a.count(),
        b.type_assignments == a.type_assignments,
        forall|u: TypeId| u@ != t@ ==> #[trigger] b.type_of(u) == a.type_of(u),
        forall|u: TypeId| u@ != t@ ==> #[trigger] b.children_of(u) == a.children_of(u),
        forall|u: TypeId| u@ != t@ ==> #[trigger] b.definition_of(u) == a.definition_of(u),
    ensures
        grows(base, b),
{
    assert forall|u: TypeId| u@ < base.count() implies #[trigger] b.type_of(u) == base.type_of(u) && b.children_of(u)
        == base.children_of(u) && b.definition_of(u) == base.definition_of(u) by {
        assert(a.type_of(u) == base.type_of(u));
        assert(b.type_of(u) == a.type_of(u));
        assert(b.children_of(u) == a.children_of(u));
        assert(b.definition_of(u) == a.definition_of(u));
    }
}

/// The type that the union of a type of kind `a` and one of kind `b` has, when
/// neither is a subtype of the other; `Weak` when the union is not defined.
pub open spec fn union_type(a: Type, b: Type) -> Type {
    match (a, b) {
        (Type::ConstI32(x), Type::ConstI32(y)) => if x == y {
            Type::ConstI32(x)
        } else {
            Type::I32
        },
        (Type::ConstBool(x), Type::ConstBool(y)) => if x == y {
            Type::ConstBool(x)
        } else {
            Type::Bool
        },
        (Type::ConstI32(_), Type::I32) | (Type::I32, Type::ConstI32(_)) | (Type::I32, Type::I32) => Type::I32,
        (Type::ConstBool(_), Type::Bool) | (Type::Bool, Type::ConstBool(_)) | (Type::Bool, Type::Bool) => Type::Bool,
        (Type::Array(x), Type::Array(y)) => if x == y {
            Type::Array(x)
        } else {
            Type::Vector
        },
        (Type::Optional, Type::Optional) | (_, Type::NoneType) | (Type::NoneType, _) => Type::Optional,
        _ => Type::Weak,
    }
}

/// The number of components of the union type of kinds `a` and `b`.
pub open spec fn union_arity(a: Type, b: Type) -> nat {
    match union_type(a, b) {
        Type::Optional => 1,
        Type::Vector => 1,
        Type::Array(_) => 1,
        _ => 0,
    }
}

/// Whether the union of kinds `a` and `b` joins their components: two
/// arrays, or two optionals.
pub open spec fn union_nested(a: Type, b: Type) -> bool {
    (a is Array && b is Array) || (a == Type::Optional && b == Type::Optional)
}

/// The component of the union of `lhs` and `rhs` when it is one of theirs:
/// the optional's own component when the other side is `None`, and otherwise
/// the side that is not `None`.
pub open spec fn union_part(ts: Types, lhs: TypeId, rhs: TypeId) -> Option<TypeId> {
    let a = ts.type_of(lhs);
    let b = ts.type_of(rhs);
    if union_nested(a, b) {
        None
    } else if a == Type::Optional && b == Type::NoneType {
        child_at(ts, lhs, 0)
    } else if a == Type::NoneType && b == Type::Optional {
        child_at(ts, rhs, 0)
    } else if b == Type::NoneType {
        Some(lhs)
    } else if a == Type::NoneType {
        Some(rhs)
    } else {
        None
    }
}

/// The message for a union that is not defined.
pub open spec fn union_message(a: Type, b: Type) -> Seq<char> {
    "Union of types "@ + debug_text(a) + " and "@ + debug_text(b) + " is not defined"@
}

/// What a union of `lhs` and `rhs` within depth `fuel` gives, from table `t0`
/// and error list `e0` to `t1` and `e1`, by how the two types relate: `lhs`
/// when each is a subtype of the other or `rhs` is one of `lhs`, `rhs` when
/// only `lhs` is one of `rhs`, with nothing changed; otherwise a new type of
/// kind [`union_type`] with [`union_arity`] components, the component being
/// [`union_part`] where that names one; no error unless the union is not
/// defined (then its message) or components are joined. A union that joins no
/// components succeeds whenever there is depth and room for the new type.
pub open spec fn union_result(
    t0: Types,
    t1: Types,
    e0: Errors,
    e1: Errors,
    lhs: TypeId,
    rhs: TypeId,
    fuel: nat,
    r: Option<TypeId>,
) -> bool {
    let b = pair_budget(t0.count());
    let s_lr = subtype_spec(t0, lhs, rhs, b);
    let s_rl = subtype_spec(t0, rhs, lhs, b);
    let a_ty = t0.type_of(lhs);
    let b_ty = t0.type_of(rhs);
    &&& s_lr == Some(true) && s_rl == Some(true) ==> r == Some(lhs) && t1 == t0 && e1 == e0
    &&& s_lr == Some(true) && s_rl == Some(false) ==> r == Some(rhs) && t1 == t0 && e1 == e0
    &&& s_lr == Some(false) && s_rl == Some(true) ==> r == Some(lhs) && t1 == t0 && e1 == e0
    &&& s_lr == Some(false) && s_rl == Some(false) ==> (r matches Some(t) ==> {
        &&& t@ == t0.count()
        &&& t1.type_of(t) == union_type(a_ty, b_ty)
        &&& t1.children_of(t).len() == union_arity(a_ty, b_ty)
        &&& union_part(t0, lhs, rhs) matches Some(c) ==> t1.children_of(t) == seq![c]
        &&& !union_nested(a_ty, b_ty) && union_type(a_ty, b_ty) != Type::Weak ==> e1 == e0
        &&& union_type(a_ty, b_ty) == Type::Weak && e0.has_room_for(1) ==> {
            &&& e1.count() == e0.count() + 1
            &&& e1.message_of(e0.count()) == union_message(a_ty, b_ty)
        }
    })
    &&& union_ok(t0, lhs, rhs, fuel) ==> r is Some
}

/// For a union of `lhs` and `rhs` (from table `t0` to `t1`, within depth
/// `fuel`) that joins components and gave `r`: the new type's one component
/// is what the union of the components gives, one level less deep, from the
/// table with the new type handed out.
pub open spec fn union_joins(t0: Types, t1: Types, lhs: TypeId, rhs: TypeId, fuel: nat, r: Option<TypeId>) -> bool {
    let b = pair_budget(t0.count());
    subtype_spec(t0, lhs, rhs, b) == Some(false) && subtype_spec(t0, rhs, lhs, b) == Some(false) && union_nested(
        t0.type_of(lhs),
        t0.type_of(rhs),
    ) && fuel > 0 ==> (r matches Some(t) ==> exists|m: Types, m1: Types, f0: Errors, f1: Errors, c: TypeId|
        #![trigger one_more(t0, m), union_result(m, m1, f0, f1, union_inner(t0, lhs, rhs).0, union_inner(t0, lhs, rhs).1, (fuel - 1) as nat, Some(c))]
        {
            &&& one_more(t0, m)
            &&& union_result(
                m,
                m1,
                f0,
                f1,
                union_inner(t0, lhs, rhs).0,
                union_inner(t0, lhs, rhs).1,
                (fuel - 1) as nat,
                Some(c),
            )
            &&& t1.children_of(t) == seq![c]
        })
}

/// `m` is table `t0` with one more type handed out: every type of `t0` reads
/// the same, and the assignments are kept.
pub open spec fn one_more(t0: Types, m: Types) -> bool {
    &&& m.wf()
    &&& m.closed()
    &&& m.count() == t0.count() + 1
    &&& m.type_assignments == t0.type_assignments
    &&& forall|u: TypeId|
        u@ < t0.count() ==> #[trigger] m.type_of(u) == t0.type_of(u) && m.children_of(u) == t0.children_of(u)
            && m.definition_of(u) == t0.definition_of(u)
}

/// The components that a union of `lhs` and `rhs` that joins components
/// joins: the two optionals' components, or the left array's element type
/// twice.
pub open spec fn union_inner(ts: Types, lhs: TypeId, rhs: TypeId) -> (TypeId, TypeId) {
    if ts.type_of(lhs) is Array {
        (child_at(ts, lhs, 0)->0, child_at(ts, lhs, 0)->0)
    } else {
        (child_at(ts, lhs, 0)->0, child_at(ts, rhs, 0)->0)
    }
}

/// Whether the union of `lhs` and `rhs` within depth `fuel` succeeds: both
/// subtype checks finish, and where a new type is needed there is depth and
/// room for it, the components it takes exist, and (for joined components)
/// their union succeeds in the table with the new type.
pub open spec fn union_ok(ts: Types, lhs: TypeId, rhs: TypeId, fuel: nat) -> bool
    decreases fuel,
{
    let b = pair_budget(ts.count());
    let s_lr = subtype_spec(ts, lhs, rhs, b);
    let s_rl = subtype_spec(ts, rhs, lhs, b);
    let a_ty = ts.type_of(lhs);
    let b_ty = ts.type_of(rhs);
    if s_lr is None || s_rl is None {
        false
    } else if s_lr == Some(true) || s_rl == Some(true) {
        true
    } else if fuel == 0 || ts.count() >= 4294967295 {
        false
    } else if union_nested(a_ty, b_ty) {
        &&& child_at(ts, lhs, 0) is Some
        &&& (a_ty is Array || child_at(ts, rhs, 0) is Some)
        &&& forall|m: Types| #[trigger] one_more(ts, m) ==> union_ok(m, union_inner(ts, lhs, rhs).0, union_inner(ts, lhs, rhs).1, (fuel - 1) as nat)
    } else {
        union_arity(a_ty, b_ty) == 0 || union_part(ts, lhs, rhs) is Some
    }
}

impl Types {
    /// The union of types `lhs` and `rhs`, within depth `fuel`: `lhs` when
    /// they are equal or `rhs` is a subtype of it, `rhs` when `lhs` is a
    /// subtype of it, and otherwise a new type of kind [`union_type`]. For two
    /// arrays the component is the union of the left array's element type
    /// with itself; for two optionals, the union of their components.
    fn union_fuel(&mut self, lhs: TypeId, rhs: TypeId, errors: &mut Errors, fuel: u64) -> (r: Option<TypeId>)
        requires
            old(self).wf(),
            old(self).closed(),
            old(errors).wf(),
            lhs@ < old(self).count(),
            rhs@ < old(self).count(),
        ensures
            grows(*old(self), *final(self)),
            Errors::extends(*old(errors), *final(errors)),
            forall|i: nat|
                old(errors).count() <= i < final(errors).count() ==> #[trigger] final(errors).kind_of(i) == ErrorKind::Type,
            r matches Some(t) ==> t@ < final(self).count(),
            union_result(*old(self), *final(self), *old(errors), *final(errors), lhs, rhs, fuel as nat, r),
            union_joins(*old(self), *final(self), lhs, rhs, fuel as nat, r),
            forall|u: TypeId| old(self).count() <= u@ < final(self).count() ==> #[trigger] final(self).type_of(u)
                != Type::Unknown,
        decreases fuel,
    {
        match self.equal(lhs, rhs) {
            None => return None,
            Some(true) => return Some(lhs),
            Some(false) => {},
        }
        match self.subtype(lhs, rhs) {
            None => return None,
            Some(true) => return Some(rhs),
            Some(false) => {},
        }
        match self.supertype(lhs, rhs) {
            None => return None,
            Some(true) => return Some(lhs),
            Some(false) => {},
        }
        if fuel == 0 {
            return None;
        }
        let ghost s0 = *self;
        let tid = match self.new_type_of(Type::Weak) {
            None => return None,
            Some(t) => t,
        };
        let ghost s1 = *self;
        proof {
            assert(s1.type_of(lhs) == s0.type_of(lhs));
            assert(s1.type_of(rhs) == s0.type_of(rhs));
            assert forall|u: TypeId| u@ < s0.count() implies #[trigger] s1.type_of(u) == s0.type_of(u) by {}
            assert(grows(s0, s1));
            if s0.children_of(tid).len() > 0 {
                assert(tid@ < s0.count());
            }
            assert(s1.children_of(tid).len() == 0);
        }
        let lhs_ty = *lhs.get(&self.types);
        let rhs_ty = *rhs.get(&self.types);
        let ghost mut w_m1: Types = s1;
        let ghost mut w_f0: Errors = *errors;
        let ghost mut w_f1: Errors = *errors;
        let ghost mut w_c: TypeId = tid;
        proof {
            assert(one_more(s0, s1));
        }
        let ty = match (lhs_ty, rhs_ty) {
            (Type::ConstI32(x), Type::ConstI32(y)) if x == y => Type::ConstI32(x),
            (Type::ConstBool(x), Type::ConstBool(y)) if x == y => Type::ConstBool(x),
            (Type::ConstI32(_), Type::ConstI32(_)) | (Type::ConstI32(_), Type::I32) | (Type::I32, Type::ConstI32(_))
            | (Type::I32, Type::I32) => Type::I32,
            (Type::ConstBool(_), Type::ConstBool(_)) | (Type::ConstBool(_), Type::Bool) | (Type::Bool, Type::ConstBool(_))
            | (Type::Bool, Type::Bool) => Type::Bool,
            (Type::Array(x), Type::Array(y)) => {
                let lhs_child = match self.child(lhs, 0) {
                    None => return None,
                    Some(c) => c,
                };
                let rhs_child = match self.child(lhs, 0) {
                    None => return None,
                    Some(c) => c,
                };
                let ghost f0 = *errors;
                proof {
                    assert(lhs_child == union_inner(s0, lhs, rhs).0 && rhs_child == union_inner(s0, lhs, rhs).1);
                }
                let child = match self.union_fuel(lhs_child, rhs_child, errors, fuel - 1) {
                    None => {
                        proof {
                            lemma_grows_trans(s0, s1, *self);
                        }
                        return None;
                    },
                    Some(c) => c,
                };
                let ghost s2 = *self;
                proof {
                    lemma_grows_trans(s0, s1, s2);
                    w_m1 = s2;
                    w_f0 = f0;
                    w_f1 = *errors;
                    w_c = child;
                }
                self.push_child(tid, child);
                proof {
                    lemma_grows_touch(s0, s2, *self, tid);
                    assert(s2.type_of(tid) == s1.type_of(tid));
                    assert(s2.children_of(tid) == s1.children_of(tid));
                    assert(self.children_of(tid).len() == 1);
                }
                if x == y {
                    Type::Array(x)
                } else {
                    Type::Vector
                }
            },
            (Type::Optional, Type::Optional) => {
                let lhs_inner = match self.child(lhs, 0) {
                    None => return None,
                    Some(c) => c,
                };
                let rhs_inner = match self.child(rhs, 0) {
                    None => return None,
                    Some(c) => c,
                };
                let ghost f0 = *errors;
                proof {
                    assert(lhs_inner == union_inner(s0, lhs, rhs).0 && rhs_inner == union_inner(s0, lhs, rhs).1);
                }
                let inner = match self.union_fuel(lhs_inner, rhs_inner, errors, fuel - 1) {
                    None => {
                        proof {
                            lemma_grows_trans(s0, s1, *self);
                        }
                        return None;
                    },
                    Some(c) => c,
                };
                let ghost s2 = *self;
                proof {
                    lemma_grows_trans(s0, s1, s2);
                    w_m1 = s2;
                    w_f0 = f0;
                    w_f1 = *errors;
                    w_c = inner;
                }
                self.push_child(tid, inner);
                proof {
                    lemma_grows_touch(s0, s2, *self, tid);
                    assert(s2.type_of(tid) == s1.type_of(tid));
                    assert(s2.children_of(tid) == s1.children_of(tid));
                    assert(self.children_of(tid).len() == 1);
                }
                Type::Optional
            },
            (Type::Optional, Type::NoneType) => {
                let inner = match self.child(lhs, 0) {
                    None => return None,
                    Some(c) => c,
                };
                self.push_child(tid, inner);
                proof {
                    lemma_grows_touch(s0, s1, *self, tid);
                    assert(self.children_of(tid) =~= seq![inner]);
                }
                Type::Optional
            },
            (Type::NoneType, Type::Optional) => {
                let inner = match self.child(rhs, 0) {
                    None => return None,
                    Some(c) => c,
                };
                self.push_child(tid, inner);
                proof {
                    lemma_grows_touch(s0, s1, *self, tid);
                    assert(self.children_of(tid) =~= seq![inner]);
                }
                Type::Optional
            },
            (_, Type::NoneType) => {
                self.push_child(tid, lhs);
                proof {
                    lemma_grows_touch(s0, s1, *self, tid);
                    assert(self.children_of(tid) =~= seq![lhs]);
                }
                Type::Optional
            },
            (Type::NoneType, _) => {
                self.push_child(tid, rhs);
                proof {
                    lemma_grows_touch(s0, s1, *self, tid);
                    assert(self.children_of(tid) =~= seq![rhs]);
                }
                Type::Optional
            },
            _ => {
                if errors.has_room() {
                    let mut msg = "Union of types ".to_owned();
                    msg.append(debug_string(lhs_ty).as_str());
                    msg.append(" and ");
                    msg.append(debug_string(rhs_ty).as_str());
                    msg.append(" is not defined");
                    errors.log(ErrorKind::Type, msg);
                }
                Type::Weak
            },
        };
        let ghost s3 = *self;
        proof {
            assert(grows(s0, s3));
            assert(s3.children_of(tid).len() == union_arity(lhs_ty, rhs_ty));
            if union_nested(lhs_ty, rhs_ty) {
                assert(s3.children_of(tid) =~= seq![w_c]);
                assert(union_result(s1, w_m1, w_f0, w_f1, union_inner(s0, lhs, rhs).0, union_inner(s0, lhs, rhs).1, (fuel - 1) as nat, Some(w_c)));
            }
            assert(child_at(s1, lhs, 0) == child_at(s0, lhs, 0));
            assert(child_at(s1, rhs, 0) == child_at(s0, rhs, 0));
            assert(union_part(s0, lhs, rhs) matches Some(c) ==> s3.children_of(tid) == seq![c]);
            assert(!union_nested(lhs_ty, rhs_ty) && union_type(lhs_ty, rhs_ty) != Type::Weak ==> *errors == *old(errors));
        }
        self.set_type(tid, ty);
        proof {
            lemma_grows_touch(s0, s3, *self, tid);
            if union_nested(lhs_ty, rhs_ty) {
                assert(self.children_of(tid) == seq![w_c]);
                assert(s0 == *old(self));
                assert(one_more(*old(self), s1));
                assert(union_result(s1, w_m1, w_f0, w_f1, union_inner(*old(self), lhs, rhs).0, union_inner(*old(self), lhs, rhs).1, (fuel - 1) as nat, Some(w_c)));
            }
        }
        Some(tid)
    }

    /// The union of types `lhs` and `rhs`, as `union_fuel` computes it within
    /// the budget for walks over pairs of types.
    fn union(&mut self, lhs: TypeId, rhs: TypeId, errors: &mut Errors) -> (r: Option<TypeId>)
        requires
            old(self).wf(),
            old(self).closed(),
            old(errors).wf(),
            lhs@ < old(self).count(),
            rhs@ < old(self).count(),
        ensures
            tstep(*old(self), *final(self)),
            grows(*old(self), *final(self)),
            Errors::extends(*old(errors), *final(errors)),
            forall|i: nat|
                old(errors).count() <= i < final(errors).count() ==> #[trigger] final(errors).kind_of(i) == ErrorKind::Type,
            r matches Some(t) ==> t@ < final(self).count(),
            union_result(*old(self), *final(self), *old(errors), *final(errors), lhs, rhs,
                pair_budget(old(self).count()), r),
            union_joins(*old(self), *final(self), lhs, rhs, pair_budget(old(self).count()), r),
    {
        let budget = self.pair_budget();
        let r = self.union_fuel(lhs, rhs, errors, budget);
        proof {
            assert forall|u: TypeId| #[trigger] old(self).children_of(u).is_prefix_of(self.children_of(u)) by {
                if u@ < old(self).count() {
                    assert(self.type_of(u) == old(self).type_of(u));
                    assert(self.children_of(u) == old(self).children_of(u));
                    assert(old(self).children_of(u) =~= self.children_of(u).subrange(0, old(self).children_of(u).len() as int));
                } else {
                    if old(self).children_of(u).len() > 0 {
                        assert(u@ < old(self).count());
                    }
                    assert(old(self).children_of(u) =~= self.children_of(u).subrange(0, 0));
                }
            }
        }
        r
    }
}

/// What a step of the checker keeps of the type table: it stays consistent,
/// only grows, and every node that had a type still has one.
pub open spec fn tstep(a: Types, b: Types) -> bool {
    &&& b.wf()
    &&& b.closed()
    &&& b.count() >= a.count()
    &&& forall|i: nat| #[trigger] a.assignment_of(i) is Some ==> b.assignment_of(i) is Some
    &&& forall|u: TypeId| a.count() <= u@ < b.count() ==> #[trigger] b.type_of(u) != Type::Unknown
    &&& forall|u: TypeId| u@ < a.count() && a.type_of(u) != Type::Unknown ==> #[trigger] b.type_of(u) != Type::Unknown
    &&& forall|u: TypeId| #[trigger] a.children_of(u).is_prefix_of(b.children_of(u))
}

/// What a step of the checker keeps of the symbol tables: they stay
/// consistent and the qualified names are kept (only definitions change).
pub open spec fn sstep(a: Symbols, b: Symbols) -> bool {
    &&& b.wf()
    &&& b.qualified_idents == a.qualified_idents
}

/// What a step of the checker does to the error list: it only adds type and
/// name resolution errors.
pub open spec fn estep(a: Errors, b: Errors) -> bool {
    &&& Errors::extends(a, b)
    &&& forall|i: nat|
        a.count() <= i < b.count() ==> (#[trigger] b.kind_of(i) == ErrorKind::Type || b.kind_of(i)
            == ErrorKind::Resolve)
}

/// Checker steps compose.
proof fn lemma_steps_trans(t0: Types, t1: Types, t2: Types, s0: Symbols, s1: Symbols, s2: Symbols, e0: Errors, e1: Errors, e2: Errors)
    requires
        tstep(t0, t1),
        tstep(t1, t2),
        sstep(s0, s1),
        sstep(s1, s2),
        estep(e0, e1),
        estep(e1, e2),
    ensures
        tstep(t0, t2),
        sstep(s0, s2),
        estep(e0, e2),
{
    assert forall|i: nat| e0.count() <= i < e2.count() implies (#[trigger] e2.kind_of(i) == ErrorKind::Type
        || e2.kind_of(i) == ErrorKind::Resolve) by {
        if i < e1.count() {
            assert(e1.kind_of(i) == ErrorKind::Type || e1.kind_of(i) == ErrorKind::Resolve);
        }
    }
    assert forall|i: nat| i < e0.count() implies e2.kind_of(i) == e0.kind_of(i) && e2.message_of(i) == e0.message_of(i)
        && e2.location_of(i) == e0.location_of(i) && e2.cause_of(i) == e0.cause_of(i) by {
        assert(i < e1.count());
    }
    assert forall|i: nat| #[trigger] t0.assignment_of(i) is Some implies t2.assignment_of(i) is Some by {
        assert(t1.assignment_of(i) is Some);
    }
    assert forall|u: TypeId| #[trigger] t0.children_of(u).is_prefix_of(t2.children_of(u)) by {
        let a = t0.children_of(u);
        let b = t1.children_of(u);
        let c = t2.children_of(u);
        assert(a.is_prefix_of(b));
        assert(b.is_prefix_of(c));
        assert forall|k: int| 0 <= k < a.len() implies a[k] == c[k] by {
            assert(a[k] == b.subrange(0, a.len() as int)[k]);
            assert(b[k] == c.subrange(0, b.len() as int)[k]);
        }
        assert(a =~= c.subrange(0, a.len() as int));
    }
}

/// Doing nothing is a checker step.
proof fn lemma_steps_refl(t: Types, s: Symbols, e: Errors)
    requires
        t.wf(),
        t.closed(),
        s.wf(),
        e.wf(),
    ensures
        tstep(t, t),
        sstep(s, s),
        estep(e, e),
{
}

/// Reports an error of kind `kind` with message `msg`, at `location` when
/// there is one, if the error list has room for it.
fn log_at(errors: &mut Errors, kind: ErrorKind, msg: String, location: Option<crate::lexer::Location>)
    requires
        old(errors).wf(),
        kind == ErrorKind::Type || kind == ErrorKind::Resolve,
    ensures
        estep(*old(errors), *final(errors)),
        final(errors).count() <= old(errors).count() + 1,
        old(errors).has_room_for(1) ==> {
            &&& final(errors).count() == old(errors).count() + 1
            &&& final(errors).kind_of(old(errors).count()) == kind
            &&& final(errors).message_of(old(errors).count()) == msg@
            &&& location is Some ==> final(errors).location_of(old(errors).count()) == location
        },
{
    if errors.has_room() {
        errors.log(kind, msg).location_opt(location);
    }
}

/// Child `k` of node `id`, if it has one.
fn ast_child(ast: &Ast, id: AstId, k: usize) -> (r: Option<AstId>)
    ensures
        r == (if k < ast.children_of(id@).len() {
            Some(ast.children_of(id@)[k as int])
        } else {
            None::<AstId>
        }),
{
    let kids = id.get(&ast.children);
    if k < kids.len() {
        Some(kids.get(k))
    } else {
        None
    }
}

/// The type that a node of a kind whose type needs nothing else has.
pub open spec fn leaf_type(kind: AstKind) -> Option<Type> {
    match kind {
        AstKind::String => Some(Type::String),
        AstKind::Char => Some(Type::Char),
        AstKind::NoneValue => Some(Type::NoneType),
        AstKind::Float => Some(Type::F32),
        AstKind::Group => Some(Type::Weak),
        AstKind::Error => Some(Type::Weak),
        AstKind::BuiltinI32 => Some(Type::I32),
        AstKind::BuiltinF32 => Some(Type::F32),
        AstKind::BuiltinString => Some(Type::String),
        AstKind::BuiltinChar => Some(Type::Char),
        AstKind::BuiltinBool => Some(Type::Bool),
        AstKind::BuiltinTrue => Some(Type::ConstBool(true)),
        AstKind::BuiltinFalse => Some(Type::ConstBool(false)),
        _ => None,
    }
}

/// The type of a built-in definition.
fn builtin_type(kind: AstKind) -> (r: Option<Type>)
    ensures
        r == (match kind {
            AstKind::BuiltinI32 | AstKind::BuiltinF32 | AstKind::BuiltinString | AstKind::BuiltinChar
            | AstKind::BuiltinBool | AstKind::BuiltinTrue | AstKind::BuiltinFalse => leaf_type(kind),
            _ => None,
        }),
{
    match kind {
        AstKind::BuiltinI32 => Some(Type::I32),
        AstKind::BuiltinF32 => Some(Type::F32),
        AstKind::BuiltinString => Some(Type::String),
        AstKind::BuiltinChar => Some(Type::Char),
        AstKind::BuiltinBool => Some(Type::Bool),
        AstKind::BuiltinTrue => Some(Type::ConstBool(true)),
        AstKind::BuiltinFalse => Some(Type::ConstBool(false)),
        _ => None,
    }
}

/// The type of a node of a kind whose type needs nothing else, if it is one.
fn leaf_kind_type(kind: AstKind) -> (r: Option<Type>)
    ensures
        r == leaf_type(kind),
{
    match kind {
        AstKind::String => Some(Type::String),
        AstKind::Char => Some(Type::Char),
        AstKind::NoneValue => Some(Type::NoneType),
        AstKind::Float => Some(Type::F32),
        AstKind::Group => Some(Type::Weak),
        AstKind::Error => Some(Type::Weak),
        _ => builtin_type(kind),
    }
}

/// What a step of the checker keeps, across the type table, the symbol
/// tables and the error list.
pub open spec fn steps(t0: Types, s0: Symbols, e0: Errors, t1: Types, s1: Symbols, e1: Errors) -> bool {
    &&& tstep(t0, t1)
    &&& sstep(s0, s1)
    &&& estep(e0, e1)
}

/// The message for an arithmetic operator applied to types it does not take.
pub open spec fn operator_message(kind: InfixKind, lhs: Seq<char>, rhs: Seq<char>) -> Seq<char> {
    let (verb, prep) = match kind {
        InfixKind::Add => ("add"@, "to"@),
        InfixKind::Sub => ("subtract"@, "from"@),
        InfixKind::Mul => ("multiply"@, "by"@),
        _ => ("divide"@, "by"@),
    };
    "Cannot "@ + verb + " "@ + lhs + " "@ + prep + " "@ + rhs
}

/// The value of a comparison of two boolean constants, `false` ordered before
/// `true`.
pub open spec fn compare_bools(kind: InfixKind, l: bool, r: bool) -> bool {
    match kind {
        InfixKind::Gt => l && !r,
        InfixKind::Lt => !l && r,
        InfixKind::Ge => l || !r,
        InfixKind::Le => !l || r,
        InfixKind::Eq => l == r,
        _ => l != r,
    }
}

/// The value of a comparison of two boolean constants.
fn compare_bools_exec(kind: InfixKind, l: bool, r: bool) -> (v: bool)
    ensures
        v == compare_bools(kind, l, r),
{
    match kind {
        InfixKind::Gt => l && !r,
        InfixKind::Lt => !l && r,
        InfixKind::Ge => l || !r,
        InfixKind::Le => !l || r,
        InfixKind::Eq => l == r,
        _ => l != r,
    }
}

/// The quotient of `x` by `y`, rounded toward zero.
pub open spec fn trunc_div(x: int, y: int) -> int {
    let q = (if x < 0 { -x } else { x }) / (if y < 0 { -y } else { y });
    if (x < 0) != (y < 0) {
        -q
    } else {
        q
    }
}

/// The constant that an arithmetic operator computes from two constants;
/// `None` where the computation overflows or divides by zero.
pub open spec fn fold_i32(kind: InfixKind, x: i32, y: i32) -> Option<i32> {
    let v: int = match kind {
        InfixKind::Add => x + y,
        InfixKind::Sub => x - y,
        InfixKind::Mul => x * y,
        _ => if y == 0 {
            0
        } else {
            trunc_div(x as int, y as int)
        },
    };
    if (kind != InfixKind::Add && kind != InfixKind::Sub && kind != InfixKind::Mul && y == 0) || v < i32::MIN
        || v > i32::MAX {
        None
    } else {
        Some(v as i32)
    }
}

/// The constant that an arithmetic operator computes from two constants.
fn fold_i32_exec(kind: InfixKind, x: i32, y: i32) -> (r: Option<i32>)
    ensures
        r == fold_i32(kind, x, y),
{
    let a = x as i64;
    let b = y as i64;
    let v: i64 = match kind {
        InfixKind::Add => a + b,
        InfixKind::Sub => a - b,
        InfixKind::Mul => {
            assert(-2147483648 * 2147483648 <= a * b <= 2147483648 * 2147483648) by (nonlinear_arith)
                requires
                    -2147483648 <= a <= 2147483647,
                    -2147483648 <= b <= 2147483647,
            ;
            a * b
        },
        _ => {
            if b == 0 {
                return None;
            }
            let ua: u64 = if a < 0 { (-a) as u64 } else { a as u64 };
            let ub: u64 = if b < 0 { (-b) as u64 } else { b as u64 };
            let q = ua / ub;
            assert(q <= ua) by (nonlinear_arith)
                requires
                    ub >= 1,
                    q == ua / ub,
            ;
            if (a < 0) != (b < 0) {
                -(q as i64)
            } else {
                q as i64
            }
        },
    };
    if v < -2147483648 || v > 2147483647 {
        None
    } else {
        Some(v as i32)
    }
}

impl Types {
    /// Computes the type of node `id`, within recursion depth `fuel`, and
    /// assigns it; a node that already has a type other than `Unknown` keeps
    /// it. Literals and built-ins get their own types; identifiers the type of
    /// their definition; fields and bindings the type of their expression (a
    /// struct type remembering where it was defined); tuples, structs,
    /// arrays, vectors, optionals and functions types made of their parts;
    /// calls, projections, conditions, assignments and operators are checked
    /// and typed, and mismatches reported. `None` when the walk runs out of
    /// depth or meets a tree or table in a state no well-formed tree produces.
    fn compute_fuel(&mut self, ast: &Ast, symbols: &mut Symbols, errors: &mut Errors, id: AstId, fuel: u64) -> (r: Option<TypeId>)
        requires
            old(self).wf(),
            old(self).closed(),
            old(symbols).wf(),
            old(errors).wf(),
        ensures
            kept(*old(self), *final(self), *ast),
            !rhs_operand(*ast, id@) ==> (r matches Some(t) ==> final(self).assignment_of(id@) == Some(t)),
            known(*old(self)) && stable(*ast, id@) && !typed(*old(self), id@) ==> (r matches Some(t) ==> node_typing(
                *final(self),
                *ast,
                id@,
                t,
            )),
            steps(*old(self), *old(symbols), *old(errors), *final(self), *final(symbols), *final(errors)),
            r matches Some(t) ==> t@ < final(self).count() && final(self).assignment_of(id@) is Some,
            old(self).assignment_of(id@) is Some && old(self).type_of(old(self).assignment_of(id@)->0) != Type::Unknown
                ==> r == old(self).assignment_of(id@) && *final(self) == *old(self) && *final(symbols) == *old(symbols)
                && *final(errors) == *old(errors),
            ({
                let fresh = old(self).assignment_of(id@) is Some ==> old(self).type_of(old(self).assignment_of(id@)->0)
                    == Type::Unknown;
                fresh && fuel > 0 && leaf_type(ast.kind_of(id@)) is Some && r is Some ==> final(self).type_of(r->0)
                    == leaf_type(ast.kind_of(id@))->0 && final(self).assignment_of(id@) == r
            }),
            fuel > 0 && expr_pre(*old(self), *ast, id@, (fuel - 1) as nat, (fuel - 1) as nat) ==> expr_post(
                *old(self),
                *old(symbols),
                *old(errors),
                *final(self),
                *final(symbols),
                *final(errors),
                *ast,
                id@,
                (fuel - 1) as nat,
                (fuel - 1) as nat,
                r,
            ),
        decreases fuel, 3nat,
    {
        let ghost t0 = *self;
        let ghost s0 = *symbols;
        let ghost e0 = *errors;
        proof {
            lemma_steps_refl(t0, s0, e0);
        }
        let existing = *id.get(&self.type_assignments);
        if let Some(existing) = existing {
            if *existing.get(&self.types) != Type::Unknown {
                proof {
                    if fuel > 0 && expr_pre(t0, *ast, id@, (fuel - 1) as nat, (fuel - 1) as nat) {
                        lemma_typed_post(t0, s0, e0, *ast, id@, (fuel - 1) as nat);
                    }
                }
                return Some(existing);
            }
        }
        if fuel == 0 {
            return None;
        }
        let ghost d = (fuel - 1) as nat;
        proof {
            if expr_pre(t0, *ast, id@, d, d) {
                lemma_expr_known(*ast, id@, d);
                assert(expr_nodes(*ast, id@, d).contains(id@));
                if t0.assignment_of(id@) is Some {
                    assert(t0.type_of(t0.assignment_of(id@)->0) == expr_type(*ast, id@, d)->0);
                }
                assert(t0.assignment_of(id@) is None);
                lemma_assigned(t0, t0, ast.count(), id@);
            }
        }
        let kind = *id.get(&ast.kinds);
        if let Some(ty) = leaf_kind_type(kind) {
            let r = self.assign_new(id, ty);
            proof {
                if expr_pre(t0, *ast, id@, d, d) {
                    lemma_fresh_post(t0, *self, s0, e0, *ast, id@, d, r->0);
                }
            }
            return r;
        }
        match kind {
            AstKind::VIdent | AstKind::TIdent => {
                let def_id = match *id.get(&symbols.definitions) {
                    None => return self.assign_new(id, Type::Weak),
                    Some(d) => d,
                };
                let def_kind = *def_id.get(&ast.kinds);
                if def_kind == AstKind::Bind || def_kind == AstKind::VField || def_kind == AstKind::TField {
                    let tid = match self.compute_fuel(ast, symbols, errors, def_id, fuel - 1) {
                        None => return None,
                        Some(t) => t,
                    };
                    let ghost (tp, sp, ep) = (*self, *symbols, *errors);
                    self.assign(id, tid);
                    proof {
                        lemma_steps_trans(t0, tp, *self, s0, sp, *symbols, e0, ep, *errors); lemma_keep(t0, tp, *self, *ast, id@);
                    }
                    Some(tid)
                } else {
                    match builtin_type(def_kind) {
                        Some(ty) => self.assign_new(id, ty),
                        None => None,
                    }
                }
            },
            AstKind::Void => None,
            AstKind::Integer => {
                let ty = match id.get(&ast.literals) {
                    Some(Literal::Integer(v)) => Type::ConstI32(*v as i32),
                    _ => Type::I32,
                };
                let r = self.assign_new(id, ty);
                proof {
                    if expr_pre(t0, *ast, id@, d, d) {
                        lemma_fresh_post(t0, *self, s0, e0, *ast, id@, d, r->0);
                    }
                }
                r
            },
            AstKind::Method => {
                log_at(errors, ErrorKind::Type, "TODO: implement Method type checker".to_owned(), *id.get(&ast.locations));
                let ghost (tp, sp, ep) = (*self, *symbols, *errors);
                let r = self.assign_new(id, Type::Weak);
                proof {
                    lemma_steps_trans(t0, tp, *self, s0, sp, *symbols, e0, ep, *errors); lemma_keep(t0, tp, *self, *ast, id@);
                }
                r
            },
            AstKind::Index => {
                log_at(errors, ErrorKind::Type, "TODO: implement Index type checker".to_owned(), *id.get(&ast.locations));
                let ghost (tp, sp, ep) = (*self, *symbols, *errors);
                let r = self.assign_new(id, Type::Weak);
                proof {
                    lemma_steps_trans(t0, tp, *self, s0, sp, *symbols, e0, ep, *errors); lemma_keep(t0, tp, *self, *ast, id@);
                }
                r
            },
            _ => self.compute_compound(ast, symbols, errors, id, kind, fuel),
        }
    }
}

/// The common postcondition of the checker's steps on node `id`.
pub open spec fn computed(
    t0: Types,
    s0: Symbols,
    e0: Errors,
    t1: Types,
    s1: Symbols,
    e1: Errors,
    id: AstId,
    r: Option<TypeId>,
) -> bool {
    &&& steps(t0, s0, e0, t1, s1, e1)
    &&& r matches Some(t) ==> t@ < t1.count() && t1.assignment_of(id@) is Some
}

/// Whether node `i` already has a type other than `Unknown` in table `ts`.
pub open spec fn typed(ts: Types, i: nat) -> bool {
    ts.assignment_of(i) matches Some(t) && ts.type_of(t) != Type::Unknown
}

/// Whether node `id` can be given a type in table `ts`: it has one already,
/// or there is room for a new one.
pub open spec fn room_for(ts: Types, id: AstId) -> bool {
    ts.assignment_of(id@) is Some || ts.count() < 4294967295
}

/// Whether every type handed out has a known kind (never `Unknown`), as in
/// every table the checker builds from an empty one.
pub open spec fn known(ts: Types) -> bool {
    forall|u: TypeId| u@ < ts.count() ==> #[trigger] ts.type_of(u) != Type::Unknown
}

/// Every step of the checker keeps all kinds known.
pub proof fn lemma_known_step(a: Types, b: Types)
    requires
        known(a),
        tstep(a, b),
    ensures
        known(b),
{
    assert forall|u: TypeId| u@ < b.count() implies #[trigger] b.type_of(u) != Type::Unknown by {
        if u@ < a.count() {
            assert(a.type_of(u) != Type::Unknown);
        }
    }
}

/// In a table whose kinds are all known, a node without a known type has no
/// type at all.
pub proof fn lemma_known_untyped(ts: Types, i: nat)
    requires
        known(ts),
        ts.closed(),
        !typed(ts, i),
    ensures
        ts.assignment_of(i) is None,
{
    if ts.assignment_of(i) is Some {
        assert(ts.assignment_of(i)->0@ < ts.count());
    }
}

/// The type a call gets from the type `f` of its callee, in table `ts`: the
/// struct itself, a function's result (its second component), and `Weak`
/// for anything else.
pub open spec fn call_typed(ts: Types, f: TypeId, t: TypeId) -> bool {
    match ts.type_of(f) {
        Type::Struct => t == f,
        Type::Func => child_at(ts, f, 1) == Some(t),
        _ => ts.type_of(t) == Type::Weak,
    }
}

/// The type assigned to child `k` of node `id`.
pub open spec fn cti(ts: Types, ast: Ast, id: nat, k: int) -> TypeId {
    ts.assignment_of(ast.children_of(id)[k]@)->0
}

/// Whether no child of node `id` is the second operand of an operator or
/// `id` itself: then the checker keeps the types it gives them.
pub open spec fn stable(ast: Ast, id: nat) -> bool {
    forall|k: int|
        0 <= k < ast.children_of(id).len() ==> !rhs_operand(ast, (#[trigger] ast.children_of(id)[k])@)
            && ast.children_of(id)[k]@ != id
}

/// Whether the components of type `t` take in the types of all the children
/// of node `id`.
pub open spec fn components_are_children(ts: Types, ast: Ast, id: nat, t: TypeId) -> bool {
    &&& ts.children_of(t).len() >= ast.children_of(id).len()
    &&& forall|k: int| 0 <= k < ast.children_of(id).len() ==> ts.children_of(t).contains(#[trigger] cti(ts, ast, id, k))
}

/// The type `t` that node `id` of a kind made of parts gets, in table `ts`,
/// over the types of its children: a function is a `Func` of its parameters'
/// and its body's types; a block has its last child's type (`NoneType` when
/// empty); a tuple or struct is made of its children's types; an array has a
/// component; a repeat is an array or a vector whose last component is its
/// element's type, a vector's last component is its child's type, and so is an
/// optional's; fields, bindings, arguments and assignments have
/// their first child's type; a call has the type [`call_typed`] gives; an `if`
/// without `else` has the unit type.
pub open spec fn node_typing(ts: Types, ast: Ast, id: nat, t: TypeId) -> bool {
    let n = ast.children_of(id).len();
    match ast.kind_of(id) {
        AstKind::Func => {
            &&& ts.type_of(t) == Type::Func
            &&& ts.children_of(t).len() >= 2
            &&& ts.children_of(t).contains(cti(ts, ast, id, 0))
            &&& ts.children_of(t).last() == cti(ts, ast, id, 1)
        },
        AstKind::Block => if n == 0 {
            ts.type_of(t) == Type::NoneType
        } else {
            t == cti(ts, ast, id, n - 1)
        },
        AstKind::Tuple | AstKind::Struct => components_are_children(ts, ast, id, t),
        AstKind::Array => ts.children_of(t).len() >= 1,
        AstKind::Repeat => (ts.type_of(t) is Array || ts.type_of(t) == Type::Vector) && ts.children_of(t).len() >= 1
            && ts.children_of(t).last() == cti(ts, ast, id, 1),
        AstKind::Vector => ts.type_of(t) == Type::Vector && ts.children_of(t).len() >= 1 && ts.children_of(t).last()
            == cti(ts, ast, id, 0),
        AstKind::Optional => ts.children_of(t).len() >= 1 && ts.children_of(t).last() == cti(ts, ast, id, 0),
        AstKind::VField | AstKind::TField | AstKind::Bind | AstKind::BindMut | AstKind::Arg | AstKind::Assign => t
            == cti(ts, ast, id, 0),
        AstKind::Call => call_typed(ts, cti(ts, ast, id, 0), t),
        AstKind::If => ts.type_of(t) == Type::NoneType,
        _ => true,
    }
}

/// Whether node `j` is the second operand of an operator node: the one node
/// whose assignment a step of the checker on another node may replace (an
/// operator of two `Weak` operands gives its second operand the first's type).
pub open spec fn rhs_operand(ast: Ast, j: nat) -> bool {
    exists|p: nat|
        #![trigger ast.children_of(p)]
        ast.kind_of(p) is Infix && ast.children_of(p).len() >= 2 && ast.children_of(p)[1]@ == j
}

/// What every step of the checker keeps from `a` to `b`: a type that is known
/// stays known, and a node that has a known type keeps its assignment unless
/// it is the second operand of an operator.
pub open spec fn kept(a: Types, b: Types, ast: Ast) -> bool {
    &&& forall|u: TypeId| u@ < a.count() && a.type_of(u) != Type::Unknown ==> #[trigger] b.type_of(u) != Type::Unknown
    &&& forall|j: nat| typed(a, j) && !rhs_operand(ast, j) ==> #[trigger] b.assignment_of(j) == a.assignment_of(j)
}

/// What is kept composes.
pub proof fn lemma_kept_trans(a: Types, b: Types, c: Types, ast: Ast)
    requires
        a.closed(),
        b.count() >= a.count(),
        kept(a, b, ast),
        kept(b, c, ast),
    ensures
        kept(a, c, ast),
{
    assert forall|j: nat| typed(a, j) && !rhs_operand(ast, j) implies #[trigger] c.assignment_of(j) == a.assignment_of(j) by {
        assert(b.assignment_of(j) == a.assignment_of(j));
        assert(a.assignment_of(j)->0@ < a.count());
        assert(typed(b, j));
    }
}

/// A step that replaces only the assignment of node `x`, which had no known
/// type at the start or is a second operand, and turns no known type unknown,
/// keeps what the steps before it kept.
pub proof fn lemma_kept_at(a: Types, b: Types, c: Types, ast: Ast, x: nat)
    requires
        a.closed(),
        b.count() >= a.count(),
        kept(a, b, ast),
        !typed(a, x) || rhs_operand(ast, x),
        forall|j: nat| j != x ==> #[trigger] c.assignment_of(j) == b.assignment_of(j),
        forall|u: TypeId| u@ < b.count() && b.type_of(u) != Type::Unknown ==> #[trigger] c.type_of(u) != Type::Unknown,
    ensures
        kept(a, c, ast),
{
    assert forall|u: TypeId| u@ < a.count() && a.type_of(u) != Type::Unknown implies #[trigger] c.type_of(u)
        != Type::Unknown by {
        assert(b.type_of(u) != Type::Unknown);
    }
    assert forall|j: nat| typed(a, j) && !rhs_operand(ast, j) implies #[trigger] c.assignment_of(j) == a.assignment_of(j) by {
        assert(b.assignment_of(j) == a.assignment_of(j));
    }
}

/// One more step of the checker's work on node `x` (untyped at the start,
/// `t0`): a nested step that keeps what it should, or a step that replaces
/// only `x`'s own assignment and turns no known type unknown.
pub proof fn lemma_keep(t0: Types, tp: Types, t1: Types, ast: Ast, x: nat)
    requires
        t0.closed(),
        tp.count() >= t0.count(),
        kept(t0, tp, ast),
        !typed(t0, x) || rhs_operand(ast, x),
        kept(tp, t1, ast) || ((forall|j: nat| j != x ==> #[trigger] t1.assignment_of(j) == tp.assignment_of(j))
            && (forall|u: TypeId| u@ < tp.count() && tp.type_of(u) != Type::Unknown ==> #[trigger] t1.type_of(u)
            != Type::Unknown)),
    ensures
        kept(t0, t1, ast),
{
    if kept(tp, t1, ast) {
        lemma_kept_trans(t0, tp, t1, ast);
    } else {
        lemma_kept_at(t0, tp, t1, ast, x);
    }
}

/// Whether child `k` of node `id` exists and already has a type other than
/// `Unknown`.
pub open spec fn child_typed(ts: Types, ast: Ast, id: AstId, k: int) -> bool {
    0 <= k < ast.children_of(id@).len() && typed(ts, ast.children_of(id@)[k]@)
}

/// The type assigned to child `k` of node `id`.
pub open spec fn child_tid(ts: Types, ast: Ast, id: AstId, k: int) -> TypeId {
    ts.assignment_of(ast.children_of(id@)[k]@)->0
}

/// What type child `k` of node `id` has.
pub open spec fn child_type(ts: Types, ast: Ast, id: AstId, k: int) -> Type {
    ts.type_of(child_tid(ts, ast, id, k))
}

/// Whether a projection from a value of type `base` by a field node of kind
/// `field` is refused: a tuple takes only an integer, a struct only a name,
/// and no other type takes any.
pub open spec fn proj_refused(base: Type, field: AstKind) -> bool {
    match base {
        Type::Tuple => field != AstKind::Integer,
        Type::Struct => field != AstKind::VIdent && field != AstKind::TIdent,
        _ => true,
    }
}

/// The type of a block, tuple or struct node without children.
pub open spec fn empty_type(kind: AstKind) -> Type {
    if kind == AstKind::Block {
        Type::NoneType
    } else if kind == AstKind::Tuple {
        Type::Tuple
    } else {
        Type::Struct
    }
}

/// Whether nodes of kind `kind` are typed from their parts: blocks, tuples,
/// structs and operators.
pub open spec fn expr_compound(kind: AstKind) -> bool {
    kind == AstKind::Block || kind == AstKind::Tuple || kind == AstKind::Struct || kind is Infix
}

/// Whether `op` is an arithmetic operator (the others compare).
pub open spec fn is_arith(op: InfixKind) -> bool {
    op == InfixKind::Add || op == InfixKind::Sub || op == InfixKind::Mul || op == InfixKind::Div
}

/// The type of an operator applied to operands of types `a` and `b`: for
/// arithmetic, a `Weak` side takes the other's number kind, constants fold
/// (`None` when the folded value does not fit), numbers of one kind give that
/// kind, and anything else is reported and `Weak`; a comparison of boolean
/// constants folds, and any other comparison is `Bool`.
pub open spec fn infix_type(op: InfixKind, a: Type, b: Type) -> Option<Type> {
    if is_arith(op) {
        match (a, b) {
            (Type::Weak, Type::Weak) => Some(Type::Weak),
            (Type::Weak, Type::I32) | (Type::Weak, Type::ConstI32(_)) | (Type::I32, Type::Weak) | (
                Type::ConstI32(_),
                Type::Weak,
            ) => Some(Type::I32),
            (Type::Weak, Type::F32) | (Type::F32, Type::Weak) => Some(Type::F32),
            (Type::ConstI32(x), Type::ConstI32(y)) => match fold_i32(op, x, y) {
                Some(v) => Some(Type::ConstI32(v)),
                None => None,
            },
            (Type::I32, Type::I32) | (Type::I32, Type::ConstI32(_)) | (Type::ConstI32(_), Type::I32) => Some(
                Type::I32,
            ),
            (Type::F32, Type::F32) => Some(Type::F32),
            _ => Some(Type::Weak),
        }
    } else {
        match (a, b) {
            (Type::ConstBool(l), Type::ConstBool(r)) => Some(Type::ConstBool(compare_bools(op, l, r))),
            _ => Some(Type::Bool),
        }
    }
}

/// The type the checker gives node `i` of the expression language that needs
/// no definitions, looked at to depth `d`: integer literals are constants of
/// their (truncated) value, or `I32` without a value; other literal and
/// built-in kinds have their [`leaf_type`]; empty blocks, tuples and structs
/// their [`empty_type`]; an operator node the [`infix_type`] of its first two
/// children. `None` outside that language, for an operator whose constants do
/// not fold, and where a `Weak` type (an error) would arise.
pub open spec fn expr_type(ast: Ast, i: nat, d: nat) -> Option<Type>
    decreases d,
{
    let kind = ast.kind_of(i);
    match kind {
        AstKind::Integer => match ast.literals.value_at(i) {
            Some(Literal::Integer(v)) => Some(Type::ConstI32(v as i32)),
            _ => Some(Type::I32),
        },
        AstKind::Infix(op) => if d > 0 && ast.children_of(i).len() >= 2 {
            match (
                expr_type(ast, ast.children_of(i)[0]@, (d - 1) as nat),
                expr_type(ast, ast.children_of(i)[1]@, (d - 1) as nat),
            ) {
                (Some(a), Some(b)) => match infix_type(op, a, b) {
                    Some(Type::Weak) => None,
                    t => t,
                },
                _ => None,
            }
        } else {
            None
        },
        AstKind::Block | AstKind::Tuple | AstKind::Struct => if ast.children_of(i).len() == 0 {
            Some(empty_type(kind))
        } else {
            None
        },
        _ => match leaf_type(kind) {
            Some(Type::Weak) => None,
            t => t,
        },
    }
}

/// Whether node `i` is an operator node whose two operands [`expr_type`]
/// looks at, to depth `d`.
pub open spec fn expr_branch(ast: Ast, i: nat, d: nat) -> bool {
    ast.kind_of(i) is Infix && d > 0 && ast.children_of(i).len() >= 2
}

/// The nodes that [`expr_type`] looks at from node `i` to depth `d`.
pub open spec fn expr_nodes(ast: Ast, i: nat, d: nat) -> Set<nat>
    decreases d,
{
    if expr_branch(ast, i, d) {
        set![i].union(expr_nodes(ast, ast.children_of(i)[0]@, (d - 1) as nat)).union(
            expr_nodes(ast, ast.children_of(i)[1]@, (d - 1) as nat),
        )
    } else {
        set![i]
    }
}

/// Whether the nodes that [`expr_type`] looks at from node `i` to depth `d`
/// form a tree of existing nodes: no node is reached twice.
pub open spec fn expr_tree(ast: Ast, i: nat, d: nat) -> bool
    decreases d,
{
    &&& i < ast.count()
    &&& expr_branch(ast, i, d) ==> {
        let c0 = ast.children_of(i)[0]@;
        let c1 = ast.children_of(i)[1]@;
        &&& expr_tree(ast, c0, (d - 1) as nat)
        &&& expr_tree(ast, c1, (d - 1) as nat)
        &&& expr_nodes(ast, c0, (d - 1) as nat).disjoint(expr_nodes(ast, c1, (d - 1) as nat))
        &&& !expr_nodes(ast, c0, (d - 1) as nat).contains(i)
        &&& !expr_nodes(ast, c1, (d - 1) as nat).contains(i)
    }
}

/// Whether node `i` is a tree of that expression language, to depth `d`.
pub open spec fn expr_ok(ast: Ast, i: nat, d: nat) -> bool {
    expr_tree(ast, i, d) && expr_type(ast, i, d) is Some
}

/// Whether every node of `nodes` that has a type already has the one that
/// [`expr_type`] gives it at depth `depth`.
pub open spec fn settled(ts: Types, ast: Ast, nodes: Set<nat>, depth: nat) -> bool {
    forall|j: nat|
        nodes.contains(j) && #[trigger] ts.assignment_of(j) is Some ==> expr_type(ast, j, depth) is Some
            && ts.type_of(ts.assignment_of(j)->0) == expr_type(ast, j, depth)->0
}

/// How many of the nodes `0..n` have a type assigned.
pub open spec fn assigned(ts: Types, n: nat) -> nat
    decreases n,
{
    if n == 0 {
        0
    } else {
        assigned(ts, (n - 1) as nat) + if ts.assignment_of((n - 1) as nat) is Some {
            1nat
        } else {
            0nat
        }
    }
}

/// Whether typing node `i` of `ast` (an expression tree to depth `d`, read
/// against depth `depth`) can start from `ts`: the tree's nodes that have a
/// type have the right one, and there is room for a type per untyped node.
pub open spec fn expr_pre(ts: Types, ast: Ast, i: nat, d: nat, depth: nat) -> bool {
    &&& expr_ok(ast, i, d)
    &&& d <= depth
    &&& settled(ts, ast, expr_nodes(ast, i, d), depth)
    &&& ts.count() + ast.count() < 4294967295 + assigned(ts, ast.count())
}

/// What typing node `i` of such a tree does: it succeeds with the node's
/// [`expr_type`], assigned to it, logging nothing and changing no symbol; only
/// the tree's untyped nodes get types, old types stay as they were, the tree
/// stays settled, and at most one type is added per node newly typed.
pub open spec fn expr_post(
    t0: Types,
    s0: Symbols,
    e0: Errors,
    t1: Types,
    s1: Symbols,
    e1: Errors,
    ast: Ast,
    i: nat,
    d: nat,
    depth: nat,
    r: Option<TypeId>,
) -> bool {
    &&& r is Some
    &&& t1.assignment_of(i) == r
    &&& t1.type_of(r->0) == expr_type(ast, i, d)->0
    &&& s1 == s0
    &&& e1 == e0
    &&& forall|j: nat| #[trigger] t0.assignment_of(j) is Some ==> t1.assignment_of(j) == t0.assignment_of(j)
    &&& forall|j: nat| !expr_nodes(ast, i, d).contains(j) ==> #[trigger] t1.assignment_of(j) == t0.assignment_of(j)
    &&& forall|u: TypeId| u@ < t0.count() ==> #[trigger] t1.type_of(u) == t0.type_of(u)
    &&& settled(t1, ast, expr_nodes(ast, i, d), depth)
    &&& t1.count() + assigned(t0, ast.count()) <= t0.count() + assigned(t1, ast.count())
}

/// Looking deeper at a tree of the expression language changes nothing.
pub proof fn lemma_expr_deeper(ast: Ast, i: nat, d: nat, e: nat)
    requires
        expr_ok(ast, i, d),
        d <= e,
    ensures
        expr_ok(ast, i, e),
        expr_type(ast, i, e) == expr_type(ast, i, d),
        expr_nodes(ast, i, e) == expr_nodes(ast, i, d),
    decreases d,
{
    if expr_branch(ast, i, d) {
        let c0 = ast.children_of(i)[0]@;
        let c1 = ast.children_of(i)[1]@;
        lemma_expr_deeper(ast, c0, (d - 1) as nat, (e - 1) as nat);
        lemma_expr_deeper(ast, c1, (d - 1) as nat, (e - 1) as nat);
    }
}

/// Every node of a tree of the expression language is the root of one, to a
/// depth no greater.
pub proof fn lemma_expr_sub(ast: Ast, i: nat, d: nat, j: nat) -> (dj: nat)
    requires
        expr_ok(ast, i, d),
        expr_nodes(ast, i, d).contains(j),
    ensures
        dj <= d,
        expr_ok(ast, j, dj),
        expr_nodes(ast, j, dj).subset_of(expr_nodes(ast, i, d)),
    decreases d,
{
    if j == i {
        d
    } else {
        let c0 = ast.children_of(i)[0]@;
        let c1 = ast.children_of(i)[1]@;
        if expr_nodes(ast, c0, (d - 1) as nat).contains(j) {
            lemma_expr_sub(ast, c0, (d - 1) as nat, j)
        } else {
            lemma_expr_sub(ast, c1, (d - 1) as nat, j)
        }
    }
}

/// At most `n` of the nodes `0..n` have a type, fewer when one of them has
/// none; and a table in which every typed node stays typed counts at least as
/// many, one more for each node that got a type.
pub proof fn lemma_assigned(a: Types, b: Types, n: nat, x: nat)
    requires
        forall|j: nat| #[trigger] a.assignment_of(j) is Some ==> b.assignment_of(j) is Some,
    ensures
        assigned(a, n) <= n,
        x < n && a.assignment_of(x) is None ==> assigned(a, n) < n,
        assigned(a, n) <= assigned(b, n),
        x < n && a.assignment_of(x) is None && b.assignment_of(x) is Some ==> assigned(a, n) < assigned(b, n),
    decreases n,
{
    if n > 0 {
        lemma_assigned(a, b, (n - 1) as nat, x);
        assert(a.assignment_of((n - 1) as nat) is Some ==> b.assignment_of((n - 1) as nat) is Some);
    }
}

/// A type the expression language gives is neither `Unknown` nor `Weak`.
pub proof fn lemma_expr_known(ast: Ast, i: nat, d: nat)
    requires
        expr_type(ast, i, d) is Some,
    ensures
        expr_type(ast, i, d)->0 != Type::Unknown,
        expr_type(ast, i, d)->0 != Type::Weak,
{
}

/// Whether the nodes of a tree are settled does not depend on how deep their
/// types are read, once the tree is whole.
pub proof fn lemma_settled_shift(ts: Types, ast: Ast, i: nat, d: nat, e: nat)
    requires
        expr_ok(ast, i, d),
        d <= e,
    ensures
        settled(ts, ast, expr_nodes(ast, i, d), d) == settled(ts, ast, expr_nodes(ast, i, d), e),
{
    assert forall|j: nat| expr_nodes(ast, i, d).contains(j) implies expr_type(ast, j, d) == expr_type(ast, j, e) by {
        let dj = lemma_expr_sub(ast, i, d, j);
        lemma_expr_deeper(ast, j, dj, d);
        lemma_expr_deeper(ast, j, dj, e);
    }
}

/// Nodes stay settled while their assignments and the types they name stay
/// as they were.
pub proof fn lemma_settled_keep(a: Types, b: Types, ast: Ast, nodes: Set<nat>, depth: nat)
    requires
        settled(a, ast, nodes, depth),
        a.closed(),
        forall|j: nat| nodes.contains(j) ==> #[trigger] b.assignment_of(j) == a.assignment_of(j),
        forall|u: TypeId| u@ < a.count() ==> #[trigger] b.type_of(u) == a.type_of(u),
    ensures
        settled(b, ast, nodes, depth),
{
    assert forall|j: nat| nodes.contains(j) && #[trigger] b.assignment_of(j) is Some implies expr_type(ast, j, depth) is Some
        && b.type_of(b.assignment_of(j)->0) == expr_type(ast, j, depth)->0 by {
        assert(a.assignment_of(j) is Some);
        assert(a.assignment_of(j)->0@ < a.count());
    }
}

/// Typing a node of a tree whose type is known already gives its settled
/// type and changes nothing.
pub proof fn lemma_typed_post(t0: Types, s0: Symbols, e0: Errors, ast: Ast, i: nat, d: nat)
    requires
        expr_pre(t0, ast, i, d, d),
        t0.assignment_of(i) is Some,
    ensures
        expr_post(t0, s0, e0, t0, s0, e0, ast, i, d, d, t0.assignment_of(i)),
{
    assert(expr_nodes(ast, i, d).contains(i)) by {
        reveal_with_fuel(expr_nodes, 1);
    }
}

/// Giving a fresh type to an untyped node of a tree that has no operands
/// settles it.
pub proof fn lemma_fresh_post(t0: Types, t1: Types, s0: Symbols, e0: Errors, ast: Ast, i: nat, d: nat, t: TypeId)
    requires
        expr_pre(t0, ast, i, d, d),
        !expr_branch(ast, i, d),
        t0.closed(),
        t0.assignment_of(i) is None,
        t1.assignment_of(i) == Some(t),
        t1.type_of(t) == expr_type(ast, i, d)->0,
        t@ == t0.count(),
        t1.count() == t0.count() + 1,
        forall|u: TypeId| u@ != t@ ==> #[trigger] t1.type_of(u) == t0.type_of(u),
        forall|j: nat| j != i ==> #[trigger] t1.assignment_of(j) == t0.assignment_of(j),
    ensures
        expr_post(t0, s0, e0, t1, s0, e0, ast, i, d, d, Some(t)),
{
    lemma_assigned(t0, t1, ast.count(), i);
    assert(expr_nodes(ast, i, d) == set![i]);
    assert forall|j: nat| #[trigger] t0.assignment_of(j) is Some implies t1.assignment_of(j) == t0.assignment_of(j) by {
        if j == i {
        }
    }
}

/// Operand `k` of operator node `i`.
pub open spec fn operand(ast: Ast, i: nat, k: int) -> nat {
    ast.children_of(i)[k]@
}

/// Typing an operator node of a tree can type its first operand.
pub proof fn lemma_infix_pre0(t0: Types, ast: Ast, i: nat, d: nat)
    requires
        expr_pre(t0, ast, i, d, d),
        ast.kind_of(i) is Infix,
    ensures
        expr_branch(ast, i, d),
        expr_pre(t0, ast, operand(ast, i, 0), (d - 1) as nat, (d - 1) as nat),
        expr_pre(t0, ast, operand(ast, i, 1), (d - 1) as nat, (d - 1) as nat),
        expr_nodes(ast, i, d).contains(i),
{
    let c0 = operand(ast, i, 0);
    let c1 = operand(ast, i, 1);
    let e = (d - 1) as nat;
    assert(expr_nodes(ast, c0, e).subset_of(expr_nodes(ast, i, d)));
    assert(expr_nodes(ast, c1, e).subset_of(expr_nodes(ast, i, d)));
    lemma_settled_shift(t0, ast, c0, e, d);
    lemma_settled_shift(t0, ast, c1, e, d);
}

/// After its first operand, an operator node of a tree can type its second
/// one, and is still untyped.
pub proof fn lemma_infix_pre1(t0: Types, mid0: Types, s0: Symbols, e0: Errors, ast: Ast, i: nat, d: nat)
    requires
        expr_pre(t0, ast, i, d, d),
        expr_branch(ast, i, d),
        t0.closed(),
        t0.assignment_of(i) is None,
        expr_pre(t0, ast, operand(ast, i, 1), (d - 1) as nat, (d - 1) as nat),
        expr_post(t0, s0, e0, mid0, s0, e0, ast, operand(ast, i, 0), (d - 1) as nat, (d - 1) as nat, mid0.assignment_of(operand(ast, i, 0))),
    ensures
        expr_pre(mid0, ast, operand(ast, i, 1), (d - 1) as nat, (d - 1) as nat),
        mid0.assignment_of(i) is None,
{
    let c0 = operand(ast, i, 0);
    let c1 = operand(ast, i, 1);
    let e = (d - 1) as nat;
    let n1 = expr_nodes(ast, c1, e);
    assert forall|j: nat| n1.contains(j) implies #[trigger] mid0.assignment_of(j) == t0.assignment_of(j) by {
        assert(!expr_nodes(ast, c0, e).contains(j));
    }
    lemma_settled_keep(t0, mid0, ast, n1, e);
    assert(!expr_nodes(ast, c0, e).contains(i));
}

/// An operator node of a tree, given its type once both operands are typed,
/// is settled with the rest of its tree.
pub proof fn lemma_infix_post(
    t0: Types,
    mid0: Types,
    mid1: Types,
    fin: Types,
    s0: Symbols,
    e0: Errors,
    ast: Ast,
    i: nat,
    d: nat,
    t: TypeId,
)
    requires
        expr_pre(t0, ast, i, d, d),
        expr_branch(ast, i, d),
        t0.closed(),
        mid0.closed(),
        mid1.closed(),
        t0.count() <= mid0.count() <= mid1.count(),
        t0.assignment_of(i) is None,
        expr_post(t0, s0, e0, mid0, s0, e0, ast, operand(ast, i, 0), (d - 1) as nat, (d - 1) as nat, mid0.assignment_of(operand(ast, i, 0))),
        expr_post(mid0, s0, e0, mid1, s0, e0, ast, operand(ast, i, 1), (d - 1) as nat, (d - 1) as nat, mid1.assignment_of(operand(ast, i, 1))),
        fin.assignment_of(i) == Some(t),
        fin.type_of(t) == expr_type(ast, i, d)->0,
        t@ == mid1.count(),
        fin.count() == mid1.count() + 1,
        forall|u: TypeId| u@ != t@ ==> #[trigger] fin.type_of(u) == mid1.type_of(u),
        forall|j: nat| j != i ==> #[trigger] fin.assignment_of(j) == mid1.assignment_of(j),
    ensures
        expr_post(t0, s0, e0, fin, s0, e0, ast, i, d, d, Some(t)),
{
    let c0 = operand(ast, i, 0);
    let c1 = operand(ast, i, 1);
    let e = (d - 1) as nat;
    let n0 = expr_nodes(ast, c0, e);
    let n1 = expr_nodes(ast, c1, e);
    let n = ast.count();
    assert(expr_ok(ast, c0, e) && expr_ok(ast, c1, e));
    assert(!n0.contains(i) && !n1.contains(i));
    assert(mid1.assignment_of(i) is None) by {
        assert(mid0.assignment_of(i) == t0.assignment_of(i));
    }
    lemma_assigned(mid1, fin, n, i);
    assert forall|j: nat| n0.contains(j) implies #[trigger] mid1.assignment_of(j) == mid0.assignment_of(j) by {
        assert(!n1.contains(j));
    }
    lemma_settled_keep(mid0, mid1, ast, n0, e);
    assert forall|j: nat| n0.contains(j) implies #[trigger] fin.assignment_of(j) == mid1.assignment_of(j) by {}
    assert forall|j: nat| n1.contains(j) implies #[trigger] fin.assignment_of(j) == mid1.assignment_of(j) by {}
    lemma_settled_keep(mid1, fin, ast, n0, e);
    lemma_settled_keep(mid1, fin, ast, n1, e);
    lemma_settled_shift(fin, ast, c0, e, d);
    lemma_settled_shift(fin, ast, c1, e, d);
    let all = expr_nodes(ast, i, d);
    assert(all == set![i].union(n0).union(n1));
    assert forall|j: nat| all.contains(j) && #[trigger] fin.assignment_of(j) is Some implies expr_type(ast, j, d) is Some
        && fin.type_of(fin.assignment_of(j)->0) == expr_type(ast, j, d)->0 by {
        if j == i {
        } else if n0.contains(j) {
        } else {
        }
    }
    assert forall|j: nat| #[trigger] t0.assignment_of(j) is Some implies fin.assignment_of(j) == t0.assignment_of(j) by {
        assert(mid0.assignment_of(j) == t0.assignment_of(j));
        assert(mid1.assignment_of(j) == mid0.assignment_of(j));
    }
    assert forall|j: nat| !all.contains(j) implies #[trigger] fin.assignment_of(j) == t0.assignment_of(j) by {
        assert(!n0.contains(j) && !n1.contains(j));
        assert(mid0.assignment_of(j) == t0.assignment_of(j));
        assert(mid1.assignment_of(j) == mid0.assignment_of(j));
    }
    assert forall|u: TypeId| u@ < t0.count() implies #[trigger] fin.type_of(u) == t0.type_of(u) by {
        assert(mid0.type_of(u) == t0.type_of(u));
        assert(mid1.type_of(u) == mid0.type_of(u));
    }
}

impl Types {
    /// Computes the type of child `k` of node `id`, within depth `fuel - 1`.
    fn compute_child(&mut self, ast: &Ast, symbols: &mut Symbols, errors: &mut Errors, id: AstId, k: usize, fuel: u64) -> (r: Option<(AstId, TypeId)>)
        requires
            old(self).wf(),
            old(self).closed(),
            old(symbols).wf(),
            old(errors).wf(),
            fuel > 0,
        ensures
            kept(*old(self), *final(self), *ast),
            r matches Some((c, t)) ==> (!rhs_operand(*ast, c@) ==> final(self).assignment_of(c@) == Some(t)),
            steps(*old(self), *old(symbols), *old(errors), *final(self), *final(symbols), *final(errors)),
            r matches Some((c, t)) ==> k < ast.children_of(id@).len() && c == ast.children_of(id@)[k as int]
                && t@ < final(self).count() && final(self).assignment_of(c@) is Some,
            k >= ast.children_of(id@).len() ==> r is None && *final(self) == *old(self) && *final(symbols)
                == *old(symbols) && *final(errors) == *old(errors),
            child_typed(*old(self), *ast, id, k as int) ==> r == Some(
                (ast.children_of(id@)[k as int], child_tid(*old(self), *ast, id, k as int)),
            ) && *final(self) == *old(self) && *final(symbols) == *old(symbols) && *final(errors) == *old(errors),
            fuel > 1 && k < ast.children_of(id@).len() && expr_pre(
                *old(self),
                *ast,
                operand(*ast, id@, k as int),
                (fuel - 2) as nat,
                (fuel - 2) as nat,
            ) ==> (r matches Some((c, t)) && c == ast.children_of(id@)[k as int] && expr_post(
                *old(self),
                *old(symbols),
                *old(errors),
                *final(self),
                *final(symbols),
                *final(errors),
                *ast,
                c@,
                (fuel - 2) as nat,
                (fuel - 2) as nat,
                Some(t),
            )),
        decreases fuel, 0nat,
    {
        let c = match ast_child(ast, id, k) {
            None => {
                proof {
                    lemma_steps_refl(*self, *symbols, *errors);
                }
                return None;
            },
            Some(c) => c,
        };
        match self.compute_fuel(ast, symbols, errors, c, fuel - 1) {
            None => None,
            Some(t) => Some((c, t)),
        }
    }

    /// Computes the type of a node of a kind made of parts, as
    /// `compute_fuel` describes.
    #[verifier::spinoff_prover]
    #[verifier::rlimit(40)]
    fn compute_compound(&mut self, ast: &Ast, symbols: &mut Symbols, errors: &mut Errors, id: AstId, kind: AstKind, fuel: u64) -> (r: Option<TypeId>)
        requires
            kind == ast.kind_of(id@),
            !typed(*old(self), id@),
            old(self).wf(),
            old(self).closed(),
            old(symbols).wf(),
            old(errors).wf(),
            fuel > 0,
        ensures
            known(*old(self)) && stable(*ast, id@) ==> (r matches Some(t) ==> node_typing(*final(self), *ast, id@, t)),
            kept(*old(self), *final(self), *ast),
            !rhs_operand(*ast, id@) ==> (r matches Some(t) ==> final(self).assignment_of(id@) == Some(t)),
            computed(*old(self), *old(symbols), *old(errors), *final(self), *final(symbols), *final(errors), id, r),
            (kind == AstKind::Block || kind == AstKind::Tuple || kind == AstKind::Struct) && ast.children_of(id@).len()
                == 0 && room_for(*old(self), id) ==> (r matches Some(t) && final(self).assignment_of(id@) == Some(t)
                && final(self).type_of(t) == empty_type(kind)),
            (kind == AstKind::VField || kind == AstKind::TField || kind == AstKind::Bind || kind == AstKind::BindMut
                || kind == AstKind::Arg) && child_typed(*old(self), *ast, id, 0) ==> r == Some(
                child_tid(*old(self), *ast, id, 0),
            ) && final(self).assignment_of(id@) == r,
            kind == ast.kind_of(id@) && expr_compound(kind) && old(self).assignment_of(id@) is None && expr_pre(
                *old(self),
                *ast,
                id@,
                (fuel - 1) as nat,
                (fuel - 1) as nat,
            ) ==> expr_post(
                *old(self),
                *old(symbols),
                *old(errors),
                *final(self),
                *final(symbols),
                *final(errors),
                *ast,
                id@,
                (fuel - 1) as nat,
                (fuel - 1) as nat,
                r,
            ),
        decreases fuel, 2nat,
    {
        let ghost t0 = *self;
        let ghost s0 = *symbols;
        let ghost e0 = *errors;
        proof {
            lemma_steps_refl(t0, s0, e0);
        }
        let ghost goal = kind == ast.kind_of(id@) && expr_compound(kind) && t0.assignment_of(id@) is None && expr_pre(
            t0,
            *ast,
            id@,
            (fuel - 1) as nat,
            (fuel - 1) as nat,
        );
        proof {
            if goal {
                lemma_assigned(t0, t0, ast.count(), id@);
                assert(!(kind is Infix) ==> ast.children_of(id@).len() == 0);
            }
        }
        match kind {
            AstKind::Func => self.compute_func(ast, symbols, errors, id, fuel),
            AstKind::Block => self.compute_block(ast, symbols, errors, id, kind, fuel),
            AstKind::Tuple => self.compute_tuple(ast, symbols, errors, id, kind, fuel),
            AstKind::Struct => self.compute_struct(ast, symbols, errors, id, kind, fuel),
            AstKind::Array => self.compute_array(ast, symbols, errors, id, kind, fuel),
            AstKind::Repeat => {
                let ghost (tp, sp, ep) = (*self, *symbols, *errors);
                let len_t = match self.compute_child(ast, symbols, errors, id, 0, fuel) {
                    None => {
                        proof { lemma_steps_trans(t0, tp, *self, s0, sp, *symbols, e0, ep, *errors); lemma_keep(t0, tp, *self, *ast, id@); }
                        return None;
                    },
                    Some((_, t)) => t,
                };
                proof { lemma_steps_trans(t0, tp, *self, s0, sp, *symbols, e0, ep, *errors); lemma_keep(t0, tp, *self, *ast, id@); if known(t0) && stable(*ast, id@) { assert(!rhs_operand(*ast, ast.children_of(id@)[0]@)); assert(ast.children_of(id@)[0]@ != id@); assert(self.assignment_of(ast.children_of(id@)[0]@) == Some(len_t)); } }
                let ghost (tp, sp, ep) = (*self, *symbols, *errors);
                let expr_t = match self.compute_child(ast, symbols, errors, id, 1, fuel) {
                    None => {
                        proof { lemma_steps_trans(t0, tp, *self, s0, sp, *symbols, e0, ep, *errors); lemma_keep(t0, tp, *self, *ast, id@); }
                        return None;
                    },
                    Some((_, t)) => t,
                };
                proof { lemma_steps_trans(t0, tp, *self, s0, sp, *symbols, e0, ep, *errors); lemma_keep(t0, tp, *self, *ast, id@); if known(t0) && stable(*ast, id@) { assert(!rhs_operand(*ast, ast.children_of(id@)[1]@)); assert(ast.children_of(id@)[1]@ != id@); assert(self.assignment_of(ast.children_of(id@)[1]@) == Some(expr_t)); } }
                let ty = match *len_t.get(&self.types) {
                    Type::ConstI32(n) => Type::Array(n as usize),
                    _ => Type::Vector,
                };
                let ghost (tp, sp, ep) = (*self, *symbols, *errors);
                let tid = match self.assign_new(id, ty) {
                    None => {
                        proof { lemma_steps_trans(t0, tp, *self, s0, sp, *symbols, e0, ep, *errors); lemma_keep(t0, tp, *self, *ast, id@); }
                        return None;
                    },
                    Some(t) => t,
                };
                proof { lemma_steps_trans(t0, tp, *self, s0, sp, *symbols, e0, ep, *errors); lemma_keep(t0, tp, *self, *ast, id@); }
                let ghost (tp, sp, ep) = (*self, *symbols, *errors);
                self.push_child(tid, expr_t);
                proof { lemma_steps_trans(t0, tp, *self, s0, sp, *symbols, e0, ep, *errors); lemma_keep(t0, tp, *self, *ast, id@); }
                Some(tid)
            },
            AstKind::Vector => {
                let ghost (tp, sp, ep) = (*self, *symbols, *errors);
                let expr_t = match self.compute_child(ast, symbols, errors, id, 0, fuel) {
                    None => {
                        proof { lemma_steps_trans(t0, tp, *self, s0, sp, *symbols, e0, ep, *errors); lemma_keep(t0, tp, *self, *ast, id@); }
                        return None;
                    },
                    Some((_, t)) => t,
                };
                proof { lemma_steps_trans(t0, tp, *self, s0, sp, *symbols, e0, ep, *errors); lemma_keep(t0, tp, *self, *ast, id@); if known(t0) && stable(*ast, id@) { assert(!rhs_operand(*ast, ast.children_of(id@)[0]@)); assert(ast.children_of(id@)[0]@ != id@); assert(self.assignment_of(ast.children_of(id@)[0]@) == Some(expr_t)); } }
                let ghost (tp, sp, ep) = (*self, *symbols, *errors);
                let tid = match self.assign_new(id, Type::Vector) {
                    None => {
                        proof { lemma_steps_trans(t0, tp, *self, s0, sp, *symbols, e0, ep, *errors); lemma_keep(t0, tp, *self, *ast, id@); }
                        return None;
                    },
                    Some(t) => t,
                };
                proof { lemma_steps_trans(t0, tp, *self, s0, sp, *symbols, e0, ep, *errors); lemma_keep(t0, tp, *self, *ast, id@); }
                let ghost (tp, sp, ep) = (*self, *symbols, *errors);
                self.push_child(tid, expr_t);
                proof { lemma_steps_trans(t0, tp, *self, s0, sp, *symbols, e0, ep, *errors); lemma_keep(t0, tp, *self, *ast, id@); }
                Some(tid)
            },
            AstKind::Optional => {
                let ghost (tp, sp, ep) = (*self, *symbols, *errors);
                let tid = match self.assign_new(id, Type::Optional) {
                    None => {
                        proof { lemma_steps_trans(t0, tp, *self, s0, sp, *symbols, e0, ep, *errors); lemma_keep(t0, tp, *self, *ast, id@); }
                        return None;
                    },
                    Some(t) => t,
                };
                proof { lemma_steps_trans(t0, tp, *self, s0, sp, *symbols, e0, ep, *errors); lemma_keep(t0, tp, *self, *ast, id@); }
                let ghost (tp, sp, ep) = (*self, *symbols, *errors);
                let inner = match self.compute_child(ast, symbols, errors, id, 0, fuel) {
                    None => {
                        proof { lemma_steps_trans(t0, tp, *self, s0, sp, *symbols, e0, ep, *errors); lemma_keep(t0, tp, *self, *ast, id@); }
                        return None;
                    },
                    Some((_, t)) => t,
                };
                proof { lemma_steps_trans(t0, tp, *self, s0, sp, *symbols, e0, ep, *errors); lemma_keep(t0, tp, *self, *ast, id@); if known(t0) && stable(*ast, id@) { assert(!rhs_operand(*ast, ast.children_of(id@)[0]@)); assert(ast.children_of(id@)[0]@ != id@); assert(self.assignment_of(ast.children_of(id@)[0]@) == Some(inner)); } }
                let ghost (tp, sp, ep) = (*self, *symbols, *errors);
                self.push_child(tid, inner);
                proof { lemma_steps_trans(t0, tp, *self, s0, sp, *symbols, e0, ep, *errors); lemma_keep(t0, tp, *self, *ast, id@); }
                Some(tid)
            },
            AstKind::VField | AstKind::TField | AstKind::Bind | AstKind::BindMut => {
                let ghost (tp, sp, ep) = (*self, *symbols, *errors);
                let (c0, tid) = match self.compute_child(ast, symbols, errors, id, 0, fuel) {
                    None => {
                        proof { lemma_steps_trans(t0, tp, *self, s0, sp, *symbols, e0, ep, *errors); lemma_keep(t0, tp, *self, *ast, id@); }
                        return None;
                    },
                    Some((c, t)) => (c, t),
                };
                proof { lemma_steps_trans(t0, tp, *self, s0, sp, *symbols, e0, ep, *errors); lemma_keep(t0, tp, *self, *ast, id@); if known(t0) && stable(*ast, id@) { assert(!rhs_operand(*ast, ast.children_of(id@)[0]@)); assert(ast.children_of(id@)[0]@ != id@); assert(self.assignment_of(ast.children_of(id@)[0]@) == Some(tid)); } }
                if *c0.get(&ast.kinds) == AstKind::Struct {
                    let ghost (tp, sp, ep) = (*self, *symbols, *errors);
                    self.set_definition(tid, Some(id));
                    proof { lemma_steps_trans(t0, tp, *self, s0, sp, *symbols, e0, ep, *errors); lemma_keep(t0, tp, *self, *ast, id@); }
                }
                let ghost (tp, sp, ep) = (*self, *symbols, *errors);
                self.assign(id, tid);
                proof { lemma_steps_trans(t0, tp, *self, s0, sp, *symbols, e0, ep, *errors); lemma_keep(t0, tp, *self, *ast, id@); }
                Some(tid)
            },
            AstKind::Arg => {
                let ghost (tp, sp, ep) = (*self, *symbols, *errors);
                let tid = match self.compute_child(ast, symbols, errors, id, 0, fuel) {
                    None => {
                        proof { lemma_steps_trans(t0, tp, *self, s0, sp, *symbols, e0, ep, *errors); lemma_keep(t0, tp, *self, *ast, id@); }
                        return None;
                    },
                    Some((_, t)) => t,
                };
                proof { lemma_steps_trans(t0, tp, *self, s0, sp, *symbols, e0, ep, *errors); lemma_keep(t0, tp, *self, *ast, id@); if known(t0) && stable(*ast, id@) { assert(!rhs_operand(*ast, ast.children_of(id@)[0]@)); assert(ast.children_of(id@)[0]@ != id@); assert(self.assignment_of(ast.children_of(id@)[0]@) == Some(tid)); } }
                let ghost (tp, sp, ep) = (*self, *symbols, *errors);
                self.assign(id, tid);
                proof { lemma_steps_trans(t0, tp, *self, s0, sp, *symbols, e0, ep, *errors); lemma_keep(t0, tp, *self, *ast, id@); }
                Some(tid)
            },
            AstKind::Assign => {
                let ghost (tp, sp, ep) = (*self, *symbols, *errors);
                let lhs_t = match self.compute_child(ast, symbols, errors, id, 0, fuel) {
                    None => {
                        proof { lemma_steps_trans(t0, tp, *self, s0, sp, *symbols, e0, ep, *errors); lemma_keep(t0, tp, *self, *ast, id@); }
                        return None;
                    },
                    Some((_, t)) => t,
                };
                proof { lemma_steps_trans(t0, tp, *self, s0, sp, *symbols, e0, ep, *errors); lemma_keep(t0, tp, *self, *ast, id@); if known(t0) && stable(*ast, id@) { assert(!rhs_operand(*ast, ast.children_of(id@)[0]@)); assert(ast.children_of(id@)[0]@ != id@); assert(self.assignment_of(ast.children_of(id@)[0]@) == Some(lhs_t)); } }
                let ghost (tp, sp, ep) = (*self, *symbols, *errors);
                let rhs_t = match self.compute_child(ast, symbols, errors, id, 0, fuel) {
                    None => {
                        proof { lemma_steps_trans(t0, tp, *self, s0, sp, *symbols, e0, ep, *errors); lemma_keep(t0, tp, *self, *ast, id@); }
                        return None;
                    },
                    Some((_, t)) => t,
                };
                proof { lemma_steps_trans(t0, tp, *self, s0, sp, *symbols, e0, ep, *errors); lemma_keep(t0, tp, *self, *ast, id@); }
                let ghost (tp, sp, ep) = (*self, *symbols, *errors);
                let sub = match self.subtype(lhs_t, rhs_t) {
                    None => {
                        proof { lemma_steps_trans(t0, tp, *self, s0, sp, *symbols, e0, ep, *errors); lemma_keep(t0, tp, *self, *ast, id@); }
                        return None;
                    },
                    Some(b) => b,
                };
                proof { lemma_steps_trans(t0, tp, *self, s0, sp, *symbols, e0, ep, *errors); lemma_keep(t0, tp, *self, *ast, id@); }
                if !sub {
                    let ghost (tp, sp, ep) = (*self, *symbols, *errors);
                    log_at(errors, ErrorKind::Type, "Assigned expression has the incorrect type".to_owned(), *id.get(&ast.locations));
                    proof { lemma_steps_trans(t0, tp, *self, s0, sp, *symbols, e0, ep, *errors); lemma_keep(t0, tp, *self, *ast, id@); }
                }
                let ghost (tp, sp, ep) = (*self, *symbols, *errors);
                self.assign(id, lhs_t);
                proof { lemma_steps_trans(t0, tp, *self, s0, sp, *symbols, e0, ep, *errors); lemma_keep(t0, tp, *self, *ast, id@); }
                Some(lhs_t)
            },
            AstKind::If => {
                let ghost (tp, sp, ep) = (*self, *symbols, *errors);
                let cond_t = match self.compute_child(ast, symbols, errors, id, 0, fuel) {
                    None => {
                        proof { lemma_steps_trans(t0, tp, *self, s0, sp, *symbols, e0, ep, *errors); lemma_keep(t0, tp, *self, *ast, id@); }
                        return None;
                    },
                    Some((_, t)) => t,
                };
                proof { lemma_steps_trans(t0, tp, *self, s0, sp, *symbols, e0, ep, *errors); lemma_keep(t0, tp, *self, *ast, id@); }
                let ghost (tp, sp, ep) = (*self, *symbols, *errors);
                let _body_t = match self.compute_child(ast, symbols, errors, id, 1, fuel) {
                    None => {
                        proof { lemma_steps_trans(t0, tp, *self, s0, sp, *symbols, e0, ep, *errors); lemma_keep(t0, tp, *self, *ast, id@); }
                        return None;
                    },
                    Some((_, t)) => t,
                };
                proof { lemma_steps_trans(t0, tp, *self, s0, sp, *symbols, e0, ep, *errors); lemma_keep(t0, tp, *self, *ast, id@); }
                match *cond_t.get(&self.types) {
                    Type::Weak | Type::Unknown | Type::Bool | Type::ConstBool(_) | Type::Optional => {},
                    _ => {
                        let ghost (tp, sp, ep) = (*self, *symbols, *errors);
                        log_at(errors, ErrorKind::Type, "If condition must be of type Bool or Optional".to_owned(), *id.get(&ast.locations));
                        proof { lemma_steps_trans(t0, tp, *self, s0, sp, *symbols, e0, ep, *errors); lemma_keep(t0, tp, *self, *ast, id@); }
                    },
                }
                let ghost (tp, sp, ep) = (*self, *symbols, *errors);
                let r = self.assign_new(id, Type::NoneType);
                proof { lemma_steps_trans(t0, tp, *self, s0, sp, *symbols, e0, ep, *errors); lemma_keep(t0, tp, *self, *ast, id@); }
                r
            },
            AstKind::IfElse => {
                let ghost (tp, sp, ep) = (*self, *symbols, *errors);
                let cond_t = match self.compute_child(ast, symbols, errors, id, 0, fuel) {
                    None => {
                        proof { lemma_steps_trans(t0, tp, *self, s0, sp, *symbols, e0, ep, *errors); lemma_keep(t0, tp, *self, *ast, id@); }
                        return None;
                    },
                    Some((_, t)) => t,
                };
                proof { lemma_steps_trans(t0, tp, *self, s0, sp, *symbols, e0, ep, *errors); lemma_keep(t0, tp, *self, *ast, id@); }
                let ghost (tp, sp, ep) = (*self, *symbols, *errors);
                let body_t = match self.compute_child(ast, symbols, errors, id, 1, fuel) {
                    None => {
                        proof { lemma_steps_trans(t0, tp, *self, s0, sp, *symbols, e0, ep, *errors); lemma_keep(t0, tp, *self, *ast, id@); }
                        return None;
                    },
                    Some((_, t)) => t,
                };
                proof { lemma_steps_trans(t0, tp, *self, s0, sp, *symbols, e0, ep, *errors); lemma_keep(t0, tp, *self, *ast, id@); }
                let ghost (tp, sp, ep) = (*self, *symbols, *errors);
                let else_t = match self.compute_child(ast, symbols, errors, id, 2, fuel) {
                    None => {
                        proof { lemma_steps_trans(t0, tp, *self, s0, sp, *symbols, e0, ep, *errors); lemma_keep(t0, tp, *self, *ast, id@); }
                        return None;
                    },
                    Some((_, t)) => t,
                };
                proof { lemma_steps_trans(t0, tp, *self, s0, sp, *symbols, e0, ep, *errors); lemma_keep(t0, tp, *self, *ast, id@); }
                match *cond_t.get(&self.types) {
                    Type::Weak | Type::Unknown | Type::Bool | Type::ConstBool(_) | Type::Optional => {},
                    _ => {
                        let ghost (tp, sp, ep) = (*self, *symbols, *errors);
                        log_at(errors, ErrorKind::Type, "If condition must be of type Bool or Optional".to_owned(), *id.get(&ast.locations));
                        proof { lemma_steps_trans(t0, tp, *self, s0, sp, *symbols, e0, ep, *errors); lemma_keep(t0, tp, *self, *ast, id@); }
                    },
                }
                let ghost (tp, sp, ep) = (*self, *symbols, *errors);
                let tid = match self.union(body_t, else_t, errors) {
                    None => {
                        proof { lemma_steps_trans(t0, tp, *self, s0, sp, *symbols, e0, ep, *errors); lemma_keep(t0, tp, *self, *ast, id@); }
                        return None;
                    },
                    Some(t) => t,
                };
                proof { lemma_steps_trans(t0, tp, *self, s0, sp, *symbols, e0, ep, *errors); lemma_keep(t0, tp, *self, *ast, id@); }
                let ghost (tp, sp, ep) = (*self, *symbols, *errors);
                self.assign(id, tid);
                proof { lemma_steps_trans(t0, tp, *self, s0, sp, *symbols, e0, ep, *errors); lemma_keep(t0, tp, *self, *ast, id@); }
                Some(tid)
            },
            AstKind::Call => {
                proof {
                    if known(t0) && stable(*ast, id@) && ast.children_of(id@).len() > 0 {
                        assert(!rhs_operand(*ast, ast.children_of(id@)[0]@));
                        assert(ast.children_of(id@)[0]@ != id@);
                    }
                }
                self.compute_call(ast, symbols, errors, id, fuel)
            },
            AstKind::Proj => self.compute_proj(ast, symbols, errors, id, fuel),
            AstKind::Infix(op) => self.compute_infix(ast, symbols, errors, id, op, fuel),
            _ => None,
        }
    }

    /// Types a node of kind `Block`, as `compute_compound` describes.
    #[verifier::spinoff_prover]
    fn compute_block(&mut self, ast: &Ast, symbols: &mut Symbols, errors: &mut Errors, id: AstId, kind: AstKind, fuel: u64) -> (r: Option<TypeId>)
        requires
            kind == AstKind::Block,
            kind == ast.kind_of(id@),
            !typed(*old(self), id@),
            old(self).wf(),
            old(self).closed(),
            old(symbols).wf(),
            old(errors).wf(),
            fuel > 0,
        ensures
            known(*old(self)) && stable(*ast, id@) ==> (r matches Some(t) ==> node_typing(*final(self), *ast, id@, t)),
            kept(*old(self), *final(self), *ast),
            !rhs_operand(*ast, id@) ==> (r matches Some(t) ==> final(self).assignment_of(id@) == Some(t)),
            computed(*old(self), *old(symbols), *old(errors), *final(self), *final(symbols), *final(errors), id, r),
            (kind == AstKind::Block || kind == AstKind::Tuple || kind == AstKind::Struct) && ast.children_of(id@).len()
                == 0 && room_for(*old(self), id) ==> (r matches Some(t) && final(self).assignment_of(id@) == Some(t)
                && final(self).type_of(t) == empty_type(kind)),
            (kind == AstKind::VField || kind == AstKind::TField || kind == AstKind::Bind || kind == AstKind::BindMut
                || kind == AstKind::Arg) && child_typed(*old(self), *ast, id, 0) ==> r == Some(
                child_tid(*old(self), *ast, id, 0),
            ) && final(self).assignment_of(id@) == r,
            kind == ast.kind_of(id@) && expr_compound(kind) && old(self).assignment_of(id@) is None && expr_pre(
                *old(self),
                *ast,
                id@,
                (fuel - 1) as nat,
                (fuel - 1) as nat,
            ) ==> expr_post(
                *old(self),
                *old(symbols),
                *old(errors),
                *final(self),
                *final(symbols),
                *final(errors),
                *ast,
                id@,
                (fuel - 1) as nat,
                (fuel - 1) as nat,
                r,
            ),
        decreases fuel, 1nat,
    {
        let ghost t0 = *self;
        let ghost s0 = *symbols;
        let ghost e0 = *errors;
        proof {
            lemma_steps_refl(t0, s0, e0);
        }
        let ghost goal = kind == ast.kind_of(id@) && expr_compound(kind) && t0.assignment_of(id@) is None && expr_pre(
            t0,
            *ast,
            id@,
            (fuel - 1) as nat,
            (fuel - 1) as nat,
        );
        proof {
            if goal {
                lemma_assigned(t0, t0, ast.count(), id@);
                assert(!(kind is Infix) ==> ast.children_of(id@).len() == 0);
            }
        }
        let n = id.get(&ast.children).len();
        let mut last: Option<TypeId> = None;
        let mut i: usize = 0;
        while i < n
        invariant
            t0.closed(),
            !typed(t0, id@),
            kept(t0, *self, *ast),
            kind == AstKind::Block,
            goal ==> n == 0,
            steps(t0, s0, e0, *self, *symbols, *errors),
            t0 == *old(self),
            s0 == *old(symbols),
            e0 == *old(errors),
            fuel > 0,
            i <= n,
            n == ast.children_of(id@).len(),
            last matches Some(t) ==> t@ < self.count(),
            i == 0 ==> last is None && *self == t0 && *symbols == s0 && *errors == e0,
            i > 0 ==> last is Some,
            known(t0) && stable(*ast, id@) && i > 0 ==> self.assignment_of(ast.children_of(id@)[i - 1]@) == Some(last->0),
        decreases n - i,
        {
            let ghost (tp, sp, ep) = (*self, *symbols, *errors);
            let t = match self.compute_child(ast, symbols, errors, id, i, fuel) {
                None => {
                    proof { lemma_steps_trans(t0, tp, *self, s0, sp, *symbols, e0, ep, *errors); lemma_keep(t0, tp, *self, *ast, id@); }
                    return None;
                },
                Some((_, t)) => t,
            };
            proof {
                lemma_steps_trans(t0, tp, *self, s0, sp, *symbols, e0, ep, *errors);
                lemma_keep(t0, tp, *self, *ast, id@);
                if known(t0) && stable(*ast, id@) {
                    assert(!rhs_operand(*ast, ast.children_of(id@)[i as int]@));
                }
            }
            last = Some(t);
            i = i + 1;
        }
        match last {
            Some(t) => {
                let ghost (tp, sp, ep) = (*self, *symbols, *errors);
                self.assign(id, t);
                proof {
                    lemma_steps_trans(t0, tp, *self, s0, sp, *symbols, e0, ep, *errors);
                    lemma_keep(t0, tp, *self, *ast, id@);
                    if known(t0) && stable(*ast, id@) {
                        assert(ast.children_of(id@)[n - 1]@ != id@);
                    }
                }
                Some(t)
            },
            None => {
                let ghost (tp, sp, ep) = (*self, *symbols, *errors);
                let r = self.assign_new(id, Type::NoneType);
                proof {
                    lemma_steps_trans(t0, tp, *self, s0, sp, *symbols, e0, ep, *errors); lemma_keep(t0, tp, *self, *ast, id@);
                    if goal {
                        lemma_fresh_post(t0, *self, s0, e0, *ast, id@, (fuel - 1) as nat, r->0);
                    }
                }
                r
            },
        }
    }

    /// Types a node of kind `Tuple`, as `compute_compound` describes.
    #[verifier::spinoff_prover]
    fn compute_tuple(&mut self, ast: &Ast, symbols: &mut Symbols, errors: &mut Errors, id: AstId, kind: AstKind, fuel: u64) -> (r: Option<TypeId>)
        requires
            kind == AstKind::Tuple,
            kind == ast.kind_of(id@),
            !typed(*old(self), id@),
            old(self).wf(),
            old(self).closed(),
            old(symbols).wf(),
            old(errors).wf(),
            fuel > 0,
        ensures
            known(*old(self)) && stable(*ast, id@) ==> (r matches Some(t) ==> node_typing(*final(self), *ast, id@, t)),
            kept(*old(self), *final(self), *ast),
            !rhs_operand(*ast, id@) ==> (r matches Some(t) ==> final(self).assignment_of(id@) == Some(t)),
            computed(*old(self), *old(symbols), *old(errors), *final(self), *final(symbols), *final(errors), id, r),
            (kind == AstKind::Block || kind == AstKind::Tuple || kind == AstKind::Struct) && ast.children_of(id@).len()
                == 0 && room_for(*old(self), id) ==> (r matches Some(t) && final(self).assignment_of(id@) == Some(t)
                && final(self).type_of(t) == empty_type(kind)),
            (kind == AstKind::VField || kind == AstKind::TField || kind == AstKind::Bind || kind == AstKind::BindMut
                || kind == AstKind::Arg) && child_typed(*old(self), *ast, id, 0) ==> r == Some(
                child_tid(*old(self), *ast, id, 0),
            ) && final(self).assignment_of(id@) == r,
            kind == ast.kind_of(id@) && expr_compound(kind) && old(self).assignment_of(id@) is None && expr_pre(
                *old(self),
                *ast,
                id@,
                (fuel - 1) as nat,
                (fuel - 1) as nat,
            ) ==> expr_post(
                *old(self),
                *old(symbols),
                *old(errors),
                *final(self),
                *final(symbols),
                *final(errors),
                *ast,
                id@,
                (fuel - 1) as nat,
                (fuel - 1) as nat,
                r,
            ),
        decreases fuel, 1nat,
    {
        let ghost t0 = *self;
        let ghost s0 = *symbols;
        let ghost e0 = *errors;
        proof {
            lemma_steps_refl(t0, s0, e0);
        }
        let ghost goal = kind == ast.kind_of(id@) && expr_compound(kind) && t0.assignment_of(id@) is None && expr_pre(
            t0,
            *ast,
            id@,
            (fuel - 1) as nat,
            (fuel - 1) as nat,
        );
        proof {
            if goal {
                lemma_assigned(t0, t0, ast.count(), id@);
                assert(!(kind is Infix) ==> ast.children_of(id@).len() == 0);
            }
        }
        let ghost (tp, sp, ep) = (*self, *symbols, *errors);
        let tid = match self.assign_new(id, Type::Tuple) {
            None => {
                proof { lemma_steps_trans(t0, tp, *self, s0, sp, *symbols, e0, ep, *errors); lemma_keep(t0, tp, *self, *ast, id@); }
                return None;
            },
            Some(t) => t,
        };
        proof { lemma_steps_trans(t0, tp, *self, s0, sp, *symbols, e0, ep, *errors); lemma_keep(t0, tp, *self, *ast, id@); }
        let ghost ta = *self;
        proof {
            if goal {
                lemma_fresh_post(t0, ta, s0, e0, *ast, id@, (fuel - 1) as nat, tid);
            }
        }
        let n = id.get(&ast.children).len();
        let mut i: usize = 0;
        while i < n
        invariant
            t0.closed(),
            !typed(t0, id@),
            kept(t0, *self, *ast),
            kind == AstKind::Tuple,
            !rhs_operand(*ast, id@) ==> self.assignment_of(id@) == Some(tid),
            self.type_of(tid) != Type::Unknown,
            tid@ < self.count(),
            goal ==> n == 0,
            steps(t0, s0, e0, *self, *symbols, *errors),
            t0 == *old(self),
            s0 == *old(symbols),
            e0 == *old(errors),
            fuel > 0,
            i <= n,
            n == ast.children_of(id@).len(),
            tid@ < self.count(),
            self.assignment_of(id@) is Some,
            known(t0) && stable(*ast, id@) ==> self.children_of(tid).len() >= i && forall|k: int|
                0 <= k < i ==> self.children_of(tid).contains(#[trigger] cti(*self, *ast, id@, k)),
            known(t0) && stable(*ast, id@) ==> forall|k: int|
                0 <= k < i ==> (#[trigger] self.assignment_of(ast.children_of(id@)[k]@)) is Some,
            i == 0 ==> *self == ta && *symbols == s0 && *errors == e0,
            ta.assignment_of(id@) == Some(tid),
            ta.type_of(tid) == Type::Tuple,
            goal ==> expr_post(t0, s0, e0, ta, s0, e0, *ast, id@, (fuel - 1) as nat, (fuel - 1) as nat, Some(tid)),
        decreases n - i,
        {
            let ghost (tp, sp, ep) = (*self, *symbols, *errors);
            let c = match self.compute_child(ast, symbols, errors, id, i, fuel) {
                None => {
                    proof { lemma_steps_trans(t0, tp, *self, s0, sp, *symbols, e0, ep, *errors); lemma_keep(t0, tp, *self, *ast, id@); }
                    return None;
                },
                Some((_, t)) => t,
            };
            proof {
                lemma_steps_trans(t0, tp, *self, s0, sp, *symbols, e0, ep, *errors);
                lemma_keep(t0, tp, *self, *ast, id@);
                assert(self.type_of(tid) != Type::Unknown);
                if known(t0) && stable(*ast, id@) {
                    lemma_known_step(t0, tp);
                    assert forall|k: int| 0 <= k < i implies self.children_of(tid).contains(#[trigger] cti(*self, *ast, id@, k)) by {
                        let ck = ast.children_of(id@)[k]@;
                        assert(!rhs_operand(*ast, ck));
                        assert(tp.assignment_of(ck) is Some);
                        assert(tp.assignment_of(ck)->0@ < tp.count());
                        assert(typed(tp, ck));
                        assert(cti(*self, *ast, id@, k) == cti(tp, *ast, id@, k));
                        let j = choose|j: int| 0 <= j < tp.children_of(tid).len() && tp.children_of(tid)[j] == cti(tp, *ast, id@, k);
                        assert(tp.children_of(tid).is_prefix_of(self.children_of(tid)));
                        assert(self.children_of(tid)[j] == tp.children_of(tid)[j]);
                    }
                    assert(!rhs_operand(*ast, ast.children_of(id@)[i as int]@));
                    assert(tp.children_of(tid).is_prefix_of(self.children_of(tid)));
                    assert(self.children_of(tid).len() >= i);
                    assert forall|k: int| 0 <= k < i implies (#[trigger] self.assignment_of(ast.children_of(id@)[k]@)) is Some by {
                        assert(tp.assignment_of(ast.children_of(id@)[k]@) is Some);
                    }
                }
                if !rhs_operand(*ast, id@) {
                    assert(typed(tp, id@));
                    assert(self.assignment_of(id@) == Some(tid));
                }
            }
            let ghost (tp, sp, ep) = (*self, *symbols, *errors);
            self.push_child(tid, c);
            proof {
                lemma_steps_trans(t0, tp, *self, s0, sp, *symbols, e0, ep, *errors);
                lemma_keep(t0, tp, *self, *ast, id@);
                if known(t0) && stable(*ast, id@) {
                    assert forall|k: int| 0 <= k < i + 1 implies (#[trigger] self.assignment_of(ast.children_of(id@)[k]@)) is Some by {
                        if k < i {
                            assert(tp.assignment_of(ast.children_of(id@)[k]@) is Some);
                        }
                    }
                    assert forall|k: int| 0 <= k < i + 1 implies self.children_of(tid).contains(#[trigger] cti(*self, *ast, id@, k)) by {
                        assert(cti(*self, *ast, id@, k) == cti(tp, *ast, id@, k));
                        if k < i {
                            let j = choose|j: int| 0 <= j < tp.children_of(tid).len() && tp.children_of(tid)[j] == cti(tp, *ast, id@, k);
                            assert(self.children_of(tid)[j] == tp.children_of(tid)[j]);
                        } else {
                            assert(self.children_of(tid)[tp.children_of(tid).len() as int] == c);
                        }
                    }
                }
            }
            i = i + 1;
        }
        Some(tid)
    }

    /// Types a node of kind `Struct`, as `compute_compound` describes.
    #[verifier::spinoff_prover]
    fn compute_struct(&mut self, ast: &Ast, symbols: &mut Symbols, errors: &mut Errors, id: AstId, kind: AstKind, fuel: u64) -> (r: Option<TypeId>)
        requires
            kind == AstKind::Struct,
            kind == ast.kind_of(id@),
            !typed(*old(self), id@),
            old(self).wf(),
            old(self).closed(),
            old(symbols).wf(),
            old(errors).wf(),
            fuel > 0,
        ensures
            known(*old(self)) && stable(*ast, id@) ==> (r matches Some(t) ==> node_typing(*final(self), *ast, id@, t)),
            kept(*old(self), *final(self), *ast),
            !rhs_operand(*ast, id@) ==> (r matches Some(t) ==> final(self).assignment_of(id@) == Some(t)),
            computed(*old(self), *old(symbols), *old(errors), *final(self), *final(symbols), *final(errors), id, r),
            (kind == AstKind::Block || kind == AstKind::Tuple || kind == AstKind::Struct) && ast.children_of(id@).len()
                == 0 && room_for(*old(self), id) ==> (r matches Some(t) && final(self).assignment_of(id@) == Some(t)
                && final(self).type_of(t) == empty_type(kind)),
            (kind == AstKind::VField || kind == AstKind::TField || kind == AstKind::Bind || kind == AstKind::BindMut
                || kind == AstKind::Arg) && child_typed(*old(self), *ast, id, 0) ==> r == Some(
                child_tid(*old(self), *ast, id, 0),
            ) && final(self).assignment_of(id@) == r,
            kind == ast.kind_of(id@) && expr_compound(kind) && old(self).assignment_of(id@) is None && expr_pre(
                *old(self),
                *ast,
                id@,
                (fuel - 1) as nat,
                (fuel - 1) as nat,
            ) ==> expr_post(
                *old(self),
                *old(symbols),
                *old(errors),
                *final(self),
                *final(symbols),
                *final(errors),
                *ast,
                id@,
                (fuel - 1) as nat,
                (fuel - 1) as nat,
                r,
            ),
        decreases fuel, 1nat,
    {
        let ghost t0 = *self;
        let ghost s0 = *symbols;
        let ghost e0 = *errors;
        proof {
            lemma_steps_refl(t0, s0, e0);
        }
        let ghost goal = kind == ast.kind_of(id@) && expr_compound(kind) && t0.assignment_of(id@) is None && expr_pre(
            t0,
            *ast,
            id@,
            (fuel - 1) as nat,
            (fuel - 1) as nat,
        );
        proof {
            if goal {
                lemma_assigned(t0, t0, ast.count(), id@);
                assert(!(kind is Infix) ==> ast.children_of(id@).len() == 0);
            }
        }
        let ghost (tp, sp, ep) = (*self, *symbols, *errors);
        let tid = match self.assign_new(id, Type::Struct) {
            None => {
                proof { lemma_steps_trans(t0, tp, *self, s0, sp, *symbols, e0, ep, *errors); lemma_keep(t0, tp, *self, *ast, id@); }
                return None;
            },
            Some(t) => t,
        };
        proof { lemma_steps_trans(t0, tp, *self, s0, sp, *symbols, e0, ep, *errors); lemma_keep(t0, tp, *self, *ast, id@); }
        let ghost ta = *self;
        proof {
            if goal {
                lemma_fresh_post(t0, ta, s0, e0, *ast, id@, (fuel - 1) as nat, tid);
            }
        }
        let n = id.get(&ast.children).len();
        let mut i: usize = 0;
        while i < n
        invariant
            t0.closed(),
            !typed(t0, id@),
            kept(t0, *self, *ast),
            kind == AstKind::Struct,
            !rhs_operand(*ast, id@) ==> self.assignment_of(id@) == Some(tid),
            self.type_of(tid) != Type::Unknown,
            tid@ < self.count(),
            goal ==> n == 0,
            steps(t0, s0, e0, *self, *symbols, *errors),
            t0 == *old(self),
            s0 == *old(symbols),
            e0 == *old(errors),
            fuel > 0,
            i <= n,
            n == ast.children_of(id@).len(),
            tid@ < self.count(),
            self.assignment_of(id@) is Some,
            known(t0) && stable(*ast, id@) ==> self.children_of(tid).len() >= i && forall|k: int|
                0 <= k < i ==> self.children_of(tid).contains(#[trigger] cti(*self, *ast, id@, k)),
            known(t0) && stable(*ast, id@) ==> forall|k: int|
                0 <= k < i ==> (#[trigger] self.assignment_of(ast.children_of(id@)[k]@)) is Some,
            i == 0 ==> *self == ta && *symbols == s0 && *errors == e0,
            ta.assignment_of(id@) == Some(tid),
            ta.type_of(tid) == Type::Struct,
            goal ==> expr_post(t0, s0, e0, ta, s0, e0, *ast, id@, (fuel - 1) as nat, (fuel - 1) as nat, Some(tid)),
        decreases n - i,
        {
            let ghost (tp, sp, ep) = (*self, *symbols, *errors);
            let c = match self.compute_child(ast, symbols, errors, id, i, fuel) {
                None => {
                    proof { lemma_steps_trans(t0, tp, *self, s0, sp, *symbols, e0, ep, *errors); lemma_keep(t0, tp, *self, *ast, id@); }
                    return None;
                },
                Some((_, t)) => t,
            };
            proof {
                lemma_steps_trans(t0, tp, *self, s0, sp, *symbols, e0, ep, *errors);
                lemma_keep(t0, tp, *self, *ast, id@);
                assert(self.type_of(tid) != Type::Unknown);
                if known(t0) && stable(*ast, id@) {
                    lemma_known_step(t0, tp);
                    assert forall|k: int| 0 <= k < i implies self.children_of(tid).contains(#[trigger] cti(*self, *ast, id@, k)) by {
                        let ck = ast.children_of(id@)[k]@;
                        assert(!rhs_operand(*ast, ck));
                        assert(tp.assignment_of(ck) is Some);
                        assert(tp.assignment_of(ck)->0@ < tp.count());
                        assert(typed(tp, ck));
                        assert(cti(*self, *ast, id@, k) == cti(tp, *ast, id@, k));
                        let j = choose|j: int| 0 <= j < tp.children_of(tid).len() && tp.children_of(tid)[j] == cti(tp, *ast, id@, k);
                        assert(tp.children_of(tid).is_prefix_of(self.children_of(tid)));
                        assert(self.children_of(tid)[j] == tp.children_of(tid)[j]);
                    }
                    assert(!rhs_operand(*ast, ast.children_of(id@)[i as int]@));
                    assert(tp.children_of(tid).is_prefix_of(self.children_of(tid)));
                    assert(self.children_of(tid).len() >= i);
                    assert forall|k: int| 0 <= k < i implies (#[trigger] self.assignment_of(ast.children_of(id@)[k]@)) is Some by {
                        assert(tp.assignment_of(ast.children_of(id@)[k]@) is Some);
                    }
                }
                if !rhs_operand(*ast, id@) {
                    assert(typed(tp, id@));
                    assert(self.assignment_of(id@) == Some(tid));
                }
            }
            let ghost (tp, sp, ep) = (*self, *symbols, *errors);
            self.push_child(tid, c);
            proof {
                lemma_steps_trans(t0, tp, *self, s0, sp, *symbols, e0, ep, *errors);
                lemma_keep(t0, tp, *self, *ast, id@);
                if known(t0) && stable(*ast, id@) {
                    assert forall|k: int| 0 <= k < i + 1 implies (#[trigger] self.assignment_of(ast.children_of(id@)[k]@)) is Some by {
                        if k < i {
                            assert(tp.assignment_of(ast.children_of(id@)[k]@) is Some);
                        }
                    }
                    assert forall|k: int| 0 <= k < i + 1 implies self.children_of(tid).contains(#[trigger] cti(*self, *ast, id@, k)) by {
                        assert(cti(*self, *ast, id@, k) == cti(tp, *ast, id@, k));
                        if k < i {
                            let j = choose|j: int| 0 <= j < tp.children_of(tid).len() && tp.children_of(tid)[j] == cti(tp, *ast, id@, k);
                            assert(self.children_of(tid)[j] == tp.children_of(tid)[j]);
                        } else {
                            assert(self.children_of(tid)[tp.children_of(tid).len() as int] == c);
                        }
                    }
                }
            }
            i = i + 1;
        }
        Some(tid)
    }

    /// Types a node of kind `Array`, as `compute_compound` describes.
    #[verifier::spinoff_prover]
    fn compute_array(&mut self, ast: &Ast, symbols: &mut Symbols, errors: &mut Errors, id: AstId, kind: AstKind, fuel: u64) -> (r: Option<TypeId>)
        requires
            kind == AstKind::Array,
            kind == ast.kind_of(id@),
            !typed(*old(self), id@),
            old(self).wf(),
            old(self).closed(),
            old(symbols).wf(),
            old(errors).wf(),
            fuel > 0,
        ensures
            known(*old(self)) && stable(*ast, id@) ==> (r matches Some(t) ==> node_typing(*final(self), *ast, id@, t)),
            kept(*old(self), *final(self), *ast),
            !rhs_operand(*ast, id@) ==> (r matches Some(t) ==> final(self).assignment_of(id@) == Some(t)),
            computed(*old(self), *old(symbols), *old(errors), *final(self), *final(symbols), *final(errors), id, r),
            (kind == AstKind::Block || kind == AstKind::Tuple || kind == AstKind::Struct) && ast.children_of(id@).len()
                == 0 && room_for(*old(self), id) ==> (r matches Some(t) && final(self).assignment_of(id@) == Some(t)
                && final(self).type_of(t) == empty_type(kind)),
            (kind == AstKind::VField || kind == AstKind::TField || kind == AstKind::Bind || kind == AstKind::BindMut
                || kind == AstKind::Arg) && child_typed(*old(self), *ast, id, 0) ==> r == Some(
                child_tid(*old(self), *ast, id, 0),
            ) && final(self).assignment_of(id@) == r,
            kind == ast.kind_of(id@) && expr_compound(kind) && old(self).assignment_of(id@) is None && expr_pre(
                *old(self),
                *ast,
                id@,
                (fuel - 1) as nat,
                (fuel - 1) as nat,
            ) ==> expr_post(
                *old(self),
                *old(symbols),
                *old(errors),
                *final(self),
                *final(symbols),
                *final(errors),
                *ast,
                id@,
                (fuel - 1) as nat,
                (fuel - 1) as nat,
                r,
            ),
        decreases fuel, 1nat,
    {
        let ghost t0 = *self;
        let ghost s0 = *symbols;
        let ghost e0 = *errors;
        proof {
            lemma_steps_refl(t0, s0, e0);
        }
        let ghost goal = kind == ast.kind_of(id@) && expr_compound(kind) && t0.assignment_of(id@) is None && expr_pre(
            t0,
            *ast,
            id@,
            (fuel - 1) as nat,
            (fuel - 1) as nat,
        );
        proof {
            if goal {
                lemma_assigned(t0, t0, ast.count(), id@);
                assert(!(kind is Infix) ==> ast.children_of(id@).len() == 0);
            }
        }
        let n = id.get(&ast.children).len();
        let ghost (tp, sp, ep) = (*self, *symbols, *errors);
        let tid = match self.assign_new(id, Type::Array(n)) {
            None => {
                proof { lemma_steps_trans(t0, tp, *self, s0, sp, *symbols, e0, ep, *errors); lemma_keep(t0, tp, *self, *ast, id@); }
                return None;
            },
            Some(t) => t,
        };
        proof { lemma_steps_trans(t0, tp, *self, s0, sp, *symbols, e0, ep, *errors); lemma_keep(t0, tp, *self, *ast, id@); }
        let mut acc: Option<TypeId> = None;
        let mut i: usize = 0;
        while i < n
        invariant
            t0.closed(),
            !typed(t0, id@),
            kept(t0, *self, *ast),
            kind == AstKind::Array,
            !rhs_operand(*ast, id@) ==> self.assignment_of(id@) == Some(tid),
            self.type_of(tid) != Type::Unknown,
            tid@ < self.count(),
            steps(t0, s0, e0, *self, *symbols, *errors),
            t0 == *old(self),
            s0 == *old(symbols),
            e0 == *old(errors),
            fuel > 0,
            i <= n,
            n == ast.children_of(id@).len(),
            tid@ < self.count(),
            self.assignment_of(id@) is Some,
            acc matches Some(t) ==> t@ < self.count(),
        decreases n - i,
        {
            let ghost (tp, sp, ep) = (*self, *symbols, *errors);
            let c = match self.compute_child(ast, symbols, errors, id, i, fuel) {
                None => {
                    proof { lemma_steps_trans(t0, tp, *self, s0, sp, *symbols, e0, ep, *errors); lemma_keep(t0, tp, *self, *ast, id@); }
                    return None;
                },
                Some((_, t)) => t,
            };
            proof { lemma_steps_trans(t0, tp, *self, s0, sp, *symbols, e0, ep, *errors); lemma_keep(t0, tp, *self, *ast, id@); }
            match acc {
                Some(o) => {
                    let ghost (tp, sp, ep) = (*self, *symbols, *errors);
                    let u = match self.union(o, c, errors) {
                        None => {
                            proof { lemma_steps_trans(t0, tp, *self, s0, sp, *symbols, e0, ep, *errors); lemma_keep(t0, tp, *self, *ast, id@); }
                            return None;
                        },
                        Some(t) => t,
                    };
                    proof { lemma_steps_trans(t0, tp, *self, s0, sp, *symbols, e0, ep, *errors); lemma_keep(t0, tp, *self, *ast, id@); }
                    acc = Some(u);
                },
                None => {
                    acc = Some(c);
                },
            }
            i = i + 1;
        }
        match acc {
            Some(o) => {
                let ghost (tp, sp, ep) = (*self, *symbols, *errors);
                self.push_child(tid, o);
                proof { lemma_steps_trans(t0, tp, *self, s0, sp, *symbols, e0, ep, *errors); lemma_keep(t0, tp, *self, *ast, id@); }
            },
            None => {
                let ghost (tp, sp, ep) = (*self, *symbols, *errors);
                let c = match self.new_type_of(Type::Weak) {
                    None => {
                        proof { lemma_steps_trans(t0, tp, *self, s0, sp, *symbols, e0, ep, *errors); lemma_keep(t0, tp, *self, *ast, id@); }
                        return None;
                    },
                    Some(t) => t,
                };
                proof { lemma_steps_trans(t0, tp, *self, s0, sp, *symbols, e0, ep, *errors); lemma_keep(t0, tp, *self, *ast, id@); }
                let ghost (tp, sp, ep) = (*self, *symbols, *errors);
                self.push_child(tid, c);
                proof { lemma_steps_trans(t0, tp, *self, s0, sp, *symbols, e0, ep, *errors); lemma_keep(t0, tp, *self, *ast, id@); }
            },
        }
        Some(tid)
    }

    /// Types a function: a `Func` of its parameters' and its body's types.
    #[verifier::spinoff_prover]
    fn compute_func(&mut self, ast: &Ast, symbols: &mut Symbols, errors: &mut Errors, id: AstId, fuel: u64) -> (r: Option<TypeId>)
        requires
            ast.kind_of(id@) == AstKind::Func,
            !typed(*old(self), id@),
            old(self).wf(),
            old(self).closed(),
            old(symbols).wf(),
            old(errors).wf(),
            fuel > 0,
        ensures
            known(*old(self)) && stable(*ast, id@) ==> (r matches Some(t) ==> node_typing(*final(self), *ast, id@, t)),
            kept(*old(self), *final(self), *ast),
            !rhs_operand(*ast, id@) ==> (r matches Some(t) ==> final(self).assignment_of(id@) == Some(t)),
            computed(*old(self), *old(symbols), *old(errors), *final(self), *final(symbols), *final(errors), id, r),
        decreases fuel, 1nat,
    {
        let ghost t0 = *self;
        let ghost s0 = *symbols;
        let ghost e0 = *errors;
        proof {
            lemma_steps_refl(t0, s0, e0);
        }
        proof {
            if known(t0) {
                lemma_known_untyped(t0, id@);
            }
        }
        let ghost (tp, sp, ep) = (*self, *symbols, *errors);
        let tid = match self.assign_new(id, Type::Weak) {
            None => {
                proof { lemma_steps_trans(t0, tp, *self, s0, sp, *symbols, e0, ep, *errors); lemma_keep(t0, tp, *self, *ast, id@); }
                return None;
            },
            Some(t) => t,
        };
        proof { lemma_steps_trans(t0, tp, *self, s0, sp, *symbols, e0, ep, *errors); lemma_keep(t0, tp, *self, *ast, id@); }
        let ghost f_args = *self;
        proof {
            if known(t0) {
                assert(t0.children_of(tid).len() == 0) by {
                    if t0.children_of(tid).len() > 0 {
                        assert(tid@ < t0.count());
                    }
                }
                assert(f_args.children_of(tid) == t0.children_of(tid));
            }
        }
        let ghost (tp, sp, ep) = (*self, *symbols, *errors);
        let args = match self.compute_child(ast, symbols, errors, id, 0, fuel) {
            None => {
                proof { lemma_steps_trans(t0, tp, *self, s0, sp, *symbols, e0, ep, *errors); lemma_keep(t0, tp, *self, *ast, id@); }
                return None;
            },
            Some((_, t)) => t,
        };
        proof {
            lemma_steps_trans(t0, tp, *self, s0, sp, *symbols, e0, ep, *errors);
            lemma_keep(t0, tp, *self, *ast, id@);
            assert(self.type_of(tid) != Type::Unknown);
            if !rhs_operand(*ast, id@) {
                assert(typed(tp, id@));
                assert(self.assignment_of(id@) == Some(tid));
            }
        }
        let ghost (tp, sp, ep) = (*self, *symbols, *errors);
        self.push_child(tid, args);
        proof { lemma_steps_trans(t0, tp, *self, s0, sp, *symbols, e0, ep, *errors); lemma_keep(t0, tp, *self, *ast, id@); }
        let ghost f_mid = *self;
        let ghost (tp, sp, ep) = (*self, *symbols, *errors);
        let body = match self.compute_child(ast, symbols, errors, id, 1, fuel) {
            None => {
                proof { lemma_steps_trans(t0, tp, *self, s0, sp, *symbols, e0, ep, *errors); lemma_keep(t0, tp, *self, *ast, id@); }
                return None;
            },
            Some((_, t)) => t,
        };
        proof {
            lemma_steps_trans(t0, tp, *self, s0, sp, *symbols, e0, ep, *errors);
            lemma_keep(t0, tp, *self, *ast, id@);
            assert(self.type_of(tid) != Type::Unknown);
            if !rhs_operand(*ast, id@) {
                assert(typed(tp, id@));
                assert(self.assignment_of(id@) == Some(tid));
            }
        }
        let ghost (tp, sp, ep) = (*self, *symbols, *errors);
        let ghost f_body = *self;
        self.push_child(tid, body);
        proof { lemma_steps_trans(t0, tp, *self, s0, sp, *symbols, e0, ep, *errors); lemma_keep(t0, tp, *self, *ast, id@); }
        let ghost (tp, sp, ep) = (*self, *symbols, *errors);
        self.set_type(tid, Type::Func);
        proof { lemma_steps_trans(t0, tp, *self, s0, sp, *symbols, e0, ep, *errors); lemma_keep(t0, tp, *self, *ast, id@); }
        proof {
            if known(t0) && stable(*ast, id@) {
                let k = f_mid.children_of(tid).len() - 1;
                assert(f_mid.children_of(tid)[k] == args);
                assert(f_mid.children_of(tid).is_prefix_of(f_body.children_of(tid)));
                assert(f_body.children_of(tid)[k] == args);
                assert(self.children_of(tid) == f_body.children_of(tid).push(body));
                assert(self.children_of(tid)[k] == args);
                assert(self.children_of(tid).contains(args));
                assert(ast.children_of(id@)[0]@ != id@ && !rhs_operand(*ast, ast.children_of(id@)[0]@));
                assert(ast.children_of(id@)[1]@ != id@ && !rhs_operand(*ast, ast.children_of(id@)[1]@));
                assert(f_mid.assignment_of(ast.children_of(id@)[0]@) == Some(args));
                lemma_known_step(t0, f_mid);
                assert(typed(f_mid, ast.children_of(id@)[0]@));
                assert(self.assignment_of(ast.children_of(id@)[0]@) == Some(args));
                assert(self.assignment_of(ast.children_of(id@)[1]@) == Some(body));
            }
        }
        Some(tid)
    }

    /// Checks a call: the callee must be a function (or a struct, whose
    /// fields are its parameters), with as many arguments as parameters, each
    /// of a subtype of its parameter's type and, for a struct, named after
    /// its field; the call has the function's result type.
    fn compute_call(&mut self, ast: &Ast, symbols: &mut Symbols, errors: &mut Errors, id: AstId, fuel: u64) -> (r: Option<TypeId>)
        requires
            !typed(*old(self), id@),
            old(self).wf(),
            old(self).closed(),
            old(symbols).wf(),
            old(errors).wf(),
            fuel > 0,
        ensures
            known(*old(self)) && !rhs_operand(*ast, operand(*ast, id@, 0)) && operand(*ast, id@, 0) != id@ ==> (
            r matches Some(t) ==> call_typed(
                *final(self),
                final(self).assignment_of(operand(*ast, id@, 0))->0,
                t,
            )),
            ast.children_of(id@).len() == 0 ==> r is None,
            kept(*old(self), *final(self), *ast),
            !rhs_operand(*ast, id@) ==> (r matches Some(t) ==> final(self).assignment_of(id@) == Some(t)),
            computed(*old(self), *old(symbols), *old(errors), *final(self), *final(symbols), *final(errors), id, r),
            child_typed(*old(self), *ast, id, 0) && child_typed(*old(self), *ast, id, 1) && room_for(*old(self), id)
                && child_type(*old(self), *ast, id, 0) != Type::Struct && child_type(*old(self), *ast, id, 0)
                != Type::Func ==> (r matches Some(t) && final(self).assignment_of(id@) == Some(t) && final(self).type_of(t)
                == Type::Weak),
        decreases fuel, 1nat,
    {
        let ghost t0 = *self;
        let ghost s0 = *symbols;
        let ghost e0 = *errors;
        proof {
            lemma_steps_refl(t0, s0, e0);
        }
        let ghost (tp, sp, ep) = (*self, *symbols, *errors);
        let (func, func_ty) = match self.compute_child(ast, symbols, errors, id, 0, fuel) {
            None => {
                proof { lemma_steps_trans(t0, tp, *self, s0, sp, *symbols, e0, ep, *errors); lemma_keep(t0, tp, *self, *ast, id@); }
                return None;
            },
            Some((c, t)) => (c, t),
        };
        proof { lemma_steps_trans(t0, tp, *self, s0, sp, *symbols, e0, ep, *errors); lemma_keep(t0, tp, *self, *ast, id@); }
        let ghost (tp, sp, ep) = (*self, *symbols, *errors);
        let (args, args_ty) = match self.compute_child(ast, symbols, errors, id, 1, fuel) {
            None => {
                proof { lemma_steps_trans(t0, tp, *self, s0, sp, *symbols, e0, ep, *errors); lemma_keep(t0, tp, *self, *ast, id@); }
                return None;
            },
            Some((c, t)) => (c, t),
        };
        proof { lemma_steps_trans(t0, tp, *self, s0, sp, *symbols, e0, ep, *errors); lemma_keep(t0, tp, *self, *ast, id@); }
        let func_kind = *func_ty.get(&self.types);
        let (params_ty, result_ty) = match func_kind {
            Type::Struct => (func_ty, func_ty),
            Type::Func => match (self.child(func_ty, 0), self.child(func_ty, 1)) {
                (Some(p), Some(q)) => (p, q),
                _ => return None,
            },
            Type::Weak => {
                let ghost (tp, sp, ep) = (*self, *symbols, *errors);
                let r = self.assign_new(id, Type::Weak);
                proof { lemma_steps_trans(t0, tp, *self, s0, sp, *symbols, e0, ep, *errors); lemma_keep(t0, tp, *self, *ast, id@); }
                return r;
            },
            _ => {
                let ghost (tp, sp, ep) = (*self, *symbols, *errors);
                log_at(errors, ErrorKind::Type, "Cannot call non-function type".to_owned(), *id.get(&ast.locations));
                proof { lemma_steps_trans(t0, tp, *self, s0, sp, *symbols, e0, ep, *errors); lemma_keep(t0, tp, *self, *ast, id@); }
                let ghost (tp, sp, ep) = (*self, *symbols, *errors);
                let r = self.assign_new(id, Type::Weak);
                proof { lemma_steps_trans(t0, tp, *self, s0, sp, *symbols, e0, ep, *errors); lemma_keep(t0, tp, *self, *ast, id@); }
                return r;
            },
        };
        let n_args = args_ty.get(&self.type_children).len();
        let n_params = params_ty.get(&self.type_children).len();
        if n_args < n_params {
            let mut msg = "Not enough arguments: expected ".to_owned();
            push_decimal(&mut msg, n_params as u64);
            msg.append(" arguments but found ");
            push_decimal(&mut msg, n_args as u64);
            let ghost (tp, sp, ep) = (*self, *symbols, *errors);
            log_at(errors, ErrorKind::Type, msg, *args.get(&ast.locations));
            proof { lemma_steps_trans(t0, tp, *self, s0, sp, *symbols, e0, ep, *errors); lemma_keep(t0, tp, *self, *ast, id@); }
        } else if n_args > n_params {
            let mut msg = "Too many arguments: expected ".to_owned();
            push_decimal(&mut msg, n_params as u64);
            msg.append(" arguments but found ");
            push_decimal(&mut msg, n_args as u64);
            let ghost (tp, sp, ep) = (*self, *symbols, *errors);
            log_at(errors, ErrorKind::Type, msg, *args.get(&ast.locations));
            proof { lemma_steps_trans(t0, tp, *self, s0, sp, *symbols, e0, ep, *errors); lemma_keep(t0, tp, *self, *ast, id@); }
        } else {
            let mut i: usize = 0;
            while i < n_args
                invariant
                    t0.closed(),
                    !typed(t0, id@),
                    kept(t0, *self, *ast),
                    steps(t0, s0, e0, *self, *symbols, *errors),
                    t0 == *old(self),
                    s0 == *old(symbols),
                    e0 == *old(errors),
                    fuel > 0,
                    i <= n_args,
                    n_args == self.children_of(args_ty).len(),
                    result_ty@ < self.count(),
                    child_typed(t0, *ast, id, 0) && child_typed(t0, *ast, id, 1) ==> (child_type(t0, *ast, id, 0)
                        == Type::Struct || child_type(t0, *ast, id, 0) == Type::Func),
                    self.assignment_of(id@) is Some || true,
                decreases n_args - i,
            {
                let arg_id = match ast_child(ast, args, i) {
                    None => return None,
                    Some(a) => a,
                };
                let arg_ty = match self.child(args_ty, i) {
                    None => return None,
                    Some(t) => t,
                };
                let param_ty = match self.child(params_ty, i) {
                    None => return None,
                    Some(t) => t,
                };
                let sub = match self.subtype(arg_ty, param_ty) {
                    None => return None,
                    Some(b) => b,
                };
                if !sub {
                    let mut msg = "Argument type mismatch: expected ".to_owned();
                    msg.append(self.string_of_type(param_ty, false, ast).as_str());
                    msg.append(" but found ");
                    msg.append(self.string_of_type(arg_ty, false, ast).as_str());
                    let ghost (tp, sp, ep) = (*self, *symbols, *errors);
                    log_at(errors, ErrorKind::Type, msg, *arg_id.get(&ast.locations));
                    proof { lemma_steps_trans(t0, tp, *self, s0, sp, *symbols, e0, ep, *errors); lemma_keep(t0, tp, *self, *ast, id@); }
                }
                if *arg_id.get(&ast.kinds) == AstKind::Arg && *func_ty.get(&self.types) == Type::Struct {
                    match *func.get(&symbols.definitions) {
                        None => {
                            let ghost (tp, sp, ep) = (*self, *symbols, *errors);
                            log_at(errors, ErrorKind::Resolve, "Struct missing definition".to_owned(), *func.get(&ast.locations));
                            proof { lemma_steps_trans(t0, tp, *self, s0, sp, *symbols, e0, ep, *errors); lemma_keep(t0, tp, *self, *ast, id@); }
                        },
                        Some(struct_def) => {
                            let struct_id = match ast_child(ast, struct_def, 0) {
                                None => return None,
                                Some(s) => s,
                            };
                            let field_id = match ast_child(ast, struct_id, i) {
                                None => return None,
                                Some(f) => f,
                            };
                            if *arg_id.get(&ast.idents) != *field_id.get(&ast.idents) {
                                let mut msg = "Argument name mismatch: should be \"".to_owned();
                                msg.append(field_id.get(&ast.idents).as_str());
                                msg.append("\" but instead found \"");
                                msg.append(arg_id.get(&ast.idents).as_str());
                                msg.append("\"");
                                let ghost (tp, sp, ep) = (*self, *symbols, *errors);
                                log_at(errors, ErrorKind::Type, msg, *arg_id.get(&ast.locations));
                                proof { lemma_steps_trans(t0, tp, *self, s0, sp, *symbols, e0, ep, *errors); lemma_keep(t0, tp, *self, *ast, id@); }
                            }
                            let ghost (tp, sp, ep) = (*self, *symbols, *errors);
                            symbols.set_definition(arg_id, Some(field_id));
                            proof { lemma_steps_trans(t0, tp, *self, s0, sp, *symbols, e0, ep, *errors); lemma_keep(t0, tp, *self, *ast, id@); }
                        },
                    }
                }
                i = i + 1;
            }
        }
        let ghost (tp, sp, ep) = (*self, *symbols, *errors);
        self.assign(id, result_ty);
        proof { lemma_steps_trans(t0, tp, *self, s0, sp, *symbols, e0, ep, *errors); lemma_keep(t0, tp, *self, *ast, id@); }
        Some(result_ty)
    }

    /// Checks a projection: a tuple by the index of a component, a struct by
    /// the name of a field (which the field name then refers to); the
    /// projection has the component's or field's type.
    fn compute_proj(&mut self, ast: &Ast, symbols: &mut Symbols, errors: &mut Errors, id: AstId, fuel: u64) -> (r: Option<TypeId>)
        requires
            !typed(*old(self), id@),
            old(self).wf(),
            old(self).closed(),
            old(symbols).wf(),
            old(errors).wf(),
            fuel > 0,
        ensures
            kept(*old(self), *final(self), *ast),
            !rhs_operand(*ast, id@) ==> (r matches Some(t) ==> final(self).assignment_of(id@) == Some(t)),
            computed(*old(self), *old(symbols), *old(errors), *final(self), *final(symbols), *final(errors), id, r),
            child_typed(*old(self), *ast, id, 0) && ast.children_of(id@).len() >= 2 && room_for(*old(self), id)
                && proj_refused(child_type(*old(self), *ast, id, 0), ast.kind_of(ast.children_of(id@)[1]@)) ==> (r matches Some(
                t,
            ) && final(self).assignment_of(id@) == Some(t) && final(self).type_of(t) == Type::Weak),
        decreases fuel, 1nat,
    {
        let ghost t0 = *self;
        let ghost s0 = *symbols;
        let ghost e0 = *errors;
        proof {
            lemma_steps_refl(t0, s0, e0);
        }
        let ghost (tp, sp, ep) = (*self, *symbols, *errors);
        let (base, base_ty) = match self.compute_child(ast, symbols, errors, id, 0, fuel) {
            None => {
                proof { lemma_steps_trans(t0, tp, *self, s0, sp, *symbols, e0, ep, *errors); lemma_keep(t0, tp, *self, *ast, id@); }
                return None;
            },
            Some((c, t)) => (c, t),
        };
        proof { lemma_steps_trans(t0, tp, *self, s0, sp, *symbols, e0, ep, *errors); lemma_keep(t0, tp, *self, *ast, id@); }
        let field = match ast_child(ast, id, 1) {
            None => return None,
            Some(f) => f,
        };
        match *base_ty.get(&self.types) {
            Type::Tuple => {
                if *field.get(&ast.kinds) != AstKind::Integer {
                    let ghost (tp, sp, ep) = (*self, *symbols, *errors);
                    log_at(errors, ErrorKind::Type, "Tuple field name must be an integer".to_owned(), *id.get(&ast.locations));
                    proof { lemma_steps_trans(t0, tp, *self, s0, sp, *symbols, e0, ep, *errors); lemma_keep(t0, tp, *self, *ast, id@); }
                    let ghost (tp, sp, ep) = (*self, *symbols, *errors);
                    let r = self.assign_new(id, Type::Weak);
                    proof { lemma_steps_trans(t0, tp, *self, s0, sp, *symbols, e0, ep, *errors); lemma_keep(t0, tp, *self, *ast, id@); }
                    return r;
                }
                let index: usize = match field.get(&ast.literals) {
                    Some(Literal::Integer(v)) => *v as usize,
                    _ => return None,
                };
                let num_children = base_ty.get(&self.type_children).len();
                if num_children <= index {
                    let mut msg = "Tuple index (".to_owned();
                    push_decimal(&mut msg, index as u64);
                    msg.append(") is out of bounds for length (");
                    push_decimal(&mut msg, num_children as u64);
                    msg.append(")");
                    let ghost (tp, sp, ep) = (*self, *symbols, *errors);
                    log_at(errors, ErrorKind::Type, msg, *field.get(&ast.locations));
                    proof { lemma_steps_trans(t0, tp, *self, s0, sp, *symbols, e0, ep, *errors); lemma_keep(t0, tp, *self, *ast, id@); }
                    let ghost (tp, sp, ep) = (*self, *symbols, *errors);
                    let r = self.assign_new(id, Type::Weak);
                    proof { lemma_steps_trans(t0, tp, *self, s0, sp, *symbols, e0, ep, *errors); lemma_keep(t0, tp, *self, *ast, id@); }
                    return r;
                }
                let t = match self.child(base_ty, index) {
                    None => return None,
                    Some(t) => t,
                };
                let ghost (tp, sp, ep) = (*self, *symbols, *errors);
                self.assign(id, t);
                proof { lemma_steps_trans(t0, tp, *self, s0, sp, *symbols, e0, ep, *errors); lemma_keep(t0, tp, *self, *ast, id@); }
                Some(t)
            },
            Type::Struct => {
                let field_kind = *field.get(&ast.kinds);
                if field_kind != AstKind::VIdent && field_kind != AstKind::TIdent {
                    let ghost (tp, sp, ep) = (*self, *symbols, *errors);
                    log_at(errors, ErrorKind::Type, "Struct field name must be an identifier".to_owned(), *id.get(&ast.locations));
                    proof { lemma_steps_trans(t0, tp, *self, s0, sp, *symbols, e0, ep, *errors); lemma_keep(t0, tp, *self, *ast, id@); }
                    let ghost (tp, sp, ep) = (*self, *symbols, *errors);
                    let r = self.assign_new(id, Type::Weak);
                    proof { lemma_steps_trans(t0, tp, *self, s0, sp, *symbols, e0, ep, *errors); lemma_keep(t0, tp, *self, *ast, id@); }
                    return r;
                }
                let def = match *base_ty.get(&self.type_definitions) {
                    None => return None,
                    Some(d) => d,
                };
                let struct_id = match ast_child(ast, def, 0) {
                    None => return None,
                    Some(s) => s,
                };
                let n = struct_id.get(&ast.children).len();
                let mut j: usize = 0;
                while j < n
                    invariant
                        t0.closed(),
                        !typed(t0, id@),
                        kept(t0, *self, *ast),
                        steps(t0, s0, e0, *self, *symbols, *errors),
                    t0 == *old(self),
                    s0 == *old(symbols),
                    e0 == *old(errors),
                        j <= n,
                        n == ast.children_of(struct_id@).len(),
                        child_typed(t0, *ast, id, 0) && ast.children_of(id@).len() >= 2 ==> !proj_refused(
                            child_type(t0, *ast, id, 0),
                            ast.kind_of(ast.children_of(id@)[1]@),
                        ),
                    decreases n - j,
                {
                    let field_id = struct_id.get(&ast.children).get(j);
                    if *field_id.get(&ast.idents) == *field.get(&ast.idents) {
                        let field_def_tid = match *field_id.get(&self.type_assignments) {
                            None => return None,
                            Some(t) => t,
                        };
                        proof {
                            assert(self.assignment_of(field_id@) is Some);
                        }
                        let ghost (tp, sp, ep) = (*self, *symbols, *errors);
                        symbols.set_definition(field, Some(field_id));
                        proof { lemma_steps_trans(t0, tp, *self, s0, sp, *symbols, e0, ep, *errors); lemma_keep(t0, tp, *self, *ast, id@); }
                        let ghost (tp, sp, ep) = (*self, *symbols, *errors);
                        self.assign(id, field_def_tid);
                        proof { lemma_steps_trans(t0, tp, *self, s0, sp, *symbols, e0, ep, *errors); lemma_keep(t0, tp, *self, *ast, id@); }
                        return Some(field_def_tid);
                    }
                    j = j + 1;
                }
                let mut msg = "No such field \"".to_owned();
                msg.append(field.get(&ast.idents).as_str());
                msg.append("\" on struct \"");
                msg.append(base.get(&ast.idents).as_str());
                msg.append("\"");
                let ghost (tp, sp, ep) = (*self, *symbols, *errors);
                log_at(errors, ErrorKind::Type, msg, *id.get(&ast.locations));
                proof { lemma_steps_trans(t0, tp, *self, s0, sp, *symbols, e0, ep, *errors); lemma_keep(t0, tp, *self, *ast, id@); }
                let ghost (tp, sp, ep) = (*self, *symbols, *errors);
                let r = self.assign_new(id, Type::Weak);
                proof { lemma_steps_trans(t0, tp, *self, s0, sp, *symbols, e0, ep, *errors); lemma_keep(t0, tp, *self, *ast, id@); }
                return r;
            },
            other => {
                let mut msg = "Projection operator not supported for type ".to_owned();
                msg.append(debug_string(other).as_str());
                let ghost (tp, sp, ep) = (*self, *symbols, *errors);
                log_at(errors, ErrorKind::Type, msg, *id.get(&ast.locations));
                proof { lemma_steps_trans(t0, tp, *self, s0, sp, *symbols, e0, ep, *errors); lemma_keep(t0, tp, *self, *ast, id@); }
                let ghost (tp, sp, ep) = (*self, *symbols, *errors);
                let r = self.assign_new(id, Type::Weak);
                proof { lemma_steps_trans(t0, tp, *self, s0, sp, *symbols, e0, ep, *errors); lemma_keep(t0, tp, *self, *ast, id@); }
                return r;
            },
        }
    }

    /// Checks an operator: arithmetic on numbers of one kind (a `Weak` side
    /// taking the other side's kind, constants folded), comparisons (boolean
    /// constants folded); other operands are reported.
    fn compute_infix(&mut self, ast: &Ast, symbols: &mut Symbols, errors: &mut Errors, id: AstId, op: InfixKind, fuel: u64) -> (r: Option<TypeId>)
        requires
            ast.kind_of(id@) == AstKind::Infix(op),
            !typed(*old(self), id@),
            old(self).wf(),
            old(self).closed(),
            old(symbols).wf(),
            old(errors).wf(),
            fuel > 0,
        ensures
            kept(*old(self), *final(self), *ast),
            !rhs_operand(*ast, id@) ==> (r matches Some(t) ==> final(self).assignment_of(id@) == Some(t)),
            computed(*old(self), *old(symbols), *old(errors), *final(self), *final(symbols), *final(errors), id, r),
            child_typed(*old(self), *ast, id, 0) && child_typed(*old(self), *ast, id, 1) && room_for(*old(self), id)
                ==> {
                let ty = infix_type(op, child_type(*old(self), *ast, id, 0), child_type(*old(self), *ast, id, 1));
                &&& r is Some <==> ty is Some
                &&& r matches Some(t) ==> final(self).assignment_of(id@) == Some(t) && final(self).type_of(t) == ty->0
            },
            ast.kind_of(id@) == AstKind::Infix(op) && old(self).assignment_of(id@) is None && expr_pre(
                *old(self),
                *ast,
                id@,
                (fuel - 1) as nat,
                (fuel - 1) as nat,
            ) ==> expr_post(
                *old(self),
                *old(symbols),
                *old(errors),
                *final(self),
                *final(symbols),
                *final(errors),
                *ast,
                id@,
                (fuel - 1) as nat,
                (fuel - 1) as nat,
                r,
            ),
        decreases fuel, 1nat,
    {
        let ghost t0 = *self;
        let ghost s0 = *symbols;
        let ghost e0 = *errors;
        proof {
            lemma_steps_refl(t0, s0, e0);
        }
        let ghost d = (fuel - 1) as nat;
        let ghost goal = ast.kind_of(id@) == AstKind::Infix(op) && t0.assignment_of(id@) is None && expr_pre(
            t0,
            *ast,
            id@,
            d,
            d,
        );
        proof {
            if goal {
                lemma_infix_pre0(t0, *ast, id@, d);
            }
        }
        let ghost (tp, sp, ep) = (*self, *symbols, *errors);
        let (_lhs, lhs_t) = match self.compute_child(ast, symbols, errors, id, 0, fuel) {
            None => {
                proof { lemma_steps_trans(t0, tp, *self, s0, sp, *symbols, e0, ep, *errors); lemma_keep(t0, tp, *self, *ast, id@); }
                return None;
            },
            Some((c, t)) => (c, t),
        };
        proof { lemma_steps_trans(t0, tp, *self, s0, sp, *symbols, e0, ep, *errors); lemma_keep(t0, tp, *self, *ast, id@); }
        let ghost mid0 = *self;
        proof {
            if goal {
                lemma_infix_pre1(t0, mid0, s0, e0, *ast, id@, d);
            }
        }
        let ghost (tp, sp, ep) = (*self, *symbols, *errors);
        let (rhs, rhs_t) = match self.compute_child(ast, symbols, errors, id, 1, fuel) {
            None => {
                proof { lemma_steps_trans(t0, tp, *self, s0, sp, *symbols, e0, ep, *errors); lemma_keep(t0, tp, *self, *ast, id@); }
                return None;
            },
            Some((c, t)) => (c, t),
        };
        proof { lemma_steps_trans(t0, tp, *self, s0, sp, *symbols, e0, ep, *errors); lemma_keep(t0, tp, *self, *ast, id@); }
        let ghost mid1 = *self;
        proof {
            if goal {
                let e = (d - 1) as nat;
                assert(mid1.type_of(lhs_t) == mid0.type_of(lhs_t));
                lemma_expr_known(*ast, operand(*ast, id@, 0), e);
                lemma_expr_known(*ast, operand(*ast, id@, 1), e);
                lemma_expr_known(*ast, id@, d);
                assert(mid1.assignment_of(id@) is None) by {
                    assert(!expr_nodes(*ast, operand(*ast, id@, 1), e).contains(id@));
                }
                lemma_assigned(mid1, mid1, ast.count(), id@);
            }
        }
        let a = *lhs_t.get(&self.types);
        let b = *rhs_t.get(&self.types);
        if op == InfixKind::Add || op == InfixKind::Sub || op == InfixKind::Mul || op == InfixKind::Div {
            let ty = match (a, b) {
                (Type::Weak, Type::Weak) => {
                    let ghost (tp, sp, ep) = (*self, *symbols, *errors);
                    self.assign(rhs, lhs_t);
                    proof {
                        lemma_steps_trans(t0, tp, *self, s0, sp, *symbols, e0, ep, *errors);
                        assert(ast.children_of(id@)[1] == rhs);
                        lemma_keep(t0, tp, *self, *ast, rhs@);
                    }
                    Type::Weak
                },
                (Type::Weak, Type::I32) | (Type::Weak, Type::ConstI32(_)) => {
                    let ghost (tp, sp, ep) = (*self, *symbols, *errors);
                    self.set_type(lhs_t, Type::I32);
                    proof { lemma_steps_trans(t0, tp, *self, s0, sp, *symbols, e0, ep, *errors); lemma_keep(t0, tp, *self, *ast, id@); }
                    Type::I32
                },
                (Type::I32, Type::Weak) | (Type::ConstI32(_), Type::Weak) => {
                    let ghost (tp, sp, ep) = (*self, *symbols, *errors);
                    self.set_type(rhs_t, Type::I32);
                    proof { lemma_steps_trans(t0, tp, *self, s0, sp, *symbols, e0, ep, *errors); lemma_keep(t0, tp, *self, *ast, id@); }
                    Type::I32
                },
                (Type::Weak, Type::F32) => {
                    let ghost (tp, sp, ep) = (*self, *symbols, *errors);
                    self.set_type(lhs_t, Type::F32);
                    proof { lemma_steps_trans(t0, tp, *self, s0, sp, *symbols, e0, ep, *errors); lemma_keep(t0, tp, *self, *ast, id@); }
                    Type::F32
                },
                (Type::F32, Type::Weak) => {
                    let ghost (tp, sp, ep) = (*self, *symbols, *errors);
                    self.set_type(rhs_t, Type::F32);
                    proof { lemma_steps_trans(t0, tp, *self, s0, sp, *symbols, e0, ep, *errors); lemma_keep(t0, tp, *self, *ast, id@); }
                    Type::F32
                },
                (Type::ConstI32(x), Type::ConstI32(y)) => match fold_i32_exec(op, x, y) {
                    Some(v) => Type::ConstI32(v),
                    None => return None,
                },
                (Type::I32, Type::I32) | (Type::I32, Type::ConstI32(_)) | (Type::ConstI32(_), Type::I32) => Type::I32,
                (Type::F32, Type::F32) => Type::F32,
                _ => {
                    let (verb, prep) = if op == InfixKind::Add {
                        ("add", "to")
                    } else if op == InfixKind::Sub {
                        ("subtract", "from")
                    } else if op == InfixKind::Mul {
                        ("multiply", "by")
                    } else {
                        ("divide", "by")
                    };
                    let mut msg = "Cannot ".to_owned();
                    msg.append(verb);
                    msg.append(" ");
                    msg.append(self.string_of_type(lhs_t, false, ast).as_str());
                    msg.append(" ");
                    msg.append(prep);
                    msg.append(" ");
                    msg.append(self.string_of_type(rhs_t, false, ast).as_str());
                    let ghost (tp, sp, ep) = (*self, *symbols, *errors);
                    log_at(errors, ErrorKind::Type, msg, *id.get(&ast.locations));
                    proof { lemma_steps_trans(t0, tp, *self, s0, sp, *symbols, e0, ep, *errors); lemma_keep(t0, tp, *self, *ast, id@); }
                    Type::Weak
                },
            };
            let ghost (tp, sp, ep) = (*self, *symbols, *errors);
            let r = self.assign_new(id, ty);
            proof {
                lemma_steps_trans(t0, tp, *self, s0, sp, *symbols, e0, ep, *errors); lemma_keep(t0, tp, *self, *ast, id@);
                if goal {
                    assert(tp == mid1 && sp == s0 && ep == e0);
                    assert(ty == expr_type(*ast, id@, d)->0);
                    lemma_infix_post(t0, mid0, mid1, *self, s0, e0, *ast, id@, d, r->0);
                }
            }
            r
        } else {
            match (a, b) {
                (Type::ConstBool(l), Type::ConstBool(r)) => {
                    let v = compare_bools_exec(op, l, r);
                    let ghost (tp, sp, ep) = (*self, *symbols, *errors);
                    let r = self.assign_new(id, Type::ConstBool(v));
                    proof {
                        lemma_steps_trans(t0, tp, *self, s0, sp, *symbols, e0, ep, *errors); lemma_keep(t0, tp, *self, *ast, id@);
                        if goal {
                            assert(tp == mid1 && sp == s0 && ep == e0);
                            assert(Type::ConstBool(v) == expr_type(*ast, id@, d)->0);
                            lemma_infix_post(t0, mid0, mid1, *self, s0, e0, *ast, id@, d, r->0);
                        }
                    }
                    return r;
                },
                _ => {
                    let ghost (tp, sp, ep) = (*self, *symbols, *errors);
                    let r = self.assign_new(id, Type::Bool);
                    proof {
                        lemma_steps_trans(t0, tp, *self, s0, sp, *symbols, e0, ep, *errors); lemma_keep(t0, tp, *self, *ast, id@);
                        if goal {
                            assert(tp == mid1 && sp == s0 && ep == e0);
                            assert(Type::Bool == expr_type(*ast, id@, d)->0);
                            lemma_infix_post(t0, mid0, mid1, *self, s0, e0, *ast, id@, d, r->0);
                        }
                    }
                    return r;
                },
            }
        }
    }
}

/// The depth budget of the checker's walk over a tree of `n` nodes: a walk in
/// which no node reaches itself without passing a node it has already typed
/// never runs out.
pub open spec fn depth_budget(n: nat) -> nat {
    if n < 4294967295 {
        (n + 1) * (n + 1)
    } else {
        18446744073709551615
    }
}

/// The depth to which the checker reads a tree of `n` nodes: one less than
/// its depth budget.
pub open spec fn top_depth(n: nat) -> nat {
    (depth_budget(n) - 1) as nat
}

/// Whether every node of `ast` is the root of a tree of the expression
/// language that needs no definitions, read to depth `d`, the nodes that
/// have a type in `ts` have the right one, and there is room for a type per
/// untyped node.
pub open spec fn expr_forest(ts: Types, ast: Ast, d: nat) -> bool {
    &&& forall|i: nat| i < ast.count() ==> #[trigger] expr_ok(ast, i, d)
    &&& settled(ts, ast, Set::new(|i: nat| i < ast.count()), d)
    &&& ts.count() + ast.count() < 4294967295 + assigned(ts, ast.count())
}

/// A table in which no node has a type counts none typed.
pub proof fn lemma_assigned_none(ts: Types, n: nat)
    requires
        forall|i: nat| #[trigger] ts.assignment_of(i) is None,
    ensures
        assigned(ts, n) == 0,
    decreases n,
{
    if n > 0 {
        lemma_assigned_none(ts, (n - 1) as nat);
    }
}

/// A forest read to some depth within the budget is one read to the top
/// depth, with the same types.
pub proof fn lemma_forest_top(ts: Types, ast: Ast, d: nat)
    requires
        expr_forest(ts, ast, d),
        d <= top_depth(ast.count()),
    ensures
        expr_forest(ts, ast, top_depth(ast.count())),
        forall|i: nat| i < ast.count() ==> #[trigger] expr_type(ast, i, top_depth(ast.count())) == expr_type(ast, i, d),
{
    let e = top_depth(ast.count());
    assert forall|i: nat| i < ast.count() implies #[trigger] expr_type(ast, i, e) == expr_type(ast, i, d) by {
        assert(expr_ok(ast, i, d));
        lemma_expr_deeper(ast, i, d, e);
    }
    assert forall|i: nat| i < ast.count() implies #[trigger] expr_ok(ast, i, e) by {
        assert(expr_ok(ast, i, d));
        lemma_expr_deeper(ast, i, d, e);
    }
    let all = Set::new(|i: nat| i < ast.count());
    assert forall|j: nat| all.contains(j) && #[trigger] ts.assignment_of(j) is Some implies expr_type(ast, j, e) is Some
        && ts.type_of(ts.assignment_of(j)->0) == expr_type(ast, j, e)->0 by {
        assert(expr_type(ast, j, e) == expr_type(ast, j, d));
    }
}

impl Types {
    /// Computes and assigns the type of node `id`, as `compute_fuel` does,
    /// within the depth budget of the tree.
    fn compute(&mut self, ast: &Ast, symbols: &mut Symbols, errors: &mut Errors, id: AstId) -> (r: Option<TypeId>)
        requires
            old(self).wf(),
            old(self).closed(),
            old(symbols).wf(),
            old(errors).wf(),
            ast.wf(),
        ensures
            kept(*old(self), *final(self), *ast),
            !rhs_operand(*ast, id@) ==> (r matches Some(t) ==> final(self).assignment_of(id@) == Some(t)),
            known(*old(self)) && stable(*ast, id@) && !typed(*old(self), id@) ==> (r matches Some(t) ==> node_typing(
                *final(self),
                *ast,
                id@,
                t,
            )),
            computed(*old(self), *old(symbols), *old(errors), *final(self), *final(symbols), *final(errors), id, r),
            old(self).assignment_of(id@) is Some && old(self).type_of(old(self).assignment_of(id@)->0) != Type::Unknown
                ==> r == old(self).assignment_of(id@) && *final(self) == *old(self) && *final(symbols) == *old(symbols)
                && *final(errors) == *old(errors),
            ({
                let fresh = old(self).assignment_of(id@) is Some ==> old(self).type_of(old(self).assignment_of(id@)->0)
                    == Type::Unknown;
                fresh && leaf_type(ast.kind_of(id@)) is Some && r is Some ==> final(self).type_of(r->0)
                    == leaf_type(ast.kind_of(id@))->0 && final(self).assignment_of(id@) == r
            }),
            expr_pre(*old(self), *ast, id@, top_depth(ast.count()), top_depth(ast.count())) ==> expr_post(
                *old(self),
                *old(symbols),
                *old(errors),
                *final(self),
                *final(symbols),
                *final(errors),
                *ast,
                id@,
                top_depth(ast.count()),
                top_depth(ast.count()),
                r,
            ),
    {
        proof {
            lemma_world_space(ast.ids);
        }
        let n = ast.ids.num_allocs();
        let budget: u64 = if n < 4294967295 {
            assert((n + 1) * (n + 1) <= 18446744073709551615 && (n + 1) * (n + 1) >= 1) by (nonlinear_arith)
                requires
                    n < 4294967295,
            ;
            ((n as u64) + 1) * ((n as u64) + 1)
        } else {
            18446744073709551615u64
        };
        self.compute_fuel(ast, symbols, errors, id, budget)
    }

    /// Types every node of the tree, in order; returns whether every walk
    /// finished. When it did, every node has a type.
    pub fn compute_types(&mut self, ast: &Ast, symbols: &mut Symbols, errors: &mut Errors) -> (r: bool)
        requires
            old(self).wf(),
            old(self).closed(),
            old(symbols).wf(),
            old(errors).wf(),
            ast.wf(),
        ensures
            kept(*old(self), *final(self), *ast),
            steps(*old(self), *old(symbols), *old(errors), *final(self), *final(symbols), *final(errors)),
            r ==> forall|i: nat| i < ast.count() ==> #[trigger] final(self).assignment_of(i) is Some,
            (forall|i: nat| i < ast.count() ==> #[trigger] typed(*old(self), i)) ==> r && *final(self) == *old(self)
                && *final(symbols) == *old(symbols) && *final(errors) == *old(errors),
            expr_forest(*old(self), *ast, top_depth(ast.count())) ==> {
                &&& r
                &&& *final(symbols) == *old(symbols)
                &&& *final(errors) == *old(errors)
                &&& forall|i: nat| i < ast.count() ==> (#[trigger] final(self).assignment_of(i) is Some
                    && final(self).type_of(final(self).assignment_of(i)->0) == expr_type(*ast, i, top_depth(ast.count()))->0)
            },
    {
        let ghost t0 = *self;
        let ghost s0 = *symbols;
        let ghost e0 = *errors;
        proof {
            lemma_steps_refl(t0, s0, e0);
        }
        let ghost top = top_depth(ast.count());
        let ghost h = expr_forest(t0, *ast, top_depth(ast.count()));
        let ids = ast.ids.iter();
        let mut k: usize = 0;
        while k < ids.len()
            invariant
                steps(t0, s0, e0, *self, *symbols, *errors),
                t0 == *old(self),
                s0 == *old(symbols),
                e0 == *old(errors),
                ast.wf(),
                ids@.len() == ast.count(),
                forall|j: int| 0 <= j < ids@.len() ==> (#[trigger] ids@[j])@ == j,
                k <= ids@.len(),
                forall|i: nat| i < k ==> #[trigger] self.assignment_of(i) is Some,
                (forall|i: nat| i < ast.count() ==> #[trigger] typed(t0, i)) ==> *self == t0 && *symbols == s0
                    && *errors == e0,
                top == top_depth(ast.count()),
                h == expr_forest(t0, *ast, top_depth(ast.count())),
                kept(t0, *self, *ast),
                t0.closed(),
                h ==> expr_forest(*self, *ast, top) && *symbols == s0 && *errors == e0,
            decreases ids@.len() - k,
        {
            let ghost (tp, sp, ep) = (*self, *symbols, *errors);
            let id = ids[k];
            proof {
                assert(id@ == k);
                if forall|i: nat| i < ast.count() ==> #[trigger] typed(t0, i) {
                    assert(typed(t0, id@));
                }
            }
            let ghost tk = *self;
            proof {
                if h {
                    assert forall|j: nat| expr_nodes(*ast, id@, top).contains(j) implies j < ast.count() by {
                        let dj = lemma_expr_sub(*ast, id@, top, j);
                    }
                    assert(expr_ok(*ast, id@, top));
                    assert(expr_nodes(*ast, id@, top).subset_of(Set::new(|i: nat| i < ast.count())));
                    assert(expr_pre(tk, *ast, id@, top, top));
                }
            }
            match self.compute(ast, symbols, errors, id) {
                None => {
                    proof {
                        lemma_steps_trans(t0, tp, *self, s0, sp, *symbols, e0, ep, *errors);
                        lemma_kept_trans(t0, tp, *self, *ast);
                    }
                    return false;
                },
                Some(_) => {},
            }
            proof {
                lemma_steps_trans(t0, tp, *self, s0, sp, *symbols, e0, ep, *errors);
                lemma_kept_trans(t0, tp, *self, *ast);
                if h {
                    let all = Set::new(|i: nat| i < ast.count());
                    let nodes = expr_nodes(*ast, id@, top);
                    assert forall|j: nat| all.contains(j) && #[trigger] self.assignment_of(j) is Some implies expr_type(
                        *ast,
                        j,
                        top,
                    ) is Some && self.type_of(self.assignment_of(j)->0) == expr_type(*ast, j, top)->0 by {
                        if !nodes.contains(j) {
                            assert(self.assignment_of(j) == tk.assignment_of(j));
                            assert(tk.assignment_of(j)->0@ < tk.count());
                        }
                    }
                }
                assert forall|i: nat| i < k + 1 implies #[trigger] self.assignment_of(i) is Some by {
                    if i < k {
                        assert(tp.assignment_of(i) is Some);
                    } else {
                        assert(ids@[k as int]@ == k);
                    }
                }
            }
            k = k + 1;
        }
        true
    }
}

/// A `Weak` type fits anywhere: it is a subtype of every type, and every
/// type is a subtype of it.
pub proof fn law_weak_fits(ts: Types, weak: TypeId, t: TypeId, fuel: nat)
    requires
        ts.type_of(weak) == Type::Weak,
        fuel > 0,
    ensures
        subtype_spec(ts, weak, t, fuel) == Some(true),
        subtype_spec(ts, t, weak, fuel) == Some(true),
{
}

/// Equal constants, and a constant and the type of its kind, are subtypes.
pub proof fn law_constants_fit(ts: Types, c: TypeId, t: TypeId, fuel: nat)
    requires
        fuel > 0,
        ts.type_of(t) != Type::Weak,
    ensures
        ts.type_of(c) matches Type::ConstI32(_) && ts.type_of(t) == Type::I32 ==> subtype_spec(ts, c, t, fuel)
            == Some(true),
        ts.type_of(c) matches Type::ConstBool(_) && ts.type_of(t) == Type::Bool ==> subtype_spec(ts, c, t, fuel)
            == Some(true),
        ts.type_of(c) == ts.type_of(t) && (ts.type_of(c) matches Type::ConstI32(_) || ts.type_of(c) matches Type::ConstBool(_))
            ==> subtype_spec(ts, c, t, fuel) == Some(true),
{
}

/// A walk of the checker from a table whose types are all known keeps them
/// known, and a node it assigned is then typed: a second walk over that node
/// gives back its type and changes nothing (the clause of `compute` for typed
/// nodes).
pub proof fn law_walk_settles(
    t0: Types,
    s0: Symbols,
    e0: Errors,
    t1: Types,
    s1: Symbols,
    e1: Errors,
    id: AstId,
    t: TypeId,
)
    requires
        known(t0),
        steps(t0, s0, e0, t1, s1, e1),
        t1.assignment_of(id@) == Some(t),
        t@ < t1.count(),
    ensures
        known(t1),
        typed(t1, id@),
{
    lemma_known_step(t0, t1);
}

/// Among the scalar kinds, a type is a subtype of another exactly when both
/// are of the same kind, or the first is a constant of the second's kind:
/// `I32` is no subtype of a constant, two constants fit only when they are
/// equal, and scalar kinds that differ never fit.
pub proof fn law_scalar_cases(ts: Types, a: TypeId, b: TypeId, fuel: nat)
    requires
        fuel > 0,
        scalar(ts.type_of(a)),
        scalar(ts.type_of(b)),
    ensures
        subtype_spec(ts, a, b, fuel) == Some(
            ts.type_of(a) == ts.type_of(b) || (ts.type_of(a) is ConstI32 && ts.type_of(b) == Type::I32) || (
            ts.type_of(a) is ConstBool && ts.type_of(b) == Type::Bool),
        ),
{
}

/// The scalar kinds: strings, characters, integers, floats, booleans, the
/// unit type and integer and boolean constants.
pub open spec fn scalar(t: Type) -> bool {
    t == Type::NoneType || t == Type::String || t == Type::Char || t == Type::I32 || t == Type::F32 || t
        == Type::Bool || t is ConstI32 || t is ConstBool
}


/// A function type is written as its parameter type, a space, then its result
/// type: the text starts with the text of component 0 and ends with the text
/// of component 1, whether or not structs are expanded.
pub proof fn law_func_text_params_then_result(
    ts: Types,
    ast: Ast,
    t: TypeId,
    expand: bool,
    fuel: nat,
    params: Seq<char>,
    result: Seq<char>,
)
    requires
        fuel > 0,
        ts.type_of(t) == Type::Func,
        ts.children_of(t).len() >= 2,
        type_text(ts, ast, ts.children_of(t)[0], false, (fuel - 1) as nat) == Some(params),
        type_text(ts, ast, ts.children_of(t)[1], false, (fuel - 1) as nat) == Some(result),
    ensures
        type_text(ts, ast, t, expand, fuel) matches Some(x) && x.len() == params.len() + 1 + result.len()
            && x.subrange(0, params.len() as int) == params && x[params.len() as int] == ' '
            && x.subrange(params.len() + 1int, x.len() as int) == result,
{
    let x = params + " "@ + result;
    reveal_strlit(" ");
    assert(x.subrange(0, params.len() as int) =~= params);
    assert(x.subrange(params.len() + 1int, x.len() as int) =~= result);
}


/// How the other composite types are written around the text `x` of their
/// first component: a vector as `[]x`, an optional as `x?`, and an array of
/// `n > 0` elements as `[n]x`; a tuple of one component as `(x)` and of two
/// as `(x, y)`.
pub proof fn law_composite_text(
    ts: Types,
    ast: Ast,
    t: TypeId,
    expand: bool,
    fuel: nat,
    x: Seq<char>,
    y: Seq<char>,
)
    requires
        fuel > 0,
        ts.children_of(t).len() >= 1,
        type_text(ts, ast, ts.children_of(t)[0], false, (fuel - 1) as nat) == Some(x),
        ts.children_of(t).len() >= 2 ==> type_text(ts, ast, ts.children_of(t)[1], false, (fuel - 1) as nat) == Some(y),
    ensures
        ts.type_of(t) == Type::Vector ==> type_text(ts, ast, t, expand, fuel) == Some("[]"@ + x),
        ts.type_of(t) == Type::Optional ==> type_text(ts, ast, t, expand, fuel) == Some(x + "?"@),
        ts.type_of(t) matches Type::Array(n) ==> (n > 0 ==> type_text(ts, ast, t, expand, fuel) == Some(
            "["@ + decimal(n as nat) + "]"@ + x,
        )),
        ts.type_of(t) == Type::Tuple && ts.children_of(t).len() == 1 ==> type_text(ts, ast, t, expand, fuel) == Some(
            "("@ + x + ")"@,
        ),
        ts.type_of(t) == Type::Tuple && ts.children_of(t).len() == 2 ==> type_text(ts, ast, t, expand, fuel) == Some(
            "("@ + x + ", "@ + y + ")"@,
        ),
{
    let kids = ts.children_of(t);
    if ts.type_of(t) == Type::Tuple {
        assert(list_text(ts, ast, kids, 0, ", "@, Seq::empty(), fuel) == list_text(ts, ast, kids, 1, ", "@, Seq::empty() + sep_before(0, ", "@) + x, fuel));
        assert(Seq::<char>::empty() + sep_before(0, ", "@) + x =~= x);
        if kids.len() == 1 {
            assert(list_text(ts, ast, kids, 1, ", "@, x, fuel) == Some(x));
        } else if kids.len() == 2 {
            assert(list_text(ts, ast, kids, 1, ", "@, x, fuel) == list_text(ts, ast, kids, 2, ", "@, x + sep_before(1, ", "@) + y, fuel));
            assert(list_text(ts, ast, kids, 2, ", "@, x + sep_before(1, ", "@) + y, fuel) == Some(x + sep_before(1, ", "@) + y));
            assert(x + sep_before(1, ", "@) + y == x + ", "@ + y);
        }
    }
}

} // verus!
