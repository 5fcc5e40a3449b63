//! The abstract syntax tree: one id per node, with the node's kind, children,
//! location, identifier text and literal value kept in arenas.
use crate::arena::{is_default, Arena, Id, World};
use crate::lexer::{Location, TokenKind};
use smallvec::SmallVec;
use vstd::prelude::*;

verus! {

/// Marks ids, worlds and arenas that belong to [`Ast`].
#[derive(Debug)]
pub struct AstMarker;

/// The identifier of a syntax tree node.
pub type AstId = Id<AstMarker>;

/// The children of one node, kept inline for up to four children.
#[verifier::external_body]
pub struct ChildList {
    inner: SmallVec<[AstId; 4]>,
}

/// The ids that a child list holds, in order.
pub uninterp spec fn child_ids(list: ChildList) -> Seq<AstId>;

impl ChildList {
    /// An empty child list (`SmallVec::new`).
    #[verifier::external_body]
    pub(crate) fn new() -> (r: Self)
        ensures
            child_ids(r) == Seq::<AstId>::empty(),
    {
        ChildList { inner: SmallVec::new() }
    }

    /// The number of children (`SmallVec::len`).
    #[verifier::external_body]
    pub(crate) fn len(&self) -> (r: usize)
        ensures
            r == child_ids(*self).len(),
    {
        self.inner.len()
    }

    /// The child at position `i` (indexing a `SmallVec`).
    #[verifier::external_body]
    pub(crate) fn get(&self, i: usize) -> (r: AstId)
        requires
            i < child_ids(*self).len(),
        ensures
            r == child_ids(*self)[i as int],
    {
        self.inner[i]
    }

    /// Appends a child (`SmallVec::push`).
    #[verifier::external_body]
    pub(crate) fn push(&mut self, id: AstId)
        requires
            child_ids(*old(self)).len() < 4294967295,
        ensures
            child_ids(*final(self)) == child_ids(*old(self)).push(id),
    {
        self.inner.push(id)
    }

    /// Replaces the child at position `i` (assigning through `SmallVec` indexing).
    #[verifier::external_body]
    pub(crate) fn set(&mut self, i: usize, id: AstId)
        requires
            i < child_ids(*old(self)).len(),
        ensures
            child_ids(*final(self)) == child_ids(*old(self)).update(i as int, id),
    {
        self.inner[i] = id;
    }

    /// Keeps only the first `len` children (`SmallVec::truncate`).
    #[verifier::external_body]
    pub(crate) fn truncate(&mut self, len: usize)
        ensures
            child_ids(*final(self)) == if len < child_ids(*old(self)).len() {
                child_ids(*old(self)).take(len as int)
            } else {
                child_ids(*old(self))
            },
    {
        self.inner.truncate(len)
    }
}

impl Default for ChildList {
    fn default() -> (r: Self)
        ensures
            child_ids(r) == Seq::<AstId>::empty(),
    {
        ChildList::new()
    }
}

/// A default child list is empty.
pub proof fn lemma_default_child_list(c: ChildList)
    ensures
        is_default(c) ==> child_ids(c) == Seq::<AstId>::empty(),
{
}

/// The kinds of syntax tree nodes.
#[derive(Clone, Copy, Debug, PartialEq, Eq, Hash, Structural)]
pub enum AstKind {
    VIdent,
    TIdent,
    Void,
    String,
    Char,
    NoneValue,
    Integer,
    Float,
    Call,
    Method,
    Group,
    Func,
    Block,
    Proj,
    Index,
    Struct,
    Tuple,
    Array,
    Repeat,
    Vector,
    VField,
    TField,
    Arg,
    Optional,
    Bind,
    BindMut,
    Assign,
    If,
    IfElse,
    Infix(InfixKind),
    BuiltinI32,
    BuiltinF32,
    BuiltinString,
    BuiltinChar,
    BuiltinBool,
    BuiltinTrue,
    BuiltinFalse,
    Error,
}

impl Default for AstKind {
    fn default() -> (r: Self)
        ensures
            r == AstKind::Error,
    {
        AstKind::Error
    }
}

/// A default node kind is `Error`.
pub proof fn lemma_default_ast_kind(k: AstKind)
    ensures
        is_default(k) ==> k == AstKind::Error,
{
}

/// The binary operators.
#[derive(Clone, Copy, Debug, PartialEq, Eq, Hash, Structural)]
pub enum InfixKind {
    Add,
    Sub,
    Mul,
    Div,
    Gt,
    Lt,
    Ge,
    Le,
    Eq,
    Ne,
}

/// The token that spells each operator.
pub open spec fn infix_token(kind: InfixKind) -> TokenKind {
    match kind {
        InfixKind::Add => TokenKind::Plus,
        InfixKind::Sub => TokenKind::Minus,
        InfixKind::Mul => TokenKind::Times,
        InfixKind::Div => TokenKind::Divide,
        InfixKind::Gt => TokenKind::RAngle,
        InfixKind::Lt => TokenKind::LAngle,
        InfixKind::Ge => TokenKind::RAngleEquals,
        InfixKind::Le => TokenKind::LAngleEquals,
        InfixKind::Eq => TokenKind::EqualsEquals,
        InfixKind::Ne => TokenKind::NotEquals,
    }
}

impl InfixKind {
    /// The node kind of an application of this operator.
    pub fn ast(self) -> (r: AstKind)
        ensures
            r == AstKind::Infix(self),
    {
        AstKind::Infix(self)
    }

    /// The token that spells this operator.
    pub fn tok(self) -> (r: TokenKind)
        ensures
            r == infix_token(self),
    {
        match self {
            InfixKind::Add => TokenKind::Plus,
            InfixKind::Sub => TokenKind::Minus,
            InfixKind::Mul => TokenKind::Times,
            InfixKind::Div => TokenKind::Divide,
            InfixKind::Gt => TokenKind::RAngle,
            InfixKind::Lt => TokenKind::LAngle,
            InfixKind::Ge => TokenKind::RAngleEquals,
            InfixKind::Le => TokenKind::LAngleEquals,
            InfixKind::Eq => TokenKind::EqualsEquals,
            InfixKind::Ne => TokenKind::NotEquals,
        }
    }
}

/// The value of a literal node. A float is kept as its IEEE-754 bit pattern.
#[derive(Clone, Debug)]
pub enum Literal {
    Integer(i64),
    Float(u64),
    String(String),
    Char(u8),
}

/// A syntax tree: the node ids handed out so far and, per node, its kind,
/// children, location, identifier text and literal value.
pub struct Ast {
    pub ids: World<AstMarker>,
    pub kinds: Arena<AstMarker, AstKind>,
    pub children: Arena<AstMarker, ChildList>,
    pub locations: Arena<AstMarker, Option<Location>>,
    pub idents: Arena<AstMarker, String>,
    pub literals: Arena<AstMarker, Option<Literal>>,
}

/// Whether a node of kind `kind` may have `n` children.
pub open spec fn arity_ok(kind: AstKind, n: nat) -> bool {
    match kind {
        AstKind::Struct | AstKind::Tuple | AstKind::Array | AstKind::Block => true,
        AstKind::Group | AstKind::Vector => n == 1,
        AstKind::Optional => n == 1 || n == 2,
        AstKind::Method | AstKind::IfElse => n == 3,
        AstKind::VField | AstKind::TField | AstKind::Arg | AstKind::Bind | AstKind::BindMut
        | AstKind::Assign | AstKind::Call | AstKind::Index | AstKind::Proj | AstKind::Func
        | AstKind::If | AstKind::Repeat | AstKind::Infix(_) => n == 2,
        _ => n == 0,
    }
}

impl Ast {
    /// The tree's internal consistency.
    pub open spec fn wf(&self) -> bool {
        &&& self.ids.wf()
        &&& self.kinds.wf()
        &&& self.children.wf()
        &&& self.locations.wf()
        &&& self.idents.wf()
        &&& self.literals.wf()
    }

    /// The number of nodes so far.
    pub open spec fn count(&self) -> nat {
        self.ids.allocated()
    }

    /// The kind of node `i`.
    pub open spec fn kind_of(&self, i: nat) -> AstKind {
        self.kinds.value_at(i)
    }

    /// The children of node `i`.
    pub open spec fn children_of(&self, i: nat) -> Seq<AstId> {
        child_ids(self.children.value_at(i))
    }

    /// The location of node `i`.
    pub open spec fn location_of(&self, i: nat) -> Option<Location> {
        self.locations.value_at(i)
    }

    /// The identifier text of node `i`.
    pub open spec fn ident_of(&self, i: nat) -> Seq<char> {
        self.idents.value_at(i)@
    }

    /// Node `p` has the number of children its kind requires, and each child is
    /// a node of the range `lo..hi` ranked below `p`.
    pub open spec fn node_wf(&self, p: nat, lo: nat, hi: nat, rank: Map<nat, nat>) -> bool {
        &&& arity_ok(self.kind_of(p), self.children_of(p).len())
        &&& forall|k: int|
            0 <= k < self.children_of(p).len() ==> {
                let c = (#[trigger] self.children_of(p)[k])@;
                &&& lo <= c < hi
                &&& rank.dom().contains(c)
                &&& rank[c] < rank[p]
            }
    }

    /// The nodes `lo..hi` form a forest: every node of the range is well formed,
    /// with children in the range, and `rank` decreases from each node to its
    /// children, so no node is its own descendant.
    pub open spec fn forest(&self, lo: nat, hi: nat, rank: Map<nat, nat>) -> bool {
        &&& hi <= self.count()
        &&& forall|p: nat| lo <= p < hi ==> #[trigger] rank.dom().contains(p)
        &&& forall|p: nat| lo <= p < hi ==> #[trigger] self.node_wf(p, lo, hi, rank)
    }

    /// No stray data lies past the last node: positions after the nodes have no
    /// children and no location.
    pub open spec fn tidy(&self) -> bool {
        forall|i: nat|
            i >= self.count() ==> (#[trigger] self.children_of(i)).len() == 0 && self.location_of(
                i,
            ) is None
    }

    /// Nodes `0..n` read the same in `old` and `new`: same kind, children,
    /// location and identifier.
    pub open spec fn same_nodes(old: Ast, new: Ast, n: nat) -> bool {
        forall|i: nat|
            #![trigger new.kind_of(i)]
            #![trigger new.children_of(i)]
            #![trigger new.location_of(i)]
            #![trigger new.ident_of(i)]
            i < n ==> new.kind_of(i) == old.kind_of(i) && new.children_of(i) == old.children_of(i)
                && new.location_of(i) == old.location_of(i) && new.ident_of(i) == old.ident_of(i)
    }

    /// Constructs an empty tree.
    pub fn new() -> (r: Self)
        ensures
            r.wf(),
            r.count() == 0,
            r.tidy(),
    {
        Ast {
            ids: World::new(),
            kinds: Arena::new(),
            children: Arena::new(),
            locations: Arena::new(),
            idents: Arena::new(),
            literals: Arena::new(),
        }
    }
}

/// Storing a kind at node `i` leaves every other node's kind as it was.
pub proof fn lemma_kind_frame(old: Arena<AstMarker, AstKind>, new: Arena<AstMarker, AstKind>, i: nat, k: AstKind, j: nat)
    requires
        old.wf(),
        crate::arena::stored_at(old.slots(), new.slots(), i, k),
        new.fallback() == old.fallback(),
        j != i,
    ensures
        new.value_at(j) == old.value_at(j),
{
    crate::arena::lemma_stored_at_frame(old, new, i, k, j);
    lemma_default_ast_kind(new.value_at(j));
    lemma_default_ast_kind(old.value_at(j));
}

/// Storing a location at node `i` leaves every other node's location as it was.
pub proof fn lemma_location_frame(
    old: Arena<AstMarker, Option<Location>>,
    new: Arena<AstMarker, Option<Location>>,
    i: nat,
    v: Option<Location>,
    j: nat,
)
    requires
        old.wf(),
        crate::arena::stored_at(old.slots(), new.slots(), i, v),
        new.fallback() == old.fallback(),
        j != i,
    ensures
        new.value_at(j) == old.value_at(j),
{
    crate::arena::lemma_stored_at_frame(old, new, i, v, j);
    crate::arena::lemma_default_option(new.value_at(j));
    crate::arena::lemma_default_option(old.value_at(j));
}

/// Storing a child list at node `i` leaves every other node's children as they were.
pub proof fn lemma_children_frame(
    old: Arena<AstMarker, ChildList>,
    new: Arena<AstMarker, ChildList>,
    i: nat,
    v: ChildList,
    j: nat,
)
    requires
        old.wf(),
        crate::arena::stored_at(old.slots(), new.slots(), i, v),
        new.fallback() == old.fallback(),
        j != i,
    ensures
        child_ids(new.value_at(j)) == child_ids(old.value_at(j)),
{
    crate::arena::lemma_stored_at_frame(old, new, i, v, j);
    lemma_default_child_list(new.value_at(j));
    lemma_default_child_list(old.value_at(j));
}

/// A tree that only gains nodes, with the same children and locations
/// everywhere, stays tidy.
pub proof fn lemma_tidy_kept(a: Ast, b: Ast)
    requires
        b.count() >= a.count(),
        b.children == a.children,
        b.locations == a.locations,
    ensures
        a.tidy() ==> b.tidy(),
{
    if a.tidy() {
        assert forall|i: nat| i >= b.count() implies (#[trigger] b.children_of(i)).len() == 0
            && b.location_of(i) is None by {
            assert(a.children_of(i).len() == 0);
        }
    }
}

impl Ast {
    /// Adds a node of kind `kind`, after the last one.
    pub fn add_node(&mut self, kind: AstKind) -> (r: AstId)
        requires
            old(self).wf(),
            old(self).count() < 4294967295,
        ensures
            final(self).wf(),
            r@ == old(self).count(),
            final(self).count() == old(self).count() + 1,
            final(self).kind_of(r@) == kind,
            final(self).children_of(r@) == old(self).children_of(r@),
            final(self).location_of(r@) == old(self).location_of(r@),
            Ast::same_nodes(*old(self), *final(self), old(self).count()),
            old(self).tidy() ==> final(self).tidy(),
            final(self).children == old(self).children,
            final(self).locations == old(self).locations,
            final(self).idents == old(self).idents,
            final(self).literals == old(self).literals,
    {
        proof {
            crate::arena::lemma_world_space(self.ids);
        }
        let id = self.ids.allocate();
        let ghost old_kinds = self.kinds;
        id.put(&mut self.kinds, kind);
        proof {
            assert forall|j: nat| j < old(self).count() implies #[trigger] self.kind_of(j) == old(self).kind_of(j) by {
                lemma_kind_frame(old_kinds, self.kinds, id@, kind, j);
            }
            lemma_tidy_kept(*old(self), *self);
        }
        id
    }
}

impl Ast {
    /// Appends `child` to the children of node `id`.
    pub fn push_child(&mut self, id: AstId, child: AstId)
        requires
            old(self).wf(),
            old(self).children_of(id@).len() < 4294967295,
        ensures
            final(self).wf(),
            final(self).children_of(id@) == old(self).children_of(id@).push(child),
            forall|j: nat| j != id@ ==> #[trigger] final(self).children_of(j) == old(self).children_of(j),
            final(self).ids == old(self).ids,
            final(self).kinds == old(self).kinds,
            final(self).locations == old(self).locations,
            final(self).idents == old(self).idents,
            final(self).literals == old(self).literals,
    {
        let ghost a0 = self.children;
        let mut list = id.take(&mut self.children);
        let ghost a1 = self.children;
        proof {
            lemma_default_child_list(list);
            lemma_default_child_list(a0.value_at(id@));
            assert(child_ids(list) == old(self).children_of(id@));
        }
        list.push(child);
        let ghost pushed = list;
        id.put(&mut self.children, list);
        proof {
            assert forall|j: nat| j != id@ implies #[trigger] self.children_of(j) == old(self).children_of(j) by {
                lemma_children_frame(a1, self.children, id@, pushed, j);
                if j < a0.slots().len() {
                    assert(a1.value_at(j) == a0.value_at(j));
                } else {
                    lemma_default_child_list(a0.value_at(j));
                    lemma_default_child_list(a1.value_at(j));
                }
            }
        }
    }

    /// The children of node `id`, in order.
    pub fn children(&self, id: AstId) -> (r: Vec<AstId>)
        ensures
            r@ == self.children_of(id@),
    {
        let list = id.get(&self.children);
        let n = list.len();
        let mut out: Vec<AstId> = Vec::new();
        let mut i: usize = 0;
        while i < n
            invariant
                n == child_ids(*list).len(),
                i <= n,
                out@ == child_ids(*list).take(i as int),
            decreases n - i,
        {
            out.push(list.get(i));
            proof {
                assert(child_ids(*list).take(i + 1) =~= child_ids(*list).take(i as int).push(child_ids(*list)[i as int]));
            }
            i = i + 1;
        }
        proof {
            assert(child_ids(*list).take(n as int) =~= child_ids(*list));
        }
        out
    }
}

impl Default for Ast {
    fn default() -> (r: Self)
        ensures
            r.wf(),
            r.count() == 0,
            r.tidy(),
    {
        Ast::new()
    }
}

} // verus!
