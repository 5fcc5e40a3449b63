//! The parser: turns a token sequence into a syntax tree.
use crate::arena::{lemma_world_space, Id};
use crate::ast::{
    arity_ok, child_ids, infix_token, lemma_children_frame, lemma_default_child_list,
    lemma_kind_frame, lemma_location_frame, Ast, AstId, AstKind, ChildList, InfixKind,
};
use crate::error::{ErrorKind, Errors};
use crate::grammar::{
    array_followers, atom_kind, closers, continues, expect, expr_groups, groups_view, ident_kind, file_fuel, read_file,
    lemma_logged_concat, lemma_logged_none, lemma_read_arg, lemma_read_array_form, lemma_read_base, lemma_read_block_form, lemma_read_expr,
    lemma_read_pratt, lemma_read_struct_form,
    lemma_read_delimited, lemma_read_elem, lemma_read_field, lemma_read_if_form, lemma_read_index_form,
    lemma_read_items, lemma_read_left, lemma_read_left_rest, lemma_read_list, lemma_read_postfix_bare_optional,
    lemma_read_postfix_call, lemma_read_postfix_end, lemma_read_postfix_func, lemma_read_postfix_index,
    lemma_read_postfix_method, lemma_read_postfix_optional, lemma_read_postfix_proj, lemma_read_right,
    lemma_read_stmt, lemma_read_tuple_form, lemma_shows_frame, lemma_shows_leaf, lemma_shows_node,
    lemma_shows_parts, lemma_shows_widen, lemma_first_infix, lemma_first_infix_none, logged_errs, optional_enders, proj_kind, read, read_leaf,
    separators, shows, skip_all, struct_enders, with_kind, Element, Goal, Reading, Report, SyntaxTree,
};
use crate::lexer::{lemma_default_token_kind, merged, Location, TokenId, TokenKind, Tokens};
use vstd::prelude::*;

verus! {

/// The associativity of a group of operators.
#[derive(Clone, Copy, Debug, PartialEq, Eq, Hash, Structural)]
pub enum Assoc {
    Left,
    Right,
}

/// A group of operators of equal precedence and common associativity.
pub struct PrattGroup<'a> {
    pub kinds: &'a [InfixKind],
    pub assoc: Assoc,
}

impl<'a> PrattGroup<'a> {
    /// A group of left-associative operators.
    pub fn left(kinds: &'a [InfixKind]) -> (r: Self)
        ensures
            r.kinds@ == kinds@,
            r.assoc == Assoc::Left,
    {
        PrattGroup { kinds, assoc: Assoc::Left }
    }

    /// A group of right-associative operators.
    pub fn right(kinds: &'a [InfixKind]) -> (r: Self)
        ensures
            r.kinds@ == kinds@,
            r.assoc == Assoc::Right,
    {
        PrattGroup { kinds, assoc: Assoc::Right }
    }
}

/// Whether the parser reads types (where `(` opens a struct) or values (where
/// `(` opens a tuple).
#[derive(Clone, Copy, Debug, PartialEq, Eq, Structural)]
pub enum ParserCtx {
    Type,
    Value,
}

/// The most nodes plus errors that a parse may leave behind.
pub open spec fn capacity() -> int {
    4294967295
}

/// The parsing state: the tokens, the position of the next token, and the tree
/// and errors built so far; in ghost state, the first node of this parse, a
/// rank per node that decreases from parent to child, a clock above every rank,
/// and the set of nodes that already have a parent.
struct Core<'t> {
    tokens: &'t Tokens,
    pos: usize,
    n: usize,
    ast: Ast,
    errors: Errors,
    ctx: ParserCtx,
    lo: Ghost<nat>,
    rank: Ghost<Map<nat, nat>>,
    clock: Ghost<nat>,
    in_tree: Ghost<Set<nat>>,
}

impl<'t> Core<'t> {
    /// The fuel that reading a form of level `level` from the next token on
    /// may take: a hundred and twenty-eight steps per token left, plus the level.
    spec fn need(&self, level: nat) -> nat {
        (128 * (self.n + 1 - self.pos) + level) as nat
    }

    /// The kind of the next token.
    spec fn cur_kind(&self) -> TokenKind {
        self.tokens.kind_at(self.pos as nat)
    }

    /// The room left for nodes and errors, after reserving 16 for each token
    /// not yet read.
    spec fn room(&self) -> int {
        capacity() - self.ast.count() - self.errors.count() - 16 * (self.n - self.pos)
    }

    /// Node `p` only has children of this parse that already have a parent (it),
    /// each ranked below `p`.
    spec fn edges_ok(&self, p: nat) -> bool {
        forall|k: int|
            0 <= k < self.ast.children_of(p).len() ==> {
                let c = (#[trigger] self.ast.children_of(p)[k])@;
                &&& self.lo@ <= c < self.ast.count()
                &&& self.rank@.dom().contains(c)
                &&& self.rank@[c] < self.rank@[p]
                &&& self.in_tree@.contains(c)
            }
    }

    spec fn inv(&self) -> bool {
        &&& self.tokens.wf()
        &&& self.ast.wf()
        &&& self.ast.tidy()
        &&& self.errors.wf()
        &&& self.n == self.tokens.extent()
        &&& self.n < 4294967290
        &&& self.pos <= self.n
        &&& self.room() >= 0
        &&& self.lo@ <= self.ast.count()
        &&& forall|p: nat|
            self.lo@ <= p < self.ast.count() ==> #[trigger] self.rank@.dom().contains(p)
                && self.rank@[p] < self.clock@ && self.edges_ok(p)
        &&& forall|c: nat| #[trigger] self.in_tree@.contains(c) ==> self.lo@ <= c < self.ast.count()
    }

    /// What every parsing step keeps: the tokens and context, nodes and ranks of
    /// earlier nodes, earlier errors, and the parent links made before; a step
    /// only reads forward, and leaves each node it created complete.
    spec fn frame(old: Core<'t>, new: Core<'t>) -> bool {
        &&& new.tokens == old.tokens
        &&& new.n == old.n
        &&& new.ctx == old.ctx
        &&& new.lo == old.lo
        &&& new.pos >= old.pos
        &&& new.ast.count() >= old.ast.count()
        &&& Ast::same_nodes(old.ast, new.ast, old.ast.count())
        &&& Errors::extends(old.errors, new.errors)
        &&& Core::parse_errors(old.errors, new.errors)
        &&& forall|p: nat|
            old.lo@ <= p < old.ast.count() ==> #[trigger] new.rank@[p] == old.rank@[p]
        &&& new.clock@ >= old.clock@
        &&& forall|c: nat| #[trigger] old.in_tree@.contains(c) ==> new.in_tree@.contains(c)
        &&& forall|c: nat|
            #[trigger] new.in_tree@.contains(c) && !old.in_tree@.contains(c) ==> old.ast.count()
                <= c
    }

    /// The errors that `new` adds to `old` are all parse errors.
    spec fn parse_errors(old: Errors, new: Errors) -> bool {
        forall|i: nat|
            old.count() <= i < new.count() ==> #[trigger] new.kind_of(i) == ErrorKind::Parse
    }

    /// Nodes `a..b` have the number of children their kinds require.
    spec fn complete(&self, a: nat, b: nat) -> bool {
        forall|p: nat|
            a <= p < b ==> arity_ok(#[trigger] self.ast.kind_of(p), self.ast.children_of(p).len())
    }

    /// A parsing step: it keeps what [`Core::frame`] keeps, and every node it
    /// created is complete.
    spec fn step(old: Core<'t>, new: Core<'t>) -> bool {
        &&& Core::frame(old, new)
        &&& new.complete(old.ast.count(), new.ast.count())
    }

    /// A step that produced node `r`: a node it created that has no parent yet.
    spec fn produced(old: Core<'t>, new: Core<'t>, r: AstId) -> bool {
        &&& old.ast.count() <= r@ < new.ast.count()
        &&& !new.in_tree@.contains(r@)
    }

    /// The budget of a step that reads an expression: it reads a token whenever
    /// one is left, gains room when it reads, and loses little when it does not.
    spec fn expr_budget(old: Core<'t>, new: Core<'t>) -> bool {
        &&& old.pos < old.n ==> new.pos > old.pos
        &&& new.pos > old.pos ==> new.room() >= old.room() + 8
        &&& new.pos == old.pos ==> new.room() >= old.room() - 2
    }

    /// The budget of a step that starts at an opening token: it reads it and
    /// gains more room.
    spec fn opener_budget(old: Core<'t>, new: Core<'t>) -> bool {
        &&& new.pos > old.pos
        &&& new.room() >= old.room() + 12
    }

    /// Past the last position, the next token is the end of the file.
    proof fn lemma_past_end(&self)
        requires
            self.inv(),
        ensures
            self.pos >= self.n ==> self.cur_kind() == TokenKind::EndOfFile,
            self.cur_kind() != TokenKind::EndOfFile ==> self.pos < self.n,
    {
        if self.pos >= self.n {
            lemma_default_token_kind(self.tokens.kinds.value_at(self.pos as nat));
        }
    }

    /// The kind of the next token.
    fn cur(&self) -> (r: TokenKind)
        requires
            self.inv(),
        ensures
            r == self.cur_kind(),
    {
        let id = TokenId::new(self.pos);
        *id.get(&self.tokens.kinds)
    }

    /// Whether the next token is the end of the file.
    fn eof(&self) -> (r: bool)
        requires
            self.inv(),
        ensures
            r == (self.cur_kind() == TokenKind::EndOfFile),
    {
        self.cur() == TokenKind::EndOfFile
    }

    /// The location of the next token.
    fn cur_loc(&self) -> (r: Option<Location>)
        requires
            self.inv(),
        ensures
            r == self.tokens.location_at(self.pos as nat),
    {
        let id = TokenId::new(self.pos);
        *id.get(&self.tokens.locations)
    }

    /// Reads the next token: moves past it unless the end was reached.
    fn eat(&mut self) -> (r: TokenKind)
        requires
            old(self).inv(),
        ensures
            final(self).inv(),
            r == old(self).cur_kind(),
            final(self).pos == if old(self).pos < old(self).n {
                old(self).pos + 1
            } else {
                old(self).pos as int
            },
            final(self).ast == old(self).ast,
            final(self).errors == old(self).errors,
            final(self).tokens == old(self).tokens,
            final(self).n == old(self).n,
            final(self).ctx == old(self).ctx,
            final(self).lo == old(self).lo,
            final(self).rank == old(self).rank,
            final(self).clock == old(self).clock,
            final(self).in_tree == old(self).in_tree,
    {
        let cur = self.cur();
        if self.pos < self.n {
            self.pos = self.pos + 1;
        }
        cur
    }

    /// Whether the next token is one of `kinds`.
    fn matches(&self, kinds: &[TokenKind]) -> (r: bool)
        requires
            self.inv(),
        ensures
            r == kinds@.contains(self.cur_kind()),
    {
        let cur = self.cur();
        let mut i: usize = 0;
        while i < kinds.len()
            invariant
                i <= kinds@.len(),
                cur == self.cur_kind(),
                forall|j: int| 0 <= j < i ==> kinds@[j] != cur,
            decreases kinds@.len() - i,
        {
            if kinds[i] == cur {
                return true;
            }
            i = i + 1;
        }
        false
    }

    /// Whether the next token is of kind `kind`.
    fn at(&self, kind: TokenKind) -> (r: bool)
        requires
            self.inv(),
        ensures
            r == (self.cur_kind() == kind),
    {
        self.cur() == kind
    }

    /// Whether the token `lookahead` places after the next one is one of `kinds`.
    fn matches_ahead(&self, kinds: &[TokenKind], lookahead: usize) -> (r: bool)
        requires
            self.inv(),
            lookahead <= 2,
        ensures
            r == kinds@.contains(self.tokens.kind_at((self.pos + lookahead) as nat)),
    {
        let id = TokenId::new(self.pos + lookahead);
        let cur = *id.get(&self.tokens.kinds);
        let mut i: usize = 0;
        while i < kinds.len()
            invariant
                i <= kinds@.len(),
                cur == self.tokens.kind_at((self.pos + lookahead) as nat),
                forall|j: int| 0 <= j < i ==> kinds@[j] != cur,
            decreases kinds@.len() - i,
        {
            if kinds[i] == cur {
                return true;
            }
            i = i + 1;
        }
        false
    }
}


/// The name of token kind `kind` in messages: the variant's own name.
pub open spec fn token_text(kind: TokenKind) -> Seq<char> {
    match kind {
        TokenKind::Newline => "Newline"@,
        TokenKind::Comma => "Comma"@,
        TokenKind::Equals => "Equals"@,
        TokenKind::ColonEquals => "ColonEquals"@,
        TokenKind::DotEquals => "DotEquals"@,
        TokenKind::EqualsEquals => "EqualsEquals"@,
        TokenKind::NotEquals => "NotEquals"@,
        TokenKind::DotDot => "DotDot"@,
        TokenKind::Dot => "Dot"@,
        TokenKind::Colon => "Colon"@,
        TokenKind::DollarSign => "DollarSign"@,
        TokenKind::ColonColon => "ColonColon"@,
        TokenKind::Semicolon => "Semicolon"@,
        TokenKind::Ampersand => "Ampersand"@,
        TokenKind::QuestionMark => "QuestionMark"@,
        TokenKind::LeftArrow => "LeftArrow"@,
        TokenKind::RightArrow => "RightArrow"@,
        TokenKind::Bar => "Bar"@,
        TokenKind::Plus => "Plus"@,
        TokenKind::PlusPlus => "PlusPlus"@,
        TokenKind::Minus => "Minus"@,
        TokenKind::MinusMinus => "MinusMinus"@,
        TokenKind::Times => "Times"@,
        TokenKind::TimesTimes => "TimesTimes"@,
        TokenKind::Divide => "Divide"@,
        TokenKind::DivideDivide => "DivideDivide"@,
        TokenKind::LShift => "LShift"@,
        TokenKind::RShift => "RShift"@,
        TokenKind::Percent => "Percent"@,
        TokenKind::LParen => "LParen"@,
        TokenKind::RParen => "RParen"@,
        TokenKind::LCurl => "LCurl"@,
        TokenKind::RCurl => "RCurl"@,
        TokenKind::LSquare => "LSquare"@,
        TokenKind::RSquare => "RSquare"@,
        TokenKind::LAngle => "LAngle"@,
        TokenKind::RAngle => "RAngle"@,
        TokenKind::LAngleEquals => "LAngleEquals"@,
        TokenKind::RAngleEquals => "RAngleEquals"@,
        TokenKind::Integer => "Integer"@,
        TokenKind::Float => "Float"@,
        TokenKind::Underscore => "Underscore"@,
        TokenKind::UIdent => "UIdent"@,
        TokenKind::LIdent => "LIdent"@,
        TokenKind::String => "String"@,
        TokenKind::Character => "Character"@,
        TokenKind::Unknown => "Unknown"@,
        TokenKind::EndOfFile => "EndOfFile"@,
    }
}

/// The name of a token kind, as it appears in messages.
pub fn token_name(kind: TokenKind) -> (r: &'static str)
    ensures
        r@ == token_text(kind),
{
    match kind {
        TokenKind::Newline => "Newline",
        TokenKind::Comma => "Comma",
        TokenKind::Equals => "Equals",
        TokenKind::ColonEquals => "ColonEquals",
        TokenKind::DotEquals => "DotEquals",
        TokenKind::EqualsEquals => "EqualsEquals",
        TokenKind::NotEquals => "NotEquals",
        TokenKind::DotDot => "DotDot",
        TokenKind::Dot => "Dot",
        TokenKind::Colon => "Colon",
        TokenKind::DollarSign => "DollarSign",
        TokenKind::ColonColon => "ColonColon",
        TokenKind::Semicolon => "Semicolon",
        TokenKind::Ampersand => "Ampersand",
        TokenKind::QuestionMark => "QuestionMark",
        TokenKind::LeftArrow => "LeftArrow",
        TokenKind::RightArrow => "RightArrow",
        TokenKind::Bar => "Bar",
        TokenKind::Plus => "Plus",
        TokenKind::PlusPlus => "PlusPlus",
        TokenKind::Minus => "Minus",
        TokenKind::MinusMinus => "MinusMinus",
        TokenKind::Times => "Times",
        TokenKind::TimesTimes => "TimesTimes",
        TokenKind::Divide => "Divide",
        TokenKind::DivideDivide => "DivideDivide",
        TokenKind::LShift => "LShift",
        TokenKind::RShift => "RShift",
        TokenKind::Percent => "Percent",
        TokenKind::LParen => "LParen",
        TokenKind::RParen => "RParen",
        TokenKind::LCurl => "LCurl",
        TokenKind::RCurl => "RCurl",
        TokenKind::LSquare => "LSquare",
        TokenKind::RSquare => "RSquare",
        TokenKind::LAngle => "LAngle",
        TokenKind::RAngle => "RAngle",
        TokenKind::LAngleEquals => "LAngleEquals",
        TokenKind::RAngleEquals => "RAngleEquals",
        TokenKind::Integer => "Integer",
        TokenKind::Float => "Float",
        TokenKind::Underscore => "Underscore",
        TokenKind::UIdent => "UIdent",
        TokenKind::LIdent => "LIdent",
        TokenKind::String => "String",
        TokenKind::Character => "Character",
        TokenKind::Unknown => "Unknown",
        TokenKind::EndOfFile => "EndOfFile",
    }
}

impl<'t> Core<'t> {
    /// Everything but the errors is kept; one parse error was added.
    spec fn logged_one(old: Core<'t>, new: Core<'t>) -> bool {
        &&& new.tokens == old.tokens
        &&& new.pos == old.pos
        &&& new.n == old.n
        &&& new.ast == old.ast
        &&& new.ctx == old.ctx
        &&& new.lo == old.lo
        &&& new.rank == old.rank
        &&& new.clock == old.clock
        &&& new.in_tree == old.in_tree
        &&& Errors::extends(old.errors, new.errors)
        &&& new.errors.count() == old.errors.count() + 1
        &&& new.errors.kind_of(old.errors.count()) == ErrorKind::Parse
    }

    /// A step that read `s`: it ends where `s` ends, node `r` reads as the tree
    /// of `s` among the nodes the step created, and it logged the errors of `s`.
    spec fn reads(old: Core<'t>, new: Core<'t>, r: AstId, s: Reading) -> bool {
        &&& new.pos == s.end
        &&& shows(new.ast, new.rank@, r@, s.tree, old.ast.count(), new.ast.count())
        &&& logged_errs(old.errors, new.errors, s.errs)
    }

    /// A tree read from nodes `a..b` of this parse keeps reading so when every
    /// existing node but `x` keeps its data and rank, and `x` is outside the
    /// range or ranked above the tree's root.
    proof fn lemma_kept(s: Core<'t>, s2: Core<'t>, x: nat, id: nat, t: SyntaxTree, a: nat, b: nat)
        requires
            shows(s.ast, s.rank@, id, t, a, b),
            s.lo@ <= a,
            b <= s.ast.count(),
            s2.inv(),
            s2.lo == s.lo,
            s2.ast.count() >= s.ast.count(),
            forall|j: nat|
                j < s.ast.count() && j != x ==> #[trigger] s2.ast.kind_of(j) == s.ast.kind_of(j)
                    && s2.ast.children_of(j) == s.ast.children_of(j) && s2.ast.location_of(j)
                    == s.ast.location_of(j),
            forall|p: nat| s.lo@ <= p < s.ast.count() && p != x ==> #[trigger] s2.rank@[p] == s.rank@[p],
            a <= x < b ==> s.rank@.dom().contains(x) && s.rank@[id] < s.rank@[x],
        ensures
            shows(s2.ast, s2.rank@, id, t, a, b),
    {
        assert forall|p: nat| a <= p < b && p != x && #[trigger] s.rank@.dom().contains(p) implies s2.rank@.dom().contains(p)
            && s2.rank@[p] == s.rank@[p] by {
            assert(s2.rank@[p] == s.rank@[p]);
        }
        assert forall|p: nat| a <= p < b && p != x implies #[trigger] s2.ast.kind_of(p) == s.ast.kind_of(p)
            && s2.ast.children_of(p) == s.ast.children_of(p) && s2.ast.location_of(p)
            == s.ast.location_of(p) by {
            assert(s2.ast.kind_of(p) == s.ast.kind_of(p));
        }
        lemma_shows_frame(s.ast, s.rank@, s2.ast, s2.rank@, id, t, a, b, x);
    }

    /// Node `id` of this parse reads as `t` when its kind, location and number
    /// of children match and each child reads as the matching subtree.
    proof fn lemma_node_shows(s: Core<'t>, id: nat, t: SyntaxTree, lo: nat)
        requires
            s.inv(),
            s.lo@ <= lo <= id < s.ast.count(),
            s.ast.kind_of(id) == t.kind,
            s.ast.location_of(id) == t.loc,
            s.ast.children_of(id).len() == t.children.len(),
            forall|k: int|
                0 <= k < t.children.len() ==> shows(
                    s.ast,
                    s.rank@,
                    (#[trigger] s.ast.children_of(id)[k])@,
                    t.children[k],
                    lo,
                    s.ast.count(),
                ),
        ensures
            shows(s.ast, s.rank@, id, t, lo, s.ast.count()),
    {
        assert(s.rank@.dom().contains(id));
        assert(s.edges_ok(id));
        assert forall|k: int| 0 <= k < t.children.len() implies {
            let c = (#[trigger] s.ast.children_of(id)[k])@;
            &&& s.rank@.dom().contains(c)
            &&& s.rank@[c] < s.rank@[id]
            &&& shows(s.ast, s.rank@, c, t.children[k], lo, s.ast.count())
        } by {
            let c = s.ast.children_of(id)[k]@;
            assert(s.rank@.dom().contains(c));
        }
        lemma_shows_node(s.ast, s.rank@, id, t, lo, s.ast.count());
    }

    /// Every node of `s` but `x` keeps its data and rank in `t`, a later state.
    spec fn keeps(s: Core<'t>, t: Core<'t>, x: nat) -> bool {
        &&& t.inv()
        &&& t.lo == s.lo
        &&& t.tokens == s.tokens
        &&& t.n == s.n
        &&& t.ast.count() >= s.ast.count()
        &&& forall|j: nat|
            j < s.ast.count() && j != x ==> #[trigger] t.ast.kind_of(j) == s.ast.kind_of(j)
                && t.ast.children_of(j) == s.ast.children_of(j) && t.ast.location_of(j)
                == s.ast.location_of(j)
        &&& forall|p: nat| s.lo@ <= p < s.ast.count() && p != x ==> #[trigger] t.rank@[p] == s.rank@[p]
    }

    /// Keeping through each step of a sequence of states is keeping from any
    /// state of it to any later one.
    proof fn lemma_keeps_chain(ss: Seq<Core<'t>>, x: nat)
        requires
            forall|i: int| 0 <= i < ss.len() - 1 ==> Core::keeps(#[trigger] ss[i], ss[i + 1], x),
        ensures
            forall|i: int, j: int| 0 <= i < j < ss.len() ==> Core::keeps(#[trigger] ss[i], #[trigger] ss[j], x),
        decreases ss.len(),
    {
        if ss.len() > 1 {
            let init = ss.drop_last();
            assert forall|i: int| 0 <= i < init.len() - 1 implies Core::keeps(#[trigger] init[i], init[i + 1], x) by {
                assert(init[i] == ss[i] && init[i + 1] == ss[i + 1]);
            }
            Core::lemma_keeps_chain(init, x);
            assert forall|i: int, j: int| 0 <= i < j < ss.len() implies Core::keeps(#[trigger] ss[i], #[trigger] ss[j], x) by {
                if j < ss.len() - 1 {
                    assert(init[i] == ss[i] && init[j] == ss[j]);
                } else if i < j - 1 {
                    assert(init[i] == ss[i] && init[j - 1] == ss[j - 1]);
                    assert(Core::keeps(ss[i], ss[j - 1], x));
                    Core::lemma_keeps_trans(ss[i], ss[j - 1], ss[j], x);
                }
            }
        }
    }

    /// Keeping composes.
    proof fn lemma_keeps_trans(a: Core<'t>, b: Core<'t>, c: Core<'t>, x: nat)
        requires
            Core::keeps(a, b, x),
            Core::keeps(b, c, x),
        ensures
            Core::keeps(a, c, x),
    {
        assert forall|j: nat| j < a.ast.count() && j != x implies #[trigger] c.ast.kind_of(j) == a.ast.kind_of(j)
            && c.ast.children_of(j) == a.ast.children_of(j) && c.ast.location_of(j)
            == a.ast.location_of(j) by {
            assert(b.ast.kind_of(j) == a.ast.kind_of(j));
        }
        assert forall|p: nat| a.lo@ <= p < a.ast.count() && p != x implies #[trigger] c.rank@[p] == a.rank@[p] by {
            assert(b.rank@[p] == a.rank@[p]);
        }
    }

    /// A callee's step keeps every node.
    proof fn lemma_keeps_step(s: Core<'t>, s2: Core<'t>, x: nat)
        requires
            Core::frame(s, s2),
            s2.inv(),
        ensures
            Core::keeps(s, s2, x),
    {
    }

    /// A tree read from nodes `a..b` keeps reading so through a keeping change
    /// when `x` is outside the range or ranked above the tree's root.
    proof fn lemma_keeps_shows(s: Core<'t>, t: Core<'t>, x: nat, id: nat, tree: SyntaxTree, a: nat, b: nat)
        requires
            Core::keeps(s, t, x),
            shows(s.ast, s.rank@, id, tree, a, b),
            s.lo@ <= a,
            b <= s.ast.count(),
            a <= x < b ==> s.rank@.dom().contains(x) && s.rank@[id] < s.rank@[x],
        ensures
            shows(t.ast, t.rank@, id, tree, a, b),
    {
        Core::lemma_kept(s, t, x, id, tree, a, b);
    }

    /// When node `id` keeps its children through a change that touches only it,
    /// each child keeps reading as its subtree.
    proof fn lemma_children_kept(s: Core<'t>, t: Core<'t>, id: nat, tree: SyntaxTree, a: nat, b: nat)
        requires
            shows(s.ast, s.rank@, id, tree, a, b),
            Core::keeps(s, t, id),
            s.lo@ <= a,
            b <= s.ast.count(),
            t.ast.children_of(id) == s.ast.children_of(id),
        ensures
            forall|k: int|
                0 <= k < tree.children.len() ==> shows(
                    t.ast,
                    t.rank@,
                    (#[trigger] t.ast.children_of(id)[k])@,
                    tree.children[k],
                    a,
                    b,
                ),
    {
        lemma_shows_parts(s.ast, s.rank@, id, tree, a, b);
        assert forall|k: int| 0 <= k < tree.children.len() implies shows(
            t.ast,
            t.rank@,
            (#[trigger] t.ast.children_of(id)[k])@,
            tree.children[k],
            a,
            b,
        ) by {
            let c = s.ast.children_of(id)[k]@;
            assert(t.ast.children_of(id)[k] == s.ast.children_of(id)[k]);
            Core::lemma_keeps_shows(s, t, id, c, tree.children[k], a, b);
        }
    }

    /// Reports a parse error at `location`, if there is one.
    fn error_at(&mut self, location: Option<Location>, message: String)
        requires
            old(self).inv(),
            old(self).room() >= 1,
        ensures
            final(self).inv(),
            Core::logged_one(*old(self), *final(self)),
            final(self).errors.message_of(old(self).errors.count()) == message@,
            final(self).errors.location_of(old(self).errors.count()) == location,
            final(self).room() == old(self).room() - 1,
    {
        let err = self.errors.log(ErrorKind::Parse, message);
        if let Some(location) = location {
            err.location(location);
        }
    }

    /// Reports a parse error at the next token.
    fn error(&mut self, message: String)
        requires
            old(self).inv(),
            old(self).room() >= 1,
        ensures
            final(self).inv(),
            Core::logged_one(*old(self), *final(self)),
            final(self).errors.message_of(old(self).errors.count()) == message@,
            final(self).room() == old(self).room() - 1,
            logged_errs(
                old(self).errors,
                final(self).errors,
                seq![Report { message: message@, loc: old(self).tokens.location_at(old(self).pos as nat) }],
            ),
    {
        let location = self.cur_loc();
        self.error_at(location, message);
    }

    /// Creates a node of the given kind, with no children and no location.
    fn node(&mut self, kind: AstKind) -> (r: AstId)
        requires
            old(self).inv(),
            old(self).room() >= 1,
        ensures
            final(self).inv(),
            r@ == old(self).ast.count(),
            final(self).ast.count() == old(self).ast.count() + 1,
            final(self).ast.kind_of(r@) == kind,
            final(self).ast.children_of(r@).len() == 0,
            final(self).ast.location_of(r@) is None,
            Ast::same_nodes(old(self).ast, final(self).ast, old(self).ast.count()),
            final(self).rank@ == old(self).rank@.insert(r@, old(self).clock@),
            final(self).clock@ == old(self).clock@ + 1,
            final(self).in_tree == old(self).in_tree,
            final(self).tokens == old(self).tokens,
            final(self).pos == old(self).pos,
            final(self).n == old(self).n,
            final(self).errors == old(self).errors,
            final(self).ctx == old(self).ctx,
            final(self).lo == old(self).lo,
            final(self).room() == old(self).room() - 1,
    {
        proof {
            lemma_world_space(self.ast.ids);
        }
        let id = self.ast.ids.allocate();
        let ghost old_kinds = self.ast.kinds;
        id.put(&mut self.ast.kinds, kind);
        proof {
            assert(old(self).ast.children_of(id@).len() == 0);
            assert(old(self).ast.location_of(id@) is None);
            assert forall|i: nat| i >= self.ast.count() implies (#[trigger] self.ast.children_of(i)).len() == 0
                && self.ast.location_of(i) is None by {
                assert(old(self).ast.children_of(i).len() == 0);
            }
            assert forall|j: nat| j != id@ implies self.ast.kind_of(j) == old(self).ast.kind_of(j) by {
                lemma_kind_frame(old_kinds, self.ast.kinds, id@, kind, j);
            }
            self.rank@ = self.rank@.insert(id@, self.clock@);
            self.clock@ = self.clock@ + 1;
            assert forall|p: nat|
                self.lo@ <= p < self.ast.count() implies #[trigger] self.rank@.dom().contains(p)
                && self.rank@[p] < self.clock@ && self.edges_ok(p) by {
                if p != id@ {
                    assert(old(self).rank@.dom().contains(p));
                    assert(old(self).edges_ok(p));
                    assert(self.ast.children_of(p) == old(self).ast.children_of(p));
                    assert forall|k: int| 0 <= k < self.ast.children_of(p).len() implies {
                        let c = (#[trigger] self.ast.children_of(p)[k])@;
                        &&& self.lo@ <= c < self.ast.count()
                        &&& self.rank@.dom().contains(c)
                        &&& self.rank@[c] < self.rank@[p]
                        &&& self.in_tree@.contains(c)
                    } by {
                        let c = old(self).ast.children_of(p)[k]@;
                        assert(old(self).rank@.dom().contains(c));
                    }
                } else {
                    assert(self.ast.children_of(p).len() == 0);
                }
            }
        }
        id
    }
}

impl<'t> Core<'t> {
    /// Appends `child` to the children of `id`, which has no parent yet; `id`
    /// is ranked anew above every node, and `child` now has a parent.
    fn push_child(&mut self, id: AstId, child: AstId)
        requires
            old(self).inv(),
            old(self).lo@ <= id@ < old(self).ast.count(),
            old(self).lo@ <= child@ < old(self).ast.count(),
            !old(self).in_tree@.contains(id@),
            !old(self).in_tree@.contains(child@),
            id@ != child@,
            old(self).ast.children_of(id@).len() < 4294967295,
        ensures
            final(self).inv(),
            final(self).ast.children_of(id@) == old(self).ast.children_of(id@).push(child),
            final(self).ast.count() == old(self).ast.count(),
            final(self).ast.kinds == old(self).ast.kinds,
            final(self).ast.locations == old(self).ast.locations,
            final(self).ast.idents == old(self).ast.idents,
            forall|j: nat| j != id@ ==> #[trigger] final(self).ast.children_of(j) == old(self).ast.children_of(j),
            final(self).rank@ == old(self).rank@.insert(id@, old(self).clock@),
            final(self).clock@ == old(self).clock@ + 1,
            final(self).in_tree@ == old(self).in_tree@.insert(child@),
            final(self).tokens == old(self).tokens,
            final(self).pos == old(self).pos,
            final(self).n == old(self).n,
            final(self).errors == old(self).errors,
            final(self).ctx == old(self).ctx,
            final(self).lo == old(self).lo,
            final(self).room() == old(self).room(),
    {
        let ghost old_children = self.ast.children;
        let list = id.get_mut(&mut self.ast.children);
        let ghost before = *list;
        list.push(child);
        proof {
            crate::arena::lemma_grown_to_frame(old_children, self.ast.children.slots().update(id@ as int, before), id@ + 1, id@);
            lemma_default_child_list(before);
            lemma_default_child_list(old_children.value_at(id@));
            let grown = self.ast.children.slots().update(id@ as int, before);
            assert(child_ids(before) == old(self).ast.children_of(id@));
            assert forall|j: nat| j != id@ implies #[trigger] self.ast.children_of(j) == old(self).ast.children_of(j) by {
                crate::arena::lemma_grown_to_frame(old_children, grown, id@ + 1, j);
                lemma_default_child_list(crate::arena::slot_value(grown, old_children.fallback(), j));
                lemma_default_child_list(old_children.value_at(j));
                assert(self.ast.children.value_at(j) == crate::arena::slot_value(grown, old_children.fallback(), j));
            }
            self.rank@ = self.rank@.insert(id@, self.clock@);
            self.clock@ = self.clock@ + 1;
            self.in_tree@ = self.in_tree@.insert(child@);
            assert(old(self).rank@.dom().contains(child@));
            assert(old(self).rank@.dom().contains(id@));
            assert forall|p: nat|
                self.lo@ <= p < self.ast.count() implies #[trigger] self.rank@.dom().contains(p)
                && self.rank@[p] < self.clock@ && self.edges_ok(p) by {
                assert(old(self).rank@.dom().contains(p));
                assert(old(self).edges_ok(p));
                assert forall|k: int| 0 <= k < self.ast.children_of(p).len() implies {
                    let c = (#[trigger] self.ast.children_of(p)[k])@;
                    &&& self.lo@ <= c < self.ast.count()
                    &&& self.rank@.dom().contains(c)
                    &&& self.rank@[c] < self.rank@[p]
                    &&& self.in_tree@.contains(c)
                } by {
                    if p == id@ && k == old(self).ast.children_of(p).len() {
                        assert(self.ast.children_of(p)[k] == child);
                    } else {
                        let c = old(self).ast.children_of(p)[k]@;
                        assert(self.ast.children_of(p)[k] == old(self).ast.children_of(p)[k]);
                        assert(old(self).rank@.dom().contains(c));
                        assert(c != id@);
                    }
                }
            }
            assert forall|i: nat| i >= self.ast.count() implies (#[trigger] self.ast.children_of(i)).len() == 0
                && self.ast.location_of(i) is None by {
                assert(old(self).ast.children_of(i).len() == 0);
            }
        }
    }
}

/// The names of `kinds`, joined by ", ".
pub open spec fn joined_names(kinds: Seq<TokenKind>) -> Seq<char>
    decreases kinds.len(),
{
    if kinds.len() == 0 {
        Seq::empty()
    } else if kinds.len() == 1 {
        token_text(kinds[0])
    } else {
        joined_names(kinds.drop_last()) + ", "@ + token_text(kinds.last())
    }
}

/// The message for token kind `found` where one of `kinds` was expected: the
/// single expected kind, or all but the last joined by ", " and the last after
/// ", or ".
pub open spec fn expected_text(kinds: Seq<TokenKind>, found: TokenKind) -> Seq<char> {
    if kinds.len() == 1 {
        "Expected "@ + token_text(kinds[0]) + " but found "@ + token_text(found)
    } else {
        "Expected "@ + joined_names(kinds.drop_last()) + ", or "@ + token_text(kinds.last())
            + ", but found "@ + token_text(found)
    }
}

/// The message for a token that is not one of the expected kinds.
fn expected_message(kinds: &[TokenKind], found: TokenKind) -> (r: String)
    requires
        kinds@.len() >= 1,
    ensures
        r@ == expected_text(kinds@, found),
{
    let mut msg = "Expected ".to_owned();
    if kinds.len() == 1 {
        msg.append(token_name(kinds[0]));
        msg.append(" but found ");
        msg.append(token_name(found));
    } else {
        let last = kinds.len() - 1;
        let mut i: usize = 0;
        assert(kinds@.subrange(0, 0) =~= Seq::<TokenKind>::empty());
        assert(msg@ =~= "Expected "@ + joined_names(kinds@.subrange(0, 0)));
        while i < last
            invariant
                last == kinds@.len() - 1,
                i <= last,
                msg@ =~= "Expected "@ + joined_names(kinds@.subrange(0, i as int)),
            decreases last - i,
        {
            let ghost before = msg@;
            if i > 0 {
                msg.append(", ");
            }
            let name = token_name(kinds[i]);
            msg.append(name);
            proof {
                let next = kinds@.subrange(0, i + 1);
                assert(next.drop_last() =~= kinds@.subrange(0, i as int));
                assert(next.last() == kinds@[i as int]);
                if i == 0 {
                    assert(joined_names(next) == token_text(kinds@[0]));
                    assert(msg@ =~= "Expected "@ + joined_names(next));
                } else {
                    assert(joined_names(next) == joined_names(kinds@.subrange(0, i as int)) + ", "@
                        + token_text(kinds@[i as int]));
                    assert(msg@ =~= "Expected "@ + joined_names(next));
                }
            }
            i = i + 1;
        }
        assert(kinds@.subrange(0, last as int) =~= kinds@.drop_last());
        msg.append(", or ");
        msg.append(token_name(kinds[last]));
        msg.append(", but found ");
        msg.append(token_name(found));
        assert(msg@ =~= expected_text(kinds@, found));
    }
    msg
}

impl<'t> Core<'t> {
    /// A node keeps its edges fine when its children, the node count, the ranks
    /// and the parent links stay as they were.
    proof fn lemma_edges_same(old: Core<'t>, new: Core<'t>, p: nat)
        requires
            old.edges_ok(p),
            new.ast.children_of(p) == old.ast.children_of(p),
            new.ast.count() >= old.ast.count(),
            new.lo == old.lo,
            new.rank == old.rank,
            new.in_tree == old.in_tree,
        ensures
            new.edges_ok(p),
    {
        assert forall|k: int| 0 <= k < new.ast.children_of(p).len() implies {
            let c = (#[trigger] new.ast.children_of(p)[k])@;
            &&& new.lo@ <= c < new.ast.count()
            &&& new.rank@.dom().contains(c)
            &&& new.rank@[c] < new.rank@[p]
            &&& new.in_tree@.contains(c)
        } by {
            assert(old.ast.children_of(p)[k] == new.ast.children_of(p)[k]);
        }
    }

    /// Everything but the tree's kinds is kept.
    spec fn kind_changed(old: Core<'t>, new: Core<'t>, id: nat, kind: AstKind) -> bool {
        &&& new.ast.kind_of(id) == kind
        &&& forall|j: nat| j != id ==> #[trigger] new.ast.kind_of(j) == old.ast.kind_of(j)
        &&& new.ast.ids == old.ast.ids
        &&& new.ast.children == old.ast.children
        &&& new.ast.locations == old.ast.locations
        &&& new.ast.idents == old.ast.idents
        &&& new.tokens == old.tokens
        &&& new.pos == old.pos
        &&& new.n == old.n
        &&& new.errors == old.errors
        &&& new.ctx == old.ctx
        &&& new.lo == old.lo
        &&& new.rank == old.rank
        &&& new.clock == old.clock
        &&& new.in_tree == old.in_tree
    }

    /// Changes the kind of node `id`.
    fn set_kind(&mut self, id: AstId, kind: AstKind)
        requires
            old(self).inv(),
            id@ < old(self).ast.count(),
        ensures
            final(self).inv(),
            Core::kind_changed(*old(self), *final(self), id@, kind),
            final(self).room() == old(self).room(),
    {
        let ghost old_kinds = self.ast.kinds;
        id.put(&mut self.ast.kinds, kind);
        proof {
            assert forall|j: nat| j != id@ implies #[trigger] self.ast.kind_of(j) == old(self).ast.kind_of(j) by {
                lemma_kind_frame(old_kinds, self.ast.kinds, id@, kind, j);
            }
            assert forall|p: nat|
                self.lo@ <= p < self.ast.count() implies #[trigger] self.rank@.dom().contains(p)
                && self.rank@[p] < self.clock@ && self.edges_ok(p) by {
                assert(old(self).rank@.dom().contains(p));
                Core::lemma_edges_same(*old(self), *self, p);
            }
            assert forall|i: nat| i >= self.ast.count() implies (#[trigger] self.ast.children_of(i)).len() == 0
                && self.ast.location_of(i) is None by {
                assert(old(self).ast.children_of(i).len() == 0);
            }
        }
    }

    /// The number of children of node `id`.
    fn num_children(&self, id: AstId) -> (r: usize)
        requires
            self.inv(),
        ensures
            r == self.ast.children_of(id@).len(),
    {
        id.get(&self.ast.children).len()
    }

    /// Merges `cur_loc` into the location of node `id`.
    fn merge_loc(&mut self, id: AstId, cur_loc: Option<Location>)
        requires
            old(self).inv(),
            id@ < old(self).ast.count(),
        ensures
            final(self).inv(),
            final(self).ast.location_of(id@) == merged(old(self).ast.location_of(id@), cur_loc),
            forall|j: nat| j != id@ ==> #[trigger] final(self).ast.location_of(j) == old(self).ast.location_of(j),
            final(self).ast.ids == old(self).ast.ids,
            final(self).ast.kinds == old(self).ast.kinds,
            final(self).ast.children == old(self).ast.children,
            final(self).ast.idents == old(self).ast.idents,
            final(self).tokens == old(self).tokens,
            final(self).pos == old(self).pos,
            final(self).n == old(self).n,
            final(self).errors == old(self).errors,
            final(self).ctx == old(self).ctx,
            final(self).lo == old(self).lo,
            final(self).rank == old(self).rank,
            final(self).clock == old(self).clock,
            final(self).in_tree == old(self).in_tree,
            final(self).room() == old(self).room(),
    {
        let ghost old_locations = self.ast.locations;
        let loc = id.get_mut(&mut self.ast.locations);
        let ghost before = *loc;
        *loc = Location::merge(loc, &cur_loc);
        proof {
            let grown = self.ast.locations.slots().update(id@ as int, before);
            crate::arena::lemma_grown_to_frame(old_locations, grown, id@ + 1, id@);
            crate::arena::lemma_default_option(before);
            crate::arena::lemma_default_option(old_locations.value_at(id@));
            assert forall|j: nat| j != id@ implies #[trigger] self.ast.location_of(j) == old(self).ast.location_of(j) by {
                crate::arena::lemma_grown_to_frame(old_locations, grown, id@ + 1, j);
                crate::arena::lemma_default_option(crate::arena::slot_value(grown, old_locations.fallback(), j));
                crate::arena::lemma_default_option(old_locations.value_at(j));
                assert(self.ast.locations.value_at(j) == crate::arena::slot_value(grown, old_locations.fallback(), j));
            }
            assert forall|p: nat|
                self.lo@ <= p < self.ast.count() implies #[trigger] self.rank@.dom().contains(p)
                && self.rank@[p] < self.clock@ && self.edges_ok(p) by {
                assert(old(self).rank@.dom().contains(p));
                Core::lemma_edges_same(*old(self), *self, p);
            }
            assert forall|i: nat| i >= self.ast.count() implies (#[trigger] self.ast.children_of(i)).len() == 0
                && self.ast.location_of(i) is None by {
                assert(old(self).ast.children_of(i).len() == 0);
            }
        }
    }

    /// Reads the next token if it is one of `kinds`; otherwise reports what was
    /// expected and reads nothing.
    fn try_eat(&mut self, kinds: &[TokenKind]) -> (r: Option<TokenKind>)
        requires
            old(self).inv(),
            old(self).room() >= 1,
            kinds@.len() >= 1,
        ensures
            final(self).inv(),
            kinds@.contains(old(self).cur_kind()) ==> {
                &&& r == Some(old(self).cur_kind())
                &&& final(self).pos == if old(self).pos < old(self).n {
                    old(self).pos + 1
                } else {
                    old(self).pos as int
                }
                &&& final(self).ast == old(self).ast
                &&& final(self).errors == old(self).errors
                &&& final(self).tokens == old(self).tokens
                &&& final(self).n == old(self).n
                &&& final(self).ctx == old(self).ctx
                &&& final(self).lo == old(self).lo
                &&& final(self).rank == old(self).rank
                &&& final(self).clock == old(self).clock
                &&& final(self).in_tree == old(self).in_tree
            },
            !kinds@.contains(old(self).cur_kind()) ==> {
                &&& r is None
                &&& Core::logged_one(*old(self), *final(self))
                &&& final(self).errors.message_of(old(self).errors.count()) == expected_text(kinds@, old(self).cur_kind())
                &&& final(self).room() == old(self).room() - 1
            },
            final(self).pos == expect(*old(self).tokens, kinds@, old(self).pos as nat).0,
            logged_errs(old(self).errors, final(self).errors, expect(*old(self).tokens, kinds@, old(self).pos as nat).1),
    {
        if self.matches(kinds) {
            return Some(self.eat());
        }
        let found = self.cur();
        let msg = expected_message(kinds, found);
        self.error(msg);
        None
    }

    /// Reads every next token that is one of `kinds`, and returns how many.
    fn eat_many(&mut self, kinds: &[TokenKind]) -> (r: usize)
        requires
            old(self).inv(),
            !kinds@.contains(TokenKind::EndOfFile),
        ensures
            final(self).inv(),
            final(self).pos >= old(self).pos,
            final(self).pos == skip_all(*old(self).tokens, kinds@, old(self).pos as nat),
            !kinds@.contains(final(self).cur_kind()),
            final(self).ast == old(self).ast,
            final(self).errors == old(self).errors,
            final(self).tokens == old(self).tokens,
            final(self).n == old(self).n,
            final(self).ctx == old(self).ctx,
            final(self).lo == old(self).lo,
            final(self).rank == old(self).rank,
            final(self).clock == old(self).clock,
            final(self).in_tree == old(self).in_tree,
    {
        let mut count: usize = 0;
        loop
            invariant
                self.inv(),
                !kinds@.contains(TokenKind::EndOfFile),
                self.pos >= old(self).pos,
                skip_all(*self.tokens, kinds@, self.pos as nat) == skip_all(*old(self).tokens, kinds@, old(self).pos as nat),
                count <= self.pos - old(self).pos,
                self.ast == old(self).ast,
                self.errors == old(self).errors,
                self.tokens == old(self).tokens,
                self.n == old(self).n,
                self.ctx == old(self).ctx,
                self.lo == old(self).lo,
                self.rank == old(self).rank,
                self.clock == old(self).clock,
                self.in_tree == old(self).in_tree,
            ensures
                self.inv(),
                self.pos >= old(self).pos,
                self.pos == skip_all(*old(self).tokens, kinds@, old(self).pos as nat),
                !kinds@.contains(self.cur_kind()),
                self.ast == old(self).ast,
                self.errors == old(self).errors,
                self.tokens == old(self).tokens,
                self.n == old(self).n,
                self.ctx == old(self).ctx,
                self.lo == old(self).lo,
                self.rank == old(self).rank,
                self.clock == old(self).clock,
                self.in_tree == old(self).in_tree,
            decreases self.n - self.pos,
        {
            if !self.matches(kinds) {
                break;
            }
            proof {
                self.lemma_past_end();
            }
            self.eat();
            count = count + 1;
        }
        count
    }
}

impl<'t> Core<'t> {
    /// Steps compose.
    proof fn lemma_step_trans(a: Core<'t>, b: Core<'t>, c: Core<'t>)
        requires
            Core::step(a, b),
            Core::step(b, c),
        ensures
            Core::step(a, c),
    {
        assert forall|p: nat| a.ast.count() <= p < c.ast.count() implies arity_ok(
            #[trigger] c.ast.kind_of(p),
            c.ast.children_of(p).len(),
        ) by {
            if p < b.ast.count() {
                assert(arity_ok(b.ast.kind_of(p), b.ast.children_of(p).len()));
                assert(c.ast.kind_of(p) == b.ast.kind_of(p));
            }
        }
        assert forall|p: nat| a.lo@ <= p < a.ast.count() implies #[trigger] c.rank@[p] == a.rank@[p] by {
            assert(b.rank@[p] == a.rank@[p]);
        }
        assert forall|i: nat| a.errors.count() <= i < c.errors.count() implies #[trigger] c.errors.kind_of(i)
            == ErrorKind::Parse by {
            if i < b.errors.count() {
                assert(b.errors.kind_of(i) == ErrorKind::Parse);
            }
        }
        assert forall|i: nat| i < a.errors.count() implies c.errors.kind_of(i) == a.errors.kind_of(i)
            && c.errors.message_of(i) == a.errors.message_of(i) && c.errors.location_of(i)
            == a.errors.location_of(i) && c.errors.cause_of(i) == a.errors.cause_of(i) by {
            assert(i < b.errors.count());
        }
        assert forall|i: nat| i < a.ast.count() implies #[trigger] c.ast.kind_of(i) == a.ast.kind_of(i)
            && c.ast.children_of(i) == a.ast.children_of(i) && c.ast.location_of(i)
            == a.ast.location_of(i) && c.ast.ident_of(i) == a.ast.ident_of(i) by {
            assert(b.ast.kind_of(i) == a.ast.kind_of(i));
        }
    }

    /// Stores the location of node `id`.
    fn set_location(&mut self, id: AstId, location: Option<Location>)
        requires
            old(self).inv(),
            id@ < old(self).ast.count(),
        ensures
            final(self).inv(),
            final(self).ast.location_of(id@) == location,
            forall|j: nat| j != id@ ==> #[trigger] final(self).ast.location_of(j) == old(self).ast.location_of(j),
            final(self).ast.ids == old(self).ast.ids,
            final(self).ast.kinds == old(self).ast.kinds,
            final(self).ast.children == old(self).ast.children,
            final(self).ast.idents == old(self).ast.idents,
            final(self).tokens == old(self).tokens,
            final(self).pos == old(self).pos,
            final(self).n == old(self).n,
            final(self).errors == old(self).errors,
            final(self).ctx == old(self).ctx,
            final(self).lo == old(self).lo,
            final(self).rank == old(self).rank,
            final(self).clock == old(self).clock,
            final(self).in_tree == old(self).in_tree,
            final(self).room() == old(self).room(),
    {
        let ghost old_locations = self.ast.locations;
        id.put(&mut self.ast.locations, location);
        proof {
            assert forall|j: nat| j != id@ implies #[trigger] self.ast.location_of(j) == old(self).ast.location_of(j) by {
                lemma_location_frame(old_locations, self.ast.locations, id@, location, j);
            }
            assert forall|p: nat|
                self.lo@ <= p < self.ast.count() implies #[trigger] self.rank@.dom().contains(p)
                && self.rank@[p] < self.clock@ && self.edges_ok(p) by {
                assert(old(self).rank@.dom().contains(p));
                Core::lemma_edges_same(*old(self), *self, p);
            }
            assert forall|i: nat| i >= self.ast.count() implies (#[trigger] self.ast.children_of(i)).len() == 0
                && self.ast.location_of(i) is None by {
                assert(old(self).ast.children_of(i).len() == 0);
            }
        }
    }

    /// The budget of a step that reads at most one token: it reads one whenever
    /// one is left.
    spec fn leaf_budget(old: Core<'t>, new: Core<'t>) -> bool {
        &&& old.pos < old.n ==> new.pos == old.pos + 1 && new.room() >= old.room() + 14
        &&& old.pos >= old.n ==> new.pos == old.pos && new.room() >= old.room() - 2
    }

    /// Finishes a leaf node: gives it the location of the next token, and
    /// reads that token.
    fn finish_leaf(&mut self, id: AstId)
        requires
            old(self).inv(),
            old(self).lo@ <= id@ < old(self).ast.count(),
        ensures
            final(self).inv(),
            Ast::same_nodes(old(self).ast, final(self).ast, id@),
            final(self).ast.kind_of(id@) == old(self).ast.kind_of(id@),
            final(self).ast.children_of(id@) == old(self).ast.children_of(id@),
            final(self).ast.location_of(id@) == old(self).tokens.location_at(old(self).pos as nat),
            final(self).ast.count() == old(self).ast.count(),
            forall|j: nat| j != id@ ==> #[trigger] final(self).ast.children_of(j) == old(self).ast.children_of(j)
                && final(self).ast.kind_of(j) == old(self).ast.kind_of(j),
            final(self).tokens == old(self).tokens,
            final(self).n == old(self).n,
            final(self).errors == old(self).errors,
            final(self).ctx == old(self).ctx,
            final(self).lo == old(self).lo,
            final(self).rank == old(self).rank,
            final(self).clock == old(self).clock,
            final(self).in_tree == old(self).in_tree,
            old(self).pos < old(self).n ==> final(self).pos == old(self).pos + 1 && final(self).room() == old(self).room() + 16,
            old(self).pos >= old(self).n ==> final(self).pos == old(self).pos && final(self).room() == old(self).room(),
    {
        let location = self.cur_loc();
        self.set_location(id, location);
        self.eat();
    }

    /// A leaf node: reports `message` first when `kind` is `Error`.
    fn leaf(&mut self, kind: AstKind, message: &str) -> (r: AstId)
        requires
            old(self).inv(),
            old(self).room() >= 2,
            arity_ok(kind, 0),
        ensures
            final(self).inv(),
            Core::step(*old(self), *final(self)),
            Core::produced(*old(self), *final(self), r),
            final(self).ast.count() == old(self).ast.count() + 1,
            final(self).ast.kind_of(r@) == kind,
            Core::leaf_budget(*old(self), *final(self)),
            Core::reads(*old(self), *final(self), r, read_leaf(*old(self).tokens, old(self).pos as nat, kind, message@)),
    {
        if kind == AstKind::Error {
            self.error(message.to_owned());
        }
        proof {
            if kind != AstKind::Error {
                lemma_logged_none(self.errors);
            }
        }
        let ghost mid = *self;
        let id = self.node(kind);
        self.finish_leaf(id);
        proof {
            assert forall|i: nat| i < old(self).errors.count() implies self.errors.kind_of(i) == old(self).errors.kind_of(i)
                && self.errors.message_of(i) == old(self).errors.message_of(i) && self.errors.location_of(i)
                == old(self).errors.location_of(i) && self.errors.cause_of(i) == old(self).errors.cause_of(i) by {
            }
            assert(self.ast.children_of(id@).len() == 0);
            let t = read_leaf(*old(self).tokens, old(self).pos as nat, kind, message@).tree;
            lemma_shows_leaf(self.ast, self.rank@, id@, t, old(self).ast.count(), self.ast.count());
        }
        id
    }

    /// An identifier: `_`, a lower-case or an upper-case name.
    fn parse_ident(&mut self) -> (r: AstId)
        requires
            old(self).inv(),
            old(self).room() >= 2,
        ensures
            final(self).inv(),
            Core::step(*old(self), *final(self)),
            Core::produced(*old(self), *final(self), r),
            final(self).ast.count() == old(self).ast.count() + 1,
            Core::leaf_budget(*old(self), *final(self)),
            Core::reads(*old(self), *final(self), r, read_leaf(*old(self).tokens, old(self).pos as nat, ident_kind(old(self).cur_kind()), "Expected identifier"@)),
    {
        let kind = match self.cur() {
            TokenKind::Underscore => AstKind::Void,
            TokenKind::LIdent => AstKind::VIdent,
            TokenKind::UIdent => AstKind::TIdent,
            _ => AstKind::Error,
        };
        self.leaf(kind, "Expected identifier")
    }

    /// The name after `.` in a projection: an identifier or an integer.
    fn parse_proj_name(&mut self) -> (r: AstId)
        requires
            old(self).inv(),
            old(self).room() >= 2,
        ensures
            final(self).inv(),
            Core::step(*old(self), *final(self)),
            Core::produced(*old(self), *final(self), r),
            final(self).ast.count() == old(self).ast.count() + 1,
            Core::leaf_budget(*old(self), *final(self)),
            Core::reads(*old(self), *final(self), r, read_leaf(*old(self).tokens, old(self).pos as nat, proj_kind(old(self).cur_kind()), "Expected identifier"@)),
    {
        let kind = match self.cur() {
            TokenKind::Underscore => AstKind::Void,
            TokenKind::LIdent => AstKind::VIdent,
            TokenKind::UIdent => AstKind::TIdent,
            TokenKind::Integer => AstKind::Integer,
            _ => AstKind::Error,
        };
        self.leaf(kind, "Expected identifier")
    }

    /// A literal or a name.
    fn parse_atom(&mut self) -> (r: AstId)
        requires
            old(self).inv(),
            old(self).room() >= 2,
        ensures
            final(self).inv(),
            Core::step(*old(self), *final(self)),
            Core::produced(*old(self), *final(self), r),
            final(self).ast.count() == old(self).ast.count() + 1,
            final(self).ast.kind_of(r@) != AstKind::Struct,
            Core::leaf_budget(*old(self), *final(self)),
            Core::reads(*old(self), *final(self), r, read_leaf(*old(self).tokens, old(self).pos as nat, atom_kind(old(self).cur_kind()), "Expected expression"@)),
    {
        let kind = match self.cur() {
            TokenKind::Integer => AstKind::Integer,
            TokenKind::Float => AstKind::Float,
            TokenKind::String => AstKind::String,
            TokenKind::Character => AstKind::Char,
            TokenKind::Underscore => AstKind::NoneValue,
            TokenKind::LIdent => AstKind::VIdent,
            TokenKind::UIdent => AstKind::TIdent,
            _ => AstKind::Error,
        };
        self.leaf(kind, "Expected expression")
    }
}

impl<'t> Core<'t> {
    /// The first of `kinds` whose token is the next token.
    fn match_infix(&self, kinds: &[InfixKind]) -> (r: Option<InfixKind>)
        requires
            self.inv(),
        ensures
            r matches Some(k) ==> kinds@.contains(k) && infix_token(k) == self.cur_kind(),
            r is None ==> forall|k: InfixKind| kinds@.contains(k) ==> infix_token(k) != self.cur_kind(),
            r is Some ==> self.cur_kind() != TokenKind::EndOfFile,
    {
        let mut i: usize = 0;
        while i < kinds.len()
            invariant
                self.inv(),
                i <= kinds@.len(),
                forall|j: int| 0 <= j < i ==> infix_token(#[trigger] kinds@[j]) != self.cur_kind(),
            decreases kinds@.len() - i,
        {
            let kind = kinds[i];
            if self.at(kind.tok()) {
                return Some(kind);
            }
            i = i + 1;
        }
        None
    }

    /// Nodes `a..` (all but `x`) have the number of children their kinds require.
    spec fn done_except(&self, a: nat, x: nat) -> bool {
        forall|p: nat|
            a <= p < self.ast.count() && p != x ==> arity_ok(
                #[trigger] self.ast.kind_of(p),
                self.ast.children_of(p).len(),
            )
    }

    /// A change from `s` to `s2` that only touches node `x` (a node of the
    /// current step, which started at `old`) and adds complete nodes keeps the
    /// step's frame, and leaves every node of the step but `x` complete.
    proof fn lemma_advance(old: Core<'t>, s: Core<'t>, s2: Core<'t>, x: nat)
        requires
            Core::frame(old, s),
            s.done_except(old.ast.count(), x),
            old.ast.count() <= x,
            s2.tokens == s.tokens,
            s2.n == s.n,
            s2.ctx == s.ctx,
            s2.lo == s.lo,
            s2.pos >= s.pos,
            s2.ast.count() >= s.ast.count(),
            forall|j: nat|
                j < s.ast.count() && j != x ==> #[trigger] s2.ast.kind_of(j) == s.ast.kind_of(j)
                    && s2.ast.children_of(j) == s.ast.children_of(j) && s2.ast.location_of(j)
                    == s.ast.location_of(j) && s2.ast.ident_of(j) == s.ast.ident_of(j),
            forall|p: nat|
                s2.ast.count() > p >= s.ast.count() && p != x ==> arity_ok(
                    #[trigger] s2.ast.kind_of(p),
                    s2.ast.children_of(p).len(),
                ),
            Errors::extends(s.errors, s2.errors),
            Core::parse_errors(s.errors, s2.errors),
            forall|p: nat| s.lo@ <= p < s.ast.count() && p != x ==> #[trigger] s2.rank@[p] == s.rank@[p],
            s2.clock@ >= s.clock@,
            forall|c: nat| #[trigger] s.in_tree@.contains(c) ==> s2.in_tree@.contains(c),
            forall|c: nat|
                #[trigger] s2.in_tree@.contains(c) && !s.in_tree@.contains(c) ==> old.ast.count() <= c,
        ensures
            Core::frame(old, s2),
            s2.done_except(old.ast.count(), x),
    {
        assert forall|i: nat| i < old.ast.count() implies #[trigger] s2.ast.kind_of(i) == old.ast.kind_of(i)
            && s2.ast.children_of(i) == old.ast.children_of(i) && s2.ast.location_of(i)
            == old.ast.location_of(i) && s2.ast.ident_of(i) == old.ast.ident_of(i) by {
            assert(s.ast.kind_of(i) == old.ast.kind_of(i));
        }
        assert forall|i: nat| i < old.errors.count() implies s2.errors.kind_of(i) == old.errors.kind_of(i)
            && s2.errors.message_of(i) == old.errors.message_of(i) && s2.errors.location_of(i)
            == old.errors.location_of(i) && s2.errors.cause_of(i) == old.errors.cause_of(i) by {
            assert(i < s.errors.count());
        }
        assert forall|p: nat| old.lo@ <= p < old.ast.count() implies #[trigger] s2.rank@[p] == old.rank@[p] by {
            assert(s.rank@[p] == old.rank@[p]);
        }
        assert forall|i: nat| old.errors.count() <= i < s2.errors.count() implies #[trigger] s2.errors.kind_of(i)
            == ErrorKind::Parse by {
            if i < s.errors.count() {
                assert(s.errors.kind_of(i) == ErrorKind::Parse);
            }
        }
        assert forall|p: nat|
            old.ast.count() <= p < s2.ast.count() && p != x implies arity_ok(
                #[trigger] s2.ast.kind_of(p),
                s2.ast.children_of(p).len(),
            ) by {
            if p < s.ast.count() {
                assert(arity_ok(s.ast.kind_of(p), s.ast.children_of(p).len()));
                assert(s2.ast.kind_of(p) == s.ast.kind_of(p));
            }
        }
    }

    /// A callee's step keeps the frame of the current step and completeness of
    /// its nodes but `x`, when `x` was created before the callee ran.
    proof fn lemma_after_call(old: Core<'t>, s: Core<'t>, s2: Core<'t>, x: nat)
        requires
            Core::frame(old, s),
            s.done_except(old.ast.count(), x),
            old.ast.count() <= x,
            Core::step(s, s2),
        ensures
            Core::frame(old, s2),
            s2.done_except(old.ast.count(), x),
    {
        assert forall|j: nat| j < s.ast.count() && j != x implies #[trigger] s2.ast.kind_of(j) == s.ast.kind_of(j)
            && s2.ast.children_of(j) == s.ast.children_of(j) && s2.ast.location_of(j)
            == s.ast.location_of(j) && s2.ast.ident_of(j) == s.ast.ident_of(j) by {
        }
        Core::lemma_advance(old, s, s2, x);
    }

    /// A step whose nodes are all complete once `x` is.
    proof fn lemma_finish(old: Core<'t>, s: Core<'t>, x: nat)
        requires
            Core::frame(old, s),
            s.done_except(old.ast.count(), x),
            arity_ok(s.ast.kind_of(x), s.ast.children_of(x).len()),
        ensures
            Core::step(old, s),
    {
        assert forall|p: nat| old.ast.count() <= p < s.ast.count() implies arity_ok(
            #[trigger] s.ast.kind_of(p),
            s.ast.children_of(p).len(),
        ) by {
            if p != x {
                assert(s.done_except(old.ast.count(), x));
            }
        }
    }

    /// A step leaves every node complete but any chosen one.
    proof fn lemma_step_done(old: Core<'t>, s: Core<'t>, x: nat)
        requires
            Core::step(old, s),
        ensures
            Core::frame(old, s),
            s.done_except(old.ast.count(), x),
    {
    }

    /// The invariant does not depend on the context.
    proof fn lemma_ctx_irrelevant(a: Core<'t>, b: Core<'t>)
        requires
            a.inv(),
            b.tokens == a.tokens,
            b.pos == a.pos,
            b.n == a.n,
            b.ast == a.ast,
            b.errors == a.errors,
            b.lo == a.lo,
            b.rank == a.rank,
            b.clock == a.clock,
            b.in_tree == a.in_tree,
        ensures
            b.inv(),
    {
        assert forall|p: nat| b.lo@ <= p < b.ast.count() implies #[trigger] b.rank@.dom().contains(p)
            && b.rank@[p] < b.clock@ && b.edges_ok(p) by {
            assert(a.rank@.dom().contains(p));
        }
    }

    /// A step is the frame of itself, with all nodes complete.
    proof fn lemma_start(s: Core<'t>, x: nat)
        requires
            s.inv(),
        ensures
            Core::frame(s, s),
            s.done_except(s.ast.count(), x),
    {
    }

    /// Keeps only the first `len` children of node `id`.
    fn truncate_children(&mut self, id: AstId, len: usize)
        requires
            old(self).inv(),
            id@ < old(self).ast.count(),
        ensures
            final(self).inv(),
            final(self).ast.children_of(id@) == if len < old(self).ast.children_of(id@).len() {
                old(self).ast.children_of(id@).take(len as int)
            } else {
                old(self).ast.children_of(id@)
            },
            final(self).ast.count() == old(self).ast.count(),
            final(self).ast.kinds == old(self).ast.kinds,
            final(self).ast.locations == old(self).ast.locations,
            final(self).ast.idents == old(self).ast.idents,
            forall|j: nat| j != id@ ==> #[trigger] final(self).ast.children_of(j) == old(self).ast.children_of(j),
            final(self).rank == old(self).rank,
            final(self).clock == old(self).clock,
            final(self).in_tree == old(self).in_tree,
            final(self).tokens == old(self).tokens,
            final(self).pos == old(self).pos,
            final(self).n == old(self).n,
            final(self).errors == old(self).errors,
            final(self).ctx == old(self).ctx,
            final(self).lo == old(self).lo,
            final(self).room() == old(self).room(),
    {
        let ghost old_children = self.ast.children;
        let list = id.get_mut(&mut self.ast.children);
        let ghost before = *list;
        list.truncate(len);
        proof {
            let grown = self.ast.children.slots().update(id@ as int, before);
            crate::arena::lemma_grown_to_frame(old_children, grown, id@ + 1, id@);
            lemma_default_child_list(before);
            lemma_default_child_list(old_children.value_at(id@));
            assert(child_ids(before) == old(self).ast.children_of(id@));
            assert forall|j: nat| j != id@ implies #[trigger] self.ast.children_of(j) == old(self).ast.children_of(j) by {
                crate::arena::lemma_grown_to_frame(old_children, grown, id@ + 1, j);
                lemma_default_child_list(crate::arena::slot_value(grown, old_children.fallback(), j));
                lemma_default_child_list(old_children.value_at(j));
                assert(self.ast.children.value_at(j) == crate::arena::slot_value(grown, old_children.fallback(), j));
            }
            assert forall|p: nat|
                self.lo@ <= p < self.ast.count() implies #[trigger] self.rank@.dom().contains(p)
                && self.rank@[p] < self.clock@ && self.edges_ok(p) by {
                assert(old(self).rank@.dom().contains(p));
                assert(old(self).edges_ok(p));
                assert forall|k: int| 0 <= k < self.ast.children_of(p).len() implies {
                    let c = (#[trigger] self.ast.children_of(p)[k])@;
                    &&& self.lo@ <= c < self.ast.count()
                    &&& self.rank@.dom().contains(c)
                    &&& self.rank@[c] < self.rank@[p]
                    &&& self.in_tree@.contains(c)
                } by {
                    assert(self.ast.children_of(p)[k] == old(self).ast.children_of(p)[k]);
                }
            }
            assert forall|i: nat| i >= self.ast.count() implies (#[trigger] self.ast.children_of(i)).len() == 0
                && self.ast.location_of(i) is None by {
                assert(old(self).ast.children_of(i).len() == 0);
            }
        }
    }

    /// A comma-, newline- or semicolon-separated list of elements, up to a
    /// closing bracket or the end of the file.
    #[verifier::rlimit(100)]
    fn parse_list(&mut self, kind: AstKind, elem: Element, Ghost(fuel): Ghost<nat>) -> (r: AstId)
        requires
            fuel >= old(self).need(23),
            old(self).inv(),
            old(self).room() >= 7,
            kind == AstKind::Struct || kind == AstKind::Tuple || kind == AstKind::Block || kind
                == AstKind::Array,
        ensures
            final(self).inv(),
            Core::step(*old(self), *final(self)),
            Core::produced(*old(self), *final(self), r),
            final(self).ast.kind_of(r@) == kind,
            r@ == old(self).ast.count(),
            final(self).pos >= old(self).pos,
            final(self).room() >= old(self).room() - 2,
            Core::reads(*old(self), *final(self), r, read(*old(self).tokens, old(self).ctx, Goal::List { kind, elem }, old(self).pos as nat, fuel)),
        decreases old(self).n - old(self).pos, 40nat,
    {
        proof {
            Core::lemma_start(*self, self.ast.count());
        }
        let ghost s0 = *self;
        let id = self.node(kind);
        let ghost x = id@;
        proof {
            Core::lemma_advance(*old(self), s0, *self, x);
        }
        let ghost toks = *old(self).tokens;
        let ghost ctx = old(self).ctx;
        let ghost target = read(toks, ctx, Goal::Items { elem, first: true, items: Seq::empty(), loc: None, errs: Seq::empty() }, old(self).pos as nat, (fuel - 1) as nat);
        let ghost mut g: nat = (fuel - 1) as nat;
        let ghost mut items: Seq<SyntaxTree> = Seq::empty();
        let ghost mut errs: Seq<Report> = Seq::empty();
        let closer_kinds = [TokenKind::RParen, TokenKind::RSquare, TokenKind::RCurl];
        let separator_kinds = [TokenKind::Comma, TokenKind::Newline, TokenKind::Semicolon];
        let newline = [TokenKind::Newline];
        proof {
            lemma_read_list(toks, ctx, kind, elem, old(self).pos as nat, fuel);
            assert(closer_kinds@ == closers());
            assert(separator_kinds@ == separators());
            assert(newline@ == seq![TokenKind::Newline]);
            lemma_logged_none(self.errors);
            lemma_read_items(toks, ctx, elem, true, items, self.ast.location_of(x), errs, self.pos as nat, g);
        }
        let mut first = true;
        while !self.eof() && !self.matches(&closer_kinds)
            invariant_except_break
                g >= self.need(22),
                read(toks, ctx, Goal::Items { elem, first, items, loc: self.ast.location_of(x), errs }, self.pos as nat, g) == target,
                toks.kind_at(self.pos as nat) == TokenKind::EndOfFile || closers().contains(toks.kind_at(self.pos as nat))
                    ==> target == (Reading {
                    tree: SyntaxTree { kind: AstKind::Error, loc: self.ast.location_of(x), children: items },
                    end: self.pos as nat,
                    errs,
                }),
            invariant
                self.inv(),
                Core::frame(*old(self), *self),
                self.done_except(old(self).ast.count(), x),
                x == id@,
                id@ == old(self).ast.count(),
                !self.in_tree@.contains(id@),
                self.ast.kind_of(id@) == kind,
                self.ast.children_of(id@).len() + id@ + 1 <= self.ast.count(),
                self.room() >= old(self).room() - 2,
                old(self).room() >= 7,
                self.lo@ <= old(self).ast.count(),
                self.pos >= old(self).pos,
                kind == AstKind::Struct || kind == AstKind::Tuple || kind == AstKind::Block || kind
                    == AstKind::Array,
                toks == *old(self).tokens,
                ctx == old(self).ctx,
                closer_kinds@ == closers(),
                separator_kinds@ == separators(),
                newline@ == seq![TokenKind::Newline],
                self.ast.children_of(x).len() == items.len(),
                forall|k: int|
                    0 <= k < items.len() ==> shows(
                        self.ast,
                        self.rank@,
                        (#[trigger] self.ast.children_of(x)[k])@,
                        items[k],
                        old(self).ast.count(),
                        self.ast.count(),
                    ),
                logged_errs(old(self).errors, self.errors, errs),
            ensures
                self.inv(),
                Core::frame(*old(self), *self),
                self.done_except(old(self).ast.count(), x),
                !self.in_tree@.contains(id@),
                self.ast.kind_of(id@) == kind,
                self.room() >= old(self).room() - 2,
                self.pos >= old(self).pos,
                target == (Reading {
                    tree: SyntaxTree { kind: AstKind::Error, loc: self.ast.location_of(x), children: items },
                    end: self.pos as nat,
                    errs,
                }),
                self.ast.children_of(x).len() == items.len(),
                forall|k: int|
                    0 <= k < items.len() ==> shows(
                        self.ast,
                        self.rank@,
                        (#[trigger] self.ast.children_of(x)[k])@,
                        items[k],
                        old(self).ast.count(),
                        self.ast.count(),
                    ),
                logged_errs(old(self).errors, self.errors, errs),
            decreases self.n - self.pos,
        {
            let ghost sq = *self;
            proof {
                lemma_read_items(toks, ctx, elem, first, items, self.ast.location_of(x), errs, self.pos as nat, g);
            }
            if !first {
                let loc = self.cur_loc();
                let ghost sa = *self;
                self.merge_loc(id, loc);
                proof {
                    Core::lemma_advance(*old(self), sa, *self, x);
                }
                let ghost sb = *self;
                self.try_eat(&separator_kinds);
                proof {
                    Core::lemma_advance(*old(self), sb, *self, x);
                    assert(Core::keeps(sq, sb, x));
                    assert(Core::keeps(sb, *self, x));
                    Core::lemma_keeps_trans(sq, sb, *self, x);
                }
            } else {
                proof {
                    assert(Core::keeps(sq, *self, x));
                    lemma_logged_concat(old(self).errors, self.errors, self.errors, errs, Seq::empty());
                    assert(errs + Seq::<Report>::empty() == errs);
                }
            }
            let ghost sc = *self;
            let ghost errs1 = if first {
                errs
            } else {
                errs + expect(toks, separators(), sq.pos as nat).1
            };
            proof {
                if !first {
                    lemma_logged_concat(old(self).errors, sq.errors, self.errors, errs, expect(toks, separators(), sq.pos as nat).1);
                }
            }
            self.eat_many(&newline);
            proof {
                Core::lemma_advance(*old(self), sc, *self, x);
                assert(Core::keeps(sc, *self, x));
                Core::lemma_keeps_trans(sq, sc, *self, x);
            }
            if self.eof() || self.matches(&closer_kinds) {
                proof {
                    assert forall|k: int| 0 <= k < items.len() implies shows(
                        self.ast,
                        self.rank@,
                        (#[trigger] self.ast.children_of(x)[k])@,
                        items[k],
                        old(self).ast.count(),
                        self.ast.count(),
                    ) by {
                        let c = sq.ast.children_of(x)[k];
                        assert(self.ast.children_of(x)[k] == c);
                        assert(sq.rank@.dom().contains(x));
                        assert(sq.edges_ok(x));
                        Core::lemma_keeps_shows(sq, *self, x, c@, items[k], old(self).ast.count(), sq.ast.count());
                    }
                }
                break;
            }
            proof {
                self.lemma_past_end();
            }
            let ghost sd = *self;
            let child = self.parse_element(elem, Ghost((g - 1) as nat));
            let ghost re = read(toks, ctx, Goal::Elem { elem }, sd.pos as nat, (g - 1) as nat);
            proof {
                Core::lemma_after_call(*old(self), sd, *self, x);
            }
            let ghost se = *self;
            self.push_child(id, child);
            proof {
                Core::lemma_advance(*old(self), se, *self, x);
                Core::lemma_keeps_step(sd, se, x);
                assert(Core::keeps(se, *self, x));
                Core::lemma_keeps_trans(sd, se, *self, x);
                Core::lemma_keeps_trans(sq, sd, *self, x);
                assert forall|k: int| 0 <= k < items.len() + 1 implies shows(
                    self.ast,
                    self.rank@,
                    (#[trigger] self.ast.children_of(x)[k])@,
                    items.push(re.tree)[k],
                    old(self).ast.count(),
                    self.ast.count(),
                ) by {
                    if k < items.len() {
                        let c = sq.ast.children_of(x)[k];
                        assert(self.ast.children_of(x)[k] == c);
                        assert(sq.rank@.dom().contains(x));
                        assert(sq.edges_ok(x));
                        Core::lemma_keeps_shows(sq, *self, x, c@, items[k], old(self).ast.count(), sq.ast.count());
                        lemma_shows_widen(self.ast, self.rank@, c@, items[k], old(self).ast.count(), sq.ast.count(), old(self).ast.count(), self.ast.count());
                    } else {
                        assert(self.ast.children_of(x)[k] == child);
                        Core::lemma_keeps_shows(se, *self, x, child@, re.tree, sd.ast.count(), se.ast.count());
                        lemma_shows_widen(self.ast, self.rank@, child@, re.tree, sd.ast.count(), se.ast.count(), old(self).ast.count(), self.ast.count());
                    }
                }
                lemma_logged_concat(old(self).errors, sd.errors, se.errors, errs1, re.errs);
                items = items.push(re.tree);
                errs = errs1 + re.errs;
                g = (g - 1) as nat;
                lemma_read_items(toks, ctx, elem, false, items, self.ast.location_of(x), errs, self.pos as nat, g);
            }
            first = false;
        }
        proof {
            Core::lemma_finish(*old(self), *self, x);
            let rl = read(toks, ctx, Goal::List { kind, elem }, old(self).pos as nat, fuel);
            Core::lemma_node_shows(*self, x, rl.tree, old(self).ast.count());
        }
        id
    }

    /// One element of a list.
    fn parse_element(&mut self, elem: Element, Ghost(fuel): Ghost<nat>) -> (r: AstId)
        requires
            fuel >= old(self).need(21),
            old(self).inv(),
            old(self).room() >= 4,
            old(self).pos < old(self).n,
        ensures
            final(self).inv(),
            Core::step(*old(self), *final(self)),
            Core::produced(*old(self), *final(self), r),
            final(self).pos > old(self).pos,
            final(self).room() >= old(self).room() + 8,
            Core::reads(*old(self), *final(self), r, read(*old(self).tokens, old(self).ctx, Goal::Elem { elem }, old(self).pos as nat, fuel)),
        decreases old(self).n - old(self).pos, 39nat,
    {
        proof {
            lemma_read_elem(*self.tokens, self.ctx, elem, self.pos as nat, fuel);
        }
        match elem {
            Element::Field => self.parse_field(Ghost((fuel - 1) as nat)),
            Element::Stmt => self.parse_stmt(Ghost((fuel - 1) as nat)),
            Element::Arg => self.parse_arg(Ghost((fuel - 1) as nat)),
            Element::Expr => self.parse_expr(Ghost((fuel - 1) as nat)),
        }
    }

    /// A field: a name and the expression that defines it.
    fn parse_field(&mut self, Ghost(fuel): Ghost<nat>) -> (r: AstId)
        requires
            fuel >= old(self).need(20),
            old(self).inv(),
            old(self).room() >= 4,
            old(self).pos < old(self).n,
        ensures
            final(self).inv(),
            Core::step(*old(self), *final(self)),
            Core::produced(*old(self), *final(self), r),
            Core::expr_budget(*old(self), *final(self)),
            Core::reads(*old(self), *final(self), r, read(*old(self).tokens, old(self).ctx, Goal::Field, old(self).pos as nat, fuel)),
        decreases old(self).n - old(self).pos, 38nat,
    {
        let kind = if self.cur() == TokenKind::UIdent {
            AstKind::TField
        } else {
            AstKind::VField
        };
        proof {
            Core::lemma_start(*self, self.ast.count());
        }
        let ghost s0 = *self;
        let id = self.node(kind);
        let ghost x = id@;
        proof {
            Core::lemma_advance(*old(self), s0, *self, x);
        }
        let ghost s1 = *self;
        let ident = self.parse_ident();
        proof {
            Core::lemma_after_call(*old(self), s1, *self, x);
        }
        let ghost s2 = *self;
        let expr = self.parse_expr(Ghost((fuel - 1) as nat));
        proof {
            Core::lemma_after_call(*old(self), s2, *self, x);
        }
        let ghost s3 = *self;
        self.push_child(id, ident);
        proof {
            Core::lemma_advance(*old(self), s3, *self, x);
        }
        let ghost s4 = *self;
        self.push_child(id, expr);
        proof {
            Core::lemma_advance(*old(self), s4, *self, x);
            Core::lemma_finish(*old(self), *self, x);
            let toks = *old(self).tokens;
            lemma_read_field(toks, old(self).ctx, old(self).pos as nat, fuel);
            let ri = read_leaf(toks, s1.pos as nat, ident_kind(s1.cur_kind()), "Expected identifier"@);
            let re = read(toks, old(self).ctx, Goal::Expr, s2.pos as nat, (fuel - 1) as nat);
            assert(Core::keeps(s3, s4, x));
            assert(Core::keeps(s4, *self, x));
            Core::lemma_keeps_step(s2, s3, x);
            Core::lemma_keeps_trans(s3, s4, *self, x);
            Core::lemma_keeps_trans(s2, s3, *self, x);
            Core::lemma_keeps_shows(s2, *self, x, ident@, ri.tree, s1.ast.count(), s2.ast.count());
            Core::lemma_keeps_shows(s3, *self, x, expr@, re.tree, s2.ast.count(), s3.ast.count());
            lemma_shows_widen(self.ast, self.rank@, ident@, ri.tree, s1.ast.count(), s2.ast.count(), old(self).ast.count(), self.ast.count());
            lemma_shows_widen(self.ast, self.rank@, expr@, re.tree, s2.ast.count(), s3.ast.count(), old(self).ast.count(), self.ast.count());
            let rf = read(toks, old(self).ctx, Goal::Field, old(self).pos as nat, fuel);
            assert(self.ast.children_of(x) == seq![ident, expr]);
            assert(rf.tree.children == seq![ri.tree, re.tree]);
            Core::lemma_node_shows(*self, x, rf.tree, old(self).ast.count());
            lemma_logged_concat(s1.errors, s2.errors, s3.errors, ri.errs, re.errs);
        }
        id
    }

    /// A statement: an expression, or a binding or assignment of one.
    fn parse_stmt(&mut self, Ghost(fuel): Ghost<nat>) -> (r: AstId)
        requires
            fuel >= old(self).need(20),
            old(self).inv(),
            old(self).room() >= 4,
        ensures
            final(self).inv(),
            Core::step(*old(self), *final(self)),
            Core::produced(*old(self), *final(self), r),
            Core::expr_budget(*old(self), *final(self)),
            Core::reads(*old(self), *final(self), r, read(*old(self).tokens, old(self).ctx, Goal::Stmt, old(self).pos as nat, fuel)),
        decreases old(self).n - old(self).pos, 38nat,
    {
        let toks = Ghost(*self.tokens);
        proof {
            lemma_read_stmt(toks@, self.ctx, self.pos as nat, fuel);
        }
        let lhs = self.parse_expr(Ghost((fuel - 1) as nat));
        let ghost s1 = *self;
        if self.matches(&[TokenKind::Equals, TokenKind::ColonEquals, TokenKind::DotEquals]) {
            let kind = match self.try_eat(&[TokenKind::Equals, TokenKind::ColonEquals, TokenKind::DotEquals]) {
                Some(TokenKind::Equals) => AstKind::Bind,
                Some(TokenKind::ColonEquals) => AstKind::BindMut,
                _ => AstKind::Assign,
            };
            let ghost s2 = *self;
            let id = self.node(kind);
            let ghost x = id@;
            let ghost s3 = *self;
            proof {
                self.lemma_past_end();
            }
            let rhs = self.parse_expr(Ghost((fuel - 1) as nat));
            let ghost s4 = *self;
            self.push_child(id, lhs);
            let ghost s5 = *self;
            self.push_child(id, rhs);
            proof {
                let rl = read(toks@, old(self).ctx, Goal::Expr, old(self).pos as nat, (fuel - 1) as nat);
                let rr = read(toks@, old(self).ctx, Goal::Expr, s3.pos as nat, (fuel - 1) as nat);
                assert(Core::keeps(s1, s2, x));
                assert(Core::keeps(s2, s3, x));
                Core::lemma_keeps_step(s3, s4, x);
                assert(Core::keeps(s4, s5, x));
                assert(Core::keeps(s5, *self, x));
                Core::lemma_keeps_trans(s4, s5, *self, x);
                Core::lemma_keeps_trans(s3, s4, *self, x);
                Core::lemma_keeps_trans(s2, s3, *self, x);
                Core::lemma_keeps_trans(s1, s2, *self, x);
                Core::lemma_keeps_shows(s1, *self, x, lhs@, rl.tree, old(self).ast.count(), s1.ast.count());
                Core::lemma_keeps_shows(s4, *self, x, rhs@, rr.tree, s3.ast.count(), s4.ast.count());
                lemma_shows_widen(self.ast, self.rank@, lhs@, rl.tree, old(self).ast.count(), s1.ast.count(), old(self).ast.count(), self.ast.count());
                lemma_shows_widen(self.ast, self.rank@, rhs@, rr.tree, s3.ast.count(), s4.ast.count(), old(self).ast.count(), self.ast.count());
                let rs = read(toks@, old(self).ctx, Goal::Stmt, old(self).pos as nat, fuel);
                assert(self.ast.children_of(x) == seq![lhs, rhs]);
                assert(rs.tree.children == seq![rl.tree, rr.tree]);
                Core::lemma_node_shows(*self, x, rs.tree, old(self).ast.count());
                lemma_logged_concat(old(self).errors, s3.errors, s4.errors, rl.errs, rr.errs);
            }
            return id;
        }
        lhs
    }

    /// A call argument: an expression, or a name `=` an expression.
    fn parse_arg(&mut self, Ghost(fuel): Ghost<nat>) -> (r: AstId)
        requires
            fuel >= old(self).need(20),
            old(self).inv(),
            old(self).room() >= 4,
        ensures
            final(self).inv(),
            Core::step(*old(self), *final(self)),
            Core::produced(*old(self), *final(self), r),
            Core::expr_budget(*old(self), *final(self)),
            Core::reads(*old(self), *final(self), r, read(*old(self).tokens, old(self).ctx, Goal::Arg, old(self).pos as nat, fuel)),
        decreases old(self).n - old(self).pos, 38nat,
    {
        let toks = Ghost(*self.tokens);
        proof {
            lemma_read_arg(toks@, self.ctx, self.pos as nat, fuel);
        }
        if self.matches_ahead(&[TokenKind::Equals], 1) {
            let id = self.node(AstKind::Arg);
            let ghost x = id@;
            let ghost s1 = *self;
            let ident = self.parse_ident();
            let ghost s2 = *self;
            self.eat();
            let ghost s3 = *self;
            let expr = self.parse_expr(Ghost((fuel - 1) as nat));
            let ghost s4 = *self;
            self.push_child(id, ident);
            let ghost s5 = *self;
            self.push_child(id, expr);
            proof {
                let ri = read_leaf(toks@, s1.pos as nat, ident_kind(s1.cur_kind()), "Expected identifier"@);
                let re = read(toks@, old(self).ctx, Goal::Expr, s3.pos as nat, (fuel - 1) as nat);
                assert(Core::keeps(s2, s3, x));
                Core::lemma_keeps_step(s3, s4, x);
                assert(Core::keeps(s4, s5, x));
                assert(Core::keeps(s5, *self, x));
                Core::lemma_keeps_trans(s4, s5, *self, x);
                Core::lemma_keeps_trans(s3, s4, *self, x);
                Core::lemma_keeps_trans(s2, s3, *self, x);
                Core::lemma_keeps_shows(s2, *self, x, ident@, ri.tree, s1.ast.count(), s2.ast.count());
                Core::lemma_keeps_shows(s4, *self, x, expr@, re.tree, s3.ast.count(), s4.ast.count());
                lemma_shows_widen(self.ast, self.rank@, ident@, ri.tree, s1.ast.count(), s2.ast.count(), old(self).ast.count(), self.ast.count());
                lemma_shows_widen(self.ast, self.rank@, expr@, re.tree, s3.ast.count(), s4.ast.count(), old(self).ast.count(), self.ast.count());
                let ra = read(toks@, old(self).ctx, Goal::Arg, old(self).pos as nat, fuel);
                assert(self.ast.children_of(x) == seq![ident, expr]);
                assert(ra.tree.children == seq![ri.tree, re.tree]);
                Core::lemma_node_shows(*self, x, ra.tree, old(self).ast.count());
                lemma_logged_concat(s1.errors, s3.errors, s4.errors, ri.errs, re.errs);
            }
            return id;
        }
        self.parse_expr(Ghost((fuel - 1) as nat))
    }

    /// An expression.
    fn parse_expr(&mut self, Ghost(fuel): Ghost<nat>) -> (r: AstId)
        requires
            fuel >= old(self).need(19),
            old(self).inv(),
            old(self).room() >= 4,
        ensures
            final(self).inv(),
            Core::step(*old(self), *final(self)),
            Core::produced(*old(self), *final(self), r),
            Core::expr_budget(*old(self), *final(self)),
            Core::reads(*old(self), *final(self), r, read(*old(self).tokens, old(self).ctx, Goal::Expr, old(self).pos as nat, fuel)),
        decreases old(self).n - old(self).pos, 30nat,
    {
        let add: [InfixKind; 2] = [InfixKind::Add, InfixKind::Sub];
        let mul: [InfixKind; 2] = [InfixKind::Mul, InfixKind::Div];
        let order: [InfixKind; 4] = [InfixKind::Gt, InfixKind::Lt, InfixKind::Ge, InfixKind::Le];
        let eq: [InfixKind; 2] = [InfixKind::Eq, InfixKind::Ne];
        let groups = [
            PrattGroup::left(&add),
            PrattGroup::left(&mul),
            PrattGroup::left(&order),
            PrattGroup::left(&eq),
        ];
        proof {
            lemma_read_expr(*self.tokens, self.ctx, self.pos as nat, fuel);
            assert(add@ == seq![InfixKind::Add, InfixKind::Sub]);
            assert(mul@ == seq![InfixKind::Mul, InfixKind::Div]);
            assert(order@ == seq![InfixKind::Gt, InfixKind::Lt, InfixKind::Ge, InfixKind::Le]);
            assert(eq@ == seq![InfixKind::Eq, InfixKind::Ne]);
            assert(groups_view(groups@) == expr_groups());
        }
        self.parse_pratt(&groups, Ghost((fuel - 1) as nat))
    }

    /// An expression over the operator groups `groups`, loosest first.
    fn parse_pratt(&mut self, groups: &[PrattGroup], Ghost(fuel): Ghost<nat>) -> (r: AstId)
        requires
            fuel >= old(self).need(6 + 3 * groups@.len()),
            old(self).inv(),
            old(self).room() >= 4,
            groups@.len() <= 8,
        ensures
            final(self).inv(),
            Core::step(*old(self), *final(self)),
            Core::produced(*old(self), *final(self), r),
            Core::expr_budget(*old(self), *final(self)),
            Core::reads(*old(self), *final(self), r, read(*old(self).tokens, old(self).ctx, Goal::Pratt { groups: groups_view(groups@) }, old(self).pos as nat, fuel)),
        decreases old(self).n - old(self).pos, 2 * groups@.len() + 12,
    {
        proof {
            lemma_read_pratt(*self.tokens, self.ctx, groups_view(groups@), self.pos as nat, fuel);
        }
        if groups.len() == 0 {
            return self.parse_base_expr(Ghost((fuel - 1) as nat));
        }
        let group = &groups[0];
        let next = &groups[1..groups.len()];
        proof {
            assert(groups_view(next@) =~= groups_view(groups@).subrange(1, groups@.len() as int));
            assert(groups_view(groups@)[0] == (group.kinds@, group.assoc));
        }
        match group.assoc {
            Assoc::Left => self.parse_left_recursive_expr(group.kinds, next, Ghost((fuel - 1) as nat)),
            Assoc::Right => self.parse_right_recursive_expr(group.kinds, next, Ghost((fuel - 1) as nat)),
        }
    }

    /// Operands over `next_groups` joined by the left-associative operators `kinds`.
    #[verifier::rlimit(60)]
    fn parse_left_recursive_expr(&mut self, kinds: &[InfixKind], next_groups: &[PrattGroup], Ghost(fuel): Ghost<nat>) -> (r: AstId)
        requires
            fuel >= old(self).need(8 + 3 * next_groups@.len()),
            old(self).inv(),
            old(self).room() >= 4,
            next_groups@.len() <= 7,
        ensures
            final(self).inv(),
            Core::step(*old(self), *final(self)),
            Core::produced(*old(self), *final(self), r),
            Core::expr_budget(*old(self), *final(self)),
            Core::reads(*old(self), *final(self), r, read(*old(self).tokens, old(self).ctx, Goal::Left { kinds: kinds@, next: groups_view(next_groups@) }, old(self).pos as nat, fuel)),
        decreases old(self).n - old(self).pos, 2 * next_groups@.len() + 13,
    {
        let ghost toks = *old(self).tokens;
        let ghost ctx = old(self).ctx;
        let ghost next_view = groups_view(next_groups@);
        let ghost target = read(toks, ctx, Goal::Left { kinds: kinds@, next: next_view }, old(self).pos as nat, fuel);
        let mut id = self.parse_pratt(next_groups, Ghost((fuel - 1) as nat));
        let ghost first = read(toks, ctx, Goal::Pratt { groups: next_view }, old(self).pos as nat, (fuel - 1) as nat);
        let ghost mut g: nat = (fuel - 1) as nat;
        let ghost mut acc: SyntaxTree = first.tree;
        let ghost mut errs: Seq<Report> = first.errs;
        proof {
            lemma_read_left(toks, ctx, kinds@, next_view, old(self).pos as nat, fuel);
        }
        loop
            invariant
                self.inv(),
                Core::step(*old(self), *self),
                Core::produced(*old(self), *self, id),
                Core::expr_budget(*old(self), *self),
                next_groups@.len() <= 7,
                old(self).room() >= 4,
                self.lo@ <= old(self).ast.count(),
                toks == *old(self).tokens,
                ctx == old(self).ctx,
                next_view == groups_view(next_groups@),
                g >= self.need(7 + 3 * next_groups@.len()),
                read(toks, ctx, Goal::LeftRest { kinds: kinds@, next: next_view, acc, errs }, self.pos as nat, g) == target,
                shows(self.ast, self.rank@, id@, acc, old(self).ast.count(), self.ast.count()),
                logged_errs(old(self).errors, self.errors, errs),
            ensures
                self.inv(),
                Core::step(*old(self), *self),
                Core::produced(*old(self), *self, id),
                Core::expr_budget(*old(self), *self),
                target == (Reading { tree: acc, end: self.pos as nat, errs }),
                shows(self.ast, self.rank@, id@, acc, old(self).ast.count(), self.ast.count()),
                logged_errs(old(self).errors, self.errors, errs),
            decreases self.n - self.pos,
        {
            let ghost sq = *self;
            let kind = match self.match_infix(kinds) {
                Some(kind) => kind,
                None => {
                    proof {
                        lemma_first_infix_none(kinds@, self.cur_kind());
                        lemma_read_left_rest(toks, ctx, kinds@, next_view, acc, errs, self.pos as nat, g);
                    }
                    break;
                },
            };
            proof {
                self.lemma_past_end();
                lemma_first_infix(kinds@, self.cur_kind(), kind);
                lemma_read_left_rest(toks, ctx, kinds@, next_view, acc, errs, self.pos as nat, g);
            }
            let ghost s0 = *self;
            self.eat();
            let ghost s1 = *self;
            let infix = self.node(kind.ast());
            let ghost x = infix@;
            proof {
                Core::lemma_step_done(*old(self), s0, x);
                Core::lemma_advance(*old(self), s0, s1, x);
                Core::lemma_advance(*old(self), s1, *self, x);
            }
            let ghost s2 = *self;
            let next = self.parse_pratt(next_groups, Ghost((g - 1) as nat));
            proof {
                Core::lemma_after_call(*old(self), s2, *self, x);
            }
            let ghost s3 = *self;
            self.push_child(infix, id);
            proof {
                Core::lemma_advance(*old(self), s3, *self, x);
            }
            let ghost s4 = *self;
            self.push_child(infix, next);
            proof {
                Core::lemma_advance(*old(self), s4, *self, x);
                Core::lemma_finish(*old(self), *self, x);
                let rn = read(toks, ctx, Goal::Pratt { groups: next_view }, s2.pos as nat, (g - 1) as nat);
                let joined = SyntaxTree { kind: AstKind::Infix(kind), loc: None, children: seq![acc, rn.tree] };
                assert(Core::keeps(sq, s1, x));
                assert(Core::keeps(s1, s2, x));
                Core::lemma_keeps_step(s2, s3, x);
                assert(Core::keeps(s3, s4, x));
                assert(Core::keeps(s4, *self, x));
                let ss = seq![sq, s1, s2, s3, s4, *self];
                Core::lemma_keeps_chain(ss, x);
                assert(ss[0] == sq && ss[3] == s3 && ss[5] == *self);
                Core::lemma_keeps_shows(sq, *self, x, id@, acc, old(self).ast.count(), sq.ast.count());
                Core::lemma_keeps_shows(s3, *self, x, next@, rn.tree, s2.ast.count(), s3.ast.count());
                lemma_shows_widen(self.ast, self.rank@, id@, acc, old(self).ast.count(), sq.ast.count(), old(self).ast.count(), self.ast.count());
                lemma_shows_widen(self.ast, self.rank@, next@, rn.tree, s2.ast.count(), s3.ast.count(), old(self).ast.count(), self.ast.count());
                assert(self.ast.children_of(x) == seq![id, next]);
                Core::lemma_node_shows(*self, x, joined, old(self).ast.count());
                lemma_logged_concat(old(self).errors, s2.errors, s3.errors, errs, rn.errs);
                acc = joined;
                errs = errs + rn.errs;
                g = (g - 1) as nat;
            }
            id = infix;
        }
        id
    }

    /// Operands over `next_groups` joined by the right-associative operators `kinds`.
    fn parse_right_recursive_expr(&mut self, kinds: &[InfixKind], next_groups: &[PrattGroup], Ghost(fuel): Ghost<nat>) -> (r: AstId)
        requires
            fuel >= old(self).need(8 + 3 * next_groups@.len()),
            old(self).inv(),
            old(self).room() >= 4,
            next_groups@.len() <= 7,
        ensures
            final(self).inv(),
            Core::step(*old(self), *final(self)),
            Core::produced(*old(self), *final(self), r),
            Core::expr_budget(*old(self), *final(self)),
            Core::reads(*old(self), *final(self), r, read(*old(self).tokens, old(self).ctx, Goal::Right { kinds: kinds@, next: groups_view(next_groups@) }, old(self).pos as nat, fuel)),
        decreases old(self).n - old(self).pos, 2 * next_groups@.len() + 13,
    {
        let ghost toks = *old(self).tokens;
        let ghost ctx = old(self).ctx;
        let ghost next_view = groups_view(next_groups@);
        proof {
            lemma_read_right(toks, ctx, kinds@, next_view, old(self).pos as nat, fuel);
        }
        let id = self.parse_pratt(next_groups, Ghost((fuel - 1) as nat));
        let ghost sl = *self;
        let ghost rl = read(toks, ctx, Goal::Pratt { groups: next_view }, old(self).pos as nat, (fuel - 1) as nat);
        match self.match_infix(kinds) {
            Some(kind) => {
                proof {
                    self.lemma_past_end();
                    lemma_first_infix(kinds@, self.cur_kind(), kind);
                }
                let ghost s0 = *self;
                self.eat();
                let ghost s1 = *self;
                let infix = self.node(kind.ast());
                let ghost x = infix@;
                proof {
                    Core::lemma_step_done(*old(self), s0, x);
                    Core::lemma_advance(*old(self), s0, s1, x);
                    Core::lemma_advance(*old(self), s1, *self, x);
                }
                let ghost s2 = *self;
                let next = self.parse_right_recursive_expr(kinds, next_groups, Ghost((fuel - 1) as nat));
                proof {
                    Core::lemma_after_call(*old(self), s2, *self, x);
                }
                let ghost s3 = *self;
                self.push_child(infix, id);
                proof {
                    Core::lemma_advance(*old(self), s3, *self, x);
                }
                let ghost s4 = *self;
                self.push_child(infix, next);
                proof {
                    Core::lemma_advance(*old(self), s4, *self, x);
                    Core::lemma_finish(*old(self), *self, x);
                    let rr = read(toks, ctx, Goal::Right { kinds: kinds@, next: next_view }, s2.pos as nat, (fuel - 1) as nat);
                    assert(Core::keeps(sl, s1, x));
                    assert(Core::keeps(s1, s2, x));
                    Core::lemma_keeps_step(s2, s3, x);
                    assert(Core::keeps(s3, s4, x));
                    assert(Core::keeps(s4, *self, x));
                    let ss = seq![sl, s1, s2, s3, s4, *self];
                    Core::lemma_keeps_chain(ss, x);
                    assert(ss[0] == sl && ss[3] == s3 && ss[5] == *self);
                    Core::lemma_keeps_shows(sl, *self, x, id@, rl.tree, old(self).ast.count(), sl.ast.count());
                    Core::lemma_keeps_shows(s3, *self, x, next@, rr.tree, s2.ast.count(), s3.ast.count());
                    lemma_shows_widen(self.ast, self.rank@, id@, rl.tree, old(self).ast.count(), sl.ast.count(), old(self).ast.count(), self.ast.count());
                    lemma_shows_widen(self.ast, self.rank@, next@, rr.tree, s2.ast.count(), s3.ast.count(), old(self).ast.count(), self.ast.count());
                    let ro = read(toks, ctx, Goal::Right { kinds: kinds@, next: next_view }, old(self).pos as nat, fuel);
                    assert(self.ast.children_of(x) == seq![id, next]);
                    assert(ro.tree.children == seq![rl.tree, rr.tree]);
                    Core::lemma_node_shows(*self, x, ro.tree, old(self).ast.count());
                    lemma_logged_concat(old(self).errors, s2.errors, s3.errors, rl.errs, rr.errs);
                }
                infix
            },
            None => {
                proof {
                    lemma_first_infix_none(kinds@, self.cur_kind());
                }
                id
            },
        }
    }

    /// A primary expression followed by any number of calls, indexings,
    /// projections, method calls, optionals and, after a struct, a body.
    #[verifier::rlimit(100)]
    fn parse_base_expr(&mut self, Ghost(fuel): Ghost<nat>) -> (r: AstId)
        requires
            fuel >= old(self).need(5),
            old(self).inv(),
            old(self).room() >= 4,
        ensures
            final(self).inv(),
            Core::step(*old(self), *final(self)),
            Core::produced(*old(self), *final(self), r),
            Core::expr_budget(*old(self), *final(self)),
            Core::reads(*old(self), *final(self), r, read(*old(self).tokens, old(self).ctx, Goal::Base, old(self).pos as nat, fuel)),
        decreases old(self).n - old(self).pos, 11nat,
    {
        let ghost toks = *old(self).tokens;
        let ghost ctx = old(self).ctx;
        let ghost p0 = old(self).pos as nat;
        let ghost target = read(toks, ctx, Goal::Base, p0, fuel);
        let cur = self.cur();
        let ghost first = if cur == TokenKind::QuestionMark {
            read(toks, ctx, Goal::IfForm, p0, (fuel - 1) as nat)
        } else if cur == TokenKind::LParen && ctx == ParserCtx::Type {
            read(toks, ctx, Goal::StructForm, p0, (fuel - 1) as nat)
        } else if cur == TokenKind::LParen {
            read(toks, ctx, Goal::TupleForm, p0, (fuel - 1) as nat)
        } else if cur == TokenKind::LSquare {
            read(toks, ctx, Goal::ArrayForm, p0, (fuel - 1) as nat)
        } else if cur == TokenKind::LCurl {
            read(toks, ctx, Goal::BlockForm, p0, (fuel - 1) as nat)
        } else {
            read_leaf(toks, p0, atom_kind(cur), "Expected expression"@)
        };
        proof {
            lemma_read_base(toks, ctx, p0, fuel);
        }
        let mut base = if cur == TokenKind::QuestionMark {
            self.parse_if(Ghost((fuel - 1) as nat))
        } else if cur == TokenKind::LParen && self.ctx == ParserCtx::Type {
            self.parse_struct(Ghost((fuel - 1) as nat))
        } else if cur == TokenKind::LParen {
            self.parse_tuple(Ghost((fuel - 1) as nat))
        } else if cur == TokenKind::LSquare {
            self.parse_array(Ghost((fuel - 1) as nat))
        } else if cur == TokenKind::LCurl {
            self.parse_block(Ghost((fuel - 1) as nat))
        } else {
            self.parse_atom()
        };
        let ghost mut g: nat = (fuel - 1) as nat;
        let ghost mut tree: SyntaxTree = first.tree;
        let ghost mut errs: Seq<Report> = first.errs;
        let enders = [
            TokenKind::Newline,
            TokenKind::Comma,
            TokenKind::RParen,
            TokenKind::RCurl,
            TokenKind::RSquare,
            TokenKind::EndOfFile,
            TokenKind::QuestionMark,
        ];
        let struct_ends = [
            TokenKind::Newline,
            TokenKind::Comma,
            TokenKind::RParen,
            TokenKind::RCurl,
            TokenKind::RSquare,
        ];
        let names = [TokenKind::LIdent, TokenKind::UIdent];
        let paren = [TokenKind::LParen];
        proof {
            assert(enders@ == optional_enders());
            assert(struct_ends@ == struct_enders());
            lemma_shows_parts(self.ast, self.rank@, base@, tree, old(self).ast.count(), self.ast.count());
        }
        loop
            invariant
                self.inv(),
                Core::step(*old(self), *self),
                Core::produced(*old(self), *self, base),
                old(self).room() >= 4,
                self.lo@ <= old(self).ast.count(),
                self.pos >= old(self).pos,
                self.pos == old(self).pos ==> old(self).pos >= old(self).n && self.room() >= old(
                    self,
                ).room() - 2 && self.ast.kind_of(base@) != AstKind::Struct,
                self.pos > old(self).pos ==> self.room() >= old(self).room() + 8 + if self.ast.kind_of(
                    base@,
                ) == AstKind::Struct {
                    4int
                } else {
                    0int
                },
                toks == *old(self).tokens,
                ctx == old(self).ctx,
                p0 == old(self).pos,
                enders@ == optional_enders(),
                struct_ends@ == struct_enders(),
                names@ == seq![TokenKind::LIdent, TokenKind::UIdent],
                paren@ == seq![TokenKind::LParen],
                self.pos > old(self).pos ==> g >= 128 * (self.n + 1 - self.pos) + 40 + if tree.kind == AstKind::Struct {
                    1int
                } else {
                    0int
                },
                g >= 1,
                read(toks, ctx, Goal::Postfix { p0, base: tree, errs }, self.pos as nat, g) == target,
                shows(self.ast, self.rank@, base@, tree, old(self).ast.count(), self.ast.count()),
                self.ast.kind_of(base@) == tree.kind,
                logged_errs(old(self).errors, self.errors, errs),
            ensures
                self.inv(),
                Core::step(*old(self), *self),
                Core::produced(*old(self), *self, base),
                self.pos >= old(self).pos,
                self.pos == old(self).pos ==> old(self).pos >= old(self).n && self.room() >= old(
                    self,
                ).room() - 2,
                self.pos > old(self).pos ==> self.room() >= old(self).room() + 8,
                target == (Reading { tree, end: self.pos as nat, errs }),
                shows(self.ast, self.rank@, base@, tree, old(self).ast.count(), self.ast.count()),
                logged_errs(old(self).errors, self.errors, errs),
            decreases 2 * (self.n - self.pos) + if self.ast.kind_of(base@) == AstKind::Struct {
                1int
            } else {
                0int
            },
        {
            proof {
                self.lemma_past_end();
            }
            let ghost s0 = *self;
            let ghost q = self.pos as nat;
            if self.at(TokenKind::LParen) {
                proof {
                    lemma_read_postfix_call(toks, ctx, p0, tree, errs, q, g);
                }
                let id = self.node(AstKind::Call);
                let ghost x = id@;
                proof {
                    Core::lemma_step_done(*old(self), s0, x);
                    Core::lemma_advance(*old(self), s0, *self, x);
                }
                let ghost s1 = *self;
                let args = self.parse_tuple(Ghost((g - 1) as nat));
                proof {
                    Core::lemma_after_call(*old(self), s1, *self, x);
                }
                let ghost s2 = *self;
                self.push_child(id, base);
                proof {
                    Core::lemma_advance(*old(self), s2, *self, x);
                }
                let ghost s3 = *self;
                self.push_child(id, args);
                proof {
                    Core::lemma_advance(*old(self), s3, *self, x);
                    Core::lemma_finish(*old(self), *self, x);
                    let ra = read(toks, ctx, Goal::TupleForm, q, (g - 1) as nat);
                    let t2 = SyntaxTree { kind: AstKind::Call, loc: None, children: seq![tree, ra.tree] };
                    assert(Core::keeps(s0, s1, x));
                    Core::lemma_keeps_step(s1, s2, x);
                    assert(Core::keeps(s2, s3, x));
                    assert(Core::keeps(s3, *self, x));
                    let ss = seq![s0, s1, s2, s3, *self];
                    Core::lemma_keeps_chain(ss, x);
                    assert(ss[0] == s0 && ss[2] == s2 && ss[4] == *self);
                    Core::lemma_keeps_shows(s0, *self, x, base@, tree, old(self).ast.count(), s0.ast.count());
                    Core::lemma_keeps_shows(s2, *self, x, args@, ra.tree, s1.ast.count(), s2.ast.count());
                    lemma_shows_widen(self.ast, self.rank@, base@, tree, old(self).ast.count(), s0.ast.count(), old(self).ast.count(), self.ast.count());
                    lemma_shows_widen(self.ast, self.rank@, args@, ra.tree, s1.ast.count(), s2.ast.count(), old(self).ast.count(), self.ast.count());
                    assert(self.ast.children_of(x) == seq![base, args]);
                    Core::lemma_node_shows(*self, x, t2, old(self).ast.count());
                    lemma_logged_concat(old(self).errors, s1.errors, s2.errors, errs, ra.errs);
                    tree = t2;
                    errs = errs + ra.errs;
                    g = (g - 1) as nat;
                }
                base = id;
                continue;
            }
            if self.at(TokenKind::LSquare) {
                proof {
                    lemma_read_postfix_index(toks, ctx, p0, tree, errs, q, g);
                }
                let id = self.node(AstKind::Index);
                let ghost x = id@;
                proof {
                    Core::lemma_step_done(*old(self), s0, x);
                    Core::lemma_advance(*old(self), s0, *self, x);
                }
                let ghost s1 = *self;
                let args = self.parse_index(Ghost((g - 1) as nat));
                proof {
                    Core::lemma_after_call(*old(self), s1, *self, x);
                }
                let ghost s2 = *self;
                self.push_child(id, base);
                proof {
                    Core::lemma_advance(*old(self), s2, *self, x);
                }
                let ghost s3 = *self;
                self.push_child(id, args);
                proof {
                    Core::lemma_advance(*old(self), s3, *self, x);
                    Core::lemma_finish(*old(self), *self, x);
                    let ra = read(toks, ctx, Goal::IndexForm, q, (g - 1) as nat);
                    let t2 = SyntaxTree { kind: AstKind::Index, loc: None, children: seq![tree, ra.tree] };
                    assert(Core::keeps(s0, s1, x));
                    Core::lemma_keeps_step(s1, s2, x);
                    assert(Core::keeps(s2, s3, x));
                    assert(Core::keeps(s3, *self, x));
                    let ss = seq![s0, s1, s2, s3, *self];
                    Core::lemma_keeps_chain(ss, x);
                    assert(ss[0] == s0 && ss[2] == s2 && ss[4] == *self);
                    Core::lemma_keeps_shows(s0, *self, x, base@, tree, old(self).ast.count(), s0.ast.count());
                    Core::lemma_keeps_shows(s2, *self, x, args@, ra.tree, s1.ast.count(), s2.ast.count());
                    lemma_shows_widen(self.ast, self.rank@, base@, tree, old(self).ast.count(), s0.ast.count(), old(self).ast.count(), self.ast.count());
                    lemma_shows_widen(self.ast, self.rank@, args@, ra.tree, s1.ast.count(), s2.ast.count(), old(self).ast.count(), self.ast.count());
                    assert(self.ast.children_of(x) == seq![base, args]);
                    Core::lemma_node_shows(*self, x, t2, old(self).ast.count());
                    lemma_logged_concat(old(self).errors, s1.errors, s2.errors, errs, ra.errs);
                    tree = t2;
                    errs = errs + ra.errs;
                    g = (g - 1) as nat;
                }
                base = id;
                continue;
            }
            if self.at(TokenKind::Dot) {
                proof {
                    lemma_read_postfix_proj(toks, ctx, p0, tree, errs, q, g);
                }
                let id = self.node(AstKind::Proj);
                let ghost x = id@;
                proof {
                    Core::lemma_step_done(*old(self), s0, x);
                    Core::lemma_advance(*old(self), s0, *self, x);
                }
                let ghost s1 = *self;
                self.eat();
                proof {
                    Core::lemma_advance(*old(self), s1, *self, x);
                }
                let ghost s2 = *self;
                let ident = self.parse_proj_name();
                proof {
                    Core::lemma_after_call(*old(self), s2, *self, x);
                }
                let ghost s3 = *self;
                self.push_child(id, base);
                proof {
                    Core::lemma_advance(*old(self), s3, *self, x);
                }
                let ghost s4 = *self;
                self.push_child(id, ident);
                proof {
                    Core::lemma_advance(*old(self), s4, *self, x);
                    Core::lemma_finish(*old(self), *self, x);
                    let rn = read_leaf(toks, s2.pos as nat, proj_kind(s2.cur_kind()), "Expected identifier"@);
                    let t2 = SyntaxTree { kind: AstKind::Proj, loc: None, children: seq![tree, rn.tree] };
                    assert(Core::keeps(s0, s1, x));
                    assert(Core::keeps(s1, s2, x));
                    Core::lemma_keeps_step(s2, s3, x);
                    assert(Core::keeps(s3, s4, x));
                    assert(Core::keeps(s4, *self, x));
                    let ss = seq![s0, s1, s2, s3, s4, *self];
                    Core::lemma_keeps_chain(ss, x);
                    assert(ss[0] == s0 && ss[3] == s3 && ss[5] == *self);
                    Core::lemma_keeps_shows(s0, *self, x, base@, tree, old(self).ast.count(), s0.ast.count());
                    Core::lemma_keeps_shows(s3, *self, x, ident@, rn.tree, s2.ast.count(), s3.ast.count());
                    lemma_shows_widen(self.ast, self.rank@, base@, tree, old(self).ast.count(), s0.ast.count(), old(self).ast.count(), self.ast.count());
                    lemma_shows_widen(self.ast, self.rank@, ident@, rn.tree, s2.ast.count(), s3.ast.count(), old(self).ast.count(), self.ast.count());
                    assert(self.ast.children_of(x) == seq![base, ident]);
                    Core::lemma_node_shows(*self, x, t2, old(self).ast.count());
                    lemma_logged_concat(old(self).errors, s2.errors, s3.errors, errs, rn.errs);
                    tree = t2;
                    errs = errs + rn.errs;
                    g = (g - 1) as nat;
                }
                base = id;
                continue;
            }
            if self.at(TokenKind::Colon) && self.matches_ahead(&names, 1) && self.matches_ahead(&paren, 2) {
                proof {
                    lemma_read_postfix_method(toks, ctx, p0, tree, errs, q, g);
                }
                let id = self.node(AstKind::Method);
                let ghost x = id@;
                proof {
                    Core::lemma_step_done(*old(self), s0, x);
                    Core::lemma_advance(*old(self), s0, *self, x);
                }
                let ghost s1 = *self;
                self.eat();
                proof {
                    Core::lemma_advance(*old(self), s1, *self, x);
                    self.lemma_past_end();
                }
                let ghost s2 = *self;
                let ident = self.parse_ident();
                proof {
                    Core::lemma_after_call(*old(self), s2, *self, x);
                }
                let ghost s3 = *self;
                let args = self.parse_tuple(Ghost((g - 1) as nat));
                proof {
                    Core::lemma_after_call(*old(self), s3, *self, x);
                }
                let ghost s4 = *self;
                self.push_child(id, base);
                proof {
                    Core::lemma_advance(*old(self), s4, *self, x);
                }
                let ghost s5 = *self;
                self.push_child(id, ident);
                proof {
                    Core::lemma_advance(*old(self), s5, *self, x);
                }
                let ghost s6 = *self;
                self.push_child(id, args);
                proof {
                    Core::lemma_advance(*old(self), s6, *self, x);
                    Core::lemma_finish(*old(self), *self, x);
                    let rn = read_leaf(toks, s2.pos as nat, ident_kind(s2.cur_kind()), "Expected identifier"@);
                    let ra = read(toks, ctx, Goal::TupleForm, s3.pos as nat, (g - 1) as nat);
                    let t2 = SyntaxTree { kind: AstKind::Method, loc: None, children: seq![tree, rn.tree, ra.tree] };
                    assert(Core::keeps(s0, s1, x));
                    assert(Core::keeps(s1, s2, x));
                    Core::lemma_keeps_step(s2, s3, x);
                    Core::lemma_keeps_step(s3, s4, x);
                    assert(Core::keeps(s4, s5, x));
                    assert(Core::keeps(s5, s6, x));
                    assert(Core::keeps(s6, *self, x));
                    let ss = seq![s0, s1, s2, s3, s4, s5, s6, *self];
                    Core::lemma_keeps_chain(ss, x);
                    assert(ss[0] == s0 && ss[3] == s3 && ss[4] == s4 && ss[7] == *self);
                    Core::lemma_keeps_shows(s0, *self, x, base@, tree, old(self).ast.count(), s0.ast.count());
                    Core::lemma_keeps_shows(s3, *self, x, ident@, rn.tree, s2.ast.count(), s3.ast.count());
                    Core::lemma_keeps_shows(s4, *self, x, args@, ra.tree, s3.ast.count(), s4.ast.count());
                    lemma_shows_widen(self.ast, self.rank@, base@, tree, old(self).ast.count(), s0.ast.count(), old(self).ast.count(), self.ast.count());
                    lemma_shows_widen(self.ast, self.rank@, ident@, rn.tree, s2.ast.count(), s3.ast.count(), old(self).ast.count(), self.ast.count());
                    lemma_shows_widen(self.ast, self.rank@, args@, ra.tree, s3.ast.count(), s4.ast.count(), old(self).ast.count(), self.ast.count());
                    assert(self.ast.children_of(x) == seq![base, ident, args]);
                    Core::lemma_node_shows(*self, x, t2, old(self).ast.count());
                    lemma_logged_concat(old(self).errors, s2.errors, s3.errors, errs, rn.errs);
                    lemma_logged_concat(old(self).errors, s3.errors, s4.errors, errs + rn.errs, ra.errs);
                    tree = t2;
                    errs = errs + rn.errs + ra.errs;
                    g = (g - 1) as nat;
                }
                base = id;
                continue;
            }
            if self.at(TokenKind::QuestionMark) {
                let id = self.node(AstKind::Optional);
                let ghost x = id@;
                proof {
                    Core::lemma_step_done(*old(self), s0, x);
                    Core::lemma_advance(*old(self), s0, *self, x);
                }
                let ghost s1 = *self;
                self.push_child(id, base);
                proof {
                    Core::lemma_advance(*old(self), s1, *self, x);
                }
                let ghost s2 = *self;
                self.eat();
                proof {
                    Core::lemma_advance(*old(self), s2, *self, x);
                    assert(Core::keeps(s0, s1, x));
                    assert(Core::keeps(s1, s2, x));
                    assert(Core::keeps(s2, *self, x));
                    Core::lemma_keeps_trans(s0, s1, s2, x);
                    Core::lemma_keeps_trans(s0, s2, *self, x);
                }
                let ghost s3 = *self;
                if !self.matches(&enders) {
                    proof {
                        lemma_read_postfix_optional(toks, ctx, p0, tree, errs, q, g);
                    }
                    let err = self.parse_expr(Ghost((g - 1) as nat));
                    proof {
                        Core::lemma_after_call(*old(self), s3, *self, x);
                    }
                    let ghost s4 = *self;
                    self.push_child(id, err);
                    proof {
                        Core::lemma_advance(*old(self), s4, *self, x);
                        let re = read(toks, ctx, Goal::Expr, s3.pos as nat, (g - 1) as nat);
                        let t2 = SyntaxTree { kind: AstKind::Optional, loc: None, children: seq![tree, re.tree] };
                        Core::lemma_keeps_step(s3, s4, x);
                        assert(Core::keeps(s4, *self, x));
                        Core::lemma_keeps_trans(s3, s4, *self, x);
                        Core::lemma_keeps_trans(s0, s3, *self, x);
                        Core::lemma_keeps_shows(s0, *self, x, base@, tree, old(self).ast.count(), s0.ast.count());
                        Core::lemma_keeps_shows(s4, *self, x, err@, re.tree, s3.ast.count(), s4.ast.count());
                        lemma_shows_widen(self.ast, self.rank@, base@, tree, old(self).ast.count(), s0.ast.count(), old(self).ast.count(), self.ast.count());
                        lemma_shows_widen(self.ast, self.rank@, err@, re.tree, s3.ast.count(), s4.ast.count(), old(self).ast.count(), self.ast.count());
                        assert(self.ast.children_of(x) == seq![base, err]);
                        Core::lemma_node_shows(*self, x, t2, old(self).ast.count());
                        lemma_logged_concat(old(self).errors, s3.errors, s4.errors, errs, re.errs);
                        tree = t2;
                        errs = errs + re.errs;
                        g = (g - 1) as nat;
                    }
                } else {
                    proof {
                        lemma_read_postfix_bare_optional(toks, ctx, p0, tree, errs, q, g);
                        let t2 = SyntaxTree { kind: AstKind::Optional, loc: None, children: seq![tree] };
                        Core::lemma_keeps_shows(s0, *self, x, base@, tree, old(self).ast.count(), s0.ast.count());
                        lemma_shows_widen(self.ast, self.rank@, base@, tree, old(self).ast.count(), s0.ast.count(), old(self).ast.count(), self.ast.count());
                        assert(self.ast.children_of(x) == seq![base]);
                        Core::lemma_node_shows(*self, x, t2, old(self).ast.count());
                        tree = t2;
                        g = (g - 1) as nat;
                    }
                }
                proof {
                    Core::lemma_finish(*old(self), *self, x);
                }
                base = id;
                continue;
            }
            proof {
                assert(names@[0] == TokenKind::LIdent && names@[1] == TokenKind::UIdent);
                assert(paren@[0] == TokenKind::LParen);
                assert(!continues(toks, q));
            }
            if *base.get(&self.ast.kinds) == AstKind::Struct && !self.matches(&struct_ends) {
                proof {
                    lemma_read_postfix_func(toks, ctx, p0, tree, errs, q, g);
                    lemma_shows_parts(s0.ast, s0.rank@, base@, tree, old(self).ast.count(), s0.ast.count());
                }
                self.set_kind(base, AstKind::Tuple);
                proof {
                    Core::lemma_step_done(*old(self), s0, base@);
                    Core::lemma_advance(*old(self), s0, *self, base@);
                    Core::lemma_finish(*old(self), *self, base@);
                }
                let ghost sk = *self;
                let id = self.node(AstKind::Func);
                let ghost x = id@;
                proof {
                    Core::lemma_step_done(*old(self), sk, x);
                    Core::lemma_advance(*old(self), sk, *self, x);
                }
                let ghost s2 = *self;
                let body = self.parse_expr(Ghost((g - 1) as nat));
                proof {
                    Core::lemma_after_call(*old(self), s2, *self, x);
                }
                let ghost s3 = *self;
                self.push_child(id, base);
                proof {
                    Core::lemma_advance(*old(self), s3, *self, x);
                }
                let ghost s4 = *self;
                self.push_child(id, body);
                proof {
                    Core::lemma_advance(*old(self), s4, *self, x);
                    Core::lemma_finish(*old(self), *self, x);
                    let rb = read(toks, ctx, Goal::Expr, q, (g - 1) as nat);
                    let tt = with_kind(tree, AstKind::Tuple);
                    let t2 = SyntaxTree { kind: AstKind::Func, loc: None, children: seq![tt, rb.tree] };
                    assert(Core::keeps(s0, sk, base@));
                    Core::lemma_children_kept(s0, sk, base@, tree, old(self).ast.count(), s0.ast.count());
                    Core::lemma_node_shows(sk, base@, tt, old(self).ast.count());
                    assert(Core::keeps(sk, s2, x));
                    Core::lemma_keeps_step(s2, s3, x);
                    assert(Core::keeps(s3, s4, x));
                    assert(Core::keeps(s4, *self, x));
                    let ss = seq![sk, s2, s3, s4, *self];
                    Core::lemma_keeps_chain(ss, x);
                    assert(ss[0] == sk && ss[2] == s3 && ss[4] == *self);
                    Core::lemma_keeps_shows(sk, *self, x, base@, tt, old(self).ast.count(), sk.ast.count());
                    Core::lemma_keeps_shows(s3, *self, x, body@, rb.tree, s2.ast.count(), s3.ast.count());
                    lemma_shows_widen(self.ast, self.rank@, base@, tt, old(self).ast.count(), sk.ast.count(), old(self).ast.count(), self.ast.count());
                    lemma_shows_widen(self.ast, self.rank@, body@, rb.tree, s2.ast.count(), s3.ast.count(), old(self).ast.count(), self.ast.count());
                    assert(self.ast.children_of(x) == seq![base, body]);
                    Core::lemma_node_shows(*self, x, t2, old(self).ast.count());
                    lemma_logged_concat(old(self).errors, s2.errors, s3.errors, errs, rb.errs);
                    tree = t2;
                    errs = errs + rb.errs;
                    g = (g - 1) as nat;
                }
                base = id;
                continue;
            }
            proof {
                lemma_read_postfix_end(toks, ctx, p0, tree, errs, q, g);
            }
            break;
        }
        base
    }

    /// A delimited list: the opening token `left`, a list of elements, and the
    /// closing token `right`.
    #[verifier::rlimit(50)]
    fn parse_delimited_list(&mut self, kind: AstKind, left: TokenKind, right: TokenKind, elem: Element, Ghost(fuel): Ghost<nat>) -> (r: AstId)
        requires
            fuel >= old(self).need(2),
            old(self).inv(),
            old(self).room() >= 4,
            old(self).cur_kind() == left,
            left != TokenKind::EndOfFile,
            kind == AstKind::Struct || kind == AstKind::Tuple || kind == AstKind::Block || kind
                == AstKind::Array,
        ensures
            final(self).inv(),
            Core::step(*old(self), *final(self)),
            Core::produced(*old(self), *final(self), r),
            final(self).ast.kind_of(r@) == kind,
            Core::opener_budget(*old(self), *final(self)),
            Core::reads(*old(self), *final(self), r, read(*old(self).tokens, old(self).ctx, Goal::Delimited { kind, left, right, elem }, old(self).pos as nat, fuel)),
        decreases old(self).n - old(self).pos, 9nat,
    {
        let left_loc = self.cur_loc();
        self.try_eat(&[left]);
        let ghost s1 = *self;
        let id = self.parse_list(kind, elem, Ghost((fuel - 1) as nat));
        let ghost x = id@;
        proof {
            Core::lemma_start(*old(self), x);
            Core::lemma_advance(*old(self), *old(self), s1, x);
            Core::lemma_after_call(*old(self), s1, *self, x);
        }
        let ghost s2 = *self;
        self.merge_loc(id, left_loc);
        proof {
            Core::lemma_advance(*old(self), s2, *self, x);
        }
        let loc = self.cur_loc();
        let ghost s3 = *self;
        self.merge_loc(id, loc);
        proof {
            Core::lemma_advance(*old(self), s3, *self, x);
        }
        let ghost s4 = *self;
        let closing = [right];
        self.try_eat(&closing);
        proof {
            Core::lemma_advance(*old(self), s4, *self, x);
            Core::lemma_finish(*old(self), *self, x);
            assert(closing@ == seq![right]);
            let toks = *old(self).tokens;
            lemma_read_delimited(toks, old(self).ctx, kind, left, right, elem, old(self).pos as nat, fuel);
            let rl = read(toks, old(self).ctx, Goal::List { kind, elem }, s1.pos as nat, (fuel - 1) as nat);
            assert(Core::keeps(s2, s3, x));
            assert(Core::keeps(s3, s4, x));
            assert(Core::keeps(s4, *self, x));
            Core::lemma_keeps_trans(s3, s4, *self, x);
            Core::lemma_keeps_trans(s2, s3, *self, x);
            Core::lemma_children_kept(s2, *self, x, rl.tree, s1.ast.count(), s2.ast.count());
            lemma_shows_parts(s2.ast, s2.rank@, x, rl.tree, s1.ast.count(), s2.ast.count());
            let rd = read(toks, old(self).ctx, Goal::Delimited { kind, left, right, elem }, old(self).pos as nat, fuel);
            assert forall|k: int| 0 <= k < rd.tree.children.len() implies shows(
                self.ast,
                self.rank@,
                (#[trigger] self.ast.children_of(x)[k])@,
                rd.tree.children[k],
                old(self).ast.count(),
                self.ast.count(),
            ) by {
                lemma_shows_widen(self.ast, self.rank@, self.ast.children_of(x)[k]@, rl.tree.children[k], s1.ast.count(), s2.ast.count(), old(self).ast.count(), self.ast.count());
            }
            Core::lemma_node_shows(*self, x, rd.tree, old(self).ast.count());
            assert(s4.errors == s2.errors && s4.pos == s2.pos);
            assert(logged_errs(s2.errors, self.errors, expect(toks, seq![right], s2.pos as nat).1));
            lemma_logged_concat(old(self).errors, s2.errors, self.errors, rl.errs, expect(toks, seq![right], s2.pos as nat).1);
        }
        id
    }

    /// A struct: fields between parentheses.
    fn parse_struct(&mut self, Ghost(fuel): Ghost<nat>) -> (r: AstId)
        requires
            fuel >= old(self).need(3),
            old(self).inv(),
            old(self).room() >= 4,
            old(self).cur_kind() == TokenKind::LParen,
        ensures
            final(self).inv(),
            Core::step(*old(self), *final(self)),
            Core::produced(*old(self), *final(self), r),
            final(self).ast.kind_of(r@) == AstKind::Struct,
            Core::opener_budget(*old(self), *final(self)),
            Core::reads(*old(self), *final(self), r, read(*old(self).tokens, old(self).ctx, Goal::StructForm, old(self).pos as nat, fuel)),
        decreases old(self).n - old(self).pos, 10nat,
    {
        proof {
            lemma_read_struct_form(*self.tokens, self.ctx, self.pos as nat, fuel);
        }
        self.parse_delimited_list(AstKind::Struct, TokenKind::LParen, TokenKind::RParen, Element::Field, Ghost((fuel - 1) as nat))
    }

    /// A block: statements between braces, read as values.
    fn parse_block(&mut self, Ghost(fuel): Ghost<nat>) -> (r: AstId)
        requires
            fuel >= old(self).need(3),
            old(self).inv(),
            old(self).room() >= 4,
            old(self).cur_kind() == TokenKind::LCurl,
        ensures
            final(self).inv(),
            Core::step(*old(self), *final(self)),
            Core::produced(*old(self), *final(self), r),
            final(self).ast.kind_of(r@) == AstKind::Block,
            Core::opener_budget(*old(self), *final(self)),
            Core::reads(*old(self), *final(self), r, read(*old(self).tokens, old(self).ctx, Goal::BlockForm, old(self).pos as nat, fuel)),
        decreases old(self).n - old(self).pos, 10nat,
    {
        proof {
            lemma_read_block_form(*self.tokens, self.ctx, self.pos as nat, fuel);
        }
        let old_context = self.ctx;
        self.ctx = ParserCtx::Value;
        let ghost s1 = *self;
        let id = self.parse_delimited_list(AstKind::Block, TokenKind::LCurl, TokenKind::RCurl, Element::Stmt, Ghost((fuel - 1) as nat));
        let ghost s2 = *self;
        self.ctx = old_context;
        proof {
            Core::lemma_ctx_irrelevant(s2, *self);
            assert(Core::frame(s1, s2));
            assert(self.ast == s2.ast && self.errors == s2.errors && self.rank == s2.rank
                && self.in_tree == s2.in_tree);
            assert(s1.ast == old(self).ast && s1.errors == old(self).errors && s1.rank
                == old(self).rank && s1.in_tree == old(self).in_tree);
        }
        id
    }

    /// A tuple: arguments between parentheses; a single argument is a group.
    fn parse_tuple(&mut self, Ghost(fuel): Ghost<nat>) -> (r: AstId)
        requires
            fuel >= old(self).need(3),
            old(self).inv(),
            old(self).room() >= 4,
            old(self).cur_kind() == TokenKind::LParen,
        ensures
            final(self).inv(),
            Core::step(*old(self), *final(self)),
            Core::produced(*old(self), *final(self), r),
            final(self).ast.kind_of(r@) == AstKind::Tuple || final(self).ast.kind_of(r@) == AstKind::Group,
            Core::opener_budget(*old(self), *final(self)),
            Core::reads(*old(self), *final(self), r, read(*old(self).tokens, old(self).ctx, Goal::TupleForm, old(self).pos as nat, fuel)),
        decreases old(self).n - old(self).pos, 10nat,
    {
        let id = self.parse_delimited_list(AstKind::Tuple, TokenKind::LParen, TokenKind::RParen, Element::Arg, Ghost((fuel - 1) as nat));
        let ghost s1 = *self;
        let ghost rd = read(*old(self).tokens, old(self).ctx, Goal::Delimited { kind: AstKind::Tuple, left: TokenKind::LParen, right: TokenKind::RParen, elem: Element::Arg }, old(self).pos as nat, (fuel - 1) as nat);
        proof {
            lemma_shows_parts(s1.ast, s1.rank@, id@, rd.tree, old(self).ast.count(), s1.ast.count());
        }
        if self.num_children(id) == 1 {
            self.set_kind(id, AstKind::Group);
            proof {
                assert(Core::keeps(s1, *self, id@));
                Core::lemma_children_kept(s1, *self, id@, rd.tree, old(self).ast.count(), s1.ast.count());
                Core::lemma_node_shows(*self, id@, with_kind(rd.tree, AstKind::Group), old(self).ast.count());
            }
        }
        proof {
            lemma_read_tuple_form(*old(self).tokens, old(self).ctx, old(self).pos as nat, fuel);
        }
        id
    }

    /// An array: expressions between brackets; an expression after the brackets
    /// makes a vector type (after empty brackets) or a repeat expression.
    #[verifier::rlimit(80)]
    fn parse_array(&mut self, Ghost(fuel): Ghost<nat>) -> (r: AstId)
        requires
            fuel >= old(self).need(3),
            old(self).inv(),
            old(self).room() >= 4,
            old(self).cur_kind() == TokenKind::LSquare,
        ensures
            final(self).inv(),
            Core::step(*old(self), *final(self)),
            Core::produced(*old(self), *final(self), r),
            Core::expr_budget(*old(self), *final(self)),
            final(self).ast.kind_of(r@) != AstKind::Struct,
            final(self).pos > old(self).pos,
            Core::reads(*old(self), *final(self), r, read(*old(self).tokens, old(self).ctx, Goal::ArrayForm, old(self).pos as nat, fuel)),
        decreases old(self).n - old(self).pos, 10nat,
    {
        let id = self.parse_delimited_list(AstKind::Array, TokenKind::LSquare, TokenKind::RSquare, Element::Expr, Ghost((fuel - 1) as nat));
        let ghost x = id@;
        let ghost s0 = *self;
        let ghost toks = *old(self).tokens;
        let ghost rd = read(toks, old(self).ctx, Goal::Delimited { kind: AstKind::Array, left: TokenKind::LSquare, right: TokenKind::RSquare, elem: Element::Expr }, old(self).pos as nat, (fuel - 1) as nat);
        proof {
            lemma_read_array_form(toks, old(self).ctx, old(self).pos as nat, fuel);
            lemma_shows_parts(s0.ast, s0.rank@, x, rd.tree, old(self).ast.count(), s0.ast.count());
        }
        let followers = [
            TokenKind::LIdent,
            TokenKind::UIdent,
            TokenKind::Underscore,
            TokenKind::String,
            TokenKind::Character,
            TokenKind::Integer,
            TokenKind::Float,
            TokenKind::LParen,
        ];
        proof {
            assert(followers@ == array_followers());
        }
        if self.matches(&followers) {
            proof {
                Core::lemma_step_done(*old(self), *self, x);
            }
            let ghost s1 = *self;
            let expr = self.parse_expr(Ghost((fuel - 1) as nat));
            let ghost re = read(toks, old(self).ctx, Goal::Expr, s1.pos as nat, (fuel - 1) as nat);
            proof {
                Core::lemma_after_call(*old(self), s1, *self, x);
            }
            let ghost se = *self;
            if self.num_children(id) == 0 {
                let ghost s2 = *self;
                self.set_kind(id, AstKind::Vector);
                proof {
                    Core::lemma_advance(*old(self), s2, *self, x);
                }
                let ghost s3 = *self;
                self.push_child(id, expr);
                proof {
                    Core::lemma_advance(*old(self), s3, *self, x);
                    assert(Core::keeps(s2, s3, x));
                    assert(Core::keeps(s3, *self, x));
                    Core::lemma_keeps_trans(s2, s3, *self, x);
                    Core::lemma_keeps_shows(se, *self, x, expr@, re.tree, s1.ast.count(), se.ast.count());
                    lemma_shows_widen(self.ast, self.rank@, expr@, re.tree, s1.ast.count(), se.ast.count(), old(self).ast.count(), self.ast.count());
                    let ra = read(toks, old(self).ctx, Goal::ArrayForm, old(self).pos as nat, fuel);
                    assert(self.ast.children_of(x) == seq![expr]);
                    assert(ra.tree.children == seq![re.tree]);
                    Core::lemma_node_shows(*self, x, ra.tree, old(self).ast.count());
                    lemma_logged_concat(old(self).errors, s0.errors, se.errors, rd.errs, re.errs);
                }
            } else {
                let ghost s3 = *self;
                if self.num_children(id) > 1 {
                    let ghost s2 = *self;
                    self.error("Repeat expression may not have multiple lengths".to_owned());
                    proof {
                        Core::lemma_advance(*old(self), s2, *self, x);
                        lemma_logged_concat(old(self).errors, s0.errors, se.errors, rd.errs, re.errs);
                        lemma_logged_concat(old(self).errors, se.errors, self.errors, rd.errs + re.errs, seq![Report { message: "Repeat expression may not have multiple lengths"@, loc: toks.location_at(se.pos as nat) }]);
                    }
                    let ghost s3b = *self;
                    self.truncate_children(id, 1);
                    proof {
                        Core::lemma_advance(*old(self), s3b, *self, x);
                        assert(Core::keeps(se, s2, x));
                        assert(Core::keeps(s2, s3b, x));
                        assert(Core::keeps(s3b, *self, x));
                        Core::lemma_keeps_trans(se, s2, s3b, x);
                        Core::lemma_keeps_trans(se, s3b, *self, x);
                    }
                } else {
                    proof {
                        lemma_logged_concat(old(self).errors, s0.errors, se.errors, rd.errs, re.errs);
                        assert(Core::keeps(se, *self, x));
                    }
                }
                let ghost s4 = *self;
                self.set_kind(id, AstKind::Repeat);
                proof {
                    Core::lemma_advance(*old(self), s4, *self, x);
                }
                let ghost s5 = *self;
                self.push_child(id, expr);
                proof {
                    Core::lemma_advance(*old(self), s5, *self, x);
                    assert(Core::keeps(s4, s5, x));
                    assert(Core::keeps(s5, *self, x));
                    Core::lemma_keeps_trans(s4, s5, *self, x);
                    Core::lemma_keeps_trans(se, s4, *self, x);
                    Core::lemma_keeps_step(s0, se, x);
                    Core::lemma_keeps_trans(s0, se, *self, x);
                    let c0 = s0.ast.children_of(x)[0];
                    assert(shows(s0.ast, s0.rank@, c0@, rd.tree.children[0], old(self).ast.count(), s0.ast.count()));
                    Core::lemma_keeps_shows(s0, *self, x, c0@, rd.tree.children[0], old(self).ast.count(), s0.ast.count());
                    Core::lemma_keeps_shows(se, *self, x, expr@, re.tree, s1.ast.count(), se.ast.count());
                    lemma_shows_widen(self.ast, self.rank@, c0@, rd.tree.children[0], old(self).ast.count(), s0.ast.count(), old(self).ast.count(), self.ast.count());
                    lemma_shows_widen(self.ast, self.rank@, expr@, re.tree, s1.ast.count(), se.ast.count(), old(self).ast.count(), self.ast.count());
                    let ra = read(toks, old(self).ctx, Goal::ArrayForm, old(self).pos as nat, fuel);
                    assert(s4.ast.children_of(x) == seq![c0]);
                    assert(self.ast.children_of(x) == seq![c0, expr]);
                    assert(ra.tree.children == seq![rd.tree.children[0], re.tree]);
                    Core::lemma_node_shows(*self, x, ra.tree, old(self).ast.count());
                }
            }
            proof {
                Core::lemma_finish(*old(self), *self, x);
            }
        }
        id
    }

    /// An index: an expression between brackets.
    #[verifier::rlimit(50)]
    fn parse_index(&mut self, Ghost(fuel): Ghost<nat>) -> (r: AstId)
        requires
            fuel >= old(self).need(3),
            old(self).inv(),
            old(self).room() >= 4,
            old(self).cur_kind() == TokenKind::LSquare,
        ensures
            final(self).inv(),
            Core::step(*old(self), *final(self)),
            Core::produced(*old(self), *final(self), r),
            final(self).pos > old(self).pos,
            final(self).room() >= old(self).room() + 12,
            Core::reads(*old(self), *final(self), r, read(*old(self).tokens, old(self).ctx, Goal::IndexForm, old(self).pos as nat, fuel)),
        decreases old(self).n - old(self).pos, 10nat,
    {
        let left_lsquare = self.cur_loc();
        self.try_eat(&[TokenKind::LSquare]);
        let ghost s1 = *self;
        let id = self.parse_expr(Ghost((fuel - 1) as nat));
        let ghost x = id@;
        let ghost s2 = *self;
        self.merge_loc(id, left_lsquare);
        let loc = self.cur_loc();
        let ghost s3 = *self;
        self.merge_loc(id, loc);
        let ghost s4 = *self;
        let closing = [TokenKind::RSquare];
        self.try_eat(&closing);
        proof {
            assert(closing@ == seq![TokenKind::RSquare]);
            let toks = *old(self).tokens;
            lemma_read_index_form(toks, old(self).ctx, old(self).pos as nat, fuel);
            let re = read(toks, old(self).ctx, Goal::Expr, s1.pos as nat, (fuel - 1) as nat);
            assert(Core::keeps(s2, s3, x));
            assert(Core::keeps(s3, s4, x));
            assert(Core::keeps(s4, *self, x));
            Core::lemma_keeps_trans(s3, s4, *self, x);
            Core::lemma_keeps_trans(s2, s3, *self, x);
            Core::lemma_children_kept(s2, *self, x, re.tree, s1.ast.count(), s2.ast.count());
            lemma_shows_parts(s2.ast, s2.rank@, x, re.tree, s1.ast.count(), s2.ast.count());
            let ri = read(toks, old(self).ctx, Goal::IndexForm, old(self).pos as nat, fuel);
            Core::lemma_node_shows(*self, x, ri.tree, old(self).ast.count());
            assert(s4.errors == s2.errors && s4.pos == s2.pos);
            lemma_logged_concat(old(self).errors, s2.errors, self.errors, re.errs, expect(toks, seq![TokenKind::RSquare], s2.pos as nat).1);
        }
        id
    }

    /// A conditional: `?`, a condition in parentheses, a body, and after `:` an
    /// else body.
    #[verifier::rlimit(100)]
    fn parse_if(&mut self, Ghost(fuel): Ghost<nat>) -> (r: AstId)
        requires
            fuel >= old(self).need(3),
            old(self).inv(),
            old(self).room() >= 4,
            old(self).cur_kind() == TokenKind::QuestionMark,
        ensures
            final(self).inv(),
            Core::step(*old(self), *final(self)),
            Core::produced(*old(self), *final(self), r),
            Core::expr_budget(*old(self), *final(self)),
            final(self).ast.kind_of(r@) != AstKind::Struct,
            final(self).pos > old(self).pos,
            Core::reads(*old(self), *final(self), r, read(*old(self).tokens, old(self).ctx, Goal::IfForm, old(self).pos as nat, fuel)),
        decreases old(self).n - old(self).pos, 10nat,
    {
        proof {
            Core::lemma_start(*self, self.ast.count());
        }
        let ghost s0 = *self;
        let id = self.node(AstKind::If);
        let ghost x = id@;
        proof {
            Core::lemma_advance(*old(self), s0, *self, x);
        }
        let loc = self.cur_loc();
        let ghost s1 = *self;
        self.merge_loc(id, loc);
        proof {
            Core::lemma_advance(*old(self), s1, *self, x);
        }
        let ghost s2 = *self;
        self.try_eat(&[TokenKind::QuestionMark]);
        proof {
            Core::lemma_advance(*old(self), s2, *self, x);
        }
        let loc = self.cur_loc();
        let ghost s3 = *self;
        self.merge_loc(id, loc);
        proof {
            Core::lemma_advance(*old(self), s3, *self, x);
        }
        let ghost s4 = *self;
        let opening = [TokenKind::LParen];
        self.try_eat(&opening);
        proof {
            Core::lemma_advance(*old(self), s4, *self, x);
            assert(opening@ == seq![TokenKind::LParen]);
        }
        let ghost s5 = *self;
        let cond = self.parse_expr(Ghost((fuel - 1) as nat));
        proof {
            Core::lemma_after_call(*old(self), s5, *self, x);
        }
        let loc = self.cur_loc();
        let ghost s6 = *self;
        self.merge_loc(id, loc);
        proof {
            Core::lemma_advance(*old(self), s6, *self, x);
        }
        let ghost s7 = *self;
        let closing = [TokenKind::RParen];
        self.try_eat(&closing);
        proof {
            Core::lemma_advance(*old(self), s7, *self, x);
            assert(closing@ == seq![TokenKind::RParen]);
        }
        let ghost s8 = *self;
        let if_body = self.parse_expr(Ghost((fuel - 1) as nat));
        proof {
            Core::lemma_after_call(*old(self), s8, *self, x);
        }
        let ghost s9 = *self;
        self.push_child(id, cond);
        proof {
            Core::lemma_advance(*old(self), s9, *self, x);
        }
        let ghost s10 = *self;
        self.push_child(id, if_body);
        proof {
            Core::lemma_advance(*old(self), s10, *self, x);
        }
        let ghost toks = *old(self).tokens;
        let ghost ctx = old(self).ctx;
        let ghost rc = read(toks, ctx, Goal::Expr, s5.pos as nat, (fuel - 1) as nat);
        let ghost rb = read(toks, ctx, Goal::Expr, s8.pos as nat, (fuel - 1) as nat);
        proof {
            lemma_read_if_form(toks, ctx, old(self).pos as nat, fuel);
            assert(Core::keeps(s6, s7, x));
            assert(Core::keeps(s7, s8, x));
            Core::lemma_keeps_step(s8, s9, x);
            assert(Core::keeps(s9, s10, x));
            assert(Core::keeps(s10, *self, x));
            assert(s4.errors == old(self).errors);
            lemma_logged_concat(old(self).errors, s5.errors, s6.errors, expect(toks, seq![TokenKind::LParen], s4.pos as nat).1, rc.errs);
            assert(s7.errors == s6.errors);
            lemma_logged_concat(old(self).errors, s6.errors, s8.errors, expect(toks, seq![TokenKind::LParen], s4.pos as nat).1 + rc.errs, expect(toks, seq![TokenKind::RParen], s7.pos as nat).1);
            lemma_logged_concat(old(self).errors, s8.errors, s9.errors, expect(toks, seq![TokenKind::LParen], s4.pos as nat).1 + rc.errs + expect(toks, seq![TokenKind::RParen], s7.pos as nat).1, rb.errs);
        }
        if self.at(TokenKind::Colon) {
            let ghost s11 = *self;
            self.set_kind(id, AstKind::IfElse);
            proof {
                Core::lemma_advance(*old(self), s11, *self, x);
            }
            let loc = self.cur_loc();
            let ghost s12 = *self;
            self.merge_loc(id, loc);
            proof {
                Core::lemma_advance(*old(self), s12, *self, x);
                self.lemma_past_end();
            }
            let ghost s13 = *self;
            self.eat();
            proof {
                Core::lemma_advance(*old(self), s13, *self, x);
            }
            let ghost s14 = *self;
            let else_body = self.parse_expr(Ghost((fuel - 1) as nat));
            proof {
                Core::lemma_after_call(*old(self), s14, *self, x);
            }
            let ghost s15 = *self;
            self.push_child(id, else_body);
            proof {
                Core::lemma_advance(*old(self), s15, *self, x);
                let re = read(toks, ctx, Goal::Expr, s14.pos as nat, (fuel - 1) as nat);
                assert(Core::keeps(s11, s12, x));
                assert(Core::keeps(s12, s13, x));
                assert(Core::keeps(s13, s14, x));
                Core::lemma_keeps_step(s14, s15, x);
                assert(Core::keeps(s15, *self, x));
                let ss = seq![s6, s7, s8, s9, s10, s11, s12, s13, s14, s15, *self];
                Core::lemma_keeps_chain(ss, x);
                assert(ss[0] == s6 && ss[3] == s9 && ss[9] == s15 && ss[10] == *self);
                Core::lemma_keeps_shows(s6, *self, x, cond@, rc.tree, s5.ast.count(), s6.ast.count());
                Core::lemma_keeps_shows(s9, *self, x, if_body@, rb.tree, s8.ast.count(), s9.ast.count());
                Core::lemma_keeps_shows(s15, *self, x, else_body@, re.tree, s14.ast.count(), s15.ast.count());
                lemma_shows_widen(self.ast, self.rank@, cond@, rc.tree, s5.ast.count(), s6.ast.count(), old(self).ast.count(), self.ast.count());
                lemma_shows_widen(self.ast, self.rank@, if_body@, rb.tree, s8.ast.count(), s9.ast.count(), old(self).ast.count(), self.ast.count());
                lemma_shows_widen(self.ast, self.rank@, else_body@, re.tree, s14.ast.count(), s15.ast.count(), old(self).ast.count(), self.ast.count());
                let ri = read(toks, ctx, Goal::IfForm, old(self).pos as nat, fuel);
                assert(self.ast.children_of(x) == seq![cond, if_body, else_body]);
                assert(ri.tree.children == seq![rc.tree, rb.tree, re.tree]);
                Core::lemma_node_shows(*self, x, ri.tree, old(self).ast.count());
                assert(s14.errors == s9.errors);
                lemma_logged_concat(old(self).errors, s14.errors, s15.errors, expect(toks, seq![TokenKind::LParen], s4.pos as nat).1 + rc.errs + expect(toks, seq![TokenKind::RParen], s7.pos as nat).1 + rb.errs, re.errs);
            }
        } else {
            proof {
                let ss = seq![s6, s7, s8, s9, s10, *self];
                Core::lemma_keeps_chain(ss, x);
                assert(ss[0] == s6 && ss[3] == s9 && ss[5] == *self);
                Core::lemma_keeps_shows(s6, *self, x, cond@, rc.tree, s5.ast.count(), s6.ast.count());
                Core::lemma_keeps_shows(s9, *self, x, if_body@, rb.tree, s8.ast.count(), s9.ast.count());
                lemma_shows_widen(self.ast, self.rank@, cond@, rc.tree, s5.ast.count(), s6.ast.count(), old(self).ast.count(), self.ast.count());
                lemma_shows_widen(self.ast, self.rank@, if_body@, rb.tree, s8.ast.count(), s9.ast.count(), old(self).ast.count(), self.ast.count());
                let ri = read(toks, ctx, Goal::IfForm, old(self).pos as nat, fuel);
                assert(self.ast.children_of(x) == seq![cond, if_body]);
                assert(ri.tree.children == seq![rc.tree, rb.tree]);
                Core::lemma_node_shows(*self, x, ri.tree, old(self).ast.count());
            }
        }
        proof {
            Core::lemma_finish(*old(self), *self, x);
        }
        id
    }
}

impl<'t> Core<'t> {
    /// The nodes of this parse form a forest once each of them is complete.
    proof fn lemma_forest(&self)
        requires
            self.inv(),
            self.complete(self.lo@, self.ast.count()),
        ensures
            self.ast.forest(self.lo@, self.ast.count(), self.rank@),
    {
        assert forall|p: nat| self.lo@ <= p < self.ast.count() implies #[trigger] self.ast.node_wf(
            p,
            self.lo@,
            self.ast.count(),
            self.rank@,
        ) by {
            assert(self.rank@.dom().contains(p));
            assert(self.edges_ok(p));
            assert(arity_ok(self.ast.kind_of(p), self.ast.children_of(p).len()));
        }
    }
}

/// Reads a token sequence into nodes of a tree, reporting the parse errors.
pub struct Parser<'a> {
    pub tokens: &'a Tokens,
    pub cursor: TokenId,
    pub ast: &'a mut Ast,
    pub errors: &'a mut Errors,
    pub ctx: ParserCtx,
}

/// Where a parse from `cursor` starts: at the cursor, or at the end of the
/// tokens when the cursor lies past it.
pub open spec fn start_of(tokens: Tokens, cursor: nat) -> nat {
    if cursor < tokens.extent() {
        cursor
    } else {
        tokens.extent()
    }
}

/// The parse of a file fits the tree's and the error list's capacity: room for
/// the nodes and errors so far and sixteen more per token, plus a few.
pub open spec fn parse_fits(tokens: Tokens, ast: Ast, errors: Errors) -> bool {
    &&& tokens.extent() < 4294967290
    &&& ast.count() + errors.count() + 16 * tokens.extent() + 7 <= capacity()
}

impl<'a> Parser<'a> {
    /// A parser at the first token, reading types.
    pub fn new(tokens: &'a Tokens, ast: &'a mut Ast, errors: &'a mut Errors) -> (r: Self)
        ensures
            r.tokens == tokens,
            r.cursor@ == 0,
            *r.ast == *old(ast),
            *final(r.ast) == *final(ast),
            *r.errors == *old(errors),
            *final(r.errors) == *final(errors),
            r.ctx == ParserCtx::Type,
    {
        Parser { tokens, cursor: TokenId::new(0), ast, errors, ctx: ParserCtx::Type }
    }

    /// Parses the tokens from the cursor on as the fields of a file, and
    /// reports trailing tokens. The new nodes form a forest under the returned
    /// root, the first new node: a struct that is no node's child; the nodes and errors that were
    /// there before are kept, and only parse errors are added.
    pub fn parse(self) -> (root: AstId)
        requires
            self.tokens.wf(),
            self.ast.wf(),
            self.ast.tidy(),
            self.errors.wf(),
            parse_fits(*self.tokens, *self.ast, *self.errors),
        ensures
            final(self.ast).wf(),
            final(self.ast).tidy(),
            final(self.ast).count() >= old(self.ast).count(),
            Ast::same_nodes(*old(self.ast), *final(self.ast), old(self.ast).count()),
            old(self.ast).count() <= root@ < final(self.ast).count(),
            root@ == old(self.ast).count(),
            final(self.ast).kind_of(root@) == AstKind::Struct,
            exists|rank: Map<nat, nat>|
                final(self.ast).forest(old(self.ast).count(), final(self.ast).count(), rank),
            forall|p: nat, k: int|
                old(self.ast).count() <= p < final(self.ast).count()
                    && 0 <= k < final(self.ast).children_of(p).len()
                    ==> (#[trigger] final(self.ast).children_of(p)[k]) != root,
            Errors::extends(*old(self.errors), *final(self.errors)),
            forall|i: nat|
                old(self.errors).count() <= i < final(self.errors).count()
                    ==> #[trigger] final(self.errors).kind_of(i) == ErrorKind::Parse,
            final(self.ast).count() + final(self.errors).count() <= old(self.ast).count() + old(self.errors).count()
                + 16 * self.tokens.extent() + 3,
            ({
                let reading = read_file(*self.tokens, self.ctx, start_of(*self.tokens, self.cursor@));
                &&& exists|rank: Map<nat, nat>|
                    shows(*final(self.ast), rank, root@, reading.tree, old(self.ast).count(), final(self.ast).count())
                &&& logged_errs(*old(self.errors), *final(self.errors), reading.errs)
            }),
    {
        let kinds_len = self.tokens.kinds.num_allocs();
        let locations_len = self.tokens.locations.num_allocs();
        let n = if kinds_len < locations_len {
            locations_len
        } else {
            kinds_len
        };
        let cursor = self.cursor.index();
        let pos = if cursor < n {
            cursor
        } else {
            n
        };
        let mut ast = Ast::new();
        std::mem::swap(&mut ast, self.ast);
        let mut errors = Errors::new();
        std::mem::swap(&mut errors, self.errors);
        let ghost lo = ast.count();
        let mut core = Core {
            tokens: self.tokens,
            pos,
            n,
            ast,
            errors,
            ctx: self.ctx,
            lo: Ghost(lo),
            rank: Ghost(Map::empty()),
            clock: Ghost(0),
            in_tree: Ghost(Set::empty()),
        };
        let ghost c0 = core;
        let root = core.parse_list(AstKind::Struct, Element::Field, Ghost(core.need(23)));
        let ghost c1 = core;
        if !core.eof() {
            core.error("Trailing tokens when parsing file".to_owned());
            proof {
                let l = read(*core.tokens, core.ctx, Goal::List { kind: AstKind::Struct, elem: Element::Field }, c0.pos as nat, c0.need(23));
                let rep = Report { message: "Trailing tokens when parsing file"@, loc: core.tokens.location_at(c1.pos as nat) };
                lemma_logged_concat(c0.errors, c1.errors, core.errors, l.errs, seq![rep]);
                assert(l.errs + seq![rep] =~= l.errs.push(rep));
                assert(c0.need(23) == file_fuel(*self.tokens, pos as nat));
                assert(logged_errs(c0.errors, core.errors, read_file(*self.tokens, self.ctx, pos as nat).errs));
            }
        } else {
            proof {
                assert(c0.need(23) == file_fuel(*self.tokens, pos as nat));
                assert(logged_errs(c0.errors, core.errors, read_file(*self.tokens, self.ctx, pos as nat).errs));
            }
        }
        proof {
            assert(c0.need(23) == file_fuel(*self.tokens, pos as nat));
            assert(shows(core.ast, core.rank@, root@, read_file(*self.tokens, self.ctx, pos as nat).tree, lo, core.ast.count()));
            assert(core.complete(core.lo@, core.ast.count()));
            core.lemma_forest();
            assert forall|p: nat, k: int|
                lo <= p < core.ast.count() && 0 <= k < core.ast.children_of(p).len() implies
                (#[trigger] core.ast.children_of(p)[k]) != root by {
                assert(core.rank@.dom().contains(p));
                assert(core.edges_ok(p));
                assert(core.in_tree@.contains(core.ast.children_of(p)[k]@));
            }
            assert forall|i: nat| c0.errors.count() <= i < core.errors.count() implies #[trigger] core.errors.kind_of(i)
                == ErrorKind::Parse by {
                if i < c1.errors.count() {
                    assert(c1.errors.kind_of(i) == ErrorKind::Parse);
                }
            }
        }
        let ghost reading = read_file(*self.tokens, self.ctx, pos as nat);
        proof {
            assert(pos as nat == start_of(*self.tokens, self.cursor@));
            assert(logged_errs(c0.errors, core.errors, reading.errs));
        }
        *self.ast = core.ast;
        *self.errors = core.errors;
        proof {
            assert(shows(*self.ast, core.rank@, root@, reading.tree, lo, self.ast.count()));
        }
        root
    }
}
} // verus!
