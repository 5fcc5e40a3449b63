//! The grammar that the parser reads, stated over token positions: what tree,
//! end position and errors each part of a parse gives.
use crate::ast::{infix_token, Ast, AstKind, InfixKind};
use crate::error::Errors;
use crate::lexer::{merged, Location, TokenKind, Tokens};
use crate::parser::{expected_text, Assoc, ParserCtx, PrattGroup};
use vstd::prelude::*;

verus! {

/// A syntax tree as a value: a node's kind, its location and its children.
pub struct SyntaxTree {
    pub kind: AstKind,
    pub loc: Option<Location>,
    pub children: Seq<SyntaxTree>,
}

/// An error that a part of a parse reports: its message and its location,
/// if the token it is at has one.
pub struct Report {
    pub message: Seq<char>,
    pub loc: Option<Location>,
}

/// What a part of a parse reads: a tree, the position after it, and the
/// errors it reports, in order.
pub struct Reading {
    pub tree: SyntaxTree,
    pub end: nat,
    pub errs: Seq<Report>,
}

/// What each element of a list is.
#[derive(Clone, Copy, PartialEq, Eq, Structural)]
pub enum Element {
    Field,
    Stmt,
    Arg,
    Expr,
}

/// The position after reading the token at `p`: the end stays where it is.
pub open spec fn next_pos(toks: Tokens, p: nat) -> nat {
    if p < toks.extent() {
        p + 1
    } else {
        p
    }
}

/// Reading a token of one of `kinds` at `p`: the position after it and no
/// error; any other token is not read, and reports an error at it.
pub open spec fn expect(toks: Tokens, kinds: Seq<TokenKind>, p: nat) -> (nat, Seq<Report>) {
    if kinds.contains(toks.kind_at(p)) {
        (next_pos(toks, p), Seq::empty())
    } else {
        (p, seq![Report { message: expected_text(kinds, toks.kind_at(p)), loc: toks.location_at(p) }])
    }
}

/// The position after every token of one of `kinds` from `p` on.
pub open spec fn skip_all(toks: Tokens, kinds: Seq<TokenKind>, p: nat) -> nat
    decreases toks.extent() - p,
{
    if p < toks.extent() && kinds.contains(toks.kind_at(p)) {
        skip_all(toks, kinds, p + 1)
    } else {
        p
    }
}

/// The tokens that close a list.
pub open spec fn closers() -> Seq<TokenKind> {
    seq![TokenKind::RParen, TokenKind::RSquare, TokenKind::RCurl]
}

/// The tokens that separate the elements of a list.
pub open spec fn separators() -> Seq<TokenKind> {
    seq![TokenKind::Comma, TokenKind::Newline, TokenKind::Semicolon]
}

/// The tokens after which `?` takes no error expression.
pub open spec fn optional_enders() -> Seq<TokenKind> {
    seq![
        TokenKind::Newline,
        TokenKind::Comma,
        TokenKind::RParen,
        TokenKind::RCurl,
        TokenKind::RSquare,
        TokenKind::EndOfFile,
        TokenKind::QuestionMark,
    ]
}

/// The tokens after which a struct stays a struct rather than a function's
/// parameters.
pub open spec fn struct_enders() -> Seq<TokenKind> {
    seq![TokenKind::Newline, TokenKind::Comma, TokenKind::RParen, TokenKind::RCurl, TokenKind::RSquare]
}

/// The tokens that start a repeat count or a vector's element type after `]`.
pub open spec fn array_followers() -> Seq<TokenKind> {
    seq![
        TokenKind::LIdent,
        TokenKind::UIdent,
        TokenKind::Underscore,
        TokenKind::String,
        TokenKind::Character,
        TokenKind::Integer,
        TokenKind::Float,
        TokenKind::LParen,
    ]
}

/// The node kind of an identifier token.
pub open spec fn ident_kind(t: TokenKind) -> AstKind {
    match t {
        TokenKind::Underscore => AstKind::Void,
        TokenKind::LIdent => AstKind::VIdent,
        TokenKind::UIdent => AstKind::TIdent,
        _ => AstKind::Error,
    }
}

/// The node kind of the name after `.`: an identifier or an integer.
pub open spec fn proj_kind(t: TokenKind) -> AstKind {
    match t {
        TokenKind::Integer => AstKind::Integer,
        _ => ident_kind(t),
    }
}

/// The node kind of an atom.
pub open spec fn atom_kind(t: TokenKind) -> AstKind {
    match t {
        TokenKind::Integer => AstKind::Integer,
        TokenKind::Float => AstKind::Float,
        TokenKind::String => AstKind::String,
        TokenKind::Character => AstKind::Char,
        TokenKind::Underscore => AstKind::NoneValue,
        TokenKind::LIdent => AstKind::VIdent,
        TokenKind::UIdent => AstKind::TIdent,
        _ => AstKind::Error,
    }
}

/// A leaf of kind `kind` at the token at `p`, which it reads; an `Error` leaf
/// reports `message` there.
pub open spec fn read_leaf(toks: Tokens, p: nat, kind: AstKind, message: Seq<char>) -> Reading {
    Reading {
        tree: SyntaxTree { kind, loc: toks.location_at(p), children: Seq::empty() },
        end: next_pos(toks, p),
        errs: if kind == AstKind::Error {
            seq![Report { message, loc: toks.location_at(p) }]
        } else {
            Seq::empty()
        },
    }
}

/// The first of `kinds` spelled by token `t`.
pub open spec fn first_infix(kinds: Seq<InfixKind>, t: TokenKind) -> Option<InfixKind>
    decreases kinds.len(),
{
    if kinds.len() == 0 {
        None
    } else if infix_token(kinds[0]) == t {
        Some(kinds[0])
    } else {
        first_infix(kinds.subrange(1, kinds.len() as int), t)
    }
}

/// The operator groups of an expression, loosest first.
pub open spec fn expr_groups() -> Seq<(Seq<InfixKind>, Assoc)> {
    seq![
        (seq![InfixKind::Add, InfixKind::Sub], Assoc::Left),
        (seq![InfixKind::Mul, InfixKind::Div], Assoc::Left),
        (seq![InfixKind::Gt, InfixKind::Lt, InfixKind::Ge, InfixKind::Le], Assoc::Left),
        (seq![InfixKind::Eq, InfixKind::Ne], Assoc::Left),
    ]
}

/// An operator group as a value.
pub open spec fn group_view(g: PrattGroup) -> (Seq<InfixKind>, Assoc) {
    (g.kinds@, g.assoc)
}

/// Operator groups as values.
pub open spec fn groups_view(gs: Seq<PrattGroup>) -> Seq<(Seq<InfixKind>, Assoc)> {
    gs.map_values(|g: PrattGroup| group_view(g))
}

/// A tree whose kind is replaced.
pub open spec fn with_kind(t: SyntaxTree, kind: AstKind) -> SyntaxTree {
    SyntaxTree { kind, loc: t.loc, children: t.children }
}

/// What a parse is reading: a list, its elements, or one of the forms of
/// the grammar, with what it has read so far.
pub enum Goal {
    List { kind: AstKind, elem: Element },
    Items { elem: Element, first: bool, items: Seq<SyntaxTree>, loc: Option<Location>, errs: Seq<Report> },
    Elem { elem: Element },
    Field,
    Stmt,
    Arg,
    Expr,
    Pratt { groups: Seq<(Seq<InfixKind>, Assoc)> },
    Left { kinds: Seq<InfixKind>, next: Seq<(Seq<InfixKind>, Assoc)> },
    LeftRest { kinds: Seq<InfixKind>, next: Seq<(Seq<InfixKind>, Assoc)>, acc: SyntaxTree, errs: Seq<Report> },
    Right { kinds: Seq<InfixKind>, next: Seq<(Seq<InfixKind>, Assoc)> },
    Base,
    Postfix { p0: nat, base: SyntaxTree, errs: Seq<Report> },
    Delimited { kind: AstKind, left: TokenKind, right: TokenKind, elem: Element },
    StructForm,
    BlockForm,
    TupleForm,
    ArrayForm,
    IndexForm,
    IfForm,
}

/// What reading `g` from `p` on gives, with `fuel` steps of the grammar.
#[verifier::opaque]
pub open spec fn read(toks: Tokens, ctx: ParserCtx, g: Goal, p: nat, fuel: nat) -> Reading
    decreases fuel,
{
    if fuel == 0 {
        Reading { tree: SyntaxTree { kind: AstKind::Error, loc: None, children: Seq::empty() }, end: p, errs: Seq::empty() }
    } else {
        let f = (fuel - 1) as nat;
        match g {
            Goal::List { kind, elem } => {
                let l = read(toks, ctx, Goal::Items { elem, first: true, items: Seq::empty(), loc: None, errs: Seq::empty() }, p, f);
                Reading { tree: SyntaxTree { kind, loc: l.tree.loc, children: l.tree.children }, end: l.end, errs: l.errs }
            },
            Goal::Items { elem, first, items, loc, errs } => {
                let t = toks.kind_at(p);
                if t == TokenKind::EndOfFile || closers().contains(t) {
                    Reading { tree: SyntaxTree { kind: AstKind::Error, loc, children: items }, end: p, errs }
                } else {
                    let loc1 = if first { loc } else { merged(loc, toks.location_at(p)) };
                    let sep = if first { (p, Seq::empty()) } else { expect(toks, separators(), p) };
                    let errs1 = errs + sep.1;
                    let p2 = skip_all(toks, seq![TokenKind::Newline], sep.0);
                    let t2 = toks.kind_at(p2);
                    if t2 == TokenKind::EndOfFile || closers().contains(t2) {
                        Reading { tree: SyntaxTree { kind: AstKind::Error, loc: loc1, children: items }, end: p2, errs: errs1 }
                    } else {
                        let r = read(toks, ctx, Goal::Elem { elem }, p2, f);
                        read(toks, ctx, Goal::Items { elem, first: false, items: items.push(r.tree), loc: loc1, errs: errs1 + r.errs }, r.end, f)
                    }
                }
            },
            Goal::Elem { elem } => match elem {
                Element::Field => read(toks, ctx, Goal::Field, p, f),
                Element::Stmt => read(toks, ctx, Goal::Stmt, p, f),
                Element::Arg => read(toks, ctx, Goal::Arg, p, f),
                Element::Expr => read(toks, ctx, Goal::Expr, p, f),
            },
            Goal::Field => {
                let kind = if toks.kind_at(p) == TokenKind::UIdent { AstKind::TField } else { AstKind::VField };
                let i = read_leaf(toks, p, ident_kind(toks.kind_at(p)), "Expected identifier"@);
                let e = read(toks, ctx, Goal::Expr, i.end, f);
                Reading { tree: SyntaxTree { kind, loc: None, children: seq![i.tree, e.tree] }, end: e.end, errs: i.errs + e.errs }
            },
            Goal::Stmt => {
                let l = read(toks, ctx, Goal::Expr, p, f);
                let t = toks.kind_at(l.end);
                if t == TokenKind::Equals || t == TokenKind::ColonEquals || t == TokenKind::DotEquals {
                    let kind = if t == TokenKind::Equals {
                        AstKind::Bind
                    } else if t == TokenKind::ColonEquals {
                        AstKind::BindMut
                    } else {
                        AstKind::Assign
                    };
                    let r = read(toks, ctx, Goal::Expr, next_pos(toks, l.end), f);
                    Reading { tree: SyntaxTree { kind, loc: None, children: seq![l.tree, r.tree] }, end: r.end, errs: l.errs + r.errs }
                } else {
                    l
                }
            },
            Goal::Arg => {
                if toks.kind_at(p + 1) == TokenKind::Equals {
                    let i = read_leaf(toks, p, ident_kind(toks.kind_at(p)), "Expected identifier"@);
                    let e = read(toks, ctx, Goal::Expr, next_pos(toks, i.end), f);
                    Reading { tree: SyntaxTree { kind: AstKind::Arg, loc: None, children: seq![i.tree, e.tree] }, end: e.end, errs: i.errs + e.errs }
                } else {
                    read(toks, ctx, Goal::Expr, p, f)
                }
            },
            Goal::Expr => read(toks, ctx, Goal::Pratt { groups: expr_groups() }, p, f),
            Goal::Pratt { groups } => {
                if groups.len() == 0 {
                    read(toks, ctx, Goal::Base, p, f)
                } else {
                    let next = groups.subrange(1, groups.len() as int);
                    match groups[0].1 {
                        Assoc::Left => read(toks, ctx, Goal::Left { kinds: groups[0].0, next }, p, f),
                        Assoc::Right => read(toks, ctx, Goal::Right { kinds: groups[0].0, next }, p, f),
                    }
                }
            },
            Goal::Left { kinds, next } => {
                let first = read(toks, ctx, Goal::Pratt { groups: next }, p, f);
                read(toks, ctx, Goal::LeftRest { kinds, next, acc: first.tree, errs: first.errs }, first.end, f)
            },
            Goal::LeftRest { kinds, next, acc, errs } => match first_infix(kinds, toks.kind_at(p)) {
                Some(k) => {
                    let r = read(toks, ctx, Goal::Pratt { groups: next }, next_pos(toks, p), f);
                    let joined = SyntaxTree { kind: AstKind::Infix(k), loc: None, children: seq![acc, r.tree] };
                    read(toks, ctx, Goal::LeftRest { kinds, next, acc: joined, errs: errs + r.errs }, r.end, f)
                },
                None => Reading { tree: acc, end: p, errs },
            },
            Goal::Right { kinds, next } => {
                let l = read(toks, ctx, Goal::Pratt { groups: next }, p, f);
                match first_infix(kinds, toks.kind_at(l.end)) {
                    Some(k) => {
                        let r = read(toks, ctx, Goal::Right { kinds, next }, next_pos(toks, l.end), f);
                        Reading {
                            tree: SyntaxTree { kind: AstKind::Infix(k), loc: None, children: seq![l.tree, r.tree] },
                            end: r.end,
                            errs: l.errs + r.errs,
                        }
                    },
                    None => l,
                }
            },
            Goal::Base => {
                let t = toks.kind_at(p);
                let first = if t == TokenKind::QuestionMark {
                    read(toks, ctx, Goal::IfForm, p, f)
                } else if t == TokenKind::LParen && ctx == ParserCtx::Type {
                    read(toks, ctx, Goal::StructForm, p, f)
                } else if t == TokenKind::LParen {
                    read(toks, ctx, Goal::TupleForm, p, f)
                } else if t == TokenKind::LSquare {
                    read(toks, ctx, Goal::ArrayForm, p, f)
                } else if t == TokenKind::LCurl {
                    read(toks, ctx, Goal::BlockForm, p, f)
                } else {
                    read_leaf(toks, p, atom_kind(t), "Expected expression"@)
                };
                read(toks, ctx, Goal::Postfix { p0: p, base: first.tree, errs: first.errs }, first.end, f)
            },
            Goal::Postfix { p0, base, errs } => {
                let t = toks.kind_at(p);
                if t == TokenKind::LParen {
                    let a = read(toks, ctx, Goal::TupleForm, p, f);
                    let call = SyntaxTree { kind: AstKind::Call, loc: None, children: seq![base, a.tree] };
                    read(toks, ctx, Goal::Postfix { p0, base: call, errs: errs + a.errs }, a.end, f)
                } else if t == TokenKind::LSquare {
                    let a = read(toks, ctx, Goal::IndexForm, p, f);
                    let index = SyntaxTree { kind: AstKind::Index, loc: None, children: seq![base, a.tree] };
                    read(toks, ctx, Goal::Postfix { p0, base: index, errs: errs + a.errs }, a.end, f)
                } else if t == TokenKind::Dot {
                    let q1 = next_pos(toks, p);
                    let name = read_leaf(toks, q1, proj_kind(toks.kind_at(q1)), "Expected identifier"@);
                    let proj = SyntaxTree { kind: AstKind::Proj, loc: None, children: seq![base, name.tree] };
                    read(toks, ctx, Goal::Postfix { p0, base: proj, errs: errs + name.errs }, name.end, f)
                } else if t == TokenKind::Colon && (toks.kind_at(p + 1) == TokenKind::LIdent || toks.kind_at(p + 1)
                    == TokenKind::UIdent) && toks.kind_at(p + 2) == TokenKind::LParen {
                    let q1 = next_pos(toks, p);
                    let name = read_leaf(toks, q1, ident_kind(toks.kind_at(q1)), "Expected identifier"@);
                    let a = read(toks, ctx, Goal::TupleForm, name.end, f);
                    let method = SyntaxTree { kind: AstKind::Method, loc: None, children: seq![base, name.tree, a.tree] };
                    read(toks, ctx, Goal::Postfix { p0, base: method, errs: errs + name.errs + a.errs }, a.end, f)
                } else if t == TokenKind::QuestionMark {
                    let q1 = next_pos(toks, p);
                    if !optional_enders().contains(toks.kind_at(q1)) {
                        let e = read(toks, ctx, Goal::Expr, q1, f);
                        let opt = SyntaxTree { kind: AstKind::Optional, loc: None, children: seq![base, e.tree] };
                        read(toks, ctx, Goal::Postfix { p0, base: opt, errs: errs + e.errs }, e.end, f)
                    } else {
                        let opt = SyntaxTree { kind: AstKind::Optional, loc: None, children: seq![base] };
                        read(toks, ctx, Goal::Postfix { p0, base: opt, errs }, q1, f)
                    }
                } else if base.kind == AstKind::Struct && !struct_enders().contains(t) {
                    let b = read(toks, ctx, Goal::Expr, p, f);
                    let func = SyntaxTree { kind: AstKind::Func, loc: None, children: seq![with_kind(base, AstKind::Tuple), b.tree] };
                    read(toks, ctx, Goal::Postfix { p0, base: func, errs: errs + b.errs }, b.end, f)
                } else {
                    Reading { tree: base, end: p, errs }
                }
            },
            Goal::Delimited { kind, left, right, elem } => {
                let l = read(toks, ctx, Goal::List { kind, elem }, next_pos(toks, p), f);
                let loc = merged(merged(l.tree.loc, toks.location_at(p)), toks.location_at(l.end));
                let close = expect(toks, seq![right], l.end);
                Reading { tree: SyntaxTree { kind, loc, children: l.tree.children }, end: close.0, errs: l.errs + close.1 }
            },
            Goal::StructForm => read(toks, ctx, Goal::Delimited { kind: AstKind::Struct, left: TokenKind::LParen, right: TokenKind::RParen, elem: Element::Field }, p, f),
            Goal::BlockForm => read(toks, ParserCtx::Value, Goal::Delimited { kind: AstKind::Block, left: TokenKind::LCurl, right: TokenKind::RCurl, elem: Element::Stmt }, p, f),
            Goal::TupleForm => {
                let d = read(toks, ctx, Goal::Delimited { kind: AstKind::Tuple, left: TokenKind::LParen, right: TokenKind::RParen, elem: Element::Arg }, p, f);
                if d.tree.children.len() == 1 {
                    Reading { tree: with_kind(d.tree, AstKind::Group), end: d.end, errs: d.errs }
                } else {
                    d
                }
            },
            Goal::ArrayForm => {
                let d = read(toks, ctx, Goal::Delimited { kind: AstKind::Array, left: TokenKind::LSquare, right: TokenKind::RSquare, elem: Element::Expr }, p, f);
                if array_followers().contains(toks.kind_at(d.end)) {
                    let e = read(toks, ctx, Goal::Expr, d.end, f);
                    if d.tree.children.len() == 0 {
                        Reading { tree: SyntaxTree { kind: AstKind::Vector, loc: d.tree.loc, children: seq![e.tree] }, end: e.end, errs: d.errs + e.errs }
                    } else {
                        Reading {
                            tree: SyntaxTree { kind: AstKind::Repeat, loc: d.tree.loc, children: d.tree.children.take(1).push(e.tree) },
                            end: e.end,
                            errs: d.errs + e.errs + if d.tree.children.len() > 1 { seq![Report { message: "Repeat expression may not have multiple lengths"@, loc: toks.location_at(e.end) }] } else { Seq::empty() },
                        }
                    }
                } else {
                    d
                }
            },
            Goal::IndexForm => {
                let e = read(toks, ctx, Goal::Expr, next_pos(toks, p), f);
                let loc = merged(merged(e.tree.loc, toks.location_at(p)), toks.location_at(e.end));
                let close = expect(toks, seq![TokenKind::RSquare], e.end);
                Reading { tree: SyntaxTree { kind: e.tree.kind, loc, children: e.tree.children }, end: close.0, errs: e.errs + close.1 }
            },
            Goal::IfForm => {
                let p1 = next_pos(toks, p);
                let loc1 = merged(toks.location_at(p), toks.location_at(p1));
                let open = expect(toks, seq![TokenKind::LParen], p1);
                let c = read(toks, ctx, Goal::Expr, open.0, f);
                let loc2 = merged(loc1, toks.location_at(c.end));
                let close = expect(toks, seq![TokenKind::RParen], c.end);
                let b = read(toks, ctx, Goal::Expr, close.0, f);
                let errs = open.1 + c.errs + close.1 + b.errs;
                if toks.kind_at(b.end) == TokenKind::Colon {
                    let e = read(toks, ctx, Goal::Expr, next_pos(toks, b.end), f);
                    Reading {
                        tree: SyntaxTree { kind: AstKind::IfElse, loc: merged(loc2, toks.location_at(b.end)), children: seq![c.tree, b.tree, e.tree] },
                        end: e.end,
                        errs: errs + e.errs,
                    }
                } else {
                    Reading { tree: SyntaxTree { kind: AstKind::If, loc: loc2, children: seq![c.tree, b.tree] }, end: b.end, errs }
                }
            },
        }
    }
}

/// Fuel enough to read a file from position `p` on: a hundred and
/// twenty-eight steps per token left, and a few more.
pub open spec fn file_fuel(toks: Tokens, p: nat) -> nat {
    (128 * (toks.extent() + 1 - p) + 23) as nat
}

/// A file from `p` on: its fields as a struct, and an error at the first
/// token that the fields leave unread, if any.
pub open spec fn read_file(toks: Tokens, ctx: ParserCtx, p: nat) -> Reading {
    let l = read(toks, ctx, Goal::List { kind: AstKind::Struct, elem: Element::Field }, p, file_fuel(toks, p));
    if toks.kind_at(l.end) != TokenKind::EndOfFile {
        Reading {
            tree: l.tree,
            end: l.end,
            errs: l.errs.push(Report { message: "Trailing tokens when parsing file"@, loc: toks.location_at(l.end) }),
        }
    } else {
        l
    }
}

/// Reading a list takes one step and then reads what the step calls for.
pub proof fn lemma_read_list(toks: Tokens, ctx: ParserCtx, kind: AstKind, elem: Element, p: nat, fuel: nat)
    requires
        fuel > 0,
    ensures
        read(toks, ctx, Goal::List { kind, elem }, p, fuel) == ({
            let f = (fuel - 1) as nat;
            {
                let l = read(toks, ctx, Goal::Items { elem, first: true, items: Seq::empty(), loc: None, errs: Seq::empty() }, p, f);
                Reading { tree: SyntaxTree { kind, loc: l.tree.loc, children: l.tree.children }, end: l.end, errs: l.errs }
            }
        }),
{
    reveal_with_fuel(read, 1);
}

/// Reading the rest of a list takes one step and then reads what the step calls for.
pub proof fn lemma_read_items(toks: Tokens, ctx: ParserCtx, elem: Element, first: bool, items: Seq<SyntaxTree>, loc: Option<Location>, errs: Seq<Report>, p: nat, fuel: nat)
    requires
        fuel > 0,
    ensures
        read(toks, ctx, Goal::Items { elem, first, items, loc, errs }, p, fuel) == ({
            let f = (fuel - 1) as nat;
            {
                let t = toks.kind_at(p);
                if t == TokenKind::EndOfFile || closers().contains(t) {
                    Reading { tree: SyntaxTree { kind: AstKind::Error, loc, children: items }, end: p, errs }
                } else {
                    let loc1 = if first { loc } else { merged(loc, toks.location_at(p)) };
                    let sep = if first { (p, Seq::empty()) } else { expect(toks, separators(), p) };
                    let errs1 = errs + sep.1;
                    let p2 = skip_all(toks, seq![TokenKind::Newline], sep.0);
                    let t2 = toks.kind_at(p2);
                    if t2 == TokenKind::EndOfFile || closers().contains(t2) {
                        Reading { tree: SyntaxTree { kind: AstKind::Error, loc: loc1, children: items }, end: p2, errs: errs1 }
                    } else {
                        let r = read(toks, ctx, Goal::Elem { elem }, p2, f);
                        read(toks, ctx, Goal::Items { elem, first: false, items: items.push(r.tree), loc: loc1, errs: errs1 + r.errs }, r.end, f)
                    }
                }
            }
        }),
{
    reveal_with_fuel(read, 1);
}

/// Reading an element of a list takes one step and then reads what the step calls for.
pub proof fn lemma_read_elem(toks: Tokens, ctx: ParserCtx, elem: Element, p: nat, fuel: nat)
    requires
        fuel > 0,
    ensures
        read(toks, ctx, Goal::Elem { elem }, p, fuel) == ({
            let f = (fuel - 1) as nat;
            match elem {
                Element::Field => read(toks, ctx, Goal::Field, p, f),
                Element::Stmt => read(toks, ctx, Goal::Stmt, p, f),
                Element::Arg => read(toks, ctx, Goal::Arg, p, f),
                Element::Expr => read(toks, ctx, Goal::Expr, p, f),
            }
        }),
{
    reveal_with_fuel(read, 1);
}

/// Reading a field takes one step and then reads what the step calls for.
pub proof fn lemma_read_field(toks: Tokens, ctx: ParserCtx, p: nat, fuel: nat)
    requires
        fuel > 0,
    ensures
        read(toks, ctx, Goal::Field, p, fuel) == ({
            let f = (fuel - 1) as nat;
            {
                let kind = if toks.kind_at(p) == TokenKind::UIdent { AstKind::TField } else { AstKind::VField };
                let i = read_leaf(toks, p, ident_kind(toks.kind_at(p)), "Expected identifier"@);
                let e = read(toks, ctx, Goal::Expr, i.end, f);
                Reading { tree: SyntaxTree { kind, loc: None, children: seq![i.tree, e.tree] }, end: e.end, errs: i.errs + e.errs }
            }
        }),
{
    reveal_with_fuel(read, 1);
}

/// Reading a statement takes one step and then reads what the step calls for.
pub proof fn lemma_read_stmt(toks: Tokens, ctx: ParserCtx, p: nat, fuel: nat)
    requires
        fuel > 0,
    ensures
        read(toks, ctx, Goal::Stmt, p, fuel) == ({
            let f = (fuel - 1) as nat;
            {
                let l = read(toks, ctx, Goal::Expr, p, f);
                let t = toks.kind_at(l.end);
                if t == TokenKind::Equals || t == TokenKind::ColonEquals || t == TokenKind::DotEquals {
                    let kind = if t == TokenKind::Equals {
                        AstKind::Bind
                    } else if t == TokenKind::ColonEquals {
                        AstKind::BindMut
                    } else {
                        AstKind::Assign
                    };
                    let r = read(toks, ctx, Goal::Expr, next_pos(toks, l.end), f);
                    Reading { tree: SyntaxTree { kind, loc: None, children: seq![l.tree, r.tree] }, end: r.end, errs: l.errs + r.errs }
                } else {
                    l
                }
            }
        }),
{
    reveal_with_fuel(read, 1);
}

/// Reading an argument takes one step and then reads what the step calls for.
pub proof fn lemma_read_arg(toks: Tokens, ctx: ParserCtx, p: nat, fuel: nat)
    requires
        fuel > 0,
    ensures
        read(toks, ctx, Goal::Arg, p, fuel) == ({
            let f = (fuel - 1) as nat;
            {
                if toks.kind_at(p + 1) == TokenKind::Equals {
                    let i = read_leaf(toks, p, ident_kind(toks.kind_at(p)), "Expected identifier"@);
                    let e = read(toks, ctx, Goal::Expr, next_pos(toks, i.end), f);
                    Reading { tree: SyntaxTree { kind: AstKind::Arg, loc: None, children: seq![i.tree, e.tree] }, end: e.end, errs: i.errs + e.errs }
                } else {
                    read(toks, ctx, Goal::Expr, p, f)
                }
            }
        }),
{
    reveal_with_fuel(read, 1);
}

/// Reading an expression takes one step and then reads what the step calls for.
pub proof fn lemma_read_expr(toks: Tokens, ctx: ParserCtx, p: nat, fuel: nat)
    requires
        fuel > 0,
    ensures
        read(toks, ctx, Goal::Expr, p, fuel) == ({
            let f = (fuel - 1) as nat;
            read(toks, ctx, Goal::Pratt { groups: expr_groups() }, p, f)
        }),
{
    reveal_with_fuel(read, 1);
}

/// Reading an expression over operator groups takes one step and then reads what the step calls for.
pub proof fn lemma_read_pratt(toks: Tokens, ctx: ParserCtx, groups: Seq<(Seq<InfixKind>, Assoc)>, p: nat, fuel: nat)
    requires
        fuel > 0,
    ensures
        read(toks, ctx, Goal::Pratt { groups }, p, fuel) == ({
            let f = (fuel - 1) as nat;
            {
                if groups.len() == 0 {
                    read(toks, ctx, Goal::Base, p, f)
                } else {
                    let next = groups.subrange(1, groups.len() as int);
                    match groups[0].1 {
                        Assoc::Left => read(toks, ctx, Goal::Left { kinds: groups[0].0, next }, p, f),
                        Assoc::Right => read(toks, ctx, Goal::Right { kinds: groups[0].0, next }, p, f),
                    }
                }
            }
        }),
{
    reveal_with_fuel(read, 1);
}

/// Reading a left-associative chain takes one step and then reads what the step calls for.
pub proof fn lemma_read_left(toks: Tokens, ctx: ParserCtx, kinds: Seq<InfixKind>, next: Seq<(Seq<InfixKind>, Assoc)>, p: nat, fuel: nat)
    requires
        fuel > 0,
    ensures
        read(toks, ctx, Goal::Left { kinds, next }, p, fuel) == ({
            let f = (fuel - 1) as nat;
            {
                let first = read(toks, ctx, Goal::Pratt { groups: next }, p, f);
                read(toks, ctx, Goal::LeftRest { kinds, next, acc: first.tree, errs: first.errs }, first.end, f)
            }
        }),
{
    reveal_with_fuel(read, 1);
}

/// Reading the rest of a left-associative chain takes one step and then reads what the step calls for.
pub proof fn lemma_read_left_rest(toks: Tokens, ctx: ParserCtx, kinds: Seq<InfixKind>, next: Seq<(Seq<InfixKind>, Assoc)>, acc: SyntaxTree, errs: Seq<Report>, p: nat, fuel: nat)
    requires
        fuel > 0,
    ensures
        read(toks, ctx, Goal::LeftRest { kinds, next, acc, errs }, p, fuel) == ({
            let f = (fuel - 1) as nat;
            match first_infix(kinds, toks.kind_at(p)) {
                Some(k) => {
                    let r = read(toks, ctx, Goal::Pratt { groups: next }, next_pos(toks, p), f);
                    let joined = SyntaxTree { kind: AstKind::Infix(k), loc: None, children: seq![acc, r.tree] };
                    read(toks, ctx, Goal::LeftRest { kinds, next, acc: joined, errs: errs + r.errs }, r.end, f)
                },
                None => Reading { tree: acc, end: p, errs },
            }
        }),
{
    reveal_with_fuel(read, 1);
}

/// Reading a right-associative chain takes one step and then reads what the step calls for.
pub proof fn lemma_read_right(toks: Tokens, ctx: ParserCtx, kinds: Seq<InfixKind>, next: Seq<(Seq<InfixKind>, Assoc)>, p: nat, fuel: nat)
    requires
        fuel > 0,
    ensures
        read(toks, ctx, Goal::Right { kinds, next }, p, fuel) == ({
            let f = (fuel - 1) as nat;
            {
                let l = read(toks, ctx, Goal::Pratt { groups: next }, p, f);
                match first_infix(kinds, toks.kind_at(l.end)) {
                    Some(k) => {
                        let r = read(toks, ctx, Goal::Right { kinds, next }, next_pos(toks, l.end), f);
                        Reading {
                            tree: SyntaxTree { kind: AstKind::Infix(k), loc: None, children: seq![l.tree, r.tree] },
                            end: r.end,
                            errs: l.errs + r.errs,
                        }
                    },
                    None => l,
                }
            }
        }),
{
    reveal_with_fuel(read, 1);
}

/// Reading a primary expression and what follows it takes one step and then reads what the step calls for.
pub proof fn lemma_read_base(toks: Tokens, ctx: ParserCtx, p: nat, fuel: nat)
    requires
        fuel > 0,
    ensures
        read(toks, ctx, Goal::Base, p, fuel) == ({
            let f = (fuel - 1) as nat;
            {
                let t = toks.kind_at(p);
                let first = if t == TokenKind::QuestionMark {
                    read(toks, ctx, Goal::IfForm, p, f)
                } else if t == TokenKind::LParen && ctx == ParserCtx::Type {
                    read(toks, ctx, Goal::StructForm, p, f)
                } else if t == TokenKind::LParen {
                    read(toks, ctx, Goal::TupleForm, p, f)
                } else if t == TokenKind::LSquare {
                    read(toks, ctx, Goal::ArrayForm, p, f)
                } else if t == TokenKind::LCurl {
                    read(toks, ctx, Goal::BlockForm, p, f)
                } else {
                    read_leaf(toks, p, atom_kind(t), "Expected expression"@)
                };
                read(toks, ctx, Goal::Postfix { p0: p, base: first.tree, errs: first.errs }, first.end, f)
            }
        }),
{
    reveal_with_fuel(read, 1);
}

/// What follows a primary expression, when the next token opens a call.
pub proof fn lemma_read_postfix_call(toks: Tokens, ctx: ParserCtx, p0: nat, base: SyntaxTree, errs: Seq<Report>, p: nat, fuel: nat)
    requires
        fuel > 0,
        toks.kind_at(p) == TokenKind::LParen,
    ensures
        read(toks, ctx, Goal::Postfix { p0, base, errs }, p, fuel) == ({
            let f = (fuel - 1) as nat;
            let a = read(toks, ctx, Goal::TupleForm, p, f);
            let call = SyntaxTree { kind: AstKind::Call, loc: None, children: seq![base, a.tree] };
            read(toks, ctx, Goal::Postfix { p0, base: call, errs: errs + a.errs }, a.end, f)
        }),
{
    reveal_with_fuel(read, 1);
}

/// What follows a primary expression, when the next token opens an index.
pub proof fn lemma_read_postfix_index(toks: Tokens, ctx: ParserCtx, p0: nat, base: SyntaxTree, errs: Seq<Report>, p: nat, fuel: nat)
    requires
        fuel > 0,
        toks.kind_at(p) == TokenKind::LSquare,
    ensures
        read(toks, ctx, Goal::Postfix { p0, base, errs }, p, fuel) == ({
            let f = (fuel - 1) as nat;
            let a = read(toks, ctx, Goal::IndexForm, p, f);
            let index = SyntaxTree { kind: AstKind::Index, loc: None, children: seq![base, a.tree] };
            read(toks, ctx, Goal::Postfix { p0, base: index, errs: errs + a.errs }, a.end, f)
        }),
{
    reveal_with_fuel(read, 1);
}

/// What follows a primary expression, when the next token is `.`.
pub proof fn lemma_read_postfix_proj(toks: Tokens, ctx: ParserCtx, p0: nat, base: SyntaxTree, errs: Seq<Report>, p: nat, fuel: nat)
    requires
        fuel > 0,
        toks.kind_at(p) == TokenKind::Dot,
    ensures
        read(toks, ctx, Goal::Postfix { p0, base, errs }, p, fuel) == ({
            let f = (fuel - 1) as nat;
            let q1 = next_pos(toks, p);
            let name = read_leaf(toks, q1, proj_kind(toks.kind_at(q1)), "Expected identifier"@);
            let proj = SyntaxTree { kind: AstKind::Proj, loc: None, children: seq![base, name.tree] };
            read(toks, ctx, Goal::Postfix { p0, base: proj, errs: errs + name.errs }, name.end, f)
        }),
{
    reveal_with_fuel(read, 1);
}

/// What follows a primary expression, when the next tokens start a method call.
pub proof fn lemma_read_postfix_method(toks: Tokens, ctx: ParserCtx, p0: nat, base: SyntaxTree, errs: Seq<Report>, p: nat, fuel: nat)
    requires
        fuel > 0,
        toks.kind_at(p) == TokenKind::Colon,
        toks.kind_at(p + 1) == TokenKind::LIdent || toks.kind_at(p + 1) == TokenKind::UIdent,
        toks.kind_at(p + 2) == TokenKind::LParen,
    ensures
        read(toks, ctx, Goal::Postfix { p0, base, errs }, p, fuel) == ({
            let f = (fuel - 1) as nat;
            let q1 = next_pos(toks, p);
            let name = read_leaf(toks, q1, ident_kind(toks.kind_at(q1)), "Expected identifier"@);
            let a = read(toks, ctx, Goal::TupleForm, name.end, f);
            let method = SyntaxTree { kind: AstKind::Method, loc: None, children: seq![base, name.tree, a.tree] };
            read(toks, ctx, Goal::Postfix { p0, base: method, errs: errs + name.errs + a.errs }, a.end, f)
        }),
{
    reveal_with_fuel(read, 1);
}

/// What follows a primary expression, when the next token is `?` followed by
/// an error expression.
pub proof fn lemma_read_postfix_optional(toks: Tokens, ctx: ParserCtx, p0: nat, base: SyntaxTree, errs: Seq<Report>, p: nat, fuel: nat)
    requires
        fuel > 0,
        toks.kind_at(p) == TokenKind::QuestionMark,
        !optional_enders().contains(toks.kind_at(next_pos(toks, p))),
    ensures
        read(toks, ctx, Goal::Postfix { p0, base, errs }, p, fuel) == ({
            let f = (fuel - 1) as nat;
            let e = read(toks, ctx, Goal::Expr, next_pos(toks, p), f);
            let opt = SyntaxTree { kind: AstKind::Optional, loc: None, children: seq![base, e.tree] };
            read(toks, ctx, Goal::Postfix { p0, base: opt, errs: errs + e.errs }, e.end, f)
        }),
{
    reveal_with_fuel(read, 1);
}

/// What follows a primary expression, when the next token is a `?` alone.
pub proof fn lemma_read_postfix_bare_optional(toks: Tokens, ctx: ParserCtx, p0: nat, base: SyntaxTree, errs: Seq<Report>, p: nat, fuel: nat)
    requires
        fuel > 0,
        toks.kind_at(p) == TokenKind::QuestionMark,
        optional_enders().contains(toks.kind_at(next_pos(toks, p))),
    ensures
        read(toks, ctx, Goal::Postfix { p0, base, errs }, p, fuel) == ({
            let f = (fuel - 1) as nat;
            let opt = SyntaxTree { kind: AstKind::Optional, loc: None, children: seq![base] };
            read(toks, ctx, Goal::Postfix { p0, base: opt, errs }, next_pos(toks, p), f)
        }),
{
    reveal_with_fuel(read, 1);
}

/// Whether the token at `p` continues a primary expression.
pub open spec fn continues(toks: Tokens, p: nat) -> bool {
    let t = toks.kind_at(p);
    ||| t == TokenKind::LParen
    ||| t == TokenKind::LSquare
    ||| t == TokenKind::Dot
    ||| (t == TokenKind::Colon && (toks.kind_at(p + 1) == TokenKind::LIdent || toks.kind_at(p + 1)
        == TokenKind::UIdent) && toks.kind_at(p + 2) == TokenKind::LParen)
    ||| t == TokenKind::QuestionMark
}

/// What follows a struct that no other form continues: a function body.
pub proof fn lemma_read_postfix_func(toks: Tokens, ctx: ParserCtx, p0: nat, base: SyntaxTree, errs: Seq<Report>, p: nat, fuel: nat)
    requires
        fuel > 0,
        !continues(toks, p),
        base.kind == AstKind::Struct,
        !struct_enders().contains(toks.kind_at(p)),
    ensures
        read(toks, ctx, Goal::Postfix { p0, base, errs }, p, fuel) == ({
            let f = (fuel - 1) as nat;
            let b = read(toks, ctx, Goal::Expr, p, f);
            let func = SyntaxTree { kind: AstKind::Func, loc: None, children: seq![with_kind(base, AstKind::Tuple), b.tree] };
            read(toks, ctx, Goal::Postfix { p0, base: func, errs: errs + b.errs }, b.end, f)
        }),
{
    reveal_with_fuel(read, 1);
}

/// A primary expression that nothing continues ends where it is.
pub proof fn lemma_read_postfix_end(toks: Tokens, ctx: ParserCtx, p0: nat, base: SyntaxTree, errs: Seq<Report>, p: nat, fuel: nat)
    requires
        fuel > 0,
        !continues(toks, p),
        !(base.kind == AstKind::Struct && !struct_enders().contains(toks.kind_at(p))),
    ensures
        read(toks, ctx, Goal::Postfix { p0, base, errs }, p, fuel) == (Reading { tree: base, end: p, errs }),
{
    reveal_with_fuel(read, 1);
}

/// Reading a delimited list takes one step and then reads what the step calls for.
pub proof fn lemma_read_delimited(toks: Tokens, ctx: ParserCtx, kind: AstKind, left: TokenKind, right: TokenKind, elem: Element, p: nat, fuel: nat)
    requires
        fuel > 0,
    ensures
        read(toks, ctx, Goal::Delimited { kind, left, right, elem }, p, fuel) == ({
            let f = (fuel - 1) as nat;
            {
                let l = read(toks, ctx, Goal::List { kind, elem }, next_pos(toks, p), f);
                let loc = merged(merged(l.tree.loc, toks.location_at(p)), toks.location_at(l.end));
                let close = expect(toks, seq![right], l.end);
                Reading { tree: SyntaxTree { kind, loc, children: l.tree.children }, end: close.0, errs: l.errs + close.1 }
            }
        }),
{
    reveal_with_fuel(read, 1);
}

/// Reading a struct takes one step and then reads what the step calls for.
pub proof fn lemma_read_struct_form(toks: Tokens, ctx: ParserCtx, p: nat, fuel: nat)
    requires
        fuel > 0,
    ensures
        read(toks, ctx, Goal::StructForm, p, fuel) == ({
            let f = (fuel - 1) as nat;
            read(toks, ctx, Goal::Delimited { kind: AstKind::Struct, left: TokenKind::LParen, right: TokenKind::RParen, elem: Element::Field }, p, f)
        }),
{
    reveal_with_fuel(read, 1);
}

/// Reading a block takes one step and then reads what the step calls for.
pub proof fn lemma_read_block_form(toks: Tokens, ctx: ParserCtx, p: nat, fuel: nat)
    requires
        fuel > 0,
    ensures
        read(toks, ctx, Goal::BlockForm, p, fuel) == ({
            let f = (fuel - 1) as nat;
            read(toks, ParserCtx::Value, Goal::Delimited { kind: AstKind::Block, left: TokenKind::LCurl, right: TokenKind::RCurl, elem: Element::Stmt }, p, f)
        }),
{
    reveal_with_fuel(read, 1);
}

/// Reading a tuple takes one step and then reads what the step calls for.
pub proof fn lemma_read_tuple_form(toks: Tokens, ctx: ParserCtx, p: nat, fuel: nat)
    requires
        fuel > 0,
    ensures
        read(toks, ctx, Goal::TupleForm, p, fuel) == ({
            let f = (fuel - 1) as nat;
            {
                let d = read(toks, ctx, Goal::Delimited { kind: AstKind::Tuple, left: TokenKind::LParen, right: TokenKind::RParen, elem: Element::Arg }, p, f);
                if d.tree.children.len() == 1 {
                    Reading { tree: with_kind(d.tree, AstKind::Group), end: d.end, errs: d.errs }
                } else {
                    d
                }
            }
        }),
{
    reveal_with_fuel(read, 1);
}

/// Reading an array takes one step and then reads what the step calls for.
pub proof fn lemma_read_array_form(toks: Tokens, ctx: ParserCtx, p: nat, fuel: nat)
    requires
        fuel > 0,
    ensures
        read(toks, ctx, Goal::ArrayForm, p, fuel) == ({
            let f = (fuel - 1) as nat;
            {
                let d = read(toks, ctx, Goal::Delimited { kind: AstKind::Array, left: TokenKind::LSquare, right: TokenKind::RSquare, elem: Element::Expr }, p, f);
                if array_followers().contains(toks.kind_at(d.end)) {
                    let e = read(toks, ctx, Goal::Expr, d.end, f);
                    if d.tree.children.len() == 0 {
                        Reading { tree: SyntaxTree { kind: AstKind::Vector, loc: d.tree.loc, children: seq![e.tree] }, end: e.end, errs: d.errs + e.errs }
                    } else {
                        Reading {
                            tree: SyntaxTree { kind: AstKind::Repeat, loc: d.tree.loc, children: d.tree.children.take(1).push(e.tree) },
                            end: e.end,
                            errs: d.errs + e.errs + if d.tree.children.len() > 1 { seq![Report { message: "Repeat expression may not have multiple lengths"@, loc: toks.location_at(e.end) }] } else { Seq::empty() },
                        }
                    }
                } else {
                    d
                }
            }
        }),
{
    reveal_with_fuel(read, 1);
}

/// Reading an index takes one step and then reads what the step calls for.
pub proof fn lemma_read_index_form(toks: Tokens, ctx: ParserCtx, p: nat, fuel: nat)
    requires
        fuel > 0,
    ensures
        read(toks, ctx, Goal::IndexForm, p, fuel) == ({
            let f = (fuel - 1) as nat;
            {
                let e = read(toks, ctx, Goal::Expr, next_pos(toks, p), f);
                let loc = merged(merged(e.tree.loc, toks.location_at(p)), toks.location_at(e.end));
                let close = expect(toks, seq![TokenKind::RSquare], e.end);
                Reading { tree: SyntaxTree { kind: e.tree.kind, loc, children: e.tree.children }, end: close.0, errs: e.errs + close.1 }
            }
        }),
{
    reveal_with_fuel(read, 1);
}

/// Reading a conditional takes one step and then reads what the step calls for.
pub proof fn lemma_read_if_form(toks: Tokens, ctx: ParserCtx, p: nat, fuel: nat)
    requires
        fuel > 0,
    ensures
        read(toks, ctx, Goal::IfForm, p, fuel) == ({
            let f = (fuel - 1) as nat;
            {
                let p1 = next_pos(toks, p);
                let loc1 = merged(toks.location_at(p), toks.location_at(p1));
                let open = expect(toks, seq![TokenKind::LParen], p1);
                let c = read(toks, ctx, Goal::Expr, open.0, f);
                let loc2 = merged(loc1, toks.location_at(c.end));
                let close = expect(toks, seq![TokenKind::RParen], c.end);
                let b = read(toks, ctx, Goal::Expr, close.0, f);
                let errs = open.1 + c.errs + close.1 + b.errs;
                if toks.kind_at(b.end) == TokenKind::Colon {
                    let e = read(toks, ctx, Goal::Expr, next_pos(toks, b.end), f);
                    Reading {
                        tree: SyntaxTree { kind: AstKind::IfElse, loc: merged(loc2, toks.location_at(b.end)), children: seq![c.tree, b.tree, e.tree] },
                        end: e.end,
                        errs: errs + e.errs,
                    }
                } else {
                    Reading { tree: SyntaxTree { kind: AstKind::If, loc: loc2, children: seq![c.tree, b.tree] }, end: b.end, errs }
                }
            }
        }),
{
    reveal_with_fuel(read, 1);
}

/// The first operator of `kinds` spelled by token `t` is the one that is:
/// no two operators are spelled alike.
pub proof fn lemma_first_infix(kinds: Seq<InfixKind>, t: TokenKind, k: InfixKind)
    requires
        kinds.contains(k),
        infix_token(k) == t,
    ensures
        first_infix(kinds, t) == Some(k),
    decreases kinds.len(),
{
    if kinds[0] != k {
        let rest = kinds.subrange(1, kinds.len() as int);
        let i = choose|i: int| 0 <= i < kinds.len() && kinds[i] == k;
        assert(i > 0);
        assert(rest[i - 1] == k);
        assert(infix_token(kinds[0]) != t) by {
            let a = kinds[0];
            assert(infix_token(a) == infix_token(k) ==> a == k) by {
                match a {
                    InfixKind::Add => {},
                    InfixKind::Sub => {},
                    InfixKind::Mul => {},
                    InfixKind::Div => {},
                    InfixKind::Gt => {},
                    InfixKind::Lt => {},
                    InfixKind::Ge => {},
                    InfixKind::Le => {},
                    InfixKind::Eq => {},
                    InfixKind::Ne => {},
                }
            }
        }
        lemma_first_infix(rest, t, k);
    }
}

/// No operator of `kinds` is spelled by token `t`.
pub proof fn lemma_first_infix_none(kinds: Seq<InfixKind>, t: TokenKind)
    requires
        forall|k: InfixKind| kinds.contains(k) ==> infix_token(k) != t,
    ensures
        first_infix(kinds, t) is None,
    decreases kinds.len(),
{
    if kinds.len() > 0 {
        let rest = kinds.subrange(1, kinds.len() as int);
        assert(kinds.contains(kinds[0]));
        assert forall|k: InfixKind| rest.contains(k) implies infix_token(k) != t by {
            let i = choose|i: int| 0 <= i < rest.len() && rest[i] == k;
            assert(kinds[i + 1] == k);
        }
        lemma_first_infix_none(rest, t);
    }
}

/// Node `id` of `ast` reads as the tree `t`: its kind, location and number of
/// children match, each child is ranked below its parent and reads as the
/// matching subtree, and every node reached lies in `lo..hi`.
#[verifier::opaque]
pub open spec fn shows(ast: Ast, rank: Map<nat, nat>, id: nat, t: SyntaxTree, lo: nat, hi: nat) -> bool
    decreases t,
{
    &&& lo <= id < hi
    &&& rank.dom().contains(id)
    &&& ast.kind_of(id) == t.kind
    &&& ast.location_of(id) == t.loc
    &&& ast.children_of(id).len() == t.children.len()
    &&& forall|k: int|
        0 <= k < t.children.len() ==> {
            let c = (#[trigger] ast.children_of(id)[k])@;
            &&& rank.dom().contains(c)
            &&& rank[c] < rank[id]
            &&& shows(ast, rank, c, t.children[k], lo, hi)
        }
}

/// A node keeps reading as its tree when every node of `lo..hi` but `x` keeps
/// its kind, children, location and rank, and `x`, if in the range, is ranked
/// above the node.
pub proof fn lemma_shows_frame(
    a1: Ast,
    r1: Map<nat, nat>,
    a2: Ast,
    r2: Map<nat, nat>,
    id: nat,
    t: SyntaxTree,
    lo: nat,
    hi: nat,
    x: nat,
)
    requires
        shows(a1, r1, id, t, lo, hi),
        forall|p: nat|
            lo <= p < hi && p != x ==> #[trigger] a2.kind_of(p) == a1.kind_of(p) && a2.children_of(p)
                == a1.children_of(p) && a2.location_of(p) == a1.location_of(p),
        forall|p: nat|
            lo <= p < hi && p != x && #[trigger] r1.dom().contains(p) ==> r2.dom().contains(p) && r2[p]
                == r1[p],
        lo <= x < hi ==> r1.dom().contains(x) && r1[id] < r1[x],
    ensures
        shows(a2, r2, id, t, lo, hi),
    decreases t,
{
    reveal(shows);
    assert(a2.kind_of(id) == a1.kind_of(id));
    assert(r1.dom().contains(id));
    assert forall|k: int| 0 <= k < t.children.len() implies {
        let c = (#[trigger] a2.children_of(id)[k])@;
        &&& r2.dom().contains(c)
        &&& r2[c] < r2[id]
        &&& shows(a2, r2, c, t.children[k], lo, hi)
    } by {
        let c = a1.children_of(id)[k]@;
        assert(a2.children_of(id)[k] == a1.children_of(id)[k]);
        assert(shows(a1, r1, c, t.children[k], lo, hi));
        assert(r1.dom().contains(c));
        lemma_shows_frame(a1, r1, a2, r2, c, t.children[k], lo, hi, x);
    }
}

/// A node without children reads as a tree without children of its kind and
/// location.
pub proof fn lemma_shows_leaf(ast: Ast, rank: Map<nat, nat>, id: nat, t: SyntaxTree, lo: nat, hi: nat)
    requires
        lo <= id < hi,
        rank.dom().contains(id),
        ast.kind_of(id) == t.kind,
        ast.location_of(id) == t.loc,
        ast.children_of(id).len() == 0,
        t.children.len() == 0,
    ensures
        shows(ast, rank, id, t, lo, hi),
{
    reveal(shows);
}

/// A node reads as a tree when its kind, location and number of children match
/// the tree's, and each child, ranked below it, reads as the matching subtree.
pub proof fn lemma_shows_node(ast: Ast, rank: Map<nat, nat>, id: nat, t: SyntaxTree, lo: nat, hi: nat)
    requires
        lo <= id < hi,
        rank.dom().contains(id),
        ast.kind_of(id) == t.kind,
        ast.location_of(id) == t.loc,
        ast.children_of(id).len() == t.children.len(),
        forall|k: int|
            0 <= k < t.children.len() ==> {
                let c = (#[trigger] ast.children_of(id)[k])@;
                &&& rank.dom().contains(c)
                &&& rank[c] < rank[id]
                &&& shows(ast, rank, c, t.children[k], lo, hi)
            },
    ensures
        shows(ast, rank, id, t, lo, hi),
{
    reveal(shows);
}

/// What reading as a tree says of the node itself and of its children.
pub proof fn lemma_shows_parts(ast: Ast, rank: Map<nat, nat>, id: nat, t: SyntaxTree, lo: nat, hi: nat)
    requires
        shows(ast, rank, id, t, lo, hi),
    ensures
        lo <= id < hi,
        rank.dom().contains(id),
        ast.kind_of(id) == t.kind,
        ast.location_of(id) == t.loc,
        ast.children_of(id).len() == t.children.len(),
        forall|k: int|
            0 <= k < t.children.len() ==> {
                let c = (#[trigger] ast.children_of(id)[k])@;
                &&& rank.dom().contains(c)
                &&& rank[c] < rank[id]
                &&& shows(ast, rank, c, t.children[k], lo, hi)
            },
{
    reveal(shows);
}

/// Reading as a tree within a range also holds within any wider range.
pub proof fn lemma_shows_widen(ast: Ast, rank: Map<nat, nat>, id: nat, t: SyntaxTree, lo: nat, hi: nat, lo2: nat, hi2: nat)
    requires
        shows(ast, rank, id, t, lo, hi),
        lo2 <= lo,
        hi <= hi2,
    ensures
        shows(ast, rank, id, t, lo2, hi2),
    decreases t,
{
    reveal(shows);
    assert forall|k: int| 0 <= k < t.children.len() implies {
        let c = (#[trigger] ast.children_of(id)[k])@;
        &&& rank.dom().contains(c)
        &&& rank[c] < rank[id]
        &&& shows(ast, rank, c, t.children[k], lo2, hi2)
    } by {
        let c = ast.children_of(id)[k]@;
        lemma_shows_widen(ast, rank, c, t.children[k], lo, hi, lo2, hi2);
    }
}

/// The errors that `new` adds to `old`: one error per entry, in order, each
/// with its message and its location (none where the entry has none).
pub open spec fn logged_errs(old: Errors, new: Errors, errs: Seq<Report>) -> bool {
    &&& new.count() == old.count() + errs.len()
    &&& forall|i: int|
        0 <= i < errs.len() ==> new.location_of((old.count() + i) as nat) == (#[trigger] errs[i]).loc
            && new.message_of((old.count() + i) as nat) == errs[i].message
}

/// Errors logged in two steps are logged in one.
pub proof fn lemma_logged_concat(a: Errors, b: Errors, c: Errors, e1: Seq<Report>, e2: Seq<Report>)
    requires
        logged_errs(a, b, e1),
        logged_errs(b, c, e2),
        Errors::extends(b, c),
    ensures
        logged_errs(a, c, e1 + e2),
{
    let e = e1 + e2;
    assert forall|i: int| 0 <= i < e.len() implies c.location_of((a.count() + i) as nat) == (#[trigger] e[i]).loc
        && c.message_of((a.count() + i) as nat) == e[i].message by {
        if i < e1.len() {
            assert(e[i] == e1[i]);
            assert(b.location_of((a.count() + i) as nat) == e1[i].loc);
            assert(b.message_of((a.count() + i) as nat) == e1[i].message);
        } else {
            let j = i - e1.len();
            assert(e[i] == e2[j]);
            assert((b.count() + j) as nat == (a.count() + i) as nat);
        }
    }
}

/// No error logged.
pub proof fn lemma_logged_none(a: Errors)
    ensures
        logged_errs(a, a, Seq::empty()),
{
}


/// Every operator group of the expression grammar is left associative, so
/// `a op b op c` with both operators in one group reads as `(a op b) op c`;
/// the groups, loosest first, are `+ -`, `* /`, the orderings, and `== !=`.
pub proof fn law_expr_groups_left()
    ensures
        expr_groups().len() == 4,
        forall|k: int| 0 <= k < expr_groups().len() ==> (#[trigger] expr_groups()[k]).1 == Assoc::Left,
        expr_groups()[0].0 == seq![InfixKind::Add, InfixKind::Sub],
        expr_groups()[1].0 == seq![InfixKind::Mul, InfixKind::Div],
        expr_groups()[2].0 == seq![InfixKind::Gt, InfixKind::Lt, InfixKind::Ge, InfixKind::Le],
        expr_groups()[3].0 == seq![InfixKind::Eq, InfixKind::Ne],
{
}

/// Whether `s` lies on the left spine of `t`: it is `t`, or on the left spine
/// of `t`'s first child.
pub open spec fn on_left_spine(t: SyntaxTree, s: SyntaxTree) -> bool
    decreases t,
{
    t == s || (t.children.len() > 0 && on_left_spine(t.children[0], s))
}

/// The tree a reading gives when it runs out of steps.
pub open spec fn out_of_steps() -> SyntaxTree {
    SyntaxTree { kind: AstKind::Error, loc: None, children: Seq::empty() }
}

/// Reading on in a left-associative group keeps what was read so far on the
/// left spine of the result: later operands are joined above it, never below.
pub proof fn law_left_group_keeps_left(
    toks: Tokens,
    ctx: ParserCtx,
    kinds: Seq<InfixKind>,
    next: Seq<(Seq<InfixKind>, Assoc)>,
    acc: SyntaxTree,
    errs: Seq<Report>,
    p: nat,
    fuel: nat,
)
    ensures
        ({
            let t = read(toks, ctx, Goal::LeftRest { kinds, next, acc, errs }, p, fuel).tree;
            on_left_spine(t, acc) || t == out_of_steps()
        }),
    decreases fuel,
{
    if fuel == 0 {
        reveal_with_fuel(read, 1);
    } else {
        lemma_read_left_rest(toks, ctx, kinds, next, acc, errs, p, fuel);
        let f = (fuel - 1) as nat;
        match first_infix(kinds, toks.kind_at(p)) {
            Some(k) => {
                let r = read(toks, ctx, Goal::Pratt { groups: next }, next_pos(toks, p), f);
                let joined = SyntaxTree { kind: AstKind::Infix(k), loc: None, children: seq![acc, r.tree] };
                law_left_group_keeps_left(toks, ctx, kinds, next, joined, errs + r.errs, r.end, f);
                let t = read(toks, ctx, Goal::LeftRest { kinds, next, acc: joined, errs: errs + r.errs }, r.end, f).tree;
                if on_left_spine(t, joined) {
                    lemma_spine_step(t, joined, acc);
                }
            },
            None => {},
        }
    }
}

/// The first child of a node on the left spine is on it too.
proof fn lemma_spine_step(t: SyntaxTree, s: SyntaxTree, c: SyntaxTree)
    requires
        on_left_spine(t, s),
        s.children.len() > 0,
        s.children[0] == c,
    ensures
        on_left_spine(t, c),
    decreases t,
{
    if t != s {
        lemma_spine_step(t.children[0], s, c);
    } else {
        assert(on_left_spine(c, c));
        assert(on_left_spine(s, c));
    }
}

/// In a left-associative group, an operator `k` after what was read so far
/// joins it as the first operand: the result has `k`'s node, with that first
/// operand, on its left spine.
pub proof fn law_left_operator_takes_left_operand(
    toks: Tokens,
    ctx: ParserCtx,
    kinds: Seq<InfixKind>,
    next: Seq<(Seq<InfixKind>, Assoc)>,
    acc: SyntaxTree,
    errs: Seq<Report>,
    p: nat,
    fuel: nat,
    k: InfixKind,
)
    requires
        fuel > 0,
        first_infix(kinds, toks.kind_at(p)) == Some(k),
    ensures
        ({
            let t = read(toks, ctx, Goal::LeftRest { kinds, next, acc, errs }, p, fuel).tree;
            t == out_of_steps() || exists|s: SyntaxTree|
                #![trigger on_left_spine(t, s)]
                on_left_spine(t, s) && s.kind == AstKind::Infix(k) && s.children.len() == 2 && s.children[0] == acc
        }),
{
    lemma_read_left_rest(toks, ctx, kinds, next, acc, errs, p, fuel);
    let f = (fuel - 1) as nat;
    let r = read(toks, ctx, Goal::Pratt { groups: next }, next_pos(toks, p), f);
    let joined = SyntaxTree { kind: AstKind::Infix(k), loc: None, children: seq![acc, r.tree] };
    law_left_group_keeps_left(toks, ctx, kinds, next, joined, errs + r.errs, r.end, f);
    let t = read(toks, ctx, Goal::LeftRest { kinds, next, acc: joined, errs: errs + r.errs }, r.end, f).tree;
    if on_left_spine(t, joined) {
        assert(joined.children[0] == acc);
    }
}


/// The comparison and arithmetic operators are read from the characters that
/// spell them: a lone `<` is the token of `Lt` and a lone `>` that of `Gt`,
/// `<=` and `>=` those of `Le` and `Ge`, and a lone `+`, `-`, `*`, `/` those
/// of `Add`, `Sub`, `Mul`, `Div`.
pub proof fn law_operators_spelled(src: Seq<u8>, i: nat)
    requires
        i < src.len(),
    ensures
        src[i as int] == 60 && crate::lexer::next_byte(src, i) != Some(45u8) && crate::lexer::next_byte(src, i) != Some(60u8)
            && crate::lexer::next_byte(src, i) != Some(61u8) ==> crate::lexer::scan(src, i).0 == infix_token(InfixKind::Lt),
        src[i as int] == 62 && crate::lexer::next_byte(src, i) != Some(62u8) && crate::lexer::next_byte(src, i) != Some(61u8)
            ==> crate::lexer::scan(src, i).0 == infix_token(InfixKind::Gt),
        src[i as int] == 60 && crate::lexer::next_byte(src, i) == Some(61u8) ==> crate::lexer::scan(src, i).0 == infix_token(InfixKind::Le),
        src[i as int] == 62 && crate::lexer::next_byte(src, i) == Some(61u8) ==> crate::lexer::scan(src, i).0 == infix_token(InfixKind::Ge),
        src[i as int] == 43 && crate::lexer::next_byte(src, i) != Some(43u8) ==> crate::lexer::scan(src, i).0 == infix_token(InfixKind::Add),
        src[i as int] == 45 && crate::lexer::next_byte(src, i) != Some(62u8) && crate::lexer::next_byte(src, i) != Some(45u8)
            ==> crate::lexer::scan(src, i).0 == infix_token(InfixKind::Sub),
        src[i as int] == 42 && crate::lexer::next_byte(src, i) != Some(42u8) ==> crate::lexer::scan(src, i).0 == infix_token(InfixKind::Mul),
        src[i as int] == 47 && crate::lexer::next_byte(src, i) != Some(47u8) ==> crate::lexer::scan(src, i).0 == infix_token(InfixKind::Div),
{
    crate::lexer::law_operator_characters(src, i);
}


/// Reading an expression whose loosest operator group is left associative:
/// when the first operand `l` is followed by an operator `k` of that group
/// and then by the operand `r` of the tighter groups, the node `k` applied to
/// exactly `l` and `r` lies on the left spine of the result, so any further
/// operator of the group takes that node as its first operand
/// (`a op b op c` reads as `(a op b) op c`).
pub proof fn law_pratt_left_joins_first_two(
    toks: Tokens,
    ctx: ParserCtx,
    groups: Seq<(Seq<InfixKind>, Assoc)>,
    p: nat,
    fuel: nat,
    k: InfixKind,
)
    requires
        fuel >= 3,
        groups.len() > 0,
        groups[0].1 == Assoc::Left,
        first_infix(
            groups[0].0,
            toks.kind_at(read(toks, ctx, Goal::Pratt { groups: groups.subrange(1, groups.len() as int) }, p, (fuel - 2) as nat).end),
        ) == Some(k),
    ensures
        ({
            let next = groups.subrange(1, groups.len() as int);
            let l = read(toks, ctx, Goal::Pratt { groups: next }, p, (fuel - 2) as nat);
            let r = read(toks, ctx, Goal::Pratt { groups: next }, next_pos(toks, l.end), (fuel - 3) as nat);
            let t = read(toks, ctx, Goal::Pratt { groups }, p, fuel).tree;
            t == out_of_steps() || on_left_spine(
                t,
                SyntaxTree { kind: AstKind::Infix(k), loc: None, children: seq![l.tree, r.tree] },
            )
        }),
{
    let next = groups.subrange(1, groups.len() as int);
    let kinds = groups[0].0;
    lemma_read_pratt(toks, ctx, groups, p, fuel);
    lemma_read_left(toks, ctx, kinds, next, p, (fuel - 1) as nat);
    let l = read(toks, ctx, Goal::Pratt { groups: next }, p, (fuel - 2) as nat);
    lemma_read_left_rest(toks, ctx, kinds, next, l.tree, l.errs, l.end, (fuel - 2) as nat);
    let r = read(toks, ctx, Goal::Pratt { groups: next }, next_pos(toks, l.end), (fuel - 3) as nat);
    let joined = SyntaxTree { kind: AstKind::Infix(k), loc: None, children: seq![l.tree, r.tree] };
    law_left_group_keeps_left(toks, ctx, kinds, next, joined, l.errs + r.errs, r.end, (fuel - 3) as nat);
}

} // verus!
