//! The compilation pipeline: a source text is registered as a file, split into
//! tokens, parsed into a tree, its names resolved and its nodes typed.
use crate::arena::lemma_world_space;
use crate::ast::{Ast, AstId, AstKind};
use crate::error::{ErrorKind, Errors};
use crate::file::{read_string, FileId, Files};
use crate::lexer::{
    lex_file, lex_from, scan, source_bytes, token_location, tokens_prefix, unknowns, unrecognized_message, TokenKind,
    Tokens,
};
use crate::grammar::{read_file, shows};
use crate::parser::{parse_fits, start_of, Parser, ParserCtx};
use crate::prelude::StandardPrelude;
use crate::resolve::{grouping_removed, grouping_step, ungrouped_below, Symbols};
use crate::types::{assigned, expr_ok, expr_type, lemma_assigned_none, settled, top_depth, Types};
use vstd::prelude::*;

verus! {

/// Whether the pipeline can compile the source `bytes` with 32-bit ids: its
/// offsets fit, and its tokens leave room for the nodes and errors the parse
/// may add (sixteen per token), the lexical errors and the prelude's
/// definitions.
pub open spec fn source_fits(bytes: Seq<u8>) -> bool {
    let toks = lex_from(bytes, 0);
    &&& bytes.len() < 4294967295
    &&& toks.len() < 4294967290
    &&& unknowns(toks, toks.len()) + 16 * toks.len() + 263 <= 4294967295
}

/// Everything a compilation produced.
pub struct Compilation {
    pub errors: Errors,
    pub files: Files,
    pub file: FileId,
    pub ast: Ast,
    pub symbols: Symbols,
    pub types: Types,
    pub root: AstId,
    pub typed: bool,
}

/// A source splits into no more tokens than it has bytes.
proof fn lemma_lex_len(src: Seq<u8>, i: nat)
    requires
        i <= src.len(),
    ensures
        lex_from(src, i).len() <= src.len() - i,
    decreases src.len() - i,
{
    if i < src.len() {
        if crate::lexer::is_blank(src[i as int]) {
            lemma_lex_len(src, i + 1);
        } else {
            let (k, e) = scan(src, i);
            let e2 = if i < e && e <= src.len() {
                e
            } else {
                i + 1
            };
            lemma_lex_len(src, e2);
        }
    }
}

/// No more tokens are unknown than there are tokens.
proof fn lemma_unknowns_bounded(toks: Seq<(TokenKind, nat, nat)>, k: nat)
    ensures
        unknowns(toks, k) <= k,
    decreases k,
{
    if k > 0 && k <= toks.len() {
        lemma_unknowns_bounded(toks, (k - 1) as nat);
    }
}

/// Counting unknown tokens over a longer prefix gives no fewer.
proof fn lemma_unknowns_monotone(toks: Seq<(TokenKind, nat, nat)>, a: nat, b: nat)
    requires
        a <= b <= toks.len(),
    ensures
        unknowns(toks, a) <= unknowns(toks, b),
    decreases b - a,
{
    if a < b {
        lemma_unknowns_monotone(toks, a, (b - 1) as nat);
    }
}

/// A tree that keeps the children of every node, and the kinds of the nodes
/// of a forest, keeps that forest free of groups below a node.
proof fn lemma_ungrouped_same(a: Ast, b: Ast, lo: nat, hi: nat, rank: Map<nat, nat>, x: nat)
    requires
        a.forest(lo, hi, rank),
        lo <= x < hi,
        b.children == a.children,
        forall|j: nat| j < a.count() ==> #[trigger] b.kind_of(j) == a.kind_of(j),
        ungrouped_below(a, rank, x),
    ensures
        ungrouped_below(b, rank, x),
    decreases rank[x],
{
    assert(a.node_wf(x, lo, hi, rank));
    assert forall|k: int| 0 <= k < b.children_of(x).len() implies {
        let c = (#[trigger] b.children_of(x)[k])@;
        &&& b.kind_of(c) != AstKind::Group
        &&& (rank[c] < rank[x] ==> ungrouped_below(b, rank, c))
    } by {
        let c = b.children_of(x)[k]@;
        assert(a.children_of(x)[k]@ == c);
        assert(a.kind_of(c) != AstKind::Group);
        assert(b.kind_of(c) == a.kind_of(c));
        lemma_ungrouped_same(a, b, lo, hi, rank, c);
    }
}

/// Compilation `c` parsed its tokens as `reading`: the tree read (node
/// `c.root` of `a_parse`, ranked by `rank`) became `c.ast` by removing groups
/// (giving `a_simple`) and adding the definitions that resolving names needs,
/// and the parse errors, from error `first` on, are the reading's, in order.
#[verifier::opaque]
pub open spec fn parsed_as(
    c: Compilation,
    reading: crate::grammar::Reading,
    a_parse: Ast,
    a_simple: Ast,
    rank: Map<nat, nat>,
    first: nat,
) -> bool {
    &&& shows(a_parse, rank, c.root@, reading.tree, 0, a_parse.count())
    &&& grouping_step(a_parse, a_simple)
    &&& Ast::same_nodes(a_simple, c.ast, a_simple.count())
    &&& c.errors.count() >= first + reading.errs.len()
    &&& forall|i: int|
        0 <= i < reading.errs.len() ==> c.errors.message_of((first + i) as nat) == (#[trigger] reading.errs[i]).message
            && c.errors.location_of((first + i) as nat) == reading.errs[i].loc
            && c.errors.kind_of((first + i) as nat) == ErrorKind::Parse
}

/// A parse whose tree and errors are kept by the later steps is what the
/// compilation parsed.
proof fn lemma_parsed_as(
    c: Compilation,
    reading: crate::grammar::Reading,
    a_parse: Ast,
    a_simple: Ast,
    rank: Map<nat, nat>,
    e_lex: Errors,
    e_parse: Errors,
    e_resolve: Errors,
)
    requires
        shows(a_parse, rank, c.root@, reading.tree, 0, a_parse.count()),
        grouping_step(a_parse, a_simple),
        Ast::same_nodes(a_simple, c.ast, a_simple.count()),
        crate::grammar::logged_errs(e_lex, e_parse, reading.errs),
        forall|i: nat| e_lex.count() <= i < e_parse.count() ==> #[trigger] e_parse.kind_of(i) == ErrorKind::Parse,
        Errors::extends(e_parse, e_resolve),
        Errors::extends(e_resolve, c.errors),
    ensures
        parsed_as(c, reading, a_parse, a_simple, rank, e_lex.count()),
{
    reveal(parsed_as);
    let first = e_lex.count();
    assert forall|i: int| 0 <= i < reading.errs.len() implies c.errors.message_of((first + i) as nat)
        == (#[trigger] reading.errs[i]).message && c.errors.location_of((first + i) as nat) == reading.errs[i].loc
        && c.errors.kind_of((first + i) as nat) == ErrorKind::Parse by {
        let j = (first + i) as nat;
        assert(e_parse.kind_of(j) == ErrorKind::Parse);
        assert(e_resolve.message_of(j) == e_parse.message_of(j));
        assert(e_resolve.kind_of(j) == e_parse.kind_of(j));
        assert(e_resolve.location_of(j) == e_parse.location_of(j));
    }
}

/// The bytes of a text.
pub open spec fn text_bytes(text: Seq<char>) -> Seq<u8> {
    vstd::utf8::encode_utf8(text)
}

/// Parses `tokens` from the first on into `ast` (see [`Parser::parse`]),
/// stating of the result only what compiling a source needs.
fn parse_tokens(tokens: &Tokens, ast: &mut Ast, errors: &mut Errors) -> (root: AstId)
    requires
        tokens.wf(),
        old(ast).wf(),
        old(ast).tidy(),
        old(errors).wf(),
        parse_fits(*tokens, *old(ast), *old(errors)),
    ensures
        final(ast).wf(),
        final(ast).tidy(),
        final(ast).count() >= old(ast).count(),
        Ast::same_nodes(*old(ast), *final(ast), old(ast).count()),
        old(ast).count() <= root@ < final(ast).count(),
        final(ast).kind_of(root@) == AstKind::Struct,
        exists|rank: Map<nat, nat>| final(ast).forest(old(ast).count(), final(ast).count(), rank),
        forall|p: nat, k: int|
            old(ast).count() <= p < final(ast).count() && 0 <= k < final(ast).children_of(p).len()
                ==> (#[trigger] final(ast).children_of(p)[k]) != root,
        Errors::extends(*old(errors), *final(errors)),
        forall|i: nat|
            old(errors).count() <= i < final(errors).count() ==> #[trigger] final(errors).kind_of(i)
                == ErrorKind::Parse,
        final(ast).count() + final(errors).count() <= old(ast).count() + old(errors).count() + 16
            * tokens.extent() + 3,
        ({
            let reading = read_file(*tokens, ParserCtx::Type, start_of(*tokens, 0));
            &&& exists|rank: Map<nat, nat>|
                shows(*final(ast), rank, root@, reading.tree, old(ast).count(), final(ast).count())
            &&& crate::grammar::logged_errs(*old(errors), *final(errors), reading.errs)
        }),
{
    Parser::new(tokens, ast, errors).parse()
}

/// Compiles `contents`, registered as the file at `path`: it is split into
/// tokens (unknown spans reported as lexical errors, in order, first), parsed
/// into a tree under a struct root, its groups removed and its names resolved
/// with the standard prelude, and its nodes typed. A source that does not
/// [`source_fits`] the ids is not compiled.
#[verifier::spinoff_prover]
#[verifier::rlimit(100)]
pub fn compile_source(contents: String, path: &str) -> (r: Option<Compilation>)
    ensures
        r is Some <==> source_fits(text_bytes(contents@)),
        r matches Some(c) ==> {
            let bytes = text_bytes(contents@);
            let toks = lex_from(bytes, 0);
            &&& c.files.wf()
            &&& c.file@ == 0
            &&& c.files.count() == 1
            &&& c.files.source_of(0) == contents@
            &&& c.files.path_of(0) == path@
            &&& c.errors.wf()
            &&& c.ast.wf()
            &&& c.symbols.wf()
            &&& c.types.wf()
            &&& c.errors.count() >= unknowns(toks, toks.len())
            &&& forall|j: nat|
                j < toks.len() && toks[j as int].0 == TokenKind::Unknown ==> {
                    let e = unknowns(toks, j);
                    &&& c.errors.kind_of(e) == ErrorKind::Lex
                    &&& c.errors.message_of(e) == unrecognized_message(
                        bytes.subrange(toks[j as int].1 as int, toks[j as int].2 as int),
                    )
                    &&& c.errors.location_of(e) == Some(token_location(toks, j, c.file))
                }
            &&& forall|e: nat|
                unknowns(toks, toks.len()) <= e < c.errors.count() ==> {
                    let kind = #[trigger] c.errors.kind_of(e);
                    kind == ErrorKind::Parse || kind == ErrorKind::Resolve || kind == ErrorKind::Type
                }
            &&& exists|tokens: Tokens, a_parse: Ast, a_simple: Ast, rank: Map<nat, nat>|
                #![trigger tokens_prefix(tokens, toks, toks.len(), c.file), parsed_as(c, read_file(tokens, ParserCtx::Type, 0), a_parse, a_simple, rank, unknowns(toks, toks.len()))]
                tokens_prefix(tokens, toks, toks.len(), c.file) && parsed_as(
                    c,
                    read_file(tokens, ParserCtx::Type, 0),
                    a_parse,
                    a_simple,
                    rank,
                    unknowns(toks, toks.len()),
                )
            &&& c.root@ < c.ast.count()
            &&& c.ast.kind_of(c.root@) == AstKind::Struct
            &&& grouping_removed(c.ast, c.root@)
            &&& c.typed ==> forall|i: nat| i < c.ast.count() ==> #[trigger] c.types.assignment_of(i) is Some
            &&& c.ast.count() < 4294967295 && (forall|i: nat|
                i < c.ast.count() ==> #[trigger] expr_ok(c.ast, i, top_depth(c.ast.count()))) ==> {
                &&& c.typed
                &&& forall|i: nat| i < c.ast.count() ==> (#[trigger] c.types.assignment_of(i) is Some
                    && c.types.type_of(c.types.assignment_of(i)->0) == expr_type(c.ast, i, top_depth(c.ast.count()))->0)
            }
        },
{
    let ghost text = contents@;
    if contents.as_str().as_bytes().len() >= 4294967295 {
        return None;
    }
    let mut errors = Errors::new();
    let mut files = Files::new();
    let mut ast = Ast::new();
    let mut types = Types::new();
    proof {
        lemma_world_space(files.ids);
    }
    let file = match read_string(contents, path, &mut files) {
        Some(f) => f,
        None => return None,
    };
    let ghost bytes = source_bytes(&files, file);
    let ghost toks = lex_from(bytes, 0);
    proof {
        assert(bytes == text_bytes(text));
        lemma_lex_len(bytes, 0);
        lemma_unknowns_bounded(toks, toks.len());
    }
    let ghost e_lex0 = errors;
    let tokens = lex_file(file, &files, &mut errors);
    let ghost e_lex = errors;
    proof {
        assert(tokens.extent() == toks.len());
        assert(errors.count() == unknowns(toks, toks.len()));
    }
    let kinds_len = tokens.kinds.num_allocs();
    let locations_len = tokens.locations.num_allocs();
    let extent = if kinds_len < locations_len {
        locations_len
    } else {
        kinds_len
    };
    let lexed = errors.ids.num_allocs();
    if extent >= 4294967290 || (lexed as u64) + 16 * (extent as u64) + 263 > 4294967295 {
        return None;
    }
    let root = parse_tokens(&tokens, &mut ast, &mut errors);
    let ghost e_parse = errors;
    let ghost a_parse = ast;
    let ghost reading = read_file(tokens, ParserCtx::Type, 0);
    let ghost prank = choose|rank: Map<nat, nat>| shows(a_parse, rank, root@, reading.tree, 0, a_parse.count());
    proof {
        let rank = choose|rank: Map<nat, nat>| ast.forest(0, ast.count(), rank);
        assert(0 <= root@ < ast.count() && ast.forest(0, ast.count(), rank));
        assert(shows(a_parse, prank, root@, reading.tree, 0, a_parse.count()));
    }
    ast.simplify(root);
    let ghost a_simple = ast;
    let ghost (lo, hi, rank) = choose|lo: nat, hi: nat, rank: Map<nat, nat>|
        lo <= root@ < hi && #[trigger] ast.forest(lo, hi, rank) && ungrouped_below(ast, rank, root@);
    proof {
        assert(crate::resolve::in_forest(ast, root@));
    }
    let mut symbols = ast.resolve_symbols(&files, root, &mut errors, StandardPrelude);
    proof {
        assert(Ast::same_nodes(a_simple, ast, a_simple.count()));
        crate::resolve::lemma_forest_kept(a_simple, ast, lo, hi, rank);
        lemma_ungrouped_same(a_simple, ast, lo, hi, rank, root@);
        assert(lo <= root@ < hi && ast.forest(lo, hi, rank) && ungrouped_below(ast, rank, root@));
    }
    let ghost e_resolve = errors;
    proof {
        let n = ast.count();
        if n < 4294967295 && (forall|i: nat| i < n ==> #[trigger] expr_ok(ast, i, top_depth(n))) {
            lemma_assigned_none(types, n);
            assert(settled(types, ast, Set::new(|i: nat| i < n), top_depth(n)));
            assert(types.count() + n < 4294967295 + assigned(types, n));
        }
    }
    let typed = types.compute_types(&ast, &mut symbols, &mut errors);
    proof {
        assert forall|j: nat| j < toks.len() && toks[j as int].0 == TokenKind::Unknown implies {
            let e = unknowns(toks, j);
            &&& errors.kind_of(e) == ErrorKind::Lex
            &&& errors.message_of(e) == unrecognized_message(
                bytes.subrange(toks[j as int].1 as int, toks[j as int].2 as int),
            )
            &&& errors.location_of(e) == Some(token_location(toks, j, file))
        } by {
            assert(crate::lexer::unknown_reported(e_lex, e_lex0, toks, j, bytes, file));
            lemma_unknowns_monotone(toks, j + 1, toks.len());
            assert(unknowns(toks, j) < e_lex.count()) by {
                assert(unknowns(toks, j + 1) == unknowns(toks, j) + 1);
            }
        }
        assert forall|e: nat| unknowns(toks, toks.len()) <= e < errors.count() implies {
            let kind = #[trigger] errors.kind_of(e);
            kind == ErrorKind::Parse || kind == ErrorKind::Resolve || kind == ErrorKind::Type
        } by {
            if e < e_parse.count() {
                assert(e_parse.kind_of(e) == ErrorKind::Parse);
            } else if e < e_resolve.count() {
                assert(e_resolve.kind_of(e) == ErrorKind::Resolve);
            } else {
                assert(errors.kind_of(e) == ErrorKind::Type || errors.kind_of(e) == ErrorKind::Resolve);
            }
        }
    }
    let c = Compilation { errors, files, file, ast, symbols, types, root, typed };
    proof {
        lemma_parsed_as(c, reading, a_parse, a_simple, prank, e_lex, e_parse, e_resolve);
        assert(tokens_prefix(tokens, toks, toks.len(), file));
    }
    Some(c)
}

} // verus!
