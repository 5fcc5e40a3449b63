//! The queries an editor makes about a compiled file: which node lies under
//! the cursor, what to show when hovering it, and where its definition is.
use crate::ast::{Ast, AstId};
use crate::error::Errors;
use crate::lexer::Location;
use crate::resolve::Symbols;
use crate::types::{type_text, walk_budget, Types};
use vstd::prelude::*;

verus! {

/// Whether `l` covers the zero-based position (`line`, `character`): its
/// one-based lines and columns include the position's.
pub open spec fn covers(l: Location, line: u32, character: u32) -> bool {
    &&& line + 1 >= l.line_start
    &&& line + 1 <= l.line_end
    &&& character + 1 >= l.char_start
    &&& character + 1 <= l.char_end
}

/// Node `i` has a location that covers the position, of a span shorter than
/// the largest `u32`.
pub open spec fn candidate(ast: Ast, i: nat, line: u32, character: u32) -> bool {
    &&& ast.location_of(i) is Some
    &&& covers(ast.location_of(i)->0, line, character)
    &&& ast.location_of(i)->0.end - ast.location_of(i)->0.start < u32::MAX
}

/// The length of the span of node `i`.
pub open spec fn span_len(ast: Ast, i: nat) -> int {
    ast.location_of(i)->0.end - ast.location_of(i)->0.start
}

/// Every node whose location covers the zero-based position (`line`,
/// `character`) has a span that ends no earlier than it starts.
pub open spec fn spans_ordered(ast: Ast, line: u32, character: u32) -> bool {
    forall|i: nat|
        i < ast.count() && (#[trigger] ast.location_of(i)) is Some && covers(ast.location_of(i)->0, line, character)
            ==> ast.location_of(i)->0.start <= ast.location_of(i)->0.end
}

/// Whether every node whose location covers the zero-based position (`line`,
/// `character`) has a span that ends no earlier than it starts.
pub fn check_spans(line: u32, character: u32, ast: &Ast) -> (r: bool)
    requires
        ast.wf(),
        line < u32::MAX,
        character < u32::MAX,
    ensures
        r == spans_ordered(*ast, line, character),
{
    let ids = ast.ids.iter();
    let mut k: usize = 0;
    while k < ids.len()
        invariant
            ids@.len() == ast.count(),
            forall|j: int| 0 <= j < ids@.len() ==> (#[trigger] ids@[j])@ == j,
            k <= ids@.len(),
            line < u32::MAX,
            character < u32::MAX,
            forall|i: nat|
                i < k && (#[trigger] ast.location_of(i)) is Some && covers(ast.location_of(i)->0, line, character)
                    ==> ast.location_of(i)->0.start <= ast.location_of(i)->0.end,
        decreases ids@.len() - k,
    {
        let id = ids[k];
        if let Some(location) = id.get(&ast.locations) {
            if line + 1 >= location.line_start && line + 1 <= location.line_end && character + 1 >= location.char_start
                && character + 1 <= location.char_end && location.end < location.start {
                proof {
                    assert(ids@[k as int]@ == k);
                    assert(ast.location_of(k as nat) == Some(*location));
                    assert(k < ast.count());
                }
                return false;
            }
        }
        proof {
            assert(ids@[k as int]@ == k);
        }
        k = k + 1;
    }
    true
}

/// Node `i` is the one under the position: of the nodes whose location
/// covers it, the first one with the shortest span.
pub open spec fn under_position(ast: Ast, i: nat, line: u32, character: u32) -> bool {
    &&& i < ast.count()
    &&& candidate(ast, i, line, character)
    &&& forall|j: nat| j < i && #[trigger] candidate(ast, j, line, character) ==> span_len(ast, j) > span_len(ast, i)
    &&& forall|j: nat|
        i < j < ast.count() && #[trigger] candidate(ast, j, line, character) ==> span_len(ast, j) >= span_len(ast, i)
}

/// At most one node is under a position.
pub proof fn law_under_position_unique(ast: Ast, a: nat, b: nat, line: u32, character: u32)
    requires
        under_position(ast, a, line, character),
        under_position(ast, b, line, character),
    ensures
        a == b,
{
    if a < b {
        assert(candidate(ast, a, line, character));
        assert(span_len(ast, a) > span_len(ast, b));
    } else if b < a {
        assert(candidate(ast, b, line, character));
        assert(span_len(ast, b) > span_len(ast, a));
    }
}

/// Whether no node's location covers the position.
pub open spec fn nothing_under(ast: Ast, line: u32, character: u32) -> bool {
    forall|i: nat| i < ast.count() ==> !#[trigger] candidate(ast, i, line, character)
}

/// The node under the zero-based position (`line`, `character`): of the nodes
/// whose location covers it, the first one with the shortest span.
pub fn find_ident(line: u32, character: u32, ast: &Ast) -> (r: Option<AstId>)
    requires
        ast.wf(),
        line < u32::MAX,
        character < u32::MAX,
        spans_ordered(*ast, line, character),
    ensures
        r is None <==> nothing_under(*ast, line, character),
        r matches Some(id) ==> under_position(*ast, id@, line, character),
{
    let mut found_id: Option<AstId> = None;
    let mut old_size: u32 = u32::MAX;
    let ids = ast.ids.iter();
    let mut k: usize = 0;
    while k < ids.len()
        invariant
            ast.wf(),
            spans_ordered(*ast, line, character),
            line < u32::MAX,
            character < u32::MAX,
            ids@.len() == ast.count(),
            forall|j: int| 0 <= j < ids@.len() ==> (#[trigger] ids@[j])@ == j,
            k <= ids@.len(),
            found_id is None ==> old_size == u32::MAX && forall|i: nat| i < k ==> !#[trigger] candidate(*ast, i, line, character),
            found_id matches Some(id) ==> {
                &&& id@ < k
                &&& candidate(*ast, id@, line, character)
                &&& old_size == span_len(*ast, id@)
                &&& forall|j: nat|
                    j < id@ && #[trigger] candidate(*ast, j, line, character) ==> span_len(*ast, j) > span_len(*ast, id@)
                &&& forall|j: nat|
                    id@ < j < k && #[trigger] candidate(*ast, j, line, character) ==> span_len(*ast, j) >= span_len(*ast, id@)
            },
        decreases ids@.len() - k,
    {
        let id = ids[k];
        proof {
            assert(id@ == k);
        }
        if let Some(location) = id.get(&ast.locations) {
            if line + 1 >= location.line_start && line + 1 <= location.line_end && character + 1 >= location.char_start
                && character + 1 <= location.char_end {
                proof {
                    assert(ast.location_of(k as nat) is Some);
                }
                let size = location.end - location.start;
                if size < old_size {
                    found_id = Some(id);
                    old_size = size;
                }
            }
        }
        k = k + 1;
    }
    found_id
}

/// The text shown when hovering node `id` that has the type `tid`: the node's
/// qualified name without its first character, a space and its type, in
/// backquotes (the type expanded when the node is its own definition); or, for
/// a node that refers to no definition, a note saying so with its name.
pub open spec fn hover_text(ast: Ast, symbols: Symbols, types: Types, id: AstId, tid: crate::types::TypeId) -> Option<Seq<char>> {
    let ident = symbols.qualified_of(id@);
    match symbols.definition_of(id@) {
        Some(def) => match type_text(types, ast, tid, def@ == id@, walk_budget(types.count())) {
            Some(ty) => Some(hover_frame(symbols, id, ty)),
            None => None,
        },
        None => Some("unable to find definition: \""@ + ident + "\""@),
    }
}

/// The hover text of node `id` around the text `ty` of its type: the node's
/// qualified name without its first character, a space and `ty`, in
/// backquotes.
pub open spec fn hover_frame(symbols: Symbols, id: AstId, ty: Seq<char>) -> Seq<char> {
    let ident = symbols.qualified_of(id@);
    "`"@ + (if ident.len() == 0 {
        ident
    } else {
        ident.skip(1)
    }) + " "@ + ty + "`"@
}

/// What to show when hovering the zero-based position (`line`, `character`):
/// nothing when no node is there, a note when that node has no type, and
/// otherwise [`hover_text`] of it.
pub fn hover_message(line: u32, character: u32, ast: &Ast, symbols: &Symbols, types: &Types) -> (r: Option<String>)
    requires
        ast.wf(),
        types.wf(),
        line < u32::MAX,
        character < u32::MAX,
        spans_ordered(*ast, line, character),
    ensures
        nothing_under(*ast, line, character) <==> r is None,
        r is Some ==> exists|id: AstId|
            #![trigger under_position(*ast, id@, line, character)]
            under_position(*ast, id@, line, character) && match types.assignment_of(id@) {
                None => r->0@ == "internal error: no type assignment"@,
                Some(tid) => match hover_text(*ast, *symbols, *types, id, tid) {
                    Some(text) => r->0@ == text,
                    None => exists|ty: Seq<char>| r->0@ == #[trigger] hover_frame(*symbols, id, ty),
                },
            },
{
    let hovered_id = match find_ident(line, character, ast) {
        None => return None,
        Some(id) => id,
    };
    let tid = match *hovered_id.get(&types.type_assignments) {
        None => {
            proof {
                assert(types.assignment_of(hovered_id@) is None);
            }
            return Some("internal error: no type assignment".to_owned());
        },
        Some(t) => t,
    };
    proof {
        assert(types.assignment_of(hovered_id@) == Some(tid));
    }
    let ident = hovered_id.get(&symbols.qualified_idents);
    let msg = match *hovered_id.get(&symbols.definitions) {
        Some(def) => {
            let expand = def.index() == hovered_id.index();
            let text = ident.as_str();
            let n = text.unicode_len();
            let mut msg = "`".to_owned();
            if n > 0 {
                msg.append(text.substring_char(1, n));
            }
            msg.append(" ");
            let ty = types.string_of_type(tid, expand, ast);
            msg.append(ty.as_str());
            msg.append("`");
            proof {
                if n > 0 {
                    assert(text@.subrange(1, n as int) =~= ident@.skip(1));
                }
                assert(msg@ =~= hover_frame(*symbols, hovered_id, ty@));
            }
            msg
        },
        None => {
            let mut msg = "unable to find definition: \"".to_owned();
            msg.append(ident.as_str());
            msg.append("\"");
            msg
        },
    };
    Some(msg)
}

/// The location of the definition of the node under the zero-based position
/// (`line`, `character`), if there is such a node, it refers to a definition,
/// and that definition has a location.
pub fn definition_location(line: u32, character: u32, ast: &Ast, symbols: &Symbols) -> (r: Option<Location>)
    requires
        ast.wf(),
        line < u32::MAX,
        character < u32::MAX,
        spans_ordered(*ast, line, character),
    ensures
        nothing_under(*ast, line, character) ==> r is None,
        !nothing_under(*ast, line, character) ==> exists|id: AstId|
            #![trigger under_position(*ast, id@, line, character)]
            under_position(*ast, id@, line, character) && r == match symbols.definition_of(id@) {
                Some(d) => ast.location_of(d@),
                None => None,
            },
{
    let id = match find_ident(line, character, ast) {
        None => return None,
        Some(id) => id,
    };
    let definition = match *id.get(&symbols.definitions) {
        None => return None,
        Some(d) => d,
    };
    proof {
        assert(symbols.definition_of(id@) == Some(definition));
    }
    *definition.get(&ast.locations)
}

/// A span of text positions as an editor counts them, from zero.
#[derive(Clone, Copy, Debug, PartialEq, Eq, Structural)]
pub struct Span {
    pub start_line: u32,
    pub start_character: u32,
    pub end_line: u32,
    pub end_character: u32,
}

/// A location whose lines and start column count from one.
pub open spec fn one_based(l: Location) -> bool {
    l.line_start >= 1 && l.line_end >= 1 && l.char_start >= 1
}

/// The span a diagnostic covers at location `l`: its lines and its start
/// column counted from zero, and its end column kept, just past its last one.
pub open spec fn diagnostic_span_of(l: Location) -> Span {
    Span {
        start_line: (l.line_start - 1) as u32,
        start_character: (l.char_start - 1) as u32,
        end_line: (l.line_end - 1) as u32,
        end_character: l.char_end,
    }
}

/// The span a definition is shown at for location `l`: its lines and its start
/// column counted from zero, and the end line, counted from zero, as the end
/// column.
pub open spec fn definition_span_of(l: Location) -> Span {
    Span {
        start_line: (l.line_start - 1) as u32,
        start_character: (l.char_start - 1) as u32,
        end_line: (l.line_end - 1) as u32,
        end_character: (l.line_end - 1) as u32,
    }
}

/// The span a diagnostic covers at location `l`.
pub fn diagnostic_span(l: &Location) -> (r: Span)
    requires
        one_based(*l),
    ensures
        r == diagnostic_span_of(*l),
{
    Span {
        start_line: l.line_start - 1,
        start_character: l.char_start - 1,
        end_line: l.line_end - 1,
        end_character: l.char_end,
    }
}

/// The span a definition at location `l` is shown at.
pub fn definition_span(l: &Location) -> (r: Span)
    requires
        one_based(*l),
    ensures
        r == definition_span_of(*l),
{
    Span {
        start_line: l.line_start - 1,
        start_character: l.char_start - 1,
        end_line: l.line_end - 1,
        end_character: l.line_end - 1,
    }
}

/// An error as an editor shows it: where it is, if it has a location, and its
/// message.
pub struct Diagnostic {
    pub span: Option<Span>,
    pub message: String,
}

/// Every located error's lines and start column count from one.
pub open spec fn errors_one_based(errors: Errors) -> bool {
    forall|i: nat| i < errors.count() && (#[trigger] errors.location_of(i)) is Some ==> one_based(errors.location_of(i)->0)
}

/// The diagnostics for the errors reported, one per error, in order.
pub fn diagnostics(errors: &Errors) -> (r: Vec<Diagnostic>)
    requires
        errors.wf(),
        errors_one_based(*errors),
    ensures
        r@.len() == errors.count(),
        forall|i: int|
            0 <= i < r@.len() ==> (#[trigger] r@[i]).message@ == errors.message_of(i as nat) && r@[i].span == match errors.location_of(i as nat) {
                Some(l) => Some(diagnostic_span_of(l)),
                None => None,
            },
{
    let ids = errors.ids.iter();
    let mut out: Vec<Diagnostic> = Vec::new();
    let mut k: usize = 0;
    while k < ids.len()
        invariant
            errors.wf(),
            errors_one_based(*errors),
            ids@.len() == errors.count(),
            forall|j: int| 0 <= j < ids@.len() ==> (#[trigger] ids@[j])@ == j,
            k <= ids@.len(),
            out@.len() == k,
            forall|i: int|
                0 <= i < k ==> (#[trigger] out@[i]).message@ == errors.message_of(i as nat) && out@[i].span == match errors.location_of(i as nat) {
                    Some(l) => Some(diagnostic_span_of(l)),
                    None => None,
                },
        decreases ids@.len() - k,
    {
        let id = ids[k];
        proof {
            assert(id@ == k);
        }
        let span = match id.get(&errors.locations) {
            Some(l) => {
                proof {
                    assert(errors.location_of(k as nat) is Some);
                }
                Some(diagnostic_span(l))
            },
            None => None,
        };
        out.push(Diagnostic { span, message: id.get(&errors.messages).clone() });
        k = k + 1;
    }
    out
}

} // verus!
