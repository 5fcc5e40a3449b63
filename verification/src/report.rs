//! The text of the compiler's human-readable reports: where a location is,
//! the errors with their causes, the syntax tree and the symbols as indented
//! outlines, and the type of each named node. The text comes in parts, so
//! that the part that shows it can style each one.
use crate::arena::Arena;
use crate::ast::{Ast, AstId, AstKind, AstMarker, InfixKind};
use crate::error::{ErrorKind, Errors};
use crate::file::Files;
use crate::lexer::Location;
use crate::resolve::Symbols;
use crate::text::{decimal, decimal_string, push_decimal};
use crate::types::{type_text, walk_budget, Types};
use vstd::prelude::*;

verus! {

/// `n` spaces.
pub open spec fn spaces(n: nat) -> Seq<char> {
    Seq::new(n, |i: int| ' ')
}

/// A string of `n` spaces.
pub fn spaces_string(n: u64) -> (r: String)
    ensures
        r@ == spaces(n as nat),
{
    let mut buf = String::new();
    let mut i: u64 = 0;
    while i < n
        invariant
            i <= n,
            buf@ =~= spaces(i as nat),
        decreases n - i,
    {
        proof {
            reveal_strlit(" ");
        }
        buf.append(" ");
        i = i + 1;
    }
    buf
}

/// A number, or a range of two different numbers joined by a dash.
pub open spec fn range_text(a: u32, b: u32) -> Seq<char> {
    decimal(a as nat) + if b != a {
        seq!['-'] + decimal(b as nat)
    } else {
        Seq::empty()
    }
}

/// The text that names a location: the path of its file, then its line or
/// lines, then its column or columns, separated by colons.
pub open spec fn location_text(files: Files, l: Location) -> Seq<char> {
    files.path_of(l.file@) + seq![':'] + range_text(l.line_start, l.line_end) + seq![':'] + range_text(
        l.char_start,
        l.char_end,
    )
}

/// The text that names a location, if there is one.
pub open spec fn location_text_opt(files: Files, l: Option<Location>) -> Option<Seq<char>> {
    match l {
        Some(l) => Some(location_text(files, l)),
        None => None,
    }
}

/// Appends [`range_text`] of `a` and `b` to `buf`.
fn push_range(buf: &mut String, a: u32, b: u32)
    ensures
        final(buf)@ == old(buf)@ + range_text(a, b),
{
    push_decimal(buf, a as u64);
    if b != a {
        proof {
            reveal_strlit("-");
        }
        buf.append("-");
        push_decimal(buf, b as u64);
    }
    proof {
        assert(buf@ =~= old(buf)@ + range_text(a, b));
    }
}

impl Location {
    /// The text that names this location, as [`location_text`] gives it.
    pub fn describe(&self, files: &Files) -> (r: String)
        ensures
            r@ == location_text(*files, *self),
    {
        proof {
            reveal_strlit(":");
        }
        let mut buf = self.file.get(&files.paths).clone();
        buf.append(":");
        push_range(&mut buf, self.line_start, self.line_end);
        buf.append(":");
        push_range(&mut buf, self.char_start, self.char_end);
        proof {
            assert(buf@ =~= location_text(*files, *self));
        }
        buf
    }
}

/// The text that names `l`, if there is a location.
fn describe_opt(l: Option<Location>, files: &Files) -> (r: Option<String>)
    ensures
        match r {
            Some(s) => location_text_opt(*files, l) == Some(s@),
            None => l is None,
        },
{
    match l {
        Some(l) => Some(l.describe(files)),
        None => None,
    }
}

/// The name of an error kind.
pub open spec fn error_kind_text(kind: ErrorKind) -> Seq<char> {
    match kind {
        ErrorKind::Io => seq!['I', 'o'],
        ErrorKind::Lex => seq!['L', 'e', 'x'],
        ErrorKind::Parse => seq!['P', 'a', 'r', 's', 'e'],
        ErrorKind::Resolve => seq!['R', 'e', 's', 'o', 'l', 'v', 'e'],
        ErrorKind::Type => seq!['T', 'y', 'p', 'e'],
        ErrorKind::Unknown => seq!['U', 'n', 'k', 'n', 'o', 'w', 'n'],
    }
}

/// The heading of an error of kind `kind`: its name and ` Error`.
pub open spec fn error_heading(kind: ErrorKind) -> Seq<char> {
    error_kind_text(kind) + seq![' ', 'E', 'r', 'r', 'o', 'r']
}

/// The heading of an error of kind `kind`.
fn heading(kind: ErrorKind) -> (r: String)
    ensures
        r@ == error_heading(kind),
{
    let mut buf = match kind {
        ErrorKind::Io => {
            proof {
                reveal_strlit("Io");
            }
            "Io".to_owned()
        },
        ErrorKind::Lex => {
            proof {
                reveal_strlit("Lex");
            }
            "Lex".to_owned()
        },
        ErrorKind::Parse => {
            proof {
                reveal_strlit("Parse");
            }
            "Parse".to_owned()
        },
        ErrorKind::Resolve => {
            proof {
                reveal_strlit("Resolve");
            }
            "Resolve".to_owned()
        },
        ErrorKind::Type => {
            proof {
                reveal_strlit("Type");
            }
            "Type".to_owned()
        },
        ErrorKind::Unknown => {
            proof {
                reveal_strlit("Unknown");
            }
            "Unknown".to_owned()
        },
    };
    proof {
        reveal_strlit(" Error");
    }
    buf.append(" Error");
    proof {
        assert(buf@ =~= error_heading(kind));
    }
    buf
}

/// One line of an error report: the heading of an error (empty on the lines
/// of its causes), the indentation of a cause (empty on an error's first
/// line), the message, and where it is.
pub struct ReportLine {
    pub heading: String,
    pub indent: String,
    pub message: String,
    pub location: Option<String>,
}

/// A report line as text.
pub type ReportLineText = (Seq<char>, Seq<char>, Seq<char>, Option<Seq<char>>);

impl View for ReportLine {
    type V = ReportLineText;

    open spec fn view(&self) -> ReportLineText {
        (
            self.heading@,
            self.indent@,
            self.message@,
            match self.location {
                Some(s) => Some(s@),
                None => None,
            },
        )
    }
}

/// The lines of the causes of error `e`, following each cause to its own cause
/// for at most `fuel` steps: each shows the cause's message at the location of
/// the error it was reached from.
pub open spec fn cause_lines(errors: Errors, files: Files, e: nat, indent: Seq<char>, fuel: nat) -> Seq<ReportLineText>
    decreases fuel,
{
    if fuel == 0 {
        Seq::empty()
    } else {
        match errors.cause_of(e) {
            None => Seq::empty(),
            Some(c) => seq![
                (Seq::<char>::empty(), indent, errors.message_of(c@), location_text_opt(files, errors.location_of(e))),
            ] + cause_lines(errors, files, c@, indent, (fuel - 1) as nat),
        }
    }
}

/// The lines for error `e`: none unless it is a root; else its heading,
/// message and location, then its causes, indented past the heading and two
/// more spaces.
pub open spec fn error_lines(errors: Errors, files: Files, e: nat) -> Seq<ReportLineText> {
    if errors.is_root.value_at(e) {
        let h = error_heading(errors.kind_of(e));
        seq![(h, Seq::<char>::empty(), errors.message_of(e), location_text_opt(files, errors.location_of(e)))]
            + cause_lines(errors, files, e, spaces(h.len() + 2), errors.count())
    } else {
        Seq::empty()
    }
}

/// The lines for the first `n` errors, in order.
pub open spec fn report_text(errors: Errors, files: Files, n: nat) -> Seq<ReportLineText>
    decreases n,
{
    if n == 0 {
        Seq::empty()
    } else {
        report_text(errors, files, (n - 1) as nat) + error_lines(errors, files, (n - 1) as nat)
    }
}

/// The views of a list of report lines.
pub open spec fn report_views(lines: Seq<ReportLine>) -> Seq<ReportLineText> {
    lines.map_values(|l: ReportLine| l@)
}

/// Following the causes of error `e` for one more step, when it has a cause,
/// gives that cause's line and then the lines from the cause.
proof fn lemma_cause_step(errors: Errors, files: Files, e: nat, indent: Seq<char>, fuel: nat)
    requires
        fuel > 0,
    ensures
        cause_lines(errors, files, e, indent, fuel) == match errors.cause_of(e) {
            None => Seq::<ReportLineText>::empty(),
            Some(c) => seq![
                (Seq::<char>::empty(), indent, errors.message_of(c@), location_text_opt(files, errors.location_of(e))),
            ] + cause_lines(errors, files, c@, indent, (fuel - 1) as nat),
        },
{
}

/// Adding a line to a list adds its view to the list's views.
proof fn lemma_views_push(lines: Seq<ReportLine>, l: ReportLine)
    ensures
        report_views(lines.push(l)) == report_views(lines).push(l@),
{
    assert(report_views(lines.push(l)) =~= report_views(lines).push(l@));
}

impl Errors {
    /// The error report: the roots are computed first, then every error that
    /// is a root, in order, gets its lines, as [`report_text`] gives them.
    /// A chain of causes is followed for at most as many steps as there are
    /// errors.
    pub fn report(&mut self, files: &Files) -> (r: Vec<ReportLine>)
        requires
            old(self).wf(),
        ensures
            final(self).wf(),
            final(self).ids == old(self).ids,
            final(self).kinds == old(self).kinds,
            final(self).messages == old(self).messages,
            final(self).locations == old(self).locations,
            final(self).causes == old(self).causes,
            forall|i: nat|
                i < old(self).count() ==> final(self).is_root.value_at(i) == !exists|j: nat|
                    j < old(self).count() && #[trigger] crate::error::caused(*old(self), j, i),
            report_views(r@) == report_text(*final(self), *files, final(self).count()),
    {
        self.compute_roots();
        let ids = self.ids.iter();
        let n = self.ids.num_allocs();
        let mut out: Vec<ReportLine> = Vec::new();
        let mut k: usize = 0;
        proof {
            assert(report_views(out@) =~= Seq::<ReportLineText>::empty());
        }
        while k < n
            invariant
                self.wf(),
                n == self.count(),
                ids@.len() == n,
                forall|j: int| 0 <= j < ids@.len() ==> (#[trigger] ids@[j])@ == j,
                k <= n,
                report_views(out@) == report_text(*self, *files, k as nat),
            decreases n - k,
        {
            let err = ids[k];
            proof {
                assert(err@ == k);
            }
            let ghost base = report_views(out@);
            if *err.get(&self.is_root) {
                let h = heading(*err.get(&self.kinds));
                let h_len = h.as_str().unicode_len();
                let first = ReportLine {
                    heading: h,
                    indent: String::new(),
                    message: err.get(&self.messages).clone(),
                    location: describe_opt(*err.get(&self.locations), files),
                };
                proof {
                    lemma_views_push(out@, first);
                }
                out.push(first);
                let indent = spaces_string(h_len as u64 + 2);
                let ghost head = base.push(first@);
                let mut cur = err;
                let mut fuel = n;
                let mut done = false;
                proof {
                    assert(head + cause_lines(*self, *files, k as nat, indent@, n as nat) == report_views(out@)
                        + cause_lines(*self, *files, cur@, indent@, fuel as nat));
                }
                while fuel > 0 && !done
                    invariant
                        self.wf(),
                        fuel <= n,
                        done ==> self.cause_of(cur@) is None,
                        head + cause_lines(*self, *files, k as nat, indent@, n as nat) == report_views(out@)
                            + cause_lines(*self, *files, cur@, indent@, fuel as nat),
                    decreases 2 * fuel + if done { 0int } else { 1int },
                {
                    proof {
                        lemma_cause_step(*self, *files, cur@, indent@, fuel as nat);
                    }
                    match *cur.get(&self.causes) {
                        None => {
                            done = true;
                        },
                        Some(c) => {
                            let line = ReportLine {
                                heading: String::new(),
                                indent: indent.clone(),
                                message: c.get(&self.messages).clone(),
                                location: describe_opt(*cur.get(&self.locations), files),
                            };
                            proof {
                                lemma_views_push(out@, line);
                                assert(report_views(out@).push(line@) + cause_lines(*self, *files, c@, indent@, (fuel - 1) as nat)
                                    =~= report_views(out@) + (seq![line@] + cause_lines(*self, *files, c@, indent@, (fuel - 1) as nat)));
                            }
                            out.push(line);
                            cur = c;
                            fuel = fuel - 1;
                        },
                    }
                }
                proof {
                    if fuel > 0 {
                        lemma_cause_step(*self, *files, cur@, indent@, fuel as nat);
                    }
                    assert(report_views(out@) + cause_lines(*self, *files, cur@, indent@, fuel as nat) =~= report_views(out@));
                    assert(report_text(*self, *files, (k + 1) as nat) == base + error_lines(*self, *files, k as nat));
                    assert(head + cause_lines(*self, *files, k as nat, indent@, n as nat) =~= base + error_lines(*self, *files, k as nat));
                }
            } else {
                proof {
                    assert(report_text(*self, *files, (k + 1) as nat) =~= base + error_lines(*self, *files, k as nat));
                }
            }
            k = k + 1;
        }
        out
    }
}

/// The nodes among the first `n` whose qualified names are not empty, in order.
pub open spec fn named_nodes(symbols: Symbols, n: nat) -> Seq<nat>
    decreases n,
{
    if n == 0 {
        Seq::empty()
    } else {
        named_nodes(symbols, (n - 1) as nat) + if symbols.qualified_of((n - 1) as nat).len() > 0 {
            seq![(n - 1) as nat]
        } else {
            Seq::empty()
        }
    }
}

/// The padding after a name in the type listing: spaces up to the 44th byte,
/// or none past it.
pub open spec fn name_pad(name: Seq<char>) -> Seq<char> {
    let b = vstd::utf8::encode_utf8(name).len();
    spaces(if b < 44 {
        (44 - b) as nat
    } else {
        0
    })
}

/// One line of the type listing: a node's qualified name, the padding after
/// it, and the text of its type, or nothing for a node that has no type.
pub struct TypeLine {
    pub name: String,
    pub pad: String,
    pub ty: Option<String>,
}

impl Types {
    /// The type listing: one line for each node with a qualified name, in
    /// order, with the text of its type expanded.
    pub fn listing(&self, ast: &Ast, symbols: &Symbols) -> (r: Vec<TypeLine>)
        requires
            self.wf(),
            ast.wf(),
        ensures
            r@.len() == named_nodes(*symbols, ast.count()).len(),
            forall|i: int|
                0 <= i < r@.len() ==> {
                    let x = named_nodes(*symbols, ast.count())[i];
                    &&& (#[trigger] r@[i]).name@ == symbols.qualified_of(x)
                    &&& r@[i].pad@ == name_pad(symbols.qualified_of(x))
                    &&& (r@[i].ty is Some <==> self.assignment_of(x) is Some)
                    &&& self.assignment_of(x) matches Some(t) ==> (type_text(*self, *ast, t, true, walk_budget(self.count()))
                        matches Some(text) ==> (r@[i].ty matches Some(ty) && ty@ == text))
                },
    {
        let ids = ast.ids.iter();
        let mut out: Vec<TypeLine> = Vec::new();
        let mut k: usize = 0;
        while k < ids.len()
            invariant
                self.wf(),
                ids@.len() == ast.count(),
                forall|j: int| 0 <= j < ids@.len() ==> (#[trigger] ids@[j])@ == j,
                k <= ids@.len(),
                out@.len() == named_nodes(*symbols, k as nat).len(),
                forall|i: int|
                    0 <= i < out@.len() ==> {
                        let x = named_nodes(*symbols, k as nat)[i];
                        &&& (#[trigger] out@[i]).name@ == symbols.qualified_of(x)
                        &&& out@[i].pad@ == name_pad(symbols.qualified_of(x))
                        &&& (out@[i].ty is Some <==> self.assignment_of(x) is Some)
                        &&& self.assignment_of(x) matches Some(t) ==> (type_text(*self, *ast, t, true, walk_budget(self.count()))
                            matches Some(text) ==> (out@[i].ty matches Some(ty) && ty@ == text))
                    },
            decreases ids@.len() - k,
        {
            let id = ids[k];
            proof {
                assert(id@ == k);
            }
            let ghost before = out@;
            let ghost prev = named_nodes(*symbols, k as nat);
            let qualified = id.get(&symbols.qualified_idents);
            if qualified.as_str().unicode_len() > 0 {
                let b = qualified.as_str().as_bytes().len();
                let pad = if b < 44 {
                    spaces_string((44 - b) as u64)
                } else {
                    spaces_string(0)
                };
                let ty = match *id.get(&self.type_assignments) {
                    Some(t) => Some(self.string_of_type(t, true, ast)),
                    None => None,
                };
                out.push(TypeLine { name: qualified.clone(), pad, ty });
                proof {
                    assert(named_nodes(*symbols, (k + 1) as nat) =~= prev.push(k as nat));
                    assert forall|i: int| 0 <= i < out@.len() implies {
                        let x = named_nodes(*symbols, (k + 1) as nat)[i];
                        &&& (#[trigger] out@[i]).name@ == symbols.qualified_of(x)
                        &&& out@[i].pad@ == name_pad(symbols.qualified_of(x))
                        &&& (out@[i].ty is Some <==> self.assignment_of(x) is Some)
                        &&& self.assignment_of(x) matches Some(t) ==> (type_text(*self, *ast, t, true, walk_budget(self.count()))
                            matches Some(text) ==> (out@[i].ty matches Some(ty) && ty@ == text))
                    } by {
                        if i < before.len() {
                            assert(out@[i] == before[i]);
                            assert(named_nodes(*symbols, (k + 1) as nat)[i] == prev[i]);
                        } else {
                            assert(named_nodes(*symbols, (k + 1) as nat)[i] == k);
                            assert(out@[i].pad@ == name_pad(symbols.qualified_of(k as nat)));
                        }
                    }
                }
            } else {
                proof {
                    assert(named_nodes(*symbols, (k + 1) as nat) =~= prev);
                }
            }
            k = k + 1;
        }
        out
    }
}

/// The name of an infix operator.
pub open spec fn infix_text(k: InfixKind) -> Seq<char> {
    match k {
        InfixKind::Add => "Add"@,
        InfixKind::Sub => "Sub"@,
        InfixKind::Mul => "Mul"@,
        InfixKind::Div => "Div"@,
        InfixKind::Gt => "Gt"@,
        InfixKind::Lt => "Lt"@,
        InfixKind::Ge => "Ge"@,
        InfixKind::Le => "Le"@,
        InfixKind::Eq => "Eq"@,
        InfixKind::Ne => "Ne"@,
    }
}

/// The name of a node kind; an operator's kind names its operator in brackets.
pub open spec fn kind_text(k: AstKind) -> Seq<char> {
    match k {
        AstKind::VIdent => "VIdent"@,
        AstKind::TIdent => "TIdent"@,
        AstKind::Void => "Void"@,
        AstKind::String => "String"@,
        AstKind::Char => "Char"@,
        AstKind::NoneValue => "None"@,
        AstKind::Integer => "Integer"@,
        AstKind::Float => "Float"@,
        AstKind::Call => "Call"@,
        AstKind::Method => "Method"@,
        AstKind::Group => "Group"@,
        AstKind::Func => "Func"@,
        AstKind::Block => "Block"@,
        AstKind::Proj => "Proj"@,
        AstKind::Index => "Index"@,
        AstKind::Struct => "Struct"@,
        AstKind::Tuple => "Tuple"@,
        AstKind::Array => "Array"@,
        AstKind::Repeat => "Repeat"@,
        AstKind::Vector => "Vector"@,
        AstKind::VField => "VField"@,
        AstKind::TField => "TField"@,
        AstKind::Arg => "Arg"@,
        AstKind::Optional => "Optional"@,
        AstKind::Bind => "Bind"@,
        AstKind::BindMut => "BindMut"@,
        AstKind::Assign => "Assign"@,
        AstKind::If => "If"@,
        AstKind::IfElse => "IfElse"@,
        AstKind::Infix(op) => "Infix("@ + infix_text(op) + ")"@,
        AstKind::BuiltinI32 => "BuiltinI32"@,
        AstKind::BuiltinF32 => "BuiltinF32"@,
        AstKind::BuiltinString => "BuiltinString"@,
        AstKind::BuiltinChar => "BuiltinChar"@,
        AstKind::BuiltinBool => "BuiltinBool"@,
        AstKind::BuiltinTrue => "BuiltinTrue"@,
        AstKind::BuiltinFalse => "BuiltinFalse"@,
        AstKind::Error => "Error"@,
    }
}

/// The name of an infix operator.
fn infix_name(k: InfixKind) -> (r: &'static str)
    ensures
        r@ == infix_text(k),
{
    match k {
        InfixKind::Add => "Add",
        InfixKind::Sub => "Sub",
        InfixKind::Mul => "Mul",
        InfixKind::Div => "Div",
        InfixKind::Gt => "Gt",
        InfixKind::Lt => "Lt",
        InfixKind::Ge => "Ge",
        InfixKind::Le => "Le",
        InfixKind::Eq => "Eq",
        InfixKind::Ne => "Ne",
    }
}

/// The name of a node kind, as [`kind_text`] gives it.
pub fn kind_name(k: AstKind) -> (r: String)
    ensures
        r@ == kind_text(k),
{
    let name = match k {
        AstKind::VIdent => "VIdent",
        AstKind::TIdent => "TIdent",
        AstKind::Void => "Void",
        AstKind::String => "String",
        AstKind::Char => "Char",
        AstKind::NoneValue => "None",
        AstKind::Integer => "Integer",
        AstKind::Float => "Float",
        AstKind::Call => "Call",
        AstKind::Method => "Method",
        AstKind::Group => "Group",
        AstKind::Func => "Func",
        AstKind::Block => "Block",
        AstKind::Proj => "Proj",
        AstKind::Index => "Index",
        AstKind::Struct => "Struct",
        AstKind::Tuple => "Tuple",
        AstKind::Array => "Array",
        AstKind::Repeat => "Repeat",
        AstKind::Vector => "Vector",
        AstKind::VField => "VField",
        AstKind::TField => "TField",
        AstKind::Arg => "Arg",
        AstKind::Optional => "Optional",
        AstKind::Bind => "Bind",
        AstKind::BindMut => "BindMut",
        AstKind::Assign => "Assign",
        AstKind::If => "If",
        AstKind::IfElse => "IfElse",
        AstKind::Infix(op) => {
            let mut text = "Infix(".to_owned();
            text.append(infix_name(op));
            text.append(")");
            return text;
        },
        AstKind::BuiltinI32 => "BuiltinI32",
        AstKind::BuiltinF32 => "BuiltinF32",
        AstKind::BuiltinString => "BuiltinString",
        AstKind::BuiltinChar => "BuiltinChar",
        AstKind::BuiltinBool => "BuiltinBool",
        AstKind::BuiltinTrue => "BuiltinTrue",
        AstKind::BuiltinFalse => "BuiltinFalse",
        AstKind::Error => "Error",
    };
    name.to_owned()
}

/// `a - b`, or zero when `b` is larger.
pub open spec fn sat_sub(a: nat, b: nat) -> nat {
    if b < a {
        (a - b) as nat
    } else {
        0
    }
}

/// A node's index in brackets, padded on the left to three digits.
pub open spec fn index_label(i: nat) -> Seq<char> {
    seq!['['] + spaces(sat_sub(3, decimal(i).len())) + decimal(i) + seq![']']
}

/// One line of an outline of a tree: the node's index label, the indentation
/// of its depth, the name of its kind, its name, the padding that lines up
/// the locations, and its location.
pub struct OutlineLine {
    pub label: String,
    pub indent: String,
    pub kind: String,
    pub name: String,
    pub pad: String,
    pub location: Option<String>,
}

/// An outline line as text.
pub type OutlineLineText = (Seq<char>, Seq<char>, Seq<char>, Seq<char>, Seq<char>, Option<Seq<char>>);

impl View for OutlineLine {
    type V = OutlineLineText;

    open spec fn view(&self) -> OutlineLineText {
        (
            self.label@,
            self.indent@,
            self.kind@,
            self.name@,
            self.pad@,
            match self.location {
                Some(s) => Some(s@),
                None => None,
            },
        )
    }
}

/// The views of a list of outline lines.
pub open spec fn outline_views(lines: Seq<OutlineLine>) -> Seq<OutlineLineText> {
    lines.map_values(|l: OutlineLine| l@)
}

/// The outline line of node `id` at depth `depth`, named from `names`.
pub open spec fn outline_line(ast: Ast, names: Arena<AstMarker, String>, files: Files, id: nat, depth: nat) -> OutlineLineText {
    let kind = kind_text(ast.kind_of(id));
    (
        index_label(id),
        spaces(2 * depth),
        kind,
        names.value_at(id)@,
        spaces(sat_sub(36, 2 * depth + kind.len())),
        location_text_opt(files, ast.location_of(id)),
    )
}

/// The outline of the tree under node `id`, from depth `depth`: the node's
/// line, then the outlines of its children one level deeper, in order; at
/// most `fuel` levels are shown.
pub open spec fn outline_text(ast: Ast, names: Arena<AstMarker, String>, files: Files, id: nat, depth: nat, fuel: nat) -> Seq<
    OutlineLineText,
>
    decreases fuel, 0nat,
{
    if fuel == 0 {
        Seq::empty()
    } else {
        seq![outline_line(ast, names, files, id, depth)] + children_outline(
            ast,
            names,
            files,
            id,
            depth,
            (fuel - 1) as nat,
            ast.children_of(id).len(),
        )
    }
}

/// The outlines of the first `k` children of node `id`, one level below
/// depth `depth`, with `fuel` levels each.
pub open spec fn children_outline(
    ast: Ast,
    names: Arena<AstMarker, String>,
    files: Files,
    id: nat,
    depth: nat,
    fuel: nat,
    k: nat,
) -> Seq<OutlineLineText>
    decreases fuel, k + 1,
{
    if k == 0 {
        Seq::empty()
    } else {
        children_outline(ast, names, files, id, depth, fuel, (k - 1) as nat) + outline_text(
            ast,
            names,
            files,
            ast.children_of(id)[k - 1]@,
            depth + 1,
            fuel,
        )
    }
}

/// Adding a line to a list adds its view to the list's views.
proof fn lemma_outline_push(lines: Seq<OutlineLine>, l: OutlineLine)
    ensures
        outline_views(lines.push(l)) == outline_views(lines).push(l@),
{
    assert(outline_views(lines.push(l)) =~= outline_views(lines).push(l@));
}

/// The outline line of node `id` at depth `depth`.
fn outline_line_of(ast: &Ast, names: &Arena<AstMarker, String>, files: &Files, id: AstId, depth: u64) -> (r: OutlineLine)
    requires
        depth <= 4294967296,
    ensures
        r@ == outline_line(*ast, *names, *files, id@, depth as nat),
{
    let idx = id.index();
    let index = decimal_string(idx as u64);
    let digits = index.as_str().unicode_len();
    proof {
        reveal_strlit("[");
        reveal_strlit("]");
    }
    let mut label = "[".to_owned();
    let lead = if digits < 3 {
        spaces_string((3 - digits) as u64)
    } else {
        spaces_string(0)
    };
    label.append(lead.as_str());
    label.append(index.as_str());
    label.append("]");
    let kind = kind_name(*id.get(&ast.kinds));
    let kind_len = kind.as_str().unicode_len() as u64;
    let pad = if kind_len < 36 && 2 * depth < 36 - kind_len {
        spaces_string(36 - kind_len - 2 * depth)
    } else {
        spaces_string(0)
    };
    proof {
        assert(idx as nat == id@);
        assert(label@ =~= index_label(id@));
    }
    OutlineLine {
        label,
        indent: spaces_string(2 * depth),
        kind,
        name: id.get(names).clone(),
        pad,
        location: describe_opt(*id.get(&ast.locations), files),
    }
}

/// Appends the outline of the tree under node `id` to `out`.
fn outline_into(
    ast: &Ast,
    names: &Arena<AstMarker, String>,
    files: &Files,
    id: AstId,
    depth: u64,
    fuel: u64,
    out: &mut Vec<OutlineLine>,
)
    requires
        depth + fuel <= 4294967297,
    ensures
        outline_views(final(out)@) == outline_views(old(out)@) + outline_text(*ast, *names, *files, id@, depth as nat, fuel as nat),
    decreases fuel, 0nat,
{
    if fuel == 0 {
        proof {
            assert(outline_views(out@) + Seq::<OutlineLineText>::empty() =~= outline_views(out@));
        }
        return;
    }
    let line = outline_line_of(ast, names, files, id, depth);
    let ghost base = outline_views(out@);
    proof {
        lemma_outline_push(out@, line);
    }
    out.push(line);
    let ghost head = base.push(line@);
    let n = id.get(&ast.children).len();
    let mut i: usize = 0;
    proof {
        assert(head + children_outline(*ast, *names, *files, id@, depth as nat, (fuel - 1) as nat, 0) =~= head);
    }
    while i < n
        invariant
            i <= n,
            n == ast.children_of(id@).len(),
            depth + fuel <= 4294967297,
            fuel > 0,
            outline_views(out@) == head + children_outline(*ast, *names, *files, id@, depth as nat, (fuel - 1) as nat, i as nat),
        decreases n - i,
    {
        let child = id.get(&ast.children).get(i);
        proof {
            assert(ast.children_of(id@)[i as int] == child);
        }
        outline_into(ast, names, files, child, depth + 1, fuel - 1, out);
        proof {
            assert(head + children_outline(*ast, *names, *files, id@, depth as nat, (fuel - 1) as nat, (i + 1) as nat)
                =~= (head + children_outline(*ast, *names, *files, id@, depth as nat, (fuel - 1) as nat, i as nat))
                + outline_text(*ast, *names, *files, child@, (depth + 1) as nat, (fuel - 1) as nat));
        }
        i = i + 1;
    }
    proof {
        assert(outline_text(*ast, *names, *files, id@, depth as nat, fuel as nat) == seq![line@] + children_outline(
            *ast,
            *names,
            *files,
            id@,
            depth as nat,
            (fuel - 1) as nat,
            n as nat,
        ));
        assert(head + children_outline(*ast, *names, *files, id@, depth as nat, (fuel - 1) as nat, n as nat) =~= base
            + outline_text(*ast, *names, *files, id@, depth as nat, fuel as nat));
    }
}

impl Ast {
    /// The outline of the tree under node `id`, each node named by its
    /// identifier; a level is shown for each node there could be, and one
    /// more.
    pub fn outline(&self, id: AstId, files: &Files) -> (r: Vec<OutlineLine>)
        requires
            self.wf(),
        ensures
            outline_views(r@) == outline_text(*self, self.idents, *files, id@, 0, self.count() + 1),
    {
        proof {
            crate::arena::lemma_world_space(self.ids);
        }
        let mut out: Vec<OutlineLine> = Vec::new();
        let fuel = self.ids.num_allocs() as u64 + 1;
        outline_into(self, &self.idents, files, id, 0, fuel, &mut out);
        proof {
            assert(outline_views(Seq::<OutlineLine>::empty()) =~= Seq::<OutlineLineText>::empty());
            assert(Seq::<OutlineLineText>::empty() + outline_text(*self, self.idents, *files, id@, 0, self.count() + 1)
                =~= outline_text(*self, self.idents, *files, id@, 0, self.count() + 1));
        }
        out
    }
}

impl Symbols {
    /// The outline of the tree under node `id`, each node named by its
    /// qualified name, as [`Ast::outline`] lays it out.
    pub fn outline(&self, id: AstId, ast: &Ast, files: &Files) -> (r: Vec<OutlineLine>)
        requires
            ast.wf(),
        ensures
            outline_views(r@) == outline_text(*ast, self.qualified_idents, *files, id@, 0, ast.count() + 1),
    {
        proof {
            crate::arena::lemma_world_space(ast.ids);
        }
        let mut out: Vec<OutlineLine> = Vec::new();
        let fuel = ast.ids.num_allocs() as u64 + 1;
        outline_into(ast, &self.qualified_idents, files, id, 0, fuel, &mut out);
        proof {
            assert(outline_views(Seq::<OutlineLine>::empty()) =~= Seq::<OutlineLineText>::empty());
            assert(Seq::<OutlineLineText>::empty() + outline_text(*ast, self.qualified_idents, *files, id@, 0, ast.count() + 1)
                =~= outline_text(*ast, self.qualified_idents, *files, id@, 0, ast.count() + 1));
        }
        out
    }
}

} // verus!
