use ket::arena::Id;
use ket::ast::{Ast, AstId, AstKind};
use ket::compiler::compile_source;
use ket::error::{ErrorKind, Errors};
use ket::file::{read_string, report_unreadable, Files};
use ket::lexer::Location;
use ket::lsp::{check_spans, definition_location, find_ident, hover_message};
use ket::resolve::Symbols;
use ket::text::{decimal_string, push_decimal, push_signed_decimal};
use ket::types::{Type, Types};

fn at(line: u32, start: u32, end: u32) -> Location {
    Location {
        file: Id::new(0),
        start,
        end,
        line_start: line,
        line_end: line,
        char_start: start + 1,
        char_end: end,
    }
}

fn located(ast: &mut Ast, kind: AstKind, loc: Location) -> AstId {
    let id = ast.add_node(kind);
    id.put(&mut ast.locations, Some(loc));
    id
}

/// Three nested spans on line 1: columns 1-10, 3-5 and 3-4.
fn nested() -> (Ast, AstId, AstId, AstId) {
    let mut ast = Ast::new();
    let outer = located(&mut ast, AstKind::Struct, at(1, 0, 10));
    let middle = located(&mut ast, AstKind::VIdent, at(1, 2, 5));
    let inner = located(&mut ast, AstKind::VIdent, at(1, 2, 4));
    (ast, outer, middle, inner)
}

#[test]
fn compile_registers_the_file_and_parses() {
    let c = compile_source(String::from("a 1"), "main.ket").unwrap();
    assert_eq!(1, c.files.ids.num_allocs());
    assert_eq!("a 1", c.file.get(&c.files.sources).as_str());
    assert_eq!("main.ket", c.file.get(&c.files.paths).as_str());
    assert_eq!(AstKind::Struct, *c.root.get(&c.ast.kinds));
    assert!(!c.errors.has_errors());
    assert_eq!(11, c.ast.ids.num_allocs());
    let field = c.ast.children(c.root)[0];
    assert_eq!(Some(field), *field.get(&c.symbols.definitions));
}

#[test]
fn a_field_typed_by_its_own_name_is_left_untyped() {
    let c = compile_source(String::from("a 1"), "main.ket").unwrap();
    assert!(!c.typed);
}

#[test]
fn compile_reports_lexical_errors_first() {
    let c = compile_source(String::from("a ~"), "main.ket").unwrap();
    assert!(c.errors.has_errors());
    let first = c.errors.ids.iter()[0];
    assert_eq!(ErrorKind::Lex, *first.get(&c.errors.kinds));
    assert_eq!("Unrecognized token '~'", first.get(&c.errors.messages).as_str());
    for id in c.errors.ids.iter().into_iter().skip(1) {
        let kind = *id.get(&c.errors.kinds);
        assert!(kind == ErrorKind::Parse || kind == ErrorKind::Resolve || kind == ErrorKind::Type);
    }
}

#[test]
fn compile_removes_groups() {
    let c = compile_source(String::from("a {(1)}"), "main.ket").unwrap();
    for id in c.ast.ids.iter() {
        for child in c.ast.children(id) {
            assert_ne!(AstKind::Group, *child.get(&c.ast.kinds));
        }
    }
}

#[test]
fn spans_are_checked() {
    let (mut ast, _, _, _) = nested();
    assert!(check_spans(0, 3, &ast));
    located(&mut ast, AstKind::VIdent, Location { end: 1, ..at(1, 3, 4) });
    assert!(!check_spans(0, 3, &ast));
    assert!(check_spans(0, 8, &ast));
}

#[test]
fn smallest_covering_span_is_found() {
    let (ast, outer, middle, inner) = nested();
    assert_eq!(Some(inner), find_ident(0, 2, &ast));
    assert_eq!(Some(middle), find_ident(0, 4, &ast));
    assert_eq!(Some(outer), find_ident(0, 8, &ast));
    assert_eq!(None, find_ident(0, 12, &ast));
    assert_eq!(None, find_ident(3, 2, &ast));
}

#[test]
fn hover_shows_name_and_type() {
    let (ast, outer, middle, inner) = nested();
    let mut symbols = Symbols::new();
    let mut types = Types::new();
    inner.put(&mut symbols.qualified_idents, String::from(".x"));
    inner.put(&mut symbols.definitions, Some(middle));
    let tid = types.ids.allocate().put(&mut types.types, Type::I32);
    inner.put(&mut types.type_assignments, Some(tid));
    middle.put(&mut symbols.qualified_idents, String::from(".y"));
    middle.put(&mut types.type_assignments, Some(tid));
    assert_eq!(Some(String::from("`x I32`")), hover_message(0, 2, &ast, &symbols, &types));
    assert_eq!(
        Some(String::from("unable to find definition: \".y\"")),
        hover_message(0, 4, &ast, &symbols, &types)
    );
    assert_eq!(
        Some(String::from("internal error: no type assignment")),
        hover_message(0, 8, &ast, &symbols, &types)
    );
    assert_eq!(None, hover_message(2, 0, &ast, &symbols, &types));
    let _ = outer;
}

#[test]
fn definition_is_located() {
    let (ast, _, middle, inner) = nested();
    let mut symbols = Symbols::new();
    inner.put(&mut symbols.definitions, Some(middle));
    let loc = definition_location(0, 2, &ast, &symbols).unwrap();
    assert_eq!((2, 5, 3, 5), (loc.start, loc.end, loc.char_start, loc.char_end));
    assert!(definition_location(0, 4, &ast, &symbols).is_none());
    assert!(definition_location(5, 5, &ast, &symbols).is_none());
}

#[test]
fn errors_chain_causes() {
    let mut errors = Errors::new();
    assert!(!errors.has_errors());
    let first = errors.log(ErrorKind::Parse, String::from("outer")).location(at(1, 0, 1)).id;
    assert!(errors.has_errors());
    let cause = errors
        .log(ErrorKind::Type, String::from("effect"))
        .cause_of(ErrorKind::Type, String::from("reason"))
        .id;
    errors.compute_roots();
    assert_eq!(0, first.index());
    assert_eq!(2, cause.index());
    assert_eq!(Some(cause), *Id::<ket::error::ErrorMarker>::new(1).get(&errors.causes));
    assert!(*first.get(&errors.is_root));
    assert!(*Id::<ket::error::ErrorMarker>::new(1).get(&errors.is_root));
    assert!(!*cause.get(&errors.is_root));
    assert_eq!(1, first.get(&errors.locations).unwrap().end);
}

#[test]
fn location_opt_only_sets_some() {
    let mut errors = Errors::new();
    let id = errors.log(ErrorKind::Io, String::from("x")).location_opt(None).id;
    assert!(id.get(&errors.locations).is_none());
    let id2 = errors.log(ErrorKind::Io, String::from("y")).location_opt(Some(at(2, 4, 6))).id;
    assert_eq!(2, id2.get(&errors.locations).unwrap().line_start);
}

#[test]
fn unreadable_file_is_reported_with_its_cause() {
    let mut errors = Errors::new();
    report_unreadable(&mut errors, String::from("No such file or directory (os error 2)"), "missing.ket");
    let ids = errors.ids.iter();
    assert_eq!(2, ids.len());
    assert_eq!(ErrorKind::Io, *ids[0].get(&errors.kinds));
    assert_eq!("No such file or directory (os error 2)", ids[0].get(&errors.messages).as_str());
    assert_eq!("Unable to open file \"missing.ket\"", ids[1].get(&errors.messages).as_str());
    assert_eq!(Some(ids[0]), *ids[1].get(&errors.causes));
}

#[test]
fn files_are_numbered_in_order() {
    let mut files = Files::new();
    let a = read_string(String::from("one"), "a.ket", &mut files).unwrap();
    let b = read_string(String::from("two"), "b.ket", &mut files).unwrap();
    assert_eq!((0, 1), (a.index(), b.index()));
    assert_eq!("two", b.get(&files.sources).as_str());
    assert_eq!("a.ket", a.get(&files.paths).as_str());
}

#[test]
fn decimals_are_written() {
    assert_eq!("0", decimal_string(0));
    assert_eq!("1234567890", decimal_string(1234567890));
    assert_eq!("18446744073709551615", decimal_string(u64::MAX));
    let mut buf = String::from("n=");
    push_decimal(&mut buf, 7);
    push_signed_decimal(&mut buf, -42);
    push_signed_decimal(&mut buf, i64::MIN);
    assert_eq!("n=7-42-9223372036854775808", buf);
}

#[test]
fn an_empty_source_is_typed() {
    let c = compile_source(String::new(), "main.ket").unwrap();
    assert!(c.typed);
    assert!(!c.errors.has_errors());
    let root_type = c.root.get(&c.types.type_assignments).unwrap();
    assert_eq!(Type::Struct, *root_type.get(&c.types.types));
}
