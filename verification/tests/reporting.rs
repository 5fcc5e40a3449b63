use ket::arena::Id;
use ket::ast::{Ast, AstId, AstKind, InfixKind};
use ket::error::{ErrorKind, Errors};
use ket::file::{read_string, Files};
use ket::lexer::Location;
use ket::lsp::{definition_span, diagnostic_span, diagnostics, Span};
use ket::report::{kind_name, spaces_string};
use ket::resolve::Symbols;
use ket::types::{Type, Types};

fn files() -> Files {
    let mut files = Files::new();
    read_string(String::from("abc"), "main.ket", &mut files).unwrap();
    files
}

fn loc(line_start: u32, line_end: u32, char_start: u32, char_end: u32) -> Location {
    Location { file: Id::new(0), start: 0, end: 3, line_start, line_end, char_start, char_end }
}

#[test]
fn locations_are_described() {
    let files = files();
    assert_eq!("main.ket:1:1-3", loc(1, 1, 1, 3).describe(&files));
    assert_eq!("main.ket:2-4:5", loc(2, 4, 5, 5).describe(&files));
    assert_eq!("main.ket:10-12:7-30", loc(10, 12, 7, 30).describe(&files));
}

#[test]
fn report_shows_roots_and_their_causes() {
    let files = files();
    let mut errors = Errors::new();
    errors.log(ErrorKind::Parse, String::from("bad")).location(loc(1, 1, 1, 3));
    errors
        .log(ErrorKind::Io, String::from("reason"))
        .caused_by(ErrorKind::Io, String::from("Unable to open file \"x\""));
    let lines = errors.report(&files);
    assert_eq!(3, lines.len());
    assert_eq!("Parse Error", lines[0].heading);
    assert_eq!("", lines[0].indent);
    assert_eq!("bad", lines[0].message);
    assert_eq!(Some(String::from("main.ket:1:1-3")), lines[0].location);
    assert_eq!("Io Error", lines[1].heading);
    assert_eq!("Unable to open file \"x\"", lines[1].message);
    assert_eq!(None, lines[1].location);
    assert_eq!("", lines[2].heading);
    assert_eq!("          ", lines[2].indent);
    assert_eq!("reason", lines[2].message);
    assert!(!*Id::<ket::error::ErrorMarker>::new(1).get(&errors.is_root));
}

#[test]
fn listing_names_typed_nodes() {
    let mut ast = Ast::new();
    let a = ast.add_node(AstKind::Integer);
    let b = ast.add_node(AstKind::String);
    let c = ast.add_node(AstKind::Char);
    let mut symbols = Symbols::new();
    a.put(&mut symbols.qualified_idents, String::from(".a"));
    c.put(&mut symbols.qualified_idents, String::from(".a.long_name"));
    let mut types = Types::new();
    let tid = types.ids.allocate().put(&mut types.types, Type::ConstI32(7));
    a.put(&mut types.type_assignments, Some(tid));
    let lines = types.listing(&ast, &symbols);
    assert_eq!(2, lines.len());
    assert_eq!(".a", lines[0].name);
    assert_eq!(42, lines[0].pad.len());
    assert_eq!(Some(String::from("7")), lines[0].ty);
    assert_eq!(".a.long_name", lines[1].name);
    assert_eq!(32, lines[1].pad.len());
    assert_eq!(None, lines[1].ty);
    let _ = b;
}

#[test]
fn outline_walks_the_tree() {
    let files = files();
    let mut ast = Ast::new();
    let one = ast.add_node(AstKind::Integer);
    one.put(&mut ast.locations, Some(loc(1, 1, 3, 3)));
    let name = ast.add_node(AstKind::VIdent);
    name.put(&mut ast.idents, String::from("a"));
    let field = ast.add_node(AstKind::VField);
    ast.push_child(field, name);
    ast.push_child(field, one);
    let root = ast.add_node(AstKind::Struct);
    ast.push_child(root, field);
    let lines = ast.outline(root, &files);
    assert_eq!(4, lines.len());
    assert_eq!("[  3]", lines[0].label);
    assert_eq!("Struct", lines[0].kind);
    assert_eq!("", lines[0].indent);
    assert_eq!(30, lines[0].pad.len());
    assert_eq!("VField", lines[1].kind);
    assert_eq!("  ", lines[1].indent);
    assert_eq!("VIdent", lines[2].kind);
    assert_eq!("a", lines[2].name);
    assert_eq!("    ", lines[2].indent);
    assert_eq!("Integer", lines[3].kind);
    assert_eq!(Some(String::from("main.ket:1:3")), lines[3].location);
    let mut symbols = Symbols::new();
    name.put(&mut symbols.qualified_idents, String::from(".a"));
    let named = symbols.outline(root, &ast, &files);
    assert_eq!(".a", named[2].name);
    assert_eq!("", named[1].name);
}

#[test]
fn kinds_are_named() {
    assert_eq!("Infix(Le)", kind_name(AstKind::Infix(InfixKind::Le)));
    assert_eq!("None", kind_name(AstKind::NoneValue));
    assert_eq!("BuiltinFalse", kind_name(AstKind::BuiltinFalse));
    assert_eq!("   ", spaces_string(3));
}

#[test]
fn diagnostics_follow_errors() {
    let mut errors = Errors::new();
    errors.log(ErrorKind::Lex, String::from("one")).location(loc(2, 3, 4, 9));
    errors.log(ErrorKind::Type, String::from("two"));
    let ds = diagnostics(&errors);
    assert_eq!(2, ds.len());
    assert_eq!("one", ds[0].message);
    assert_eq!(
        Some(Span { start_line: 1, start_character: 3, end_line: 2, end_character: 9 }),
        ds[0].span
    );
    assert_eq!(None, ds[1].span);
    assert_eq!(
        Span { start_line: 1, start_character: 3, end_line: 2, end_character: 9 },
        diagnostic_span(&loc(2, 3, 4, 9))
    );
    assert_eq!(
        Span { start_line: 1, start_character: 3, end_line: 2, end_character: 2 },
        definition_span(&loc(2, 3, 4, 9))
    );
}
