use ket::arena::Id;
use ket::ast::{Ast, AstId, AstKind, InfixKind};
use ket::error::{ErrorKind, Errors};
use ket::file::{read_string, Files};
use ket::lexer::{lex_file, TokenKind};
use ket::parser::{token_name, Assoc, Parser, PrattGroup};

fn parse(text: &str) -> (Ast, AstId, Errors) {
    let mut files = Files::new();
    let mut errors = Errors::new();
    let file = read_string(String::from(text), "test.ket", &mut files).unwrap();
    let tokens = lex_file(file, &files, &mut errors);
    let mut ast = Ast::new();
    let root = Parser::new(&tokens, &mut ast, &mut errors).parse();
    (ast, root, errors)
}

fn kind(ast: &Ast, id: AstId) -> AstKind {
    *id.get(&ast.kinds)
}

fn children(ast: &Ast, id: AstId) -> Vec<AstId> {
    ast.children(id)
}

fn messages(errors: &Errors) -> Vec<String> {
    errors.ids.iter().into_iter().map(|id| id.get(&errors.messages).clone()).collect()
}

#[test]
fn single_field() {
    let (ast, root, errors) = parse("a 1");
    assert_eq!(0, root.index());
    assert_eq!(AstKind::Struct, kind(&ast, root));
    assert_eq!(4, ast.ids.num_allocs());
    let fields = children(&ast, root);
    assert_eq!(1, fields.len());
    assert_eq!(AstKind::VField, kind(&ast, fields[0]));
    let parts = children(&ast, fields[0]);
    assert_eq!(2, parts.len());
    assert_eq!(AstKind::VIdent, kind(&ast, parts[0]));
    assert_eq!(AstKind::Integer, kind(&ast, parts[1]));
    assert!(!errors.has_errors());
}

#[test]
fn type_field_and_infix_precedence() {
    let (ast, root, errors) = parse("T 1 + 2 * 3");
    assert!(!errors.has_errors());
    let field = children(&ast, root)[0];
    assert_eq!(AstKind::TField, kind(&ast, field));
    let sum = children(&ast, field)[1];
    assert_eq!(AstKind::Infix(InfixKind::Add), kind(&ast, sum));
    let operands = children(&ast, sum);
    assert_eq!(AstKind::Integer, kind(&ast, operands[0]));
    assert_eq!(AstKind::Infix(InfixKind::Mul), kind(&ast, operands[1]));
}

#[test]
fn fields_separated_by_newlines() {
    let (ast, root, errors) = parse("a 1\nb 2\n\nc 3");
    assert!(!errors.has_errors());
    assert_eq!(3, children(&ast, root).len());
}

#[test]
fn trailing_tokens_are_reported() {
    let (ast, root, errors) = parse(")");
    assert_eq!(AstKind::Struct, kind(&ast, root));
    assert_eq!(0, children(&ast, root).len());
    assert_eq!(vec![String::from("Trailing tokens when parsing file")], messages(&errors));
    let err = errors.ids.iter()[0];
    assert_eq!(ErrorKind::Parse, *err.get(&errors.kinds));
    let loc = err.get(&errors.locations).unwrap();
    assert_eq!((0, 1), (loc.start, loc.end));
}

#[test]
fn unfinished_struct_reports_each_problem() {
    let (_, _, errors) = parse("a (1");
    assert_eq!(
        vec![
            String::from("Expected identifier"),
            String::from("Expected expression"),
            String::from("Expected RParen but found EndOfFile"),
            String::from("Expected expression"),
        ],
        messages(&errors)
    );
    for id in errors.ids.iter() {
        assert_eq!(ErrorKind::Parse, *id.get(&errors.kinds));
    }
}

#[test]
fn block_with_binding() {
    let (ast, root, errors) = parse("x {y = 1, z}");
    assert!(!errors.has_errors());
    let field = children(&ast, root)[0];
    let block = children(&ast, field)[1];
    assert_eq!(AstKind::Block, kind(&ast, block));
    let stmts = children(&ast, block);
    assert_eq!(2, stmts.len());
    assert_eq!(AstKind::Bind, kind(&ast, stmts[0]));
    assert_eq!(AstKind::VIdent, kind(&ast, stmts[1]));
}

#[test]
fn pratt_groups_record_associativity() {
    let kinds = [InfixKind::Add, InfixKind::Sub];
    let left = PrattGroup::left(&kinds);
    assert_eq!(Assoc::Left, left.assoc);
    assert_eq!(2, left.kinds.len());
    let right = PrattGroup::right(&kinds);
    assert_eq!(Assoc::Right, right.assoc);
}

#[test]
fn infix_kinds_map_to_tokens_and_nodes() {
    assert_eq!(TokenKind::Plus, InfixKind::Add.tok());
    assert_eq!(TokenKind::LAngleEquals, InfixKind::Le.tok());
    assert_eq!(TokenKind::NotEquals, InfixKind::Ne.tok());
    assert_eq!(AstKind::Infix(InfixKind::Div), InfixKind::Div.ast());
}

#[test]
fn parser_starts_at_first_token() {
    let mut files = Files::new();
    let mut errors = Errors::new();
    let file = read_string(String::from("a 1"), "t.ket", &mut files).unwrap();
    let tokens = lex_file(file, &files, &mut errors);
    let mut ast = Ast::new();
    let parser = Parser::new(&tokens, &mut ast, &mut errors);
    assert_eq!(Id::new(0), parser.cursor);
}

#[test]
fn array_forms() {
    let (ast, root, errors) = parse("a [1, 2]x\nb []x\nc [3]x");
    let fields = children(&ast, root);
    assert_eq!(3, fields.len());
    let repeat = children(&ast, fields[0])[1];
    assert_eq!(AstKind::Repeat, kind(&ast, repeat));
    let parts = children(&ast, repeat);
    assert_eq!(2, parts.len());
    assert_eq!(AstKind::Integer, kind(&ast, parts[0]));
    assert_eq!(AstKind::VIdent, kind(&ast, parts[1]));
    let vector = children(&ast, fields[1])[1];
    assert_eq!(AstKind::Vector, kind(&ast, vector));
    assert_eq!(1, children(&ast, vector).len());
    let single = children(&ast, fields[2])[1];
    assert_eq!(AstKind::Repeat, kind(&ast, single));
    assert_eq!(2, children(&ast, single).len());
    assert_eq!(vec![String::from("Repeat expression may not have multiple lengths")], messages(&errors));
}

#[test]
fn token_kinds_are_named_as_declared() {
    assert_eq!("LParen", token_name(TokenKind::LParen));
    assert_eq!("ColonEquals", token_name(TokenKind::ColonEquals));
    assert_eq!("EndOfFile", token_name(TokenKind::EndOfFile));
}

#[test]
fn trailing_tokens_are_reported_at_the_first_one() {
    let (ast, root, errors) = parse("x a )");
    assert_eq!(AstKind::Struct, kind(&ast, root));
    assert_eq!(1, children(&ast, root).len());
    assert_eq!(vec![String::from("Trailing tokens when parsing file")], messages(&errors));
    let first = errors.ids.iter()[0];
    assert_eq!(ErrorKind::Parse, *first.get(&errors.kinds));
    let location = first.get(&errors.locations).unwrap();
    assert_eq!(4, location.start);
    assert_eq!(5, location.end);
    assert_eq!(1, location.line_start);
    assert_eq!(5, location.char_start);
}

#[test]
fn repeat_with_two_lengths_keeps_the_first() {
    let (ast, root, errors) = parse("x [1, 2]I32");
    assert_eq!(AstKind::Struct, kind(&ast, root));
    assert_eq!(vec![String::from("Repeat expression may not have multiple lengths")], messages(&errors));
    let first = errors.ids.iter()[0];
    assert!(first.get(&errors.locations).is_none());
    let field = children(&ast, root)[0];
    let repeat = children(&ast, field)[1];
    assert_eq!(AstKind::Repeat, kind(&ast, repeat));
    assert_eq!(2, children(&ast, repeat).len());
}

fn ids(list: &[usize]) -> Vec<AstId> {
    list.iter().map(|i| Id::new(*i)).collect()
}

#[test]
fn left_recursive_operators_are_numbered_in_allocation_order() {
    let (ast, root, errors) = parse("x a - b - c");
    assert!(!errors.has_errors());
    assert_eq!(Id::new(0), root);
    assert_eq!(ids(&[1]), children(&ast, Id::new(0)));
    assert_eq!(ids(&[2, 6]), children(&ast, Id::new(1)));
    assert_eq!(ids(&[4, 7]), children(&ast, Id::new(6)));
    assert_eq!(ids(&[3, 5]), children(&ast, Id::new(4)));
    assert_eq!(AstKind::Struct, kind(&ast, Id::new(0)));
    assert_eq!(AstKind::VField, kind(&ast, Id::new(1)));
    for leaf in [2, 3, 5, 7] {
        assert_eq!(AstKind::VIdent, kind(&ast, Id::new(leaf)));
    }
    assert_eq!(AstKind::Infix(InfixKind::Sub), kind(&ast, Id::new(4)));
    assert_eq!(AstKind::Infix(InfixKind::Sub), kind(&ast, Id::new(6)));
}

#[test]
fn trailing_tokens_leave_the_root_first() {
    let (ast, root, errors) = parse("x a )");
    assert_eq!(Id::new(0), root);
    assert_eq!(ids(&[1]), children(&ast, root));
    assert_eq!(1, errors.ids.num_allocs());
    let first = errors.ids.iter()[0];
    let location = first.get(&errors.locations).unwrap();
    assert_eq!(Id::new(0), location.file);
    assert_eq!((4, 5, 1, 1, 5, 5), (location.start, location.end, location.line_start, location.line_end, location.char_start, location.char_end));
}

#[test]
fn repeat_drops_the_second_length_node() {
    let (ast, root, errors) = parse("x [1, 2]I32");
    assert_eq!(Id::new(0), root);
    assert_eq!(ids(&[2, 3]), children(&ast, Id::new(1)));
    assert_eq!(AstKind::Repeat, kind(&ast, Id::new(3)));
    assert_eq!(ids(&[4, 6]), children(&ast, Id::new(3)));
    assert_eq!(AstKind::TIdent, kind(&ast, Id::new(6)));
    assert_eq!(1, errors.ids.num_allocs());
    assert_eq!(ErrorKind::Parse, *errors.ids.iter()[0].get(&errors.kinds));
}
