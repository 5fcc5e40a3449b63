use ket::ast::{Ast, AstId, AstKind, InfixKind, Literal};
use ket::error::{ErrorKind, Errors};
use ket::resolve::Symbols;
use ket::types::{debug_string, Type, TypeId, Types};

fn node(ast: &mut Ast, kind: AstKind, children: &[AstId]) -> AstId {
    let id = ast.add_node(kind);
    for c in children {
        ast.push_child(id, *c);
    }
    id
}

fn integer(ast: &mut Ast, value: i64) -> AstId {
    let id = ast.add_node(AstKind::Integer);
    id.put(&mut ast.literals, Some(Literal::Integer(value)));
    id
}

fn type_of(types: &Types, id: AstId) -> Option<TypeId> {
    *id.get(&types.type_assignments)
}

fn messages(errors: &Errors) -> Vec<String> {
    errors.ids.iter().into_iter().map(|id| id.get(&errors.messages).clone()).collect()
}

fn check(ast: &Ast) -> (Types, Errors, bool) {
    let mut types = Types::new();
    let mut symbols = Symbols::new();
    let mut errors = Errors::new();
    let done = types.compute_types(ast, &mut symbols, &mut errors);
    (types, errors, done)
}

#[test]
fn constants_fold() {
    let mut ast = Ast::new();
    let two = integer(&mut ast, 2);
    let three = integer(&mut ast, 3);
    let sum = node(&mut ast, AstKind::Infix(InfixKind::Add), &[two, three]);
    let seven = integer(&mut ast, 7);
    let product = node(&mut ast, AstKind::Infix(InfixKind::Mul), &[sum, seven]);
    let (types, errors, done) = check(&ast);
    assert!(done);
    assert!(!errors.has_errors());
    let tid = type_of(&types, sum).unwrap();
    assert_eq!(Type::ConstI32(5), *tid.get(&types.types));
    assert_eq!("5", types.string_of_type(tid, false, &ast));
    let ptid = type_of(&types, product).unwrap();
    assert_eq!("35", types.string_of_type(ptid, false, &ast));
}

#[test]
fn literal_kinds_have_their_types() {
    let mut ast = Ast::new();
    let s = node(&mut ast, AstKind::String, &[]);
    let c = node(&mut ast, AstKind::Char, &[]);
    let f = node(&mut ast, AstKind::Float, &[]);
    let n = node(&mut ast, AstKind::NoneValue, &[]);
    let i = node(&mut ast, AstKind::Integer, &[]);
    let (types, errors, done) = check(&ast);
    assert!(done);
    assert!(!errors.has_errors());
    let names: Vec<String> = [s, c, f, n, i]
        .iter()
        .map(|id| types.string_of_type(type_of(&types, *id).unwrap(), false, &ast))
        .collect();
    assert_eq!(vec!["String", "Char", "F32", "_", "I32"], names);
}

#[test]
fn adding_a_string_is_an_error() {
    let mut ast = Ast::new();
    let s = node(&mut ast, AstKind::String, &[]);
    let three = integer(&mut ast, 3);
    let sum = node(&mut ast, AstKind::Infix(InfixKind::Add), &[s, three]);
    let (types, errors, done) = check(&ast);
    assert!(done);
    assert_eq!(vec![String::from("Cannot add String to 3")], messages(&errors));
    assert_eq!(ErrorKind::Type, *errors.ids.iter()[0].get(&errors.kinds));
    assert_eq!(Type::Weak, *type_of(&types, sum).unwrap().get(&types.types));
}

#[test]
fn division_by_zero_is_not_typed() {
    let mut ast = Ast::new();
    let one = integer(&mut ast, 1);
    let zero = integer(&mut ast, 0);
    node(&mut ast, AstKind::Infix(InfixKind::Div), &[one, zero]);
    let (_, _, done) = check(&ast);
    assert!(!done);
}

#[test]
fn if_else_condition_and_branches() {
    let mut ast = Ast::new();
    let cond = node(&mut ast, AstKind::String, &[]);
    let then = node(&mut ast, AstKind::String, &[]);
    let otherwise = node(&mut ast, AstKind::Char, &[]);
    node(&mut ast, AstKind::IfElse, &[cond, then, otherwise]);
    let (_, errors, done) = check(&ast);
    assert!(done);
    assert_eq!(
        vec![
            String::from("If condition must be of type Bool or Optional"),
            String::from("Union of types String and Char is not defined"),
        ],
        messages(&errors)
    );
}

#[test]
fn if_else_with_none_branch_is_optional() {
    let mut ast = Ast::new();
    let cond = integer(&mut ast, 1);
    let then = integer(&mut ast, 4);
    let otherwise = node(&mut ast, AstKind::NoneValue, &[]);
    let choice = node(&mut ast, AstKind::IfElse, &[cond, then, otherwise]);
    let (types, errors, done) = check(&ast);
    assert!(done);
    assert_eq!(vec![String::from("If condition must be of type Bool or Optional")], messages(&errors));
    let tid = type_of(&types, choice).unwrap();
    assert_eq!(Type::Optional, *tid.get(&types.types));
    assert_eq!("4?", types.string_of_type(tid, false, &ast));
}

#[test]
fn tuple_and_array_text() {
    let mut ast = Ast::new();
    let a = integer(&mut ast, 1);
    let b = node(&mut ast, AstKind::String, &[]);
    let tuple = node(&mut ast, AstKind::Tuple, &[a, b]);
    let c = integer(&mut ast, 2);
    let d = integer(&mut ast, 3);
    let array = node(&mut ast, AstKind::Array, &[c, d]);
    let (types, errors, done) = check(&ast);
    assert!(done);
    assert!(!errors.has_errors());
    assert_eq!("(1, String)", types.string_of_type(type_of(&types, tuple).unwrap(), false, &ast));
    assert_eq!("[2]I32", types.string_of_type(type_of(&types, array).unwrap(), false, &ast));
}

#[test]
fn comparisons_are_bool() {
    let mut ast = Ast::new();
    let a = integer(&mut ast, 1);
    let b = integer(&mut ast, 2);
    let lt = node(&mut ast, AstKind::Infix(InfixKind::Lt), &[a, b]);
    let (types, _, done) = check(&ast);
    assert!(done);
    assert_eq!(Type::Bool, *type_of(&types, lt).unwrap().get(&types.types));
}

#[test]
fn debug_names_of_types() {
    assert_eq!("None", debug_string(Type::NoneType));
    assert_eq!("ConstI32(-4)", debug_string(Type::ConstI32(-4)));
    assert_eq!("ConstBool(true)", debug_string(Type::ConstBool(true)));
    assert_eq!("Array(3)", debug_string(Type::Array(3)));
}

#[test]
fn typing_again_changes_nothing() {
    let mut ast = Ast::new();
    let one = integer(&mut ast, 1);
    let yes = node(&mut ast, AstKind::BuiltinTrue, &[]);
    let _cmp = node(&mut ast, AstKind::Infix(InfixKind::Add), &[one, yes]);
    let mut types = Types::new();
    let mut symbols = Symbols::new();
    let mut errors = Errors::new();
    assert!(types.compute_types(&ast, &mut symbols, &mut errors));
    let logged = messages(&errors);
    assert_eq!(1, logged.len());
    let count = types.ids.num_allocs();
    assert!(types.compute_types(&ast, &mut symbols, &mut errors));
    assert_eq!(logged, messages(&errors));
    assert_eq!(count, types.ids.num_allocs());
}

#[test]
fn subtraction_of_constants_folds() {
    let mut ast = Ast::new();
    let two = integer(&mut ast, 2);
    let three = integer(&mut ast, 3);
    let difference = node(&mut ast, AstKind::Infix(InfixKind::Sub), &[two, three]);
    let (types, errors, done) = check(&ast);
    assert!(done);
    assert!(!errors.has_errors());
    let tid = type_of(&types, difference).unwrap();
    assert_eq!(Type::ConstI32(-1), *tid.get(&types.types));
}

#[test]
fn compound_nodes_take_their_childrens_types() {
    let mut ast = Ast::new();
    let one = integer(&mut ast, 1);
    let yes = node(&mut ast, AstKind::BuiltinTrue, &[]);
    let tuple = node(&mut ast, AstKind::Tuple, &[one, yes]);
    let two = integer(&mut ast, 2);
    let vector = node(&mut ast, AstKind::Vector, &[two]);
    let three = integer(&mut ast, 3);
    let optional = node(&mut ast, AstKind::Optional, &[three]);
    let four = integer(&mut ast, 4);
    let arg = node(&mut ast, AstKind::Arg, &[four]);
    let (types, errors, done) = check(&ast);
    assert!(done);
    assert!(!errors.has_errors());
    let components = type_of(&types, tuple).unwrap().get(&types.type_children).clone();
    assert_eq!(vec![type_of(&types, one).unwrap(), type_of(&types, yes).unwrap()], components);
    let vt = type_of(&types, vector).unwrap();
    assert_eq!(Type::Vector, *vt.get(&types.types));
    assert_eq!(vec![type_of(&types, two).unwrap()], *vt.get(&types.type_children));
    let ot = type_of(&types, optional).unwrap();
    assert_eq!(vec![type_of(&types, three).unwrap()], *ot.get(&types.type_children));
    assert_eq!(type_of(&types, four), type_of(&types, arg));
}

#[test]
fn if_without_else_has_the_unit_type() {
    let mut ast = Ast::new();
    let yes = node(&mut ast, AstKind::BuiltinTrue, &[]);
    let one = integer(&mut ast, 1);
    let branch = node(&mut ast, AstKind::If, &[yes, one]);
    let (types, errors, done) = check(&ast);
    assert!(done);
    assert!(!errors.has_errors());
    assert_eq!(Type::NoneType, *type_of(&types, branch).unwrap().get(&types.types));
}
