use ket::arena::{Arena, World};
use ket::ast::{Ast, AstId, AstKind, AstMarker};
use ket::error::{ErrorKind, Errors};
use ket::file::Files;
use ket::prelude::{Prelude, StandardPrelude};
use ket::resolve::DefinitionMap;
use ket::symb::Symbols;

fn node(ast: &mut Ast, kind: AstKind, ident: &str, children: &[AstId]) -> AstId {
    let id = ast.add_node(kind);
    id.put(&mut ast.idents, String::from(ident));
    for c in children {
        ast.push_child(id, *c);
    }
    id
}

/// `x {y = x, zz}` as the parser shapes it: a field and a binding name their
/// first child and hold their value in the second.
fn sample_tree() -> (Ast, Vec<AstId>) {
    let mut ast = Ast::new();
    let name_x = node(&mut ast, AstKind::VIdent, "x", &[]);
    let name_y = node(&mut ast, AstKind::VIdent, "y", &[]);
    let use_x = node(&mut ast, AstKind::VIdent, "x", &[]);
    let bind = node(&mut ast, AstKind::Bind, "", &[name_y, use_x]);
    let use_zz = node(&mut ast, AstKind::VIdent, "zz", &[]);
    let block = node(&mut ast, AstKind::Block, "", &[bind, use_zz]);
    let field = node(&mut ast, AstKind::VField, "", &[name_x, block]);
    let root = node(&mut ast, AstKind::Struct, "", &[field]);
    (ast, vec![name_x, name_y, use_x, bind, use_zz, block, field, root])
}

fn qualified(symbols: &Symbols, id: AstId) -> String {
    id.get(&symbols.qualified_idents).clone()
}

fn definition(symbols: &Symbols, id: AstId) -> Option<AstId> {
    *id.get(&symbols.definitions)
}

#[test]
fn resolve_symbols_binds_names() {
    let (mut ast, ids) = sample_tree();
    let (name_x, name_y, use_x, bind, use_zz, block, field, root) =
        (ids[0], ids[1], ids[2], ids[3], ids[4], ids[5], ids[6], ids[7]);
    let files = Files::new();
    let mut errors = Errors::new();
    let symbols = ast.resolve_symbols(&files, root, &mut errors, StandardPrelude);
    assert_eq!(".x", qualified(&symbols, name_x));
    assert_eq!(Some(field), definition(&symbols, name_x));
    assert_eq!(Some(field), definition(&symbols, field));
    assert_eq!(".x.__blk5", qualified(&symbols, block));
    assert_eq!(None, definition(&symbols, block));
    assert_eq!(".x.__blk5.y", qualified(&symbols, name_y));
    assert_eq!(Some(bind), definition(&symbols, name_y));
    assert_eq!(Some(bind), definition(&symbols, bind));
    assert_eq!(".x", qualified(&symbols, use_x));
    assert_eq!(Some(field), definition(&symbols, use_x));
    assert_eq!("", qualified(&symbols, use_zz));
    assert_eq!(None, definition(&symbols, use_zz));
    let messages: Vec<String> = errors.ids.iter().into_iter().map(|e| e.get(&errors.messages).clone()).collect();
    assert_eq!(vec![String::from("Unresolved identifier \"zz\"")], messages);
    assert_eq!(ErrorKind::Resolve, *errors.ids.iter()[0].get(&errors.kinds));
    assert_eq!(15, ast.ids.num_allocs());
}

#[test]
fn qualify_idents_fills_tables() {
    let (ast, ids) = sample_tree();
    let files = Files::new();
    let mut qualified_idents = Arena::<AstMarker, String>::new();
    let mut definitions_map = DefinitionMap::new();
    let mut definitions = Arena::<AstMarker, Option<AstId>>::new();
    let mut unresolved = Vec::new();
    ast.qualify_idents(
        ids[6],
        ".m",
        &files,
        &mut qualified_idents,
        &mut definitions_map,
        &mut definitions,
        &mut unresolved,
    );
    assert_eq!(vec![ids[2], ids[4]], unresolved);
    assert_eq!(".m.x.__blk5.y.x", ids[2].get(&qualified_idents).as_str());
    assert_eq!(".m.x.__blk5.zz", ids[4].get(&qualified_idents).as_str());
    assert_eq!(Some(ids[6]), definitions_map.get(&String::from(".m.x")));
    assert_eq!(Some(ids[3]), definitions_map.get(&String::from(".m.x.__blk5.y")));
    assert_eq!(None, definitions_map.get(&String::from(".m.x.__blk5")));
    let mut errors = Errors::new();
    ast.find_definitions(&mut qualified_idents, &mut definitions_map, &mut definitions, &mut errors, &unresolved);
    assert_eq!(".m.x", ids[2].get(&qualified_idents).as_str());
    assert_eq!(Some(ids[6]), *ids[2].get(&definitions));
    assert_eq!("", ids[4].get(&qualified_idents).as_str());
    assert_eq!(1, errors.ids.num_allocs());
}

#[test]
fn arguments_and_projections_pass_on_one_child() {
    let mut ast = Ast::new();
    let name = node(&mut ast, AstKind::VIdent, "k", &[]);
    let value = node(&mut ast, AstKind::VIdent, "v", &[]);
    let arg = node(&mut ast, AstKind::Arg, "", &[name, value]);
    let base = node(&mut ast, AstKind::VIdent, "b", &[]);
    let field = node(&mut ast, AstKind::VIdent, "f", &[]);
    let proj = node(&mut ast, AstKind::Proj, "", &[base, field]);
    let tuple = node(&mut ast, AstKind::Tuple, "", &[arg, proj]);
    let files = Files::new();
    let mut qualified_idents = Arena::<AstMarker, String>::new();
    let mut definitions_map = DefinitionMap::new();
    let mut definitions = Arena::<AstMarker, Option<AstId>>::new();
    let mut unresolved = Vec::new();
    ast.qualify_idents(
        tuple,
        "",
        &files,
        &mut qualified_idents,
        &mut definitions_map,
        &mut definitions,
        &mut unresolved,
    );
    assert_eq!(vec![value, base], unresolved);
    assert_eq!(".v", value.get(&qualified_idents).as_str());
    assert_eq!("", name.get(&qualified_idents).as_str());
    assert_eq!("", field.get(&qualified_idents).as_str());
}

#[test]
fn simplify_replaces_groups() {
    let mut ast = Ast::new();
    let inner = node(&mut ast, AstKind::Integer, "", &[]);
    let group = node(&mut ast, AstKind::Group, "", &[inner]);
    let name = node(&mut ast, AstKind::VIdent, "a", &[]);
    let field = node(&mut ast, AstKind::VField, "", &[name, group]);
    let root = node(&mut ast, AstKind::Struct, "", &[field]);
    ast.simplify(root);
    assert_eq!(inner, ast.children(field)[1]);
    assert_eq!(name, ast.children(field)[0]);
}

#[test]
fn standard_prelude_appends_builtins() {
    let mut ids = World::<AstMarker>::new();
    let mut kinds = Arena::<AstMarker, AstKind>::new();
    ids.allocate().put(&mut kinds, AstKind::Struct);
    let mut map = DefinitionMap::new();
    StandardPrelude.apply(&mut ids, &mut kinds, &mut map);
    assert_eq!(8, ids.num_allocs());
    let string_id = map.get(&String::from(".String")).unwrap();
    assert_eq!(3, string_id.index());
    assert_eq!(AstKind::BuiltinString, *string_id.get(&kinds));
    assert_eq!(AstKind::BuiltinTrue, *map.get(&String::from(".true")).unwrap().get(&kinds));
    assert_eq!(AstKind::Struct, *AstId::new(0).get(&kinds));
    assert!(map.get(&String::from("I32")).is_none());
}
