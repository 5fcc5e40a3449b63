use ket::ast::{Ast, AstId, AstKind};
use ket::error::{ErrorKind, Errors};
use ket::resolve::{DefinitionMap, Resolver, StandardPrelude, Symbols};

fn node(ast: &mut Ast, kind: AstKind, ident: &str, children: &[AstId]) -> AstId {
    let id = ast.add_node(kind);
    id.put(&mut ast.idents, String::from(ident));
    for c in children {
        ast.push_child(id, *c);
    }
    id
}

fn qualified(symbols: &Symbols, id: AstId) -> String {
    id.get(&symbols.qualified_idents).clone()
}

fn definition(symbols: &Symbols, id: AstId) -> Option<usize> {
    id.get(&symbols.definitions).map(|d| d.index())
}

/// `x { y = x; zz }`, written bottom-up: a field `x` whose value is a block
/// binding `y` to a use of `x`, then using the undefined `zz`.
fn sample_tree() -> (Ast, Vec<AstId>) {
    let mut ast = Ast::new();
    let use_x = node(&mut ast, AstKind::VIdent, "x", &[]);
    let one = node(&mut ast, AstKind::Integer, "", &[]);
    let bind_y = node(&mut ast, AstKind::Bind, "y", &[use_x, one]);
    let use_zz = node(&mut ast, AstKind::VIdent, "zz", &[]);
    let block = node(&mut ast, AstKind::Block, "", &[bind_y, use_zz]);
    let two = node(&mut ast, AstKind::Integer, "", &[]);
    let field_x = node(&mut ast, AstKind::VField, "x", &[block, two]);
    let root = node(&mut ast, AstKind::Struct, "", &[field_x]);
    (ast, vec![use_x, one, bind_y, use_zz, block, two, field_x, root])
}

#[test]
fn qualifies_and_resolves_names() {
    let (mut ast, ids) = sample_tree();
    let (use_x, bind_y, use_zz, block, field_x, root) = (ids[0], ids[2], ids[3], ids[4], ids[6], ids[7]);
    let mut symbols = Symbols::new();
    let mut errors = Errors::new();
    let mut resolver = Resolver::new(&mut ast, &mut symbols, &mut errors);
    resolver.resolve(root, StandardPrelude);
    assert_eq!(".x", qualified(&symbols, field_x));
    assert_eq!(Some(field_x.index()), definition(&symbols, field_x));
    assert_eq!(".x.__blk4", qualified(&symbols, block));
    assert_eq!(".x.__blk4.y", qualified(&symbols, bind_y));
    assert_eq!(".x", qualified(&symbols, use_x));
    assert_eq!(Some(field_x.index()), definition(&symbols, use_x));
    assert_eq!("", qualified(&symbols, use_zz));
    assert_eq!(None, definition(&symbols, use_zz));
    assert_eq!(1, errors.ids.num_allocs());
    let err = errors.ids.iter()[0];
    assert_eq!(ErrorKind::Resolve, *err.get(&errors.kinds));
    assert_eq!("Unresolved identifier \"zz\"", err.get(&errors.messages).as_str());
}

#[test]
fn standard_prelude_adds_builtins() {
    let (mut ast, ids) = sample_tree();
    let root = ids[7];
    let before = ast.ids.num_allocs();
    let mut symbols = Symbols::new();
    let mut errors = Errors::new();
    let mut resolver = Resolver::new(&mut ast, &mut symbols, &mut errors);
    resolver.resolve(root, StandardPrelude);
    let i32_id = resolver.definitions_map.get(&String::from(".I32")).unwrap();
    assert_eq!(before, i32_id.index());
    let false_id = resolver.definitions_map.get(&String::from(".false")).unwrap();
    assert_eq!(before + 6, false_id.index());
    assert_eq!(AstKind::BuiltinI32, *i32_id.get(&resolver.ast.kinds));
    assert_eq!(AstKind::BuiltinFalse, *false_id.get(&resolver.ast.kinds));
    assert_eq!(before + 7, resolver.ast.ids.num_allocs());
}

#[test]
fn builtin_names_resolve() {
    let mut ast = Ast::new();
    let use_bool = node(&mut ast, AstKind::TIdent, "Bool", &[]);
    let zero = node(&mut ast, AstKind::Integer, "", &[]);
    let field = node(&mut ast, AstKind::TField, "T", &[use_bool, zero]);
    let root = node(&mut ast, AstKind::Struct, "", &[field]);
    let mut symbols = Symbols::new();
    let mut errors = Errors::new();
    let mut resolver = Resolver::new(&mut ast, &mut symbols, &mut errors);
    resolver.resolve(root, StandardPrelude);
    assert_eq!(".Bool", qualified(&symbols, use_bool));
    let def = id_of(definition(&symbols, use_bool).unwrap());
    assert_eq!(AstKind::BuiltinBool, *def.get(&ast.kinds));
    assert!(!errors.has_errors());
}

fn id_of(index: usize) -> AstId {
    AstId::new(index)
}

#[test]
fn grouping_is_removed() {
    let mut ast = Ast::new();
    let inner = node(&mut ast, AstKind::Integer, "", &[]);
    let group = node(&mut ast, AstKind::Group, "", &[inner]);
    let two = node(&mut ast, AstKind::Integer, "", &[]);
    let field = node(&mut ast, AstKind::VField, "a", &[group, two]);
    let root = node(&mut ast, AstKind::Struct, "", &[field]);
    let mut symbols = Symbols::new();
    let mut errors = Errors::new();
    let mut resolver = Resolver::new(&mut ast, &mut symbols, &mut errors);
    resolver.remove_grouping(root);
    assert_eq!(inner, ast.children(field)[0]);
}

#[test]
fn qualify_idents_collects_uses() {
    let (mut ast, ids) = sample_tree();
    let root = ids[7];
    let mut symbols = Symbols::new();
    let mut errors = Errors::new();
    let mut resolver = Resolver::new(&mut ast, &mut symbols, &mut errors);
    resolver.qualify_idents(root, "");
    assert_eq!(2, resolver.undefined_ids.len());
    assert_eq!(ids[0], resolver.undefined_ids[0]);
    assert_eq!(ids[3], resolver.undefined_ids[1]);
    assert_eq!(".x.__blk4.y.x", qualified(resolver.symbols, ids[0]));
    assert_eq!(".x.__blk4.zz", qualified(resolver.symbols, ids[3]));
}

#[test]
fn qualify_only_leaves_definition_open() {
    let (mut ast, ids) = sample_tree();
    let mut symbols = Symbols::new();
    let mut errors = Errors::new();
    let mut resolver = Resolver::new(&mut ast, &mut symbols, &mut errors);
    resolver.qualify_only(ids[0], ".q");
    resolver.qualify_and_define_self(ids[6], ".f");
    assert_eq!(vec![ids[0]], resolver.undefined_ids);
    assert_eq!(Some(ids[6]), resolver.definitions_map.get(&String::from(".f")));
    assert_eq!(None, resolver.definitions_map.get(&String::from(".q")));
    assert_eq!(".q", qualified(&symbols, ids[0]));
    assert_eq!(None, definition(&symbols, ids[0]));
    assert_eq!(Some(ids[6].index()), definition(&symbols, ids[6]));
}

#[test]
fn definition_map_keeps_latest_entry() {
    let mut map = DefinitionMap::new();
    assert_eq!(None, map.get(&String::from("a")));
    map.insert(String::from("a"), AstId::new(1));
    map.insert(String::from("b"), AstId::new(2));
    map.insert(String::from("a"), AstId::new(3));
    assert_eq!(Some(AstId::new(3)), map.get(&String::from("a")));
    assert_eq!(Some(AstId::new(2)), map.get(&String::from("b")));
    assert_eq!(None, map.get(&String::from("c")));
}
