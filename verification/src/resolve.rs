//! Name resolution: every definition gets a qualified name made of the names of
//! the fields, bindings and blocks around it, and every identifier is bound to
//! the definition whose qualified name it reaches by going up scope by scope.
use crate::arena::{is_default, lemma_default_option, lemma_stored_at_frame, lemma_world_space, Arena};
use crate::ast::{lemma_default_ast_kind, lemma_kind_frame, Ast, AstId, AstKind, AstMarker};
use crate::error::{ErrorKind, Errors};
use crate::file::lemma_default_string_empty;
use crate::text::{decimal, push_decimal};
use vstd::prelude::*;

verus! {

/// The definitions found so far, by qualified name. Entries are only ever
/// added; a name maps to the value of its latest entry.
///
/// The entries are kept as a list of pairs rather than a hash map keyed by
/// `String`: vstd specifies a `HashMap`'s contents only for key types that it
/// takes to hash deterministically (`bool`, the integers), not for `String`,
/// short of an assumption that this crate does not make; so lookups in such a
/// map could not be stated. A list searched from its end gives the same map.
pub struct DefinitionMap {
    entries: Vec<(String, AstId)>,
}

/// The map that a list of entries denotes: later entries override earlier ones.
pub open spec fn entries_map(entries: Seq<(String, AstId)>) -> Map<Seq<char>, AstId>
    decreases entries.len(),
{
    if entries.len() == 0 {
        Map::empty()
    } else {
        entries_map(entries.drop_last()).insert(entries.last().0@, entries.last().1)
    }
}

/// Past the last entry named `key`, the map still maps `key` to that entry's value;
/// with no entry named `key`, the map does not hold `key`.
proof fn lemma_entries_map_last(entries: Seq<(String, AstId)>, key: Seq<char>, i: int)
    requires
        -1 <= i < entries.len(),
        i >= 0 ==> entries[i].0@ == key,
        forall|j: int| i < j < entries.len() ==> (#[trigger] entries[j]).0@ != key,
    ensures
        i >= 0 ==> entries_map(entries).contains_key(key) && entries_map(entries)[key] == entries[i].1,
        i < 0 ==> !entries_map(entries).contains_key(key),
    decreases entries.len(),
{
    if entries.len() > 0 && i < entries.len() - 1 {
        let rest = entries.drop_last();
        assert forall|j: int| i < j < rest.len() implies (#[trigger] rest[j]).0@ != key by {
            assert(rest[j] == entries[j]);
        }
        if i >= 0 {
            assert(rest[i] == entries[i]);
        }
        lemma_entries_map_last(rest, key, i);
    }
}

impl View for DefinitionMap {
    type V = Map<Seq<char>, AstId>;

    closed spec fn view(&self) -> Map<Seq<char>, AstId> {
        entries_map(self.entries@)
    }
}

impl DefinitionMap {
    /// An empty map.
    pub fn new() -> (r: Self)
        ensures
            r@ == Map::<Seq<char>, AstId>::empty(),
    {
        DefinitionMap { entries: Vec::new() }
    }

    /// Maps `key` to `id`.
    pub fn insert(&mut self, key: String, id: AstId)
        ensures
            final(self)@ == old(self)@.insert(key@, id),
    {
        let ghost before = self.entries@;
        self.entries.push((key, id));
        proof {
            assert(self.entries@.drop_last() =~= before);
        }
    }

    /// The definition that `key` maps to, if any.
    pub fn get(&self, key: &String) -> (r: Option<AstId>)
        ensures
            r is Some <==> self@.contains_key(key@),
            r matches Some(id) ==> id == self@[key@],
    {
        let mut i = self.entries.len();
        while i > 0
            invariant
                i <= self.entries@.len(),
                forall|j: int| i <= j < self.entries@.len() ==> (#[trigger] self.entries@[j]).0@ != key@,
            decreases i,
        {
            let k = i - 1;
            if self.entries[k].0 == *key {
                proof {
                    lemma_entries_map_last(self.entries@, key@, k as int);
                }
                return Some(self.entries[k].1);
            }
            i = k;
        }
        proof {
            lemma_entries_map_last(self.entries@, key@, -1);
        }
        None
    }
}

impl Default for DefinitionMap {
    fn default() -> (r: Self)
        ensures
            r@ == Map::<Seq<char>, AstId>::empty(),
    {
        DefinitionMap::new()
    }
}

/// What resolution found for each node: its qualified name (empty when it has
/// none) and the definition it refers to.
pub struct Symbols {
    pub qualified_idents: Arena<AstMarker, String>,
    pub definitions: Arena<AstMarker, Option<AstId>>,
}

impl Symbols {
    /// The symbol tables' internal consistency.
    pub open spec fn wf(&self) -> bool {
        &&& self.qualified_idents.wf()
        &&& self.definitions.wf()
    }

    /// The qualified name of node `i`.
    pub open spec fn qualified_of(&self, i: nat) -> Seq<char> {
        self.qualified_idents.value_at(i)@
    }

    /// The definition that node `i` refers to.
    pub open spec fn definition_of(&self, i: nat) -> Option<AstId> {
        self.definitions.value_at(i)
    }

    /// Empty symbol tables.
    pub fn new() -> (r: Self)
        ensures
            r.wf(),
            forall|i: nat| #[trigger] r.qualified_of(i) == Seq::<char>::empty() && r.definition_of(i) is None,
    {
        let r = Symbols { qualified_idents: Arena::new(), definitions: Arena::new() };
        proof {
            assert forall|i: nat| #[trigger] r.qualified_of(i) == Seq::<char>::empty() && r.definition_of(
                i,
            ) is None by {
                lemma_default_string_empty(r.qualified_idents.value_at(i));
                lemma_default_option(r.definitions.value_at(i));
            }
        }
        r
    }

    /// Sets the qualified name of node `id`.
    pub fn set_qualified(&mut self, id: AstId, name: String)
        requires
            old(self).wf(),
        ensures
            final(self).wf(),
            final(self).qualified_of(id@) == name@,
            forall|j: nat| j != id@ ==> #[trigger] final(self).qualified_of(j) == old(self).qualified_of(j),
            final(self).definitions == old(self).definitions,
    {
        let ghost before = self.qualified_idents;
        id.put(&mut self.qualified_idents, name);
        proof {
            assert forall|j: nat| j != id@ implies #[trigger] self.qualified_of(j) == old(self).qualified_of(j) by {
                lemma_stored_at_frame(before, self.qualified_idents, id@, name, j);
                lemma_default_string_empty(self.qualified_idents.value_at(j));
                lemma_default_string_empty(before.value_at(j));
            }
        }
    }

    /// Sets the definition that node `id` refers to.
    pub fn set_definition(&mut self, id: AstId, def: Option<AstId>)
        requires
            old(self).wf(),
        ensures
            final(self).wf(),
            final(self).definition_of(id@) == def,
            forall|j: nat| j != id@ ==> #[trigger] final(self).definition_of(j) == old(self).definition_of(j),
            final(self).qualified_idents == old(self).qualified_idents,
    {
        let ghost before = self.definitions;
        id.put(&mut self.definitions, def);
        proof {
            assert forall|j: nat| j != id@ implies #[trigger] self.definition_of(j) == old(self).definition_of(j) by {
                lemma_stored_at_frame(before, self.definitions, id@, def, j);
                lemma_default_option(self.definition_of(j));
                lemma_default_option(before.value_at(j));
            }
        }
    }
}

impl Default for Symbols {
    fn default() -> (r: Self)
        ensures
            r.wf(),
            forall|i: nat| #[trigger] r.qualified_of(i) == Seq::<char>::empty() && r.definition_of(i) is None,
    {
        Symbols::new()
    }
}

/// The name `path.ident`.
pub open spec fn join(path: Seq<char>, ident: Seq<char>) -> Seq<char> {
    path + seq!['.'] + ident
}

/// The name of block node `idx` in scope `path`: `path.__blk` and the index.
pub open spec fn block_name(path: Seq<char>, idx: nat) -> Seq<char> {
    path + seq!['.', '_', '_', 'b', 'l', 'k'] + decimal(idx)
}

/// Resolves the names of one tree: the tree, its symbol tables and the error
/// list, the definitions found so far by qualified name, and the identifiers
/// still to be bound.
pub struct Resolver<'a> {
    pub ast: &'a mut Ast,
    pub symbols: &'a mut Symbols,
    pub errors: &'a mut Errors,
    pub definitions_map: DefinitionMap,
    pub undefined_ids: Vec<AstId>,
}

impl<'a> Resolver<'a> {
    /// The internal consistency of the tree, the tables and the error list.
    pub open spec fn wf(&self) -> bool {
        &&& self.ast.wf()
        &&& self.symbols.wf()
        &&& self.errors.wf()
    }

    /// A resolver with no definitions and no identifiers to bind yet.
    pub fn new(ast: &'a mut Ast, symbols: &'a mut Symbols, errors: &'a mut Errors) -> (r: Self)
        ensures
            *r.ast == *old(ast),
            *final(r.ast) == *final(ast),
            *r.symbols == *old(symbols),
            *final(r.symbols) == *final(symbols),
            *r.errors == *old(errors),
            *final(r.errors) == *final(errors),
            r.definitions_map@ == Map::<Seq<char>, AstId>::empty(),
            r.undefined_ids@ == Seq::<AstId>::empty(),
    {
        Resolver { ast, symbols, errors, definitions_map: DefinitionMap::new(), undefined_ids: Vec::new() }
    }

    /// Gives node `id` the qualified name `ident`, makes it its own definition,
    /// and records it as the definition of that name.
    pub fn qualify_and_define_self(&mut self, id: AstId, ident: &str)
        requires
            old(self).wf(),
        ensures
            *final(final(self).ast) == *final(old(self).ast),
            *final(final(self).symbols) == *final(old(self).symbols),
            *final(final(self).errors) == *final(old(self).errors),
            final(self).wf(),
            final(self).symbols.qualified_of(id@) == ident@,
            final(self).symbols.definition_of(id@) == Some(id),
            forall|j: nat| j != id@ ==> #[trigger] final(self).symbols.qualified_of(j) == old(self).symbols.qualified_of(j)
                && final(self).symbols.definition_of(j) == old(self).symbols.definition_of(j),
            final(self).definitions_map@ == old(self).definitions_map@.insert(ident@, id),
            *final(self).ast == *old(self).ast,
            *final(self).errors == *old(self).errors,
            final(self).undefined_ids@ == old(self).undefined_ids@,
    {
        let ghost s0 = *self.symbols;
        self.symbols.set_qualified(id, ident.to_owned());
        let ghost s1 = *self.symbols;
        self.symbols.set_definition(id, Some(id));
        self.definitions_map.insert(ident.to_owned(), id);
        proof {
            assert forall|j: nat| j != id@ implies #[trigger] self.symbols.qualified_of(j) == s0.qualified_of(j)
                && self.symbols.definition_of(j) == s0.definition_of(j) by {
                assert(s1.qualified_of(j) == s0.qualified_of(j));
                assert(self.symbols.definition_of(j) == s1.definition_of(j));
            }
        }
    }

    /// Gives node `id` the qualified name `ident`, and lists it among the
    /// identifiers to bind.
    pub fn qualify_only(&mut self, id: AstId, ident: &str)
        requires
            old(self).wf(),
        ensures
            *final(final(self).ast) == *final(old(self).ast),
            *final(final(self).symbols) == *final(old(self).symbols),
            *final(final(self).errors) == *final(old(self).errors),
            final(self).wf(),
            final(self).symbols.qualified_of(id@) == ident@,
            forall|j: nat| j != id@ ==> #[trigger] final(self).symbols.qualified_of(j) == old(self).symbols.qualified_of(j),
            final(self).symbols.definitions == old(self).symbols.definitions,
            final(self).definitions_map@ == old(self).definitions_map@,
            *final(self).ast == *old(self).ast,
            *final(self).errors == *old(self).errors,
            final(self).undefined_ids@ == old(self).undefined_ids@.push(id),
    {
        self.symbols.set_qualified(id, ident.to_owned());
        self.undefined_ids.push(id);
    }
}

/// A name that a resolution step in scope `path` gives: longer than the scope's
/// name, and made of dotted parts.
pub open spec fn scoped_name(name: Seq<char>, path: Seq<char>) -> bool {
    &&& name.len() > path.len()
    &&& name.contains('.')
}

/// Name tables seen as functions: the qualified name and the definition of
/// each node, the definitions found so far by qualified name, and the
/// identifiers still to bind.
pub type NameTables = (spec_fn(nat) -> Seq<char>, spec_fn(nat) -> Option<AstId>, Map<Seq<char>, AstId>, Seq<AstId>);

/// The name tables that symbol tables, a definition map and a list of
/// identifiers hold.
pub open spec fn tables_at(s: Symbols, m: Map<Seq<char>, AstId>, u: Seq<AstId>) -> NameTables {
    (|i: nat| s.qualified_of(i), |i: nat| s.definition_of(i), m, u)
}

/// Symbol tables, a definition map and a list of identifiers hold the name
/// tables `t`.
pub open spec fn holds_tables(s: Symbols, m: Map<Seq<char>, AstId>, u: Seq<AstId>, t: NameTables) -> bool {
    &&& forall|i: nat| #[trigger] s.qualified_of(i) == (t.0)(i)
    &&& forall|i: nat| #[trigger] s.definition_of(i) == (t.1)(i)
    &&& m == t.2
    &&& u == t.3
}

/// The names `f` with node `x` named `v`.
pub open spec fn renamed(f: spec_fn(nat) -> Seq<char>, x: nat, v: Seq<char>) -> spec_fn(nat) -> Seq<char> {
    |i: nat| if i == x { v } else { f(i) }
}

/// The definitions `f` with node `x` referring to `v`.
pub open spec fn redefined(f: spec_fn(nat) -> Option<AstId>, x: nat, v: Option<AstId>) -> spec_fn(nat) -> Option<AstId> {
    |i: nat| if i == x { v } else { f(i) }
}

/// Tables that hold `t` are seen as `t`.
pub proof fn lemma_holds_tables(s: Symbols, m: Map<Seq<char>, AstId>, u: Seq<AstId>, t: NameTables)
    requires
        holds_tables(s, m, u, t),
    ensures
        tables_at(s, m, u) == t,
{
    assert(tables_at(s, m, u).0 =~= t.0);
    assert(tables_at(s, m, u).1 =~= t.1);
}

/// Tables hold what they are seen as.
pub proof fn lemma_tables_held(s: Symbols, m: Map<Seq<char>, AstId>, u: Seq<AstId>)
    ensures
        holds_tables(s, m, u, tables_at(s, m, u)),
{
}

/// What a resolver's qualification of the names below node `id` in scope
/// `path` makes of the tables `t`: a field or binding is named `path.name`
/// (after its own identifier), refers to itself, is recorded under that name,
/// and qualifies its first child in that scope; an argument or a projection
/// qualifies its first child; an identifier is named `path.name` and listed; a
/// block is named `path.__blk` and its index, refers to itself, is recorded
/// under that name, and qualifies its children in that scope; other nodes
/// qualify their children in order. Children are followed down the ranks of
/// `rank`.
pub open spec fn resolver_qualify_spec(ast: Ast, id: AstId, path: Seq<char>, t: NameTables, rank: Map<nat, nat>) -> NameTables
    decreases rank[id@], 1nat, 0nat,
{
    let kind = ast.kind_of(id@);
    let ch = ast.children_of(id@);
    if kind == AstKind::VField || kind == AstKind::TField || kind == AstKind::Bind {
        if ch.len() >= 1 && rank[ch[0]@] < rank[id@] {
            let name = join(path, ast.ident_of(id@));
            let t1: NameTables = (renamed(t.0, id@, name), redefined(t.1, id@, Some(id)), t.2.insert(name, id), t.3);
            resolver_qualify_spec(ast, ch[0], name, t1, rank)
        } else {
            t
        }
    } else if kind == AstKind::Arg || kind == AstKind::Proj {
        if ch.len() >= 1 && rank[ch[0]@] < rank[id@] {
            resolver_qualify_spec(ast, ch[0], path, t, rank)
        } else {
            t
        }
    } else if kind == AstKind::VIdent || kind == AstKind::TIdent {
        (renamed(t.0, id@, join(path, ast.ident_of(id@))), t.1, t.2, t.3.push(id))
    } else if kind == AstKind::Block {
        let name = block_name(path, id@);
        let t1: NameTables = (renamed(t.0, id@, name), redefined(t.1, id@, Some(id)), t.2.insert(name, id), t.3);
        resolver_children_spec(ast, id, name, t1, rank, ch.len())
    } else {
        resolver_children_spec(ast, id, path, t, rank, ch.len())
    }
}

/// What a resolver's qualification of the names below the first `k` children
/// of node `id`, in order and in scope `path`, makes of the tables `t`.
pub open spec fn resolver_children_spec(ast: Ast, id: AstId, path: Seq<char>, t: NameTables, rank: Map<nat, nat>, k: nat) -> NameTables
    decreases rank[id@], 0nat, k,
{
    if k == 0 {
        t
    } else {
        let before = resolver_children_spec(ast, id, path, t, rank, (k - 1) as nat);
        let c = ast.children_of(id@)[k - 1];
        if k - 1 < ast.children_of(id@).len() && rank[c@] < rank[id@] {
            resolver_qualify_spec(ast, c, path, before, rank)
        } else {
            before
        }
    }
}

/// A resolver's qualification does not depend on which ranks of which forest
/// it follows.
proof fn lemma_resolver_rank_free(
    ast: Ast,
    id: AstId,
    path: Seq<char>,
    t: NameTables,
    lo1: nat,
    hi1: nat,
    r1: Map<nat, nat>,
    lo2: nat,
    hi2: nat,
    r2: Map<nat, nat>,
)
    requires
        ast.forest(lo1, hi1, r1),
        ast.forest(lo2, hi2, r2),
        lo1 <= id@ < hi1,
        lo2 <= id@ < hi2,
    ensures
        resolver_qualify_spec(ast, id, path, t, r1) == resolver_qualify_spec(ast, id, path, t, r2),
    decreases r1[id@], 1nat, 0nat,
{
    assert(ast.node_wf(id@, lo1, hi1, r1));
    assert(ast.node_wf(id@, lo2, hi2, r2));
    let kind = ast.kind_of(id@);
    let ch = ast.children_of(id@);
    if kind == AstKind::VField || kind == AstKind::TField || kind == AstKind::Bind {
        let name = join(path, ast.ident_of(id@));
        let t1: NameTables = (renamed(t.0, id@, name), redefined(t.1, id@, Some(id)), t.2.insert(name, id), t.3);
        lemma_resolver_rank_free(ast, ch[0], name, t1, lo1, hi1, r1, lo2, hi2, r2);
    } else if kind == AstKind::Arg || kind == AstKind::Proj {
        lemma_resolver_rank_free(ast, ch[0], path, t, lo1, hi1, r1, lo2, hi2, r2);
    } else if kind == AstKind::VIdent || kind == AstKind::TIdent {
    } else if kind == AstKind::Block {
        let name = block_name(path, id@);
        let t1: NameTables = (renamed(t.0, id@, name), redefined(t.1, id@, Some(id)), t.2.insert(name, id), t.3);
        lemma_resolver_children_rank_free(ast, id, name, t1, lo1, hi1, r1, lo2, hi2, r2, ch.len());
    } else {
        lemma_resolver_children_rank_free(ast, id, path, t, lo1, hi1, r1, lo2, hi2, r2, ch.len());
    }
}

/// A resolver's qualification of the first `k` children does not depend on
/// the ranks either.
proof fn lemma_resolver_children_rank_free(
    ast: Ast,
    id: AstId,
    path: Seq<char>,
    t: NameTables,
    lo1: nat,
    hi1: nat,
    r1: Map<nat, nat>,
    lo2: nat,
    hi2: nat,
    r2: Map<nat, nat>,
    k: nat,
)
    requires
        ast.forest(lo1, hi1, r1),
        ast.forest(lo2, hi2, r2),
        lo1 <= id@ < hi1,
        lo2 <= id@ < hi2,
        k <= ast.children_of(id@).len(),
    ensures
        resolver_children_spec(ast, id, path, t, r1, k) == resolver_children_spec(ast, id, path, t, r2, k),
    decreases r1[id@], 0nat, k,
{
    assert(ast.node_wf(id@, lo1, hi1, r1));
    assert(ast.node_wf(id@, lo2, hi2, r2));
    if k > 0 {
        lemma_resolver_children_rank_free(ast, id, path, t, lo1, hi1, r1, lo2, hi2, r2, (k - 1) as nat);
        let before = resolver_children_spec(ast, id, path, t, r1, (k - 1) as nat);
        let c = ast.children_of(id@)[k - 1];
        lemma_resolver_rank_free(ast, c, path, before, lo1, hi1, r1, lo2, hi2, r2);
    }
}

/// Node `id` lies in a forest of the tree: a range of nodes whose children stay
/// in the range, ranked below their parents.
pub open spec fn in_forest(ast: Ast, id: nat) -> bool {
    exists|lo: nat, hi: nat, rank: Map<nat, nat>| lo <= id < hi && #[trigger] ast.forest(lo, hi, rank)
}

impl<'a> Resolver<'a> {
    /// What qualifying the nodes below a node, in scope `path`, keeps and adds:
    /// the tree and the errors are kept; only nodes of the range ranked at most
    /// `top` change; every name given is a scoped name; only definitions of
    /// names longer than the scope's are added; and the identifiers listed are
    /// nodes of the range ranked at most `top` that now have scoped names.
    pub open spec fn qualify_step(
        old: Resolver<'a>,
        new: Resolver<'a>,
        path: Seq<char>,
        lo: nat,
        hi: nat,
        rank: Map<nat, nat>,
        top: int,
    ) -> bool {
        &&& new.wf()
        &&& *new.ast == *old.ast
        &&& *new.errors == *old.errors
        &&& forall|j: nat|
            !(lo <= j < hi && rank[j] <= top) ==> #[trigger] new.symbols.qualified_of(j)
                == old.symbols.qualified_of(j) && new.symbols.definition_of(j)
                == old.symbols.definition_of(j)
        &&& forall|j: nat|
            #[trigger] new.symbols.qualified_of(j) != old.symbols.qualified_of(j) ==> scoped_name(
                new.symbols.qualified_of(j),
                path,
            )
        &&& forall|key: Seq<char>|
            key.len() <= path.len() ==> (#[trigger] new.definitions_map@.contains_key(key)
                == old.definitions_map@.contains_key(key) && (old.definitions_map@.contains_key(key)
                ==> new.definitions_map@[key] == old.definitions_map@[key]))
        &&& new.undefined_ids@.len() >= old.undefined_ids@.len()
        &&& new.undefined_ids@.take(old.undefined_ids@.len() as int) == old.undefined_ids@
        &&& forall|k: int|
            old.undefined_ids@.len() <= k < new.undefined_ids@.len() ==> {
                let x = (#[trigger] new.undefined_ids@[k])@;
                &&& lo <= x < hi
                &&& rank[x] <= top
                &&& (new.ast.kind_of(x) == AstKind::VIdent || new.ast.kind_of(x) == AstKind::TIdent)
                &&& scoped_name(new.symbols.qualified_of(x), path)
            }
    }
}

impl<'a> Resolver<'a> {
    /// Steps compose, when the second runs in a scope at least as long.
    proof fn lemma_qualify_trans(
        a: Resolver<'a>,
        b: Resolver<'a>,
        c: Resolver<'a>,
        path: Seq<char>,
        path2: Seq<char>,
        lo: nat,
        hi: nat,
        rank: Map<nat, nat>,
        top: int,
    )
        requires
            Resolver::qualify_step(a, b, path, lo, hi, rank, top),
            Resolver::qualify_step(b, c, path2, lo, hi, rank, top),
            path2.len() >= path.len(),
        ensures
            Resolver::qualify_step(a, c, path, lo, hi, rank, top),
    {
        assert forall|j: nat| #[trigger] c.symbols.qualified_of(j) != a.symbols.qualified_of(j) implies scoped_name(
            c.symbols.qualified_of(j),
            path,
        ) by {
            if c.symbols.qualified_of(j) == b.symbols.qualified_of(j) {
                assert(b.symbols.qualified_of(j) != a.symbols.qualified_of(j));
            } else {
                assert(scoped_name(c.symbols.qualified_of(j), path2));
            }
        }
        assert forall|key: Seq<char>| key.len() <= path.len() implies (#[trigger] c.definitions_map@.contains_key(
            key,
        ) == a.definitions_map@.contains_key(key) && (a.definitions_map@.contains_key(key)
            ==> c.definitions_map@[key] == a.definitions_map@[key])) by {
            assert(b.definitions_map@.contains_key(key) == a.definitions_map@.contains_key(key));
        }
        let na = a.undefined_ids@.len();
        let nb = b.undefined_ids@.len();
        assert(c.undefined_ids@.take(na as int) =~= a.undefined_ids@) by {
            assert forall|k: int| 0 <= k < na implies c.undefined_ids@[k] == a.undefined_ids@[k] by {
                assert(c.undefined_ids@.take(nb as int)[k] == b.undefined_ids@[k]);
                assert(b.undefined_ids@.take(na as int)[k] == a.undefined_ids@[k]);
            }
        }
        assert forall|k: int| na <= k < c.undefined_ids@.len() implies {
            let x = (#[trigger] c.undefined_ids@[k])@;
            &&& lo <= x < hi
            &&& rank[x] <= top
            &&& (c.ast.kind_of(x) == AstKind::VIdent || c.ast.kind_of(x) == AstKind::TIdent)
            &&& scoped_name(c.symbols.qualified_of(x), path)
        } by {
            let x = c.undefined_ids@[k]@;
            if k < nb {
                assert(c.undefined_ids@.take(nb as int)[k] == b.undefined_ids@[k]);
                assert(b.undefined_ids@[k]@ == x);
                if c.symbols.qualified_of(x) != b.symbols.qualified_of(x) {
                    assert(scoped_name(c.symbols.qualified_of(x), path2));
                }
            }
        }
    }

    /// A step confined to nodes ranked at most `t1` is confined to nodes ranked
    /// at most any `t2` above.
    proof fn lemma_qualify_widen(
        a: Resolver<'a>,
        b: Resolver<'a>,
        path: Seq<char>,
        lo: nat,
        hi: nat,
        rank: Map<nat, nat>,
        t1: int,
        t2: int,
    )
        requires
            Resolver::qualify_step(a, b, path, lo, hi, rank, t1),
            t1 <= t2,
        ensures
            Resolver::qualify_step(a, b, path, lo, hi, rank, t2),
    {
    }

    /// Doing nothing is a step.
    proof fn lemma_qualify_refl(a: Resolver<'a>, path: Seq<char>, lo: nat, hi: nat, rank: Map<nat, nat>, top: int)
        requires
            a.wf(),
        ensures
            Resolver::qualify_step(a, a, path, lo, hi, rank, top),
    {
        assert(a.undefined_ids@.take(a.undefined_ids@.len() as int) =~= a.undefined_ids@);
    }

    /// Defining node `id` under a scoped name is a step.
    proof fn lemma_define_step(
        a: Resolver<'a>,
        b: Resolver<'a>,
        id: AstId,
        name: Seq<char>,
        path: Seq<char>,
        lo: nat,
        hi: nat,
        rank: Map<nat, nat>,
        top: int,
    )
        requires
            b.wf(),
            b.symbols.qualified_of(id@) == name,
            forall|j: nat| j != id@ ==> #[trigger] b.symbols.qualified_of(j) == a.symbols.qualified_of(j)
                && b.symbols.definition_of(j) == a.symbols.definition_of(j),
            b.definitions_map@ == a.definitions_map@.insert(name, id),
            *b.ast == *a.ast,
            *b.errors == *a.errors,
            b.undefined_ids@ == a.undefined_ids@,
            scoped_name(name, path),
            lo <= id@ < hi,
            rank[id@] <= top,
        ensures
            Resolver::qualify_step(a, b, path, lo, hi, rank, top),
    {
        assert(b.undefined_ids@.take(a.undefined_ids@.len() as int) =~= a.undefined_ids@);
    }

    /// Qualifies the names below node `id` in scope `path`: fields and bindings
    /// become definitions of `path.name`, blocks of `path.__blk` and their index,
    /// identifiers get the name `path.name` and are listed to be bound; fields,
    /// bindings and blocks open a scope of their name for what lies below them.
    #[verifier::spinoff_prover]
    fn qualify_in(
        &mut self,
        id: AstId,
        path: &str,
        Ghost(lo): Ghost<nat>,
        Ghost(hi): Ghost<nat>,
        Ghost(rank): Ghost<Map<nat, nat>>,
    )
        requires
            old(self).wf(),
            old(self).ast.forest(lo, hi, rank),
            lo <= id@ < hi,
        ensures
            *final(final(self).ast) == *final(old(self).ast),
            *final(final(self).symbols) == *final(old(self).symbols),
            *final(final(self).errors) == *final(old(self).errors),
            Resolver::qualify_step(*old(self), *final(self), path@, lo, hi, rank, rank[id@] as int),
            holds_tables(
                *final(self).symbols,
                final(self).definitions_map@,
                final(self).undefined_ids@,
                resolver_qualify_spec(
                    *old(self).ast,
                    id,
                    path@,
                    tables_at(*old(self).symbols, old(self).definitions_map@, old(self).undefined_ids@),
                    rank,
                ),
            ),
            ({
                let kind = old(self).ast.kind_of(id@);
                let name = join(path@, old(self).ast.ident_of(id@));
                if kind == AstKind::VField || kind == AstKind::TField || kind == AstKind::Bind {
                    &&& final(self).symbols.qualified_of(id@) == name
                    &&& final(self).symbols.definition_of(id@) == Some(id)
                    &&& final(self).definitions_map@.contains_key(name)
                    &&& final(self).definitions_map@[name] == id
                } else if kind == AstKind::VIdent || kind == AstKind::TIdent {
                    &&& final(self).symbols.qualified_of(id@) == name
                    &&& final(self).symbols.definitions == old(self).symbols.definitions
                    &&& final(self).undefined_ids@ == old(self).undefined_ids@.push(id)
                } else if kind == AstKind::Block {
                    &&& final(self).symbols.qualified_of(id@) == block_name(path@, id@)
                    &&& final(self).symbols.definition_of(id@) == Some(id)
                    &&& final(self).definitions_map@.contains_key(block_name(path@, id@))
                    &&& final(self).definitions_map@[block_name(path@, id@)] == id
                } else {
                    &&& final(self).symbols.qualified_of(id@) == old(self).symbols.qualified_of(id@)
                    &&& final(self).symbols.definition_of(id@) == old(self).symbols.definition_of(id@)
                }
            }),
        decreases rank[id@], 1nat,
    {
        proof {
            assert(old(self).ast.node_wf(id@, lo, hi, rank));
        }
        let kind = *id.get(&self.ast.kinds);
        if kind == AstKind::VField || kind == AstKind::TField || kind == AstKind::Bind {
            let ident = id.get(&self.ast.idents).clone();
            let mut name = path.to_owned();
            proof {
                reveal_strlit(".");
            }
            name.append(".");
            name.append(ident.as_str());
            let ghost s0 = *self;
            self.qualify_and_define_self(id, name.as_str());
            let ghost s1 = *self;
            let child = id.get(&self.ast.children).get(0);
            proof {
                assert(old(self).ast.children_of(id@)[0] == child);
                assert(rank[child@] < rank[id@]);
                assert(name@ =~= join(path@, old(self).ast.ident_of(id@)));
            }
            proof {
                assert(name@[path@.len() as int] == '.');
                Resolver::lemma_define_step(s0, s1, id, name@, path@, lo, hi, rank, rank[id@] as int);
                let ta = tables_at(*s0.symbols, s0.definitions_map@, s0.undefined_ids@);
                let t1: NameTables = (renamed(ta.0, id@, name@), redefined(ta.1, id@, Some(id)), ta.2.insert(name@, id), ta.3);
                assert forall|j: nat| j != id@ implies #[trigger] s1.symbols.definition_of(j) == s0.symbols.definition_of(j) by {
                    assert(s1.symbols.qualified_of(j) == s0.symbols.qualified_of(j));
                }
                assert(tables_at(*s1.symbols, s1.definitions_map@, s1.undefined_ids@).0 =~= t1.0);
                assert(tables_at(*s1.symbols, s1.definitions_map@, s1.undefined_ids@).1 =~= t1.1);
                assert(tables_at(*s1.symbols, s1.definitions_map@, s1.undefined_ids@) == t1);
            }
            self.qualify_in(child, name.as_str(), Ghost(lo), Ghost(hi), Ghost(rank));
            proof {
                assert(self.symbols.qualified_of(id@) == s1.symbols.qualified_of(id@));
                assert(self.symbols.definition_of(id@) == s1.symbols.definition_of(id@));
                assert(self.definitions_map@.contains_key(name@) == s1.definitions_map@.contains_key(name@));
                Resolver::lemma_qualify_widen(s1, *self, name@, lo, hi, rank, rank[child@] as int, rank[id@] as int);
                Resolver::lemma_qualify_trans(s0, s1, *self, path@, name@, lo, hi, rank, rank[id@] as int);
            }
        } else if kind == AstKind::Arg || kind == AstKind::Proj {
            let child = id.get(&self.ast.children).get(0);
            proof {
                assert(old(self).ast.children_of(id@)[0] == child);
                assert(rank[child@] < rank[id@]);
            }
            self.qualify_in(child, path, Ghost(lo), Ghost(hi), Ghost(rank));
            proof {
                assert(self.symbols.qualified_of(id@) == old(self).symbols.qualified_of(id@));
                assert(self.symbols.definition_of(id@) == old(self).symbols.definition_of(id@));
                Resolver::lemma_qualify_widen(*old(self), *self, path@, lo, hi, rank, rank[child@] as int, rank[id@] as int);
            }
        } else if kind == AstKind::VIdent || kind == AstKind::TIdent {
            let ident = id.get(&self.ast.idents).clone();
            let mut name = path.to_owned();
            proof {
                reveal_strlit(".");
            }
            name.append(".");
            name.append(ident.as_str());
            self.qualify_only(id, name.as_str());
            proof {
                assert(name@ =~= join(path@, old(self).ast.ident_of(id@)));
                assert(self.undefined_ids@.take(old(self).undefined_ids@.len() as int) =~= old(self).undefined_ids@);
                assert(name@[path@.len() as int] == '.');
                let q = resolver_qualify_spec(
                    *old(self).ast,
                    id,
                    path@,
                    tables_at(*old(self).symbols, old(self).definitions_map@, old(self).undefined_ids@),
                    rank,
                );
                assert forall|i: nat| #[trigger] self.symbols.qualified_of(i) == (q.0)(i) by {}
                assert forall|i: nat| #[trigger] self.symbols.definition_of(i) == (q.1)(i) by {}
            }
        } else if kind == AstKind::Block {
            let mut name = path.to_owned();
            proof {
                reveal_strlit(".__blk");
            }
            name.append(".__blk");
            push_decimal(&mut name, id.index() as u64);
            let ghost s0 = *self;
            self.qualify_and_define_self(id, name.as_str());
            let ghost s1 = *self;
            proof {
                assert(name@ =~= block_name(path@, id@));
                assert(name@[path@.len() as int] == '.');
                assert forall|j: nat| j != id@ implies #[trigger] s1.symbols.qualified_of(j) == s0.symbols.qualified_of(j)
                    && s1.symbols.definition_of(j) == s0.symbols.definition_of(j) by {}
                Resolver::lemma_define_step(s0, s1, id, name@, path@, lo, hi, rank, rank[id@] as int);
                let ta = tables_at(*s0.symbols, s0.definitions_map@, s0.undefined_ids@);
                let t1: NameTables = (renamed(ta.0, id@, name@), redefined(ta.1, id@, Some(id)), ta.2.insert(name@, id), ta.3);
                assert forall|j: nat| j != id@ implies #[trigger] s1.symbols.definition_of(j) == s0.symbols.definition_of(j) by {
                    assert(s1.symbols.qualified_of(j) == s0.symbols.qualified_of(j));
                }
                assert(tables_at(*s1.symbols, s1.definitions_map@, s1.undefined_ids@).0 =~= t1.0);
                assert(tables_at(*s1.symbols, s1.definitions_map@, s1.undefined_ids@).1 =~= t1.1);
                assert(tables_at(*s1.symbols, s1.definitions_map@, s1.undefined_ids@) == t1);
            }
            self.qualify_children(id, name.as_str(), Ghost(lo), Ghost(hi), Ghost(rank));
            proof {
                assert(self.symbols.qualified_of(id@) == s1.symbols.qualified_of(id@));
                assert(self.symbols.definition_of(id@) == s1.symbols.definition_of(id@));
                assert(self.definitions_map@.contains_key(name@) == s1.definitions_map@.contains_key(name@));
                Resolver::lemma_qualify_widen(s1, *self, name@, lo, hi, rank, rank[id@] - 1, rank[id@] as int);
                Resolver::lemma_qualify_trans(s0, s1, *self, path@, name@, lo, hi, rank, rank[id@] as int);
            }
        } else {
            self.qualify_children(id, path, Ghost(lo), Ghost(hi), Ghost(rank));
            proof {
                assert(self.symbols.qualified_of(id@) == old(self).symbols.qualified_of(id@));
                assert(self.symbols.definition_of(id@) == old(self).symbols.definition_of(id@));
                Resolver::lemma_qualify_widen(*old(self), *self, path@, lo, hi, rank, rank[id@] - 1, rank[id@] as int);
            }
        }
    }

    /// Qualifies the names below each child of node `id`, in scope `path`.
    fn qualify_children(
        &mut self,
        id: AstId,
        path: &str,
        Ghost(lo): Ghost<nat>,
        Ghost(hi): Ghost<nat>,
        Ghost(rank): Ghost<Map<nat, nat>>,
    )
        requires
            old(self).wf(),
            old(self).ast.forest(lo, hi, rank),
            lo <= id@ < hi,
        ensures
            *final(final(self).ast) == *final(old(self).ast),
            *final(final(self).symbols) == *final(old(self).symbols),
            *final(final(self).errors) == *final(old(self).errors),
            Resolver::qualify_step(*old(self), *final(self), path@, lo, hi, rank, rank[id@] - 1),
            holds_tables(
                *final(self).symbols,
                final(self).definitions_map@,
                final(self).undefined_ids@,
                resolver_children_spec(
                    *old(self).ast,
                    id,
                    path@,
                    tables_at(*old(self).symbols, old(self).definitions_map@, old(self).undefined_ids@),
                    rank,
                    old(self).ast.children_of(id@).len(),
                ),
            ),
        decreases rank[id@], 0nat,
    {
        proof {
            assert(old(self).ast.node_wf(id@, lo, hi, rank));
        }
        let n = id.get(&self.ast.children).len();
        let mut i: usize = 0;
        let ghost ta = tables_at(*self.symbols, self.definitions_map@, self.undefined_ids@);
        proof {
            Resolver::lemma_qualify_refl(*self, path@, lo, hi, rank, rank[id@] - 1);
            lemma_tables_held(*self.symbols, self.definitions_map@, self.undefined_ids@);
        }
        while i < n
            invariant
                i <= n,
                n == old(self).ast.children_of(id@).len(),
                old(self).ast.forest(lo, hi, rank),
                old(self).ast.node_wf(id@, lo, hi, rank),
                lo <= id@ < hi,
                Resolver::qualify_step(*old(self), *self, path@, lo, hi, rank, rank[id@] - 1),
                *final(self.ast) == *final(old(self).ast),
                *final(self.symbols) == *final(old(self).symbols),
                *final(self.errors) == *final(old(self).errors),
                ta == tables_at(*old(self).symbols, old(self).definitions_map@, old(self).undefined_ids@),
                holds_tables(
                    *self.symbols,
                    self.definitions_map@,
                    self.undefined_ids@,
                    resolver_children_spec(*old(self).ast, id, path@, ta, rank, i as nat),
                ),
            decreases n - i,
        {
            let child = id.get(&self.ast.children).get(i);
            proof {
                assert(old(self).ast.children_of(id@)[i as int] == child);
                let before = resolver_children_spec(*old(self).ast, id, path@, ta, rank, i as nat);
                lemma_holds_tables(*self.symbols, self.definitions_map@, self.undefined_ids@, before);
                assert(rank[child@] < rank[id@]);
                assert(resolver_children_spec(*old(self).ast, id, path@, ta, rank, (i + 1) as nat) == resolver_qualify_spec(
                    *old(self).ast,
                    child,
                    path@,
                    before,
                    rank,
                ));
            }
            let ghost s0 = *self;
            self.qualify_in(child, path, Ghost(lo), Ghost(hi), Ghost(rank));
            proof {
                assert(Resolver::qualify_step(s0, *self, path@, lo, hi, rank, rank[id@] - 1));
                Resolver::lemma_qualify_trans(*old(self), s0, *self, path@, path@, lo, hi, rank, rank[id@] - 1);
            }
            i = i + 1;
        }
        proof {
            if n == 0 {
                assert(self.undefined_ids@.take(old(self).undefined_ids@.len() as int) =~= old(self).undefined_ids@);
            }
        }
    }

    /// Qualifies the names below node `id` in scope `path`, as `qualify_in` does.
    pub fn qualify_idents(&mut self, id: AstId, path: &str)
        requires
            old(self).wf(),
            in_forest(*old(self).ast, id@),
        ensures
            *final(final(self).ast) == *final(old(self).ast),
            *final(final(self).symbols) == *final(old(self).symbols),
            *final(final(self).errors) == *final(old(self).errors),
            final(self).wf(),
            *final(self).ast == *old(self).ast,
            *final(self).errors == *old(self).errors,
            final(self).undefined_ids@.take(old(self).undefined_ids@.len() as int) == old(self).undefined_ids@,
            forall|lo: nat, hi: nat, rank: Map<nat, nat>|
                lo <= id@ < hi && #[trigger] old(self).ast.forest(lo, hi, rank) ==> holds_tables(
                    *final(self).symbols,
                    final(self).definitions_map@,
                    final(self).undefined_ids@,
                    resolver_qualify_spec(
                        *old(self).ast,
                        id,
                        path@,
                        tables_at(*old(self).symbols, old(self).definitions_map@, old(self).undefined_ids@),
                        rank,
                    ),
                ),
            forall|k: int|
                old(self).undefined_ids@.len() <= k < final(self).undefined_ids@.len() ==> {
                    let x = (#[trigger] final(self).undefined_ids@[k])@;
                    &&& (final(self).ast.kind_of(x) == AstKind::VIdent || final(self).ast.kind_of(x)
                        == AstKind::TIdent)
                    &&& scoped_name(final(self).symbols.qualified_of(x), path@)
                },
            ({
                let kind = old(self).ast.kind_of(id@);
                let name = join(path@, old(self).ast.ident_of(id@));
                if kind == AstKind::VField || kind == AstKind::TField || kind == AstKind::Bind {
                    &&& final(self).symbols.qualified_of(id@) == name
                    &&& final(self).symbols.definition_of(id@) == Some(id)
                    &&& final(self).definitions_map@.contains_key(name)
                    &&& final(self).definitions_map@[name] == id
                } else if kind == AstKind::VIdent || kind == AstKind::TIdent {
                    &&& final(self).symbols.qualified_of(id@) == name
                    &&& final(self).undefined_ids@ == old(self).undefined_ids@.push(id)
                } else if kind == AstKind::Block {
                    &&& final(self).symbols.qualified_of(id@) == block_name(path@, id@)
                    &&& final(self).symbols.definition_of(id@) == Some(id)
                    &&& final(self).definitions_map@.contains_key(block_name(path@, id@))
                    &&& final(self).definitions_map@[block_name(path@, id@)] == id
                } else {
                    &&& final(self).symbols.qualified_of(id@) == old(self).symbols.qualified_of(id@)
                    &&& final(self).symbols.definition_of(id@) == old(self).symbols.definition_of(id@)
                }
            }),
    {
        let ghost (lo, hi, rank) = choose|lo: nat, hi: nat, rank: Map<nat, nat>|
            lo <= id@ < hi && #[trigger] self.ast.forest(lo, hi, rank);
        self.qualify_in(id, path, Ghost(lo), Ghost(hi), Ghost(rank));
        proof {
            let ta = tables_at(*old(self).symbols, old(self).definitions_map@, old(self).undefined_ids@);
            assert forall|lo2: nat, hi2: nat, r2: Map<nat, nat>|
                lo2 <= id@ < hi2 && #[trigger] old(self).ast.forest(lo2, hi2, r2) implies holds_tables(
                *self.symbols,
                self.definitions_map@,
                self.undefined_ids@,
                resolver_qualify_spec(*old(self).ast, id, path@, ta, r2),
            ) by {
                lemma_resolver_rank_free(*old(self).ast, id, path@, ta, lo, hi, rank, lo2, hi2, r2);
            }
        }
    }
}

/// Below node `x` there is no group: no child of `x` or of a node below it is a
/// group node.
pub open spec fn ungrouped_below(ast: Ast, rank: Map<nat, nat>, x: nat) -> bool
    decreases rank[x],
{
    forall|k: int|
        0 <= k < ast.children_of(x).len() ==> {
            let c = (#[trigger] ast.children_of(x)[k])@;
            &&& ast.kind_of(c) != AstKind::Group
            &&& (rank[c] < rank[x] ==> ungrouped_below(ast, rank, c))
        }
}

/// Node `x` lies in a forest of the tree below which there is no group node.
pub open spec fn grouping_removed(ast: Ast, x: nat) -> bool {
    exists|lo: nat, hi: nat, rank: Map<nat, nat>|
        lo <= x < hi && #[trigger] ast.forest(lo, hi, rank) && ungrouped_below(ast, rank, x)
}

/// `new` is `old` with some group children replaced by the group's only
/// child, which is not a group, and some group nodes given the location of
/// their only child, which is not a group: nodes, kinds, identifiers and the
/// number of children of each node are kept.
pub open spec fn grouping_step(old: Ast, new: Ast) -> bool {
    &&& new.wf()
    &&& (old.tidy() ==> new.tidy())
    &&& new.count() == old.count()
    &&& new.ids == old.ids
    &&& new.kinds == old.kinds
    &&& new.idents == old.idents
    &&& new.literals == old.literals
    &&& forall|j: nat| #[trigger] new.children_of(j).len() == old.children_of(j).len()
    &&& forall|j: nat, k: int|
        0 <= k < old.children_of(j).len() && #[trigger] new.children_of(j)[k] != old.children_of(j)[k] ==> {
            let g = old.children_of(j)[k]@;
            &&& old.kind_of(g) == AstKind::Group
            &&& new.kind_of(new.children_of(j)[k]@) != AstKind::Group
            &&& new.children_of(g).len() > 0
            &&& new.children_of(j)[k] == new.children_of(g)[0]
        }
    &&& forall|j: nat|
        #[trigger] new.location_of(j) != old.location_of(j) ==> {
            &&& old.kind_of(j) == AstKind::Group
            &&& new.children_of(j).len() > 0
            &&& new.kind_of(new.children_of(j)[0]@) != AstKind::Group
            &&& new.location_of(j) == new.location_of(new.children_of(j)[0]@)
        }
}

/// Group removal steps compose.
proof fn lemma_grouping_trans(a: Ast, b: Ast, c: Ast)
    requires
        grouping_step(a, b),
        grouping_step(b, c),
    ensures
        grouping_step(a, c),
{
    assert forall|j: nat, k: int|
        0 <= k < a.children_of(j).len() && #[trigger] c.children_of(j)[k] != a.children_of(j)[k] implies {
        let g = a.children_of(j)[k]@;
        &&& a.kind_of(g) == AstKind::Group
        &&& c.kind_of(c.children_of(j)[k]@) != AstKind::Group
        &&& c.children_of(g).len() > 0
        &&& c.children_of(j)[k] == c.children_of(g)[0]
    } by {
        let g = a.children_of(j)[k]@;
        assert(b.children_of(j).len() == a.children_of(j).len());
        assert(b.children_of(g).len() == c.children_of(g).len());
        if b.children_of(j)[k] != a.children_of(j)[k] {
            assert(b.kind_of(b.children_of(j)[k]@) != AstKind::Group);
            if c.children_of(j)[k] != b.children_of(j)[k] {
                assert(b.kind_of(b.children_of(j)[k]@) == AstKind::Group);
            }
            assert(b.children_of(j)[k] == b.children_of(g)[0]);
            if c.children_of(g)[0] != b.children_of(g)[0] {
                assert(b.kind_of(b.children_of(g)[0]@) == AstKind::Group);
            }
        } else {
            assert(c.children_of(j)[k] == c.children_of(b.children_of(j)[k]@)[0]);
        }
    }
    assert forall|j: nat| #[trigger] c.location_of(j) != a.location_of(j) implies {
        &&& a.kind_of(j) == AstKind::Group
        &&& c.children_of(j).len() > 0
        &&& c.kind_of(c.children_of(j)[0]@) != AstKind::Group
        &&& c.location_of(j) == c.location_of(c.children_of(j)[0]@)
    } by {
        assert(c.children_of(j).len() == b.children_of(j).len());
        if c.location_of(j) != b.location_of(j) {
            if b.location_of(j) != a.location_of(j) {
            }
        } else {
            assert(b.location_of(j) != a.location_of(j));
            let x = b.children_of(j)[0];
            assert(b.kind_of(x@) != AstKind::Group);
            if c.children_of(j)[0] != x {
                assert(b.kind_of(b.children_of(j)[0]@) == AstKind::Group);
            }
            if c.location_of(x@) != b.location_of(x@) {
                assert(b.kind_of(x@) == AstKind::Group);
            }
        }
    }
}

/// A node with no group below it is left as it is by group removal.
proof fn lemma_ungrouped_kept(a: Ast, b: Ast, rank: Map<nat, nat>, x: nat)
    requires
        grouping_step(a, b),
        ungrouped_below(a, rank, x),
    ensures
        ungrouped_below(b, rank, x),
        b.children_of(x) == a.children_of(x),
    decreases rank[x],
{
    assert(b.children_of(x).len() == a.children_of(x).len());
    assert forall|k: int| 0 <= k < a.children_of(x).len() implies b.children_of(x)[k] == a.children_of(x)[k] by {
        let c = a.children_of(x)[k]@;
        assert(a.kind_of(c) != AstKind::Group);
    }
    assert(b.children_of(x) =~= a.children_of(x));
    assert forall|k: int| 0 <= k < b.children_of(x).len() implies {
        let c = (#[trigger] b.children_of(x)[k])@;
        &&& b.kind_of(c) != AstKind::Group
        &&& (rank[c] < rank[x] ==> ungrouped_below(b, rank, c))
    } by {
        let c = b.children_of(x)[k]@;
        assert(a.children_of(x)[k]@ == c);
        if rank[c] < rank[x] {
            lemma_ungrouped_kept(a, b, rank, c);
        }
    }
}

impl Ast {
    /// Replaces child `i` of node `id` by `child`.
    fn set_child(&mut self, id: AstId, i: usize, child: AstId)
        requires
            old(self).wf(),
            i < old(self).children_of(id@).len(),
        ensures
            final(self).wf(),
            final(self).children_of(id@) == old(self).children_of(id@).update(i as int, child),
            forall|j: nat| j != id@ ==> #[trigger] final(self).children_of(j) == old(self).children_of(j),
            final(self).ids == old(self).ids,
            final(self).kinds == old(self).kinds,
            final(self).locations == old(self).locations,
            final(self).idents == old(self).idents,
            final(self).literals == old(self).literals,
    {
        let ghost old_children = self.children;
        let list = id.get_mut(&mut self.children);
        let ghost before = *list;
        list.set(i, child);
        proof {
            let grown = self.children.slots().update(id@ as int, before);
            crate::arena::lemma_grown_to_frame(old_children, grown, id@ + 1, id@);
            crate::ast::lemma_default_child_list(before);
            crate::ast::lemma_default_child_list(old_children.value_at(id@));
            assert forall|j: nat| j != id@ implies #[trigger] self.children_of(j) == old(self).children_of(j) by {
                crate::arena::lemma_grown_to_frame(old_children, grown, id@ + 1, j);
                crate::ast::lemma_default_child_list(crate::arena::slot_value(grown, old_children.fallback(), j));
                crate::ast::lemma_default_child_list(old_children.value_at(j));
                assert(self.children.value_at(j) == crate::arena::slot_value(grown, old_children.fallback(), j));
            }
        }
    }

    /// Sets the location of node `id`.
    fn set_location(&mut self, id: AstId, location: Option<crate::lexer::Location>)
        requires
            old(self).wf(),
        ensures
            final(self).wf(),
            final(self).location_of(id@) == location,
            forall|j: nat| j != id@ ==> #[trigger] final(self).location_of(j) == old(self).location_of(j),
            final(self).ids == old(self).ids,
            final(self).kinds == old(self).kinds,
            final(self).children == old(self).children,
            final(self).idents == old(self).idents,
            final(self).literals == old(self).literals,
    {
        let ghost before = self.locations;
        id.put(&mut self.locations, location);
        proof {
            assert forall|j: nat| j != id@ implies #[trigger] self.location_of(j) == old(self).location_of(j) by {
                crate::ast::lemma_location_frame(before, self.locations, id@, location, j);
            }
        }
    }

    /// Removes the groups below node `root`: each child that is a group, once
    /// the groups below it are removed, is replaced by the group's only child,
    /// and the group takes that child's location.
    pub(crate) fn remove_groups_in(&mut self, root: AstId, Ghost(lo): Ghost<nat>, Ghost(hi): Ghost<nat>, Ghost(rank): Ghost<Map<nat, nat>>)
        requires
            old(self).wf(),
            old(self).forest(lo, hi, rank),
            lo <= root@ < hi,
        ensures
            final(self).wf(),
            final(self).forest(lo, hi, rank),
            grouping_step(*old(self), *final(self)),
            ungrouped_below(*final(self), rank, root@),
            forall|j: nat|
                !(lo <= j < hi && rank[j] <= rank[root@]) ==> #[trigger] final(self).children_of(j)
                    == old(self).children_of(j) && final(self).location_of(j) == old(self).location_of(j),
        decreases rank[root@],
    {
        proof {
            assert(old(self).node_wf(root@, lo, hi, rank));
        }
        let n = root.get(&self.children).len();
        let mut i: usize = 0;
        while i < n
            invariant
                i <= n,
                n == old(self).children_of(root@).len(),
                lo <= root@ < hi,
                self.wf(),
                self.forest(lo, hi, rank),
                grouping_step(*old(self), *self),
                forall|k: int|
                    i <= k < n ==> #[trigger] self.children_of(root@)[k] == old(self).children_of(root@)[k],
                forall|k: int|
                    0 <= k < i ==> {
                        let c = (#[trigger] self.children_of(root@)[k])@;
                        &&& self.kind_of(c) != AstKind::Group
                        &&& ungrouped_below(*self, rank, c)
                    },
                forall|j: nat|
                    !(lo <= j < hi && rank[j] <= rank[root@]) ==> #[trigger] self.children_of(j)
                        == old(self).children_of(j),
                forall|j: nat|
                    !(lo <= j < hi && rank[j] <= rank[root@]) ==> #[trigger] self.location_of(j)
                        == old(self).location_of(j),
            decreases n - i,
        {
            let ghost s0 = *self;
            proof {
                assert(s0.children_of(root@).len() == n);
            }
            let child = root.get(&self.children).get(i);
            proof {
                assert(s0.node_wf(root@, lo, hi, rank));
                assert(s0.children_of(root@)[i as int] == child);
                assert(rank[child@] < rank[root@]);
            }
            self.remove_groups_in(child, Ghost(lo), Ghost(hi), Ghost(rank));
            let ghost s1 = *self;
            proof {
                lemma_grouping_trans(*old(self), s0, s1);
                assert(s1.children_of(root@) == s0.children_of(root@));
                assert forall|j: nat|
                    !(lo <= j < hi && rank[j] <= rank[root@]) implies #[trigger] s1.children_of(j)
                        == old(self).children_of(j) && s1.location_of(j) == old(self).location_of(j) by {
                    assert(s0.children_of(j) == old(self).children_of(j));
                    assert(s1.children_of(j) == s0.children_of(j));
                }
                assert forall|j: nat|
                    !(lo <= j < hi && rank[j] <= rank[root@]) implies #[trigger] s1.location_of(j)
                        == old(self).location_of(j) by {
                    assert(s0.location_of(j) == old(self).location_of(j));
                    assert(s1.children_of(j) == s0.children_of(j));
                }
                assert forall|k: int| 0 <= k < i implies {
                    let c = (#[trigger] s1.children_of(root@)[k])@;
                    &&& s1.kind_of(c) != AstKind::Group
                    &&& ungrouped_below(s1, rank, c)
                } by {
                    let c = s0.children_of(root@)[k]@;
                    lemma_ungrouped_kept(s0, s1, rank, c);
                }
            }
            if *child.get(&self.kinds) == AstKind::Group {
                proof {
                    assert(s1.node_wf(child@, lo, hi, rank));
                    assert(s1.children_of(child@).len() == 1);
                }
                let inner = child.get(&self.children).get(0);
                proof {
                    assert(s1.children_of(child@)[0] == inner);
                    assert(s1.kind_of(inner@) != AstKind::Group);
                    assert(ungrouped_below(s1, rank, inner@));
                }
                let loc = *inner.get(&self.locations);
                self.set_location(child, loc);
                let ghost s2 = *self;
                self.set_child(root, i, inner);
                let ghost s3 = *self;
                proof {
                    assert(grouping_step(s1, s2)) by {
                        assert forall|j: nat| #[trigger] s2.children_of(j).len() == s1.children_of(j).len() by {}
                        if s1.tidy() {
                            assert forall|x: nat| x >= s2.count() implies (#[trigger] s2.children_of(x)).len() == 0
                                && s2.location_of(x) is None by {
                                assert(s1.children_of(x).len() == 0);
                            }
                        }
                    }
                    assert(grouping_step(s2, s3)) by {
                        assert forall|j: nat, k: int|
                            0 <= k < s2.children_of(j).len() && #[trigger] s3.children_of(j)[k] != s2.children_of(j)[k] implies s2.kind_of(
                            s2.children_of(j)[k]@,
                        ) == AstKind::Group && s3.kind_of(s3.children_of(j)[k]@) != AstKind::Group by {
                            if j != root@ {
                                assert(s3.children_of(j) == s2.children_of(j));
                            } else {
                                assert(k == i);
                            }
                        }
                        assert forall|j: nat| #[trigger] s3.children_of(j).len() == s2.children_of(j).len() by {
                            if j != root@ {
                                assert(s3.children_of(j) == s2.children_of(j));
                            }
                        }
                        if s2.tidy() {
                            assert forall|x: nat| x >= s3.count() implies (#[trigger] s3.children_of(x)).len() == 0
                                && s3.location_of(x) is None by {
                                assert(s2.children_of(x).len() == 0);
                                assert(x != root@);
                            }
                        }
                    }
                    assert forall|j: nat|
                        !(lo <= j < hi && rank[j] <= rank[root@]) implies #[trigger] s3.children_of(j)
                            == old(self).children_of(j) && s3.location_of(j) == old(self).location_of(j) by {
                        assert(j != root@ && j != child@);
                        assert(s1.children_of(j) == old(self).children_of(j));
                        assert(s2.children_of(j) == s1.children_of(j));
                    }
                    assert forall|j: nat|
                        !(lo <= j < hi && rank[j] <= rank[root@]) implies #[trigger] s3.location_of(j)
                            == old(self).location_of(j) by {
                        assert(j != root@ && j != child@);
                        assert(s1.location_of(j) == old(self).location_of(j));
                        assert(s2.location_of(j) == s1.location_of(j));
                    }
                    lemma_grouping_trans(s1, s2, s3);
                    lemma_grouping_trans(*old(self), s1, s3);
                    lemma_ungrouped_kept(s1, s3, rank, inner@);
                    assert forall|k: int| 0 <= k < i implies {
                        let c = (#[trigger] s3.children_of(root@)[k])@;
                        &&& s3.kind_of(c) != AstKind::Group
                        &&& ungrouped_below(s3, rank, c)
                    } by {
                        let c = s1.children_of(root@)[k]@;
                        assert(s3.children_of(root@)[k] == s1.children_of(root@)[k]);
                        lemma_ungrouped_kept(s1, s3, rank, c);
                    }
                    assert forall|p: nat| lo <= p < hi implies #[trigger] s3.node_wf(p, lo, hi, rank) by {
                        assert(s1.node_wf(p, lo, hi, rank));
                        if p == root@ {
                            assert forall|k: int| 0 <= k < s3.children_of(p).len() implies {
                                let c = (#[trigger] s3.children_of(p)[k])@;
                                &&& lo <= c < hi
                                &&& rank.dom().contains(c)
                                &&& rank[c] < rank[p]
                            } by {
                                if k != i {
                                    assert(s3.children_of(p)[k] == s1.children_of(p)[k]);
                                }
                            }
                        } else {
                            assert(s3.children_of(p) == s1.children_of(p));
                        }
                    }
                }
            } else {
                proof {
                    assert(ungrouped_below(s1, rank, child@));
                }
            }
            i = i + 1;
        }
    }
}

impl<'a> Resolver<'a> {
    /// Removes the groups below node `root`, as [`Ast::remove_groups_in`] does.
    fn remove_grouping_in(&mut self, root: AstId, Ghost(lo): Ghost<nat>, Ghost(hi): Ghost<nat>, Ghost(rank): Ghost<Map<nat, nat>>)
        requires
            old(self).wf(),
            old(self).ast.forest(lo, hi, rank),
            lo <= root@ < hi,
        ensures
            *final(final(self).ast) == *final(old(self).ast),
            *final(final(self).symbols) == *final(old(self).symbols),
            *final(final(self).errors) == *final(old(self).errors),
            final(self).wf(),
            final(self).ast.forest(lo, hi, rank),
            grouping_step(*old(self).ast, *final(self).ast),
            ungrouped_below(*final(self).ast, rank, root@),
            forall|j: nat|
                !(lo <= j < hi && rank[j] <= rank[root@]) ==> #[trigger] final(self).ast.children_of(j)
                    == old(self).ast.children_of(j) && final(self).ast.location_of(j) == old(self).ast.location_of(j),
            *final(self).symbols == *old(self).symbols,
            *final(self).errors == *old(self).errors,
            final(self).definitions_map == old(self).definitions_map,
            final(self).undefined_ids == old(self).undefined_ids,
    {
        self.ast.remove_groups_in(root, Ghost(lo), Ghost(hi), Ghost(rank));
    }
}

/// The position of the last `c` in `s`, if there is one.
pub open spec fn last_index_of(s: Seq<char>, c: char) -> Option<int>
    decreases s.len(),
{
    if s.len() == 0 {
        None
    } else if s.last() == c {
        Some(s.len() - 1)
    } else {
        last_index_of(s.drop_last(), c)
    }
}

/// A name one scope up: the part between its last two dots is dropped, so that
/// `.a.b.x` becomes `.a.x`; a name with fewer than two dots has none.
pub open spec fn scope_up(s: Seq<char>) -> Option<Seq<char>> {
    match last_index_of(s, '.') {
        None => None,
        Some(rdot) => match last_index_of(s.take(rdot), '.') {
            None => None,
            Some(rrdot) => Some(s.take(rrdot) + s.skip(rdot)),
        },
    }
}

/// The definition that the name `s` reaches: `s` itself if it is defined, else
/// what the name one scope up reaches; with the name it was found under.
pub open spec fn lookup(map: Map<Seq<char>, AstId>, s: Seq<char>) -> Option<(Seq<char>, AstId)>
    decreases s.len(),
{
    if map.contains_key(s) {
        Some((s, map[s]))
    } else {
        match scope_up(s) {
            None => None,
            Some(t) => if t.len() < s.len() {
                lookup(map, t)
            } else {
                None
            },
        }
    }
}

/// The message for an identifier that reaches no definition.
pub open spec fn unresolved_message(ident: Seq<char>) -> Seq<char> {
    "Unresolved identifier \""@ + ident + "\""@
}

/// The identifiers among `ids`, in order, whose names (as `syms` gives them)
/// reach no definition.
pub open spec fn unresolved_ids(map: Map<Seq<char>, AstId>, syms: Symbols, ids: Seq<AstId>) -> Seq<AstId>
    decreases ids.len(),
{
    if ids.len() == 0 {
        Seq::empty()
    } else {
        unresolved_ids(map, syms, ids.drop_last()) + if lookup(map, syms.qualified_of(ids.last()@)) is None {
            seq![ids.last()]
        } else {
            Seq::empty()
        }
    }
}

/// The last index of `c` is a position of `c`, after which no `c` follows.
proof fn lemma_last_index_of(s: Seq<char>, c: char)
    ensures
        last_index_of(s, c) matches Some(i) ==> 0 <= i < s.len() && s[i] == c && forall|j: int|
            i < j < s.len() ==> s[j] != c,
        last_index_of(s, c) is None ==> forall|j: int| 0 <= j < s.len() ==> s[j] != c,
    decreases s.len(),
{
    if s.len() > 0 && s.last() != c {
        lemma_last_index_of(s.drop_last(), c);
        assert forall|j: int| 0 <= j < s.len() - 1 implies s[j] == s.drop_last()[j] by {}
    }
}

/// A name one scope up is shorter.
proof fn lemma_scope_up_shorter(s: Seq<char>)
    ensures
        scope_up(s) matches Some(t) ==> t.len() < s.len(),
{
    lemma_last_index_of(s, '.');
    if let Some(rdot) = last_index_of(s, '.') {
        lemma_last_index_of(s.take(rdot), '.');
    }
}

/// The position of the last dot among the first `end` characters of `s`.
fn rfind_dot(s: &str, end: usize) -> (r: Option<usize>)
    requires
        end <= s@.len(),
    ensures
        r matches Some(i) ==> last_index_of(s@.take(end as int), '.') == Some(i as int),
        r is None ==> last_index_of(s@.take(end as int), '.') is None,
{
    let mut i = end;
    while i > 0
        invariant
            i <= end <= s@.len(),
            last_index_of(s@.take(end as int), '.') == last_index_of(s@.take(i as int), '.'),
        decreases i,
    {
        let c = s.get_char(i - 1);
        if c == '.' {
            return Some(i - 1);
        }
        proof {
            assert(s@.take(i as int).drop_last() =~= s@.take(i - 1));
        }
        i = i - 1;
    }
    None
}

/// The text of `name` one scope up, if it has two dots.
fn scope_up_exec(name: &String) -> (r: Option<String>)
    ensures
        r matches Some(t) ==> scope_up(name@) == Some(t@),
        r is None ==> scope_up(name@) is None,
{
    let text = name.as_str();
    let len = text.unicode_len();
    proof {
        assert(text@.take(len as int) =~= text@);
    }
    match rfind_dot(text, len) {
        None => None,
        Some(rdot) => {
            proof {
                lemma_last_index_of(name@, '.');
            }
            match rfind_dot(text, rdot) {
                None => None,
                Some(rrdot) => {
                    proof {
                        lemma_last_index_of(name@.take(rdot as int), '.');
                    }
                    let mut up = text.substring_char(0, rrdot).to_owned();
                    up.append(text.substring_char(rdot, len));
                    proof {
                        assert(text@.subrange(0, rrdot as int) =~= name@.take(rrdot as int));
                        assert(text@.subrange(rdot as int, len as int) =~= name@.skip(rdot as int));
                    }
                    Some(up)
                },
            }
        },
    }
}

/// Binds identifier `id`: its name is looked up scope by scope; when a
/// definition is found, the identifier takes the name it was found under
/// and refers to it; otherwise its name is cleared and an error reported.
fn bind_one(ast: &Ast, symbols: &mut Symbols, map: &DefinitionMap, errors: &mut Errors, id: AstId)
    requires
        old(symbols).wf(),
        old(errors).wf(),
    ensures
        final(symbols).wf(),
        final(errors).wf(),
        forall|j: nat| j != id@ ==> #[trigger] final(symbols).qualified_of(j) == old(symbols).qualified_of(j)
            && final(symbols).definition_of(j) == old(symbols).definition_of(j),
        match lookup(map@, old(symbols).qualified_of(id@)) {
            Some((name, def)) => {
                &&& final(symbols).qualified_of(id@) == name
                &&& final(symbols).definition_of(id@) == Some(def)
                &&& *final(errors) == *old(errors)
            },
            None => {
                &&& final(symbols).qualified_of(id@) == Seq::<char>::empty()
                &&& final(symbols).definition_of(id@) == old(symbols).definition_of(id@)
                &&& !old(errors).has_room_for(1) ==> *final(errors) == *old(errors)
                &&& old(errors).has_room_for(1) ==> final(errors).count() == old(errors).count() + 1
                &&& Errors::extends(*old(errors), *final(errors))
                &&& old(errors).has_room_for(1) ==> final(errors).kind_of(old(errors).count())
                    == ErrorKind::Resolve
                &&& old(errors).has_room_for(1) ==> final(errors).message_of(old(errors).count())
                    == unresolved_message(ast.ident_of(id@))
                &&& old(errors).has_room_for(1) && ast.location_of(id@) is Some
                    ==> final(errors).location_of(old(errors).count()) == ast.location_of(id@)
            },
        },
{
    let mut ident = id.get(&symbols.qualified_idents).clone();
    let ghost target = lookup(map@, ident@);
    loop
        invariant
            symbols.wf(),
            errors.wf(),
            *symbols == *old(symbols),
            *errors == *old(errors),
            lookup(map@, ident@) == target,
            target == lookup(map@, old(symbols).qualified_of(id@)),
        decreases ident@.len(),
    {
        if let Some(def_id) = map.get(&ident) {
            symbols.set_qualified(id, ident);
            let ghost s1 = *symbols;
            symbols.set_definition(id, Some(def_id));
            proof {
                assert forall|j: nat| j != id@ implies #[trigger] symbols.qualified_of(j) == old(symbols).qualified_of(j)
                    && symbols.definition_of(j) == old(symbols).definition_of(j) by {
                    assert(s1.qualified_of(j) == old(symbols).qualified_of(j));
                }
            }
            return;
        }
        proof {
            lemma_scope_up_shorter(ident@);
        }
        match scope_up_exec(&ident) {
            Some(up) => {
                ident = up;
            },
            None => {
                symbols.set_qualified(id, String::new());
                let mut msg = "Unresolved identifier \"".to_owned();
                msg.append(id.get(&ast.idents).as_str());
                msg.append("\"");
                let location = *id.get(&ast.locations);
                if errors.has_room() {
                    errors.log(ErrorKind::Resolve, msg).location_opt(location);
                }
                return;
            },
        }
    }
}

/// Binds every identifier of `ids`, in order, as `bind_one` does. When no
/// identifier is listed twice and the error list has room for one error
/// per identifier, each identifier ends up bound to what its name reaches,
/// and one error is reported for each identifier that reaches nothing, in
/// order. An error list that is full takes no more errors.
pub fn bind_identifiers(ast: &Ast, symbols: &mut Symbols, map: &DefinitionMap, errors: &mut Errors, ids: &Vec<AstId>)
    requires
        old(symbols).wf(),
        old(errors).wf(),
        forall|k: int|
            0 <= k < ids@.len() ==> {
                let kind = ast.kind_of((#[trigger] ids@[k])@);
                kind == AstKind::VIdent || kind == AstKind::TIdent
            },
    ensures
        final(symbols).wf(),
        final(errors).wf(),
        Errors::extends(*old(errors), *final(errors)),
        forall|i: nat|
            old(errors).count() <= i < final(errors).count() ==> #[trigger] final(errors).kind_of(i)
                == ErrorKind::Resolve,
        forall|j: nat|
            (forall|m: int| 0 <= m < ids@.len() ==> ids@[m]@ != j)
                ==> #[trigger] final(symbols).qualified_of(j) == old(symbols).qualified_of(j)
                && final(symbols).definition_of(j) == old(symbols).definition_of(j),
        ids@.no_duplicates() ==> forall|m: int|
            0 <= m < ids@.len() ==> {
                let id = (#[trigger] ids@[m])@;
                match lookup(map@, old(symbols).qualified_of(id)) {
                    Some((name, def)) => final(symbols).qualified_of(id) == name
                        && final(symbols).definition_of(id) == Some(def),
                    None => final(symbols).qualified_of(id) == Seq::<char>::empty()
                        && final(symbols).definition_of(id) == old(symbols).definition_of(id),
                }
            },
        ({
            let unresolved = unresolved_ids(map@, *old(symbols), ids@);
            ids@.no_duplicates() && old(errors).count() + ids@.len()
                <= 4294967295 ==> {
                &&& final(errors).count() == old(errors).count() + unresolved.len()
                &&& forall|j: int|
                    0 <= j < unresolved.len() ==> {
                        let e = (old(errors).count() + j) as nat;
                        let u = (#[trigger] unresolved[j])@;
                        &&& final(errors).message_of(e) == unresolved_message(ast.ident_of(u))
                        &&& ast.location_of(u) is Some ==> final(errors).location_of(e)
                            == ast.location_of(u)
                    }
            }
        }),
{
    let ghost m0 = map@;
    let ghost syms = *symbols;
    let ghost list = ids@;
    let ghost e0 = errors.count();
    let n = ids.len();
    let mut k: usize = 0;
    proof {
        assert(list.take(0) =~= Seq::<AstId>::empty());
    }
    while k < n
        invariant
            k <= n,
            n == list.len(),
            list == ids@,
            m0 == map@,
            syms == *old(symbols),
            e0 == old(errors).count(),
            symbols.wf(),
            errors.wf(),
            Errors::extends(*old(errors), *errors),
            errors.count() <= e0 + k,
            forall|i: nat| e0 <= i < errors.count() ==> #[trigger] errors.kind_of(i) == ErrorKind::Resolve,
            forall|j: nat|
                !listed(list, k as int, j) ==> #[trigger] symbols.qualified_of(j)
                    == syms.qualified_of(j) && symbols.definition_of(j) == syms.definition_of(j),
            list.no_duplicates() ==> forall|m: int|
                0 <= m < k ==> {
                    let id = (#[trigger] list[m])@;
                    match lookup(m0, syms.qualified_of(id)) {
                        Some((name, def)) => symbols.qualified_of(id) == name && symbols.definition_of(id)
                            == Some(def),
                        None => symbols.qualified_of(id) == Seq::<char>::empty() && symbols.definition_of(id)
                            == syms.definition_of(id),
                    }
                },
            list.no_duplicates() && e0 + n <= 4294967295 ==> {
                let unresolved = unresolved_ids(m0, syms, list.take(k as int));
                &&& errors.count() == e0 + unresolved.len()
                &&& forall|j: int|
                    0 <= j < unresolved.len() ==> {
                        let e = (e0 + j) as nat;
                        let u = (#[trigger] unresolved[j])@;
                        &&& errors.message_of(e) == unresolved_message(ast.ident_of(u))
                        &&& ast.location_of(u) is Some ==> errors.location_of(e)
                            == ast.location_of(u)
                    }
            },
        decreases n - k,
    {
        let id = ids[k];
        let ghost before = *symbols;
        let ghost eb = *errors;
        bind_one(ast, symbols, map, errors, id);
        proof {
            let take_k = list.take(k as int);
            let take_k1 = list.take(k + 1);
            assert(take_k1.drop_last() =~= take_k);
            assert(take_k1.last() == id);
            assert forall|i: nat| e0 <= i < errors.count() implies #[trigger] errors.kind_of(i)
                == ErrorKind::Resolve by {
                if i < eb.count() {
                    assert(eb.kind_of(i) == ErrorKind::Resolve);
                }
            }
            assert forall|j: nat| !listed(list, k + 1, j) implies #[trigger] symbols.qualified_of(j)
                == syms.qualified_of(j) && symbols.definition_of(j) == syms.definition_of(j) by {
                lemma_listed_step(list, k as int, j);
                assert(before.qualified_of(j) == syms.qualified_of(j));
                assert(symbols.qualified_of(j) == before.qualified_of(j));
            }
            if list.no_duplicates() {
                assert forall|m: int| 0 <= m < k implies list[m]@ != id@ by {
                    assert(list[m] != list[k as int]);
                    if list[m]@ == id@ {
                        crate::arena::lemma_default_id_injective(list[m], list[k as int]);
                    }
                }
                assert(before.qualified_of(id@) == syms.qualified_of(id@));
                assert(before.definition_of(id@) == syms.definition_of(id@));
                assert forall|m: int| 0 <= m < k + 1 implies {
                    let x = (#[trigger] list[m])@;
                    match lookup(m0, syms.qualified_of(x)) {
                        Some((name, def)) => symbols.qualified_of(x) == name && symbols.definition_of(x)
                            == Some(def),
                        None => symbols.qualified_of(x) == Seq::<char>::empty() && symbols.definition_of(x)
                            == syms.definition_of(x),
                    }
                } by {
                    let x = list[m]@;
                    if m < k {
                        assert(list[m]@ != id@);
                        assert(symbols.qualified_of(x) == before.qualified_of(x));
                        assert(symbols.definition_of(x) == before.definition_of(x));
                    } else {
                        assert(x == id@);
                    }
                }
                if e0 + n <= 4294967295 {
                    let u0 = unresolved_ids(m0, syms, take_k);
                    let u1 = unresolved_ids(m0, syms, take_k1);
                    assert(eb.count() == e0 + u0.len());
                    assert(u0.len() <= k) by {
                        lemma_unresolved_len(m0, syms, take_k);
                    }
                    assert(eb.has_room_for(1));
                    assert forall|j: int| 0 <= j < u1.len() implies {
                        let e = (e0 + j) as nat;
                        let u = (#[trigger] u1[j])@;
                        &&& errors.message_of(e) == unresolved_message(ast.ident_of(u))
                        &&& ast.location_of(u) is Some ==> errors.location_of(e)
                            == ast.location_of(u)
                    } by {
                        if j < u0.len() {
                            assert(u1[j] == u0[j]);
                            let e = (e0 + j) as nat;
                            assert(e < eb.count());
                        }
                    }
                }
            }
        }
        k = k + 1;
    }
    proof {
        assert(list.take(n as int) =~= list);
        assert forall|j: nat|
            (forall|m: int| 0 <= m < list.len() ==> list[m]@ != j) implies #[trigger] symbols.qualified_of(j)
                == syms.qualified_of(j) && symbols.definition_of(j) == syms.definition_of(j) by {
            if listed(list, n as int, j) {
                let m = choose|m: int| 0 <= m < n && list[m]@ == j;
                assert(list[m]@ != j);
            }
        }
    }
}

impl<'a> Resolver<'a> {
    /// Binds every listed identifier, in order, as [`bind_identifiers`] does.
    pub fn find_definitions(&mut self)
        requires
            old(self).wf(),
            forall|k: int|
                0 <= k < old(self).undefined_ids@.len() ==> {
                    let kind = old(self).ast.kind_of((#[trigger] old(self).undefined_ids@[k])@);
                    kind == AstKind::VIdent || kind == AstKind::TIdent
                },
        ensures
            *final(final(self).ast) == *final(old(self).ast),
            *final(final(self).symbols) == *final(old(self).symbols),
            *final(final(self).errors) == *final(old(self).errors),
            final(self).wf(),
            *final(self).ast == *old(self).ast,
            final(self).definitions_map@ == old(self).definitions_map@,
            final(self).undefined_ids@ == old(self).undefined_ids@,
            Errors::extends(*old(self).errors, *final(self).errors),
            forall|i: nat|
                old(self).errors.count() <= i < final(self).errors.count() ==> #[trigger] final(self).errors.kind_of(i)
                    == ErrorKind::Resolve,
            forall|j: nat|
                (forall|m: int| 0 <= m < old(self).undefined_ids@.len() ==> old(self).undefined_ids@[m]@ != j)
                    ==> #[trigger] final(self).symbols.qualified_of(j) == old(self).symbols.qualified_of(j)
                    && final(self).symbols.definition_of(j) == old(self).symbols.definition_of(j),
            old(self).undefined_ids@.no_duplicates() ==> forall|m: int|
                0 <= m < old(self).undefined_ids@.len() ==> {
                    let id = (#[trigger] old(self).undefined_ids@[m])@;
                    match lookup(old(self).definitions_map@, old(self).symbols.qualified_of(id)) {
                        Some((name, def)) => final(self).symbols.qualified_of(id) == name
                            && final(self).symbols.definition_of(id) == Some(def),
                        None => final(self).symbols.qualified_of(id) == Seq::<char>::empty()
                            && final(self).symbols.definition_of(id) == old(self).symbols.definition_of(id),
                    }
                },
            ({
                let unresolved = unresolved_ids(old(self).definitions_map@, *old(self).symbols, old(self).undefined_ids@);
                old(self).undefined_ids@.no_duplicates() && old(self).errors.count() + old(self).undefined_ids@.len()
                    <= 4294967295 ==> {
                    &&& final(self).errors.count() == old(self).errors.count() + unresolved.len()
                    &&& forall|j: int|
                        0 <= j < unresolved.len() ==> {
                            let e = (old(self).errors.count() + j) as nat;
                            let u = (#[trigger] unresolved[j])@;
                            &&& final(self).errors.message_of(e) == unresolved_message(old(self).ast.ident_of(u))
                            &&& old(self).ast.location_of(u) is Some ==> final(self).errors.location_of(e)
                                == old(self).ast.location_of(u)
                        }
                }
            }),
    {
        bind_identifiers(self.ast, self.symbols, &self.definitions_map, self.errors, &self.undefined_ids);
    }
}

/// Node `j` not among the first `k + 1` ids is neither among the first `k`
/// nor the next one.
proof fn lemma_listed_step(ids: Seq<AstId>, k: int, j: nat)
    requires
        0 <= k < ids.len(),
        !listed(ids, k + 1, j),
    ensures
        !listed(ids, k, j),
        ids[k]@ != j,
{
    if listed(ids, k, j) {
        let m = choose|m: int| 0 <= m < k && ids[m]@ == j;
        assert(0 <= m < k + 1 && ids[m]@ == j);
    }
    if ids[k]@ == j {
        assert(0 <= k < k + 1 && ids[k]@ == j);
    }
}

/// Some of the first `k` ids designate node `j`.
pub open spec fn listed(ids: Seq<AstId>, k: int, j: nat) -> bool {
    exists|m: int| 0 <= m < k && ids[m]@ == j
}

/// There are no more unresolved identifiers than identifiers.
proof fn lemma_unresolved_len(map: Map<Seq<char>, AstId>, syms: Symbols, ids: Seq<AstId>)
    ensures
        unresolved_ids(map, syms, ids).len() <= ids.len(),
    decreases ids.len(),
{
    if ids.len() > 0 {
        lemma_unresolved_len(map, syms, ids.drop_last());
    }
}

/// Room in the tree for a prelude's definitions: at most 256 more nodes.
pub open spec fn prelude_room(ast: Ast) -> bool {
    ast.count() + 256 <= 4294967295
}

/// The definitions that every program sees: a prelude adds nodes for them to
/// the tree, after the nodes already there, and records them under their
/// qualified names.
pub trait Prelude {
    fn apply(&self, resolver: &mut Resolver<'_>)
        requires
            old(resolver).wf(),
            prelude_room(*old(resolver).ast),
        ensures
            *final(final(resolver).ast) == *final(old(resolver).ast),
            *final(final(resolver).symbols) == *final(old(resolver).symbols),
            *final(final(resolver).errors) == *final(old(resolver).errors),
            final(resolver).wf(),
            final(resolver).ast.count() >= old(resolver).ast.count(),
            Ast::same_nodes(*old(resolver).ast, *final(resolver).ast, old(resolver).ast.count()),
            old(resolver).ast.tidy() ==> final(resolver).ast.tidy(),
            *final(resolver).symbols == *old(resolver).symbols,
            *final(resolver).errors == *old(resolver).errors,
            final(resolver).undefined_ids@ == old(resolver).undefined_ids@,
    ;
}

/// The standard prelude: the primitive types `I32`, `F32`, `String`, `Char`
/// and `Bool`, and the constants `true` and `false`.
pub struct StandardPrelude;

/// Name `name` (the prelude's `.name`) is defined by a node of kind `kind`.
pub open spec fn builtin_defined(r: Resolver<'_>, name: Seq<char>, kind: AstKind) -> bool {
    &&& r.definitions_map@.contains_key(seq!['.'] + name)
    &&& r.ast.kind_of(r.definitions_map@[seq!['.'] + name]@) == kind
}

impl StandardPrelude {
    /// Adds a node of kind `kind` and records it as the definition of `.name`.
    fn add_primitive(resolver: &mut Resolver<'_>, name: &str, kind: AstKind) -> (r: AstId)
        requires
            old(resolver).wf(),
            old(resolver).ast.count() < 4294967295,
        ensures
            *final(final(resolver).ast) == *final(old(resolver).ast),
            *final(final(resolver).symbols) == *final(old(resolver).symbols),
            *final(final(resolver).errors) == *final(old(resolver).errors),
            final(resolver).wf(),
            r@ == old(resolver).ast.count(),
            final(resolver).ast.count() == old(resolver).ast.count() + 1,
            final(resolver).ast.kind_of(r@) == kind,
            Ast::same_nodes(*old(resolver).ast, *final(resolver).ast, old(resolver).ast.count()),
            old(resolver).ast.tidy() ==> final(resolver).ast.tidy(),
            final(resolver).definitions_map@ == old(resolver).definitions_map@.insert(seq!['.'] + name@, r),
            *final(resolver).symbols == *old(resolver).symbols,
            *final(resolver).errors == *old(resolver).errors,
            final(resolver).undefined_ids@ == old(resolver).undefined_ids@,
    {
        let id = resolver.ast.add_node(kind);
        proof {
            reveal_strlit(".");
        }
        let mut key = ".".to_owned();
        key.append(name);
        proof {
            assert(key@ =~= seq!['.'] + name@);
        }
        resolver.definitions_map.insert(key, id);
        id
    }
}

impl Prelude for StandardPrelude {
    fn apply(&self, resolver: &mut Resolver<'_>)
        ensures
            builtin_defined(*final(resolver), "I32"@, AstKind::BuiltinI32),
            builtin_defined(*final(resolver), "F32"@, AstKind::BuiltinF32),
            builtin_defined(*final(resolver), "String"@, AstKind::BuiltinString),
            builtin_defined(*final(resolver), "Char"@, AstKind::BuiltinChar),
            builtin_defined(*final(resolver), "Bool"@, AstKind::BuiltinBool),
            builtin_defined(*final(resolver), "true"@, AstKind::BuiltinTrue),
            builtin_defined(*final(resolver), "false"@, AstKind::BuiltinFalse),
    {
        let ghost r0 = *resolver;
        let i32_id = StandardPrelude::add_primitive(resolver, "I32", AstKind::BuiltinI32);
        let ghost r1 = *resolver;
        let f32_id = StandardPrelude::add_primitive(resolver, "F32", AstKind::BuiltinF32);
        let ghost r2 = *resolver;
        let string_id = StandardPrelude::add_primitive(resolver, "String", AstKind::BuiltinString);
        let ghost r3 = *resolver;
        let char_id = StandardPrelude::add_primitive(resolver, "Char", AstKind::BuiltinChar);
        let ghost r4 = *resolver;
        let bool_id = StandardPrelude::add_primitive(resolver, "Bool", AstKind::BuiltinBool);
        let ghost r5 = *resolver;
        let true_id = StandardPrelude::add_primitive(resolver, "true", AstKind::BuiltinTrue);
        let ghost r6 = *resolver;
        let false_id = StandardPrelude::add_primitive(resolver, "false", AstKind::BuiltinFalse);
        proof {
            reveal_strlit("I32");
            reveal_strlit("F32");
            reveal_strlit("String");
            reveal_strlit("Char");
            reveal_strlit("Bool");
            reveal_strlit("true");
            reveal_strlit("false");
            let n = r0.ast.count();
            let k_i32 = seq!['.'] + "I32"@;
            let k_f32 = seq!['.'] + "F32"@;
            let k_char = seq!['.'] + "Char"@;
            let k_bool = seq!['.'] + "Bool"@;
            let k_true = seq!['.'] + "true"@;
            let k_string = seq!['.'] + "String"@;
            let k_false = seq!['.'] + "false"@;
            assert(k_string.len() == 7 && k_false.len() == 6 && k_i32.len() == 4 && k_f32.len() == 4);
            assert(k_char.len() == 5 && k_bool.len() == 5 && k_true.len() == 5);
            assert(k_i32[1] != k_f32[1]);
            assert(k_char[1] != k_bool[1] && k_char[1] != k_true[1] && k_bool[1] != k_true[1]);
            assert(resolver.ast.kind_of(i32_id@) == AstKind::BuiltinI32) by {
                assert(r2.ast.kind_of(i32_id@) == r1.ast.kind_of(i32_id@));
                assert(r3.ast.kind_of(i32_id@) == r2.ast.kind_of(i32_id@));
                assert(r4.ast.kind_of(i32_id@) == r3.ast.kind_of(i32_id@));
                assert(r5.ast.kind_of(i32_id@) == r4.ast.kind_of(i32_id@));
                assert(r6.ast.kind_of(i32_id@) == r5.ast.kind_of(i32_id@));
                assert(resolver.ast.kind_of(i32_id@) == r6.ast.kind_of(i32_id@));
            }
            assert(resolver.ast.kind_of(f32_id@) == AstKind::BuiltinF32) by {
                assert(r3.ast.kind_of(f32_id@) == r2.ast.kind_of(f32_id@));
                assert(r4.ast.kind_of(f32_id@) == r3.ast.kind_of(f32_id@));
                assert(r5.ast.kind_of(f32_id@) == r4.ast.kind_of(f32_id@));
                assert(r6.ast.kind_of(f32_id@) == r5.ast.kind_of(f32_id@));
                assert(resolver.ast.kind_of(f32_id@) == r6.ast.kind_of(f32_id@));
            }
            assert(resolver.ast.kind_of(string_id@) == AstKind::BuiltinString) by {
                assert(r4.ast.kind_of(string_id@) == r3.ast.kind_of(string_id@));
                assert(r5.ast.kind_of(string_id@) == r4.ast.kind_of(string_id@));
                assert(r6.ast.kind_of(string_id@) == r5.ast.kind_of(string_id@));
                assert(resolver.ast.kind_of(string_id@) == r6.ast.kind_of(string_id@));
            }
            assert(resolver.ast.kind_of(char_id@) == AstKind::BuiltinChar) by {
                assert(r5.ast.kind_of(char_id@) == r4.ast.kind_of(char_id@));
                assert(r6.ast.kind_of(char_id@) == r5.ast.kind_of(char_id@));
                assert(resolver.ast.kind_of(char_id@) == r6.ast.kind_of(char_id@));
            }
            assert(resolver.ast.kind_of(bool_id@) == AstKind::BuiltinBool) by {
                assert(r6.ast.kind_of(bool_id@) == r5.ast.kind_of(bool_id@));
                assert(resolver.ast.kind_of(bool_id@) == r6.ast.kind_of(bool_id@));
            }
            assert(resolver.ast.kind_of(true_id@) == AstKind::BuiltinTrue) by {
                assert(resolver.ast.kind_of(true_id@) == r6.ast.kind_of(true_id@));
            }
            assert forall|j: nat| j < n implies #[trigger] resolver.ast.kind_of(j) == r0.ast.kind_of(j)
                && resolver.ast.children_of(j) == r0.ast.children_of(j) && resolver.ast.location_of(j)
                == r0.ast.location_of(j) && resolver.ast.ident_of(j) == r0.ast.ident_of(j) by {
                assert(r1.ast.kind_of(j) == r0.ast.kind_of(j));
                assert(r2.ast.kind_of(j) == r1.ast.kind_of(j));
                assert(r3.ast.kind_of(j) == r2.ast.kind_of(j));
                assert(r4.ast.kind_of(j) == r3.ast.kind_of(j));
                assert(r5.ast.kind_of(j) == r4.ast.kind_of(j));
                assert(r6.ast.kind_of(j) == r5.ast.kind_of(j));
            }
        }
    }
}

/// Adding nodes after a forest's range keeps the forest.
pub(crate) proof fn lemma_forest_kept(a: Ast, b: Ast, lo: nat, hi: nat, rank: Map<nat, nat>)
    requires
        a.forest(lo, hi, rank),
        b.count() >= a.count(),
        Ast::same_nodes(a, b, a.count()),
    ensures
        b.forest(lo, hi, rank),
{
    assert forall|p: nat| lo <= p < hi implies #[trigger] b.node_wf(p, lo, hi, rank) by {
        assert(a.node_wf(p, lo, hi, rank));
        assert(b.kind_of(p) == a.kind_of(p));
        assert(b.children_of(p) == a.children_of(p));
    }
}

impl<'a> Resolver<'a> {
    /// Removes the groups below node `root`, as `remove_grouping_in` does.
    pub fn remove_grouping(&mut self, root: AstId)
        requires
            old(self).wf(),
            in_forest(*old(self).ast, root@),
        ensures
            *final(final(self).ast) == *final(old(self).ast),
            *final(final(self).symbols) == *final(old(self).symbols),
            *final(final(self).errors) == *final(old(self).errors),
            final(self).wf(),
            grouping_step(*old(self).ast, *final(self).ast),
            grouping_removed(*final(self).ast, root@),
            *final(self).symbols == *old(self).symbols,
            *final(self).errors == *old(self).errors,
            final(self).definitions_map == old(self).definitions_map,
            final(self).undefined_ids == old(self).undefined_ids,
    {
        let ghost (lo, hi, rank) = choose|lo: nat, hi: nat, rank: Map<nat, nat>|
            lo <= root@ < hi && #[trigger] self.ast.forest(lo, hi, rank);
        self.remove_grouping_in(root, Ghost(lo), Ghost(hi), Ghost(rank));
    }

    /// Resolves the names of the tree under `root`: the prelude's definitions
    /// are added, the groups below `root` removed, the names qualified from the
    /// empty scope, and every listed identifier bound. Only name resolution
    /// errors are reported.
    pub fn resolve(&mut self, root: AstId, prelude: impl Prelude)
        requires
            old(self).wf(),
            in_forest(*old(self).ast, root@),
            prelude_room(*old(self).ast),
            forall|k: int|
                0 <= k < old(self).undefined_ids@.len() ==> {
                    let x = (#[trigger] old(self).undefined_ids@[k])@;
                    &&& x < old(self).ast.count()
                    &&& (old(self).ast.kind_of(x) == AstKind::VIdent || old(self).ast.kind_of(x) == AstKind::TIdent)
                },
        ensures
            *final(final(self).ast) == *final(old(self).ast),
            *final(final(self).symbols) == *final(old(self).symbols),
            *final(final(self).errors) == *final(old(self).errors),
            final(self).ast.wf(),
            final(self).symbols.wf(),
            final(self).errors.wf(),
            final(self).ast.count() >= old(self).ast.count(),
            grouping_removed(*final(self).ast, root@),
            forall|j: nat| j < old(self).ast.count() ==> #[trigger] final(self).ast.kind_of(j) == old(self).ast.kind_of(j),
            Errors::extends(*old(self).errors, *final(self).errors),
            forall|i: nat|
                old(self).errors.count() <= i < final(self).errors.count()
                    ==> #[trigger] final(self).errors.kind_of(i) == ErrorKind::Resolve,
            ({
                let kind = old(self).ast.kind_of(root@);
                let name = join(Seq::<char>::empty(), old(self).ast.ident_of(root@));
                &&& kind == AstKind::VField || kind == AstKind::TField || kind == AstKind::Bind ==> {
                    &&& final(self).symbols.qualified_of(root@) == name
                    &&& final(self).symbols.definition_of(root@) == Some(root)
                    &&& final(self).definitions_map@.contains_key(name)
                    &&& final(self).definitions_map@[name] == root
                }
                &&& kind == AstKind::Block ==> {
                    &&& final(self).symbols.qualified_of(root@) == block_name(Seq::<char>::empty(), root@)
                    &&& final(self).symbols.definition_of(root@) == Some(root)
                }
            }),
    {
        let ghost (lo, hi, rank) = choose|lo: nat, hi: nat, rank: Map<nat, nat>|
            lo <= root@ < hi && #[trigger] self.ast.forest(lo, hi, rank);
        let ghost a0 = *self.ast;
        prelude.apply(self);
        let ghost a1 = *self.ast;
        proof {
            lemma_forest_kept(a0, a1, lo, hi, rank);
        }
        self.remove_grouping_in(root, Ghost(lo), Ghost(hi), Ghost(rank));
        let ghost a2 = *self.ast;
        let ghost u2 = self.undefined_ids@;
        self.qualify_in(root, "", Ghost(lo), Ghost(hi), Ghost(rank));
        proof {
            assert forall|k: int| 0 <= k < self.undefined_ids@.len() implies {
                let kind = self.ast.kind_of((#[trigger] self.undefined_ids@[k])@);
                kind == AstKind::VIdent || kind == AstKind::TIdent
            } by {
                if k < u2.len() {
                    assert(self.undefined_ids@.take(u2.len() as int)[k] == u2[k]);
                    let x = u2[k]@;
                    assert(a1.kind_of(x) == a0.kind_of(x));
                }
            }
        }
        let ghost e3 = *self.errors;
        let ghost s3 = *self.symbols;
        proof {
            reveal_strlit("");
            assert(""@ == Seq::<char>::empty());
        }
        self.find_definitions();
        proof {
            let kind = a0.kind_of(root@);
            if kind == AstKind::VField || kind == AstKind::TField || kind == AstKind::Bind || kind == AstKind::Block {
                assert(self.ast.kind_of(root@) == kind);
                assert forall|m: int| 0 <= m < self.undefined_ids@.len() implies self.undefined_ids@[m]@ != root@ by {
                    let x = self.undefined_ids@[m]@;
                    assert(self.ast.kind_of(x) == AstKind::VIdent || self.ast.kind_of(x) == AstKind::TIdent);
                }
                assert(self.symbols.qualified_of(root@) == s3.qualified_of(root@));
            }
            assert(ungrouped_below(*self.ast, rank, root@));
            assert(self.ast.forest(lo, hi, rank));
            assert forall|j: nat| j < a0.count() implies #[trigger] self.ast.kind_of(j) == a0.kind_of(j) by {
                assert(a1.kind_of(j) == a0.kind_of(j));
            }
        }
    }
}

/// After a name is mapped to a definition, looking it up gives that
/// definition, and looking up any other name gives what it gave before.
pub proof fn law_insert_then_get(
    before: Map<Seq<char>, AstId>,
    after: Map<Seq<char>, AstId>,
    key: Seq<char>,
    id: AstId,
    other: Seq<char>,
)
    requires
        after == before.insert(key, id),
    ensures
        after.contains_key(key) && after[key] == id,
        other != key ==> (after.contains_key(other) == before.contains_key(other) && (before.contains_key(other)
            ==> after[other] == before[other])),
{
}

/// A defined name is found as it is, without going up a scope.
pub proof fn law_lookup_defined(map: Map<Seq<char>, AstId>, name: Seq<char>)
    requires
        map.contains_key(name),
    ensures
        lookup(map, name) == Some((name, map[name])),
{
}

/// An undefined name is found where the name one scope up is found.
pub proof fn law_lookup_scope_up(map: Map<Seq<char>, AstId>, name: Seq<char>, up: Seq<char>)
    requires
        !map.contains_key(name),
        scope_up(name) == Some(up),
    ensures
        lookup(map, name) == lookup(map, up),
{
    lemma_scope_up_shorter(name);
}

} // verus!
