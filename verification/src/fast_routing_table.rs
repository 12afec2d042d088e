//! The route table: static routes by path and method, parameterized
//! routes in a trie, and the two phases of registration and lookup.

use crate::dump_tree::forest_view;
use crate::dump_tree::lemma_forest_view;
use crate::dump_tree::DumpNode;
use crate::dump_tree::DumpView;
use crate::literal_index::index_entries;
use crate::literal_index::index_get;
use crate::literal_index::index_insert;
use crate::literal_index::index_new;
use crate::routing_trie::RoutingTrie;
use crate::table_laws::law_prepare_keeps_lookups;
use crate::table_model::zip_params;
use crate::trie_laws::law_compact_keeps_arity;
use crate::trie_laws::law_compact_keeps_methods_exact;
use crate::trie_laws::law_insert_keeps_arity;
use crate::trie_laws::law_insert_keeps_methods_exact;
use crate::trie_laws::law_insert_keeps_pattern;
use crate::trie_laws::law_insert_keeps_uncompacted;
use crate::table_model::TableMatch;
use crate::table_model::TableView;
use crate::types::values_view;
use crate::types::ParamParseResult;
use crate::types::ParamRouteDecl;
use crate::types::ParamValue;
use crate::types::RouteDecl;
use crate::types::StaticRouteDecl;
use rustc_hash::FxHashMap;
use vstd::prelude::*;
use vstd::string::StringExecFns;

verus! {

/// A misuse of the table.
#[derive(Copy, Clone, Debug, PartialEq, Eq, Structural)]
pub enum UsageError {
    /// A route was handed in after the end of registration.
    AlreadyPrepared,
}

impl UsageError {
    /// The error in words.
    pub fn message(&self) -> (text: String)
        ensures
            text@ == "Cannot add routes after prepare() has been called"@,
    {
        String::from_str("Cannot add routes after prepare() has been called")
    }
}

/// The static routes of one path: for each method, the place of the
/// declaration that handles it.
struct StaticSlot {
    path: String,
    by_method: FxHashMap<String, usize>,
}

/// A route table. Routes are registered, then `prepare` ends registration,
/// then routes are looked up.
pub struct FastRoutingTable<H> {
    trie: RoutingTrie<H>,
    static_decls: Vec<StaticRouteDecl<H>>,
    static_index: FxHashMap<String, usize>,
    static_slots: Vec<StaticSlot>,
    prepared: bool,
}

/// The names and values of a match, as mathematical values.
pub open spec fn params_view(params: Seq<(String, ParamParseResult)>) -> Seq<(Seq<char>, ParamValue)> {
    params.map_values(|pair: (String, ParamParseResult)| (pair.0@, pair.1@))
}

/// What a lookup in the table handed back, as a mathematical value.
pub open spec fn found_view<H>(found: Option<(&H, Vec<(String, ParamParseResult)>)>) -> Option<
    TableMatch<H>,
> {
    match found {
        Some(pair) => Some(TableMatch { route: *pair.0, params: params_view(pair.1@) }),
        None => None,
    }
}

/// What the first `i + 1` names hold is what the first `i` hold, and the
/// name at `i`.
proof fn lemma_take_contains(names: Seq<Seq<char>>, i: int, name: Seq<char>)
    requires
        0 <= i < names.len(),
    ensures
        names.take(i + 1).contains(name) <==> (names.take(i).contains(name) || names[i] == name),
{
    let shorter = names.take(i);
    let longer = names.take(i + 1);
    if longer.contains(name) {
        let k = choose|k: int| 0 <= k < longer.len() && longer[k] == name;
        if k < i {
            assert(shorter[k] == name);
        }
    }
    if shorter.contains(name) {
        let k = choose|k: int| 0 <= k < shorter.len() && shorter[k] == name;
        assert(longer[k] == name);
    }
    if names[i] == name {
        assert(longer[i] == name);
    }
}

impl<H> View for FastRoutingTable<H> {
    type V = TableView<H>;

    closed spec fn view(&self) -> TableView<H> {
        let paths = index_entries(self.static_index);
        TableView {
            static_routes: Map::new(
                |key: (Seq<char>, Seq<char>)|
                    paths.contains_key(key.0) && index_entries(
                        self.static_slots[paths[key.0] as int].by_method,
                    ).contains_key(key.1),
                |key: (Seq<char>, Seq<char>)|
                    self.static_decls[index_entries(
                        self.static_slots[paths[key.0] as int].by_method,
                    )[key.1] as int].route,
            ),
            static_paths: Seq::new(self.static_slots@.len(), |i: int| self.static_slots[i].path@),
            trie: self.trie@,
            prepared: self.prepared,
        }
    }
}

impl<H> FastRoutingTable<H> {
    /// The table is consistent: the trie is, the index finds each path at
    /// its slot and nothing else, and every slot names declarations that
    /// the table holds.
    pub closed spec fn wf(&self) -> bool {
        let paths = index_entries(self.static_index);
        &&& self.trie.wf()
        &&& self.trie@.methods_exact()
        &&& self.trie@.arity_sound(0)
        &&& !self.prepared ==> self.trie@.uncompacted() && self.trie@.pattern_sound(0)
        &&& forall|i: int|
            0 <= i < self.static_slots.len() ==> paths.contains_key(
                (#[trigger] self.static_slots[i]).path@,
            ) && paths[self.static_slots[i].path@] == i
        &&& forall|path: Seq<char>| #[trigger]
            paths.contains_key(path) ==> paths[path] < self.static_slots.len()
                && self.static_slots[paths[path] as int].path@ == path
        &&& forall|i: int, method: Seq<char>|
            0 <= i < self.static_slots.len() && #[trigger] index_entries(
                self.static_slots[i].by_method,
            ).contains_key(method) ==> index_entries(self.static_slots[i].by_method)[method]
                < self.static_decls.len()
    }

    /// A consistent table is a sound value.
    pub proof fn lemma_wf_view(&self)
        requires
            self.wf(),
        ensures
            self@.wf(),
    {
        self.trie.lemma_wf_view();
        let paths = index_entries(self.static_index);
        assert forall|i: int, j: int|
            0 <= i < self@.static_paths.len() && 0 <= j < self@.static_paths.len() && i != j implies self@.static_paths[i]
            != self@.static_paths[j] by {
            assert(paths[self.static_slots[i].path@] == i);
            assert(paths[self.static_slots[j].path@] == j);
        }
        assert forall|key: (Seq<char>, Seq<char>)| #[trigger]
            self@.static_routes.contains_key(key) implies self@.static_paths.contains(key.0) by {
            assert(paths.contains_key(key.0));
            assert(self@.static_paths[paths[key.0] as int] == key.0);
        }
    }

    /// A table that nothing was registered in.
    pub fn new() -> (table: FastRoutingTable<H>)
        ensures
            table.wf(),
            table@ == TableView::<H>::empty(),
    {
        let table = FastRoutingTable {
            trie: RoutingTrie::new(),
            static_decls: Vec::new(),
            static_index: index_new(),
            static_slots: Vec::new(),
            prepared: false,
        };
        proof {
            assert(table@.static_routes =~= Map::empty());
            assert(table@.static_paths =~= Seq::empty());
        }
        table
    }

    /// The slot of the static routes of `path`, which is made, empty,
    /// where it is missing.
    fn static_slot(&mut self, path: &String) -> (slot: usize)
        requires
            old(self).wf(),
        ensures
            final(self).wf(),
            slot < final(self).static_slots.len(),
            final(self).static_slots[slot as int].path@ == path@,
            final(self).trie == old(self).trie,
            final(self).static_decls == old(self).static_decls,
            final(self).prepared == old(self).prepared,
            final(self)@.static_routes == old(self)@.static_routes,
            final(self)@.static_paths == (if old(self)@.static_paths.contains(path@) {
                old(self)@.static_paths
            } else {
                old(self)@.static_paths.push(path@)
            }),
    {
        match index_get(&self.static_index, path.as_str()) {
            Some(found) => {
                proof {
                    assert(self@.static_paths[found as int] == path@);
                }
                found
            },
            None => {
                let slot = self.static_slots.len();
                proof {
                    if self@.static_paths.contains(path@) {
                        let at = choose|at: int|
                            0 <= at < self@.static_paths.len() && self@.static_paths[at] == path@;
                        assert(index_entries(self.static_index).contains_key(
                            self.static_slots[at].path@,
                        ));
                    }
                }
                self.static_slots.push(StaticSlot { path: path.clone(), by_method: index_new() });
                index_insert(&mut self.static_index, path.clone(), slot);
                proof {
                    let paths = index_entries(self.static_index);
                    assert forall|i: int| 0 <= i < self.static_slots.len() implies paths.contains_key(
                        (#[trigger] self.static_slots[i]).path@,
                    ) && paths[self.static_slots[i].path@] == i by {
                        if i < slot {
                            assert(self.static_slots[i] == old(self).static_slots[i]);
                        }
                    }
                    assert forall|key: Seq<char>| #[trigger] paths.contains_key(key) implies paths[key]
                        < self.static_slots.len() && self.static_slots[paths[key] as int].path@
                        == key by {
                        if key != path@ {
                            let place = index_entries(old(self).static_index)[key];
                            assert(self.static_slots[place as int] == old(self).static_slots[place as int]);
                        }
                    }
                    assert forall|i: int, method: Seq<char>|
                        0 <= i < self.static_slots.len() && #[trigger] index_entries(
                            self.static_slots[i].by_method,
                        ).contains_key(method) implies index_entries(
                        self.static_slots[i].by_method,
                    )[method] < self.static_decls.len() by {
                        if i < slot {
                            assert(self.static_slots[i] == old(self).static_slots[i]);
                        }
                    }
                    assert(self@.static_paths =~= old(self)@.static_paths.push(path@));
                    assert(self@.static_routes =~= old(self)@.static_routes) by {
                        assert forall|key: (Seq<char>, Seq<char>)|
                            self@.static_routes.contains_key(key) <==> old(
                                self,
                            )@.static_routes.contains_key(key) by {
                            if key.0 != path@ && index_entries(old(self).static_index).contains_key(key.0) {
                                let place = index_entries(old(self).static_index)[key.0];
                                assert(self.static_slots[place as int] == old(self).static_slots[place as int]);
                            }
                        }
                        assert forall|key: (Seq<char>, Seq<char>)|
                            self@.static_routes.contains_key(key) implies self@.static_routes[key] == old(
                            self,
                        )@.static_routes[key] by {
                            let place = index_entries(old(self).static_index)[key.0];
                            assert(self.static_slots[place as int] == old(self).static_slots[place as int]);
                        }
                    }
                }
                slot
            },
        }
    }

    /// Registers a static route: its handler stands under its path and
    /// each of its methods, in place of what stood there.
    fn add_static_route(&mut self, route: StaticRouteDecl<H>)
        requires
            old(self).wf(),
        ensures
            final(self).wf(),
            final(self)@ == old(self)@.add_static(route),
    {
        let decl_at = self.static_decls.len();
        let n = route.methods.len();
        let ghost names = route.methods.names();
        proof {
            route.methods.lemma_names();
            if n == 0 {
                assert(route.methods@ =~= Set::empty());
            } else {
                assert(names.contains(names[0]));
            }
        }
        let ghost mut made = *self;
        let ghost mut slot_at: int = 0;
        if n > 0 {
            let slot = self.static_slot(&route.path);
            proof {
                slot_at = slot as int;
                made = *self;
            }
            let mut i: usize = 0;
            while i < n
                invariant
                    i <= n,
                    n == names.len(),
                    names == route.methods.names(),
                    slot < self.static_slots.len(),
                    self.trie == made.trie,
                    self.static_decls == made.static_decls,
                    self.static_index == made.static_index,
                    self.prepared == made.prepared,
                    self.static_slots.len() == made.static_slots.len(),
                    forall|s: int|
                        0 <= s < self.static_slots.len() && s != slot ==> self.static_slots[s]
                            == made.static_slots[s],
                    self.static_slots[slot as int].path == made.static_slots[slot as int].path,
                    forall|m: Seq<char>|
                        index_entries(self.static_slots[slot as int].by_method).contains_key(m) <==> (
                        index_entries(made.static_slots[slot as int].by_method).contains_key(m)
                            || names.take(i as int).contains(m)),
                    forall|m: Seq<char>|
                        index_entries(self.static_slots[slot as int].by_method).contains_key(m)
                            ==> index_entries(self.static_slots[slot as int].by_method)[m] == (
                        if names.take(i as int).contains(m) {
                            decl_at
                        } else {
                            index_entries(made.static_slots[slot as int].by_method)[m]
                        }),
                decreases n - i,
            {
                let name = route.methods.get(i).clone();
                let ghost held = index_entries(self.static_slots[slot as int].by_method);
                index_insert(&mut self.static_slots[slot].by_method, name, decl_at);
                proof {
                    let now = index_entries(self.static_slots[slot as int].by_method);
                    assert(now == held.insert(names[i as int], decl_at));
                    assert forall|m: Seq<char>| now.contains_key(m) <==> (index_entries(
                        made.static_slots[slot as int].by_method,
                    ).contains_key(m) || names.take(i + 1).contains(m)) by {
                        lemma_take_contains(names, i as int, m);
                    }
                    assert forall|m: Seq<char>| now.contains_key(m) implies now[m] == (if names.take(
                        i + 1,
                    ).contains(m) {
                        decl_at
                    } else {
                        index_entries(made.static_slots[slot as int].by_method)[m]
                    }) by {
                        lemma_take_contains(names, i as int, m);
                    }
                }
                i = i + 1;
            }
            proof {
                assert(names.take(n as int) =~= names);
            }
        }
        let ghost filled = *self;
        self.static_decls.push(route);
        proof {
            let expected = old(self)@.add_static(route);
            let paths = index_entries(self.static_index);
            let before = index_entries(old(self).static_index);
            if n > 0 {
                assert(paths.contains_key(made.static_slots[slot_at].path@));
                assert(paths[route.path@] == slot_at);
                assert forall|i: int|
                    0 <= i < self.static_slots.len() implies (#[trigger] self.static_slots[i]).path
                    == made.static_slots[i].path by {}
                assert forall|key: Seq<char>| #[trigger]
                    paths.contains_key(key) && key != route.path@ implies self.static_slots[paths[key] as int]
                    == made.static_slots[paths[key] as int] by {
                    assert(made.static_slots[paths[key] as int].path@ == key);
                }
                assert forall|i: int, method: Seq<char>|
                    0 <= i < self.static_slots.len() && #[trigger] index_entries(
                        self.static_slots[i].by_method,
                    ).contains_key(method) implies index_entries(self.static_slots[i].by_method)[method]
                    < self.static_decls.len() by {
                    if i != slot_at {
                        assert(self.static_slots[i] == made.static_slots[i]);
                    }
                }
                assert(self@.static_paths =~= made@.static_paths);
                assert forall|key: (Seq<char>, Seq<char>)|
                    self@.static_routes.contains_key(key) <==> expected.static_routes.contains_key(
                        key,
                    ) by {
                    assert(made@.static_routes.contains_key(key) <==> old(self)@.static_routes.contains_key(key));
                    assert(index_entries(made.static_index) == paths);
                    if key.0 == route.path@ {
                        let now = index_entries(self.static_slots[slot_at].by_method);
                        let then = index_entries(made.static_slots[slot_at].by_method);
                        assert(self@.static_routes.contains_key(key) <==> now.contains_key(key.1));
                        assert(made@.static_routes.contains_key(key) <==> then.contains_key(key.1));
                        assert(names.contains(key.1) <==> route.methods@.contains(key.1));
                        assert(now.contains_key(key.1) <==> (then.contains_key(key.1) || names.contains(key.1)));
                    } else if paths.contains_key(key.0) {
                        assert(self.static_slots[paths[key.0] as int] == made.static_slots[paths[key.0] as int]);
                    }
                }
                assert forall|key: (Seq<char>, Seq<char>)|
                    self@.static_routes.contains_key(key) implies self@.static_routes[key]
                    == expected.static_routes[key] by {
                    assert(made@.static_routes.contains_key(key) <==> old(self)@.static_routes.contains_key(key));
                    if made@.static_routes.contains_key(key) {
                        assert(made@.static_routes[key] == old(self)@.static_routes[key]);
                    }
                    if key.0 == route.path@ {
                    } else {
                        assert(self.static_slots[paths[key.0] as int] == made.static_slots[paths[key.0] as int]);
                    }
                }
                assert(self@.static_routes =~= expected.static_routes);
                assert(self@.static_paths =~= expected.static_paths);
            } else {
                assert(self@.static_paths =~= expected.static_paths);
                assert(self@.static_routes =~= expected.static_routes);
            }
        }
    }

    /// Registers a parameterized route under its pattern.
    fn add_param_route(&mut self, route: ParamRouteDecl<H>)
        requires
            old(self).wf(),
        ensures
            final(self).wf(),
            final(self)@ == old(self)@.add_param(route),
    {
        proof {
            assert(route.parts@.skip(0) =~= route.parts@);
            law_insert_keeps_methods_exact(self.trie@, route, route.parts@);
            law_insert_keeps_arity(self.trie@, 0, route, route.parts@);
            if !self.prepared {
                law_insert_keeps_uncompacted(self.trie@, route, route.parts@);
                law_insert_keeps_pattern(self.trie@, 0, route);
            }
        }
        self.trie.add_route(route, 0);
        proof {
            assert(self@.static_routes =~= old(self)@.static_routes);
            assert(self@.static_paths =~= old(self)@.static_paths);
        }
    }

    /// Registers a route. After the end of registration this is an error,
    /// and the table stays as it is.
    pub fn add_route(&mut self, route: RouteDecl<H>) -> (done: Result<(), UsageError>)
        requires
            old(self).wf(),
        ensures
            final(self).wf(),
            old(self)@.prepared ==> done == Err::<(), UsageError>(UsageError::AlreadyPrepared)
                && *final(self) == *old(self),
            !old(self)@.prepared ==> done is Ok && final(self)@ == old(self)@.add(route),
    {
        if self.prepared {
            return Err(UsageError::AlreadyPrepared);
        }
        match route {
            RouteDecl::Static(static_route) => self.add_static_route(static_route),
            RouteDecl::Param(param_route) => self.add_param_route(param_route),
        }
        Ok(())
    }

    /// The route that handles `method` and `path`: the handler, and the
    /// parameters by name in the order of the pattern. A static route under
    /// that path and method comes before anything that the trie holds.
    pub fn lookup<'a>(&'a self, method: &str, path: &str) -> (found: Option<
        (&'a H, Vec<(String, ParamParseResult)>),
    >)
        requires
            self.wf(),
        ensures
            found_view(found) == self@.lookup(method@, path@),
    {
        match index_get(&self.static_index, path) {
            Some(slot) => {
                match index_get(&self.static_slots[slot].by_method, method) {
                    Some(at) => {
                        let params: Vec<(String, ParamParseResult)> = Vec::new();
                        proof {
                            assert(params_view(params@) =~= Seq::empty());
                        }
                        return Some((&self.static_decls[at].route, params));
                    },
                    None => {},
                }
            },
            None => {},
        }
        match self.trie.lookup(method, path) {
            Some(pair) => {
                let decl = pair.0;
                let mut values = pair.1;
                let mut params: Vec<(String, ParamParseResult)> = Vec::new();
                let ghost all = values_view(values@);
                let ghost zipped = zip_params(decl.params@, all);
                let mut i: usize = 0;
                while i < decl.params.len() && values.len() > 0
                    invariant
                        i <= decl.params.len(),
                        i <= all.len(),
                        zipped == zip_params(decl.params@, all),
                        values_view(values@) == all.skip(i as int),
                        params.len() == i,
                        forall|j: int| 0 <= j < i ==> params_view(params@)[j] == zipped[j],
                    decreases decl.params.len() - i,
                {
                    let ghost left = values@;
                    let value = values.remove(0);
                    proof {
                        assert(values_view(left).len() == left.len());
                        assert(values_view(left) == all.skip(i as int));
                        assert(all.skip(i as int)[0] == all[i as int]);
                        assert(value@ == values_view(left)[0]);
                        assert forall|j: int| 0 <= j < values@.len() implies values_view(values@)[j]
                            == all.skip(i + 1)[j] by {
                            assert(values@[j] == left[j + 1]);
                            assert(values_view(left)[j + 1] == all.skip(i as int)[j + 1]);
                        }
                        assert(values_view(values@) =~= all.skip(i + 1));
                    }
                    params.push((decl.params[i].clone(), value));
                    i = i + 1;
                }
                proof {
                    assert(values_view(values@).len() == values.len());
                    assert(params_view(params@) =~= zipped);
                }
                Some((&decl.route, params))
            },
            None => None,
        }
    }

    /// Draws the table: one childless tree for each static path in the
    /// order of first registration, then the dump of the trie.
    pub fn dump(&self) -> (forest: Vec<DumpNode>)
        ensures
            forest_view(forest@) == self@.dump(),
    {
        let mut forest: Vec<DumpNode> = Vec::new();
        let n = self.static_slots.len();
        let mut i: usize = 0;
        while i < n
            invariant
                i <= n,
                n == self.static_slots.len(),
                forest.len() == i,
                forall|j: int|
                    0 <= j < i ==> (#[trigger] forest[j]).model() == (DumpView {
                        label: self.static_slots[j].path@,
                        children: Seq::empty(),
                    }),
            decreases n - i,
        {
            let children: Vec<DumpNode> = Vec::new();
            forest.push(DumpNode { label: self.static_slots[i].path.clone(), children });
            i = i + 1;
        }
        let mut below = self.trie.dump();
        let ghost drawn = below@;
        let ghost heads = forest@;
        forest.append(&mut below);
        proof {
            lemma_forest_view(forest@);
            lemma_forest_view(drawn);
            assert forall|j: int| 0 <= j < forest.len() implies forest_view(forest@)[j]
                == self@.dump()[j] by {
                if j < n {
                    assert(forest[j] == heads[j]);
                } else {
                    assert(forest[j] == drawn[j - n]);
                }
            }
            assert(forest_view(forest@) =~= self@.dump());
        }
        forest
    }

    /// Whether registration has ended.
    pub fn is_prepared(&self) -> (prepared: bool)
        ensures
            prepared == self@.prepared,
    {
        self.prepared
    }

    /// Ends registration: compacts the trie, once. A second call changes
    /// nothing. Where compaction can join the literals of the trie without
    /// loss, every lookup finds afterwards what it found before.
    pub fn prepare(&mut self)
        requires
            old(self).wf(),
        ensures
            final(self).wf(),
            final(self)@ == old(self)@.prepare(),
            final(self)@.prepared,
            old(self)@.trie.segmented() ==> forall|method: Seq<char>, path: Seq<char>| #[trigger]
                final(self)@.lookup(method, path) == old(self)@.lookup(method, path),
    {
        if self.prepared {
            return ;
        }
        proof {
            law_compact_keeps_methods_exact(self.trie@);
            law_compact_keeps_arity(self.trie@, 0);
            assert forall|method: Seq<char>, path: Seq<char>|
                old(self)@.trie.segmented() implies #[trigger] old(self)@.prepare().lookup(method, path)
                == old(self)@.lookup(method, path) by {
                old(self).lemma_wf_view();
                law_prepare_keeps_lookups(old(self)@, method, path);
            }
        }
        self.trie.prepare_trie();
        self.prepared = true;
        proof {
            assert(self@.static_routes =~= old(self)@.static_routes);
            assert(self@.static_paths =~= old(self)@.static_paths);
        }
    }
}

} // verus!
