//! The route table as a mathematical value, and what its operations mean
//! on it.

use crate::dump_tree::DumpView;
use crate::trie_model::TrieView;
use crate::types::ParamRouteDecl;
use crate::types::ParamValue;
use crate::types::RouteDecl;
use crate::types::StaticRouteDecl;
use vstd::prelude::*;

verus! {

/// A route table.
///
/// `static_routes` gives the handler of each static route by path and
/// method, in that order; `static_paths` lists the paths of the static
/// routes, each once, in the order of first registration.
pub struct TableView<H> {
    pub static_routes: Map<(Seq<char>, Seq<char>), H>,
    pub static_paths: Seq<Seq<char>>,
    pub trie: TrieView<H>,
    pub prepared: bool,
}

/// What a lookup in the table finds: the handler of the route, and the
/// parameters by name in the order of the pattern.
pub struct TableMatch<H> {
    pub route: H,
    pub params: Seq<(Seq<char>, ParamValue)>,
}

/// The names of a pattern's parameters, each with its value; where one list
/// is longer, what has no partner is left out.
pub open spec fn zip_params(names: Seq<String>, values: Seq<ParamValue>) -> Seq<
    (Seq<char>, ParamValue),
> {
    Seq::new(
        if names.len() <= values.len() {
            names.len()
        } else {
            values.len()
        },
        |i: int| (names[i]@, values[i]),
    )
}

/// One childless tree for each path.
pub open spec fn dump_paths(paths: Seq<Seq<char>>) -> Seq<DumpView> {
    Seq::new(paths.len(), |i: int| DumpView { label: paths[i], children: Seq::empty() })
}

impl<H> TableView<H> {
    /// The table that nothing was registered in.
    pub open spec fn empty() -> TableView<H> {
        TableView {
            static_routes: Map::empty(),
            static_paths: Seq::empty(),
            trie: TrieView::empty(),
            prepared: false,
        }
    }

    /// The table is sound: its trie is well formed and lists exactly the
    /// methods of its declarations, node by node; every declaration in the
    /// trie stands where its pattern ends; until registration has ended the
    /// trie has no compacted edge, and every declaration lies behind the
    /// edges of its pattern; and the static paths are listed once each,
    /// none with a route left out.
    pub open spec fn wf(self) -> bool {
        &&& self.trie.wf()
        &&& self.trie.methods_exact()
        &&& self.trie.arity_sound(0)
        &&& !self.prepared ==> self.trie.uncompacted() && self.trie.pattern_sound(0)
        &&& self.static_paths.no_duplicates()
        &&& forall|key: (Seq<char>, Seq<char>)| #[trigger]
            self.static_routes.contains_key(key) ==> self.static_paths.contains(key.0)
    }

    /// The table after a static route was registered: its handler stands
    /// under its path and each of its methods, in place of what stood there.
    pub open spec fn add_static(self, decl: StaticRouteDecl<H>) -> TableView<H> {
        TableView {
            static_routes: Map::new(
                |key: (Seq<char>, Seq<char>)|
                    self.static_routes.contains_key(key) || (key.0 == decl.path@
                        && decl.methods@.contains(key.1)),
                |key: (Seq<char>, Seq<char>)|
                    if key.0 == decl.path@ && decl.methods@.contains(key.1) {
                        decl.route
                    } else {
                        self.static_routes[key]
                    },
            ),
            static_paths: if decl.methods@ =~= Set::empty() || self.static_paths.contains(
                decl.path@,
            ) {
                self.static_paths
            } else {
                self.static_paths.push(decl.path@)
            },
            ..self
        }
    }

    /// The table after a parameterized route was registered under its
    /// pattern.
    pub open spec fn add_param(self, decl: ParamRouteDecl<H>) -> TableView<H> {
        TableView { trie: self.trie.insert(decl, decl.parts@), ..self }
    }

    /// The table after a route of either kind was registered.
    pub open spec fn add(self, route: RouteDecl<H>) -> TableView<H> {
        match route {
            RouteDecl::Static(decl) => self.add_static(decl),
            RouteDecl::Param(decl) => self.add_param(decl),
        }
    }

    /// The table after the end of registration: the trie is compacted,
    /// once.
    pub open spec fn prepare(self) -> TableView<H> {
        if self.prepared {
            self
        } else {
            TableView { trie: self.trie.compact(), prepared: true, ..self }
        }
    }

    /// The route that handles `method` and `path`: the static route under
    /// that path and method where there is one, else what the trie finds.
    pub open spec fn lookup(self, method: Seq<char>, path: Seq<char>) -> Option<TableMatch<H>> {
        if self.static_routes.contains_key((path, method)) {
            Some(TableMatch { route: self.static_routes[(path, method)], params: Seq::empty() })
        } else {
            match self.trie.lookup(method, path) {
                Some(found) => Some(
                    TableMatch {
                        route: found.decl.route,
                        params: zip_params(found.decl.params@, found.args),
                    },
                ),
                None => None,
            }
        }
    }

    /// The forest that a dump of the table draws: one childless tree for
    /// each static path, then the dump of the trie.
    pub open spec fn dump(self) -> Seq<DumpView> {
        dump_paths(self.static_paths) + self.trie.dump()
    }
}

} // verus!
