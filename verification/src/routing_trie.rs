//! The routing trie: a prefix tree over the segments of route patterns.

use crate::dump_tree::forest_view;
use crate::dump_tree::lemma_forest_view;
use crate::dump_tree::DumpNode;
use crate::dump_tree::DumpView;
use crate::literal_index::index_clear;
use crate::literal_index::index_entries;
use crate::literal_index::index_get;
use crate::literal_index::index_insert;
use crate::literal_index::index_new;
use crate::methods::Methods;
use crate::trie_model::ParamEdgeView;
use crate::trie_model::RadixEdgeView;
use crate::trie_model::StaticEdgeView;
use crate::trie_model::lemma_compact_params;
use crate::trie_model::lemma_compact_statics;
use crate::trie_model::lemma_dump_params;
use crate::trie_model::lemma_dump_statics;
use crate::trie_model::lemma_leaf_position_is;
use crate::trie_model::lemma_param_position;
use crate::trie_model::lemma_param_position_is;
use crate::trie_model::lemma_static_position;
use crate::trie_model::lemma_static_position_is;
use crate::trie_model::param_position;
use crate::trie_model::static_position;
use crate::trie_model::TrieMatch;
use crate::trie_model::TrieView;
use crate::text::split_segment;
use crate::text::strip_edge;
use crate::types::values_view;
use crate::types::ParamParseResult;
use crate::types::ParamRouteDecl;
use crate::types::ParamType;
use crate::types::PathPart;
use rustc_hash::FxHashMap;
use vstd::prelude::*;
use vstd::string::StringExecFns;

verus! {

/// A literal edge and the node behind it.
pub struct StaticEdge<H> {
    literal: String,
    node: RoutingTrie<H>,
}

/// A parameter edge and the node behind it.
pub struct ParamEdge<H> {
    kind: ParamType,
    node: RoutingTrie<H>,
}

/// A node of the routing trie, with all that lies below it.
///
/// The literal edges stand in `static_parts` in the order of registration;
/// `static_index` finds the place of each by its literal. The parameter
/// edges stand in `param_parts` in the order of their types.
pub struct RoutingTrie<H> {
    methods: Methods,
    leafs: Vec<ParamRouteDecl<H>>,
    static_index: FxHashMap<String, usize>,
    static_parts: Vec<StaticEdge<H>>,
    param_parts: Vec<ParamEdge<H>>,
    radix_node: Option<(String, Box<RoutingTrie<H>>)>,
}

/// The literal edges as mathematical values.
pub closed spec fn statics_view<H>(edges: Seq<StaticEdge<H>>) -> Seq<StaticEdgeView<H>>
    decreases edges, 0int,
{
    if edges.len() == 0 {
        Seq::empty()
    } else {
        statics_view(edges.drop_last()).push(
            StaticEdgeView { literal: edges.last().literal@, node: edges.last().node.model() },
        )
    }
}

/// The parameter edges as mathematical values.
pub closed spec fn params_view<H>(edges: Seq<ParamEdge<H>>) -> Seq<ParamEdgeView<H>>
    decreases edges, 0int,
{
    if edges.len() == 0 {
        Seq::empty()
    } else {
        params_view(edges.drop_last()).push(
            ParamEdgeView { kind: edges.last().kind, node: edges.last().node.model() },
        )
    }
}

/// The view of the literal edges holds one edge for each, in the same place.
proof fn lemma_statics_view<H>(edges: Seq<StaticEdge<H>>)
    ensures
        statics_view(edges).len() == edges.len(),
        forall|i: int|
            0 <= i < edges.len() ==> #[trigger] statics_view(edges)[i] == (StaticEdgeView {
                literal: edges[i].literal@,
                node: edges[i].node.model(),
            }),
    decreases edges.len(),
{
    if edges.len() > 0 {
        lemma_statics_view(edges.drop_last());
    }
}

/// The view of the parameter edges holds one edge for each, in the same place.
proof fn lemma_params_view<H>(edges: Seq<ParamEdge<H>>)
    ensures
        params_view(edges).len() == edges.len(),
        forall|i: int|
            0 <= i < edges.len() ==> #[trigger] params_view(edges)[i] == (ParamEdgeView {
                kind: edges[i].kind,
                node: edges[i].node.model(),
            }),
    decreases edges.len(),
{
    if edges.len() > 0 {
        lemma_params_view(edges.drop_last());
    }
}

/// What a lookup handed back, as a mathematical value.
pub open spec fn match_view<H>(found: Option<(&ParamRouteDecl<H>, Vec<ParamParseResult>)>) -> Option<
    TrieMatch<H>,
> {
    match found {
        Some(pair) => Some(TrieMatch { decl: *pair.0, args: values_view(pair.1@) }),
        None => None,
    }
}

impl<H> View for RoutingTrie<H> {
    type V = TrieView<H>;

    closed spec fn view(&self) -> TrieView<H> {
        self.model()
    }
}

impl<H> RoutingTrie<H> {
    /// The node as a mathematical value.
    pub closed spec fn model(&self) -> TrieView<H>
        decreases self, 1int,
    {
        TrieView {
            methods: self.methods@,
            leafs: self.leafs@,
            statics: statics_view(self.static_parts@),
            params: params_view(self.param_parts@),
            radix: match self.radix_node {
                Some(edge) => Some(RadixEdgeView { prefix: edge.0@, node: Box::new(edge.1.model()) }),
                None => None,
            },
        }
    }

    /// The index finds each literal edge at its place and nothing else.
    pub closed spec fn index_agrees(&self) -> bool {
        let entries = index_entries(self.static_index);
        &&& forall|i: int|
            0 <= i < self.static_parts.len() ==> entries.contains_key(
                (#[trigger] self.static_parts[i]).literal@,
            ) && entries[self.static_parts[i].literal@] == i
        &&& forall|literal: Seq<char>| #[trigger]
            entries.contains_key(literal) ==> entries[literal] < self.static_parts.len()
                && self.static_parts[entries[literal] as int].literal@ == literal
    }

    /// The node is consistent: the index agrees with the literal edges, the
    /// parameter edges stand in the strict order of their types, and the
    /// nodes below are consistent.
    pub closed spec fn wf(&self) -> bool
        decreases self,
    {
        &&& self.index_agrees()
        &&& forall|i: int, j: int|
            0 <= i < j < self.param_parts.len() ==> self.param_parts[i].kind.rank()
                < self.param_parts[j].kind.rank()
        &&& forall|i: int|
            0 <= i < self.static_parts.len() ==> (#[trigger] self.static_parts[i]).node.wf()
        &&& forall|i: int|
            0 <= i < self.param_parts.len() ==> (#[trigger] self.param_parts[i]).node.wf()
        &&& match self.radix_node {
            Some(edge) => edge.1.wf(),
            None => true,
        }
    }

    /// A consistent node is a well-formed value.
    pub proof fn lemma_wf_view(&self)
        requires
            self.wf(),
        ensures
            self@.wf(),
        decreases self,
    {
        lemma_statics_view(self.static_parts@);
        lemma_params_view(self.param_parts@);
        let view = self@;
        assert forall|i: int, j: int| 0 <= i < j < view.statics.len() implies view.statics[i].literal
            != view.statics[j].literal by {
            let entries = index_entries(self.static_index);
            assert(entries[self.static_parts[i].literal@] == i);
            assert(entries[self.static_parts[j].literal@] == j);
        }
        assert forall|i: int| 0 <= i < view.statics.len() implies (#[trigger] view.statics[i]).node.wf() by {
            self.static_parts[i].node.lemma_wf_view();
        }
        assert forall|i: int| 0 <= i < view.params.len() implies (#[trigger] view.params[i]).node.wf() by {
            self.param_parts[i].node.lemma_wf_view();
        }
        match self.radix_node {
            Some(edge) => {
                edge.1.lemma_wf_view();
            },
            None => {},
        }
    }

    /// A node that nothing was registered in.
    pub fn new() -> (node: RoutingTrie<H>)
        ensures
            node.wf(),
            node@ == TrieView::<H>::empty(),
    {
        let node = RoutingTrie {
            methods: Methods::new(),
            leafs: Vec::new(),
            static_index: index_new(),
            static_parts: Vec::new(),
            param_parts: Vec::new(),
            radix_node: None,
        };
        proof {
            assert(statics_view(node.static_parts@) =~= Seq::empty());
            assert(params_view(node.param_parts@) =~= Seq::empty());
            assert(node.leafs@ =~= Seq::empty());
        }
        node
    }

    /// The place of the literal edge for `literal`, which is made, with an
    /// empty node behind it, where it is missing.
    fn static_child(&mut self, literal: &String) -> (at: usize)
        requires
            old(self).wf(),
        ensures
            final(self).wf(),
            at == static_position(old(self)@.statics, literal@),
            at < final(self).static_parts.len(),
            final(self)@ == (if at < old(self)@.statics.len() {
                old(self)@
            } else {
                TrieView {
                    statics: old(self)@.statics.push(
                        StaticEdgeView { literal: literal@, node: TrieView::empty() },
                    ),
                    ..old(self)@
                }
            }),
    {
        proof {
            lemma_statics_view(self.static_parts@);
        }
        match index_get(&self.static_index, literal.as_str()) {
            Some(found) => {
                proof {
                    self.lemma_static_position(literal@, found as int);
                }
                found
            },
            None => {
                proof {
                    self.lemma_static_position(literal@, self.static_parts.len() as int);
                }
                let at = self.static_parts.len();
                self.static_parts.push(
                    StaticEdge { literal: literal.clone(), node: RoutingTrie::new() },
                );
                index_insert(&mut self.static_index, literal.clone(), at);
                proof {
                    lemma_statics_view(self.static_parts@);
                    let entries = index_entries(self.static_index);
                    assert forall|i: int| 0 <= i < self.static_parts.len() implies entries.contains_key(
                        (#[trigger] self.static_parts[i]).literal@,
                    ) && entries[self.static_parts[i].literal@] == i by {
                        if i < at {
                            assert(self.static_parts[i] == old(self).static_parts[i]);
                        }
                    }
                    assert forall|key: Seq<char>| #[trigger] entries.contains_key(key) implies entries[key]
                        < self.static_parts.len() && self.static_parts[entries[key] as int].literal@
                        == key by {
                        if key != literal@ {
                            let place = index_entries(old(self).static_index)[key];
                            assert(self.static_parts[place as int] == old(self).static_parts[place as int]);
                        }
                    }
                    assert forall|i: int| 0 <= i < self.static_parts.len() implies (
                    #[trigger] self.static_parts[i]).node.wf() by {
                        if i < at {
                            assert(self.static_parts[i] == old(self).static_parts[i]);
                        }
                    }
                    assert(self@.statics =~= old(self)@.statics.push(
                        StaticEdgeView { literal: literal@, node: TrieView::empty() },
                    ));
                }
                at
            },
        }
    }

    /// The place of the parameter edge for `kind`, which is made, with an
    /// empty node behind it, where it is missing.
    fn param_child(&mut self, kind: ParamType) -> (at: usize)
        requires
            old(self).wf(),
        ensures
            final(self).wf(),
            at == param_position(old(self)@.params, kind),
            at < final(self).param_parts.len(),
            final(self)@ == (if at < old(self)@.params.len() && old(self)@.params[at as int].kind == kind {
                old(self)@
            } else {
                TrieView {
                    params: old(self)@.params.insert(
                        at as int,
                        ParamEdgeView { kind, node: TrieView::empty() },
                    ),
                    ..old(self)@
                }
            }),
    {
        proof {
            lemma_params_view(self.param_parts@);
        }
        let mut k: usize = 0;
        while k < self.param_parts.len()
            invariant
                k <= self.param_parts.len(),
                forall|j: int| 0 <= j < k ==> self.param_parts[j].kind.rank() < kind.rank(),
            ensures
                k <= self.param_parts.len(),
                forall|j: int| 0 <= j < k ==> self.param_parts[j].kind.rank() < kind.rank(),
                k < self.param_parts.len() ==> self.param_parts[k as int].kind.rank() >= kind.rank(),
            decreases self.param_parts.len() - k,
        {
            if self.param_parts[k].kind.order() >= kind.order() {
                break ;
            }
            k = k + 1;
        }
        proof {
            lemma_param_position_is(self@.params, kind, k as int);
        }
        if k < self.param_parts.len() && self.param_parts[k].kind.order() == kind.order() {
            k
        } else {
            self.param_parts.insert(k, ParamEdge { kind, node: RoutingTrie::new() });
            proof {
                lemma_params_view(self.param_parts@);
                assert forall|i: int, j: int| 0 <= i < j < self.param_parts.len() implies self.param_parts[i].kind.rank()
                    < self.param_parts[j].kind.rank() by {
                    let before = old(self).param_parts@;
                    let i0 = if i < k { i } else { i - 1 };
                    let j0 = if j < k { j } else { j - 1 };
                    if i != k && j != k {
                        assert(before[i0].kind.rank() < before[j0].kind.rank());
                    } else if i == k {
                        assert(before[j0].kind.rank() >= before[k as int].kind.rank()) by {
                            if j0 > k {
                                assert(before[k as int].kind.rank() < before[j0].kind.rank());
                            }
                        }
                    }
                }
                assert forall|i: int| 0 <= i < self.param_parts.len() implies (
                #[trigger] self.param_parts[i]).node.wf() by {
                    if i < k {
                        assert(self.param_parts[i] == old(self).param_parts[i]);
                    } else if i > k {
                        assert(self.param_parts[i] == old(self).param_parts[i - 1]);
                    }
                }
                assert(self@.params =~= old(self)@.params.insert(
                    k as int,
                    ParamEdgeView { kind, node: TrieView::empty() },
                ));
            }
            k
        }
    }

    /// Registers `route` under what is left of its pattern from part `from`
    /// on: the node lists the route's methods, and the route goes down the
    /// edge of each part, which is made where it is missing, to the node
    /// where the pattern ends.
    pub fn add_route(&mut self, route: ParamRouteDecl<H>, from: usize)
        requires
            old(self).wf(),
            from <= route.parts.len(),
        ensures
            final(self).wf(),
            final(self)@ == old(self)@.insert(route, route.parts@.skip(from as int)),
        decreases route.parts.len() - from,
    {
        let ghost parts = route.parts@.skip(from as int);
        self.methods.extend(&route.methods);
        if from == route.parts.len() {
            self.leafs.push(route);
            return ;
        }
        proof {
            assert(parts[0] == route.parts@[from as int]);
            assert(parts.skip(1) =~= route.parts@.skip(from + 1));
        }
        let ghost listed = *self;
        let mut along_literal = false;
        let mut at: usize = 0;
        match &route.parts[from] {
            PathPart::Static { path } => {
                along_literal = true;
                at = self.static_child(path);
            },
            PathPart::Param { name: _, param_type } => {
                at = self.param_child(*param_type);
            },
        }
        let ghost made = *self;
        proof {
            lemma_statics_view(self.static_parts@);
            lemma_params_view(self.param_parts@);
        }
        if along_literal {
            self.static_parts[at].node.add_route(route, from + 1);
        } else {
            self.param_parts[at].node.add_route(route, from + 1);
        }
        proof {
            lemma_statics_view(self.static_parts@);
            lemma_params_view(self.param_parts@);
            assert forall|i: int| 0 <= i < self.static_parts.len() implies (
            #[trigger] self.static_parts[i]).node.wf() by {
                if !along_literal || i != at {
                    assert(self.static_parts[i] == made.static_parts[i]);
                }
            }
            assert forall|i: int| 0 <= i < self.param_parts.len() implies (
            #[trigger] self.param_parts[i]).node.wf() by {
                if along_literal || i != at {
                    assert(self.param_parts[i] == made.param_parts[i]);
                }
            }
            let expected = old(self)@.insert(route, parts);
            assert(listed@.statics == old(self)@.statics);
            assert(listed@.params == old(self)@.params);
            match parts[0] {
                PathPart::Static { path } => {
                    lemma_static_position(listed@.statics, path@);
                    let below = made@.statics[at as int].node.insert(route, parts.skip(1));
                    assert(self@.statics =~= made@.statics.update(
                        at as int,
                        StaticEdgeView { literal: path@, node: below },
                    ));
                    assert(self@.statics =~= expected.statics);
                    assert(self@.params =~= expected.params);
                },
                PathPart::Param { name, param_type } => {
                    lemma_param_position(listed@.params, param_type);
                    let below = made@.params[at as int].node.insert(route, parts.skip(1));
                    assert(self@.params =~= made@.params.update(
                        at as int,
                        ParamEdgeView { kind: param_type, node: below },
                    ));
                    assert(self@.params =~= expected.params);
                    assert(self@.statics =~= expected.statics);
                },
            }
        }
    }

    /// Compacts the trie from this node down, bottom-up: a node with one
    /// literal edge and nothing else takes that edge, joined with the
    /// compacted edge behind it, for its own compacted edge.
    pub fn prepare_trie(&mut self)
        requires
            old(self).wf(),
        ensures
            final(self).wf(),
            final(self)@ == old(self)@.compact(),
        decreases *old(self),
    {
        proof {
            lemma_statics_view(self.static_parts@);
            lemma_params_view(self.param_parts@);
        }
        let n = self.static_parts.len();
        let mut i: usize = 0;
        while i < n
            invariant
                old(self).wf(),
                i <= n,
                n == self.static_parts.len(),
                n == old(self).static_parts.len(),
                self.methods == old(self).methods,
                self.leafs == old(self).leafs,
                self.static_index == old(self).static_index,
                self.param_parts == old(self).param_parts,
                self.radix_node == old(self).radix_node,
                forall|j: int| i <= j < n ==> self.static_parts[j] == old(self).static_parts[j],
                forall|j: int|
                    0 <= j < i ==> (#[trigger] self.static_parts[j]).literal == old(
                        self,
                    ).static_parts[j].literal && self.static_parts[j].node.wf()
                        && self.static_parts[j].node@ == old(self).static_parts[j].node@.compact(),
            decreases n - i,
        {
            assert(old(self).static_parts[i as int].node.wf());
            self.static_parts[i].node.prepare_trie();
            i = i + 1;
        }
        let m = self.param_parts.len();
        let mut k: usize = 0;
        while k < m
            invariant
                old(self).wf(),
                k <= m,
                m == self.param_parts.len(),
                m == old(self).param_parts.len(),
                n == self.static_parts.len(),
                n == old(self).static_parts.len(),
                self.methods == old(self).methods,
                self.leafs == old(self).leafs,
                self.static_index == old(self).static_index,
                self.radix_node == old(self).radix_node,
                forall|j: int|
                    0 <= j < n ==> (#[trigger] self.static_parts[j]).literal == old(
                        self,
                    ).static_parts[j].literal && self.static_parts[j].node.wf()
                        && self.static_parts[j].node@ == old(self).static_parts[j].node@.compact(),
                forall|j: int| k <= j < m ==> self.param_parts[j] == old(self).param_parts[j],
                forall|j: int|
                    0 <= j < k ==> (#[trigger] self.param_parts[j]).kind == old(self).param_parts[j].kind
                        && self.param_parts[j].node.wf() && self.param_parts[j].node@ == old(
                        self,
                    ).param_parts[j].node@.compact(),
            decreases m - k,
        {
            assert(old(self).param_parts[k as int].node.wf());
            self.param_parts[k].node.prepare_trie();
            k = k + 1;
        }
        let ghost below = old(self)@.compact_below();
        proof {
            lemma_statics_view(self.static_parts@);
            lemma_params_view(self.param_parts@);
            lemma_statics_view(old(self).static_parts@);
            lemma_params_view(old(self).param_parts@);
            lemma_compact_statics(old(self)@.statics);
            lemma_compact_params(old(self)@.params);
            assert(self@.statics =~= below.statics);
            assert(self@.params =~= below.params);
        }
        if !self.param_parts.is_empty() {
            return ;
        }
        if !self.leafs.is_empty() {
            return ;
        }
        if self.static_parts.len() != 1 {
            return ;
        }
        let edge = self.static_parts.pop().unwrap();
        index_clear(&mut self.static_index);
        let literal = edge.literal;
        let node = edge.node;
        if node.is_radix() {
            let (sub_path, sub_trie) = node.radix_node.unwrap();
            let mut combined_path = literal;
            combined_path.append("/");
            combined_path.append(sub_path.as_str());
            proof {
                reveal_strlit("/");
                assert("/"@ =~= seq!['/']);
            }
            self.radix_node = Some((combined_path, sub_trie));
        } else {
            self.radix_node = Some((literal, Box::new(node)));
        }
        proof {
            lemma_statics_view(self.static_parts@);
            lemma_params_view(self.param_parts@);
            assert(self@.statics =~= Seq::empty());
        }
    }

    /// The route that handles `method` and `path` from this node on, with
    /// the values of its parameters in the order of the pattern.
    pub fn lookup<'a>(&'a self, method: &str, path: &str) -> (found: Option<
        (&'a ParamRouteDecl<H>, Vec<ParamParseResult>),
    >)
        requires
            self.wf(),
        ensures
            match_view(found) == self@.lookup(method@, path@),
        decreases self,
    {
        if !self.methods.contains(method) {
            return None;
        }
        if path.is_empty() {
            let mut i: usize = 0;
            while i < self.leafs.len()
                invariant
                    i <= self.leafs.len(),
                    self@.methods.contains(method@),
                    path@.len() == 0,
                    forall|j: int| 0 <= j < i ==> !self.leafs[j].methods@.contains(method@),
                decreases self.leafs.len() - i,
            {
                if self.leafs[i].methods.contains(method) {
                    let args: Vec<ParamParseResult> = Vec::new();
                    proof {
                        lemma_leaf_position_is(self.leafs@, method@, i as int);
                        assert(values_view(args@) =~= Seq::empty());
                    }
                    return Some((&self.leafs[i], args));
                }
                i = i + 1;
            }
            proof {
                lemma_leaf_position_is(self.leafs@, method@, i as int);
            }
            return None;
        }
        match &self.radix_node {
            Some(edge) => {
                match strip_edge(edge.0.as_str(), path) {
                    Some(rest) => {
                        return edge.1.lookup(method, rest);
                    },
                    None => {},
                }
            },
            None => {},
        }
        let (part, rest) = split_segment(path);
        proof {
            lemma_statics_view(self.static_parts@);
            lemma_params_view(self.param_parts@);
        }
        match index_get(&self.static_index, part) {
            Some(at) => {
                proof {
                    self.lemma_static_position(part@, at as int);
                }
                match self.static_parts[at].node.lookup(method, rest) {
                    Some(found) => {
                        return Some(found);
                    },
                    None => {},
                }
            },
            None => {
                proof {
                    self.lemma_static_position(part@, self.static_parts.len() as int);
                }
            },
        }
        assert(self@.lookup(method@, path@) == self@.lookup_params(0, method@, part@, rest@));
        let mut k: usize = 0;
        while k < self.param_parts.len()
            invariant
                self.wf(),
                k <= self.param_parts.len(),
                params_view(self.param_parts@) == self@.params,
                self@.params.len() == self.param_parts.len(),
                self@.lookup(method@, path@) == self@.lookup_params(
                    k as int,
                    method@,
                    part@,
                    rest@,
                ),
            decreases self.param_parts.len() - k,
        {
            proof {
                lemma_params_view(self.param_parts@);
            }
            let edge = &self.param_parts[k];
            let ghost along = self@.along_param(k as int, method@, part@, rest@);
            proof {
                assert(self@.params[k as int].kind == edge.kind);
                assert(self@.params[k as int].node == edge.node@);
            }
            match edge.kind.parse(part) {
                Some(parsed) => {
                    match edge.node.lookup(method, rest) {
                        Some(found) => {
                            let decl = found.0;
                            let mut args = found.1;
                            let ghost below = args@;
                            args.insert(0, parsed);
                            proof {
                                assert(values_view(args@) =~= seq![parsed@] + values_view(below));
                                assert(along == Some(
                                    TrieMatch { decl: *decl, args: values_view(args@) },
                                ));
                            }
                            return Some((decl, args));
                        },
                        None => {
                            assert(along is None);
                        },
                    }
                },
                None => {
                    assert(along is None);
                },
            }
            k = k + 1;
        }
        None
    }

    /// Under a consistent index, the place that the index gives for a
    /// literal (the number of edges where it gives none) is the literal's
    /// position among the edges.
    proof fn lemma_static_position(&self, literal: Seq<char>, at: int)
        requires
            self.index_agrees(),
            index_entries(self.static_index).contains_key(literal) ==> at == index_entries(
                self.static_index,
            )[literal],
            !index_entries(self.static_index).contains_key(literal) ==> at == self.static_parts.len(),
        ensures
            static_position(self@.statics, literal) == at,
            0 <= at <= self.static_parts.len(),
            at < self.static_parts.len() ==> self.static_parts[at].literal@ == literal,
    {
        lemma_statics_view(self.static_parts@);
        let entries = index_entries(self.static_index);
        assert forall|j: int| 0 <= j < at implies self@.statics[j].literal != literal by {
            assert(entries[self.static_parts[j].literal@] == j);
        }
        lemma_static_position_is(self@.statics, literal, at);
    }

    /// Draws the trie from this node down: the compacted edge alone where
    /// the node has one, else one tree for each literal edge in the order of
    /// registration, then one for each parameter edge in the order of the
    /// types, labelled with the type's name in braces.
    pub fn dump(&self) -> (forest: Vec<DumpNode>)
        ensures
            forest_view(forest@) == self@.dump(),
        decreases self,
    {
        let mut forest: Vec<DumpNode> = Vec::new();
        match &self.radix_node {
            Some(edge) => {
                let children = edge.1.dump();
                forest.push(DumpNode { label: edge.0.clone(), children });
                proof {
                    lemma_forest_view(forest@);
                    assert(forest_view(forest@) =~= self@.dump());
                }
                return forest;
            },
            None => {},
        }
        proof {
            lemma_statics_view(self.static_parts@);
            lemma_params_view(self.param_parts@);
            lemma_dump_statics(self@.statics);
            lemma_dump_params(self@.params);
        }
        let n = self.static_parts.len();
        let mut i: usize = 0;
        while i < n
            invariant
                i <= n,
                n == self.static_parts.len(),
                forest.len() == i,
                forall|j: int|
                    0 <= j < i ==> (#[trigger] forest[j]).model() == (DumpView {
                        label: self.static_parts[j].literal@,
                        children: self.static_parts[j].node@.dump(),
                    }),
            decreases n - i,
        {
            let children = self.static_parts[i].node.dump();
            forest.push(DumpNode { label: self.static_parts[i].literal.clone(), children });
            i = i + 1;
        }
        let m = self.param_parts.len();
        let mut k: usize = 0;
        while k < m
            invariant
                k <= m,
                m == self.param_parts.len(),
                n == self.static_parts.len(),
                forest.len() == n + k,
                forall|j: int|
                    0 <= j < n ==> (#[trigger] forest[j]).model() == (DumpView {
                        label: self.static_parts[j].literal@,
                        children: self.static_parts[j].node@.dump(),
                    }),
                forall|j: int|
                    0 <= j < k ==> (#[trigger] forest[n + j]).model() == (DumpView {
                        label: self.param_parts[j].kind.label_spec(),
                        children: self.param_parts[j].node@.dump(),
                    }),
            decreases m - k,
        {
            let children = self.param_parts[k].node.dump();
            forest.push(DumpNode { label: self.param_parts[k].kind.label(), children });
            k = k + 1;
        }
        proof {
            lemma_forest_view(forest@);
            assert forall|j: int| 0 <= j < forest.len() implies forest_view(forest@)[j]
                == self@.dump()[j] by {
                if j >= n {
                    assert(forest[n + (j - n)].model() == forest[j].model());
                }
            }
            assert(forest_view(forest@) =~= self@.dump());
        }
        forest
    }

    /// Whether the node has a compacted edge.
    pub fn is_radix(&self) -> (radix: bool)
        ensures
            radix == (self@.radix is Some),
    {
        self.radix_node.is_some()
    }
}

} // verus!
