//! The routing trie as a mathematical value, and what registration,
//! compaction, lookup and dumping mean on it.

use crate::dump_tree::DumpView;
use crate::text::after_first_segment;
use crate::text::edge_rest;
use crate::text::first_segment;
use crate::text::join_segments;
use crate::types::ParamRouteDecl;
use crate::types::ParamType;
use crate::types::ParamValue;
use crate::types::PathPart;
use vstd::prelude::*;

verus! {

/// An edge that one literal segment leads along.
pub struct StaticEdgeView<H> {
    pub literal: Seq<char>,
    pub node: TrieView<H>,
}

/// An edge that a segment of one parameter type leads along.
pub struct ParamEdgeView<H> {
    pub kind: ParamType,
    pub node: TrieView<H>,
}

/// A compacted edge: several literal segments, joined by `/`, that lead to
/// one node.
pub struct RadixEdgeView<H> {
    pub prefix: Seq<char>,
    pub node: Box<TrieView<H>>,
}

/// A node of the routing trie.
///
/// `statics` keeps the literal edges in the order in which they were first
/// registered, `params` the parameter edges in the order of their types.
pub struct TrieView<H> {
    pub methods: Set<Seq<char>>,
    pub leafs: Seq<ParamRouteDecl<H>>,
    pub statics: Seq<StaticEdgeView<H>>,
    pub params: Seq<ParamEdgeView<H>>,
    pub radix: Option<RadixEdgeView<H>>,
}

/// A route that a lookup found, with the values of its parameters in the
/// order of the pattern.
pub struct TrieMatch<H> {
    pub decl: ParamRouteDecl<H>,
    pub args: Seq<ParamValue>,
}

/// Position of the first edge with this literal, or the number of edges.
pub open spec fn static_position<H>(edges: Seq<StaticEdgeView<H>>, literal: Seq<char>) -> int
    decreases edges.len(),
{
    if edges.len() == 0 || edges[0].literal == literal {
        0
    } else {
        1 + static_position(edges.skip(1), literal)
    }
}

/// Position of the first edge whose type is `kind` or comes after it, or
/// the number of edges.
pub open spec fn param_position<H>(edges: Seq<ParamEdgeView<H>>, kind: ParamType) -> int
    decreases edges.len(),
{
    if edges.len() == 0 || edges[0].kind.rank() >= kind.rank() {
        0
    } else {
        1 + param_position(edges.skip(1), kind)
    }
}

/// Position of the first declaration that accepts the method, or the
/// number of declarations.
pub open spec fn leaf_position<H>(leafs: Seq<ParamRouteDecl<H>>, method: Seq<char>) -> int
    decreases leafs.len(),
{
    if leafs.len() == 0 || leafs[0].methods@.contains(method) {
        0
    } else {
        1 + leaf_position(leafs.skip(1), method)
    }
}

/// The three positions above are the least ones of their kind.
pub proof fn lemma_static_position<H>(edges: Seq<StaticEdgeView<H>>, literal: Seq<char>)
    ensures
        0 <= static_position(edges, literal) <= edges.len(),
        forall|j: int| 0 <= j < static_position(edges, literal) ==> edges[j].literal != literal,
        static_position(edges, literal) < edges.len() ==> edges[static_position(
            edges,
            literal,
        )].literal == literal,
    decreases edges.len(),
{
    if edges.len() == 0 || edges[0].literal == literal {
    } else {
        lemma_static_position(edges.skip(1), literal);
        assert forall|j: int| 0 <= j < static_position(edges, literal) implies edges[j].literal
            != literal by {
            if j > 0 {
                assert(edges[j] == edges.skip(1)[j - 1]);
            }
        }
    }
}

/// A position that holds the first edge with the literal, or ends the edges
/// without one, is `static_position`.
pub proof fn lemma_static_position_is<H>(edges: Seq<StaticEdgeView<H>>, literal: Seq<char>, at: int)
    requires
        0 <= at <= edges.len(),
        forall|j: int| 0 <= j < at ==> edges[j].literal != literal,
        at < edges.len() ==> edges[at].literal == literal,
    ensures
        static_position(edges, literal) == at,
{
    lemma_static_position(edges, literal);
    let found = static_position(edges, literal);
    if found < at {
        assert(edges[found].literal == literal);
    } else if at < found {
        assert(edges[at].literal == literal);
    }
}

pub proof fn lemma_param_position<H>(edges: Seq<ParamEdgeView<H>>, kind: ParamType)
    ensures
        0 <= param_position(edges, kind) <= edges.len(),
        forall|j: int| 0 <= j < param_position(edges, kind) ==> edges[j].kind.rank() < kind.rank(),
        param_position(edges, kind) < edges.len() ==> edges[param_position(edges, kind)].kind.rank()
            >= kind.rank(),
    decreases edges.len(),
{
    if edges.len() == 0 || edges[0].kind.rank() >= kind.rank() {
    } else {
        lemma_param_position(edges.skip(1), kind);
        assert forall|j: int| 0 <= j < param_position(edges, kind) implies edges[j].kind.rank()
            < kind.rank() by {
            if j > 0 {
                assert(edges[j] == edges.skip(1)[j - 1]);
            }
        }
    }
}

pub proof fn lemma_param_position_is<H>(edges: Seq<ParamEdgeView<H>>, kind: ParamType, at: int)
    requires
        0 <= at <= edges.len(),
        forall|j: int| 0 <= j < at ==> edges[j].kind.rank() < kind.rank(),
        at < edges.len() ==> edges[at].kind.rank() >= kind.rank(),
    ensures
        param_position(edges, kind) == at,
{
    lemma_param_position(edges, kind);
    let found = param_position(edges, kind);
    if found < at {
        assert(edges[found].kind.rank() >= kind.rank());
    } else if at < found {
        assert(edges[at].kind.rank() >= kind.rank());
    }
}

pub proof fn lemma_leaf_position<H>(leafs: Seq<ParamRouteDecl<H>>, method: Seq<char>)
    ensures
        0 <= leaf_position(leafs, method) <= leafs.len(),
        forall|j: int| 0 <= j < leaf_position(leafs, method) ==> !leafs[j].methods@.contains(method),
        leaf_position(leafs, method) < leafs.len() ==> leafs[leaf_position(
            leafs,
            method,
        )].methods@.contains(method),
    decreases leafs.len(),
{
    if leafs.len() == 0 || leafs[0].methods@.contains(method) {
    } else {
        lemma_leaf_position(leafs.skip(1), method);
        assert forall|j: int| 0 <= j < leaf_position(leafs, method) implies !leafs[j].methods@.contains(
            method,
        ) by {
            if j > 0 {
                assert(leafs[j] == leafs.skip(1)[j - 1]);
            }
        }
    }
}

pub proof fn lemma_leaf_position_is<H>(leafs: Seq<ParamRouteDecl<H>>, method: Seq<char>, at: int)
    requires
        0 <= at <= leafs.len(),
        forall|j: int| 0 <= j < at ==> !leafs[j].methods@.contains(method),
        at < leafs.len() ==> leafs[at].methods@.contains(method),
    ensures
        leaf_position(leafs, method) == at,
{
    lemma_leaf_position(leafs, method);
    let found = leaf_position(leafs, method);
    if found < at {
        assert(leafs[found].methods@.contains(method));
    } else if at < found {
        assert(leafs[at].methods@.contains(method));
    }
}

/// The values of a pattern's parameters in a path that the pattern fits,
/// in the order of the pattern; `None` for a path that it does not fit.
///
/// The empty pattern fits the empty path. Another pattern fits a path that
/// is not empty, whose first segment is the literal of the pattern's first
/// part, or is accepted by its type, and whose rest fits the pattern's
/// rest.
pub open spec fn pattern_values(parts: Seq<PathPart>, path: Seq<char>) -> Option<Seq<ParamValue>>
    decreases parts.len(),
{
    if parts.len() == 0 {
        if path.len() == 0 {
            Some(Seq::empty())
        } else {
            None
        }
    } else if path.len() == 0 {
        None
    } else {
        let segment = first_segment(path);
        let rest = after_first_segment(path);
        match parts[0] {
            PathPart::Static { path: literal } => if literal@ == segment {
                pattern_values(parts.skip(1), rest)
            } else {
                None
            },
            PathPart::Param { name, param_type } => match param_type.parse_spec(segment) {
                Some(value) => match pattern_values(parts.skip(1), rest) {
                    Some(values) => Some(seq![value] + values),
                    None => None,
                },
                None => None,
            },
        }
    }
}

/// What a part of a pattern asks of a segment: to be a literal, or to be
/// of a type.
pub enum Step {
    Literal(Seq<char>),
    Typed(ParamType),
}

/// What a part asks of its segment; the name of a parameter plays no role.
pub open spec fn step_of(part: PathPart) -> Step {
    match part {
        PathPart::Static { path } => Step::Literal(path@),
        PathPart::Param { name, param_type } => Step::Typed(param_type),
    }
}

/// The number of parameters in a pattern.
pub open spec fn count_params(parts: Seq<PathPart>) -> nat
    decreases parts.len(),
{
    if parts.len() == 0 {
        0
    } else {
        count_params(parts.skip(1)) + (match parts[0] {
            PathPart::Static { path } => 0nat,
            PathPart::Param { name, param_type } => 1nat,
        })
    }
}

/// A text is one segment: it holds no `/`.
pub open spec fn is_segment(literal: Seq<char>) -> bool {
    !literal.contains('/')
}

/// Every literal part of a pattern is one segment and not empty.
pub open spec fn strict_parts(parts: Seq<PathPart>) -> bool {
    forall|i: int|
        0 <= i < parts.len() ==> match #[trigger] parts[i] {
            PathPart::Static { path } => is_segment(path@) && path@.len() > 0,
            PathPart::Param { name, param_type } => true,
        }
}

/// Every literal part of a pattern is one segment, and none but the first
/// part is an empty literal.
pub open spec fn loose_parts(parts: Seq<PathPart>) -> bool {
    parts.len() > 0 ==> strict_parts(parts.skip(1)) && match parts[0] {
        PathPart::Static { path } => is_segment(path@),
        PathPart::Param { name, param_type } => true,
    }
}

impl<H> TrieView<H> {
    /// The node that nothing was registered in.
    pub open spec fn empty() -> TrieView<H> {
        TrieView {
            methods: Set::empty(),
            leafs: Seq::empty(),
            statics: Seq::empty(),
            params: Seq::empty(),
            radix: None,
        }
    }

    /// No two literal edges of a node share a literal, the parameter edges
    /// stand in the strict order of their types, and the same holds below.
    pub open spec fn wf(self) -> bool
        decreases self,
    {
        &&& forall|i: int, j: int|
            0 <= i < j < self.statics.len() ==> self.statics[i].literal != self.statics[j].literal
        &&& forall|i: int, j: int|
            0 <= i < j < self.params.len() ==> self.params[i].kind.rank() < self.params[j].kind.rank()
        &&& forall|i: int| 0 <= i < self.statics.len() ==> (#[trigger] self.statics[i]).node.wf()
        &&& forall|i: int| 0 <= i < self.params.len() ==> (#[trigger] self.params[i]).node.wf()
        &&& match self.radix {
            Some(edge) => edge.node.wf(),
            None => true,
        }
    }

    /// No node from here down has a compacted edge: the trie is as
    /// registration alone leaves it.
    pub open spec fn uncompacted(self) -> bool
        decreases self,
    {
        &&& self.radix is None
        &&& forall|i: int| 0 <= i < self.statics.len() ==> (#[trigger] self.statics[i]).node.uncompacted()
        &&& forall|i: int| 0 <= i < self.params.len() ==> (#[trigger] self.params[i]).node.uncompacted()
    }

    /// Whether a declaration in this node or below it accepts the method.
    pub open spec fn serves(self, method: Seq<char>) -> bool
        decreases self,
    {
        ||| exists|i: int| 0 <= i < self.leafs.len() && (#[trigger] self.leafs[i]).methods@.contains(method)
        ||| exists|i: int| 0 <= i < self.statics.len() && (#[trigger] self.statics[i]).node.serves(method)
        ||| exists|i: int| 0 <= i < self.params.len() && (#[trigger] self.params[i]).node.serves(method)
        ||| (self.radix is Some && self.radix->0.node.serves(method))
    }

    /// Every node from here down lists exactly the methods of the
    /// declarations in it and below it.
    pub open spec fn methods_exact(self) -> bool
        decreases self,
    {
        &&& forall|method: Seq<char>| self.methods.contains(method) <==> self.serves(method)
        &&& forall|i: int| 0 <= i < self.statics.len() ==> (#[trigger] self.statics[i]).node.methods_exact()
        &&& forall|i: int| 0 <= i < self.params.len() ==> (#[trigger] self.params[i]).node.methods_exact()
        &&& match self.radix {
            Some(edge) => edge.node.methods_exact(),
            None => true,
        }
    }

    /// Every node from here down lists at least the methods of its own
    /// declarations and of the nodes behind its edges.
    pub open spec fn methods_closed(self) -> bool
        decreases self,
    {
        &&& forall|i: int|
            0 <= i < self.leafs.len() ==> (#[trigger] self.leafs[i]).methods@.subset_of(self.methods)
        &&& forall|i: int|
            0 <= i < self.statics.len() ==> (#[trigger] self.statics[i]).node.methods.subset_of(
                self.methods,
            ) && self.statics[i].node.methods_closed()
        &&& forall|i: int|
            0 <= i < self.params.len() ==> (#[trigger] self.params[i]).node.methods.subset_of(
                self.methods,
            ) && self.params[i].node.methods_closed()
        &&& match self.radix {
            Some(edge) => edge.node.methods.subset_of(self.methods) && edge.node.methods_closed(),
            None => true,
        }
    }

    /// The node has one literal edge and nothing else: compaction turns
    /// that edge into the node's compacted edge.
    pub open spec fn is_chain(self) -> bool {
        self.params.len() == 0 && self.leafs.len() == 0 && self.statics.len() == 1
    }

    /// Compaction can join the literals from here down without loss: the
    /// literal of every node with one literal edge and nothing else is one
    /// segment, with no `/` in it; and where such a node stands behind
    /// another, its literal is not an empty one at the end of the chain.
    pub open spec fn segmented(self) -> bool
        decreases self,
    {
        &&& forall|i: int| 0 <= i < self.statics.len() ==> (#[trigger] self.statics[i]).node.segmented()
        &&& forall|i: int| 0 <= i < self.params.len() ==> (#[trigger] self.params[i]).node.segmented()
        &&& (self.is_chain() ==> is_segment(self.statics[0].literal))
        &&& (self.is_chain() && self.statics[0].node.is_chain() ==> {
            let behind = self.statics[0].node.statics[0];
            behind.literal.len() > 0 || behind.node.is_chain()
        })
    }

    /// Every declaration from here down stands where its own pattern ends:
    /// it has as many parameters as there are parameter edges on the way to
    /// it, `depth` of them above this node.
    pub open spec fn arity_sound(self, depth: nat) -> bool
        decreases self,
    {
        &&& forall|i: int|
            0 <= i < self.leafs.len() ==> count_params((#[trigger] self.leafs[i]).parts@) == depth
        &&& forall|i: int|
            0 <= i < self.statics.len() ==> (#[trigger] self.statics[i]).node.arity_sound(depth)
        &&& forall|i: int|
            0 <= i < self.params.len() ==> (#[trigger] self.params[i]).node.arity_sound(depth + 1)
        &&& match self.radix {
            Some(edge) => edge.node.arity_sound(depth),
            None => true,
        }
    }

    /// Every declaration from here down has a part at `at` that asks for
    /// `step`.
    pub open spec fn every_leaf_steps(self, at: int, step: Step) -> bool
        decreases self,
    {
        &&& forall|i: int|
            0 <= i < self.leafs.len() ==> 0 <= at < (#[trigger] self.leafs[i]).parts@.len() && step_of(
                self.leafs[i].parts@[at],
            ) == step
        &&& forall|i: int|
            0 <= i < self.statics.len() ==> (#[trigger] self.statics[i]).node.every_leaf_steps(at, step)
        &&& forall|i: int|
            0 <= i < self.params.len() ==> (#[trigger] self.params[i]).node.every_leaf_steps(at, step)
        &&& match self.radix {
            Some(edge) => edge.node.every_leaf_steps(at, step),
            None => true,
        }
    }

    /// Every declaration from here down lies behind the edges of its own
    /// pattern: the declarations of a node `depth` edges down have `depth`
    /// parts, and those behind an edge have, at the place of the edge, a
    /// part that asks for the edge's literal or type.
    pub open spec fn pattern_sound(self, depth: int) -> bool
        decreases self,
    {
        &&& forall|i: int| 0 <= i < self.leafs.len() ==> (#[trigger] self.leafs[i]).parts@.len() == depth
        &&& forall|i: int|
            0 <= i < self.statics.len() ==> (#[trigger] self.statics[i]).node.every_leaf_steps(
                depth,
                Step::Literal(self.statics[i].literal),
            ) && self.statics[i].node.pattern_sound(depth + 1)
        &&& forall|i: int|
            0 <= i < self.params.len() ==> (#[trigger] self.params[i]).node.every_leaf_steps(
                depth,
                Step::Typed(self.params[i].kind),
            ) && self.params[i].node.pattern_sound(depth + 1)
    }

    /// The declaration is registered from here down, behind the edges of
    /// its pattern from part `depth` on.
    pub open spec fn holds(self, decl: ParamRouteDecl<H>, depth: int) -> bool
        decreases self,
    {
        if depth < 0 || depth > decl.parts@.len() {
            false
        } else if depth == decl.parts@.len() {
            self.leafs.contains(decl)
        } else {
            match decl.parts@[depth] {
                PathPart::Static { path } => exists|i: int|
                    0 <= i < self.statics.len() && (#[trigger] self.statics[i]).literal == path@
                        && self.statics[i].node.holds(decl, depth + 1),
                PathPart::Param { name, param_type } => exists|i: int|
                    0 <= i < self.params.len() && (#[trigger] self.params[i]).kind == param_type
                        && self.params[i].node.holds(decl, depth + 1),
            }
        }
    }

    /// Every literal from here down is one segment and not empty.
    pub open spec fn strict_segments(self) -> bool
        decreases self,
    {
        &&& forall|i: int|
            0 <= i < self.statics.len() ==> is_segment((#[trigger] self.statics[i]).literal)
                && self.statics[i].literal.len() > 0 && self.statics[i].node.strict_segments()
        &&& forall|i: int|
            0 <= i < self.params.len() ==> (#[trigger] self.params[i]).node.strict_segments()
    }

    /// Every literal from here down is one segment, and none but those of
    /// this node's own edges is empty. (A pattern that opens with `/` has
    /// an empty first segment.)
    pub open spec fn loose_segments(self) -> bool {
        &&& forall|i: int|
            0 <= i < self.statics.len() ==> is_segment((#[trigger] self.statics[i]).literal)
                && self.statics[i].node.strict_segments()
        &&& forall|i: int|
            0 <= i < self.params.len() ==> (#[trigger] self.params[i]).node.strict_segments()
    }

    /// The route that handles `method` and `path` from this node on.
    ///
    /// A node that does not list the method yields nothing. At the end of
    /// the path the first declaration of the node that accepts the method
    /// is the match. A compacted edge that fits the path leads on, and
    /// nothing else is tried. Otherwise the first segment goes along its
    /// literal edge, and where that yields nothing, along the parameter
    /// edges in the order of their types.
    pub open spec fn lookup(self, method: Seq<char>, path: Seq<char>) -> Option<TrieMatch<H>>
        decreases self, self.params.len() + 2,
    {
        if !self.methods.contains(method) {
            None
        } else if path.len() == 0 {
            let found = leaf_position(self.leafs, method);
            if found < self.leafs.len() {
                Some(TrieMatch { decl: self.leafs[found], args: Seq::empty() })
            } else {
                None
            }
        } else if self.radix is Some && edge_rest(self.radix->0.prefix, path) is Some {
            self.radix->0.node.lookup(method, edge_rest(self.radix->0.prefix, path)->0)
        } else {
            let segment = first_segment(path);
            let rest = after_first_segment(path);
            let found = static_position(self.statics, segment);
            let along_literal = if 0 <= found < self.statics.len() {
                self.statics[found].node.lookup(method, rest)
            } else {
                None
            };
            if along_literal is Some {
                along_literal
            } else {
                self.lookup_params(0, method, segment, rest)
            }
        }
    }

    /// The match along the parameter edge at `at`: the edge's type accepts
    /// the segment and the node behind the edge matches the rest. The
    /// segment's value comes first among the values.
    pub open spec fn along_param(
        self,
        at: int,
        method: Seq<char>,
        segment: Seq<char>,
        rest: Seq<char>,
    ) -> Option<TrieMatch<H>>
        decreases self, 0int,
    {
        if 0 <= at < self.params.len() {
            match self.params[at].kind.parse_spec(segment) {
                Some(value) => match self.params[at].node.lookup(method, rest) {
                    Some(found) => Some(
                        TrieMatch { decl: found.decl, args: seq![value] + found.args },
                    ),
                    None => None,
                },
                None => None,
            }
        } else {
            None
        }
    }

    /// The match along the parameter edges from position `from` on: that
    /// of the first edge that has one.
    pub open spec fn lookup_params(
        self,
        from: int,
        method: Seq<char>,
        segment: Seq<char>,
        rest: Seq<char>,
    ) -> Option<TrieMatch<H>>
        decreases self, self.params.len() - from + 1,
    {
        if from < 0 || from >= self.params.len() {
            None
        } else if self.along_param(from, method, segment, rest) is Some {
            self.along_param(from, method, segment, rest)
        } else {
            self.lookup_params(from + 1, method, segment, rest)
        }
    }

    /// The node after `decl` was registered under the pattern `parts`.
    ///
    /// The node lists the declaration's methods. Without parts the
    /// declaration joins the node's own; otherwise it goes to the node
    /// behind the edge of the first part, which is made where it is missing.
    pub open spec fn insert(self, decl: ParamRouteDecl<H>, parts: Seq<PathPart>) -> TrieView<H>
        decreases parts.len(),
    {
        let methods = self.methods.union(decl.methods@);
        if parts.len() == 0 {
            TrieView { methods, leafs: self.leafs.push(decl), ..self }
        } else {
            match parts[0] {
                PathPart::Static { path } => {
                    let at = static_position(self.statics, path@);
                    if 0 <= at < self.statics.len() {
                        let node = self.statics[at].node.insert(decl, parts.skip(1));
                        TrieView {
                            methods,
                            statics: self.statics.update(
                                at,
                                StaticEdgeView { literal: path@, node },
                            ),
                            ..self
                        }
                    } else {
                        let node = TrieView::empty().insert(decl, parts.skip(1));
                        TrieView {
                            methods,
                            statics: self.statics.push(StaticEdgeView { literal: path@, node }),
                            ..self
                        }
                    }
                },
                PathPart::Param { name, param_type } => {
                    let at = param_position(self.params, param_type);
                    if 0 <= at < self.params.len() && self.params[at].kind == param_type {
                        let node = self.params[at].node.insert(decl, parts.skip(1));
                        TrieView {
                            methods,
                            params: self.params.update(at, ParamEdgeView { kind: param_type, node }),
                            ..self
                        }
                    } else {
                        let node = TrieView::empty().insert(decl, parts.skip(1));
                        TrieView {
                            methods,
                            params: self.params.insert(at, ParamEdgeView { kind: param_type, node }),
                            ..self
                        }
                    }
                },
            }
        }
    }

    /// Whether the node, with its edges already compacted, is to be
    /// compacted itself: it has no parameter edge, no declaration of its
    /// own, and exactly one literal edge.
    pub open spec fn absorbs_child(self) -> bool {
        self.is_chain()
    }

    /// The node with the nodes behind its literal and parameter edges
    /// compacted, and itself as it was.
    pub open spec fn compact_below(self) -> TrieView<H>
        decreases self, 1int,
    {
        TrieView {
            statics: compact_statics(self.statics),
            params: compact_params(self.params),
            ..self
        }
    }

    /// The node after compaction, bottom-up: first the nodes behind the
    /// literal and the parameter edges; then the node itself, where it has
    /// but one literal edge and nothing else, takes that edge for its
    /// compacted edge, joined with the compacted edge of the node behind it
    /// where that node has one.
    pub open spec fn compact(self) -> TrieView<H>
        decreases self, 2int,
    {
        let below = self.compact_below();
        if below.absorbs_child() {
            let child = below.statics[0];
            match child.node.radix {
                Some(edge) => TrieView {
                    statics: Seq::empty(),
                    radix: Some(
                        RadixEdgeView {
                            prefix: join_segments(child.literal, edge.prefix),
                            node: edge.node,
                        },
                    ),
                    ..below
                },
                None => TrieView {
                    statics: Seq::empty(),
                    radix: Some(RadixEdgeView { prefix: child.literal, node: Box::new(child.node) }),
                    ..below
                },
            }
        } else {
            below
        }
    }

    /// The forest that a dump of this node draws: the compacted edge alone
    /// where the node has one, else the literal edges and then the
    /// parameter edges, each with the dump of its node below it.
    pub open spec fn dump(self) -> Seq<DumpView>
        decreases self, 1int,
    {
        match self.radix {
            Some(edge) => seq![DumpView { label: edge.prefix, children: edge.node.dump() }],
            None => dump_statics(self.statics) + dump_params(self.params),
        }
    }
}

/// The literal edges with the node behind each compacted.
pub open spec fn compact_statics<H>(edges: Seq<StaticEdgeView<H>>) -> Seq<StaticEdgeView<H>>
    decreases edges, 0int,
{
    if edges.len() == 0 {
        Seq::empty()
    } else {
        compact_statics(edges.drop_last()).push(
            StaticEdgeView { literal: edges.last().literal, node: edges.last().node.compact() },
        )
    }
}

/// The parameter edges with the node behind each compacted.
pub open spec fn compact_params<H>(edges: Seq<ParamEdgeView<H>>) -> Seq<ParamEdgeView<H>>
    decreases edges, 0int,
{
    if edges.len() == 0 {
        Seq::empty()
    } else {
        compact_params(edges.drop_last()).push(
            ParamEdgeView { kind: edges.last().kind, node: edges.last().node.compact() },
        )
    }
}

/// One tree for each literal edge, labelled with the literal.
pub open spec fn dump_statics<H>(edges: Seq<StaticEdgeView<H>>) -> Seq<DumpView>
    decreases edges, 0int,
{
    if edges.len() == 0 {
        Seq::empty()
    } else {
        dump_statics(edges.drop_last()).push(
            DumpView { label: edges.last().literal, children: edges.last().node.dump() },
        )
    }
}

/// One tree for each parameter edge, labelled with the type's name in
/// braces.
pub open spec fn dump_params<H>(edges: Seq<ParamEdgeView<H>>) -> Seq<DumpView>
    decreases edges, 0int,
{
    if edges.len() == 0 {
        Seq::empty()
    } else {
        dump_params(edges.drop_last()).push(
            DumpView { label: edges.last().kind.label_spec(), children: edges.last().node.dump() },
        )
    }
}

/// Compaction keeps each edge in its place and compacts the node behind it.
pub proof fn lemma_compact_statics<H>(edges: Seq<StaticEdgeView<H>>)
    ensures
        compact_statics(edges).len() == edges.len(),
        forall|i: int|
            0 <= i < edges.len() ==> #[trigger] compact_statics(edges)[i] == (StaticEdgeView {
                literal: edges[i].literal,
                node: edges[i].node.compact(),
            }),
    decreases edges.len(),
{
    if edges.len() > 0 {
        lemma_compact_statics(edges.drop_last());
    }
}

/// Compaction keeps each edge in its place and compacts the node behind it.
pub proof fn lemma_compact_params<H>(edges: Seq<ParamEdgeView<H>>)
    ensures
        compact_params(edges).len() == edges.len(),
        forall|i: int|
            0 <= i < edges.len() ==> #[trigger] compact_params(edges)[i] == (ParamEdgeView {
                kind: edges[i].kind,
                node: edges[i].node.compact(),
            }),
    decreases edges.len(),
{
    if edges.len() > 0 {
        lemma_compact_params(edges.drop_last());
    }
}

/// A dump draws one tree for each literal edge, in the order of the edges.
pub proof fn lemma_dump_statics<H>(edges: Seq<StaticEdgeView<H>>)
    ensures
        dump_statics(edges).len() == edges.len(),
        forall|i: int|
            0 <= i < edges.len() ==> #[trigger] dump_statics(edges)[i] == (DumpView {
                label: edges[i].literal,
                children: edges[i].node.dump(),
            }),
    decreases edges.len(),
{
    if edges.len() > 0 {
        lemma_dump_statics(edges.drop_last());
    }
}

/// A dump draws one tree for each parameter edge, in the order of the edges.
pub proof fn lemma_dump_params<H>(edges: Seq<ParamEdgeView<H>>)
    ensures
        dump_params(edges).len() == edges.len(),
        forall|i: int|
            0 <= i < edges.len() ==> #[trigger] dump_params(edges)[i] == (DumpView {
                label: edges[i].kind.label_spec(),
                children: edges[i].node.dump(),
            }),
    decreases edges.len(),
{
    if edges.len() > 0 {
        lemma_dump_params(edges.drop_last());
    }
}

} // verus!
