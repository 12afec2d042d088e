//! What holds of the routing trie whatever was registered in it.

use crate::text::after_first_segment;
use crate::text::edge_rest;
use crate::text::first_segment;
use crate::text::lemma_edge_rest_join;
use crate::text::lemma_edge_rest_segment;
use crate::trie_model::lemma_compact_params;
use crate::trie_model::lemma_compact_statics;
use crate::trie_model::lemma_leaf_position;
use crate::trie_model::lemma_param_position;
use crate::trie_model::lemma_static_position;
use crate::trie_model::lemma_static_position_is;
use crate::trie_model::static_position;
use crate::trie_model::step_of;
use crate::trie_model::Step;
use crate::dump_tree::DumpView;
use crate::scalar::int_value;
use crate::scalar::is_float_literal;
use crate::scalar::lemma_digit_run_is;
use crate::text::join_segments;
use crate::trie_model::lemma_dump_params;
use crate::trie_model::lemma_dump_statics;
use crate::trie_model::count_params;
use crate::trie_model::loose_parts;
use crate::trie_model::pattern_values;
use crate::trie_model::TrieMatch;
use crate::types::ParamType;
use crate::types::ParamValue;
use crate::trie_model::param_position;
use crate::trie_model::strict_parts;
use crate::trie_model::ParamEdgeView;
use crate::trie_model::StaticEdgeView;
use crate::trie_model::TrieView;
use crate::types::ParamRouteDecl;
use crate::types::PathPart;
use vstd::prelude::*;

verus! {

/// What compaction leaves of a node that registration alone has shaped:
/// its methods, its declarations and its parameter edges stay; it gets a
/// compacted edge exactly where it has one literal edge and nothing else,
/// and then keeps no literal edge; the node behind the compacted edge lists
/// no method that the node does not list; and the edge's prefix is empty
/// only where the one literal is empty and nothing is joined to it.
pub proof fn lemma_compact_shape<H>(t: TrieView<H>)
    requires
        t.uncompacted(),
        t.methods_closed(),
    ensures
        t.compact().methods == t.methods,
        t.compact().leafs == t.leafs,
        t.compact().params == t.compact_below().params,
        t.compact().radix is Some <==> t.is_chain(),
        !t.is_chain() ==> t.compact() == t.compact_below(),
        t.is_chain() ==> t.compact().statics.len() == 0,
        t.is_chain() ==> t.compact().radix->0.node.methods.subset_of(t.methods),
        t.is_chain() ==> (t.compact().radix->0.prefix.len() == 0 <==> (t.statics[0].literal.len() == 0
            && !t.statics[0].node.is_chain())),
    decreases t,
{
    lemma_compact_statics(t.statics);
    lemma_compact_params(t.params);
    if t.is_chain() {
        let child = t.statics[0].node;
        lemma_compact_shape(child);
        assert(t.compact_below().statics[0].node == child.compact());
    }
}

/// Compaction is not seen in lookups: on a trie that registration alone has
/// shaped, and whose literals it can join without loss (`segmented`), every
/// method and path finds after compaction what it found before.
pub proof fn law_compaction_is_transparent<H>(t: TrieView<H>, method: Seq<char>, path: Seq<char>)
    requires
        t.uncompacted(),
        t.methods_closed(),
        t.segmented(),
    ensures
        t.compact().lookup(method, path) == t.lookup(method, path),
    decreases t, 2int, 0int,
{
    let below = t.compact_below();
    lemma_below_lookup(t, method, path);
    lemma_compact_statics(t.statics);
    lemma_compact_params(t.params);
    if t.is_chain() {
        let after = t.compact();
        let literal = t.statics[0].literal;
        let child = t.statics[0].node;
        let behind = child.compact();
        lemma_compact_shape(child);
        assert(below.statics[0].literal == literal);
        assert(below.statics[0].node == behind);
        if !t.methods.contains(method) {
        } else if path.len() == 0 {
        } else {
            let segment = first_segment(path);
            let rest = after_first_segment(path);
            // Before the node is compacted, the path goes along the one
            // literal edge or nowhere.
            assert(below.lookup(method, path) == (if literal == segment {
                behind.lookup(method, rest)
            } else {
                None
            })) by {
                lemma_static_position(below.statics, segment);
                assert(below.lookup_params(0, method, segment, rest) is None);
            }
            assert(after.statics.len() == 0);
            assert(after.params.len() == 0);
            assert(after.lookup_params(0, method, segment, rest) is None);
            assert(static_position(after.statics, segment) == 0);
            let edge = after.radix->0;
            assert(after.lookup(method, path) == (if edge_rest(edge.prefix, path) is Some {
                edge.node.lookup(method, edge_rest(edge.prefix, path)->0)
            } else {
                None
            }));
            match behind.radix {
                None => {
                    assert(edge.prefix == literal);
                    assert(*edge.node == behind);
                    lemma_edge_rest_segment(literal, path);
                },
                Some(inner) => {
                    assert(edge.prefix == crate::text::join_segments(literal, inner.prefix));
                    assert(edge.node == inner.node);
                    assert(child.is_chain());
                    assert(inner.prefix.len() > 0);
                    lemma_edge_rest_join(literal, inner.prefix, path);
                    if literal == segment {
                        // What the node behind the literal edge finds is
                        // what the node behind its compacted edge finds.
                        assert(behind.statics.len() == 0);
                        assert(behind.params.len() == 0);
                        assert(behind.leafs.len() == 0);
                        assert(behind.lookup_params(
                            0,
                            method,
                            first_segment(rest),
                            after_first_segment(rest),
                        ) is None);
                        assert(static_position(behind.statics, first_segment(rest)) == 0);
                        if edge_rest(inner.prefix, rest) is Some {
                            let left = edge_rest(inner.prefix, rest)->0;
                            assert(rest.len() > 0);
                            if inner.node.lookup(method, left) is Some {
                                assert(inner.node.methods.contains(method));
                                assert(child.methods.contains(method));
                            }
                            assert(behind.lookup(method, rest) == inner.node.lookup(method, left));
                        } else {
                            assert(behind.lookup(method, rest) is None);
                        }
                    }
                },
            }
        }
    }
}

/// With the nodes behind its edges compacted, a node finds what it found.
proof fn lemma_below_lookup<H>(t: TrieView<H>, method: Seq<char>, path: Seq<char>)
    requires
        t.uncompacted(),
        t.methods_closed(),
        t.segmented(),
    ensures
        t.compact_below().lookup(method, path) == t.lookup(method, path),
    decreases t, 1int, 0int,
{
    lemma_compact_statics(t.statics);
    lemma_compact_params(t.params);
    let below = t.compact_below();
    if t.methods.contains(method) && path.len() > 0 {
        let segment = first_segment(path);
        let rest = after_first_segment(path);
        lemma_static_position(t.statics, segment);
        let found = static_position(t.statics, segment);
        assert forall|j: int| 0 <= j < found implies below.statics[j].literal != segment by {
            assert(below.statics[j].literal == t.statics[j].literal);
        }
        lemma_static_position_is(below.statics, segment, found);
        if found < t.statics.len() {
            law_compaction_is_transparent(t.statics[found].node, method, rest);
        }
        lemma_below_params(t, 0, method, segment, rest);
    }
}

/// With the nodes behind its edges compacted, a node finds along its
/// parameter edges what it found.
proof fn lemma_below_params<H>(
    t: TrieView<H>,
    from: int,
    method: Seq<char>,
    segment: Seq<char>,
    rest: Seq<char>,
)
    requires
        t.uncompacted(),
        t.methods_closed(),
        t.segmented(),
        0 <= from,
    ensures
        t.compact_below().lookup_params(from, method, segment, rest) == t.lookup_params(
            from,
            method,
            segment,
            rest,
        ),
    decreases t, 0int, t.params.len() - from,
{
    lemma_compact_params(t.params);
    let below = t.compact_below();
    if from < t.params.len() {
        law_compaction_is_transparent(t.params[from].node, method, rest);
        assert(below.params[from].node == t.params[from].node.compact());
        assert(below.params[from].kind == t.params[from].kind);
        assert(below.along_param(from, method, segment, rest) == t.along_param(
            from,
            method,
            segment,
            rest,
        ));
        lemma_below_params(t, from + 1, method, segment, rest);
    }
}

/// Registration makes no compacted edge.
pub proof fn law_insert_keeps_uncompacted<H>(
    t: TrieView<H>,
    decl: ParamRouteDecl<H>,
    parts: Seq<PathPart>,
)
    requires
        t.uncompacted(),
    ensures
        t.insert(decl, parts).uncompacted(),
    decreases parts.len(),
{
    let after = t.insert(decl, parts);
    if parts.len() > 0 {
        match parts[0] {
            PathPart::Static { path } => {
                let at = static_position(t.statics, path@);
                lemma_static_position(t.statics, path@);
                if at < t.statics.len() {
                    law_insert_keeps_uncompacted(t.statics[at].node, decl, parts.skip(1));
                } else {
                    law_insert_keeps_uncompacted(TrieView::<H>::empty(), decl, parts.skip(1));
                }
                assert forall|i: int| 0 <= i < after.statics.len() implies (
                #[trigger] after.statics[i]).node.uncompacted() by {
                    if i != at {
                        assert(after.statics[i] == t.statics[i]);
                    }
                }
            },
            PathPart::Param { name, param_type } => {
                let at = param_position(t.params, param_type);
                lemma_param_position(t.params, param_type);
                if at < t.params.len() && t.params[at].kind == param_type {
                    law_insert_keeps_uncompacted(t.params[at].node, decl, parts.skip(1));
                    assert forall|i: int| 0 <= i < after.params.len() implies (
                    #[trigger] after.params[i]).node.uncompacted() by {
                        if i != at {
                            assert(after.params[i] == t.params[i]);
                        }
                    }
                } else {
                    law_insert_keeps_uncompacted(TrieView::<H>::empty(), decl, parts.skip(1));
                    assert forall|i: int| 0 <= i < after.params.len() implies (
                    #[trigger] after.params[i]).node.uncompacted() by {
                        if i < at {
                            assert(after.params[i] == t.params[i]);
                        } else if i > at {
                            assert(after.params[i] == t.params[i - 1]);
                        }
                    }
                }
            },
        }
    }
}

/// After a registration a node serves the methods that it served and those
/// of the new declaration.
pub proof fn lemma_insert_serves<H>(
    t: TrieView<H>,
    decl: ParamRouteDecl<H>,
    parts: Seq<PathPart>,
    method: Seq<char>,
)
    ensures
        t.insert(decl, parts).serves(method) <==> (t.serves(method) || decl.methods@.contains(method)),
    decreases parts.len(),
{
    let after = t.insert(decl, parts);
    let gained = decl.methods@.contains(method);
    let by_leaf = |x: TrieView<H>|
        exists|i: int| 0 <= i < x.leafs.len() && (#[trigger] x.leafs[i]).methods@.contains(method);
    let by_static = |x: TrieView<H>|
        exists|i: int| 0 <= i < x.statics.len() && (#[trigger] x.statics[i]).node.serves(method);
    let by_param = |x: TrieView<H>|
        exists|i: int| 0 <= i < x.params.len() && (#[trigger] x.params[i]).node.serves(method);
    assert(t.serves(method) <==> (by_leaf(t) || by_static(t) || by_param(t) || (t.radix is Some
        && t.radix->0.node.serves(method))));
    assert(after.serves(method) <==> (by_leaf(after) || by_static(after) || by_param(after) || (
    after.radix is Some && after.radix->0.node.serves(method))));
    if parts.len() == 0 {
        assert(by_leaf(after) <==> (by_leaf(t) || gained)) by {
            if by_leaf(t) {
                let i = choose|i: int|
                    0 <= i < t.leafs.len() && (#[trigger] t.leafs[i]).methods@.contains(method);
                assert(after.leafs[i] == t.leafs[i]);
            }
            if gained {
                assert(after.leafs[t.leafs.len() as int] == decl);
            }
            if by_leaf(after) {
                let i = choose|i: int|
                    0 <= i < after.leafs.len() && (#[trigger] after.leafs[i]).methods@.contains(method);
                if i < t.leafs.len() {
                    assert(after.leafs[i] == t.leafs[i]);
                }
            }
        }
    } else {
        match parts[0] {
            PathPart::Static { path } => {
                let at = static_position(t.statics, path@);
                lemma_static_position(t.statics, path@);
                let old_node = if at < t.statics.len() {
                    t.statics[at].node
                } else {
                    TrieView::<H>::empty()
                };
                lemma_insert_serves(old_node, decl, parts.skip(1), method);
                assert(!TrieView::<H>::empty().serves(method));
                assert(after.statics[at].node == old_node.insert(decl, parts.skip(1)));
                assert(by_static(after) <==> (by_static(t) || gained)) by {
                    if by_static(t) {
                        let i = choose|i: int|
                            0 <= i < t.statics.len() && (#[trigger] t.statics[i]).node.serves(method);
                        if i != at {
                            assert(after.statics[i] == t.statics[i]);
                        } else {
                            assert(after.statics[at].node.serves(method));
                        }
                    }
                    if gained {
                        assert(after.statics[at].node.serves(method));
                    }
                    if by_static(after) {
                        let i = choose|i: int|
                            0 <= i < after.statics.len() && (#[trigger] after.statics[i]).node.serves(
                                method,
                            );
                        if i != at {
                            assert(after.statics[i] == t.statics[i]);
                        } else if !gained {
                            assert(old_node.serves(method));
                            assert(t.statics[at].node.serves(method));
                        }
                    }
                }
                assert(after.leafs == t.leafs);
                assert(after.params == t.params);
            },
            PathPart::Param { name, param_type } => {
                let at = param_position(t.params, param_type);
                lemma_param_position(t.params, param_type);
                let kept = at < t.params.len() && t.params[at].kind == param_type;
                let old_node = if kept {
                    t.params[at].node
                } else {
                    TrieView::<H>::empty()
                };
                lemma_insert_serves(old_node, decl, parts.skip(1), method);
                assert(!TrieView::<H>::empty().serves(method));
                assert(after.params[at].node == old_node.insert(decl, parts.skip(1)));
                assert(by_param(after) <==> (by_param(t) || gained)) by {
                    if by_param(t) {
                        let i = choose|i: int|
                            0 <= i < t.params.len() && (#[trigger] t.params[i]).node.serves(method);
                        if kept {
                            if i != at {
                                assert(after.params[i] == t.params[i]);
                            } else {
                                assert(after.params[at].node.serves(method));
                            }
                        } else {
                            if i < at {
                                assert(after.params[i] == t.params[i]);
                            } else {
                                assert(after.params[i + 1] == t.params[i]);
                            }
                        }
                    }
                    if gained {
                        assert(after.params[at].node.serves(method));
                    }
                    if by_param(after) {
                        let i = choose|i: int|
                            0 <= i < after.params.len() && (#[trigger] after.params[i]).node.serves(
                                method,
                            );
                        if i == at {
                            if !gained {
                                assert(old_node.serves(method));
                                assert(t.params[at].node.serves(method));
                            }
                        } else if kept {
                            assert(after.params[i] == t.params[i]);
                        } else if i < at {
                            assert(after.params[i] == t.params[i]);
                        } else {
                            assert(after.params[i] == t.params[i - 1]);
                        }
                    }
                }
                assert(after.leafs == t.leafs);
                assert(after.statics == t.statics);
            },
        }
    }
}

/// Registration keeps the lists of methods exact: after it, as before,
/// every node lists the methods of the declarations in it and below it, and
/// no others.
pub proof fn law_insert_keeps_methods_exact<H>(
    t: TrieView<H>,
    decl: ParamRouteDecl<H>,
    parts: Seq<PathPart>,
)
    requires
        t.methods_exact(),
    ensures
        t.insert(decl, parts).methods_exact(),
    decreases parts.len(),
{
    let after = t.insert(decl, parts);
    assert forall|method: Seq<char>| after.methods.contains(method) <==> after.serves(method) by {
        lemma_insert_serves(t, decl, parts, method);
    }
    assert(TrieView::<H>::empty().methods_exact());
    if parts.len() > 0 {
        match parts[0] {
            PathPart::Static { path } => {
                let at = static_position(t.statics, path@);
                lemma_static_position(t.statics, path@);
                if at < t.statics.len() {
                    law_insert_keeps_methods_exact(t.statics[at].node, decl, parts.skip(1));
                } else {
                    law_insert_keeps_methods_exact(TrieView::<H>::empty(), decl, parts.skip(1));
                }
                assert forall|i: int| 0 <= i < after.statics.len() implies (
                #[trigger] after.statics[i]).node.methods_exact() by {
                    if i != at {
                        assert(after.statics[i] == t.statics[i]);
                    }
                }
            },
            PathPart::Param { name, param_type } => {
                let at = param_position(t.params, param_type);
                lemma_param_position(t.params, param_type);
                if at < t.params.len() && t.params[at].kind == param_type {
                    law_insert_keeps_methods_exact(t.params[at].node, decl, parts.skip(1));
                    assert forall|i: int| 0 <= i < after.params.len() implies (
                    #[trigger] after.params[i]).node.methods_exact() by {
                        if i != at {
                            assert(after.params[i] == t.params[i]);
                        }
                    }
                } else {
                    law_insert_keeps_methods_exact(TrieView::<H>::empty(), decl, parts.skip(1));
                    assert forall|i: int| 0 <= i < after.params.len() implies (
                    #[trigger] after.params[i]).node.methods_exact() by {
                        if i < at {
                            assert(after.params[i] == t.params[i]);
                        } else if i > at {
                            assert(after.params[i] == t.params[i - 1]);
                        }
                    }
                }
            },
        }
    }
}

/// A node whose lists of methods are exact lists every method that a node
/// behind one of its edges lists.
pub proof fn law_methods_exact_is_closed<H>(t: TrieView<H>)
    requires
        t.methods_exact(),
    ensures
        t.methods_closed(),
    decreases t,
{
    assert forall|i: int| 0 <= i < t.leafs.len() implies (#[trigger] t.leafs[i]).methods@.subset_of(
        t.methods,
    ) by {
        assert forall|method: Seq<char>| t.leafs[i].methods@.contains(method) implies t.methods.contains(
            method,
        ) by {
            assert(t.serves(method));
        }
    }
    assert forall|i: int| 0 <= i < t.statics.len() implies (#[trigger] t.statics[i]).node.methods.subset_of(
        t.methods,
    ) && t.statics[i].node.methods_closed() by {
        let node = t.statics[i].node;
        assert(node.methods_exact());
        law_methods_exact_is_closed(node);
        assert forall|method: Seq<char>| node.methods.contains(method) implies t.methods.contains(
            method,
        ) by {
            assert(node.methods.contains(method) <==> node.serves(method));
            assert(t.statics[i].node.serves(method));
            assert(t.serves(method));
        }
    }
    assert forall|i: int| 0 <= i < t.params.len() implies (#[trigger] t.params[i]).node.methods.subset_of(
        t.methods,
    ) && t.params[i].node.methods_closed() by {
        let node = t.params[i].node;
        assert(node.methods_exact());
        law_methods_exact_is_closed(node);
        assert forall|method: Seq<char>| node.methods.contains(method) implies t.methods.contains(
            method,
        ) by {
            assert(node.methods.contains(method) <==> node.serves(method));
            assert(t.params[i].node.serves(method));
            assert(t.serves(method));
        }
    }
    match t.radix {
        Some(edge) => {
            let node = *edge.node;
            assert(node.methods_exact());
            law_methods_exact_is_closed(node);
            assert forall|method: Seq<char>| node.methods.contains(method) implies t.methods.contains(
                method,
            ) by {
                assert(node.methods.contains(method) <==> node.serves(method));
                assert(edge.node.serves(method));
                assert(t.serves(method));
            }
        },
        None => {},
    }
}

/// Compaction changes nothing in what a node serves.
pub proof fn lemma_compact_serves<H>(t: TrieView<H>, method: Seq<char>)
    requires
        t.uncompacted(),
        t.methods_closed(),
    ensures
        t.compact().serves(method) <==> t.serves(method),
    decreases t,
{
    lemma_compact_statics(t.statics);
    lemma_compact_params(t.params);
    lemma_compact_shape(t);
    let below = t.compact_below();
    let after = t.compact();
    assert forall|i: int| 0 <= i < t.statics.len() implies (#[trigger] below.statics[i]).node.serves(
        method,
    ) == t.statics[i].node.serves(method) by {
        lemma_compact_serves(t.statics[i].node, method);
    }
    assert forall|i: int| 0 <= i < t.params.len() implies (#[trigger] below.params[i]).node.serves(
        method,
    ) == t.params[i].node.serves(method) by {
        lemma_compact_serves(t.params[i].node, method);
    }
    assert(below.serves(method) <==> t.serves(method)) by {
        if t.serves(method) {
            if exists|i: int| 0 <= i < t.statics.len() && (#[trigger] t.statics[i]).node.serves(method) {
                let i = choose|i: int|
                    0 <= i < t.statics.len() && (#[trigger] t.statics[i]).node.serves(method);
                assert(below.statics[i].node.serves(method));
            } else if exists|i: int| 0 <= i < t.params.len() && (#[trigger] t.params[i]).node.serves(method) {
                let i = choose|i: int|
                    0 <= i < t.params.len() && (#[trigger] t.params[i]).node.serves(method);
                assert(below.params[i].node.serves(method));
            }
        }
        if below.serves(method) {
            if exists|i: int| 0 <= i < below.statics.len() && (#[trigger] below.statics[i]).node.serves(method) {
                let i = choose|i: int|
                    0 <= i < below.statics.len() && (#[trigger] below.statics[i]).node.serves(method);
                assert(t.statics[i].node.serves(method));
            } else if exists|i: int| 0 <= i < below.params.len() && (#[trigger] below.params[i]).node.serves(method) {
                let i = choose|i: int|
                    0 <= i < below.params.len() && (#[trigger] below.params[i]).node.serves(method);
                assert(t.params[i].node.serves(method));
            }
        }
    }
    if t.is_chain() {
        let child = t.statics[0].node;
        let behind = child.compact();
        lemma_compact_shape(child);
        assert(below.statics[0].node == behind);
        assert(below.serves(method) <==> behind.serves(method)) by {
            if below.serves(method) {
                let i = choose|i: int|
                    0 <= i < below.statics.len() && (#[trigger] below.statics[i]).node.serves(method);
                assert(i == 0);
            }
            if behind.serves(method) {
                assert(below.statics[0].node.serves(method));
            }
        }
        match behind.radix {
            None => {
                assert(*after.radix->0.node == behind);
            },
            Some(inner) => {
                assert(after.radix->0.node == inner.node);
                assert(behind.serves(method) <==> inner.node.serves(method));
            },
        }
        assert(after.serves(method) <==> after.radix->0.node.serves(method));
    }
}

/// Compaction keeps the lists of methods exact.
pub proof fn law_compact_keeps_methods_exact<H>(t: TrieView<H>)
    requires
        t.uncompacted(),
        t.methods_exact(),
    ensures
        t.compact().methods_exact(),
    decreases t,
{
    law_methods_exact_is_closed(t);
    lemma_compact_statics(t.statics);
    lemma_compact_params(t.params);
    lemma_compact_shape(t);
    let below = t.compact_below();
    let after = t.compact();
    assert forall|method: Seq<char>| after.methods.contains(method) <==> after.serves(method) by {
        lemma_compact_serves(t, method);
    }
    assert forall|i: int| 0 <= i < below.statics.len() implies (#[trigger] below.statics[i]).node.methods_exact() by {
        law_compact_keeps_methods_exact(t.statics[i].node);
    }
    assert forall|i: int| 0 <= i < below.params.len() implies (#[trigger] below.params[i]).node.methods_exact() by {
        law_compact_keeps_methods_exact(t.params[i].node);
    }
    if t.is_chain() {
        let behind = t.statics[0].node.compact();
        assert(below.statics[0].node == behind);
        assert(behind.methods_exact());
    }
}

/// A trie whose literals are segments, none of them empty, has literals
/// that are segments, none but the first empty.
pub proof fn law_strict_is_loose<H>(t: TrieView<H>)
    requires
        t.strict_segments(),
    ensures
        t.loose_segments(),
{
}

/// The literals of a trie whose literals are segments, none but those at
/// its root empty, can be joined without loss.
pub proof fn law_loose_is_segmented<H>(t: TrieView<H>)
    requires
        t.loose_segments(),
    ensures
        t.segmented(),
    decreases t,
{
    assert forall|i: int| 0 <= i < t.statics.len() implies (#[trigger] t.statics[i]).node.segmented() by {
        lemma_strict_is_segmented(t.statics[i].node);
    }
    assert forall|i: int| 0 <= i < t.params.len() implies (#[trigger] t.params[i]).node.segmented() by {
        lemma_strict_is_segmented(t.params[i].node);
    }
    if t.is_chain() && t.statics[0].node.is_chain() {
        let child = t.statics[0].node;
        assert(child.strict_segments());
        assert(child.statics[0].literal.len() > 0);
    }
}

proof fn lemma_strict_is_segmented<H>(t: TrieView<H>)
    requires
        t.strict_segments(),
    ensures
        t.segmented(),
    decreases t,
{
    assert forall|i: int| 0 <= i < t.statics.len() implies (#[trigger] t.statics[i]).node.segmented() by {
        lemma_strict_is_segmented(t.statics[i].node);
    }
    assert forall|i: int| 0 <= i < t.params.len() implies (#[trigger] t.params[i]).node.segmented() by {
        lemma_strict_is_segmented(t.params[i].node);
    }
    if t.is_chain() && t.statics[0].node.is_chain() {
        let child = t.statics[0].node;
        assert(child.strict_segments());
        assert(child.statics[0].literal.len() > 0);
    }
}

/// Registering a pattern of non-empty segments keeps all literals non-empty
/// segments.
pub proof fn law_insert_keeps_strict_segments<H>(
    t: TrieView<H>,
    decl: ParamRouteDecl<H>,
    parts: Seq<PathPart>,
)
    requires
        t.strict_segments(),
        strict_parts(parts),
    ensures
        t.insert(decl, parts).strict_segments(),
    decreases parts.len(),
{
    let after = t.insert(decl, parts);
    if parts.len() > 0 {
        assert(strict_parts(parts.skip(1))) by {
            assert forall|i: int| 0 <= i < parts.skip(1).len() implies match #[trigger] parts.skip(1)[i] {
                PathPart::Static { path } => crate::trie_model::is_segment(path@) && path@.len() > 0,
                PathPart::Param { name, param_type } => true,
            } by {
                assert(parts.skip(1)[i] == parts[i + 1]);
            }
        }
        assert(TrieView::<H>::empty().strict_segments());
        match parts[0] {
            PathPart::Static { path } => {
                let at = static_position(t.statics, path@);
                lemma_static_position(t.statics, path@);
                if at < t.statics.len() {
                    law_insert_keeps_strict_segments(t.statics[at].node, decl, parts.skip(1));
                } else {
                    law_insert_keeps_strict_segments(TrieView::<H>::empty(), decl, parts.skip(1));
                }
                assert forall|i: int| 0 <= i < after.statics.len() implies crate::trie_model::is_segment(
                    (#[trigger] after.statics[i]).literal,
                ) && after.statics[i].literal.len() > 0 && after.statics[i].node.strict_segments() by {
                    if i != at {
                        assert(after.statics[i] == t.statics[i]);
                    }
                }
            },
            PathPart::Param { name, param_type } => {
                let at = param_position(t.params, param_type);
                lemma_param_position(t.params, param_type);
                if at < t.params.len() && t.params[at].kind == param_type {
                    law_insert_keeps_strict_segments(t.params[at].node, decl, parts.skip(1));
                    assert forall|i: int| 0 <= i < after.params.len() implies (
                    #[trigger] after.params[i]).node.strict_segments() by {
                        if i != at {
                            assert(after.params[i] == t.params[i]);
                        }
                    }
                } else {
                    law_insert_keeps_strict_segments(TrieView::<H>::empty(), decl, parts.skip(1));
                    assert forall|i: int| 0 <= i < after.params.len() implies (
                    #[trigger] after.params[i]).node.strict_segments() by {
                        if i < at {
                            assert(after.params[i] == t.params[i]);
                        } else if i > at {
                            assert(after.params[i] == t.params[i - 1]);
                        }
                    }
                }
            },
        }
    }
}

/// Registering a pattern of segments, none but the first empty, keeps all
/// literals segments, none but those at the root empty.
pub proof fn law_insert_keeps_loose_segments<H>(
    t: TrieView<H>,
    decl: ParamRouteDecl<H>,
    parts: Seq<PathPart>,
)
    requires
        t.loose_segments(),
        loose_parts(parts),
    ensures
        t.insert(decl, parts).loose_segments(),
{
    let after = t.insert(decl, parts);
    if parts.len() > 0 {
        assert(TrieView::<H>::empty().strict_segments());
        match parts[0] {
            PathPart::Static { path } => {
                let at = static_position(t.statics, path@);
                lemma_static_position(t.statics, path@);
                if at < t.statics.len() {
                    law_insert_keeps_strict_segments(t.statics[at].node, decl, parts.skip(1));
                } else {
                    law_insert_keeps_strict_segments(TrieView::<H>::empty(), decl, parts.skip(1));
                }
                assert forall|i: int| 0 <= i < after.statics.len() implies crate::trie_model::is_segment(
                    (#[trigger] after.statics[i]).literal,
                ) && after.statics[i].node.strict_segments() by {
                    if i != at {
                        assert(after.statics[i] == t.statics[i]);
                    }
                }
            },
            PathPart::Param { name, param_type } => {
                let at = param_position(t.params, param_type);
                lemma_param_position(t.params, param_type);
                if at < t.params.len() && t.params[at].kind == param_type {
                    law_insert_keeps_strict_segments(t.params[at].node, decl, parts.skip(1));
                    assert forall|i: int| 0 <= i < after.params.len() implies (
                    #[trigger] after.params[i]).node.strict_segments() by {
                        if i != at {
                            assert(after.params[i] == t.params[i]);
                        }
                    }
                } else {
                    law_insert_keeps_strict_segments(TrieView::<H>::empty(), decl, parts.skip(1));
                    assert forall|i: int| 0 <= i < after.params.len() implies (
                    #[trigger] after.params[i]).node.strict_segments() by {
                        if i < at {
                            assert(after.params[i] == t.params[i]);
                        } else if i > at {
                            assert(after.params[i] == t.params[i - 1]);
                        }
                    }
                }
            },
        }
    }
}

/// A lookup hands back only a route that accepts the method, and only
/// from a node that lists the method.
pub proof fn law_match_accepts_method<H>(t: TrieView<H>, method: Seq<char>, path: Seq<char>)
    ensures
        t.lookup(method, path) is Some ==> t.lookup(method, path)->0.decl.methods@.contains(method)
            && t.methods.contains(method),
    decreases t, 1int, 0int,
{
    if !t.methods.contains(method) {
    } else if path.len() == 0 {
        lemma_leaf_position(t.leafs, method);
    } else if t.radix is Some && edge_rest(t.radix->0.prefix, path) is Some {
        law_match_accepts_method(*t.radix->0.node, method, edge_rest(t.radix->0.prefix, path)->0);
    } else {
        let segment = first_segment(path);
        let rest = after_first_segment(path);
        lemma_static_position(t.statics, segment);
        let found = static_position(t.statics, segment);
        if found < t.statics.len() {
            law_match_accepts_method(t.statics[found].node, method, rest);
        }
        lemma_params_accept_method(t, 0, method, segment, rest);
    }
}

proof fn lemma_params_accept_method<H>(
    t: TrieView<H>,
    from: int,
    method: Seq<char>,
    segment: Seq<char>,
    rest: Seq<char>,
)
    ensures
        t.lookup_params(from, method, segment, rest) is Some ==> t.lookup_params(
            from,
            method,
            segment,
            rest,
        )->0.decl.methods@.contains(method),
    decreases t, 0int, t.params.len() - from,
{
    if 0 <= from < t.params.len() {
        law_match_accepts_method(t.params[from].node, method, rest);
        let along = t.along_param(from, method, segment, rest);
        assert(along is Some ==> along->0.decl == t.params[from].node.lookup(method, rest)->0.decl);
        lemma_params_accept_method(t, from + 1, method, segment, rest);
    }
}

/// A literal edge comes before every parameter edge: where no compacted
/// edge leads the path on and the node behind the literal edge of the
/// first segment has a match, that match is what the node finds.
pub proof fn law_literal_edge_comes_first<H>(t: TrieView<H>, at: int, method: Seq<char>, path: Seq<char>)
    requires
        t.wf(),
        t.methods.contains(method),
        path.len() > 0,
        t.radix is None || edge_rest(t.radix->0.prefix, path) is None,
        0 <= at < t.statics.len(),
        t.statics[at].literal == first_segment(path),
        t.statics[at].node.lookup(method, after_first_segment(path)) is Some,
    ensures
        t.lookup(method, path) == t.statics[at].node.lookup(method, after_first_segment(path)),
{
    assert forall|j: int| 0 <= j < at implies t.statics[j].literal != first_segment(path) by {
        assert(t.statics[j].literal != t.statics[at].literal);
    }
    lemma_static_position_is(t.statics, first_segment(path), at);
}

/// Along the parameter edges the first match wins: what is found is the
/// match of one edge, and no edge before it has a match.
pub proof fn law_param_edges_in_order<H>(
    t: TrieView<H>,
    from: int,
    method: Seq<char>,
    segment: Seq<char>,
    rest: Seq<char>,
)
    requires
        0 <= from,
    ensures
        match t.lookup_params(from, method, segment, rest) {
            Some(found) => exists|at: int|
                from <= at < t.params.len() && #[trigger] t.along_param(at, method, segment, rest)
                    == Some(found) && forall|j: int|
                    from <= j < at ==> #[trigger] t.along_param(j, method, segment, rest) is None,
            None => forall|j: int|
                from <= j < t.params.len() ==> #[trigger] t.along_param(j, method, segment, rest) is None,
        },
    decreases t.params.len() - from,
{
    if from < t.params.len() {
        if t.along_param(from, method, segment, rest) is Some {
        } else {
            law_param_edges_in_order(t, from + 1, method, segment, rest);
            match t.lookup_params(from, method, segment, rest) {
                Some(found) => {
                    let at = choose|at: int|
                        from + 1 <= at < t.params.len() && #[trigger] t.along_param(
                            at,
                            method,
                            segment,
                            rest,
                        ) == Some(found) && forall|j: int|
                            from + 1 <= j < at ==> #[trigger] t.along_param(j, method, segment, rest) is None;
                    assert forall|j: int| from <= j < at implies #[trigger] t.along_param(
                        j,
                        method,
                        segment,
                        rest,
                    ) is None by {}
                },
                None => {},
            }
        }
    }
}

/// The strictest type wins: where the edge at `at` has a match and no edge
/// of a type before its type has one, the match of that edge is what the
/// parameter edges find.
pub proof fn law_strictest_type_wins<H>(
    t: TrieView<H>,
    at: int,
    method: Seq<char>,
    segment: Seq<char>,
    rest: Seq<char>,
)
    requires
        t.wf(),
        0 <= at < t.params.len(),
        t.along_param(at, method, segment, rest) is Some,
        forall|j: int|
            0 <= j < t.params.len() && t.params[j].kind.rank() < t.params[at].kind.rank()
                ==> #[trigger] t.along_param(j, method, segment, rest) is None,
    ensures
        t.lookup_params(0, method, segment, rest) == t.along_param(at, method, segment, rest),
{
    law_param_edges_in_order(t, 0, method, segment, rest);
    match t.lookup_params(0, method, segment, rest) {
        Some(found) => {
            let first = choose|first: int|
                0 <= first < t.params.len() && #[trigger] t.along_param(first, method, segment, rest)
                    == Some(found) && forall|j: int|
                    0 <= j < first ==> #[trigger] t.along_param(j, method, segment, rest) is None;
            if first < at {
                assert(t.params[first].kind.rank() < t.params[at].kind.rank());
            } else if at < first {
                assert(t.along_param(at, method, segment, rest) is None);
            }
        },
        None => {
            assert(t.along_param(at, method, segment, rest) is None);
        },
    }
}

/// The catch-all type is the last resort: it accepts every segment, no
/// type comes after it, and the match of its edge is what the parameter
/// edges find exactly where no other edge has a match.
pub proof fn law_path_is_last_resort<H>(
    t: TrieView<H>,
    at: int,
    method: Seq<char>,
    segment: Seq<char>,
    rest: Seq<char>,
)
    requires
        t.wf(),
        0 <= at < t.params.len(),
        t.params[at].kind == ParamType::Path,
    ensures
        ParamType::Path.parse_spec(segment) == Some(ParamValue::Path(segment)),
        forall|kind: ParamType| #[trigger] kind.rank() <= ParamType::Path.rank(),
        at == t.params.len() - 1,
        (forall|j: int| 0 <= j < at ==> #[trigger] t.along_param(j, method, segment, rest) is None)
            ==> t.lookup_params(0, method, segment, rest) == t.along_param(at, method, segment, rest),
        (exists|j: int| 0 <= j < at && #[trigger] t.along_param(j, method, segment, rest) is Some)
            ==> exists|k: int|
            0 <= k < at && #[trigger] t.along_param(k, method, segment, rest) is Some && t.lookup_params(
                0,
                method,
                segment,
                rest,
            ) == t.along_param(k, method, segment, rest),
{
    if at < t.params.len() - 1 {
        assert(t.params[at].kind.rank() < t.params[t.params.len() - 1].kind.rank());
    }
    law_param_edges_in_order(t, 0, method, segment, rest);
    if forall|j: int| 0 <= j < at ==> #[trigger] t.along_param(j, method, segment, rest) is None {
        match t.lookup_params(0, method, segment, rest) {
            Some(found) => {
                let first = choose|first: int|
                    0 <= first < t.params.len() && #[trigger] t.along_param(first, method, segment, rest)
                        == Some(found) && forall|j: int|
                        0 <= j < first ==> #[trigger] t.along_param(j, method, segment, rest) is None;
                assert(first == at);
            },
            None => {
                assert(t.along_param(at, method, segment, rest) is None);
            },
        }
    }
    if exists|j: int| 0 <= j < at && #[trigger] t.along_param(j, method, segment, rest) is Some {
        let earlier = choose|j: int| 0 <= j < at && #[trigger] t.along_param(j, method, segment, rest) is Some;
        match t.lookup_params(0, method, segment, rest) {
            Some(found) => {
                let first = choose|first: int|
                    0 <= first < t.params.len() && #[trigger] t.along_param(first, method, segment, rest)
                        == Some(found) && forall|j: int|
                        0 <= j < first ==> #[trigger] t.along_param(j, method, segment, rest) is None;
                assert(first <= earlier);
                assert(t.along_param(first, method, segment, rest) is Some);
            },
            None => {
                assert(t.along_param(earlier, method, segment, rest) is None);
            },
        }
    }
}

/// A text that is an integer is also a floating-point literal, a single
/// path element and a path: where edges of these types stand side by side,
/// the order of the types decides.
pub proof fn law_integers_fit_wider_types(segment: Seq<char>)
    requires
        int_value(segment) is Some,
    ensures
        ParamType::Int.parse_spec(segment) is Some,
        ParamType::Float.parse_spec(segment) == Some(ParamValue::Float(segment)),
        ParamType::Str.parse_spec(segment) == Some(ParamValue::Str(segment)),
        ParamType::Path.parse_spec(segment) == Some(ParamValue::Path(segment)),
        ParamType::Int.rank() < ParamType::Float.rank() < ParamType::Str.rank() < ParamType::Path.rank(),
{
    let start = crate::scalar::sign_len(segment);
    let digits = segment.skip(start);
    assert forall|j: int| start <= j < segment.len() implies crate::scalar::is_digit(
        #[trigger] segment[j],
    ) by {
        assert(crate::scalar::is_digit(digits[j - start]));
    }
    lemma_digit_run_is(segment, start, segment.len() as int);
    assert(crate::scalar::is_decimal_from(segment, start));
    assert(is_float_literal(segment));
    if segment.contains('/') {
        let at = choose|at: int| 0 <= at < segment.len() && segment[at] == '/';
        if at >= start {
            assert(crate::scalar::is_digit(digits[at - start]));
        }
    }
}

/// A trie with one route finds that route for the methods that the route
/// accepts, on the paths that its pattern fits, with the values of the
/// parameters in the order of the pattern; and it finds nothing else.
pub proof fn law_lone_route<H>(
    decl: ParamRouteDecl<H>,
    parts: Seq<PathPart>,
    method: Seq<char>,
    path: Seq<char>,
)
    ensures
        TrieView::<H>::empty().insert(decl, parts).lookup(method, path) == (if decl.methods@.contains(
            method,
        ) {
            match pattern_values(parts, path) {
                Some(args) => Some(TrieMatch { decl, args }),
                None => None,
            }
        } else {
            None
        }),
    decreases parts.len(),
{
    let t = TrieView::<H>::empty().insert(decl, parts);
    assert(t.methods =~= decl.methods@);
    assert(t.radix is None);
    if !decl.methods@.contains(method) {
    } else if parts.len() == 0 {
        assert(t.leafs =~= seq![decl]);
        if path.len() == 0 {
            assert(crate::trie_model::leaf_position(t.leafs, method) == 0);
        } else {
            assert(t.statics.len() == 0);
            assert(t.params.len() == 0);
            assert(t.lookup_params(0, method, first_segment(path), after_first_segment(path)) is None);
            assert(static_position(t.statics, first_segment(path)) == 0);
        }
    } else {
        let segment = first_segment(path);
        let rest = after_first_segment(path);
        let below = TrieView::<H>::empty().insert(decl, parts.skip(1));
        law_lone_route(decl, parts.skip(1), method, rest);
        assert(t.leafs.len() == 0);
        match parts[0] {
            PathPart::Static { path: literal } => {
                assert(static_position(TrieView::<H>::empty().statics, literal@) == 0);
                assert(t.statics =~= seq![StaticEdgeView { literal: literal@, node: below }]);
                assert(t.params.len() == 0);
                if path.len() > 0 {
                    lemma_static_position(t.statics, segment);
                    assert(t.lookup_params(0, method, segment, rest) is None);
                } else {
                    assert(crate::trie_model::leaf_position(t.leafs, method) == 0);
                }
            },
            PathPart::Param { name, param_type } => {
                assert(param_position(TrieView::<H>::empty().params, param_type) == 0);
                assert(t.params =~= seq![ParamEdgeView { kind: param_type, node: below }]);
                assert(t.statics.len() == 0);
                if path.len() > 0 {
                    assert(static_position(t.statics, segment) == 0);
                    assert(t.lookup_params(1, method, segment, rest) is None);
                    assert(t.lookup_params(0, method, segment, rest) == t.along_param(
                        0,
                        method,
                        segment,
                        rest,
                    ));
                } else {
                    assert(crate::trie_model::leaf_position(t.leafs, method) == 0);
                }
            },
        }
    }
}

/// A dump of a node without a compacted edge draws every edge once: a tree
/// for each literal edge, labelled with the literal, then a tree for each
/// parameter edge, labelled with the type's name in braces, each over the
/// dump of the node behind the edge.
pub proof fn law_dump_draws_every_edge<H>(t: TrieView<H>)
    requires
        t.radix is None,
    ensures
        t.dump().len() == t.statics.len() + t.params.len(),
        forall|i: int|
            0 <= i < t.statics.len() ==> #[trigger] t.dump()[i] == (DumpView {
                label: t.statics[i].literal,
                children: t.statics[i].node.dump(),
            }),
        forall|i: int|
            0 <= i < t.params.len() ==> #[trigger] t.dump()[t.statics.len() + i] == (DumpView {
                label: t.params[i].kind.label_spec(),
                children: t.params[i].node.dump(),
            }),
{
    lemma_dump_statics(t.statics);
    lemma_dump_params(t.params);
}

/// In a dump of a well-formed node no two trees of literal edges bear the
/// same label.
pub proof fn law_dump_literals_once<H>(t: TrieView<H>, i: int, j: int)
    requires
        t.wf(),
        t.radix is None,
        0 <= i < j < t.statics.len(),
    ensures
        t.dump()[i].label != t.dump()[j].label,
{
    law_dump_draws_every_edge(t);
}

/// A dump of a node with a compacted edge draws that edge alone, over the
/// dump of the node behind it. And where compaction joins the one literal
/// edge of a node to the compacted edge behind it, the label of the joined
/// edge is the literal, a `/`, and the label that stood below.
pub proof fn law_dump_of_compacted_chain<H>(t: TrieView<H>)
    requires
        t.uncompacted(),
        t.methods_closed(),
        t.is_chain(),
    ensures
        t.compact_below().dump() == seq![
            DumpView {
                label: t.statics[0].literal,
                children: t.statics[0].node.compact().dump(),
            },
        ],
        t.compact().dump().len() == 1,
        !t.statics[0].node.is_chain() ==> t.compact().dump() == t.compact_below().dump(),
        t.statics[0].node.is_chain() ==> t.statics[0].node.compact().dump().len() == 1
            && t.compact().dump()[0] == (DumpView {
            label: join_segments(t.statics[0].literal, t.statics[0].node.compact().dump()[0].label),
            children: t.statics[0].node.compact().dump()[0].children,
        }),
{
    lemma_compact_statics(t.statics);
    lemma_compact_params(t.params);
    lemma_compact_shape(t);
    lemma_compact_shape(t.statics[0].node);
    let below = t.compact_below();
    law_dump_draws_every_edge(below);
    assert(below.dump() =~= seq![
        DumpView { label: t.statics[0].literal, children: t.statics[0].node.compact().dump() },
    ]);
    let behind = t.statics[0].node.compact();
    assert(below.statics[0].node == behind);
    if !t.statics[0].node.is_chain() {
        assert(t.compact().dump() =~= below.dump());
    }
}

/// A path that a pattern fits holds one value for each parameter of the
/// pattern.
pub proof fn law_pattern_values_arity(parts: Seq<PathPart>, path: Seq<char>)
    ensures
        pattern_values(parts, path) is Some ==> pattern_values(parts, path)->0.len() == count_params(
            parts,
        ),
    decreases parts.len(),
{
    if parts.len() > 0 && path.len() > 0 {
        law_pattern_values_arity(parts.skip(1), after_first_segment(path));
    }
}

/// Registering a declaration under what is left of its own pattern keeps
/// every declaration where its pattern ends.
pub proof fn law_insert_keeps_arity<H>(
    t: TrieView<H>,
    depth: nat,
    decl: ParamRouteDecl<H>,
    parts: Seq<PathPart>,
)
    requires
        t.arity_sound(depth),
        count_params(decl.parts@) == depth + count_params(parts),
    ensures
        t.insert(decl, parts).arity_sound(depth),
    decreases parts.len(),
{
    let after = t.insert(decl, parts);
    assert(TrieView::<H>::empty().arity_sound(depth));
    assert(TrieView::<H>::empty().arity_sound(depth + 1));
    if parts.len() == 0 {
        assert forall|i: int| 0 <= i < after.leafs.len() implies count_params(
            (#[trigger] after.leafs[i]).parts@,
        ) == depth by {
            if i < t.leafs.len() {
                assert(after.leafs[i] == t.leafs[i]);
            }
        }
    } else {
        match parts[0] {
            PathPart::Static { path } => {
                let at = static_position(t.statics, path@);
                lemma_static_position(t.statics, path@);
                if at < t.statics.len() {
                    law_insert_keeps_arity(t.statics[at].node, depth, decl, parts.skip(1));
                } else {
                    law_insert_keeps_arity(TrieView::<H>::empty(), depth, decl, parts.skip(1));
                }
                assert forall|i: int| 0 <= i < after.statics.len() implies (
                #[trigger] after.statics[i]).node.arity_sound(depth) by {
                    if i != at {
                        assert(after.statics[i] == t.statics[i]);
                    }
                }
            },
            PathPart::Param { name, param_type } => {
                let at = param_position(t.params, param_type);
                lemma_param_position(t.params, param_type);
                if at < t.params.len() && t.params[at].kind == param_type {
                    law_insert_keeps_arity(t.params[at].node, depth + 1, decl, parts.skip(1));
                    assert forall|i: int| 0 <= i < after.params.len() implies (
                    #[trigger] after.params[i]).node.arity_sound(depth + 1) by {
                        if i != at {
                            assert(after.params[i] == t.params[i]);
                        }
                    }
                } else {
                    law_insert_keeps_arity(TrieView::<H>::empty(), depth + 1, decl, parts.skip(1));
                    assert forall|i: int| 0 <= i < after.params.len() implies (
                    #[trigger] after.params[i]).node.arity_sound(depth + 1) by {
                        if i < at {
                            assert(after.params[i] == t.params[i]);
                        } else if i > at {
                            assert(after.params[i] == t.params[i - 1]);
                        }
                    }
                }
            },
        }
    }
}

/// Compaction keeps every declaration where its pattern ends.
pub proof fn law_compact_keeps_arity<H>(t: TrieView<H>, depth: nat)
    requires
        t.uncompacted(),
        t.arity_sound(depth),
    ensures
        t.compact().arity_sound(depth),
    decreases t,
{
    lemma_compact_statics(t.statics);
    lemma_compact_params(t.params);
    let below = t.compact_below();
    assert forall|i: int| 0 <= i < below.statics.len() implies (#[trigger] below.statics[i]).node.arity_sound(
        depth,
    ) by {
        law_compact_keeps_arity(t.statics[i].node, depth);
    }
    assert forall|i: int| 0 <= i < below.params.len() implies (#[trigger] below.params[i]).node.arity_sound(
        depth + 1,
    ) by {
        law_compact_keeps_arity(t.params[i].node, depth + 1);
    }
    if t.is_chain() {
        let behind = below.statics[0].node;
        assert(behind.arity_sound(depth));
    }
}

/// A match holds one value for each parameter of the route's pattern:
/// below a node with `depth` parameter edges above it, as many as the
/// pattern has parameters beyond those.
pub proof fn law_match_arity<H>(t: TrieView<H>, depth: nat, method: Seq<char>, path: Seq<char>)
    requires
        t.arity_sound(depth),
    ensures
        t.lookup(method, path) is Some ==> count_params(t.lookup(method, path)->0.decl.parts@) == depth
            + t.lookup(method, path)->0.args.len(),
    decreases t, 1int, 0int,
{
    if !t.methods.contains(method) {
    } else if path.len() == 0 {
        lemma_leaf_position(t.leafs, method);
    } else if t.radix is Some && edge_rest(t.radix->0.prefix, path) is Some {
        law_match_arity(*t.radix->0.node, depth, method, edge_rest(t.radix->0.prefix, path)->0);
    } else {
        let segment = first_segment(path);
        let rest = after_first_segment(path);
        lemma_static_position(t.statics, segment);
        let found = static_position(t.statics, segment);
        if found < t.statics.len() {
            law_match_arity(t.statics[found].node, depth, method, rest);
        }
        lemma_params_arity(t, depth, 0, method, segment, rest);
    }
}

proof fn lemma_params_arity<H>(
    t: TrieView<H>,
    depth: nat,
    from: int,
    method: Seq<char>,
    segment: Seq<char>,
    rest: Seq<char>,
)
    requires
        t.arity_sound(depth),
    ensures
        t.lookup_params(from, method, segment, rest) is Some ==> count_params(
            t.lookup_params(from, method, segment, rest)->0.decl.parts@,
        ) == depth + t.lookup_params(from, method, segment, rest)->0.args.len(),
    decreases t, 0int, t.params.len() - from,
{
    if 0 <= from < t.params.len() {
        law_match_arity(t.params[from].node, depth + 1, method, rest);
        let along = t.along_param(from, method, segment, rest);
        let below = t.params[from].node.lookup(method, rest);
        assert(along is Some ==> along->0.decl == below->0.decl && along->0.args.len() == below->0.args.len()
            + 1);
        lemma_params_arity(t, depth, from + 1, method, segment, rest);
    }
}

/// Registration keeps a trie well formed.
pub proof fn law_insert_keeps_wf<H>(t: TrieView<H>, decl: ParamRouteDecl<H>, parts: Seq<PathPart>)
    requires
        t.wf(),
    ensures
        t.insert(decl, parts).wf(),
    decreases parts.len(),
{
    let after = t.insert(decl, parts);
    assert(TrieView::<H>::empty().wf());
    if parts.len() > 0 {
        match parts[0] {
            PathPart::Static { path } => {
                let at = static_position(t.statics, path@);
                lemma_static_position(t.statics, path@);
                if at < t.statics.len() {
                    law_insert_keeps_wf(t.statics[at].node, decl, parts.skip(1));
                } else {
                    law_insert_keeps_wf(TrieView::<H>::empty(), decl, parts.skip(1));
                }
                assert forall|i: int| 0 <= i < after.statics.len() implies (
                #[trigger] after.statics[i]).node.wf() by {
                    if i != at {
                        assert(after.statics[i] == t.statics[i]);
                    }
                }
                assert forall|i: int, j: int| 0 <= i < j < after.statics.len() implies after.statics[i].literal
                    != after.statics[j].literal by {
                    if j < t.statics.len() {
                        assert(t.statics[i].literal != t.statics[j].literal);
                    }
                }
            },
            PathPart::Param { name, param_type } => {
                let at = param_position(t.params, param_type);
                lemma_param_position(t.params, param_type);
                if at < t.params.len() && t.params[at].kind == param_type {
                    law_insert_keeps_wf(t.params[at].node, decl, parts.skip(1));
                    assert forall|i: int| 0 <= i < after.params.len() implies (
                    #[trigger] after.params[i]).node.wf() by {
                        if i != at {
                            assert(after.params[i] == t.params[i]);
                        }
                    }
                    assert forall|i: int, j: int| 0 <= i < j < after.params.len() implies after.params[i].kind.rank()
                        < after.params[j].kind.rank() by {
                        assert(t.params[i].kind.rank() < t.params[j].kind.rank());
                    }
                } else {
                    law_insert_keeps_wf(TrieView::<H>::empty(), decl, parts.skip(1));
                    assert forall|i: int| 0 <= i < after.params.len() implies (
                    #[trigger] after.params[i]).node.wf() by {
                        if i < at {
                            assert(after.params[i] == t.params[i]);
                        } else if i > at {
                            assert(after.params[i] == t.params[i - 1]);
                        }
                    }
                    assert forall|i: int, j: int| 0 <= i < j < after.params.len() implies after.params[i].kind.rank()
                        < after.params[j].kind.rank() by {
                        let i0 = if i < at {
                            i
                        } else {
                            i - 1
                        };
                        let j0 = if j < at {
                            j
                        } else {
                            j - 1
                        };
                        if i != at && j != at {
                            assert(t.params[i0].kind.rank() < t.params[j0].kind.rank());
                        } else if i == at {
                            if j0 > at {
                                assert(t.params[at].kind.rank() < t.params[j0].kind.rank());
                            }
                        }
                    }
                }
            },
        }
    }
}

/// Compaction keeps a trie well formed.
pub proof fn law_compact_keeps_wf<H>(t: TrieView<H>)
    requires
        t.wf(),
    ensures
        t.compact().wf(),
    decreases t,
{
    lemma_compact_statics(t.statics);
    lemma_compact_params(t.params);
    let below = t.compact_below();
    assert forall|i: int| 0 <= i < below.statics.len() implies (#[trigger] below.statics[i]).node.wf() by {
        law_compact_keeps_wf(t.statics[i].node);
    }
    assert forall|i: int| 0 <= i < below.params.len() implies (#[trigger] below.params[i]).node.wf() by {
        law_compact_keeps_wf(t.params[i].node);
    }
    assert forall|i: int, j: int| 0 <= i < j < below.statics.len() implies below.statics[i].literal
        != below.statics[j].literal by {
        assert(t.statics[i].literal != t.statics[j].literal);
    }
    assert forall|i: int, j: int| 0 <= i < j < below.params.len() implies below.params[i].kind.rank()
        < below.params[j].kind.rank() by {
        assert(t.params[i].kind.rank() < t.params[j].kind.rank());
    }
    if below.is_chain() {
        let behind = below.statics[0].node;
        assert(behind.wf());
    }
}

/// After a registration every declaration still has, at a place, the part
/// that all had there, where the new declaration has it too.
proof fn lemma_insert_keeps_steps<H>(
    t: TrieView<H>,
    decl: ParamRouteDecl<H>,
    parts: Seq<PathPart>,
    at: int,
    step: Step,
)
    requires
        t.every_leaf_steps(at, step),
        0 <= at < decl.parts@.len(),
        step_of(decl.parts@[at]) == step,
    ensures
        t.insert(decl, parts).every_leaf_steps(at, step),
    decreases parts.len(),
{
    let after = t.insert(decl, parts);
    assert(TrieView::<H>::empty().every_leaf_steps(at, step));
    if parts.len() == 0 {
        assert forall|i: int| 0 <= i < after.leafs.len() implies 0 <= at < (
        #[trigger] after.leafs[i]).parts@.len() && step_of(after.leafs[i].parts@[at]) == step by {
            if i < t.leafs.len() {
                assert(after.leafs[i] == t.leafs[i]);
            }
        }
    } else {
        match parts[0] {
            PathPart::Static { path } => {
                let place = static_position(t.statics, path@);
                lemma_static_position(t.statics, path@);
                if place < t.statics.len() {
                    lemma_insert_keeps_steps(t.statics[place].node, decl, parts.skip(1), at, step);
                } else {
                    lemma_insert_keeps_steps(TrieView::<H>::empty(), decl, parts.skip(1), at, step);
                }
                assert forall|i: int| 0 <= i < after.statics.len() implies (
                #[trigger] after.statics[i]).node.every_leaf_steps(at, step) by {
                    if i != place {
                        assert(after.statics[i] == t.statics[i]);
                    }
                }
            },
            PathPart::Param { name, param_type } => {
                let place = param_position(t.params, param_type);
                lemma_param_position(t.params, param_type);
                if place < t.params.len() && t.params[place].kind == param_type {
                    lemma_insert_keeps_steps(t.params[place].node, decl, parts.skip(1), at, step);
                    assert forall|i: int| 0 <= i < after.params.len() implies (
                    #[trigger] after.params[i]).node.every_leaf_steps(at, step) by {
                        if i != place {
                            assert(after.params[i] == t.params[i]);
                        }
                    }
                } else {
                    lemma_insert_keeps_steps(TrieView::<H>::empty(), decl, parts.skip(1), at, step);
                    assert forall|i: int| 0 <= i < after.params.len() implies (
                    #[trigger] after.params[i]).node.every_leaf_steps(at, step) by {
                        if i < place {
                            assert(after.params[i] == t.params[i]);
                        } else if i > place {
                            assert(after.params[i] == t.params[i - 1]);
                        }
                    }
                }
            },
        }
    }
}

/// Registering a declaration under what is left of its own pattern keeps
/// every declaration behind the edges of its pattern.
pub proof fn law_insert_keeps_pattern<H>(t: TrieView<H>, depth: int, decl: ParamRouteDecl<H>)
    requires
        t.pattern_sound(depth),
        0 <= depth <= decl.parts@.len(),
    ensures
        t.insert(decl, decl.parts@.skip(depth)).pattern_sound(depth),
    decreases decl.parts@.len() - depth,
{
    let parts = decl.parts@.skip(depth);
    let after = t.insert(decl, parts);
    assert(TrieView::<H>::empty().pattern_sound(depth + 1));
    assert forall|step: Step| TrieView::<H>::empty().every_leaf_steps(depth, step) by {}
    if parts.len() == 0 {
        assert forall|i: int| 0 <= i < after.leafs.len() implies (#[trigger] after.leafs[i]).parts@.len()
            == depth by {
            if i < t.leafs.len() {
                assert(after.leafs[i] == t.leafs[i]);
            }
        }
    } else {
        assert(parts[0] == decl.parts@[depth]);
        assert(parts.skip(1) =~= decl.parts@.skip(depth + 1));
        match parts[0] {
            PathPart::Static { path } => {
                let place = static_position(t.statics, path@);
                lemma_static_position(t.statics, path@);
                let step = Step::Literal(path@);
                if place < t.statics.len() {
                    law_insert_keeps_pattern(t.statics[place].node, depth + 1, decl);
                    lemma_insert_keeps_steps(t.statics[place].node, decl, parts.skip(1), depth, step);
                } else {
                    law_insert_keeps_pattern(TrieView::<H>::empty(), depth + 1, decl);
                    lemma_insert_keeps_steps(TrieView::<H>::empty(), decl, parts.skip(1), depth, step);
                }
                assert forall|i: int| 0 <= i < after.statics.len() implies (
                #[trigger] after.statics[i]).node.every_leaf_steps(
                    depth,
                    Step::Literal(after.statics[i].literal),
                ) && after.statics[i].node.pattern_sound(depth + 1) by {
                    if i != place {
                        assert(after.statics[i] == t.statics[i]);
                    }
                }
            },
            PathPart::Param { name, param_type } => {
                let place = param_position(t.params, param_type);
                lemma_param_position(t.params, param_type);
                let step = Step::Typed(param_type);
                if place < t.params.len() && t.params[place].kind == param_type {
                    law_insert_keeps_pattern(t.params[place].node, depth + 1, decl);
                    lemma_insert_keeps_steps(t.params[place].node, decl, parts.skip(1), depth, step);
                    assert forall|i: int| 0 <= i < after.params.len() implies (
                    #[trigger] after.params[i]).node.every_leaf_steps(
                        depth,
                        Step::Typed(after.params[i].kind),
                    ) && after.params[i].node.pattern_sound(depth + 1) by {
                        if i != place {
                            assert(after.params[i] == t.params[i]);
                        }
                    }
                } else {
                    law_insert_keeps_pattern(TrieView::<H>::empty(), depth + 1, decl);
                    lemma_insert_keeps_steps(TrieView::<H>::empty(), decl, parts.skip(1), depth, step);
                    assert forall|i: int| 0 <= i < after.params.len() implies (
                    #[trigger] after.params[i]).node.every_leaf_steps(
                        depth,
                        Step::Typed(after.params[i].kind),
                    ) && after.params[i].node.pattern_sound(depth + 1) by {
                        if i < place {
                            assert(after.params[i] == t.params[i]);
                        } else if i > place {
                            assert(after.params[i] == t.params[i - 1]);
                        }
                    }
                }
            },
        }
    }
}

/// A match fits its pattern: in a trie that registration alone has shaped,
/// with every declaration behind the edges of its pattern, what a lookup
/// finds below a node `depth` edges down is a route whose pattern, from
/// part `depth` on, fits the path, with the values that the pattern gives
/// the path. And the route has every part that all declarations from the
/// node down have.
pub proof fn law_match_fits_pattern<H>(t: TrieView<H>, depth: int, method: Seq<char>, path: Seq<char>)
    requires
        t.uncompacted(),
        t.pattern_sound(depth),
        0 <= depth,
    ensures
        t.lookup(method, path) is Some ==> ({
            let found = t.lookup(method, path)->0;
            &&& depth <= found.decl.parts@.len()
            &&& pattern_values(found.decl.parts@.skip(depth), path) == Some(found.args)
            &&& forall|at: int, step: Step| #[trigger]
                t.every_leaf_steps(at, step) ==> 0 <= at < found.decl.parts@.len() && step_of(
                    found.decl.parts@[at],
                ) == step
        }),
    decreases t, 1int, 0int,
{
    if !t.methods.contains(method) {
    } else if path.len() == 0 {
        lemma_leaf_position(t.leafs, method);
        let at = crate::trie_model::leaf_position(t.leafs, method);
        if at < t.leafs.len() {
            let decl = t.leafs[at];
            assert(decl.parts@.skip(depth) =~= Seq::<PathPart>::empty());
        }
    } else {
        let segment = first_segment(path);
        let rest = after_first_segment(path);
        lemma_static_position(t.statics, segment);
        let place = static_position(t.statics, segment);
        if place < t.statics.len() {
            let node = t.statics[place].node;
            law_match_fits_pattern(node, depth + 1, method, rest);
            if node.lookup(method, rest) is Some {
                let found = node.lookup(method, rest)->0;
                let parts = found.decl.parts@;
                assert(node.every_leaf_steps(depth, Step::Literal(segment)));
                assert(step_of(parts[depth]) == Step::Literal(segment));
                assert(parts.skip(depth)[0] == parts[depth]);
                assert(parts.skip(depth).skip(1) =~= parts.skip(depth + 1));
                assert(pattern_values(parts.skip(depth), path) == Some(found.args));
                assert forall|at: int, step: Step| #[trigger]
                    t.every_leaf_steps(at, step) implies 0 <= at < parts.len() && step_of(parts[at])
                    == step by {
                    assert(node.every_leaf_steps(at, step));
                }
            }
        }
        lemma_params_fit_pattern(t, depth, 0, method, path);
    }
}

proof fn lemma_params_fit_pattern<H>(
    t: TrieView<H>,
    depth: int,
    from: int,
    method: Seq<char>,
    path: Seq<char>,
)
    requires
        t.uncompacted(),
        t.pattern_sound(depth),
        0 <= depth,
        path.len() > 0,
    ensures
        t.lookup_params(from, method, first_segment(path), after_first_segment(path)) is Some ==> ({
            let found = t.lookup_params(from, method, first_segment(path), after_first_segment(path))->0;
            &&& depth <= found.decl.parts@.len()
            &&& pattern_values(found.decl.parts@.skip(depth), path) == Some(found.args)
            &&& forall|at: int, step: Step| #[trigger]
                t.every_leaf_steps(at, step) ==> 0 <= at < found.decl.parts@.len() && step_of(
                    found.decl.parts@[at],
                ) == step
        }),
    decreases t, 0int, t.params.len() - from,
{
    let segment = first_segment(path);
    let rest = after_first_segment(path);
    if 0 <= from < t.params.len() {
        let edge = t.params[from];
        law_match_fits_pattern(edge.node, depth + 1, method, rest);
        let along = t.along_param(from, method, segment, rest);
        if along is Some {
            let below = edge.node.lookup(method, rest)->0;
            let value = edge.kind.parse_spec(segment)->0;
            let parts = below.decl.parts@;
            assert(along->0.decl == below.decl);
            assert(along->0.args == seq![value] + below.args);
            assert(edge.node.every_leaf_steps(depth, Step::Typed(edge.kind)));
            assert(step_of(parts[depth]) == Step::Typed(edge.kind));
            assert(parts.skip(depth)[0] == parts[depth]);
            assert(parts.skip(depth).skip(1) =~= parts.skip(depth + 1));
            assert(pattern_values(parts.skip(depth), path) == Some(along->0.args));
            assert forall|at: int, step: Step| #[trigger]
                t.every_leaf_steps(at, step) implies 0 <= at < parts.len() && step_of(parts[at])
                == step by {
                assert(edge.node.every_leaf_steps(at, step));
            }
        } else {
            lemma_params_fit_pattern(t, depth, from + 1, method, path);
        }
    }
}

/// A node lists the methods of every declaration registered from it down.
proof fn lemma_holds_lists_methods<H>(t: TrieView<H>, decl: ParamRouteDecl<H>, depth: int)
    requires
        t.methods_closed(),
        t.holds(decl, depth),
    ensures
        decl.methods@.subset_of(t.methods),
    decreases t,
{
    if depth == decl.parts@.len() {
        let i = choose|i: int| 0 <= i < t.leafs.len() && t.leafs[i] == decl;
        assert(t.leafs[i].methods@.subset_of(t.methods));
    } else {
        match decl.parts@[depth] {
            PathPart::Static { path } => {
                let i = choose|i: int|
                    0 <= i < t.statics.len() && (#[trigger] t.statics[i]).literal == path@
                        && t.statics[i].node.holds(decl, depth + 1);
                lemma_holds_lists_methods(t.statics[i].node, decl, depth + 1);
            },
            PathPart::Param { name, param_type } => {
                let i = choose|i: int|
                    0 <= i < t.params.len() && (#[trigger] t.params[i]).kind == param_type
                        && t.params[i].node.holds(decl, depth + 1);
                lemma_holds_lists_methods(t.params[i].node, decl, depth + 1);
            },
        }
    }
}

/// No route is missed: in a well-formed trie that registration alone has
/// shaped, a lookup finds a route for every method and path that some
/// registered route accepts and fits.
pub proof fn law_fitting_route_is_found<H>(
    t: TrieView<H>,
    depth: int,
    decl: ParamRouteDecl<H>,
    method: Seq<char>,
    path: Seq<char>,
)
    requires
        t.wf(),
        t.uncompacted(),
        t.methods_closed(),
        t.holds(decl, depth),
        decl.methods@.contains(method),
        pattern_values(decl.parts@.skip(depth), path) is Some,
    ensures
        t.lookup(method, path) is Some,
    decreases t,
{
    lemma_holds_lists_methods(t, decl, depth);
    let left = decl.parts@.skip(depth);
    if depth == decl.parts@.len() {
        let i = choose|i: int| 0 <= i < t.leafs.len() && t.leafs[i] == decl;
        lemma_leaf_position(t.leafs, method);
        if crate::trie_model::leaf_position(t.leafs, method) >= t.leafs.len() {
            assert(!t.leafs[i].methods@.contains(method));
        }
    } else {
        let segment = first_segment(path);
        let rest = after_first_segment(path);
        assert(left[0] == decl.parts@[depth]);
        assert(left.skip(1) =~= decl.parts@.skip(depth + 1));
        match decl.parts@[depth] {
            PathPart::Static { path: literal } => {
                let i = choose|i: int|
                    0 <= i < t.statics.len() && (#[trigger] t.statics[i]).literal == literal@
                        && t.statics[i].node.holds(decl, depth + 1);
                assert forall|j: int| 0 <= j < i implies t.statics[j].literal != segment by {
                    assert(t.statics[j].literal != t.statics[i].literal);
                }
                lemma_static_position_is(t.statics, segment, i);
                law_fitting_route_is_found(t.statics[i].node, depth + 1, decl, method, rest);
            },
            PathPart::Param { name, param_type } => {
                let i = choose|i: int|
                    0 <= i < t.params.len() && (#[trigger] t.params[i]).kind == param_type
                        && t.params[i].node.holds(decl, depth + 1);
                law_fitting_route_is_found(t.params[i].node, depth + 1, decl, method, rest);
                assert(t.along_param(i, method, segment, rest) is Some);
                law_param_edges_in_order(t, 0, method, segment, rest);
            },
        }
    }
}

/// A registration keeps every declaration registered that was.
pub proof fn law_insert_keeps_registered<H>(
    t: TrieView<H>,
    decl: ParamRouteDecl<H>,
    parts: Seq<PathPart>,
    other: ParamRouteDecl<H>,
    depth: int,
)
    requires
        t.holds(other, depth),
    ensures
        t.insert(decl, parts).holds(other, depth),
    decreases t,
{
    let after = t.insert(decl, parts);
    if depth == other.parts@.len() {
        let i = choose|i: int| 0 <= i < t.leafs.len() && t.leafs[i] == other;
        if parts.len() == 0 {
            assert(after.leafs[i] == other);
        } else {
            assert(after.leafs == t.leafs);
        }
    } else {
        match other.parts@[depth] {
            PathPart::Static { path: literal } => {
                let i = choose|i: int|
                    0 <= i < t.statics.len() && (#[trigger] t.statics[i]).literal == literal@
                        && t.statics[i].node.holds(other, depth + 1);
                if parts.len() > 0 {
                    match parts[0] {
                        PathPart::Static { path } => {
                            let place = static_position(t.statics, path@);
                            lemma_static_position(t.statics, path@);
                            if place == i {
                                law_insert_keeps_registered(
                                    t.statics[i].node,
                                    decl,
                                    parts.skip(1),
                                    other,
                                    depth + 1,
                                );
                            }
                            assert(after.statics[i].literal == literal@);
                            assert(after.statics[i].node.holds(other, depth + 1));
                        },
                        PathPart::Param { name, param_type } => {
                            assert(after.statics == t.statics);
                        },
                    }
                } else {
                    assert(after.statics == t.statics);
                }
                assert(after.statics[i].literal == literal@ && after.statics[i].node.holds(
                    other,
                    depth + 1,
                ));
            },
            PathPart::Param { name: other_name, param_type: kind } => {
                let i = choose|i: int|
                    0 <= i < t.params.len() && (#[trigger] t.params[i]).kind == kind
                        && t.params[i].node.holds(other, depth + 1);
                let mut now: int = i;
                if parts.len() > 0 {
                    match parts[0] {
                        PathPart::Static { path } => {
                            assert(after.params == t.params);
                        },
                        PathPart::Param { name, param_type } => {
                            let place = param_position(t.params, param_type);
                            lemma_param_position(t.params, param_type);
                            if place < t.params.len() && t.params[place].kind == param_type {
                                if place == i {
                                    law_insert_keeps_registered(
                                        t.params[i].node,
                                        decl,
                                        parts.skip(1),
                                        other,
                                        depth + 1,
                                    );
                                }
                            } else {
                                if place <= i {
                                    now = i + 1;
                                }
                                assert(after.params[now] == t.params[i]);
                            }
                        },
                    }
                } else {
                    assert(after.params == t.params);
                }
                assert(after.params[now].kind == kind && after.params[now].node.holds(other, depth + 1));
            },
        }
    }
}

/// A registration registers: the declaration is then held behind the
/// edges of its pattern.
pub proof fn law_insert_registers<H>(t: TrieView<H>, decl: ParamRouteDecl<H>, depth: int)
    requires
        0 <= depth <= decl.parts@.len(),
    ensures
        t.insert(decl, decl.parts@.skip(depth)).holds(decl, depth),
    decreases decl.parts@.len() - depth,
{
    let parts = decl.parts@.skip(depth);
    let after = t.insert(decl, parts);
    if depth == decl.parts@.len() {
        assert(after.leafs[t.leafs.len() as int] == decl);
    } else {
        assert(parts[0] == decl.parts@[depth]);
        assert(parts.skip(1) =~= decl.parts@.skip(depth + 1));
        match parts[0] {
            PathPart::Static { path } => {
                let place = static_position(t.statics, path@);
                lemma_static_position(t.statics, path@);
                if place < t.statics.len() {
                    law_insert_registers(t.statics[place].node, decl, depth + 1);
                } else {
                    law_insert_registers(TrieView::<H>::empty(), decl, depth + 1);
                }
                assert(after.statics[place].literal == path@ && after.statics[place].node.holds(
                    decl,
                    depth + 1,
                ));
            },
            PathPart::Param { name, param_type } => {
                let place = param_position(t.params, param_type);
                lemma_param_position(t.params, param_type);
                if place < t.params.len() && t.params[place].kind == param_type {
                    law_insert_registers(t.params[place].node, decl, depth + 1);
                } else {
                    law_insert_registers(TrieView::<H>::empty(), decl, depth + 1);
                }
                assert(after.params[place].kind == param_type && after.params[place].node.holds(
                    decl,
                    depth + 1,
                ));
            },
        }
    }
}

} // verus!
