//! What holds of the route table whatever was registered in it.

use crate::dump_tree::DumpView;
use crate::table_model::dump_paths;
use crate::table_model::TableMatch;
use crate::table_model::TableView;
use crate::table_model::zip_params;
use crate::trie_laws::law_compact_keeps_arity;
use crate::trie_laws::law_compact_keeps_methods_exact;
use crate::trie_laws::law_compact_keeps_wf;
use crate::trie_laws::law_compaction_is_transparent;
use crate::trie_laws::law_insert_keeps_arity;
use crate::trie_laws::law_fitting_route_is_found;
use crate::trie_laws::law_insert_keeps_methods_exact;
use crate::trie_laws::law_insert_keeps_pattern;
use crate::trie_laws::law_insert_keeps_registered;
use crate::trie_laws::law_insert_registers;
use crate::trie_laws::law_match_accepts_method;
use crate::trie_laws::law_match_fits_pattern;
use crate::trie_laws::law_insert_keeps_uncompacted;
use crate::trie_laws::law_insert_keeps_wf;
use crate::trie_laws::law_match_arity;
use crate::trie_model::count_params;
use crate::trie_model::pattern_values;
use crate::types::ParamRouteDecl;
use crate::trie_laws::law_insert_keeps_loose_segments;
use crate::trie_laws::law_loose_is_segmented;
use crate::trie_laws::law_methods_exact_is_closed;
use crate::trie_model::loose_parts;
use crate::types::RouteDecl;
use crate::types::StaticRouteDecl;
use vstd::prelude::*;

verus! {

/// A static route comes first: where one stands under the path and the
/// method, a lookup finds its handler, without parameters, whatever the
/// trie holds.
pub proof fn law_static_route_wins<H>(table: TableView<H>, method: Seq<char>, path: Seq<char>)
    requires
        table.static_routes.contains_key((path, method)),
    ensures
        table.lookup(method, path) == Some(
            TableMatch { route: table.static_routes[(path, method)], params: Seq::empty() },
        ),
{
}

/// A static route that was registered is found under its path and each of
/// its methods, whatever was registered before it: the last registration
/// for a path and a method is the one that counts.
pub proof fn law_registered_static_route_is_found<H>(
    table: TableView<H>,
    decl: StaticRouteDecl<H>,
    method: Seq<char>,
)
    requires
        decl.methods@.contains(method),
    ensures
        table.add_static(decl).lookup(method, decl.path@) == Some(
            TableMatch { route: decl.route, params: Seq::empty() },
        ),
{
    assert(table.add_static(decl).static_routes.contains_key((decl.path@, method)));
}

/// A static route leaves alone what stands under other paths and methods.
pub proof fn law_static_route_keeps_others<H>(
    table: TableView<H>,
    decl: StaticRouteDecl<H>,
    method: Seq<char>,
    path: Seq<char>,
)
    requires
        path != decl.path@ || !decl.methods@.contains(method),
    ensures
        table.add_static(decl).lookup(method, path) == table.lookup(method, path),
{
}

/// Every table that the operations make is sound: the empty table is,
/// and registration before the end of registration keeps a table so.
pub proof fn law_registration_keeps_soundness<H>(table: TableView<H>, route: RouteDecl<H>)
    requires
        table.wf(),
        !table.prepared,
    ensures
        table.add(route).wf(),
        TableView::<H>::empty().wf(),
{
    let after = table.add(route);
    match route {
        RouteDecl::Param(decl) => {
            law_insert_keeps_wf(table.trie, decl, decl.parts@);
            law_insert_keeps_methods_exact(table.trie, decl, decl.parts@);
            law_insert_keeps_arity(table.trie, 0, decl, decl.parts@);
            law_insert_keeps_uncompacted(table.trie, decl, decl.parts@);
            assert(decl.parts@.skip(0) =~= decl.parts@);
            law_insert_keeps_pattern(table.trie, 0, decl);
        },
        RouteDecl::Static(decl) => {
            assert forall|key: (Seq<char>, Seq<char>)| #[trigger]
                after.static_routes.contains_key(key) implies after.static_paths.contains(key.0) by {
                if table.static_routes.contains_key(key) {
                    let at = choose|at: int|
                        0 <= at < table.static_paths.len() && table.static_paths[at] == key.0;
                    assert(after.static_paths[at] == key.0);
                } else {
                    assert(key.0 == decl.path@ && decl.methods@.contains(key.1));
                    if table.static_paths.contains(decl.path@) {
                    } else {
                        assert(after.static_paths[table.static_paths.len() as int] == decl.path@);
                    }
                }
            }
            assert forall|i: int, j: int|
                0 <= i < after.static_paths.len() && 0 <= j < after.static_paths.len() && i
                    != j implies after.static_paths[i] != after.static_paths[j] by {
                if i < table.static_paths.len() && j < table.static_paths.len() {
                } else if i < table.static_paths.len() {
                    assert(table.static_paths.contains(table.static_paths[i]));
                } else {
                    assert(table.static_paths.contains(table.static_paths[j]));
                }
            }
        },
    }
    assert(TableView::<H>::empty().trie.wf());
    assert(TableView::<H>::empty().trie.methods_exact());
}

/// The end of registration keeps a table sound.
pub proof fn law_prepare_keeps_soundness<H>(table: TableView<H>)
    requires
        table.wf(),
    ensures
        table.prepare().wf(),
{
    if !table.prepared {
        law_compact_keeps_wf(table.trie);
        law_compact_keeps_methods_exact(table.trie);
        law_compact_keeps_arity(table.trie, 0);
    }
}

/// To end registration twice is to end it once.
pub proof fn law_prepare_is_idempotent<H>(table: TableView<H>)
    ensures
        table.prepare().prepare() == table.prepare(),
        table.prepare().prepared,
{
}

/// The end of registration is not seen in lookups: in a sound table whose
/// literals compaction can join without loss, every method and path finds
/// after `prepare` what it found before.
pub proof fn law_prepare_keeps_lookups<H>(table: TableView<H>, method: Seq<char>, path: Seq<char>)
    requires
        table.wf(),
        table.trie.segmented(),
    ensures
        table.prepare().lookup(method, path) == table.lookup(method, path),
{
    if !table.prepared {
        law_methods_exact_is_closed(table.trie);
        law_compaction_is_transparent(table.trie, method, path);
    }
}

/// Registering routes whose patterns are made of segments, none but the
/// first empty, keeps the table one whose literals are segments, so that
/// the end of registration is not seen in its lookups.
pub proof fn law_registration_keeps_segments<H>(table: TableView<H>, route: RouteDecl<H>)
    requires
        table.trie.loose_segments(),
        match route {
            RouteDecl::Param(decl) => loose_parts(decl.parts@),
            RouteDecl::Static(decl) => true,
        },
    ensures
        table.add(route).trie.loose_segments(),
        table.add(route).trie.segmented(),
        TableView::<H>::empty().trie.loose_segments(),
{
    match route {
        RouteDecl::Param(decl) => {
            law_insert_keeps_loose_segments(table.trie, decl, decl.parts@);
        },
        RouteDecl::Static(decl) => {},
    }
    law_loose_is_segmented(table.add(route).trie);
}

/// A match fits its pattern: before the end of registration, what a sound
/// table finds in its trie is a route that accepts the method and whose
/// pattern fits the path, with the values that the pattern gives the path,
/// each under the name that the route has for it.
pub proof fn law_match_fits_its_pattern<H>(table: TableView<H>, method: Seq<char>, path: Seq<char>)
    requires
        table.wf(),
        !table.prepared,
        !table.static_routes.contains_key((path, method)),
        table.trie.lookup(method, path) is Some,
    ensures
        ({
            let found = table.trie.lookup(method, path)->0;
            &&& found.decl.methods@.contains(method)
            &&& pattern_values(found.decl.parts@, path) == Some(found.args)
            &&& table.lookup(method, path) == Some(
                TableMatch {
                    route: found.decl.route,
                    params: zip_params(found.decl.params@, found.args),
                },
            )
        }),
{
    law_match_accepts_method(table.trie, method, path);
    law_match_fits_pattern(table.trie, 0, method, path);
    let found = table.trie.lookup(method, path)->0;
    assert(found.decl.parts@.skip(0) =~= found.decl.parts@);
}

/// No route is missed: before the end of registration, a route that was
/// registered is found, or a route that comes before it is, for every
/// method that it accepts on every path that its pattern fits.
pub proof fn law_registered_route_is_found<H>(
    table: TableView<H>,
    decl: ParamRouteDecl<H>,
    method: Seq<char>,
    path: Seq<char>,
)
    requires
        table.wf(),
        !table.prepared,
        table.trie.holds(decl, 0),
        decl.methods@.contains(method),
        pattern_values(decl.parts@, path) is Some,
    ensures
        table.lookup(method, path) is Some,
{
    law_methods_exact_is_closed(table.trie);
    assert(decl.parts@.skip(0) =~= decl.parts@);
    law_fitting_route_is_found(table.trie, 0, decl, method, path);
}

/// A registration registers, and keeps registered what was: after it the
/// trie holds the new route behind the edges of its pattern, and every
/// route that it held.
pub proof fn law_registration_registers<H>(
    table: TableView<H>,
    decl: ParamRouteDecl<H>,
    other: ParamRouteDecl<H>,
)
    ensures
        table.add_param(decl).trie.holds(decl, 0),
        table.trie.holds(other, 0) ==> table.add_param(decl).trie.holds(other, 0),
{
    assert(decl.parts@.skip(0) =~= decl.parts@);
    law_insert_registers(table.trie, decl, 0);
    if table.trie.holds(other, 0) {
        law_insert_keeps_registered(table.trie, decl, decl.parts@, other, 0);
    }
}

/// Every name gets its value: where a sound table finds a route in its
/// trie, and the route names as many parameters as its pattern has, the
/// match holds each name of the route, in the order of the pattern, with a
/// value.
pub proof fn law_every_name_gets_a_value<H>(table: TableView<H>, method: Seq<char>, path: Seq<char>)
    requires
        table.wf(),
        !table.static_routes.contains_key((path, method)),
        table.trie.lookup(method, path) is Some,
        table.trie.lookup(method, path)->0.decl.params@.len() == count_params(
            table.trie.lookup(method, path)->0.decl.parts@,
        ),
    ensures
        table.lookup(method, path) is Some,
        table.lookup(method, path)->0.route == table.trie.lookup(method, path)->0.decl.route,
        table.lookup(method, path)->0.params.len() == table.trie.lookup(
            method,
            path,
        )->0.decl.params@.len(),
        forall|i: int|
            0 <= i < table.lookup(method, path)->0.params.len() ==> (#[trigger] table.lookup(
                method,
                path,
            )->0.params[i]) == (
                table.trie.lookup(method, path)->0.decl.params@[i]@,
                table.trie.lookup(method, path)->0.args[i],
            ),
{
    law_match_arity(table.trie, 0, method, path);
}

/// A dump of a sound table draws every static path once: first one
/// childless tree for each static path, no two with the same label and
/// none of a registered route left out, then the dump of the trie.
pub proof fn law_dump_draws_static_paths_once<H>(table: TableView<H>)
    requires
        table.wf(),
    ensures
        table.dump().len() == table.static_paths.len() + table.trie.dump().len(),
        forall|i: int|
            0 <= i < table.static_paths.len() ==> #[trigger] table.dump()[i] == (DumpView {
                label: table.static_paths[i],
                children: Seq::empty(),
            }),
        forall|i: int, j: int|
            0 <= i < j < table.static_paths.len() ==> table.dump()[i].label != table.dump()[j].label,
        forall|key: (Seq<char>, Seq<char>)| #[trigger]
            table.static_routes.contains_key(key) ==> exists|i: int|
                0 <= i < table.static_paths.len() && (#[trigger] table.dump()[i]).label == key.0,
        forall|i: int|
            0 <= i < table.trie.dump().len() ==> #[trigger] table.dump()[table.static_paths.len() + i]
                == table.trie.dump()[i],
{
    assert forall|key: (Seq<char>, Seq<char>)| #[trigger]
        table.static_routes.contains_key(key) implies exists|i: int|
        0 <= i < table.static_paths.len() && (#[trigger] table.dump()[i]).label == key.0 by {
        assert(table.static_paths.contains(key.0));
        let i = choose|i: int| 0 <= i < table.static_paths.len() && table.static_paths[i] == key.0;
        assert(table.dump()[i].label == key.0);
    }
}

} // verus!
