use fast_routing_table::dump_tree::DumpNode;
use fast_routing_table::methods::Methods;
use fast_routing_table::routing_trie::RoutingTrie;
use fast_routing_table::types::ParamParseResult;
use fast_routing_table::types::ParamRouteDecl;
use fast_routing_table::types::ParamRouteKey;
use fast_routing_table::types::ParamType;
use fast_routing_table::types::PathPart;

fn methods(names: &[&str]) -> Methods {
    Methods::from_vec(names.iter().map(|name| name.to_string()).collect())
}

fn lit(text: &str) -> PathPart {
    PathPart::Static { path: text.to_string() }
}

fn par(name: &str, param_type: ParamType) -> PathPart {
    PathPart::Param { name: name.to_string(), param_type }
}

fn route(names: &[&str], path: &str, parts: Vec<PathPart>, handler: u32) -> ParamRouteDecl<u32> {
    let mut params = Vec::new();
    for part in &parts {
        if let PathPart::Param { name, .. } = part {
            params.push(name.clone());
        }
    }
    ParamRouteDecl {
        methods: methods(names),
        path: path.to_string(),
        parts,
        params,
        route: handler,
        key: ParamRouteKey::Param,
    }
}

fn found(trie: &RoutingTrie<u32>, method: &str, path: &str) -> Option<(u32, Vec<ParamParseResult>)> {
    trie.lookup(method, path).map(|(decl, args)| (decl.route, args))
}

fn leaf(label: &str) -> DumpNode {
    DumpNode { label: label.to_string(), children: Vec::new() }
}

fn node(label: &str, children: Vec<DumpNode>) -> DumpNode {
    DumpNode { label: label.to_string(), children }
}

fn sample() -> RoutingTrie<u32> {
    let mut trie = RoutingTrie::new();
    trie.add_route(route(&["GET"], "users/{id:int}", vec![lit("users"), par("id", ParamType::Int)], 1), 0);
    trie.add_route(
        route(&["GET", "POST"], "users/{id:int}/posts", vec![lit("users"), par("id", ParamType::Int), lit("posts")], 2),
        0,
    );
    trie.add_route(route(&["GET"], "users/me", vec![lit("users"), lit("me")], 3), 0);
    trie.add_route(
        route(&["GET"], "api/v1/items/{name:str}", vec![lit("api"), lit("v1"), lit("items"), par("name", ParamType::Str)], 4),
        0,
    );
    trie.add_route(route(&["DELETE"], "users/{id:int}", vec![lit("users"), par("id", ParamType::Int)], 5), 0);
    trie
}

#[test]
fn empty_trie_finds_nothing() {
    let trie: RoutingTrie<u32> = RoutingTrie::new();
    assert!(!trie.is_radix());
    assert_eq!(found(&trie, "GET", ""), None);
    assert_eq!(found(&trie, "GET", "users"), None);
    assert_eq!(trie.dump(), Vec::new());
}

#[test]
fn lookup_walks_literals_and_parameters() {
    let trie = sample();
    assert_eq!(found(&trie, "GET", "users/42"), Some((1, vec![ParamParseResult::Int(42)])));
    assert_eq!(found(&trie, "GET", "users/42/posts"), Some((2, vec![ParamParseResult::Int(42)])));
    assert_eq!(found(&trie, "POST", "users/42/posts"), Some((2, vec![ParamParseResult::Int(42)])));
    assert_eq!(found(&trie, "GET", "users/me"), Some((3, vec![])));
    assert_eq!(
        found(&trie, "GET", "api/v1/items/widget"),
        Some((4, vec![ParamParseResult::Str("widget".to_string())]))
    );
    assert_eq!(found(&trie, "DELETE", "users/42"), Some((5, vec![ParamParseResult::Int(42)])));
}

#[test]
fn lookup_fails_silently() {
    let trie = sample();
    assert_eq!(found(&trie, "GET", ""), None);
    assert_eq!(found(&trie, "GET", "users"), None);
    assert_eq!(found(&trie, "GET", "users/abc"), None);
    assert_eq!(found(&trie, "GET", "users/42/comments"), None);
    assert_eq!(found(&trie, "GET", "users/42/posts/7"), None);
    assert_eq!(found(&trie, "PUT", "users/42"), None);
    assert_eq!(found(&trie, "POST", "users/42"), None);
    assert_eq!(found(&trie, "DELETE", "users/me"), None);
    assert_eq!(found(&trie, "GET", "api/v1/items"), None);
    assert_eq!(found(&trie, "GET", "api/v2/items/widget"), None);
    assert_eq!(found(&trie, "GET", "apix/v1/items/widget"), None);
}

#[test]
fn first_leaf_that_accepts_the_method_wins() {
    let mut trie = RoutingTrie::new();
    trie.add_route(route(&["GET"], "a", vec![lit("a")], 1), 0);
    trie.add_route(route(&["GET", "POST"], "a", vec![lit("a")], 2), 0);
    assert_eq!(found(&trie, "GET", "a"), Some((1, vec![])));
    assert_eq!(found(&trie, "POST", "a"), Some((2, vec![])));
}

#[test]
fn literal_edge_comes_before_parameter_edges() {
    let mut trie = RoutingTrie::new();
    trie.add_route(route(&["GET"], "users/{name:str}", vec![lit("users"), par("name", ParamType::Str)], 1), 0);
    trie.add_route(route(&["GET"], "users/me", vec![lit("users"), lit("me")], 2), 0);
    assert_eq!(found(&trie, "GET", "users/me"), Some((2, vec![])));
    assert_eq!(found(&trie, "GET", "users/you"), Some((1, vec![ParamParseResult::Str("you".to_string())])));
}

#[test]
fn literal_edge_that_leads_nowhere_falls_back_to_parameters() {
    let mut trie = RoutingTrie::new();
    trie.add_route(route(&["GET"], "{a:str}/x", vec![par("a", ParamType::Str), lit("x")], 1), 0);
    trie.add_route(route(&["GET"], "me/y", vec![lit("me"), lit("y")], 2), 0);
    assert_eq!(found(&trie, "GET", "me/y"), Some((2, vec![])));
    assert_eq!(found(&trie, "GET", "me/x"), Some((1, vec![ParamParseResult::Str("me".to_string())])));
}

#[test]
fn type_tie_break_prefers_int() {
    let mut trie = RoutingTrie::new();
    trie.add_route(route(&["GET"], "{s:str}", vec![par("s", ParamType::Str)], 3), 0);
    trie.add_route(route(&["GET"], "{f:float}", vec![par("f", ParamType::Float)], 2), 0);
    trie.add_route(route(&["GET"], "{n:int}", vec![par("n", ParamType::Int)], 1), 0);
    assert_eq!(found(&trie, "GET", "42"), Some((1, vec![ParamParseResult::Int(42)])));
    assert_eq!(found(&trie, "GET", "4.2"), Some((2, vec![ParamParseResult::Float("4.2".to_string())])));
    assert_eq!(found(&trie, "GET", "forty"), Some((3, vec![ParamParseResult::Str("forty".to_string())])));
}

#[test]
fn type_that_matches_too_early_is_passed_over() {
    let mut trie = RoutingTrie::new();
    trie.add_route(route(&["GET"], "{n:int}/a", vec![par("n", ParamType::Int), lit("a")], 1), 0);
    trie.add_route(route(&["GET"], "{s:str}/b", vec![par("s", ParamType::Str), lit("b")], 2), 0);
    assert_eq!(found(&trie, "GET", "42/a"), Some((1, vec![ParamParseResult::Int(42)])));
    assert_eq!(found(&trie, "GET", "42/b"), Some((2, vec![ParamParseResult::Str("42".to_string())])));
    assert_eq!(found(&trie, "GET", "42/c"), None);
}

#[test]
fn catch_all_matches_only_when_no_stricter_sibling_does() {
    let mut trie = RoutingTrie::new();
    trie.add_route(route(&["GET"], "files/{p:path}", vec![lit("files"), par("p", ParamType::Path)], 9), 0);
    trie.add_route(route(&["GET"], "files/{n:int}", vec![lit("files"), par("n", ParamType::Int)], 1), 0);
    trie.add_route(route(&["POST"], "files/{s:str}", vec![lit("files"), par("s", ParamType::Str)], 3), 0);
    assert_eq!(found(&trie, "GET", "files/7"), Some((1, vec![ParamParseResult::Int(7)])));
    assert_eq!(found(&trie, "GET", "files/readme"), Some((9, vec![ParamParseResult::Path("readme".to_string())])));
    assert_eq!(found(&trie, "POST", "files/readme"), Some((3, vec![ParamParseResult::Str("readme".to_string())])));
}

#[test]
fn a_parameter_takes_one_segment() {
    let mut trie = RoutingTrie::new();
    trie.add_route(route(&["GET"], "{p:path}", vec![par("p", ParamType::Path)], 1), 0);
    assert_eq!(found(&trie, "GET", "abc"), Some((1, vec![ParamParseResult::Path("abc".to_string())])));
    assert_eq!(found(&trie, "GET", "abc/def"), None);
    assert_eq!(found(&trie, "GET", "abc/"), Some((1, vec![ParamParseResult::Path("abc".to_string())])));
}

#[test]
fn parameter_values_come_in_the_order_of_the_pattern() {
    let mut trie = RoutingTrie::new();
    trie.add_route(
        route(
            &["GET"],
            "orgs/{org:str}/repos/{repo:str}/issues/{n:int}",
            vec![
                lit("orgs"),
                par("org", ParamType::Str),
                lit("repos"),
                par("repo", ParamType::Str),
                lit("issues"),
                par("n", ParamType::Int),
            ],
            1,
        ),
        0,
    );
    let expected = Some((
        1,
        vec![
            ParamParseResult::Str("acme".to_string()),
            ParamParseResult::Str("widget".to_string()),
            ParamParseResult::Int(7),
        ],
    ));
    assert_eq!(found(&trie, "GET", "orgs/acme/repos/widget/issues/7"), expected);
    trie.prepare_trie();
    assert_eq!(found(&trie, "GET", "orgs/acme/repos/widget/issues/7"), expected);
}

#[test]
fn method_that_no_route_accepts_is_pruned() {
    let mut trie = RoutingTrie::new();
    trie.add_route(route(&["GET"], "a/b", vec![lit("a"), lit("b")], 1), 0);
    assert_eq!(found(&trie, "GET", "a/b"), Some((1, vec![])));
    assert_eq!(found(&trie, "POST", "a/b"), None);
    trie.prepare_trie();
    assert_eq!(found(&trie, "GET", "a/b"), Some((1, vec![])));
    assert_eq!(found(&trie, "POST", "a/b"), None);
}

#[test]
fn route_without_parts_matches_the_empty_path() {
    let mut trie = RoutingTrie::new();
    trie.add_route(route(&["GET"], "", vec![], 1), 0);
    assert_eq!(found(&trie, "GET", ""), Some((1, vec![])));
    assert_eq!(found(&trie, "POST", ""), None);
    assert_eq!(found(&trie, "GET", "a"), None);
    trie.prepare_trie();
    assert_eq!(found(&trie, "GET", ""), Some((1, vec![])));
    assert_eq!(found(&trie, "GET", "a"), None);
}

#[test]
fn add_route_from_a_later_part_registers_the_rest_of_the_pattern() {
    let mut trie = RoutingTrie::new();
    trie.add_route(route(&["GET"], "a/b/{n:int}", vec![lit("a"), lit("b"), par("n", ParamType::Int)], 1), 2);
    assert_eq!(found(&trie, "GET", "5"), Some((1, vec![ParamParseResult::Int(5)])));
    assert_eq!(found(&trie, "GET", "a/b/5"), None);
    let mut at_end = RoutingTrie::new();
    at_end.add_route(route(&["GET"], "a", vec![lit("a")], 2), 1);
    assert_eq!(found(&at_end, "GET", ""), Some((2, vec![])));
}

#[test]
fn uuid_parameter_parses_to_the_value() {
    let mut trie = RoutingTrie::new();
    trie.add_route(route(&["GET"], "items/{id:uuid}", vec![lit("items"), par("id", ParamType::UUID)], 1), 0);
    assert_eq!(
        found(&trie, "GET", "items/550e8400-e29b-41d4-a716-446655440000"),
        Some((1, vec![ParamParseResult::UUID(0x550e8400_e29b_41d4_a716_446655440000)]))
    );
    assert_eq!(found(&trie, "GET", "items/550e8400-e29b-41d4-a716-44665544"), None);
    assert_eq!(found(&trie, "GET", "items/zzzzzzzz-e29b-41d4-a716-446655440000"), None);
}

#[test]
fn compaction_joins_chains_of_single_literal_edges() {
    let mut trie = sample();
    trie.prepare_trie();
    assert!(!trie.is_radix());
    assert_eq!(
        trie.dump(),
        vec![
            node(
                "users",
                vec![leaf("me"), node("{int}", vec![leaf("posts")])],
            ),
            node("api", vec![node("v1/items", vec![leaf("{str}")])]),
        ]
    );
    assert_eq!(
        found(&trie, "GET", "api/v1/items/widget"),
        Some((4, vec![ParamParseResult::Str("widget".to_string())]))
    );
}

#[test]
fn compaction_of_a_lone_chain_makes_the_root_an_edge() {
    let mut trie = RoutingTrie::new();
    trie.add_route(
        route(&["GET"], "api/v1/items/{n:int}", vec![lit("api"), lit("v1"), lit("items"), par("n", ParamType::Int)], 1),
        0,
    );
    assert_eq!(
        trie.dump(),
        vec![node("api", vec![node("v1", vec![node("items", vec![leaf("{int}")])])])]
    );
    trie.prepare_trie();
    assert!(trie.is_radix());
    assert_eq!(trie.dump(), vec![node("api/v1/items", vec![leaf("{int}")])]);
    assert_eq!(found(&trie, "GET", "api/v1/items/3"), Some((1, vec![ParamParseResult::Int(3)])));
    assert_eq!(found(&trie, "GET", "api/v1/items"), None);
    assert_eq!(found(&trie, "GET", "api/v1/itemsX/3"), None);
    assert_eq!(found(&trie, "GET", "api/v1"), None);
    assert_eq!(found(&trie, "GET", "api"), None);
}

#[test]
fn compaction_is_not_seen_in_lookups() {
    let probes = [
        "", "users", "users/42", "users/42/posts", "users/me", "users/abc", "users/42/x",
        "api", "api/v1", "api/v1/items", "api/v1/items/widget", "api/v1/items/widget/x",
        "api/v1/itemsX/widget", "apix/v1/items/widget", "users/", "/users/42", "api/v1/items/",
    ];
    let plain = sample();
    let mut compacted = sample();
    compacted.prepare_trie();
    for method in ["GET", "POST", "DELETE", "PUT"] {
        for path in probes {
            assert_eq!(found(&compacted, method, path), found(&plain, method, path), "{} {:?}", method, path);
        }
    }
}

#[test]
fn compaction_with_a_leading_empty_segment() {
    let build = || {
        let mut trie = RoutingTrie::new();
        trie.add_route(route(&["GET"], "/users/{id:int}", vec![lit(""), lit("users"), par("id", ParamType::Int)], 1), 0);
        trie.add_route(route(&["GET"], "/", vec![lit("")], 2), 0);
        trie
    };
    let plain = build();
    let mut compacted = build();
    compacted.prepare_trie();
    assert_eq!(found(&plain, "GET", "/users/7"), Some((1, vec![ParamParseResult::Int(7)])));
    assert_eq!(found(&plain, "GET", "/"), Some((2, vec![])));
    for path in ["", "/", "/users", "/users/7", "/users/7/", "users/7", "//users/7", "/users/x"] {
        assert_eq!(found(&compacted, "GET", path), found(&plain, "GET", path), "{:?}", path);
    }
}

#[test]
fn literal_that_is_no_segment_is_reached_only_along_a_compacted_edge() {
    let mut trie = RoutingTrie::new();
    trie.add_route(route(&["GET"], "a/b", vec![lit("a/b")], 1), 0);
    assert_eq!(found(&trie, "GET", "a/b"), None);
    trie.prepare_trie();
    assert_eq!(found(&trie, "GET", "a/b"), Some((1, vec![])));
}

#[test]
fn empty_literal_at_the_end_of_a_chain_is_joined_to_a_bare_slash() {
    let mut trie = RoutingTrie::new();
    trie.add_route(route(&["GET"], "x//", vec![lit("x"), lit("")], 1), 0);
    assert_eq!(found(&trie, "GET", "x//"), Some((1, vec![])));
    assert_eq!(found(&trie, "GET", "x/"), None);
    trie.prepare_trie();
    assert_eq!(trie.dump(), vec![leaf("x/")]);
    assert_eq!(found(&trie, "GET", "x//"), Some((1, vec![])));
    assert_eq!(found(&trie, "GET", "x/"), Some((1, vec![])));
}

#[test]
fn dump_draws_literals_in_order_of_registration_and_types_in_their_order() {
    let mut trie = RoutingTrie::new();
    trie.add_route(route(&["GET"], "b", vec![lit("b")], 1), 0);
    trie.add_route(route(&["GET"], "{p:path}", vec![par("p", ParamType::Path)], 2), 0);
    trie.add_route(route(&["GET"], "a/x", vec![lit("a"), lit("x")], 3), 0);
    trie.add_route(route(&["GET"], "{u:uuid}", vec![par("u", ParamType::UUID)], 4), 0);
    trie.add_route(route(&["GET"], "{f:float}/y", vec![par("f", ParamType::Float), lit("y")], 5), 0);
    trie.add_route(route(&["GET"], "b/z", vec![lit("b"), lit("z")], 6), 0);
    assert_eq!(
        trie.dump(),
        vec![
            node("b", vec![leaf("z")]),
            node("a", vec![leaf("x")]),
            leaf("{uuid}"),
            node("{float}", vec![leaf("y")]),
            leaf("{path}"),
        ]
    );
}
