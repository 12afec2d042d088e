use fast_routing_table::dump_tree::DumpNode;
use fast_routing_table::fast_routing_table::FastRoutingTable;
use fast_routing_table::fast_routing_table::UsageError;
use fast_routing_table::methods::Methods;
use fast_routing_table::types::ParamParseResult;
use fast_routing_table::types::ParamRouteDecl;
use fast_routing_table::types::ParamRouteKey;
use fast_routing_table::types::ParamType;
use fast_routing_table::types::PathPart;
use fast_routing_table::types::RouteDecl;
use fast_routing_table::types::StaticRouteDecl;
use fast_routing_table::types::StaticRouteKey;

fn methods(names: &[&str]) -> Methods {
    Methods::from_vec(names.iter().map(|name| name.to_string()).collect())
}

fn lit(text: &str) -> PathPart {
    PathPart::Static { path: text.to_string() }
}

fn par(name: &str, param_type: ParamType) -> PathPart {
    PathPart::Param { name: name.to_string(), param_type }
}

fn fixed(names: &[&str], path: &str, handler: &'static str) -> RouteDecl<&'static str> {
    RouteDecl::Static(StaticRouteDecl {
        methods: methods(names),
        path: path.to_string(),
        route: handler,
        key: StaticRouteKey::Static,
    })
}

fn pattern(names: &[&str], path: &str, parts: Vec<PathPart>, handler: &'static str) -> RouteDecl<&'static str> {
    let mut params = Vec::new();
    for part in &parts {
        if let PathPart::Param { name, .. } = part {
            params.push(name.clone());
        }
    }
    RouteDecl::Param(ParamRouteDecl {
        methods: methods(names),
        path: path.to_string(),
        parts,
        params,
        route: handler,
        key: ParamRouteKey::Param,
    })
}

fn found(
    table: &FastRoutingTable<&'static str>,
    method: &str,
    path: &str,
) -> Option<(&'static str, Vec<(String, ParamParseResult)>)> {
    table.lookup(method, path).map(|(handler, params)| (*handler, params))
}

fn named(name: &str, value: ParamParseResult) -> (String, ParamParseResult) {
    (name.to_string(), value)
}

fn leaf(label: &str) -> DumpNode {
    DumpNode { label: label.to_string(), children: Vec::new() }
}

fn node(label: &str, children: Vec<DumpNode>) -> DumpNode {
    DumpNode { label: label.to_string(), children }
}

fn sample() -> FastRoutingTable<&'static str> {
    let mut table = FastRoutingTable::new();
    table.add_route(fixed(&["GET"], "health", "health")).unwrap();
    table.add_route(fixed(&["GET", "POST"], "users", "users")).unwrap();
    table
        .add_route(pattern(&["GET"], "users/{id:int}", vec![lit("users"), par("id", ParamType::Int)], "user"))
        .unwrap();
    table
        .add_route(pattern(
            &["GET"],
            "orgs/{org:str}/repos/{repo:str}/issues/{n:int}",
            vec![
                lit("orgs"),
                par("org", ParamType::Str),
                lit("repos"),
                par("repo", ParamType::Str),
                lit("issues"),
                par("n", ParamType::Int),
            ],
            "issue",
        ))
        .unwrap();
    table
        .add_route(pattern(&["GET"], "items/{id:uuid}", vec![lit("items"), par("id", ParamType::UUID)], "item"))
        .unwrap();
    table
}

fn shareable<T: Send + Sync>() {}

#[test]
fn table_can_be_shared_by_readers() {
    shareable::<FastRoutingTable<&'static str>>();
    shareable::<FastRoutingTable<u64>>();
}

#[test]
fn new_table_is_unprepared_and_empty() {
    let table: FastRoutingTable<&'static str> = FastRoutingTable::new();
    assert!(!table.is_prepared());
    assert_eq!(found(&table, "GET", ""), None);
    assert_eq!(found(&table, "GET", "users"), None);
    assert_eq!(table.dump(), Vec::new());
}

#[test]
fn lookup_is_repeatable() {
    let mut table = sample();
    table.prepare();
    for (method, path) in [("GET", "users/42"), ("GET", "health"), ("PUT", "users"), ("GET", "nothing/here")] {
        let first = found(&table, method, path);
        let second = found(&table, method, path);
        let third = found(&table, method, path);
        assert_eq!(first, second);
        assert_eq!(second, third);
    }
}

#[test]
fn static_route_is_found_without_parameters() {
    let table = sample();
    assert_eq!(found(&table, "GET", "health"), Some(("health", vec![])));
    assert_eq!(found(&table, "GET", "users"), Some(("users", vec![])));
    assert_eq!(found(&table, "POST", "users"), Some(("users", vec![])));
    assert_eq!(found(&table, "POST", "health"), None);
    assert_eq!(found(&table, "GET", "healthz"), None);
    assert_eq!(found(&table, "GET", "health/"), None);
}

#[test]
fn static_route_wins_over_a_pattern() {
    let mut table = FastRoutingTable::new();
    table
        .add_route(pattern(&["GET"], "users/{name:str}", vec![lit("users"), par("name", ParamType::Str)], "by name"))
        .unwrap();
    table.add_route(pattern(&["GET"], "users/me", vec![lit("users"), lit("me")], "me in trie")).unwrap();
    table.add_route(fixed(&["GET"], "users/me", "me")).unwrap();
    assert_eq!(found(&table, "GET", "users/me"), Some(("me", vec![])));
    assert_eq!(
        found(&table, "GET", "users/you"),
        Some(("by name", vec![named("name", ParamParseResult::Str("you".to_string()))]))
    );
    table.prepare();
    assert_eq!(found(&table, "GET", "users/me"), Some(("me", vec![])));
}

#[test]
fn static_route_for_another_method_leaves_the_pattern_in_charge() {
    let mut table = FastRoutingTable::new();
    table
        .add_route(pattern(&["GET", "POST"], "users/{name:str}", vec![lit("users"), par("name", ParamType::Str)], "by name"))
        .unwrap();
    table.add_route(fixed(&["GET"], "users/me", "me")).unwrap();
    assert_eq!(found(&table, "GET", "users/me"), Some(("me", vec![])));
    assert_eq!(
        found(&table, "POST", "users/me"),
        Some(("by name", vec![named("name", ParamParseResult::Str("me".to_string()))]))
    );
}

#[test]
fn later_static_route_replaces_the_earlier_one() {
    let mut table = FastRoutingTable::new();
    table.add_route(fixed(&["GET", "POST"], "a", "first")).unwrap();
    table.add_route(fixed(&["GET"], "a", "second")).unwrap();
    assert_eq!(found(&table, "GET", "a"), Some(("second", vec![])));
    assert_eq!(found(&table, "POST", "a"), Some(("first", vec![])));
    assert_eq!(table.dump(), vec![leaf("a")]);
}

#[test]
fn static_route_without_methods_is_never_found() {
    let mut table = FastRoutingTable::new();
    table.add_route(fixed(&[], "a", "nobody")).unwrap();
    assert_eq!(found(&table, "GET", "a"), None);
    assert_eq!(table.dump(), Vec::new());
}

#[test]
fn type_tie_break_prefers_int_in_the_table() {
    let mut table = FastRoutingTable::new();
    table.add_route(pattern(&["GET"], "v/{s:str}", vec![lit("v"), par("s", ParamType::Str)], "str")).unwrap();
    table.add_route(pattern(&["GET"], "v/{f:float}", vec![lit("v"), par("f", ParamType::Float)], "float")).unwrap();
    table.add_route(pattern(&["GET"], "v/{n:int}", vec![lit("v"), par("n", ParamType::Int)], "int")).unwrap();
    assert_eq!(found(&table, "GET", "v/42"), Some(("int", vec![named("n", ParamParseResult::Int(42))])));
    table.prepare();
    assert_eq!(found(&table, "GET", "v/42"), Some(("int", vec![named("n", ParamParseResult::Int(42))])));
    assert_eq!(
        found(&table, "GET", "v/4.5"),
        Some(("float", vec![named("f", ParamParseResult::Float("4.5".to_string()))]))
    );
}

#[test]
fn parameters_come_by_name_in_the_order_of_the_pattern() {
    let mut table = sample();
    let expected = Some((
        "issue",
        vec![
            named("org", ParamParseResult::Str("acme".to_string())),
            named("repo", ParamParseResult::Str("widget".to_string())),
            named("n", ParamParseResult::Int(7)),
        ],
    ));
    assert_eq!(found(&table, "GET", "orgs/acme/repos/widget/issues/7"), expected);
    table.prepare();
    assert_eq!(found(&table, "GET", "orgs/acme/repos/widget/issues/7"), expected);
}

#[test]
fn names_without_values_and_values_without_names_are_left_out() {
    let mut table = FastRoutingTable::new();
    table
        .add_route(RouteDecl::Param(ParamRouteDecl {
            methods: methods(&["GET"]),
            path: "a/{x:int}/{y:int}".to_string(),
            parts: vec![lit("a"), par("x", ParamType::Int), par("y", ParamType::Int)],
            params: vec!["x".to_string()],
            route: "short",
            key: ParamRouteKey::Param,
        }))
        .unwrap();
    table
        .add_route(RouteDecl::Param(ParamRouteDecl {
            methods: methods(&["GET"]),
            path: "b/{x:int}".to_string(),
            parts: vec![lit("b"), par("x", ParamType::Int)],
            params: vec!["x".to_string(), "y".to_string()],
            route: "long",
            key: ParamRouteKey::Param,
        }))
        .unwrap();
    assert_eq!(found(&table, "GET", "a/1/2"), Some(("short", vec![named("x", ParamParseResult::Int(1))])));
    assert_eq!(found(&table, "GET", "b/1"), Some(("long", vec![named("x", ParamParseResult::Int(1))])));
}

#[test]
fn method_pruning() {
    let mut table = FastRoutingTable::new();
    table.add_route(pattern(&["GET"], "a/b", vec![lit("a"), lit("b")], "ab")).unwrap();
    assert_eq!(found(&table, "GET", "a/b"), Some(("ab", vec![])));
    assert_eq!(found(&table, "POST", "a/b"), None);
    let mut fixed_only = FastRoutingTable::new();
    fixed_only.add_route(fixed(&["GET"], "a/b", "ab")).unwrap();
    assert_eq!(found(&fixed_only, "GET", "a/b"), Some(("ab", vec![])));
    assert_eq!(found(&fixed_only, "POST", "a/b"), None);
}

#[test]
fn prepare_is_not_seen_in_lookups() {
    let probes = [
        "", "health", "users", "users/42", "users/x", "users/42/", "items",
        "items/550e8400-e29b-41d4-a716-446655440000", "items/550e8400",
        "orgs/acme/repos/widget/issues/7", "orgs/acme/repos/widget/issues/x",
        "orgs/acme/repos/widget/issues", "orgs/acme/repos/widget", "orgs/acme", "orgs",
    ];
    let plain = sample();
    let mut prepared = sample();
    prepared.prepare();
    assert!(prepared.is_prepared());
    for method in ["GET", "POST", "PUT"] {
        for path in probes {
            assert_eq!(found(&prepared, method, path), found(&plain, method, path), "{} {:?}", method, path);
        }
    }
}

#[test]
fn prepare_twice_is_prepare_once() {
    let mut once = sample();
    once.prepare();
    let mut twice = sample();
    twice.prepare();
    twice.prepare();
    assert!(twice.is_prepared());
    assert_eq!(twice.dump(), once.dump());
    assert_eq!(found(&twice, "GET", "users/42"), found(&once, "GET", "users/42"));
}

#[test]
fn add_route_after_prepare_is_a_usage_error() {
    let mut table = sample();
    table.prepare();
    let before = table.dump();
    assert_eq!(table.add_route(fixed(&["GET"], "late", "late")), Err(UsageError::AlreadyPrepared));
    assert_eq!(
        table.add_route(pattern(&["GET"], "late/{n:int}", vec![lit("late"), par("n", ParamType::Int)], "late")),
        Err(UsageError::AlreadyPrepared)
    );
    assert_eq!(table.dump(), before);
    assert_eq!(found(&table, "GET", "late"), None);
    assert_eq!(found(&table, "GET", "late/1"), None);
    assert_eq!(found(&table, "GET", "users/42"), Some(("user", vec![named("id", ParamParseResult::Int(42))])));
    assert_eq!(found(&table, "GET", "health"), Some(("health", vec![])));
}

#[test]
fn add_route_before_prepare_succeeds() {
    let mut table = FastRoutingTable::new();
    assert_eq!(table.add_route(fixed(&["GET"], "a", "a")), Ok(()));
    assert_eq!(table.add_route(pattern(&["GET"], "b", vec![lit("b")], "b")), Ok(()));
}

#[test]
fn empty_path_matches_a_static_route() {
    let mut table = FastRoutingTable::new();
    table.add_route(fixed(&["GET"], "", "root")).unwrap();
    assert_eq!(found(&table, "GET", ""), Some(("root", vec![])));
    assert_eq!(found(&table, "POST", ""), None);
    table.prepare();
    assert_eq!(found(&table, "GET", ""), Some(("root", vec![])));
}

#[test]
fn empty_path_matches_a_pattern_without_segments() {
    let mut table = FastRoutingTable::new();
    table.add_route(pattern(&["GET"], "", vec![], "root")).unwrap();
    assert_eq!(found(&table, "GET", ""), Some(("root", vec![])));
    table.prepare();
    assert_eq!(found(&table, "GET", ""), Some(("root", vec![])));
    assert_eq!(found(&table, "GET", "x"), None);
}

#[test]
fn uuid_parameter_in_the_table() {
    let mut table = sample();
    table.prepare();
    assert_eq!(
        found(&table, "GET", "items/550e8400-e29b-41d4-a716-446655440000"),
        Some((
            "item",
            vec![named("id", ParamParseResult::UUID(0x550e8400_e29b_41d4_a716_446655440000))]
        ))
    );
    assert_eq!(found(&table, "GET", "items/550e8400-e29b-41d4-a716-44665544000"), None);
    assert_eq!(found(&table, "GET", "items/not-a-uuid"), None);
}

#[test]
fn dump_draws_static_paths_then_the_trie() {
    let mut table = sample();
    assert_eq!(
        table.dump(),
        vec![
            leaf("health"),
            leaf("users"),
            node("users", vec![leaf("{int}")]),
            node(
                "orgs",
                vec![node("{str}", vec![node("repos", vec![node("{str}", vec![node("issues", vec![leaf("{int}")])])])])],
            ),
            node("items", vec![leaf("{uuid}")]),
        ]
    );
    table.prepare();
    assert_eq!(
        table.dump(),
        vec![
            leaf("health"),
            leaf("users"),
            node("users", vec![leaf("{int}")]),
            node(
                "orgs",
                vec![node("{str}", vec![node("repos", vec![node("{str}", vec![node("issues", vec![leaf("{int}")])])])])],
            ),
            node("items", vec![leaf("{uuid}")]),
        ]
    );
}

#[test]
fn dump_after_prepare_joins_the_literals_of_a_chain() {
    let mut table = FastRoutingTable::new();
    table
        .add_route(pattern(
            &["GET"],
            "api/v1/items/{n:int}/tags/all",
            vec![lit("api"), lit("v1"), lit("items"), par("n", ParamType::Int), lit("tags"), lit("all")],
            "tags",
        ))
        .unwrap();
    table.add_route(fixed(&["GET"], "api/v1/ping", "ping")).unwrap();
    table.prepare();
    assert_eq!(
        table.dump(),
        vec![leaf("api/v1/ping"), node("api/v1/items", vec![node("{int}", vec![leaf("tags/all")])])]
    );
    assert_eq!(
        found(&table, "GET", "api/v1/items/3/tags/all"),
        Some(("tags", vec![named("n", ParamParseResult::Int(3))]))
    );
    assert_eq!(found(&table, "GET", "api/v1/items/3/tags"), None);
    assert_eq!(found(&table, "GET", "api/v1/ping"), Some(("ping", vec![])));
}
