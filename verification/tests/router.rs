use astor::{Method, RouteError, RouteMatch, Router};

type App = Router<&'static str, u32>;

fn ok(r: Result<App, RouteError>) -> App {
    match r {
        Ok(r) => r,
        Err(e) => panic!("route `{}` refused: {:?}", e.path, e.cause),
    }
}

fn refused(r: Result<App, RouteError>) -> RouteError {
    match r {
        Ok(_) => panic!("route accepted"),
        Err(e) => e,
    }
}

fn chain_of(m: &RouteMatch<'_, &'static str, u32>) -> Vec<u32> {
    m.chain.iter().map(|x| **x).collect()
}

fn params_of(m: &RouteMatch<'_, &'static str, u32>) -> Vec<(String, String)> {
    m.params.clone()
}

#[test]
fn empty_router_finds_nothing() {
    let app: App = Router::new();
    assert!(app.lookup(Method::Get, "/").is_none());
    assert!(app.lookup(Method::Post, "/users").is_none());
}

#[test]
fn default_router_is_empty() {
    let app: App = Router::default();
    assert!(app.lookup(Method::Get, "/health").is_none());
}

#[test]
fn static_route_found_with_handler_and_chain() {
    let app = ok(Router::new().on(Method::Get, "/health", "health", ()));
    let m = app.lookup(Method::Get, "/health").expect("route");
    assert_eq!(*m.handler, "health");
    assert!(chain_of(&m).is_empty());
    assert!(params_of(&m).is_empty());
}

#[test]
fn root_route_found() {
    let app = ok(Router::new().on(Method::Get, "/", "root", ()));
    assert_eq!(*app.lookup(Method::Get, "/").expect("route").handler, "root");
    assert!(app.lookup(Method::Get, "/x").is_none());
}

#[test]
fn trailing_slash_is_another_path() {
    let app = ok(Router::new().on(Method::Get, "/users", "list", ()));
    assert!(app.lookup(Method::Get, "/users/").is_none());
    assert!(app.lookup(Method::Get, "/user").is_none());
}

#[test]
fn param_route_captures_value() {
    let app = ok(Router::new().on(Method::Get, "/users/{id}", "get_user", ()));
    let m = app.lookup(Method::Get, "/users/42").expect("route");
    assert_eq!(*m.handler, "get_user");
    assert_eq!(params_of(&m), vec![("id".to_string(), "42".to_string())]);
    assert!(app.lookup(Method::Get, "/users").is_none());
}

#[test]
fn two_params_in_order() {
    let app = ok(Router::new().on(Method::Get, "/orgs/{org}/repos/{repo}", "repo", ()));
    let m = app.lookup(Method::Get, "/orgs/acme/repos/astor").expect("route");
    assert_eq!(
        params_of(&m),
        vec![("org".to_string(), "acme".to_string()), ("repo".to_string(), "astor".to_string())]
    );
}

#[test]
fn catch_all_takes_the_rest() {
    let app = ok(Router::new().on(Method::Get, "/files/{*path}", "files", ()));
    let m = app.lookup(Method::Get, "/files/css/site.css").expect("route");
    assert_eq!(params_of(&m), vec![("path".to_string(), "css/site.css".to_string())]);
}

#[test]
fn static_segment_beats_parameter() {
    let app = ok(ok(Router::new().on(Method::Get, "/users/{id}", "by_id", ()))
        .on(Method::Get, "/users/me", "me", ()));
    let me = app.lookup(Method::Get, "/users/me").expect("route");
    assert_eq!(*me.handler, "me");
    assert!(params_of(&me).is_empty());
    let other = app.lookup(Method::Get, "/users/7").expect("route");
    assert_eq!(*other.handler, "by_id");
}

#[test]
fn methods_have_separate_trees() {
    let app = ok(ok(Router::new().on(Method::Get, "/users", "list", ()))
        .on(Method::Post, "/users", "create", ()));
    assert_eq!(*app.lookup(Method::Get, "/users").expect("route").handler, "list");
    assert_eq!(*app.lookup(Method::Post, "/users").expect("route").handler, "create");
    assert!(app.lookup(Method::Delete, "/users").is_none());
}

#[test]
fn same_method_and_path_twice_is_refused() {
    let app = ok(Router::new().on(Method::Get, "/a", "first", ()));
    let e = refused(app.on(Method::Get, "/a", "second", ()));
    assert_eq!(e.path, "/a");
}

#[test]
fn same_path_other_method_is_accepted() {
    let app = ok(Router::new().on(Method::Get, "/a", "get", ()));
    let app = ok(app.on(Method::Put, "/a", "put", ()));
    assert_eq!(*app.lookup(Method::Put, "/a").expect("route").handler, "put");
}

#[test]
fn renamed_parameter_conflicts() {
    let app = ok(Router::new().on(Method::Get, "/u/{id}", "a", ()));
    let e = refused(app.on(Method::Get, "/u/{name}", "b", ()));
    assert_eq!(e.path, "/u/{name}");
}

#[test]
fn malformed_patterns_are_refused() {
    let app: App = Router::new();
    refused(app.on(Method::Get, "/u/{", "a", ()));
    let app: App = Router::new();
    refused(app.on(Method::Get, "/u/{}", "a", ()));
    let app: App = Router::new();
    refused(app.on(Method::Get, "/u/{*rest}/more", "a", ()));
}

#[test]
fn global_then_extra_middleware_order() {
    let app = ok(Router::new().middleware(1).middleware(2).on(Method::Get, "/x", "x", (3, 4)));
    let m = app.lookup(Method::Get, "/x").expect("route");
    assert_eq!(chain_of(&m), vec![1, 2, 3, 4]);
}

#[test]
fn single_extra_middleware() {
    let app = ok(Router::new().middleware(1).on(Method::Put, "/users/{id}", "update", (9,)));
    let m = app.lookup(Method::Put, "/users/5").expect("route");
    assert_eq!(chain_of(&m), vec![1, 9]);
}

#[test]
fn five_extra_middleware_keep_order() {
    let app = ok(Router::new().on(Method::Get, "/x", "x", (5, 4, 3, 2, 1)));
    let m = app.lookup(Method::Get, "/x").expect("route");
    assert_eq!(chain_of(&m), vec![5, 4, 3, 2, 1]);
}

#[test]
fn middleware_reaches_only_later_routes() {
    let app = ok(Router::new().on(Method::Get, "/before", "before", ()));
    let app = ok(app.middleware(7).on(Method::Get, "/after", "after", ()));
    let before = app.lookup(Method::Get, "/before").expect("route");
    assert!(chain_of(&before).is_empty());
    let after = app.lookup(Method::Get, "/after").expect("route");
    assert_eq!(chain_of(&after), vec![7]);
}

#[test]
fn merge_keeps_each_chain() {
    let public = ok(Router::new().on(Method::Get, "/health", "health", ()));
    let users = ok(Router::new().middleware(10).on(Method::Get, "/users", "list", ()));
    let users = ok(users.on(Method::Delete, "/users/{id}", "delete", (11,)));
    let app = ok(Router::new().middleware(99).merge(public));
    let app = ok(app.merge(users));
    assert!(chain_of(&app.lookup(Method::Get, "/health").expect("route")).is_empty());
    assert_eq!(chain_of(&app.lookup(Method::Get, "/users").expect("route")), vec![10]);
    let del = app.lookup(Method::Delete, "/users/3").expect("route");
    assert_eq!(*del.handler, "delete");
    assert_eq!(chain_of(&del), vec![10, 11]);
    assert_eq!(params_of(&del), vec![("id".to_string(), "3".to_string())]);
}

#[test]
fn merged_router_keeps_its_global_middleware_for_later_routes() {
    let sub = ok(Router::new().on(Method::Get, "/a", "a", ()));
    let app = ok(Router::new().middleware(1).merge(sub));
    let app = ok(app.on(Method::Get, "/b", "b", ()));
    assert!(chain_of(&app.lookup(Method::Get, "/a").expect("route")).is_empty());
    assert_eq!(chain_of(&app.lookup(Method::Get, "/b").expect("route")), vec![1]);
}

#[test]
fn merge_conflict_is_refused() {
    let a = ok(Router::new().on(Method::Get, "/health", "a", ()));
    let b = ok(Router::new().on(Method::Get, "/health", "b", ()));
    let e = refused(a.merge(b));
    assert_eq!(e.path, "/health");
}

#[test]
fn merge_of_empty_router_changes_nothing() {
    let a = ok(Router::new().middleware(3).on(Method::Get, "/x", "x", ()));
    let a = ok(a.merge(Router::new()));
    assert_eq!(chain_of(&a.lookup(Method::Get, "/x").expect("route")), vec![3]);
}

#[test]
fn resolve_maps_positions_to_routes() {
    let app = ok(ok(Router::new().middleware(1).on(Method::Get, "/a", "a", ()))
        .on(Method::Get, "/b", "b", (2,)));
    let m = app
        .resolve(Some((1, vec![("k".to_string(), "v".to_string())])))
        .expect("route");
    assert_eq!(*m.handler, "b");
    assert_eq!(chain_of(&m), vec![1, 2]);
    assert_eq!(params_of(&m), vec![("k".to_string(), "v".to_string())]);
    assert!(app.resolve(Some((2, vec![]))).is_none());
    assert!(app.resolve(None).is_none());
}

#[test]
fn merge_into_empty_router_keeps_routes() {
    let users = ok(Router::new().middleware(4).on(Method::Get, "/users/{id}", "get", (5,)));
    let app = ok(Router::new().merge(users));
    let m = app.lookup(Method::Get, "/users/8").expect("route");
    assert_eq!(*m.handler, "get");
    assert_eq!(chain_of(&m), vec![4, 5]);
    assert_eq!(params_of(&m), vec![("id".to_string(), "8".to_string())]);
    let later = ok(app.on(Method::Get, "/x", "x", ()));
    assert!(chain_of(&later.lookup(Method::Get, "/x").expect("route")).is_empty());
}

#[test]
fn middleware_leaves_lookups_alone() {
    let app = ok(Router::new().on(Method::Get, "/a/{id}", "a", (1,)));
    let app = app.middleware(2);
    let m = app.lookup(Method::Get, "/a/z").expect("route");
    assert_eq!(*m.handler, "a");
    assert_eq!(chain_of(&m), vec![1]);
}

#[test]
fn readme_composition() {
    let public = ok(Router::new().on(Method::Get, "/health", "health", ()));
    let users = ok(Router::new().middleware(1).on(Method::Get, "/users", "list_users", ()));
    let app = ok(ok(Router::new().merge(public)).merge(users));
    assert!(chain_of(&app.lookup(Method::Get, "/health").expect("route")).is_empty());
    let u = app.lookup(Method::Get, "/users").expect("route");
    assert_eq!(*u.handler, "list_users");
    assert_eq!(chain_of(&u), vec![1]);
}

#[test]
fn refused_pattern_then_fresh_router_still_accepts() {
    let app: App = Router::new();
    refused(app.on(Method::Get, "/{id}/{*p}/x", "bad", ()));
    let app = ok(Router::new().on(Method::Get, "/{*p}", "all", ()));
    let m = app.lookup(Method::Get, "/any/thing").expect("route");
    assert_eq!(params_of(&m), vec![("p".to_string(), "any/thing".to_string())]);
}

#[test]
fn empty_pattern_then_static_pattern() {
    let app = ok(Router::new().on(Method::Get, "", "empty", ()));
    assert_eq!(*app.lookup(Method::Get, "").expect("route").handler, "empty");
    let app = ok(app.on(Method::Get, "/a", "a", ()));
    assert_eq!(*app.lookup(Method::Get, "/a").expect("route").handler, "a");
    assert!(app.lookup(Method::Get, "").is_none());
}

#[test]
fn empty_pattern_then_param_pattern() {
    let app = ok(Router::new().on(Method::Get, "", "empty", ()));
    let app = ok(app.on(Method::Get, "/{id}", "by_id", ()));
    let m = app.lookup(Method::Get, "/42").expect("route");
    assert_eq!(*m.handler, "by_id");
    assert_eq!(params_of(&m), vec![("id".to_string(), "42".to_string())]);
    assert_eq!(*app.lookup(Method::Get, "/").expect("route").handler, "empty");
}

#[test]
fn empty_pattern_after_others_is_kept() {
    let app = ok(Router::new().on(Method::Get, "/a", "a", ()));
    let app = ok(app.on(Method::Get, "", "empty", ()));
    assert_eq!(*app.lookup(Method::Get, "").expect("route").handler, "empty");
    assert_eq!(*app.lookup(Method::Get, "/a").expect("route").handler, "a");
    let e = refused(app.on(Method::Get, "", "again", ()));
    assert_eq!(e.path, "");
}

#[test]
fn merge_stops_at_first_refused_route() {
    let base = ok(Router::new().on(Method::Get, "/b", "b", ()));
    let other = ok(Router::new().on(Method::Get, "/a", "a", ()));
    let other = ok(other.on(Method::Get, "/b", "b2", ()));
    let other = ok(other.on(Method::Get, "/{x}/c", "c", ()));
    let e = refused(base.merge(other));
    assert_eq!(e.path, "/b");
}

#[test]
fn merge_into_empty_router_with_empty_pattern() {
    let other = ok(Router::new().on(Method::Get, "", "empty", ()));
    let other = ok(other.on(Method::Get, "/{id}", "by_id", ()));
    let merged = ok(Router::new().merge(other));
    assert_eq!(*merged.lookup(Method::Get, "/").expect("route").handler, "empty");
    assert_eq!(*merged.lookup(Method::Get, "/7").expect("route").handler, "by_id");
}

#[test]
fn merge_orders_agree() {
    let a = || ok(Router::new().on(Method::Get, "/a", "a", ()));
    let b = || ok(Router::new().on(Method::Get, "/b/{id}", "b", ()));
    let c = || ok(Router::new().on(Method::Post, "/b/{id}", "c", ()));
    let left = ok(ok(a().merge(b())).merge(c()));
    let right = ok(a().merge(ok(b().merge(c()))));
    for (m, p) in [(Method::Get, "/a"), (Method::Get, "/b/1"), (Method::Post, "/b/1"), (Method::Post, "/a")] {
        let l = left.lookup(m, p).map(|x| (*x.handler, params_of(&x)));
        let r = right.lookup(m, p).map(|x| (*x.handler, params_of(&x)));
        assert_eq!(l, r);
    }
}
