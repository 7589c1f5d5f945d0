use ruster::route_node::RouteError;
use ruster::router::{Handler, HttpMethod, Request, Response, Router};

#[derive(Debug, Clone, Copy, PartialEq, Eq)]
struct TestHandler(u32);

impl Handler for TestHandler {
    fn call(&self, _request: Request, _response: Response) {}
}

#[test]
fn route_should_add_route_to_corresponding_method() {
    let handler = TestHandler(0);
    let mut router = Router::new();

    router.route(HttpMethod::Get, "/hello/world", handler);
    println!("{:?}", router.routes);
    assert!(router.routes.find("GET/hello/world").is_some());
}

#[test]
fn get_should_add_route_to_get_method() {
    let handler = TestHandler(0);
    let mut router = Router::new();

    router.get("/hello/world", handler);

    assert!(router.routes.find("GET/hello/world").is_some());
}

#[test]
fn post_should_add_route_to_post_method() {
    let handler = TestHandler(0);
    let mut router = Router::new();

    router.post("/hello/world", handler);

    assert!(router.routes.find("POST/hello/world").is_some());
}

#[test]
fn patch_should_add_route_to_patch_method() {
    let handler = TestHandler(0);
    let mut router = Router::new();

    router.patch("/hello/world", handler);

    assert!(router.routes.find("PATCH/hello/world").is_some());
}

#[test]
fn put_should_add_route_to_put_method() {
    let handler = TestHandler(0);
    let mut router = Router::new();

    router.put("/hello/world", handler);

    assert!(router.routes.find("PUT/hello/world").is_some());
}

#[test]
fn delete_should_add_route_to_delete_method() {
    let handler = TestHandler(0);
    let mut router = Router::new();

    router.delete("/hello/world", handler);

    assert!(router.routes.find("DELETE/hello/world").is_some());
}

#[test]
fn can_call_corresponding_handler() {
    let handler = TestHandler(0);
    let mut router = Router::new();
    router.get("/hello/world", handler);

    assert!(router
        .call_handler("GET/hello/world", Request {}, Response {})
        .is_ok());
}

#[test]
fn call_handler_returns_error_when_no_path_match() {
    let handler = TestHandler(0);
    let mut router = Router::new();
    router.get("/hello/world", handler);

    assert!(router
        .call_handler("not/found", Request {}, Response {})
        .is_err());
}

#[test]
fn call_handler_returns_error_when_no_handler() {
    let handler = TestHandler(0);
    let mut router = Router::new();
    router.get("/hello/world", handler);
    router.get("/hello/you", handler);

    assert!(router
        .call_handler("/hello", Request {}, Response {})
        .is_err());
}

#[test]
fn registered_route_dispatches_to_its_handler() {
    let mut router = Router::new();
    router.get("/hello", TestHandler(1));

    assert_eq!(router.dispatch(HttpMethod::Get, "/hello"), Ok(()));
    assert_eq!(
        router.dispatch(HttpMethod::Get, "/hell"),
        Err("No route found")
    );
}

#[test]
fn dispatch_misses_paths_never_registered_under_a_method() {
    let mut router = Router::new();
    router.get("/hello", TestHandler(1));
    router.post("/other", TestHandler(2));

    assert_eq!(
        router.dispatch(HttpMethod::Get, "/other"),
        Err("No route found")
    );
    assert_eq!(
        router.dispatch(HttpMethod::Post, "/hello"),
        Err("No route found")
    );
    assert_eq!(
        router.dispatch(HttpMethod::Delete, "/hello"),
        Err("No route found")
    );
}

#[test]
fn try_route_reports_a_duplicate_registration() {
    let mut router = Router::new();
    assert_eq!(router.try_route(HttpMethod::Get, "/hello", TestHandler(1)), Ok(()));
    assert_eq!(
        router.try_route(HttpMethod::Get, "/hello", TestHandler(2)),
        Err(RouteError::DuplicateRoute)
    );
    assert_eq!(
        router.routes.find("GET/hello").unwrap().handler,
        Some(TestHandler(1))
    );
}

#[test]
fn empty_path_never_dispatches() {
    let mut router = Router::new();
    router.get("/", TestHandler(1));

    assert_eq!(router.dispatch(HttpMethod::Get, "/"), Ok(()));
    assert_eq!(
        router.dispatch(HttpMethod::Get, ""),
        Err("No route found")
    );
}

#[test]
fn try_route_reports_an_empty_path() {
    let mut router = Router::new();
    assert_eq!(
        router.try_route(HttpMethod::Get, "", TestHandler(1)),
        Err(RouteError::InvalidPath)
    );
}

#[test]
fn repeated_dispatch_has_one_outcome() {
    let mut router = Router::new();
    router.get("/hello", TestHandler(1));

    let first = router.dispatch(HttpMethod::Get, "/hello");
    let second = router.dispatch(HttpMethod::Get, "/hello");
    assert_eq!(first, second);
    let miss1 = router.dispatch(HttpMethod::Get, "/nothing");
    let miss2 = router.dispatch(HttpMethod::Get, "/nothing");
    assert_eq!(miss1, miss2);
}

#[test]
fn splitting_keeps_both_routes_reachable() {
    let mut router = Router::new();
    router.get("/hello", TestHandler(1));
    router.get("/hell", TestHandler(2));

    assert_eq!(
        router.routes.find("GET/hello").unwrap().handler,
        Some(TestHandler(1))
    );
    assert_eq!(
        router.routes.find("GET/hell").unwrap().handler,
        Some(TestHandler(2))
    );
    assert_eq!(router.dispatch(HttpMethod::Get, "/hello"), Ok(()));
    assert_eq!(router.dispatch(HttpMethod::Get, "/hell"), Ok(()));
}

#[test]
fn common_branch_does_not_resolve_other_suffixes() {
    let mut router = Router::new();
    router.get("/hello/world", TestHandler(1));
    router.get("/hello/you", TestHandler(2));

    assert_eq!(router.dispatch(HttpMethod::Get, "/hello/world"), Ok(()));
    assert_eq!(router.dispatch(HttpMethod::Get, "/hello/you"), Ok(()));
    assert_eq!(
        router.dispatch(HttpMethod::Get, "/hello/nobody"),
        Err("No route found")
    );
}

#[test]
fn methods_do_not_leak_into_each_other() {
    let mut router = Router::new();
    router.post("/hello", TestHandler(1));
    router.get("/hello", TestHandler(2));

    assert_eq!(
        router.routes.find("POST/hello").unwrap().handler,
        Some(TestHandler(1))
    );
    assert_eq!(
        router.routes.find("GET/hello").unwrap().handler,
        Some(TestHandler(2))
    );
    assert_eq!(router.dispatch(HttpMethod::Post, "/hello"), Ok(()));
    assert_eq!(router.dispatch(HttpMethod::Get, "/hello"), Ok(()));
    assert_eq!(
        router.dispatch(HttpMethod::Put, "/hello"),
        Err("No route found")
    );
}

#[test]
fn paths_are_normalized_with_a_leading_slash() {
    let mut router = Router::new();
    router.get("hello", TestHandler(1));

    assert_eq!(router.dispatch(HttpMethod::Get, "/hello"), Ok(()));
    assert_eq!(router.dispatch(HttpMethod::Get, "hello"), Ok(()));
}
