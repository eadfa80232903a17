use httpserver::httprequest::{HttpRequest, Method};
use httpserver::httpresponse::HttpResponse;
use httpserver::router::{extract_path_params, find_params, normalize_path, regex_that_match, Router};

type RouteHandler = fn(&HttpRequest) -> HttpResponse<'static>;

#[test]
fn test_normalize_path() {
    assert_eq!(normalize_path("/home/"), "home");
    assert_eq!(normalize_path("/user"), "user");
    assert_eq!(normalize_path("root/"), "root");
    assert_eq!(normalize_path("a"), "a");
    assert_eq!(normalize_path("//"), "//");
}

#[test]
fn test_find_params() {
    let result = find_params("/users");
    assert_eq!(result.len(), 0);

    let result = find_params("/users/{user_id}");
    assert_eq!(result.len(), 1);
    assert_eq!(result.get(1).expect("At position 1 there is a parameter"), "user_id");

    let result = find_params("/users/{user_id}/orders/{order_id}");
    assert_eq!(result.len(), 2);
    assert_eq!(result.get(1).expect("At position 1 there is a parameter"), "user_id");
    assert_eq!(result.get(3).expect("At position 3 there is a parameter"), "order_id");

    // check when parameter is at beginning
    let result = find_params("{weird}/users");
    assert_eq!(result.len(), 1);
    assert_eq!(result.get(0).expect("At position 0 there is a parameter"), "weird");

    // catch all path
    let result = find_params("{*}");
    assert_eq!(result.len(), 1);
    assert_eq!(result.get(0).expect("At position 0 there is a parameter"), "*");
}

#[test]
fn test_regex_that_match_function() {
    assert_eq!(regex_that_match("home"), "^home$");
    assert_eq!(regex_that_match("/home"), "^/home$");
    assert_eq!(regex_that_match("/home/"), "^/home/$");
    assert_eq!(regex_that_match("/users/{user_id}"), format!("^/users/{}$", "[^/]+"));
    assert_eq!(
        regex_that_match("/users/{user_id}/orders/{order_id}"),
        format!("^/users/{}/orders/{}$", "[^/]+", "[^/]+")
    );
}

#[test]
fn test_path_matching() {
    let home_handler: RouteHandler = |_: &HttpRequest| -> HttpResponse<'static> {
        HttpResponse::default()
    };
    let all_users: RouteHandler = |_: &HttpRequest| -> HttpResponse<'static> {
        HttpResponse::default()
    };
    let user_activity: RouteHandler = |_: &HttpRequest| -> HttpResponse<'static> {
        HttpResponse::default()
    };
    let user_detail: RouteHandler = |_: &HttpRequest| -> HttpResponse<'static> {
        HttpResponse::default()
    };
    let user_all_orders: RouteHandler = |_: &HttpRequest| -> HttpResponse<'static> {
        HttpResponse::default()
    };
    let user_order_details: RouteHandler = |_: &HttpRequest| -> HttpResponse<'static> {
        HttpResponse::default()
    };

    let mut router = Router::default();
    router.get("/home", home_handler);
    router.get("/users", all_users);
    router.get("/activities/{user_id}", user_activity);
    router.get("/users/{user_id}", user_detail);
    router.get("/users/{user_id}/orders", user_all_orders);
    router.get("/users/{user_id}/orders/{order_id}", user_order_details);

    let handler = router.find_handler(Method::Get, "/users/123/orders");
    assert_eq!(handler.is_some(), true);
    assert_eq!(handler.unwrap().handler, user_all_orders);

    let handler = router.find_handler(Method::Get, "/users/123/orders/A123");
    assert_eq!(handler.is_some(), true);
    assert_eq!(handler.unwrap().handler, user_order_details);

    let handler = router.find_handler(Method::Get, "/users/user1");
    assert_eq!(handler.is_some(), true);
    assert_eq!(handler.unwrap().handler, user_detail);

    let handler = router.find_handler(Method::Get, "/users");
    assert_eq!(handler.is_some(), true);
    assert_eq!(handler.unwrap().handler, all_users);

    let handler = router.find_handler(Method::Get, "/user");
    assert_eq!(handler.is_some(), false);
}

#[test]
fn test_resolve_extracts_named_parameter() {
    let detail: RouteHandler = |_| HttpResponse::default();
    let mut router = Router::default();
    router.get("/users/{user_id}", detail);

    let info = router.find_handler(Method::Get, "/users/42").expect("route must match");
    let params = extract_path_params("/users/42", &info.params_pos);
    assert_eq!(params.len(), 1);
    assert_eq!(params.get("user_id").unwrap(), "42");
}

#[test]
fn test_literal_route_registered_first_takes_precedence() {
    let literal: RouteHandler = |_| HttpResponse::default();
    let parameterized: RouteHandler = |_| HttpResponse::new("404", None, None);
    let mut router = Router::default();
    router.get("/users", literal);
    router.get("/users/{id}", parameterized);

    let info = router.find_handler(Method::Get, "/users").expect("literal route must match");
    assert_eq!(info.handler, literal);
}

#[test]
fn test_parameterized_route_registered_first_shadows_nothing_here() {
    // the same table shape, but registered in the shadowing-prone order: the
    // parameterized route cannot match the one-segment path, so the literal
    // still wins; a parameterized single-segment route registered first does
    // shadow the literal.
    let literal: RouteHandler = |_| HttpResponse::default();
    let parameterized: RouteHandler = |_| HttpResponse::new("404", None, None);

    let mut router = Router::default();
    router.get("/users/{id}", parameterized);
    router.get("/users", literal);
    let info = router.find_handler(Method::Get, "/users").expect("route must match");
    assert_eq!(info.handler, literal);

    let mut shadowing = Router::default();
    shadowing.get("/{seg}", parameterized);
    shadowing.get("/users", literal);
    let info = shadowing.find_handler(Method::Get, "/users").expect("route must match");
    assert_eq!(info.handler, parameterized, "an earlier structural match shadows the literal");
}

#[test]
fn test_non_ambiguous_miss() {
    let a: RouteHandler = |_| HttpResponse::default();
    let b: RouteHandler = |_| HttpResponse::default();
    let mut router = Router::default();
    router.get("/users", a);
    router.get("/users/{id}", b);

    assert!(router.find_handler(Method::Get, "/user").is_none());
}

#[test]
fn test_methods_have_separate_tables() {
    let g: RouteHandler = |_| HttpResponse::default();
    let p: RouteHandler = |_| HttpResponse::new("500", None, None);
    let mut router = Router::default();
    router.get("/only-get", g);
    router.post("/only-post", p);

    assert!(router.find_handler(Method::Get, "/only-get").is_some());
    assert!(router.find_handler(Method::Post, "/only-get").is_none());
    assert!(router.find_handler(Method::Post, "/only-post").is_some());
    assert!(router.find_handler(Method::Get, "/only-post").is_none());
    assert!(router.find_handler(Method::Uninitialized, "/only-get").is_none());
}

#[test]
fn test_router_agrees_with_compiled_regex() {
    let templates = [
        "/home",
        "/users",
        "/users/{user_id}",
        "/users/{user_id}/orders",
        "/users/{user_id}/orders/{order_id}",
        "home",
        "/home/",
    ];
    let paths = [
        "/home", "/users", "/users/42", "/users/42/orders", "/users/42/orders/A1", "/user",
        "/users/", "/users/42/", "home", "/home/", "//home", "/users//orders",
    ];
    let h: RouteHandler = |_| HttpResponse::default();
    for t in templates {
        let mut router = Router::default();
        router.get(t, h);
        let re = regex::Regex::new(&regex_that_match(t)).unwrap();
        for p in paths {
            assert_eq!(
                router.find_handler(Method::Get, p).is_some(),
                re.is_match(p),
                "template {} against path {}",
                t,
                p
            );
        }
    }
}
