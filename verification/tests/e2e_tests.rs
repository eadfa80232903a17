use httpserver::dispatch::{dispatch, DispatchOutcome};
use httpserver::handlers::{greeting, hello, user_order_details};
use httpserver::httprequest::HttpRequest;
use httpserver::httpresponse::{HttpResponse, ResponseHeaders};
use httpserver::router::Router;

type RouteHandler = fn(&HttpRequest) -> HttpResponse<'static>;

fn render(resp: &HttpResponse) -> Vec<u8> {
    let mut out = Vec::new();
    resp.send_response(&mut out);
    out
}

fn starts_with(bytes: &[u8], prefix: &[u8]) -> bool {
    bytes.len() >= prefix.len() && &bytes[..prefix.len()] == prefix
}

fn contains(bytes: &[u8], needle: &[u8]) -> bool {
    bytes.windows(needle.len()).any(|w| w == needle)
}

#[test]
fn test_hello_end_to_end() {
    let mut router: Router<RouteHandler> = Router::default();
    router.get("/hello", hello);

    let raw = b"GET /hello HTTP/1.1\r\nHost: x\r\n\r\n".to_vec();
    match dispatch(&router, raw) {
        DispatchOutcome::Matched(req, h) => {
            let resp = h(&req);
            let out = render(&resp);
            assert!(starts_with(&out, b"HTTP/1.1 200 OK\r\n"));
            assert!(contains(&out, b"Content-Length: 12\r\n"));
            assert!(contains(&out, b"Content-Type: text/html\r\n"));
            assert!(out.ends_with(b"\r\n\r\nHello World!"));
        },
        _ => panic!("expected a matched route"),
    }
}

#[test]
fn test_user_order_details_end_to_end() {
    let mut router: Router<RouteHandler> = Router::default();
    router.get("/users/{user_id}/orders/{order_id}", user_order_details);

    let raw = b"GET /users/42/orders/A1 HTTP/1.1\r\nHost: x\r\n\r\n".to_vec();
    match dispatch(&router, raw) {
        DispatchOutcome::Matched(req, h) => {
            assert_eq!(req.path_params.len(), 2);
            assert_eq!(req.path_params.get("user_id").unwrap(), "42");
            assert_eq!(req.path_params.get("order_id").unwrap(), "A1");
            let resp = h(&req);
            assert_eq!(resp.body.as_ref().unwrap(), b"UserId: 42, OrderId: A1");
        },
        _ => panic!("expected a matched route"),
    }
}

#[test]
fn test_greeting_end_to_end() {
    let mut router: Router<RouteHandler> = Router::default();
    router.get("/hello/{name}", greeting);

    let raw = b"GET /hello/verus HTTP/1.1\r\n\r\n".to_vec();
    match dispatch(&router, raw) {
        DispatchOutcome::Matched(req, h) => {
            let resp = h(&req);
            assert_eq!(resp.body.as_ref().unwrap(), b"Hello verus!");
        },
        _ => panic!("expected a matched route"),
    }
}

#[test]
fn test_malformed_input_yields_400_without_body() {
    let router: Router<RouteHandler> = Router::default();
    let raw = b"GET /hello HTTP/1.1 no boundary here".to_vec();
    match dispatch(&router, raw) {
        DispatchOutcome::BadRequest => {
            let resp = HttpResponse::new("400", None, None);
            let out = render(&resp);
            assert!(starts_with(&out, b"HTTP/1.1 400 Bad Request\r\n"));
            assert!(out.ends_with(b"\r\n\r\n"));
            assert!(!contains(&out, b"Content-Length"));
        },
        _ => panic!("expected a bad request"),
    }
}

#[test]
fn test_unregistered_path_yields_404_without_body() {
    let mut router: Router<RouteHandler> = Router::default();
    router.get("/hello", hello);
    let raw = b"GET /goodbye HTTP/1.1\r\n\r\n".to_vec();
    match dispatch(&router, raw) {
        DispatchOutcome::NotFound => {
            let resp = HttpResponse::new("404", None, None);
            let out = render(&resp);
            assert!(starts_with(&out, b"HTTP/1.1 404 Not Found\r\n"));
            assert!(out.ends_with(b"\r\n\r\n"));
            assert!(!contains(&out, b"Content-Length"));
        },
        _ => panic!("expected no route to match"),
    }
}

#[test]
fn test_status_text_lookup() {
    assert_eq!(HttpResponse::new("200", None, None).status_text, "OK");
    assert_eq!(HttpResponse::new("400", None, None).status_text, "Bad Request");
    assert_eq!(HttpResponse::new("404", None, None).status_text, "Not Found");
    assert_eq!(
        HttpResponse::new("500", None, None).status_text,
        "Internal Server Error"
    );
    assert_eq!(HttpResponse::new("418", None, None).status_text, "");
}

#[test]
fn test_content_length_not_duplicated_when_set() {
    let mut headers = ResponseHeaders::new();
    headers.insert("Content-Length", "3");
    let resp = HttpResponse::new("200", Some(headers), Some(b"abc".to_vec()));
    let out = render(&resp);
    assert!(contains(&out, b"Content-Length: 3\r\n"));
    assert!(!contains(&out, b"Content-Length: 3\r\nContent-Length"));
    assert!(out.ends_with(b"\r\n\r\nabc"));
}

#[test]
fn test_content_length_emitted_without_header_map() {
    // a body with no header map at all still gets its Content-Length
    let resp = HttpResponse {
        version: "HTTP/1.1",
        status_code: "200",
        status_text: "OK",
        headers: None,
        body: Some(b"abc".to_vec()),
    };
    let out = render(&resp);
    assert!(contains(&out, b"Content-Length: 3\r\n"));
    assert!(out.ends_with(b"\r\n\r\nabc"));
}

#[test]
fn test_content_length_formula() {
    let resp = HttpResponse::new("200", None, Some(vec![0u8; 1024]));
    let out = render(&resp);
    assert!(contains(&out, b"Content-Length: 1024\r\n"));
    let resp = HttpResponse::new("200", None, Some(Vec::new()));
    let out = render(&resp);
    assert!(contains(&out, b"Content-Length: 0\r\n"));
}
