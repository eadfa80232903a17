//! The demonstration handlers served by the program: a fixed greeting, a
//! greeting by name, and an order-detail echo of two path parameters.

use vstd::prelude::*;
use vstd::string::StringSliceAdditionalSpecFns;
use crate::bytes::assoc_lookup;
use crate::httprequest::HttpRequest;
use crate::httpresponse::{push_str_bytes, HttpResponse};

verus! {

/// A `200 OK` response with the default headers, whose body is
/// `Hello World!`.
pub fn hello(req: &HttpRequest) -> (r: HttpResponse<'static>)
    ensures
        r.version@ == "HTTP/1.1"@,
        r.status_code@ == "200"@,
        r.status_text@ == "OK"@,
        r.headers matches Some(h) && h@ == seq![
            ("Content-Type".spec_bytes(), "text/html".spec_bytes()),
        ],
        r.body matches Some(b) && b@ == "Hello World!".spec_bytes(),
{
    let mut body: Vec<u8> = Vec::new();
    push_str_bytes(&mut body, "Hello World!");
    proof {
        assert(body@ =~= "Hello World!".spec_bytes());
    }
    HttpResponse::new("200", None, Some(body))
}

/// A `200 OK` response with the default headers, greeting the `name` path
/// parameter.
pub fn greeting(req: &HttpRequest) -> (r: HttpResponse<'static>)
    requires
        assoc_lookup(req.path_params@, "name".spec_bytes()) is Some,
    ensures
        r.version@ == "HTTP/1.1"@,
        r.status_code@ == "200"@,
        r.status_text@ == "OK"@,
        r.headers matches Some(h) && h@ == seq![
            ("Content-Type".spec_bytes(), "text/html".spec_bytes()),
        ],
        r.body matches Some(b) && b@ == "Hello ".spec_bytes() + assoc_lookup(
            req.path_params@,
            "name".spec_bytes(),
        )->Some_0 + "!".spec_bytes(),
{
    let username = match req.path_params.get("name") {
        Some(v) => v,
        None => {
            return vstd::pervasive::unreached();
        },
    };
    let mut body: Vec<u8> = Vec::new();
    push_str_bytes(&mut body, "Hello ");
    push_str_bytes(&mut body, username.as_str());
    push_str_bytes(&mut body, "!");
    HttpResponse::new("200", None, Some(body))
}

/// A `200 OK` response with the default headers, echoing the `user_id` and
/// `order_id` path parameters.
pub fn user_order_details(req: &HttpRequest) -> (r: HttpResponse<'static>)
    requires
        assoc_lookup(req.path_params@, "user_id".spec_bytes()) is Some,
        assoc_lookup(req.path_params@, "order_id".spec_bytes()) is Some,
    ensures
        r.version@ == "HTTP/1.1"@,
        r.status_code@ == "200"@,
        r.status_text@ == "OK"@,
        r.headers matches Some(h) && h@ == seq![
            ("Content-Type".spec_bytes(), "text/html".spec_bytes()),
        ],
        r.body matches Some(b) && b@ == "UserId: ".spec_bytes() + assoc_lookup(
            req.path_params@,
            "user_id".spec_bytes(),
        )->Some_0 + ", OrderId: ".spec_bytes() + assoc_lookup(
            req.path_params@,
            "order_id".spec_bytes(),
        )->Some_0,
{
    let user_id = match req.path_params.get("user_id") {
        Some(v) => v,
        None => {
            return vstd::pervasive::unreached();
        },
    };
    let order_id = match req.path_params.get("order_id") {
        Some(v) => v,
        None => {
            return vstd::pervasive::unreached();
        },
    };
    let mut body: Vec<u8> = Vec::new();
    push_str_bytes(&mut body, "UserId: ");
    push_str_bytes(&mut body, user_id.as_str());
    push_str_bytes(&mut body, ", OrderId: ");
    push_str_bytes(&mut body, order_id.as_str());
    HttpResponse::new("200", None, Some(body))
}

} // verus!
