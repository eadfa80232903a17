//! The per-connection dispatch step: decide, from the raw request bytes and
//! the routing table, whether the connection gets a `400`, a `404`, or the
//! matched handler applied to the parsed request.

use vstd::prelude::*;
use vstd::string::StringSliceAdditionalSpecFns;
use vstd::utf8::encode_utf8;
use crate::httprequest::{spec_parse, HttpRequest};
use crate::router::{
    extract_path_params, first_match, first_match_from, spec_extract, spec_find_params,
    spec_tmpl_matches, Router,
};

verus! {

/// What one request/response cycle must do next.
pub enum DispatchOutcome<'a, H> {
    /// The bytes do not parse: answer with status 400 and no body.
    BadRequest,
    /// No route matches: answer with status 404 and no body.
    NotFound,
    /// A route matched: apply the handler to the request, which carries the
    /// extracted path parameters.
    Matched(HttpRequest, &'a H),
}

/// Parse the raw bytes and resolve the request against the routing table.
pub fn dispatch<'a, H>(router: &'a Router<H>, raw: Vec<u8>) -> (r: DispatchOutcome<'a, H>)
    requires
        router.wf(),
    ensures
        ({
            match spec_parse(raw@) {
                None => r is BadRequest,
                Some(m) => {
                    let ts = router.method_templates(m.method);
                    match first_match(ts, m.resource) {
                        None => r is NotFound,
                        Some(i) => r matches DispatchOutcome::Matched(req, h) && req.method
                            == m.method && req.version == m.version && encode_utf8(req.resource@)
                            == m.resource && req.header@ == m.headers && req.body@ == m.body
                            && req.path_params@ == spec_extract(spec_find_params(ts[i]), m.resource)
                            && *h == router.method_handlers(m.method)[i],
                    }
                },
            }
        }),
{
    let mut req = match HttpRequest::parse(raw) {
        None => {
            return DispatchOutcome::BadRequest;
        },
        Some(r) => r,
    };
    let method = req.method;
    match router.find_handler(method, req.resource.as_str()) {
        None => DispatchOutcome::NotFound,
        Some(info) => {
            let params = extract_path_params(req.resource.as_str(), &info.params_pos);
            req.with_path_params(params);
            DispatchOutcome::Matched(req, &info.handler)
        },
    }
}

/// Whatever matches earlier in the table wins: when entry `i` matches the
/// path and no entry registered before it does, resolution returns entry `i`.
/// In particular a literal route registered before a parameterized route that
/// also matches the same path takes precedence.
pub proof fn lemma_registration_order_precedence(ts: Seq<Seq<u8>>, p: Seq<u8>, i: int)
    requires
        0 <= i < ts.len(),
        spec_tmpl_matches(ts[i], p),
        forall|j: int| 0 <= j < i ==> !spec_tmpl_matches(#[trigger] ts[j], p),
    ensures
        first_match(ts, p) == Some(i),
{
    lemma_first_match_from_at(ts, p, 0, i);
}

proof fn lemma_first_match_from_at(ts: Seq<Seq<u8>>, p: Seq<u8>, k: int, i: int)
    requires
        0 <= k <= i < ts.len(),
        spec_tmpl_matches(ts[i], p),
        forall|j: int| k <= j < i ==> !spec_tmpl_matches(#[trigger] ts[j], p),
    ensures
        first_match_from(ts, p, k) == Some(i),
    decreases i - k,
{
    if k < i {
        lemma_first_match_from_at(ts, p, k + 1, i);
    }
}

} // verus!
