//! A minimal HTTP/1.1 request-handling core: a byte-level request parser, a
//! router that compiles path templates with `{name}` parameters and resolves
//! concrete paths against them, a response serializer, and the per-connection
//! dispatch step that ties them together.

pub mod bytes;
pub mod dispatch;
pub mod handlers;
pub mod httprequest;
pub mod httpresponse;
pub mod maps;
pub mod router;
