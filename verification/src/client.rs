//! The connection handler's decisions: how a parsed request is dispatched
//! by its method, and the response a request with an unsupported method
//! gets.
//!
//! One connection runs parse, dispatch, respond in that order.  A method of
//! exactly `GET` is answered with the stored file or an error page; exactly
//! `POST` stores the body under the request's filename, with nothing sent
//! back; any other method is answered with the fixed `405` response built
//! here.  The reads and writes on the connection itself stay with the
//! caller.

use crate::response::{
    create_headers, spec_create_headers, spec_status_text, Response, Status,
};
use crate::text::{bytes_eq, copy_bytes, pairs_view};
use vstd::prelude::*;
use vstd::string::StringExecFns;
use vstd::utf8::encode_utf8;

verus! {

/// What is to be done with a parsed request, by its method.
#[derive(Clone, Copy, Debug, PartialEq, Eq, Structural)]
pub enum RequestKind {
    Get,
    Post,
    Unknown,
}

/// The dispatch rule: `GET` and `POST` exactly, byte for byte; everything
/// else is unknown.
pub open spec fn spec_dispatch(method: Seq<u8>) -> RequestKind {
    if method == encode_utf8("GET"@) {
        RequestKind::Get
    } else if method == encode_utf8("POST"@) {
        RequestKind::Post
    } else {
        RequestKind::Unknown
    }
}

/// Decides what a request's method asks for.
pub fn dispatch(method: &[u8]) -> (r: RequestKind)
    ensures
        r == spec_dispatch(method@),
{
    if bytes_eq(method, "GET".as_bytes()) {
        RequestKind::Get
    } else if bytes_eq(method, "POST".as_bytes()) {
        RequestKind::Post
    } else {
        RequestKind::Unknown
    }
}

/// The fixed page sent for a request with an unsupported method, up to the
/// embedded status text.
pub open spec fn unknown_page_head() -> Seq<char> {
    r#"
            <!DOCTYPE html>
                <html lang="pt-BR">
                <head>
                    <meta charset="UTF-8">
                    <meta name="viewport" content="width=device-width, initial-scale=1.0">
                    <title>Minimal HTTP Server</title>
                </head>
                <body>
                    <div id="container">
                        <h1>Minimal HTTP Server</h1>
                        <h2>"#@
}

/// The fixed page sent for a request with an unsupported method, after the
/// embedded status text.
pub open spec fn unknown_page_tail() -> Seq<char> {
    r#"</h2>
                    </div>
                </body>
            </html>
        "#@
}

/// The text of the page that answers an unsupported method, with
/// `message` embedded.
pub open spec fn spec_unknown_text(message: Seq<char>) -> Seq<char> {
    unknown_page_head() + message + unknown_page_tail()
}

/// The body sent back for a request with an unsupported method: a fixed
/// HTML page with `error_message` embedded.
pub fn body_when_unknown_request(error_message: &str) -> (r: Vec<u8>)
    ensures
        r@ == encode_utf8(spec_unknown_text(error_message@)),
{
    let mut page = String::new();
    page.append(
        r#"
            <!DOCTYPE html>
                <html lang="pt-BR">
                <head>
                    <meta charset="UTF-8">
                    <meta name="viewport" content="width=device-width, initial-scale=1.0">
                    <title>Minimal HTTP Server</title>
                </head>
                <body>
                    <div id="container">
                        <h1>Minimal HTTP Server</h1>
                        <h2>"#,
    );
    page.append(error_message);
    page.append(
        r#"</h2>
                    </div>
                </body>
            </html>
        "#,
    );
    copy_bytes(page.as_str().as_bytes())
}

/// The whole response a request with an unsupported method is answered
/// with: the fixed page under status 405, content type `text/html`.
pub fn unknown_method_response() -> (r: Response)
    ensures
        ({
            let page = encode_utf8(spec_unknown_text(spec_status_text(Status::NotAllowed)));
            pairs_view(r.headers@) == spec_create_headers(
                "text/html"@,
                page.len(),
                spec_status_text(Status::NotAllowed),
            ) && r.body@ == page
        }),
{
    let body = body_when_unknown_request(Status::NotAllowed.as_str());
    let headers = create_headers("text/html", body.len(), Status::NotAllowed.as_str());
    Response::new(headers, body)
}

} // verus!
