//! The response builder: maps a request and the storage outcome to a
//! structured response, and serialises it to wire bytes.
//!
//! A response is an ordered list of header entries, the first being the
//! synthetic status line with an empty value, followed by the body.  On the
//! wire each entry becomes `Key: Value\r\n` — the status line, having no
//! value, just `Key\r\n` — then one blank line, then the body verbatim.

use crate::request::Request;
use crate::storage::StorageError;
use crate::text::{
    append_bytes, bytes_eq, copy_bytes, dec_digits, decimal_bytes, last_index_of, pairs_view,
    tail_after_last, COLON, CR, DOT, LF, SP,
};
use vstd::prelude::*;
use vstd::string::StringExecFns;
use vstd::utf8::encode_utf8;

verus! {

/// The statuses a response can carry.
#[derive(Clone, Copy, Debug, PartialEq, Eq, Structural)]
pub enum Status {
    Okay,
    NotFound,
    NotAllowed,
}

/// The code and canonical reason phrase of a status.
pub open spec fn spec_status_text(s: Status) -> Seq<char> {
    match s {
        Status::Okay => "200 OK"@,
        Status::NotFound => "404 Not Found"@,
        Status::NotAllowed => "405 Method Not Allowed"@,
    }
}

impl Status {
    /// The code and canonical reason phrase, as written on the status line.
    pub fn as_str(&self) -> (r: &'static str)
        ensures
            r@ == spec_status_text(*self),
    {
        match self {
            Status::Okay => "200 OK",
            Status::NotFound => "404 Not Found",
            Status::NotAllowed => "405 Method Not Allowed",
        }
    }
}

/// The two bytes that end every header line.
pub open spec fn crlf() -> Seq<u8> {
    seq![CR, LF]
}

/// The two bytes between a header key and its value.
pub open spec fn colon_space() -> Seq<u8> {
    seq![COLON, SP]
}

/// One header entry on the wire: `Key: Value\r\n`, or `Key\r\n` when the
/// value is empty, as for the status line.
pub open spec fn spec_header_line_bytes(kv: (Seq<u8>, Seq<u8>)) -> Seq<u8> {
    if kv.1.len() == 0 {
        kv.0 + crlf()
    } else {
        kv.0 + colon_space() + kv.1 + crlf()
    }
}

/// All header entries on the wire, in order.
pub open spec fn spec_serialize_headers(hs: Seq<(Seq<u8>, Seq<u8>)>) -> Seq<u8>
    decreases hs.len(),
{
    if hs.len() == 0 {
        Seq::<u8>::empty()
    } else {
        spec_header_line_bytes(hs[0]) + spec_serialize_headers(hs.skip(1))
    }
}

/// A whole response on the wire: the header entries, one blank line, then
/// the body verbatim.
pub open spec fn spec_response_bytes(hs: Seq<(Seq<u8>, Seq<u8>)>, body: Seq<u8>) -> Seq<u8> {
    spec_serialize_headers(hs) + crlf() + body
}

/// The synthetic status line: `HTTP/1.1 ` followed by the status text.
pub open spec fn spec_status_line(status: Seq<char>) -> Seq<u8> {
    encode_utf8("HTTP/1.1 "@) + encode_utf8(status)
}

/// The three header entries of every response: the status line with an
/// empty value, the content type, and the content length in decimal.
pub open spec fn spec_create_headers(content_type: Seq<char>, length: nat, status: Seq<char>) -> Seq<
    (Seq<u8>, Seq<u8>),
> {
    seq![
        (spec_status_line(status), Seq::<u8>::empty()),
        (encode_utf8("Content-Type"@), encode_utf8(content_type)),
        (encode_utf8("Content-Length"@), dec_digits(length)),
    ]
}

/// The part of a path after its last `.`; the whole path when it has none.
pub open spec fn spec_extension(path: Seq<u8>) -> Seq<u8> {
    match last_index_of(path, DOT) {
        Option::Some(i) => path.skip(i + 1),
        Option::None => path,
    }
}

/// The content type a path's extension maps to; `text/html` for anything
/// not in the table.
pub open spec fn spec_content_type(path: Seq<u8>) -> Seq<char> {
    let ext = spec_extension(path);
    if ext == encode_utf8("html"@) {
        "text/html"@
    } else if ext == encode_utf8("css"@) {
        "text/css"@
    } else if ext == encode_utf8("js"@) {
        "application/javascript"@
    } else if ext == encode_utf8("svg"@) {
        "image/svg+xml"@
    } else if ext == encode_utf8("png"@) {
        "image/png"@
    } else if ext == encode_utf8("jpg"@) || ext == encode_utf8("jpeg"@) {
        "image/jpeg"@
    } else {
        "text/html"@
    }
}

/// The fixed error page up to the embedded status text.
pub open spec fn error_page_head() -> Seq<char> {
    r#"
            <!DOCTYPE html>
                <html lang="pt-BR">
                <head>
                    <meta charset="UTF-8">
                    <meta name="viewport" content="width=device-width, initial-scale=1.0">
                    <title>Minimal HTTP Server</title>

                    <style>
                        * {
                            margin: 0;
                            padding: 0;
                            box-sizing: border-box;
                        }

                        body {
                            display: flex;
                            align-items: center;
                            justify-content: center;
                            height: 100vh;
                        }

                        #container {
                            text-align: center;
                        }
                    </style>
                </head>
                <body>
                    <div id="container">
                        <h1>Minimal HTTP Server</h1>
                        <h2>"#@
}

/// The fixed error page after the embedded status text.
pub open spec fn error_page_tail() -> Seq<char> {
    r#"</h2>
                    </div>
                </body>
            </html>
        "#@
}

/// The text of the error page that embeds `message`.
pub open spec fn spec_error_text(message: Seq<char>) -> Seq<char> {
    error_page_head() + message + error_page_tail()
}

/// A structured response: ordered header entries, the first of them the
/// synthetic status line with an empty value, and the raw body bytes.
pub struct Response {
    pub headers: Vec<(Vec<u8>, Vec<u8>)>,
    pub body: Vec<u8>,
}

/// Builds the three response headers from the content type, the body
/// length and the status text.
pub fn create_headers(content_type: &str, length: usize, status: &str) -> (r: Vec<
    (Vec<u8>, Vec<u8>),
>)
    ensures
        pairs_view(r@) == spec_create_headers(content_type@, length as nat, status@),
{
    let mut status_line: Vec<u8> = copy_bytes("HTTP/1.1 ".as_bytes());
    append_bytes(&mut status_line, status.as_bytes());
    let mut headers: Vec<(Vec<u8>, Vec<u8>)> = Vec::new();
    headers.push((status_line, Vec::new()));
    headers.push((copy_bytes("Content-Type".as_bytes()), copy_bytes(content_type.as_bytes())));
    headers.push((copy_bytes("Content-Length".as_bytes()), decimal_bytes(length)));
    proof {
        assert(pairs_view(headers@) =~= spec_create_headers(
            content_type@,
            length as nat,
            status@,
        ));
    }
    headers
}

/// The content type derived from the extension of the original request
/// path.
pub fn get_content_type(path: &[u8]) -> (r: &'static str)
    ensures
        r@ == spec_content_type(path@),
{
    let ext = tail_after_last(path, DOT);
    if bytes_eq(ext.as_slice(), "html".as_bytes()) {
        "text/html"
    } else if bytes_eq(ext.as_slice(), "css".as_bytes()) {
        "text/css"
    } else if bytes_eq(ext.as_slice(), "js".as_bytes()) {
        "application/javascript"
    } else if bytes_eq(ext.as_slice(), "svg".as_bytes()) {
        "image/svg+xml"
    } else if bytes_eq(ext.as_slice(), "png".as_bytes()) {
        "image/png"
    } else if bytes_eq(ext.as_slice(), "jpg".as_bytes()) || bytes_eq(
        ext.as_slice(),
        "jpeg".as_bytes(),
    ) {
        "image/jpeg"
    } else {
        "text/html"
    }
}

/// The fixed HTML error page with `error_message` embedded in it.
pub fn response_body_when_has_error(error_message: &str) -> (r: String)
    ensures
        r@ == spec_error_text(error_message@),
{
    let mut page = String::new();
    page.append(
        r#"
            <!DOCTYPE html>
                <html lang="pt-BR">
                <head>
                    <meta charset="UTF-8">
                    <meta name="viewport" content="width=device-width, initial-scale=1.0">
                    <title>Minimal HTTP Server</title>

                    <style>
                        * {
                            margin: 0;
                            padding: 0;
                            box-sizing: border-box;
                        }

                        body {
                            display: flex;
                            align-items: center;
                            justify-content: center;
                            height: 100vh;
                        }

                        #container {
                            text-align: center;
                        }
                    </style>
                </head>
                <body>
                    <div id="container">
                        <h1>Minimal HTTP Server</h1>
                        <h2>"#,
    );
    page.append(error_message);
    page.append(
        r#"</h2>
                    </div>
                </body>
            </html>
        "#,
    );
    page
}

impl Response {
    /// A response from its parts.
    pub fn new(headers: Vec<(Vec<u8>, Vec<u8>)>, body: Vec<u8>) -> (r: Response)
        ensures
            r.headers == headers,
            r.body == body,
    {
        Response { headers, body }
    }

    /// Builds the response to a GET request from the storage outcome for
    /// its path: the file's bytes under status 200 with the content type
    /// the path's extension gives, or, when storage failed, the fixed
    /// error page under status 404 with content type `text/html`.
    pub fn create_response(request: &Request, file: Result<Vec<u8>, StorageError>) -> (r: Response)
        ensures
            match file {
                Ok(content) => pairs_view(r.headers@) == spec_create_headers(
                    spec_content_type(request.path@),
                    content@.len(),
                    spec_status_text(Status::Okay),
                ) && r.body@ == content@,
                Err(_) => ({
                    let page = encode_utf8(spec_error_text(spec_status_text(Status::NotFound)));
                    pairs_view(r.headers@) == spec_create_headers(
                        "text/html"@,
                        page.len(),
                        spec_status_text(Status::NotFound),
                    ) && r.body@ == page
                }),
            },
    {
        match file {
            Ok(content) => {
                let content_type = get_content_type(request.path.as_slice());
                let headers = create_headers(content_type, content.len(), Status::Okay.as_str());
                Response { headers, body: content }
            },
            Err(_) => {
                let page = response_body_when_has_error(Status::NotFound.as_str());
                let body = copy_bytes(page.as_str().as_bytes());
                let headers = create_headers("text/html", body.len(), Status::NotFound.as_str());
                Response { headers, body }
            },
        }
    }

    /// Serialises the response for the wire: each header entry as
    /// `Key: Value\r\n` — the status line, with its empty value, as
    /// `Key\r\n` — then one blank line, then the body verbatim.
    pub fn as_bytes(&self) -> (r: Vec<u8>)
        ensures
            r@ == spec_response_bytes(pairs_view(self.headers@), self.body@),
    {
        let ghost hs = pairs_view(self.headers@);
        let mut r: Vec<u8> = Vec::new();
        proof {
            assert(hs.skip(0) =~= hs);
            assert(r@ =~= Seq::<u8>::empty());
        }
        let n: usize = self.headers.len();
        let mut i: usize = 0;
        while i < n
            invariant
                0 <= i <= n,
                n == self.headers@.len(),
                hs == pairs_view(self.headers@),
                spec_serialize_headers(hs) == r@ + spec_serialize_headers(hs.skip(i as int)),
            decreases n - i,
        {
            proof {
                assert(hs.skip(i as int)[0] == hs[i as int]);
                assert(hs.skip(i as int).skip(1) =~= hs.skip(i + 1));
            }
            let ghost r0 = r@;
            append_bytes(&mut r, self.headers[i].0.as_slice());
            if self.headers[i].1.len() > 0 {
                r.push(COLON);
                r.push(SP);
                append_bytes(&mut r, self.headers[i].1.as_slice());
            }
            r.push(CR);
            r.push(LF);
            proof {
                assert(r@ =~= r0 + spec_header_line_bytes(hs[i as int]));
                assert(r0 + spec_header_line_bytes(hs[i as int]) + spec_serialize_headers(
                    hs.skip(i + 1),
                ) =~= r0 + (spec_header_line_bytes(hs[i as int]) + spec_serialize_headers(
                    hs.skip(i + 1),
                )));
            }
            i = i + 1;
        }
        proof {
            assert(hs.skip(n as int) =~= Seq::<(Seq<u8>, Seq<u8>)>::empty());
            assert(r@ + Seq::<u8>::empty() =~= r@);
        }
        r.push(CR);
        r.push(LF);
        append_bytes(&mut r, self.body.as_slice());
        proof {
            assert(r@ =~= spec_serialize_headers(hs) + crlf() + self.body@);
        }
        r
    }
}

} // verus!
