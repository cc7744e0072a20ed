//! Response serialization: status line, headers and body assembled
//! into the exact bytes written back over the connection.
use vstd::prelude::*;
use crate::blog::{json_escape, lemma_json_escape_len, spec_json_escape};
use crate::request::RequestError;
use crate::text::{dec_repr, str_bytes, usize_to_dec};
use vstd::string::StringSliceAdditionalSpecFns;

verus! {

/// A 200 response serving raw file bytes with the given MIME type.
pub open spec fn spec_ok_file_response(content_type: Seq<u8>, body: Seq<u8>) -> Seq<u8> {
    "HTTP/1.1 200 OK\r\nContent-Length: ".spec_bytes() + dec_repr(body.len())
        + "\r\nContent-Type: ".spec_bytes() + content_type + "\r\n\r\n".spec_bytes() + body
}

/// A 200 response carrying a JSON body, with the permissive CORS
/// header every JSON API response sets.
pub open spec fn spec_ok_json_response(body: Seq<u8>) -> Seq<u8> {
    "HTTP/1.1 200 OK\r\nContent-Type: application/json\r\nContent-Length: ".spec_bytes()
        + dec_repr(body.len()) + "\r\nAccess-Control-Allow-Origin: *\r\n\r\n".spec_bytes() + body
}

/// A 200 response carrying an HTML body.
pub open spec fn spec_ok_html_response(body: Seq<u8>) -> Seq<u8> {
    "HTTP/1.1 200 OK\r\nContent-Type: text/html\r\nContent-Length: ".spec_bytes() + dec_repr(
        body.len(),
    ) + "\r\n\r\n".spec_bytes() + body
}

/// The fixed 404 response for unresolved static paths.  The declared
/// length understates the body by one byte; the wire format keeps it
/// as the served behavior.
pub open spec fn spec_not_found_response() -> Seq<u8> {
    "HTTP/1.1 404 ERROR\r\nContent-Length: 13\r\n\r\nFile Not Found".spec_bytes()
}

/// A 500 response whose body is the JSON error envelope with the
/// message escaped, so the body is always valid JSON with an `error`
/// field, and the declared length covers the whole body.
pub open spec fn spec_server_error_response(msg: Seq<u8>) -> Seq<u8> {
    "HTTP/1.1 500 Internal Server Error\r\nContent-Type: application/json\r\nContent-Length: ".spec_bytes()
        + dec_repr((spec_json_escape(msg).len() + 12) as nat) + "\r\n\r\n".spec_bytes()
        + "{\"error\":\"".spec_bytes() + spec_json_escape(msg) + "\"}".spec_bytes()
}

/// A 404 response carrying the JSON error envelope, for API routes
/// whose failure is a missing resource rather than a handler fault.
pub open spec fn spec_not_found_json_response(msg: Seq<u8>) -> Seq<u8> {
    "HTTP/1.1 404 Not Found\r\nContent-Type: application/json\r\nContent-Length: ".spec_bytes()
        + dec_repr((spec_json_escape(msg).len() + 12) as nat)
        + "\r\nAccess-Control-Allow-Origin: *\r\n\r\n".spec_bytes()
        + "{\"error\":\"".spec_bytes() + spec_json_escape(msg) + "\"}".spec_bytes()
}

/// The 404 page for a missing blog post, with the message embedded
/// and the declared length covering the whole body.
pub open spec fn spec_blog_not_found_page(msg: Seq<u8>) -> Seq<u8> {
    "HTTP/1.1 404 Not Found\r\nContent-Type: text/html\r\nContent-Length: ".spec_bytes()
        + dec_repr((msg.len() + 61) as nat) + "\r\n\r\n".spec_bytes()
        + "<html><body><h1>Blog Post Not Found</h1><p>".spec_bytes() + msg
        + "</p></body></html>".spec_bytes()
}

/// The minimal 400 response for each request-parsing failure.
pub open spec fn spec_bad_request_response(e: RequestError) -> Seq<u8> {
    match e {
        RequestError::InvalidEncoding => "HTTP/1.1 400 Bad Request\r\n\r\nInvalid UTF-8 in request".spec_bytes(),
        RequestError::MalformedRequestLine => "HTTP/1.1 400 Bad Request\r\n\r\nMalformed request line".spec_bytes(),
        _ => "HTTP/1.1 400 Bad Request\r\n\r\nInvalid Request".spec_bytes(),
    }
}

/// The 400 response for a chat request that carries no body.
pub open spec fn spec_missing_body_response() -> Seq<u8> {
    "HTTP/1.1 400 Bad Request\r\n\r\nMissing request body".spec_bytes()
}

pub fn ok_file_response(content_type: &[u8], body: &[u8]) -> (r: Vec<u8>)
    ensures
        r@ == spec_ok_file_response(content_type@, body@),
{
    let mut r = str_bytes("HTTP/1.1 200 OK\r\nContent-Length: ");
    let n = usize_to_dec(body.len());
    r.extend_from_slice(n.as_slice());
    r.extend_from_slice(str_bytes("\r\nContent-Type: ").as_slice());
    r.extend_from_slice(content_type);
    r.extend_from_slice(str_bytes("\r\n\r\n").as_slice());
    r.extend_from_slice(body);
    proof {
        assert(r@ =~= spec_ok_file_response(content_type@, body@));
    }
    r
}

pub fn ok_json_response(body: &[u8]) -> (r: Vec<u8>)
    ensures
        r@ == spec_ok_json_response(body@),
{
    let mut r = str_bytes("HTTP/1.1 200 OK\r\nContent-Type: application/json\r\nContent-Length: ");
    let n = usize_to_dec(body.len());
    r.extend_from_slice(n.as_slice());
    r.extend_from_slice(str_bytes("\r\nAccess-Control-Allow-Origin: *\r\n\r\n").as_slice());
    r.extend_from_slice(body);
    proof {
        assert(r@ =~= spec_ok_json_response(body@));
    }
    r
}

pub fn ok_html_response(body: &[u8]) -> (r: Vec<u8>)
    ensures
        r@ == spec_ok_html_response(body@),
{
    let mut r = str_bytes("HTTP/1.1 200 OK\r\nContent-Type: text/html\r\nContent-Length: ");
    let n = usize_to_dec(body.len());
    r.extend_from_slice(n.as_slice());
    r.extend_from_slice(str_bytes("\r\n\r\n").as_slice());
    r.extend_from_slice(body);
    proof {
        assert(r@ =~= spec_ok_html_response(body@));
    }
    r
}

pub fn not_found_response() -> (r: Vec<u8>)
    ensures
        r@ == spec_not_found_response(),
{
    str_bytes("HTTP/1.1 404 ERROR\r\nContent-Length: 13\r\n\r\nFile Not Found")
}

pub fn server_error_response(msg: &[u8]) -> (r: Vec<u8>)
    requires
        msg@.len() <= (usize::MAX - 12) / 6,
    ensures
        r@ == spec_server_error_response(msg@),
{
    let esc = json_escape(msg);
    proof {
        lemma_json_escape_len(msg@);
        assert(6 * msg@.len() <= usize::MAX - 12) by (nonlinear_arith)
            requires
                msg@.len() <= (usize::MAX - 12) / 6,
        ;
    }
    let mut r = str_bytes(
        "HTTP/1.1 500 Internal Server Error\r\nContent-Type: application/json\r\nContent-Length: ",
    );
    let n = usize_to_dec(esc.len() + 12);
    r.extend_from_slice(n.as_slice());
    r.extend_from_slice(str_bytes("\r\n\r\n").as_slice());
    r.extend_from_slice(str_bytes("{\"error\":\"").as_slice());
    r.extend_from_slice(esc.as_slice());
    r.extend_from_slice(str_bytes("\"}").as_slice());
    proof {
        assert(r@ =~= spec_server_error_response(msg@));
    }
    r
}

pub fn not_found_json_response(msg: &[u8]) -> (r: Vec<u8>)
    requires
        msg@.len() <= (usize::MAX - 12) / 6,
    ensures
        r@ == spec_not_found_json_response(msg@),
{
    let esc = json_escape(msg);
    proof {
        lemma_json_escape_len(msg@);
        assert(6 * msg@.len() <= usize::MAX - 12) by (nonlinear_arith)
            requires
                msg@.len() <= (usize::MAX - 12) / 6,
        ;
    }
    let mut r = str_bytes(
        "HTTP/1.1 404 Not Found\r\nContent-Type: application/json\r\nContent-Length: ",
    );
    let n = usize_to_dec(esc.len() + 12);
    r.extend_from_slice(n.as_slice());
    r.extend_from_slice(str_bytes("\r\nAccess-Control-Allow-Origin: *\r\n\r\n").as_slice());
    r.extend_from_slice(str_bytes("{\"error\":\"").as_slice());
    r.extend_from_slice(esc.as_slice());
    r.extend_from_slice(str_bytes("\"}").as_slice());
    proof {
        assert(r@ =~= spec_not_found_json_response(msg@));
    }
    r
}

pub fn blog_not_found_page(msg: &[u8]) -> (r: Vec<u8>)
    requires
        msg@.len() + 61 <= usize::MAX,
    ensures
        r@ == spec_blog_not_found_page(msg@),
{
    let mut r = str_bytes("HTTP/1.1 404 Not Found\r\nContent-Type: text/html\r\nContent-Length: ");
    let n = usize_to_dec(msg.len() + 61);
    r.extend_from_slice(n.as_slice());
    r.extend_from_slice(str_bytes("\r\n\r\n").as_slice());
    r.extend_from_slice(str_bytes("<html><body><h1>Blog Post Not Found</h1><p>").as_slice());
    r.extend_from_slice(msg);
    r.extend_from_slice(str_bytes("</p></body></html>").as_slice());
    proof {
        assert(r@ =~= spec_blog_not_found_page(msg@));
    }
    r
}

pub fn bad_request_response(e: &RequestError) -> (r: Vec<u8>)
    ensures
        r@ == spec_bad_request_response(*e),
{
    match e {
        RequestError::InvalidEncoding => str_bytes(
            "HTTP/1.1 400 Bad Request\r\n\r\nInvalid UTF-8 in request",
        ),
        RequestError::MalformedRequestLine => str_bytes(
            "HTTP/1.1 400 Bad Request\r\n\r\nMalformed request line",
        ),
        _ => str_bytes("HTTP/1.1 400 Bad Request\r\n\r\nInvalid Request"),
    }
}

pub fn missing_body_response() -> (r: Vec<u8>)
    ensures
        r@ == spec_missing_body_response(),
{
    str_bytes("HTTP/1.1 400 Bad Request\r\n\r\nMissing request body")
}

} // verus!
