//! The request reader: turns the inbound byte stream into a
//! `ParsedRequest` or a terminal parse failure.
//!
//! The caller owns the socket and feeds the reader one line at a time
//! (each line as delivered, delimiter included); the reader makes
//! every decision: when the header section ends, how many body bytes
//! to read, and which failure a malformed stream is.  `parse_request`
//! runs the same machine over a fully buffered stream.
use vstd::prelude::*;
use crate::bytemap::{assoc_get, assoc_insert, distinct_keys, ByteMap};
use crate::text::{
    dec_value, digits_part, find_byte, find_first, is_valid_uint, lemma_find_first, parse_usize,
    spec_lower, spec_trim, str_bytes, to_lower, trim,
};
use vstd::slice::{slice_subrange, slice_to_vec};
use vstd::string::StringSliceAdditionalSpecFns;
use vstd::utf8::valid_utf8;

verus! {

#[derive(Debug, Clone, Copy, PartialEq, Eq, Structural)]
pub enum RequestError {
    /// The stream closed before the header section was terminated.
    ConnectionClosed,
    /// The header section terminated before any line was read.
    EmptyRequest,
    /// The request line holds fewer than two space-separated tokens.
    MalformedRequestLine,
    /// A header-section line is not valid UTF-8.
    InvalidEncoding,
    /// The declared `Content-Length` exceeds the bytes actually sent.
    TruncatedBody,
}

/// What the caller should do next with the stream.
#[derive(Debug, Clone, Copy, PartialEq, Eq, Structural)]
pub enum ReadStep {
    /// Keep reading header-section lines.
    MoreLines,
    /// The head is complete; read exactly this many body bytes.
    NeedBody(usize),
    /// The head is complete and no body is owed.
    HeadDone,
}

/// A parsed request: method and path from the request line, the
/// lowercased header table, and the body owed by `Content-Length`.
#[derive(Debug)]
pub struct ParsedRequest {
    pub method: Vec<u8>,
    pub path: Vec<u8>,
    pub headers: ByteMap,
    pub body: Option<Vec<u8>>,
}

/// The mathematical shape of a parsed request.
pub struct RequestModel {
    pub method: Seq<u8>,
    pub path: Seq<u8>,
    pub headers: Seq<(Seq<u8>, Seq<u8>)>,
    pub body: Option<Seq<u8>>,
}

impl View for ParsedRequest {
    type V = RequestModel;

    open spec fn view(&self) -> RequestModel {
        RequestModel {
            method: self.method@,
            path: self.path@,
            headers: self.headers@,
            body: match self.body {
                Some(b) => Some(b@),
                None => None,
            },
        }
    }
}

/// A line with its end-of-line markers removed: one trailing `\n`,
/// then one trailing `\r`.
pub open spec fn strip_eol(line: Seq<u8>) -> Seq<u8> {
    let a = if line.len() > 0 && line[line.len() - 1] == 10 {
        line.drop_last()
    } else {
        line
    };
    if a.len() > 0 && a[a.len() - 1] == 13 {
        a.drop_last()
    } else {
        a
    }
}

/// A header line split at its first `:`: the key trimmed and
/// lowercased, the value trimmed.  A line without `:` is no header
/// and is silently skipped.
pub open spec fn spec_header_entry(l: Seq<u8>) -> Option<(Seq<u8>, Seq<u8>)> {
    match find_first(l, 58) {
        Some(i) => Some((spec_lower(spec_trim(l.take(i))), spec_trim(l.skip(i + 1)))),
        None => None,
    }
}

/// The body length owed by the header table: the `content-length`
/// value when it parses as a non-negative integer, zero otherwise.
pub open spec fn spec_content_length(hs: Seq<(Seq<u8>, Seq<u8>)>) -> nat {
    match assoc_get(hs, "content-length".spec_bytes()) {
        Some(v) => if is_valid_uint(v) && dec_value(digits_part(v)) <= usize::MAX {
            dec_value(digits_part(v))
        } else {
            0
        },
        None => 0,
    }
}

/// The request line split on single spaces: token 0 is the method,
/// token 1 the path; further tokens are ignored.  `None` when there
/// are fewer than two tokens.
pub open spec fn spec_split_request_line(l: Seq<u8>) -> Option<(Seq<u8>, Seq<u8>)> {
    match find_first(l, 32) {
        None => None,
        Some(i) => {
            let rest = l.skip(i + 1);
            let path = match find_first(rest, 32) {
                Some(j) => rest.take(j),
                None => rest,
            };
            Some((l.take(i), path))
        },
    }
}

/// The first line of `s` (delimiter included) and the remainder.
pub open spec fn spec_take_line(s: Seq<u8>) -> (Seq<u8>, Seq<u8>) {
    match find_first(s, 10) {
        Some(i) => (s.take(i + 1), s.skip(i + 1)),
        None => (s, Seq::empty()),
    }
}

/// The header section of stream `s`, starting from reader state
/// (`rl`, `hs`): the request line, the header table and the unread
/// remainder, or the failure the stream runs into.
pub open spec fn spec_read_head(
    s: Seq<u8>,
    rl: Option<Seq<u8>>,
    hs: Seq<(Seq<u8>, Seq<u8>)>,
) -> Result<(Option<Seq<u8>>, Seq<(Seq<u8>, Seq<u8>)>, Seq<u8>), RequestError>
    decreases s.len(),
{
    if s.len() == 0 {
        Err(RequestError::ConnectionClosed)
    } else {
        let (line, rest) = spec_take_line(s);
        if !valid_utf8(line) {
            Err(RequestError::InvalidEncoding)
        } else {
            let l = strip_eol(line);
            if l.len() == 0 {
                Ok((rl, hs, rest))
            } else {
                proof {
                    lemma_find_first(s, 10);
                }
                if rl is None {
                    spec_read_head(rest, Some(l), hs)
                } else {
                    spec_read_head(
                        rest,
                        rl,
                        match spec_header_entry(l) {
                            Some(kv) => assoc_insert(hs, kv.0, kv.1),
                            None => hs,
                        },
                    )
                }
            }
        }
    }
}

/// The request assembled once the head is complete and the body-read
/// outcome is known.
pub open spec fn spec_finish(
    rl: Option<Seq<u8>>,
    hs: Seq<(Seq<u8>, Seq<u8>)>,
    body: Option<Seq<u8>>,
) -> Result<RequestModel, RequestError> {
    if spec_content_length(hs) > 0 && body is None {
        Err(RequestError::TruncatedBody)
    } else {
        match rl {
            None => Err(RequestError::EmptyRequest),
            Some(l) => match spec_split_request_line(l) {
                None => Err(RequestError::MalformedRequestLine),
                Some(mp) => Ok(
                    RequestModel { method: mp.0, path: mp.1, headers: hs, body },
                ),
            },
        }
    }
}

/// What parsing a fully delivered stream `s` (closed afterwards)
/// yields.
pub open spec fn spec_parse_request(s: Seq<u8>) -> Result<RequestModel, RequestError> {
    match spec_read_head(s, None, Seq::empty()) {
        Err(e) => Err(e),
        Ok(head) => {
            let n = spec_content_length(head.1);
            if n > 0 && head.2.len() < n {
                Err(RequestError::TruncatedBody)
            } else {
                spec_finish(
                    head.0,
                    head.1,
                    if n > 0 {
                        Some(head.2.take(n as int))
                    } else {
                        None
                    },
                )
            }
        },
    }
}

/// Relies on `core::str::from_utf8`: it accepts a byte slice exactly
/// when the slice is valid UTF-8.
#[verifier::external_body]
fn utf8_ok(bytes: &[u8]) -> (r: bool)
    ensures
        r == valid_utf8(bytes@),
{
    core::str::from_utf8(bytes).is_ok()
}

fn strip_eol_slice(line: &[u8]) -> (r: &[u8])
    ensures
        r@ == strip_eol(line@),
{
    let a: &[u8] = if line.len() > 0 && line[line.len() - 1] == 10 {
        let t = slice_subrange(line, 0, line.len() - 1);
        proof {
            assert(t@ =~= line@.drop_last());
        }
        t
    } else {
        line
    };
    if a.len() > 0 && a[a.len() - 1] == 13 {
        let t = slice_subrange(a, 0, a.len() - 1);
        proof {
            assert(t@ =~= a@.drop_last());
        }
        t
    } else {
        a
    }
}

/// The incremental reader for one connection's header section.
pub struct RequestReader {
    request_line: Option<Vec<u8>>,
    headers: ByteMap,
}

impl RequestReader {
    pub closed spec fn spec_request_line(&self) -> Option<Seq<u8>> {
        match self.request_line {
            Some(ref v) => Some(v@),
            None => None,
        }
    }

    pub closed spec fn spec_headers(&self) -> Seq<(Seq<u8>, Seq<u8>)> {
        self.headers@
    }

    pub open spec fn wf(&self) -> bool {
        distinct_keys(self.spec_headers())
    }

    pub fn new() -> (r: RequestReader)
        ensures
            r.wf(),
            r.spec_request_line() is None,
            r.spec_headers() == Seq::<(Seq<u8>, Seq<u8>)>::empty(),
    {
        RequestReader { request_line: None, headers: ByteMap::new() }
    }

    /// Feed one line exactly as read from the stream, delimiter
    /// included.  The result tells the caller whether to keep
    /// reading lines, read a body, or stop; an error ends the
    /// connection with the corresponding failure response.
    pub fn on_line(&mut self, line: &[u8]) -> (r: Result<ReadStep, RequestError>)
        requires
            old(self).wf(),
        ensures
            final(self).wf(),
            ({
                let l = strip_eol(line@);
                let hs = old(self).spec_headers();
                if !valid_utf8(line@) {
                    &&& r == Err::<ReadStep, RequestError>(RequestError::InvalidEncoding)
                    &&& final(self).spec_request_line() == old(self).spec_request_line()
                    &&& final(self).spec_headers() == hs
                } else if l.len() == 0 {
                    &&& r == Ok::<ReadStep, RequestError>(
                        if spec_content_length(hs) > 0 {
                            ReadStep::NeedBody(spec_content_length(hs) as usize)
                        } else {
                            ReadStep::HeadDone
                        },
                    )
                    &&& final(self).spec_request_line() == old(self).spec_request_line()
                    &&& final(self).spec_headers() == hs
                } else if old(self).spec_request_line() is None {
                    &&& r == Ok::<ReadStep, RequestError>(ReadStep::MoreLines)
                    &&& final(self).spec_request_line() == Some(l)
                    &&& final(self).spec_headers() == hs
                } else {
                    &&& r == Ok::<ReadStep, RequestError>(ReadStep::MoreLines)
                    &&& final(self).spec_request_line() == old(self).spec_request_line()
                    &&& final(self).spec_headers() == (match spec_header_entry(l) {
                        Some(kv) => assoc_insert(hs, kv.0, kv.1),
                        None => hs,
                    })
                }
            }),
    {
        if !utf8_ok(line) {
            return Err(RequestError::InvalidEncoding);
        }
        let l = strip_eol_slice(line);
        if l.len() == 0 {
            let cl_key = str_bytes("content-length");
            let n: usize = match self.headers.get(cl_key.as_slice()) {
                Some(v) => match parse_usize(v.as_slice()) {
                    Some(n) => n,
                    None => 0,
                },
                None => 0,
            };
            if n > 0 {
                Ok(ReadStep::NeedBody(n))
            } else {
                Ok(ReadStep::HeadDone)
            }
        } else if self.request_line.is_none() {
            self.request_line = Some(slice_to_vec(l));
            Ok(ReadStep::MoreLines)
        } else {
            proof {
                lemma_find_first(l@, 58);
            }
            match find_byte(l, 58) {
                Some(i) => {
                    let key_raw = slice_subrange(l, 0, i);
                    let val_raw = slice_subrange(l, i + 1, l.len());
                    proof {
                        assert(key_raw@ =~= l@.take(i as int));
                        assert(val_raw@ =~= l@.skip(i + 1));
                    }
                    let key = to_lower(trim(key_raw));
                    let val = slice_to_vec(trim(val_raw));
                    self.headers.insert(key, val);
                },
                None => {},
            }
            Ok(ReadStep::MoreLines)
        }
    }

    /// Assemble the request once the head is complete.  `body` is
    /// the outcome of the body read the caller was asked for:
    /// `None` when it failed or none was owed.
    pub fn finish(self, body: Option<Vec<u8>>) -> (r: Result<ParsedRequest, RequestError>)
        ensures
            (match r {
                Ok(req) => Ok::<RequestModel, RequestError>(req@),
                Err(e) => Err(e),
            }) == spec_finish(
                self.spec_request_line(),
                self.spec_headers(),
                match body {
                    Some(ref b) => Some(b@),
                    None => None,
                },
            ),
    {
        let owed: bool = {
            let cl_key = str_bytes("content-length");
            match self.headers.get(cl_key.as_slice()) {
                Some(v) => match parse_usize(v.as_slice()) {
                    Some(n) => n > 0,
                    None => false,
                },
                None => false,
            }
        };
        if owed && body.is_none() {
            return Err(RequestError::TruncatedBody);
        }
        let rl = match self.request_line {
            Some(rl) => rl,
            None => {
                return Err(RequestError::EmptyRequest);
            },
        };
        proof {
            lemma_find_first(rl@, 32);
        }
        match find_byte(rl.as_slice(), 32) {
            None => Err(RequestError::MalformedRequestLine),
            Some(i) => {
                let method = slice_to_vec(slice_subrange(rl.as_slice(), 0, i));
                let rest = slice_subrange(rl.as_slice(), i + 1, rl.len());
                proof {
                    assert(rest@ =~= rl@.skip(i + 1));
                    lemma_find_first(rest@, 32);
                }
                let path = match find_byte(rest, 32) {
                    Some(j) => slice_to_vec(slice_subrange(rest, 0, j)),
                    None => slice_to_vec(rest),
                };
                Ok(ParsedRequest { method, path, headers: self.headers, body })
            },
        }
    }
}

/// Parse a fully buffered request stream: the bytes in `input` are
/// all the connection delivered before closing.
pub fn parse_request(input: &[u8]) -> (r: Result<ParsedRequest, RequestError>)
    ensures
        (match r {
            Ok(req) => Ok::<RequestModel, RequestError>(req@),
            Err(e) => Err(e),
        }) == spec_parse_request(input@),
{
    let mut reader = RequestReader::new();
    let mut pos: usize = 0;
    let total = input.len();
    proof {
        assert(total == input@.len());
        assert(input@.skip(0) =~= input@);
    }
    loop
        invariant
            pos <= input@.len(),
            input@.len() <= usize::MAX,
            reader.wf(),
            spec_read_head(input@, None, Seq::<(Seq<u8>, Seq<u8>)>::empty()) == spec_read_head(
                input@.skip(pos as int),
                reader.spec_request_line(),
                reader.spec_headers(),
            ),
        decreases input@.len() - pos,
    {
        if pos == input.len() {
            proof {
                assert(input@.skip(pos as int) =~= Seq::<u8>::empty());
            }
            return Err(RequestError::ConnectionClosed);
        }
        let tail = slice_subrange(input, pos, input.len());
        proof {
            lemma_find_first(tail@, 10);
        }
        let (line, next): (&[u8], usize) = match find_byte(tail, 10) {
            Some(i) => (slice_subrange(tail, 0, i + 1), pos + i + 1),
            None => (tail, input.len()),
        };
        proof {
            let s = input@.skip(pos as int);
            assert(line@ =~= spec_take_line(s).0);
            assert(input@.skip(next as int) =~= spec_take_line(s).1);
        }
        let step = match reader.on_line(line) {
            Err(e) => {
                return Err(e);
            },
            Ok(step) => step,
        };
        match step {
            ReadStep::MoreLines => {
                pos = next;
            },
            ReadStep::NeedBody(n) => {
                if input.len() - next < n {
                    return Err(RequestError::TruncatedBody);
                }
                let body = slice_to_vec(slice_subrange(input, next, next + n));
                proof {
                    assert(body@ =~= input@.skip(next as int).take(n as int));
                }
                return reader.finish(Some(body));
            },
            ReadStep::HeadDone => {
                return reader.finish(None);
            },
        }
    }
}

/// The `Content-Length` boundary: a parsed request carries a body
/// exactly when the headers owe a positive length, the body is
/// exactly that long, and a stream that delivers fewer body bytes
/// than declared fails with `TruncatedBody` rather than hanging.
pub proof fn lemma_content_length_boundary(s: Seq<u8>)
    ensures
        spec_parse_request(s) matches Ok(m) ==> ((m.body is Some <==> spec_content_length(m.headers)
            > 0) && (m.body matches Some(b) ==> b.len() == spec_content_length(m.headers))),
        spec_read_head(s, None, Seq::<(Seq<u8>, Seq<u8>)>::empty()) matches Ok(head)
            && spec_content_length(head.1) > head.2.len() ==> spec_parse_request(s) == Err::<
            RequestModel,
            RequestError,
        >(RequestError::TruncatedBody),
{
}

} // verus!
