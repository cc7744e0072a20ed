//! The request dispatcher: matches method and path against the fixed
//! route table, in priority order, and names the handler to run.
use vstd::prelude::*;
use crate::request::ParsedRequest;
use crate::text::{bytes_eq, is_prefix, starts_with, str_bytes};
use vstd::slice::{slice_subrange, slice_to_vec};
use vstd::string::StringSliceAdditionalSpecFns;

verus! {

/// The handler a request is routed to.
#[derive(Debug)]
pub enum RouteTarget {
    /// `GET /api/blogs`.
    BlogsListApi,
    /// `GET /api/blog/{slug}`; the slug may be empty.
    BlogPostApi(Vec<u8>),
    /// `GET /blogs/{slug}` with a non-empty slug.
    BlogPostPage(Vec<u8>),
    /// `POST /api/chat` with a body present.
    ChatApi,
    /// `POST /api/chat` without a body: answered 400.
    ChatMissingBody,
    /// Everything else: static resolution of the path.
    StaticFile,
}

/// The mathematical shape of a routing decision.
pub enum RouteModel {
    BlogsListApi,
    BlogPostApi(Seq<u8>),
    BlogPostPage(Seq<u8>),
    ChatApi,
    ChatMissingBody,
    StaticFile,
}

impl View for RouteTarget {
    type V = RouteModel;

    open spec fn view(&self) -> RouteModel {
        match self {
            RouteTarget::BlogsListApi => RouteModel::BlogsListApi,
            RouteTarget::BlogPostApi(s) => RouteModel::BlogPostApi(s@),
            RouteTarget::BlogPostPage(s) => RouteModel::BlogPostPage(s@),
            RouteTarget::ChatApi => RouteModel::ChatApi,
            RouteTarget::ChatMissingBody => RouteModel::ChatMissingBody,
            RouteTarget::StaticFile => RouteModel::StaticFile,
        }
    }
}

/// The routing rules, first match wins.  `GET /api/blogs` and
/// `GET /api/blog/{slug}` never overlap (the prefix ends in a
/// slash); `/blogs` and `/blogs/` intentionally fall through to
/// static serving rather than naming an empty slug.
pub open spec fn spec_dispatch(method: Seq<u8>, path: Seq<u8>, has_body: bool) -> RouteModel {
    if method == "GET".spec_bytes() && path == "/api/blogs".spec_bytes() {
        RouteModel::BlogsListApi
    } else if method == "GET".spec_bytes() && is_prefix("/api/blog/".spec_bytes(), path) {
        RouteModel::BlogPostApi(path.skip(10))
    } else if method == "GET".spec_bytes() && is_prefix("/blogs/".spec_bytes(), path)
        && path.len() > 7 {
        RouteModel::BlogPostPage(path.skip(7))
    } else if method == "POST".spec_bytes() && path == "/api/chat".spec_bytes() {
        if has_body {
            RouteModel::ChatApi
        } else {
            RouteModel::ChatMissingBody
        }
    } else {
        RouteModel::StaticFile
    }
}

/// Route a parsed request to exactly one handler.
pub fn dispatch(req: &ParsedRequest) -> (r: RouteTarget)
    ensures
        r@ == spec_dispatch(req.method@, req.path@, req.body is Some),
{
    let get = str_bytes("GET");
    let post = str_bytes("POST");
    let path = req.path.as_slice();
    let method = req.method.as_slice();
    if bytes_eq(method, get.as_slice()) && bytes_eq(path, str_bytes("/api/blogs").as_slice()) {
        return RouteTarget::BlogsListApi;
    }
    if bytes_eq(method, get.as_slice()) && starts_with(path, str_bytes("/api/blog/").as_slice()) {
        proof {
            reveal_strlit("/api/blog/");
            crate::text::lemma_ascii_str_bytes("/api/blog/");
        }
        let slug = slice_to_vec(slice_subrange(path, 10, path.len()));
        proof {
            assert(slug@ =~= req.path@.skip(10));
        }
        return RouteTarget::BlogPostApi(slug);
    }
    if bytes_eq(method, get.as_slice()) && starts_with(path, str_bytes("/blogs/").as_slice())
        && path.len() > 7 {
        proof {
            reveal_strlit("/blogs/");
            crate::text::lemma_ascii_str_bytes("/blogs/");
        }
        let slug = slice_to_vec(slice_subrange(path, 7, path.len()));
        proof {
            assert(slug@ =~= req.path@.skip(7));
        }
        return RouteTarget::BlogPostPage(slug);
    }
    if bytes_eq(method, post.as_slice()) && bytes_eq(path, str_bytes("/api/chat").as_slice()) {
        if req.body.is_some() {
            return RouteTarget::ChatApi;
        }
        return RouteTarget::ChatMissingBody;
    }
    RouteTarget::StaticFile
}

} // verus!
