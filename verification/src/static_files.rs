//! The path-resolution sandbox: maps a client-supplied URL path to a
//! candidate filesystem path under the configured document root, and
//! decides from canonicalization outcomes whether the result stays
//! inside the root.
//!
//! The resolver itself never touches the filesystem.  The caller
//! supplies the two observations the original logic drew from it:
//! whether the joined path is an existing directory, and the
//! canonical forms of the root and of the candidate (`None` when
//! canonicalization fails).  Paths are modelled as byte strings with
//! `/` as the separator, exactly as they appear on the wire and on a
//! Unix filesystem.
use vstd::prelude::*;
use crate::bytemap::{assoc_get, assoc_has, ByteMap};
use crate::config::StaticConfig;
use crate::text::{
    byte_prefix_len, bytes_eq, ends_with, is_prefix, starts_with, str_bytes, trim_start_matches_byte,
};
use vstd::string::StringSliceAdditionalSpecFns;

verus! {

#[derive(Debug, Clone, Copy, PartialEq, Eq, Structural)]
pub enum ResolveError {
    Forbidden,
    NotFound,
}

pub struct StaticFileResolver {
    root_dir: Vec<u8>,
    index_file: Vec<u8>,
    auto_index: bool,
    routes: ByteMap,
}

/// A URL path normalized: empty becomes `/`, and a leading `/` is
/// prepended when missing.  No percent-decoding and no collapsing of
/// `.` or `..` segments happens here; the canonical-prefix check is
/// the sole defense against traversal.
pub open spec fn spec_normalize(p: Seq<u8>) -> Seq<u8> {
    if p.len() == 0 {
        seq![47u8]
    } else if p[0] != 47 {
        seq![47u8] + p
    } else {
        p
    }
}

/// `base` joined with a relative path, as `Path::join` behaves for a
/// non-absolute right-hand side.
pub open spec fn spec_join(base: Seq<u8>, rel: Seq<u8>) -> Seq<u8> {
    if base.len() == 0 {
        rel
    } else if base[base.len() - 1] == 47 {
        base + rel
    } else {
        base + seq![47u8] + rel
    }
}

/// The candidate filesystem path for URL path `p`.  A route override
/// keyed by the normalized path bypasses all filesystem-shape
/// inference; otherwise the normalized path is joined under the root,
/// and the index file is appended when the path names a directory
/// (trailing slash or an existing directory) and auto-index is on.
pub open spec fn spec_resolve(
    root: Seq<u8>,
    index: Seq<u8>,
    auto: bool,
    routes: Seq<(Seq<u8>, Seq<u8>)>,
    p: Seq<u8>,
    joined_is_dir: bool,
) -> Seq<u8> {
    let norm = spec_normalize(p);
    match assoc_get(routes, norm) {
        Some(rel) => spec_join(root, rel),
        None => {
            let joined = spec_join(root, norm.skip(byte_prefix_len(norm, 47)));
            if (norm[norm.len() - 1] == 47 || joined_is_dir) && auto {
                spec_join(joined, index)
            } else {
                joined
            }
        },
    }
}

/// `cand` is `root` itself or lies below it, comparing whole path
/// components, as `Path::starts_with` behaves on canonical paths.
pub open spec fn spec_within_root(root: Seq<u8>, cand: Seq<u8>) -> bool {
    cand == root || (root.len() > 0 && root[root.len() - 1] == 47 && is_prefix(root, cand))
        || is_prefix(root + seq![47u8], cand)
}

/// The sandbox verdict from the canonicalization outcomes: a failed
/// canonicalization is `NotFound`; a canonical candidate outside the
/// canonical root is `Forbidden`; otherwise the canonical candidate
/// is the result.
pub open spec fn spec_validate(root_canon: Option<Seq<u8>>, cand_canon: Option<Seq<u8>>) -> Result<
    Seq<u8>,
    ResolveError,
> {
    if root_canon is None || cand_canon is None {
        Err(ResolveError::NotFound)
    } else if !spec_within_root(root_canon.unwrap(), cand_canon.unwrap()) {
        Err(ResolveError::Forbidden)
    } else {
        Ok(cand_canon.unwrap())
    }
}

/// Normalize a URL path: empty becomes `/`; a missing leading `/` is
/// prepended.
pub fn normalize_url_path(p: &[u8]) -> (r: Vec<u8>)
    ensures
        r@ == spec_normalize(p@),
{
    if p.len() == 0 {
        let mut r: Vec<u8> = Vec::new();
        r.push(47);
        proof {
            assert(r@ =~= spec_normalize(p@));
        }
        r
    } else if p[0] != 47 {
        let mut r: Vec<u8> = Vec::new();
        r.push(47);
        r.extend_from_slice(p);
        proof {
            assert(r@ =~= spec_normalize(p@));
        }
        r
    } else {
        let mut r: Vec<u8> = Vec::new();
        r.extend_from_slice(p);
        proof {
            assert(r@ =~= spec_normalize(p@));
        }
        r
    }
}

/// Join a base path with a relative path, inserting `/` as needed.
pub fn join_path(base: &[u8], rel: &[u8]) -> (r: Vec<u8>)
    ensures
        r@ == spec_join(base@, rel@),
{
    let mut r: Vec<u8> = Vec::new();
    r.extend_from_slice(base);
    if base.len() > 0 && base[base.len() - 1] != 47 {
        r.push(47);
    }
    r.extend_from_slice(rel);
    proof {
        assert(r@ =~= spec_join(base@, rel@));
    }
    r
}

/// Component-wise prefix test on canonical paths.
pub fn within_root(root: &[u8], cand: &[u8]) -> (r: bool)
    ensures
        r == spec_within_root(root@, cand@),
{
    if bytes_eq(cand, root) {
        return true;
    }
    if root.len() > 0 && root[root.len() - 1] == 47 && starts_with(cand, root) {
        return true;
    }
    let mut sep: Vec<u8> = Vec::new();
    sep.extend_from_slice(root);
    sep.push(47);
    proof {
        assert(sep@ =~= root@ + seq![47u8]);
    }
    starts_with(cand, sep.as_slice())
}

impl StaticFileResolver {
    pub closed spec fn spec_root(&self) -> Seq<u8> {
        self.root_dir@
    }

    pub closed spec fn spec_index_file(&self) -> Seq<u8> {
        self.index_file@
    }

    pub closed spec fn spec_auto_index(&self) -> bool {
        self.auto_index
    }

    pub closed spec fn spec_routes(&self) -> Seq<(Seq<u8>, Seq<u8>)> {
        self.routes@
    }

    /// A resolver serving the given static-file configuration.
    pub fn from_config(cfg: &StaticConfig) -> (r: Self)
        ensures
            r.spec_root() == cfg.root_dir@,
            r.spec_index_file() == cfg.index_file@,
            r.spec_auto_index() == cfg.auto_index,
            r.spec_routes() == cfg.routes@,
    {
        StaticFileResolver {
            root_dir: cfg.root_dir.clone(),
            index_file: cfg.index_file.clone(),
            auto_index: cfg.auto_index,
            routes: cfg.routes.duplicate(),
        }
    }

    /// The candidate filesystem path for `url_path`.  `joined_is_dir`
    /// is the caller's observation of whether the path joined under
    /// the root names an existing directory.  The candidate must
    /// still pass `validate_within_root` before any file is read.
    pub fn resolve(&self, url_path: &[u8], joined_is_dir: bool) -> (c: Vec<u8>)
        ensures
            c@ == spec_resolve(
                self.spec_root(),
                self.spec_index_file(),
                self.spec_auto_index(),
                self.spec_routes(),
                url_path@,
                joined_is_dir,
            ),
    {
        let norm = normalize_url_path(url_path);
        if let Some(rel) = self.routes.get(norm.as_slice()) {
            return join_path(self.root_dir.as_slice(), rel.as_slice());
        }
        let stripped = trim_start_matches_byte(norm.as_slice(), 47);
        let joined = join_path(self.root_dir.as_slice(), stripped);
        if (norm[norm.len() - 1] == 47 || joined_is_dir) && self.auto_index {
            join_path(joined.as_slice(), self.index_file.as_slice())
        } else {
            joined
        }
    }

    /// The part of `resolve` the caller must ask the filesystem
    /// about: the URL path joined under the root, before any index
    /// file is appended.
    pub fn joined_path(&self, url_path: &[u8]) -> (c: Vec<u8>)
        ensures
            c@ == spec_join(
                self.spec_root(),
                spec_normalize(url_path@).skip(
                    byte_prefix_len(spec_normalize(url_path@), 47),
                ),
            ),
    {
        let norm = normalize_url_path(url_path);
        let stripped = trim_start_matches_byte(norm.as_slice(), 47);
        join_path(self.root_dir.as_slice(), stripped)
    }

    /// The sandbox verdict.  `root_canon` and `cand_canon` are the
    /// canonical forms of the root directory and of the candidate, or
    /// `None` where canonicalization failed (missing file, broken
    /// symlink, permission error).  This check runs for every
    /// candidate, route overrides included.
    pub fn validate_within_root(
        root_canon: Option<Vec<u8>>,
        cand_canon: Option<Vec<u8>>,
    ) -> (r: Result<Vec<u8>, ResolveError>)
        ensures
            match r {
                Ok(p) => {
                    &&& root_canon matches Some(rt) && spec_within_root(rt@, p@)
                    &&& cand_canon matches Some(c) && p@ == c@
                },
                Err(e) => {
                    &&& (e is NotFound <==> root_canon is None || cand_canon is None)
                    &&& (e is Forbidden <==> (root_canon is Some && cand_canon is Some
                        && !spec_within_root(root_canon.unwrap()@, cand_canon.unwrap()@)))
                },
            },
            (match r {
                Ok(p) => Ok(p@),
                Err(e) => Err(e),
            }) == spec_validate(
                match root_canon {
                    Some(ref rt) => Some(rt@),
                    None => None,
                },
                match cand_canon {
                    Some(ref c) => Some(c@),
                    None => None,
                },
            ),
    {
        let rt = match root_canon {
            Some(rt) => rt,
            None => {
                return Err(ResolveError::NotFound);
            },
        };
        let c = match cand_canon {
            Some(c) => c,
            None => {
                return Err(ResolveError::NotFound);
            },
        };
        if within_root(rt.as_slice(), c.as_slice()) {
            Ok(c)
        } else {
            Err(ResolveError::Forbidden)
        }
    }
}

/// Outside the root means refused: whenever the canonical candidate
/// is not under the canonical root, the verdict is an error —
/// `Forbidden` here, or `NotFound` when canonicalization already
/// failed — and a returned path is always the canonical candidate,
/// confirmed to lie within the root.
pub proof fn lemma_sandbox_no_escape(root_canon: Option<Seq<u8>>, cand_canon: Option<Seq<u8>>)
    ensures
        spec_validate(root_canon, cand_canon) matches Ok(p) ==> root_canon is Some
            && cand_canon == Some(p) && spec_within_root(root_canon.unwrap(), p),
        root_canon matches Some(rt) && cand_canon matches Some(c) && !spec_within_root(rt, c)
            ==> spec_validate(root_canon, cand_canon) == Err::<Seq<u8>, ResolveError>(
            ResolveError::Forbidden,
        ),
        (root_canon is None || cand_canon is None) ==> spec_validate(root_canon, cand_canon)
            == Err::<Seq<u8>, ResolveError>(ResolveError::NotFound),
{
}

/// A configured route override bypasses filesystem-shape inference:
/// when the normalized path is a route key, the candidate is the
/// mapped value joined under the root, unaffected by the directory
/// observation and by auto-indexing.  The sandbox verdict of
/// `spec_validate` still applies to it unchanged, since the verdict
/// depends only on the canonicalization outcomes.
pub proof fn lemma_route_override_bypasses_inference(
    root: Seq<u8>,
    index: Seq<u8>,
    auto: bool,
    routes: Seq<(Seq<u8>, Seq<u8>)>,
    p: Seq<u8>,
    d1: bool,
    d2: bool,
)
    requires
        assoc_has(routes, spec_normalize(p)),
    ensures
        spec_resolve(root, index, auto, routes, p, d1) == spec_join(
            root,
            assoc_get(routes, spec_normalize(p)).unwrap(),
        ),
        spec_resolve(root, index, auto, routes, p, d1) == spec_resolve(
            root,
            index,
            auto,
            routes,
            p,
            d2,
        ),
{
}

/// Resolution draws on nothing but the configuration, the URL path
/// and the filesystem observations: two resolutions of the same path
/// against the same configuration, with no filesystem mutation in
/// between — so the directory test and the canonicalization outcomes
/// come back unchanged — give the same candidate and the same
/// verdict.
pub proof fn lemma_resolve_idempotent(
    root: Seq<u8>,
    index: Seq<u8>,
    auto: bool,
    routes: Seq<(Seq<u8>, Seq<u8>)>,
    p: Seq<u8>,
    d1: bool,
    d2: bool,
    root_canon1: Option<Seq<u8>>,
    root_canon2: Option<Seq<u8>>,
    cand_canon1: Option<Seq<u8>>,
    cand_canon2: Option<Seq<u8>>,
)
    requires
        d1 == d2,
        root_canon1 == root_canon2,
        cand_canon1 == cand_canon2,
    ensures
        spec_resolve(root, index, auto, routes, p, d1) == spec_resolve(
            root,
            index,
            auto,
            routes,
            p,
            d2,
        ),
        spec_validate(root_canon1, cand_canon1) == spec_validate(root_canon2, cand_canon2),
{
}

/// File extension of a path, modelling `Path::extension` on ordinary
/// file paths: the part of the final `/`-separated component after
/// its last `.`, provided that dot is not the component's first byte.
pub open spec fn spec_extension(p: Seq<u8>) -> Option<Seq<u8>> {
    let f = match crate::text::last_match_upto(p, seq![47u8], p.len() as int) {
        Some(i) => p.skip(i + 1),
        None => p,
    };
    match crate::text::last_match_upto(f, seq![46u8], f.len() as int) {
        Some(j) => if j > 0 {
            Some(f.skip(j + 1))
        } else {
            None
        },
        None => None,
    }
}

/// The built-in extension table, with `application/octet-stream` as
/// the opaque-binary default.
pub open spec fn spec_builtin_content_type(ext: Seq<u8>) -> Seq<u8> {
    if ext == "html".spec_bytes() {
        "text/html".spec_bytes()
    } else if ext == "css".spec_bytes() {
        "text/css".spec_bytes()
    } else if ext == "js".spec_bytes() {
        "application/javascript".spec_bytes()
    } else if ext == "json".spec_bytes() {
        "application/json".spec_bytes()
    } else if ext == "png".spec_bytes() {
        "image/png".spec_bytes()
    } else if ext == "jpg".spec_bytes() || ext == "jpeg".spec_bytes() {
        "image/jpeg".spec_bytes()
    } else if ext == "gif".spec_bytes() {
        "image/gif".spec_bytes()
    } else if ext == "svg".spec_bytes() {
        "image/svg+xml".spec_bytes()
    } else if ext == "ico".spec_bytes() {
        "image/x-icon".spec_bytes()
    } else {
        "application/octet-stream".spec_bytes()
    }
}

/// The MIME type served for `p`: the override table is consulted
/// first, keyed by the extension with a leading dot, then the
/// built-in table.
pub open spec fn spec_resolve_content_type(p: Seq<u8>, ov: Seq<(Seq<u8>, Seq<u8>)>) -> Seq<u8> {
    match spec_extension(p) {
        Some(ext) => match assoc_get(ov, seq![46u8] + ext) {
            Some(ct) => ct,
            None => spec_builtin_content_type(ext),
        },
        None => "application/octet-stream".spec_bytes(),
    }
}

/// File extension of a path, if any.
pub fn path_extension(p: &[u8]) -> (r: Option<Vec<u8>>)
    ensures
        match r {
            Some(e) => spec_extension(p@) == Some(e@),
            None => spec_extension(p@) is None,
        },
{
    let slash: Vec<u8> = {
        let mut v: Vec<u8> = Vec::new();
        v.push(47);
        v
    };
    let dot: Vec<u8> = {
        let mut v: Vec<u8> = Vec::new();
        v.push(46);
        v
    };
    proof {
        assert(slash@ =~= seq![47u8]);
        assert(dot@ =~= seq![46u8]);
    }
    proof {
        crate::text::lemma_last_match_upto(p@, seq![47u8], p@.len() as int);
    }
    let n = p.len();
    let f: &[u8] = match crate::text::rfind_sub(p, slash.as_slice()) {
        Some(i) => vstd::slice::slice_subrange(p, i + 1, n),
        None => p,
    };
    proof {
        assert(f@ == match crate::text::last_match_upto(p@, seq![47u8], p@.len() as int) {
            Some(i) => p@.skip(i + 1),
            None => p@,
        });
    }
    proof {
        crate::text::lemma_last_match_upto(f@, seq![46u8], f@.len() as int);
    }
    let m = f.len();
    match crate::text::rfind_sub(f, dot.as_slice()) {
        Some(j) => {
            if j > 0 {
                let e = vstd::slice::slice_to_vec(
                    vstd::slice::slice_subrange(f, j + 1, m),
                );
                Some(e)
            } else {
                None
            }
        },
        None => None,
    }
}

/// The MIME type for the file at `p`, given the configured overrides.
pub fn resolve_content_type(p: &[u8], overrides: &ByteMap) -> (r: Vec<u8>)
    ensures
        r@ == spec_resolve_content_type(p@, overrides@),
{
    match path_extension(p) {
        Some(ext) => {
            let mut key: Vec<u8> = Vec::new();
            key.push(46);
            key.extend_from_slice(ext.as_slice());
            proof {
                assert(key@ =~= seq![46u8] + ext@);
            }
            if let Some(ct) = overrides.get(key.as_slice()) {
                return ct.clone();
            }
            if bytes_eq(ext.as_slice(), str_bytes("html").as_slice()) {
                str_bytes("text/html")
            } else if bytes_eq(ext.as_slice(), str_bytes("css").as_slice()) {
                str_bytes("text/css")
            } else if bytes_eq(ext.as_slice(), str_bytes("js").as_slice()) {
                str_bytes("application/javascript")
            } else if bytes_eq(ext.as_slice(), str_bytes("json").as_slice()) {
                str_bytes("application/json")
            } else if bytes_eq(ext.as_slice(), str_bytes("png").as_slice()) {
                str_bytes("image/png")
            } else if bytes_eq(ext.as_slice(), str_bytes("jpg").as_slice()) || bytes_eq(
                ext.as_slice(),
                str_bytes("jpeg").as_slice(),
            ) {
                str_bytes("image/jpeg")
            } else if bytes_eq(ext.as_slice(), str_bytes("gif").as_slice()) {
                str_bytes("image/gif")
            } else if bytes_eq(ext.as_slice(), str_bytes("svg").as_slice()) {
                str_bytes("image/svg+xml")
            } else if bytes_eq(ext.as_slice(), str_bytes("ico").as_slice()) {
                str_bytes("image/x-icon")
            } else {
                str_bytes("application/octet-stream")
            }
        },
        None => str_bytes("application/octet-stream"),
    }
}

} // verus!
