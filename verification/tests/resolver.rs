use portfolio_server::bytemap::ByteMap;
use portfolio_server::config::StaticConfig;
use portfolio_server::static_files::{
    normalize_url_path, resolve_content_type, ResolveError, StaticFileResolver,
};

fn resolver(auto_index: bool, routes: Vec<(&str, &str)>) -> StaticFileResolver {
    let mut map = ByteMap::new();
    for (k, v) in routes {
        map.insert(k.as_bytes().to_vec(), v.as_bytes().to_vec());
    }
    let cfg = StaticConfig {
        root_dir: b"public".to_vec(),
        index_file: b"index.html".to_vec(),
        auto_index,
        routes: map,
    };
    StaticFileResolver::from_config(&cfg)
}

#[test]
fn normalize_empty_and_missing_slash() {
    assert_eq!(normalize_url_path(b""), b"/".to_vec());
    assert_eq!(normalize_url_path(b"abc"), b"/abc".to_vec());
    assert_eq!(normalize_url_path(b"/abc"), b"/abc".to_vec());
}

#[test]
fn root_resolves_to_index_file() {
    let r = resolver(true, vec![]);
    // "/" joined under the root names a directory, so the index file is appended
    let c = r.resolve(b"/", true);
    assert_eq!(c, b"public/index.html".to_vec());
}

#[test]
fn plain_file_path_is_joined() {
    let r = resolver(true, vec![]);
    let c = r.resolve(b"/style.css", false);
    assert_eq!(c, b"public/style.css".to_vec());
}

#[test]
fn directory_without_auto_index_stays_bare() {
    let r = resolver(false, vec![]);
    let c = r.resolve(b"/docs/", false);
    assert_eq!(c, b"public/docs/", "trailing slash keeps the joined directory");
    let c2 = r.resolve(b"/docs", true);
    assert_eq!(c2, b"public/docs".to_vec());
}

#[test]
fn traversal_candidate_is_naive_join() {
    let r = resolver(true, vec![]);
    let c = r.resolve(b"/../../etc/passwd", false);
    assert_eq!(c, b"public/../../etc/passwd".to_vec());
}

#[test]
fn route_override_bypasses_directory_inference() {
    let r = resolver(true, vec![("/about", "pages/about.html")]);
    // even with the directory observation set, the override wins untouched
    let c = r.resolve(b"/about", true);
    assert_eq!(c, b"public/pages/about.html".to_vec());
}

#[test]
fn resolve_is_idempotent_without_fs_change() {
    let r = resolver(true, vec![("/a", "x.html")]);
    assert_eq!(r.resolve(b"/p/q", false), r.resolve(b"/p/q", false));
    assert_eq!(r.resolve(b"/a", true), r.resolve(b"/a", false));
}

#[test]
fn validate_rejects_escape_as_forbidden() {
    let v = StaticFileResolver::validate_within_root(
        Some(b"/srv/public".to_vec()),
        Some(b"/etc/passwd".to_vec()),
    );
    assert!(matches!(v, Err(ResolveError::Forbidden)));
}

#[test]
fn validate_rejects_sibling_prefix_dir() {
    // "/srv/public2" shares a string prefix but is not a descendant
    let v = StaticFileResolver::validate_within_root(
        Some(b"/srv/public".to_vec()),
        Some(b"/srv/public2/x".to_vec()),
    );
    assert!(matches!(v, Err(ResolveError::Forbidden)));
}

#[test]
fn validate_maps_canonicalization_failure_to_not_found() {
    let v = StaticFileResolver::validate_within_root(Some(b"/srv/public".to_vec()), None);
    assert!(matches!(v, Err(ResolveError::NotFound)));
    let v2 = StaticFileResolver::validate_within_root(None, Some(b"/x".to_vec()));
    assert!(matches!(v2, Err(ResolveError::NotFound)));
}

#[test]
fn validate_accepts_descendants_and_root_itself() {
    let v = StaticFileResolver::validate_within_root(
        Some(b"/srv/public".to_vec()),
        Some(b"/srv/public/css/site.css".to_vec()),
    );
    assert_eq!(v.unwrap(), b"/srv/public/css/site.css".to_vec());
    let v2 = StaticFileResolver::validate_within_root(
        Some(b"/srv/public".to_vec()),
        Some(b"/srv/public".to_vec()),
    );
    assert_eq!(v2.unwrap(), b"/srv/public".to_vec());
}

#[test]
fn content_type_built_in_table() {
    let ov = ByteMap::new();
    assert_eq!(resolve_content_type(b"a/b.html", &ov), b"text/html".to_vec());
    assert_eq!(resolve_content_type(b"a/b.css", &ov), b"text/css".to_vec());
    assert_eq!(resolve_content_type(b"a/b.js", &ov), b"application/javascript".to_vec());
    assert_eq!(resolve_content_type(b"a/b.json", &ov), b"application/json".to_vec());
    assert_eq!(resolve_content_type(b"a/b.jpeg", &ov), b"image/jpeg".to_vec());
    assert_eq!(resolve_content_type(b"a/b.jpg", &ov), b"image/jpeg".to_vec());
    assert_eq!(resolve_content_type(b"a/b.svg", &ov), b"image/svg+xml".to_vec());
    assert_eq!(resolve_content_type(b"a/b.weird", &ov), b"application/octet-stream".to_vec());
    assert_eq!(resolve_content_type(b"a/no_extension", &ov), b"application/octet-stream".to_vec());
    assert_eq!(resolve_content_type(b"a/.hidden", &ov), b"application/octet-stream".to_vec());
}

#[test]
fn content_type_override_wins() {
    let mut ov = ByteMap::new();
    ov.insert(b".md".to_vec(), b"text/markdown".to_vec());
    assert_eq!(resolve_content_type(b"notes/readme.md", &ov), b"text/markdown".to_vec());
    assert_eq!(resolve_content_type(b"a/b.html", &ov), b"text/html".to_vec());
}
