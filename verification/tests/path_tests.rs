use httpfs::path::{flatten_path, percent_decode, resolve_path};

#[test]
fn flatten_drops_root_and_current_markers() {
    assert_eq!(flatten_path("/./test"), "test");
    assert_eq!(flatten_path("/../test"), "test");
    assert_eq!(flatten_path("/foo/./test"), "foo/test");
    assert_eq!(flatten_path("/foo/../test"), "test");
    assert_eq!(flatten_path("/foo/./../test"), "test");
}

#[test]
fn flatten_absorbs_excess_parent_segments() {
    assert_eq!(flatten_path("/../../etc/passwd"), "etc/passwd");
    assert_eq!(flatten_path("/.."), "");
    assert_eq!(flatten_path("../../.."), "");
    assert_eq!(flatten_path("a/../../b/../../c"), "c");
}

#[test]
fn flatten_keeps_ordinary_paths() {
    assert_eq!(flatten_path("a/b/c"), "a/b/c");
    assert_eq!(flatten_path("/a//b/"), "a/b");
    assert_eq!(flatten_path(""), "");
    assert_eq!(flatten_path("."), "");
}

#[test]
fn resolve_joins_under_root() {
    let r = resolve_path("root", "/a/../b%20c").expect("decodes");
    assert_eq!(r.full, "root/b c");
    let r = resolve_path("root", "/../../etc/passwd").expect("decodes");
    assert_eq!(r.full, "root/etc/passwd");
    let r = resolve_path("root", "/..").expect("decodes");
    assert_eq!(r.full, "root");
}

#[test]
fn percent_decode_rejects_invalid_text() {
    assert_eq!(percent_decode("%41%42"), Some("AB".to_string()));
    assert_eq!(percent_decode("plain"), Some("plain".to_string()));
    assert!(percent_decode("%FF").is_none());
}
