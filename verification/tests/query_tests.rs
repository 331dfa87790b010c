use httpfs::query::{has_query_key, parse_query, split_target};

fn lookup(params: &[httpfs::query::QueryParam], key: &str) -> Option<Option<String>> {
    params.iter().find(|p| p.key == key).map(|p| p.value.clone())
}

#[test]
fn split_target_separates_path_and_query() {
    let (path, query) = split_target("/file.txt?download");
    assert_eq!(path, "/file.txt");
    assert_eq!(query.as_deref(), Some("download"));

    let (path, query) = split_target("/plain");
    assert_eq!(path, "/plain");
    assert!(query.is_none());

    let (path, query) = split_target("/p?a=1?b");
    assert_eq!(path, "/p");
    assert_eq!(query.as_deref(), Some("a=1?b"));
}

#[test]
fn parse_query_reads_pairs() {
    let params = parse_query("a=1&b&c=x");
    assert_eq!(lookup(&params, "a"), Some(Some("1".to_string())));
    assert_eq!(lookup(&params, "b"), Some(None));
    assert_eq!(lookup(&params, "c"), Some(Some("x".to_string())));
    assert_eq!(lookup(&params, "d"), None);
}

#[test]
fn parse_query_last_pair_wins() {
    let params = parse_query("k=1&k=2");
    assert_eq!(params.iter().filter(|p| p.key == "k").count(), 1);
    assert_eq!(lookup(&params, "k"), Some(Some("2".to_string())));
}

#[test]
fn parse_query_value_stops_at_second_equals() {
    let params = parse_query("k=a=b");
    assert_eq!(lookup(&params, "k"), Some(Some("a".to_string())));
}

#[test]
fn has_query_key_detects_download() {
    let params = parse_query("download");
    assert!(has_query_key(&params, "download"));
    let params = parse_query("download=1&x=2");
    assert!(has_query_key(&params, "download"));
    let params = parse_query("downloads=1");
    assert!(!has_query_key(&params, "download"));
}
