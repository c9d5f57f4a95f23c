use zk_loader::filter::{is_excluded_exact, matches_any_prefix, starts_with_str};

fn strings(v: &[&str]) -> Vec<String> {
    v.iter().map(|s| s.to_string()).collect()
}

#[test]
fn exact_match_only_on_dump() {
    let ex = strings(&["/foo", "/zookeeper"]);
    assert!(is_excluded_exact("/foo", &ex));
    assert!(is_excluded_exact("/zookeeper", &ex));
    assert!(!is_excluded_exact("/foobar", &ex));
    assert!(!is_excluded_exact("/foo/a", &ex));
    assert!(!is_excluded_exact("/fo", &ex));
    assert!(!is_excluded_exact("/foo", &strings(&[])));
}

#[test]
fn raw_prefix_match_on_restore() {
    let ex = strings(&["/foo"]);
    assert!(matches_any_prefix("/foo", &ex));
    assert!(matches_any_prefix("/foo/a", &ex));
    assert!(matches_any_prefix("/foobar", &ex));
    assert!(!matches_any_prefix("/fo", &ex));
    assert!(!matches_any_prefix("/bar", &ex));
    assert!(!matches_any_prefix("/foo", &strings(&[])));
}

#[test]
fn starts_with_edges() {
    assert!(starts_with_str("abc", ""));
    assert!(starts_with_str("abc", "abc"));
    assert!(!starts_with_str("ab", "abc"));
    assert!(!starts_with_str("abd", "abc"));
}
