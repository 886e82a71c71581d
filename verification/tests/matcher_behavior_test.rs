use ::router_matcher::RouteMatcher;

#[test]
fn test_static_route_returns_template_without_parameters() {
    let mut matcher = RouteMatcher::new();
    matcher.add_route("api/v1/status");
    let result = matcher.match_route("api/v1/status").unwrap();
    assert_eq!(result.path, "api/v1/status");
    assert!(result.parameters.is_empty());
    assert!(result.url_parameters.is_empty());
}

#[test]
fn test_parameter_binds_any_nonempty_token() {
    let mut matcher = RouteMatcher::new();
    matcher.add_route("user/:id/posts");
    let result = matcher.match_route("user/alice/posts").unwrap();
    assert_eq!(result.path, "user/:id/posts");
    assert_eq!(result.parameters.get("id"), Some(&"alice".to_string()));
}

#[test]
fn test_wildcard_matches_any_remainder() {
    let mut matcher = RouteMatcher::new();
    matcher.add_route("files/*");
    let deep = matcher.match_route("files/a/b/c").unwrap();
    assert_eq!(deep.path, "files/*");
    assert!(deep.parameters.is_empty());

    let one = matcher.match_route("files/x").unwrap();
    assert_eq!(one.path, "files/*");

    // With no remaining token the search never descends into children, so
    // the wildcard child is not reached.
    assert!(matcher.match_route("files").is_none());
}

#[test]
fn test_segments_registered_past_a_wildcard_are_unreachable() {
    let mut matcher = RouteMatcher::new();
    matcher.add_route("files/*/name");
    assert!(matcher.match_route("files/a/name").is_none());
    assert!(matcher.match_route("files/anything").is_none());
}

#[test]
fn test_static_and_parameter_children_coexist() {
    let mut matcher = RouteMatcher::new();
    matcher.add_route("a/b");
    matcher.add_route("a/:x");
    let stat = matcher.match_route("a/b").unwrap();
    assert_eq!(stat.path, "a/b");
    assert!(stat.parameters.is_empty());
    let param = matcher.match_route("a/c").unwrap();
    assert_eq!(param.path, "a/:x");
    assert_eq!(param.parameters.get("x"), Some(&"c".to_string()));
}

#[test]
fn test_backtracks_from_static_branch_into_parameter_branch() {
    let mut matcher = RouteMatcher::new();
    matcher.add_route("u/x/y");
    matcher.add_route("u/:p/z");
    let result = matcher.match_route("u/x/z").unwrap();
    assert_eq!(result.path, "u/:p/z");
    assert_eq!(result.parameters.get("p"), Some(&"x".to_string()));
}

#[test]
fn test_parameter_branches_with_different_names_stay_separate() {
    let mut matcher = RouteMatcher::new();
    matcher.add_route("a/:id/x");
    matcher.add_route("a/:slug/y");
    let result = matcher.match_route("a/7/y").unwrap();
    assert_eq!(result.path, "a/:slug/y");
    assert_eq!(result.parameters.get("slug"), Some(&"7".to_string()));
    assert_eq!(result.parameters.get("id"), None);
}

#[test]
fn test_query_key_without_equals_gets_empty_value() {
    let mut matcher = RouteMatcher::new();
    matcher.add_route("path");
    let result = matcher.match_route("path?foo").unwrap();
    assert_eq!(result.url_parameters.get("foo"), Some(&"".to_string()));
}

#[test]
fn test_empty_query_string_yields_no_pairs() {
    let mut matcher = RouteMatcher::new();
    matcher.add_route("path");
    let result = matcher.match_route("path?").unwrap();
    assert!(result.url_parameters.is_empty());
}

#[test]
fn test_query_value_truncates_after_second_equals() {
    let mut matcher = RouteMatcher::new();
    matcher.add_route("path");
    let result = matcher.match_route("path?a=b=c").unwrap();
    assert_eq!(result.url_parameters.get("a"), Some(&"b".to_string()));
}

#[test]
fn test_repeated_query_key_keeps_last_value() {
    let mut matcher = RouteMatcher::new();
    matcher.add_route("path");
    let result = matcher.match_route("path?x=1&x=2").unwrap();
    assert_eq!(result.url_parameters.get("x"), Some(&"2".to_string()));
}

#[test]
fn test_stray_ampersands_are_ignored() {
    let mut matcher = RouteMatcher::new();
    matcher.add_route("path");
    let result = matcher.match_route("path?&a=1&&b=2&").unwrap();
    assert_eq!(result.url_parameters.get("a"), Some(&"1".to_string()));
    assert_eq!(result.url_parameters.get("b"), Some(&"2".to_string()));
}

#[test]
fn test_registering_same_template_twice_changes_nothing() {
    let mut matcher = RouteMatcher::new();
    matcher.add_route("user/:id");
    matcher.add_route("user/:id");
    let result = matcher.match_route("user/9").unwrap();
    assert_eq!(result.path, "user/:id");
    assert_eq!(result.parameters.get("id"), Some(&"9".to_string()));
    assert!(matcher.match_route("user").is_none());
    assert!(matcher.match_route("user/9/extra").is_none());
}

#[test]
fn test_slashes_collapse_in_templates_and_paths() {
    let mut matcher = RouteMatcher::new();
    matcher.add_route("//a///b/");
    let result = matcher.match_route("/a/b").unwrap();
    assert_eq!(result.path, "//a///b/");
}

#[test]
fn test_later_identical_template_overwrites_stored_string() {
    let mut matcher = RouteMatcher::new();
    matcher.add_route("a/b");
    matcher.add_route("/a/b/");
    let result = matcher.match_route("a/b").unwrap();
    assert_eq!(result.path, "/a/b/");
}

#[test]
fn test_empty_template_matches_empty_path() {
    let mut matcher = RouteMatcher::new();
    matcher.add_route("");
    assert!(matcher.match_route("").is_some());
    assert!(matcher.match_route("/").is_some());
    assert!(matcher.match_route("x").is_none());
}

#[test]
fn test_lone_colon_is_a_parameter_with_empty_name() {
    let mut matcher = RouteMatcher::new();
    matcher.add_route("a/:");
    let result = matcher.match_route("a/token").unwrap();
    assert_eq!(result.path, "a/:");
    assert_eq!(result.parameters.get(""), Some(&"token".to_string()));
}

#[test]
fn test_query_ignored_when_path_does_not_match() {
    let mut matcher = RouteMatcher::new();
    matcher.add_route("known");
    assert!(matcher.match_route("unknown?a=1").is_none());
}
