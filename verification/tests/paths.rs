use router::paths::{expand_optionals, join_paths};
use router::routes::pattern_rank;

#[test]
fn rank_counts_static_segments_four_and_parameters_three() {
    assert_eq!(pattern_rank("/users/:id"), 7);
    assert_eq!(pattern_rank("/a/b/c"), 12);
    assert_eq!(pattern_rank(":x/:y"), 6);
}

#[test]
fn rank_of_wildcard_pattern_loses_one() {
    assert_eq!(pattern_rank("/users/*rest"), 3);
    assert_eq!(pattern_rank("/*"), -1);
    assert_eq!(pattern_rank("/files/*"), 3);
}

#[test]
fn rank_ignores_empty_segments() {
    assert_eq!(pattern_rank(""), 0);
    assert_eq!(pattern_rank("/"), 0);
    assert_eq!(pattern_rank("//a//b/"), 8);
}

#[test]
fn rank_stops_at_first_wildcard() {
    assert_eq!(pattern_rank("/a/*b/c/*d"), 3);
}

#[test]
fn join_adds_leading_slash() {
    assert_eq!(join_paths("/", "users"), "/users");
    assert_eq!(join_paths("", "users/"), "/users");
    assert_eq!(join_paths("/users", ":id"), "/users/:id");
}

#[test]
fn join_drops_wildcard_of_base() {
    assert_eq!(join_paths("/users/*any", "x"), "/users/x");
    assert_eq!(join_paths("/*", "x"), "/x");
}

#[test]
fn join_of_empty_paths_is_empty() {
    assert_eq!(join_paths("", ""), "");
    assert_eq!(join_paths("///", "/"), "");
}

#[test]
fn join_keeps_query_and_fragment_unslashed() {
    assert_eq!(join_paths("/a/", "?q"), "/a?q");
    assert_eq!(join_paths("/a", "#top"), "/a#top");
}

#[test]
fn expand_without_optionals_gives_pattern() {
    assert_eq!(expand_optionals("/plain/:id"), vec!["/plain/:id".to_string()]);
    assert_eq!(expand_optionals(""), vec!["".to_string()]);
}

#[test]
fn expand_single_optional() {
    assert_eq!(
        expand_optionals("/users/:id?"),
        vec!["/users".to_string(), "/users/:id".to_string()]
    );
}

#[test]
fn expand_adjacent_optionals_in_order() {
    assert_eq!(
        expand_optionals("/a/:b?/:c?/d"),
        vec!["/a/d".to_string(), "/a/:b/d".to_string(), "/a/:b/:c/d".to_string()]
    );
}

#[test]
fn expand_separate_optionals_combines_them() {
    assert_eq!(
        expand_optionals("/:a?/x/:b?"),
        vec![
            "/x".to_string(),
            "/:a/x".to_string(),
            "/x/:b".to_string(),
            "/:a/x/:b".to_string()
        ]
    );
}

#[test]
fn expand_leaves_question_mark_inside_segment() {
    assert_eq!(expand_optionals("/a?b"), vec!["/a?b".to_string()]);
}

#[test]
fn joined_paths_are_already_normalized() {
    let once = join_paths("", "//a/b//");
    assert_eq!(once, "/a/b");
    assert_eq!(join_paths("", &once), once);
    let query = join_paths("", "?x=1/");
    assert_eq!(query, "?x=1");
    assert_eq!(join_paths("", &query), query);
}

#[test]
fn added_segments_raise_rank_by_kind() {
    assert_eq!(pattern_rank("/users/list"), pattern_rank("/users") + 4);
    assert_eq!(pattern_rank("/users/:id"), pattern_rank("/users") + 3);
    assert_eq!(pattern_rank("/:id"), pattern_rank("") + 3);
}

#[test]
fn extra_slashes_leave_rank_unchanged() {
    assert_eq!(pattern_rank("/a/:b/"), pattern_rank("a/:b"));
    assert_eq!(pattern_rank("/a/*c/"), pattern_rank("a/*c"));
    assert_eq!(pattern_rank("//"), pattern_rank(""));
}
