use router::matching::RouteDefinition;
use router::routes::{can_create_branches, create_branch, create_routes, Branch, Branches};

fn def(id: usize, path: &str, children: Vec<RouteDefinition>) -> RouteDefinition {
    RouteDefinition { id, path: path.to_string(), children }
}

fn app_routes() -> Vec<RouteDefinition> {
    vec![
        def(0, "", vec![def(1, "", vec![]), def(2, "users/:id", vec![])]),
        def(3, "about", vec![]),
    ]
}

fn summary(branches: &[Branch]) -> Vec<(Vec<String>, i32)> {
    branches
        .iter()
        .map(|b| (b.routes.iter().map(|r| r.pattern.clone()).collect(), b.score))
        .collect()
}

#[test]
fn branches_ranked_highest_first() {
    let mut store = Branches::new();
    assert!(!store.is_initialized());
    store.initialize("", &app_routes());
    assert!(store.is_initialized());
    let got = store.with(|b| summary(b));
    assert_eq!(
        got,
        vec![
            (vec!["".to_string(), "/users/:id".to_string()], 69999),
            (vec!["/about".to_string()], 39998),
            (vec!["".to_string(), "".to_string()], 0),
        ]
    );
}

#[test]
fn branches_made_only_once() {
    let mut store = Branches::new();
    store.initialize("", &app_routes());
    store.initialize("/other", &[def(9, "x", vec![])]);
    let got = store.with(|b| b.len());
    assert_eq!(got, 3);
    let ids = store.with(|b| b.iter().map(|br| br.routes.last().unwrap().id).collect::<Vec<_>>());
    assert_eq!(ids, vec![2, 3, 1]);
}

#[test]
fn equal_ranks_keep_their_order() {
    let mut store = Branches::new();
    store.initialize("", &[def(0, "a", vec![]), def(1, "b", vec![]), def(2, "c", vec![])]);
    let got = store.with(|b| summary(b));
    assert_eq!(
        got,
        vec![
            (vec!["/a".to_string()], 40000),
            (vec!["/b".to_string()], 39999),
            (vec!["/c".to_string()], 39998),
        ]
    );
}

#[test]
fn optional_parameters_make_one_branch_each() {
    let mut store = Branches::new();
    store.initialize("/base", &[def(4, "users/:id?", vec![])]);
    let got = store.with(|b| summary(b));
    assert_eq!(
        got,
        vec![
            (vec!["/base/users/:id".to_string()], 109999),
            (vec!["/base/users".to_string()], 80000),
        ]
    );
}

#[test]
fn nested_route_pattern_stops_at_wildcard() {
    let routes = create_routes(&def(5, "files/*rest", vec![def(6, "x", vec![])]), "/root");
    assert_eq!(routes.len(), 1);
    assert_eq!(routes[0].pattern, "/root/files");
    assert_eq!(routes[0].original_path, "files/*rest");
    assert!(routes[0].matcher.partial);
    let leaf = create_routes(&def(7, "files/*rest", vec![]), "/root");
    assert_eq!(leaf[0].pattern, "/root/files/*rest");
    assert!(!leaf[0].matcher.partial);
    assert_eq!(leaf[0].id, 7);
}

#[test]
fn nested_wildcard_base_is_joined_without_it() {
    let mut store = Branches::new();
    store.initialize("", &[def(0, "docs/*all", vec![def(1, "intro", vec![])])]);
    let got = store.with(|b| summary(b));
    assert_eq!(got, vec![(vec!["/docs".to_string(), "/docs/intro".to_string()], 80000)]);
}

#[test]
fn ordinary_routes_fit_in_ranks() {
    assert!(can_create_branches(&app_routes(), ""));
    assert!(can_create_branches(&[], "/x"));
}

#[test]
fn empty_route_list_makes_no_branch() {
    let mut store = Branches::new();
    store.initialize("/x", &[]);
    assert_eq!(store.with(|b| b.len()), 0);
}

#[test]
fn definitions_compare_by_path_and_children() {
    assert!(def(1, "a", vec![def(2, "b", vec![])]) == def(7, "a", vec![def(8, "b", vec![])]));
    assert!(def(1, "a", vec![def(2, "b", vec![])]) != def(1, "a", vec![def(2, "c", vec![])]));
    assert!(def(1, "a", vec![]) != def(1, "b", vec![]));
    assert!(def(1, "a", vec![def(2, "b", vec![])]) != def(1, "a", vec![]));
}

#[test]
fn route_score_of_route_data() {
    let routes = create_routes(&def(1, "users/:id/*rest", vec![]), "/app");
    assert_eq!(routes[0].pattern, "/app/users/:id/*rest");
    assert_eq!(routes[0].score(), 10);
}

#[test]
fn stored_branches_end_at_routes_without_children() {
    let mut store = Branches::new();
    let routes = app_routes();
    store.initialize("", &routes);
    let ends = store.with(|b| {
        b.iter()
            .map(|br| br.routes.last().unwrap().key.children.is_empty())
            .collect::<Vec<_>>()
    });
    assert_eq!(ends, vec![true, true, true]);
}

#[test]
fn higher_route_rank_wins_then_earlier_branch() {
    let high = create_routes(&def(1, "a/b", vec![]), "");
    let low = create_routes(&def(2, "a/:b", vec![]), "");
    assert!(create_branch(&high, 9).score > create_branch(&low, 0).score);
    assert!(create_branch(&high, 3).score > create_branch(&high, 4).score);
}
