use web_server::route::Route;

#[test]
fn literal_overrides_wildcard() {
    let mut r: Route<u32> = Route::new();
    r.add("/match/*", 1);
    r.add("/match/specific", 2);
    assert_eq!(r.route("/match/specific"), Some(&2));
    assert_eq!(r.route("/match/other"), Some(&1));
    assert_eq!(r.route("/nomatch"), None);
}

#[test]
fn root_wildcard_catches_everything_else() {
    let mut r: Route<u32> = Route::new();
    r.add("*", 7);
    r.add("/match/*", 1);
    assert_eq!(r.route("/nomatch"), Some(&7));
    assert_eq!(r.route("/"), Some(&7));
    assert_eq!(r.route("/match/x"), Some(&1));
}

#[test]
fn last_registration_wins() {
    let mut r: Route<u32> = Route::new();
    r.add("/a/b", 1);
    r.add("/a/*", 5);
    r.add("a/b/", 2);
    r.add("/a/b", 3);
    assert_eq!(r.route("/a/b"), Some(&3));
    assert_eq!(r.route("/a/c"), Some(&5));
}

#[test]
fn deepest_wildcard_is_fallback() {
    let mut r: Route<u32> = Route::new();
    r.add("/*", 1);
    r.add("/a/*", 2);
    r.add("/a/b/c", 3);
    // descent stops at node a/b, which has no handler: the wildcard under a wins
    assert_eq!(r.route("/a/b"), Some(&2));
    assert_eq!(r.route("/a/b/c"), Some(&3));
    assert_eq!(r.route("/z/y"), Some(&1));
}

#[test]
fn wildcard_matches_one_segment_only() {
    let mut r: Route<u32> = Route::new();
    r.add("/a/*/*", 4);
    assert_eq!(r.route("/a/x/y"), Some(&4));
    assert_eq!(r.route("/a/x"), None);
    let mut s: Route<u32> = Route::new();
    s.add("/a/*", 9);
    // the descent stops at the wildcard node, whose handler answers
    assert_eq!(s.route("/a/x/y"), Some(&9));
    s.add("/a/*/z", 8);
    assert_eq!(s.route("/a/x/z"), Some(&8));
    assert_eq!(s.route("/a/x/q"), Some(&9));
}

#[test]
fn empty_router_routes_nothing() {
    let r: Route<u32> = Route::new();
    assert_eq!(r.route("/"), None);
    assert_eq!(r.route("/anything"), None);
}

#[test]
fn segments_trim_spaces_and_slashes() {
    let segs = Route::<u32>::segment_vec("  //a/b//  ");
    assert_eq!(segs, vec!["a".to_string(), "b".to_string()]);
    let segs = Route::<u32>::segment_vec("a//b");
    assert_eq!(segs, vec!["a".to_string(), String::new(), "b".to_string()]);
    let segs = Route::<u32>::segment_vec("/");
    assert_eq!(segs, vec![String::new()]);
}

#[test]
fn dump_lists_the_tree() {
    let mut r: Route<u32> = Route::new();
    r.add("*", 1);
    r.add("/a", 2);
    let out = r.print();
    assert_eq!(
        out,
        " handler: no\n wildcrd:\n   handler: yes\n   wildcrd: no\n statics:\n * a\n     handler: yes\n     wildcrd: no\n"
    );
}

#[test]
fn descent_stops_at_literal_node_with_handler() {
    let mut r: Route<u32> = Route::new();
    r.add("/daisy", 5);
    assert_eq!(r.route("/daisy/x"), Some(&5));
    assert_eq!(r.route("/daisy"), Some(&5));
    assert_eq!(r.route("/other"), None);
}

#[test]
fn slash_spellings_name_one_pattern() {
    let mut r: Route<u32> = Route::new();
    r.add("a/b", 1);
    r.add("/a/b/", 2);
    assert_eq!(r.route("/a/b"), Some(&2));
    assert_eq!(r.route("a/b"), Some(&2));
}

#[test]
fn wildcard_child_is_reused() {
    let mut r: Route<u32> = Route::new();
    r.add("/a/*/x", 1);
    r.add("/a/*", 2);
    assert_eq!(r.route("/a/q/x"), Some(&1));
    assert_eq!(r.route("/a/q"), Some(&2));
}

#[test]
fn fallback_is_deepest_wildcard() {
    let mut r: Route<u32> = Route::new();
    r.add("*", 0);
    r.add("/a/*", 1);
    r.add("/a/b/c", 2);
    assert_eq!(r.route("/a/b/d"), Some(&1));
    assert_eq!(r.route("/nomatch"), Some(&0));
}

#[test]
fn wildcard_catches_segment_with_bare_literal_child() {
    let mut r: Route<u32> = Route::new();
    r.add("/a/s/t", 3);
    r.add("/a/*", 4);
    assert_eq!(r.route("/a/s"), Some(&4));
    assert_eq!(r.route("/a/z"), Some(&4));
}

#[test]
fn node_count_grows_with_new_segments_only() {
    let mut r: Route<u32> = Route::new();
    assert_eq!(r.node_count(), 1);
    r.add("/a/*", 1);
    assert_eq!(r.node_count(), 3);
    r.add("/a/*", 2);
    assert_eq!(r.node_count(), 3);
    r.add("/a/b", 3);
    assert_eq!(r.node_count(), 4);
}
