use jumpy::Index;

fn result_paths(idx: &Index, query: &str, after: Option<&str>) -> Vec<String> {
    idx.query_all(query, after).into_iter().map(|e| e.path).collect()
}

#[test]
fn ranking_prefers_higher_scores() {
    let idx = Index::decode("5 /a/foo\n9 /b/foobar").unwrap();
    assert_eq!(result_paths(&idx, "foo", None), vec!["/b/foobar", "/a/foo"]);
}

#[test]
fn query_is_case_insensitive() {
    let idx = Index::decode("5 /home/Projects").unwrap();
    assert_eq!(result_paths(&idx, "PROJ", None), vec!["/home/Projects"]);
    assert_eq!(result_paths(&idx, "proj", None), vec!["/home/Projects"]);
}

#[test]
fn query_matches_name_substring_only() {
    let idx = Index::decode("5 /var/log\n3 /var/lib").unwrap();
    assert_eq!(result_paths(&idx, "og", None), vec!["/var/log"]);
    assert_eq!(result_paths(&idx, "zzz", None), Vec::<String>::new());
}

#[test]
fn pagination_wraps_after_marker() {
    let idx = Index::decode("3 /x/m\n2 /y/m\n1 /z/m").unwrap();
    assert_eq!(result_paths(&idx, "m", None), vec!["/x/m", "/y/m", "/z/m"]);
    assert_eq!(
        result_paths(&idx, "m", Some("/y/m")),
        vec!["/z/m", "/x/m", "/y/m"]
    );
    assert_eq!(
        result_paths(&idx, "m", Some("/z/m")),
        vec!["/x/m", "/y/m", "/z/m"]
    );
}

#[test]
fn pagination_ignores_foreign_marker() {
    let idx = Index::decode("3 /x/m\n2 /y/m\n1 /z/m").unwrap();
    assert_eq!(
        result_paths(&idx, "m", Some("/not/registered")),
        vec!["/x/m", "/y/m", "/z/m"]
    );
}

#[test]
fn ties_keep_storage_order() {
    let idx = Index::decode("2 /a/k\n2 /b/k\n2 /c/k").unwrap();
    assert_eq!(result_paths(&idx, "k", None), vec!["/a/k", "/b/k", "/c/k"]);
}

#[test]
fn secondary_matches_follow_primary() {
    let idx = Index::decode("5 /deep/mat/ch/leaf\n7 /x/mat").unwrap();
    assert_eq!(
        result_paths(&idx, "mat", None),
        vec!["/x/mat", "/deep/mat/ch/leaf"]
    );
}

#[test]
fn secondary_keeps_storage_order_unsorted() {
    let idx = Index::decode("1 /mat/one/a\n9 /mat/two/b\n5 /mat/three/c").unwrap();
    assert_eq!(
        result_paths(&idx, "mat", None),
        vec!["/mat/one/a", "/mat/two/b", "/mat/three/c"]
    );
}

#[test]
fn secondary_excludes_paths_under_marker() {
    let idx = Index::decode("5 /deep/mat/ch/leaf\n7 /x/mat").unwrap();
    assert_eq!(result_paths(&idx, "mat", Some("/deep")), vec!["/x/mat"]);
}

#[test]
fn empty_query_matches_every_name() {
    let idx = Index::decode("2 /a\n1 /b").unwrap();
    assert_eq!(result_paths(&idx, "", None), vec!["/a", "/b"]);
}

#[test]
fn query_all_exposes_scores() {
    let idx = Index::decode("5 /a/foo\n9 /b/foobar").unwrap();
    let results = idx.query_all("foo", None);
    assert_eq!(results[0].score, 9);
    assert_eq!(results[1].score, 5);
}

#[test]
fn rotation_and_secondary_combine() {
    let idx = Index::decode("3 /x/song\n2 /y/song\n5 /song/lib/a").unwrap();
    assert_eq!(
        result_paths(&idx, "song", None),
        vec!["/x/song", "/y/song", "/song/lib/a"]
    );
    assert_eq!(
        result_paths(&idx, "song", Some("/x/song")),
        vec!["/y/song", "/x/song", "/song/lib/a"]
    );
}

#[test]
fn name_match_is_listed_once() {
    let idx = Index::decode("1 /mat/mat").unwrap();
    assert_eq!(result_paths(&idx, "mat", None), vec!["/mat/mat"]);
}

#[test]
fn query_unchecked_returns_best_match() {
    let idx = Index::decode("5 /a/foo\n9 /b/foobar").unwrap();
    assert_eq!(idx.query_unchecked("foo", None).unwrap(), "/b/foobar");
}

#[test]
fn query_unchecked_returns_none_without_match() {
    let idx = Index::decode("5 /a/foo").unwrap();
    assert!(idx.query_unchecked("zzz", None).is_none());
}
