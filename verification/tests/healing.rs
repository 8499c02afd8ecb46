use jumpy::Error;
use jumpy::Index;

fn pairs(idx: &Index) -> Vec<(String, u64)> {
    idx.iter().into_iter().map(|e| (e.path, e.score)).collect()
}

#[test]
fn checked_query_removes_stale_top_match() {
    let mut idx = Index::decode("9 /gone_tmp_xyz\n5 /tmp").unwrap();
    assert_eq!(idx.query_checked("tmp", None).unwrap(), "/tmp");
    assert_eq!(pairs(&idx), vec![("/tmp".to_string(), 5)]);
}

#[test]
fn unchecked_query_still_returns_stale_match() {
    let idx = Index::decode("9 /gone_tmp_xyz\n5 /tmp").unwrap();
    assert_eq!(idx.query_unchecked("tmp", None).unwrap(), "/gone_tmp_xyz");
    assert_eq!(pairs(&idx).len(), 2);
}

#[test]
fn checked_query_returns_none_when_all_stale() {
    let mut idx = Index::decode("9 /gone_one_xyz\n5 /gone_two_xyz").unwrap();
    assert!(idx.query_checked("gone", None).is_none());
    assert_eq!(pairs(&idx).len(), 0);
}

#[test]
fn checked_query_keeps_unrelated_entries() {
    let mut idx = Index::decode("9 /gone_for_good_xyz\n5 /tmp\n2 /other_gone_abc").unwrap();
    assert_eq!(idx.query_checked("gone_for", None), None);
    assert_eq!(
        pairs(&idx),
        vec![("/tmp".to_string(), 5), ("/other_gone_abc".to_string(), 2)]
    );
}

#[test]
fn cleanup_drops_missing_directories() {
    let mut idx = Index::decode("1 /nothing_here_xyz\n2 /tmp").unwrap();
    idx.cleanup();
    assert_eq!(pairs(&idx), vec![("/tmp".to_string(), 2)]);
}

#[test]
fn cleanup_drops_plain_files() {
    let mut idx = Index::decode("1 /etc/passwd\n2 /tmp").unwrap();
    idx.cleanup();
    assert_eq!(pairs(&idx), vec![("/tmp".to_string(), 2)]);
}

#[test]
fn cleanup_keeps_clean_index_intact() {
    let mut idx = Index::decode("2 /tmp\n1 /").unwrap();
    idx.cleanup();
    assert_eq!(pairs(&idx), vec![("/tmp".to_string(), 2), ("/".to_string(), 1)]);
}

#[test]
fn remove_canonicalized_deletes_entry() {
    let mut idx = Index::decode("1 /a\n2 /b").unwrap();
    idx.remove_canonicalized("/a").unwrap();
    assert_eq!(pairs(&idx), vec![("/b".to_string(), 2)]);
}

#[test]
fn remove_canonicalized_rejects_unknown() {
    let mut idx = Index::decode("1 /a").unwrap();
    assert_eq!(idx.remove_canonicalized("/b").unwrap_err(), Error::NotRegistered);
    assert_eq!(pairs(&idx).len(), 1);
}

#[test]
fn clear_empties_the_index() {
    let mut idx = Index::decode("1 /a\n2 /b").unwrap();
    idx.clear();
    assert_eq!(pairs(&idx).len(), 0);
    assert_eq!(idx.encode(), "");
}

#[test]
fn iter_lists_entries_in_storage_order() {
    let idx = Index::decode("3 /c\n1 /a\n2 /b").unwrap();
    assert_eq!(
        pairs(&idx),
        vec![
            ("/c".to_string(), 3),
            ("/a".to_string(), 1),
            ("/b".to_string(), 2)
        ]
    );
}

#[test]
fn canonicalize_resolves_dot_segments() {
    assert_eq!(Index::canonicalize("/tmp/.").unwrap(), "/tmp");
    assert_eq!(Index::canonicalize("/..").unwrap(), "/");
}

#[test]
fn canonicalize_rejects_missing_path() {
    assert_eq!(
        Index::canonicalize("/no/such/path_at_all_xyz").unwrap_err(),
        Error::NotFound
    );
}
