use jumpy::Error;
use jumpy::Index;

fn pairs(idx: &Index) -> Vec<(String, u64)> {
    idx.iter().into_iter().map(|e| (e.path, e.score)).collect()
}

#[test]
fn add_empty_path_is_rejected() {
    let mut idx = Index::new();
    assert_eq!(idx.add(String::new()).unwrap_err(), Error::EmptyPath);
    assert_eq!(pairs(&idx).len(), 0);
}

#[test]
fn add_missing_directory_is_rejected() {
    let mut idx = Index::new();
    let r = idx.add("/no/such/directory/anywhere_at_all".to_string());
    assert_eq!(r.unwrap_err(), Error::NotFound);
    assert_eq!(pairs(&idx).len(), 0);
}

#[test]
fn add_plain_file_is_rejected() {
    let mut idx = Index::new();
    let r = idx.add("/etc/passwd".to_string());
    assert_eq!(r.unwrap_err(), Error::NotFound);
    assert_eq!(pairs(&idx).len(), 0);
}

#[test]
fn add_root_is_accepted_but_untracked() {
    let mut idx = Index::new();
    idx.add("/".to_string()).unwrap();
    assert_eq!(pairs(&idx).len(), 0);
}

#[test]
fn add_parent_of_root_resolves_to_root() {
    let mut idx = Index::new();
    idx.add("/..".to_string()).unwrap();
    assert_eq!(pairs(&idx).len(), 0);
}

#[test]
fn add_is_idempotent() {
    let mut idx = Index::new();
    idx.add("/tmp".to_string()).unwrap();
    let once = pairs(&idx);
    assert_eq!(once.len(), 1);
    assert_eq!(once[0].1, 1);
    idx.add("/tmp".to_string()).unwrap();
    assert_eq!(pairs(&idx), once);
}

#[test]
fn add_keeps_existing_score() {
    let mut idx = Index::new();
    idx.inc("/tmp".to_string(), false).unwrap();
    idx.inc("/tmp".to_string(), false).unwrap();
    idx.inc("/tmp".to_string(), false).unwrap();
    idx.add("/tmp".to_string()).unwrap();
    let entries = pairs(&idx);
    assert_eq!(entries.len(), 1);
    assert_eq!(entries[0].1, 3);
}

#[test]
fn inc_counts_visits() {
    let mut idx = Index::new();
    for expected in 1..=4u64 {
        idx.inc("/tmp".to_string(), false).unwrap();
        let entries = pairs(&idx);
        assert_eq!(entries.len(), 1);
        assert_eq!(entries[0].1, expected);
    }
}

#[test]
fn inc_top_on_new_entry_starts_halfway() {
    let mut idx = Index::new();
    idx.inc("/tmp".to_string(), true).unwrap();
    let entries = pairs(&idx);
    assert_eq!(entries.len(), 1);
    assert_eq!(entries[0].1, u64::MAX / 2);
}

#[test]
fn inc_top_promotes_to_max() {
    let mut idx = Index::new();
    idx.add("/tmp".to_string()).unwrap();
    idx.inc("/tmp".to_string(), true).unwrap();
    let entries = pairs(&idx);
    assert_eq!(entries[0].1, u64::MAX);
}

#[test]
fn inc_after_top_saturates() {
    let mut idx = Index::new();
    idx.inc("/tmp".to_string(), true).unwrap();
    idx.inc("/tmp".to_string(), true).unwrap();
    assert_eq!(pairs(&idx)[0].1, u64::MAX);
    idx.inc("/tmp".to_string(), false).unwrap();
    assert_eq!(pairs(&idx)[0].1, u64::MAX);
}

#[test]
fn add_or_inc_applies_custom_update() {
    let mut idx = Index::new();
    idx.add_or_inc("/tmp".to_string(), |s| s, 5).unwrap();
    assert_eq!(pairs(&idx)[0].1, 5);
    idx.add_or_inc("/tmp".to_string(), |s| s + 10, 5).unwrap();
    assert_eq!(pairs(&idx)[0].1, 15);
}

#[test]
fn repeated_registration_keeps_one_entry() {
    let mut idx = Index::new();
    idx.add("/tmp".to_string()).unwrap();
    idx.inc("/tmp".to_string(), false).unwrap();
    idx.inc("/tmp".to_string(), true).unwrap();
    assert_eq!(pairs(&idx).len(), 1);
}
