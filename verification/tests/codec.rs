use jumpy::Error;
use jumpy::Index;

fn pairs(idx: &Index) -> Vec<(String, u64)> {
    idx.iter().into_iter().map(|e| (e.path, e.score)).collect()
}

#[test]
fn empty_index_encodes_to_empty_text() {
    let idx = Index::new();
    assert_eq!(idx.encode(), "");
}

#[test]
fn empty_text_decodes_to_empty_index() {
    let idx = Index::decode("").unwrap();
    assert_eq!(pairs(&idx).len(), 0);
}

#[test]
fn decode_reads_scores_and_paths() {
    let idx = Index::decode("5 /a/foo\n9 /b/foobar").unwrap();
    assert_eq!(
        pairs(&idx),
        vec![("/a/foo".to_string(), 5), ("/b/foobar".to_string(), 9)]
    );
}

#[test]
fn decode_then_encode_is_identity_text() {
    let text = "5 /a/foo\n9 /b/foobar\n1 /c";
    let idx = Index::decode(text).unwrap();
    assert_eq!(idx.encode(), text);
}

#[test]
fn round_trip_preserves_entries() {
    let idx = Index::decode("7 /x\n3 /y/z\n12 /w w w").unwrap();
    let again = Index::decode(&idx.encode()).unwrap();
    assert_eq!(pairs(&idx), pairs(&again));
}

#[test]
fn path_with_spaces_round_trips() {
    let text = "3 /a/dir with spaces";
    let idx = Index::decode(text).unwrap();
    let entries = pairs(&idx);
    assert_eq!(entries, vec![("/a/dir with spaces".to_string(), 3)]);
    assert_eq!(idx.encode(), text);
}

#[test]
fn max_score_round_trips() {
    let text = "18446744073709551615 /a";
    let idx = Index::decode(text).unwrap();
    assert_eq!(pairs(&idx), vec![("/a".to_string(), u64::MAX)]);
    assert_eq!(idx.encode(), text);
}

#[test]
fn zero_score_round_trips() {
    let idx = Index::decode("0 /a").unwrap();
    assert_eq!(pairs(&idx), vec![("/a".to_string(), 0)]);
    assert_eq!(idx.encode(), "0 /a");
}

#[test]
fn trailing_newline_is_tolerated() {
    let idx = Index::decode("1 /a\n").unwrap();
    assert_eq!(pairs(&idx), vec![("/a".to_string(), 1)]);
}

#[test]
fn decode_rejects_missing_space() {
    assert_eq!(Index::decode("nospace").unwrap_err(), Error::MalformedLine(1));
}

#[test]
fn decode_rejects_bad_score() {
    assert_eq!(Index::decode("notanumber /a").unwrap_err(), Error::InvalidScore(1));
}

#[test]
fn decode_rejects_overflowing_score() {
    assert_eq!(
        Index::decode("99999999999999999999999 /a").unwrap_err(),
        Error::InvalidScore(1)
    );
}

#[test]
fn decode_rejects_signed_score() {
    assert_eq!(Index::decode("+5 /a").unwrap_err(), Error::InvalidScore(1));
}

#[test]
fn decode_rejects_empty_score_text() {
    assert_eq!(Index::decode(" /a").unwrap_err(), Error::InvalidScore(1));
}

#[test]
fn decode_rejects_duplicate_path() {
    assert_eq!(
        Index::decode("1 /a\n2 /a").unwrap_err(),
        Error::DuplicatePath(2, "/a".to_string())
    );
}

#[test]
fn decode_reports_line_of_first_fault() {
    assert_eq!(Index::decode("1 /a\nbad").unwrap_err(), Error::MalformedLine(2));
    assert_eq!(
        Index::decode("1 /a\n2 /b\nx /c").unwrap_err(),
        Error::InvalidScore(3)
    );
}
