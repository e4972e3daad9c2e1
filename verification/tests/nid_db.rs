use aura_decomp::nid_db::NidDb;


#[test]
fn parses_space_delimited_records() {
    let csv = "ys1W6EwuVw4 __absvdi2\n2HED9ow7Zjc __absvsi2\n";
    let db = NidDb::load_from_csv(csv).unwrap();
    assert_eq!(db.len(), 2);
    assert_eq!(db.lookup("ys1W6EwuVw4"), Some("__absvdi2"));
    assert_eq!(db.lookup("2HED9ow7Zjc"), Some("__absvsi2"));
}

#[test]
fn handles_windows_crlf_endings() {
    let csv = "AAA111aaaBB name1\r\nBBB222bbbCC name2\r\n";
    let db = NidDb::load_from_csv(csv).unwrap();
    assert_eq!(db.len(), 2);
    assert_eq!(db.lookup("AAA111aaaBB"), Some("name1"));
}

#[test]
fn accepts_comma_delimiter() {
    let csv = "nidA,printf\nnidB,scePadRead\n";
    let db = NidDb::load_from_csv(csv).unwrap();
    assert_eq!(db.len(), 2);
    assert_eq!(db.lookup("nidA"), Some("printf"));
    assert_eq!(db.lookup("nidB"), Some("scePadRead"));
}

#[test]
fn skips_blank_and_comment_lines() {
    let csv = "\n# a comment\nnidA nameA\n   \nnidB nameB\n";
    let db = NidDb::load_from_csv(csv).unwrap();
    assert_eq!(db.len(), 2);
}

#[test]
fn skips_lines_without_a_delimiter() {
    let csv = "orphanednid\nnidA nameA\n";
    let db = NidDb::load_from_csv(csv).unwrap();
    assert_eq!(db.len(), 1);
    assert_eq!(db.lookup("orphanednid"), None);
}

#[test]
fn lookup_unknown_returns_none() {
    let db = NidDb::load_from_csv("nidA nameA").unwrap();
    assert_eq!(db.lookup("does-not-exist"), None);
}

#[test]
fn empty_db() {
    let db = NidDb::empty();
    assert!(db.is_empty());
    assert_eq!(db.len(), 0);
    assert_eq!(db.lookup("anything"), None);
}

#[test]
fn later_line_for_a_nid_wins() {
    let db = NidDb::load_from_csv("AAAA first\nBBBB other\n# AAAA comment\nAAAA second\n").unwrap();
    assert_eq!(db.lookup("AAAA"), Some("second"));
    assert_eq!(db.lookup("BBBB"), Some("other"));
    assert_eq!(db.len(), 2);
}
