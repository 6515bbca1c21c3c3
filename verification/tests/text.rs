use tether_gossip::{block_for_remote, file_byte_len, provenance_header, FileStat, TetherError};

#[test]
fn provenance_header_format() {
    let h = provenance_header(1_000_000, "worknode");
    assert!(h.contains("1000000"));
    assert!(h.contains("worknode"));
    assert!(h.contains("(via tether)"));
}

#[test]
fn provenance_header_exact_text() {
    assert_eq!(
        provenance_header(1_000_000, "worknode"),
        "## 1000000  worknode  (via tether)\n"
    );
    assert_eq!(provenance_header(0, "a"), "## 0  a  (via tether)\n");
    assert_eq!(
        provenance_header(u64::MAX, "n"),
        format!("## {}  n  (via tether)\n", u64::MAX)
    );
    assert_eq!(provenance_header(10, ""), "## 10    (via tether)\n");
}

#[test]
fn block_adds_a_line_feed_only_when_missing() {
    assert_eq!(
        block_for_remote(7, "w", "body"),
        "## 7  w  (via tether)\nbody\n"
    );
    assert_eq!(
        block_for_remote(7, "w", "body\n"),
        "## 7  w  (via tether)\nbody\n"
    );
    assert_eq!(block_for_remote(7, "w", ""), "## 7  w  (via tether)\n\n");
    assert_eq!(
        block_for_remote(7, "w", "é—ü"),
        "## 7  w  (via tether)\né—ü\n"
    );
}

#[test]
fn file_byte_len_counts_missing_as_empty() {
    assert_eq!(file_byte_len(FileStat::Present(17)), Ok(17));
    assert_eq!(file_byte_len(FileStat::Missing), Ok(0));
    assert_eq!(
        file_byte_len(FileStat::Failed("denied".to_owned())),
        Err(TetherError::Io("denied".to_owned()))
    );
}
