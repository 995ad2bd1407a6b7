use std::io::Write;

use edge_loader::{dataset, load_text, Edge, LoadError, Update, EDGE_RELATION};

fn gzip(data: &[u8]) -> Vec<u8> {
    let mut enc = flate2::write::GzEncoder::new(Vec::new(), flate2::Compression::default());
    enc.write_all(data).unwrap();
    enc.finish().unwrap()
}

fn insert(from: u64, to: u64) -> Update {
    Update::Insert { relid: EDGE_RELATION, edge: Edge { from, to } }
}

#[test]
fn single_line_round_trip() {
    let cmds = load_text(b"5\t7", None).unwrap();
    assert_eq!(cmds, vec![insert(5, 7)]);
}

#[test]
fn comment_then_two_edges() {
    let cmds = load_text(b"#comment\n1\t2\n3\t4\n", None).unwrap();
    assert_eq!(cmds, vec![insert(1, 2), insert(3, 4)]);
}

#[test]
fn unparseable_line_fails_whole_load() {
    let r = load_text(b"1\t2\nabc\tdef\n3\t4\n", None);
    assert_eq!(r, Err(LoadError::Malformed { line: 1 }));
}

#[test]
fn unparseable_line_alone_fails() {
    let r = load_text(b"abc\tdef", None);
    assert_eq!(r, Err(LoadError::Malformed { line: 0 }));
}

#[test]
fn sample_limit_keeps_first_qualifying_line() {
    let cmds = load_text(b"1\t2\n3\t4\n", Some(1)).unwrap();
    assert_eq!(cmds, vec![insert(1, 2)]);
}

#[test]
fn comments_count_toward_sample_limit() {
    let cmds = load_text(b"#c\n1\t2\n", Some(1)).unwrap();
    assert_eq!(cmds, vec![]);
}

#[test]
fn limit_of_zero_reads_nothing() {
    let cmds = load_text(b"abc\tdef\n", Some(0)).unwrap();
    assert_eq!(cmds, vec![]);
}

#[test]
fn undecodable_line_is_dropped_and_does_not_count() {
    let cmds = load_text(b"\xFF\n3\t4\n", Some(1)).unwrap();
    assert_eq!(cmds, vec![insert(3, 4)]);
}

#[test]
fn malformed_line_after_dropped_line_still_fails() {
    let r = load_text(b"\xFF\nabc\tdef\n", None);
    assert_eq!(r, Err(LoadError::Malformed { line: 0 }));
}

#[test]
fn comment_needs_hash_first_unindented() {
    // A hash behind leading whitespace is not a comment; the record must parse.
    let r = load_text(b" #c\n", None);
    assert_eq!(r, Err(LoadError::Malformed { line: 0 }));
}

#[test]
fn surrounding_whitespace_is_trimmed() {
    let cmds = load_text(b" 5 \t 7 \n", None).unwrap();
    assert_eq!(cmds, vec![insert(5, 7)]);
}

#[test]
fn unicode_whitespace_is_trimmed() {
    let text = "\u{A0}5\t7\u{3000}\n";
    let cmds = load_text(text.as_bytes(), None).unwrap();
    assert_eq!(cmds, vec![insert(5, 7)]);
}

#[test]
fn plus_sign_is_accepted() {
    let cmds = load_text(b"+5\t+7\n", None).unwrap();
    assert_eq!(cmds, vec![insert(5, 7)]);
}

#[test]
fn value_overflow_is_malformed() {
    let r = load_text(b"99999999999999999999\t1\n", None);
    assert_eq!(r, Err(LoadError::Malformed { line: 0 }));
}

#[test]
fn u64_max_is_accepted() {
    let cmds = load_text(b"18446744073709551615\t0\n", None).unwrap();
    assert_eq!(cmds, vec![insert(u64::MAX, 0)]);
}

#[test]
fn negative_value_is_malformed() {
    let r = load_text(b"-5\t7\n", None);
    assert_eq!(r, Err(LoadError::Malformed { line: 0 }));
}

#[test]
fn missing_second_field_is_malformed() {
    let r = load_text(b"5\n", None);
    assert_eq!(r, Err(LoadError::Malformed { line: 0 }));
}

#[test]
fn empty_line_is_malformed() {
    let r = load_text(b"1\t2\n\n", None);
    assert_eq!(r, Err(LoadError::Malformed { line: 1 }));
}

#[test]
fn extra_fields_are_ignored() {
    let cmds = load_text(b"1\t2\t3\n", None).unwrap();
    assert_eq!(cmds, vec![insert(1, 2)]);
}

#[test]
fn crlf_line_endings_are_handled() {
    let cmds = load_text(b"1\t2\r\n3\t4\r\n", None).unwrap();
    assert_eq!(cmds, vec![insert(1, 2), insert(3, 4)]);
}

#[test]
fn non_ascii_field_is_malformed() {
    let text = "\u{E9}\t5\n";
    let r = load_text(text.as_bytes(), None);
    assert_eq!(r, Err(LoadError::Malformed { line: 0 }));
}

#[test]
fn empty_input_yields_no_commands() {
    let cmds = load_text(b"", None).unwrap();
    assert_eq!(cmds, vec![]);
}

#[test]
fn all_commands_target_the_edge_relation() {
    let cmds = load_text(b"1\t2\n3\t4\n5\t6\n", None).unwrap();
    assert_eq!(cmds.len(), 3);
    for cmd in &cmds {
        let Update::Insert { relid, edge: _ } = cmd;
        assert_eq!(*relid, EDGE_RELATION);
    }
}

#[test]
fn limit_counts_comments_but_not_undecodable_records() {
    // Three records decode: the comment, then two edges. A limit of three
    // consumes them all; the undecodable record is not counted.
    let cmds = load_text(b"#a\n\xFF\n1\t2\n3\t4\n", Some(3)).unwrap();
    assert_eq!(cmds, vec![insert(1, 2), insert(3, 4)]);
}

#[test]
fn dataset_decompresses_and_loads() {
    let data = gzip(b"#comment\n1\t2\n3\t4\n");
    let cmds = dataset(&data, None).unwrap();
    assert_eq!(cmds, vec![insert(1, 2), insert(3, 4)]);
}

#[test]
fn dataset_honors_sample_limit() {
    let data = gzip(b"1\t2\n3\t4\n");
    let cmds = dataset(&data, Some(1)).unwrap();
    assert_eq!(cmds, vec![insert(1, 2)]);
}

#[test]
fn dataset_rejects_a_corrupt_stream() {
    let r = dataset(b"not a gzip stream", None);
    assert_eq!(r, Err(LoadError::Corrupt));
}

#[test]
fn dataset_reports_malformed_records() {
    let data = gzip(b"1\t2\nabc\tdef\n");
    let r = dataset(&data, None);
    assert_eq!(r, Err(LoadError::Malformed { line: 1 }));
}
