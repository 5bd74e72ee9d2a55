use ir_eval::bench::ParseErrorKind;
use ir_eval::bench::load_benchmark;

#[test]
fn loads_two_records() {
    let text: Vec<u8> = b"first query\t1,2\nsecond query\t3\n".to_vec();
    let b = load_benchmark(&text).unwrap();
    assert_eq!(b.entries.len(), 2);
    assert_eq!(b.entries[0].query, b"first query".to_vec());
    assert_eq!(b.entries[0].relevant, vec![1, 2]);
    assert_eq!(b.entries[1].query, b"second query".to_vec());
    assert_eq!(b.entries[1].relevant, vec![3]);
}

#[test]
fn loads_record_with_no_relevant_ids() {
    let text: Vec<u8> = b"lonely\t\n".to_vec();
    let b = load_benchmark(&text).unwrap();
    assert_eq!(b.entries.len(), 1);
    assert_eq!(b.entries[0].relevant.len(), 0);
}

#[test]
fn skips_blank_lines() {
    let text: Vec<u8> = b"\na\t1\n\nb\t2\n\n".to_vec();
    let b = load_benchmark(&text).unwrap();
    assert_eq!(b.entries.len(), 2);
}

#[test]
fn empty_text_is_an_empty_benchmark() {
    let text: Vec<u8> = Vec::new();
    let b = load_benchmark(&text).unwrap();
    assert_eq!(b.entries.len(), 0);
}

#[test]
fn leading_zeros_are_plain_decimal() {
    let text: Vec<u8> = b"q\t007\n".to_vec();
    let b = load_benchmark(&text).unwrap();
    assert_eq!(b.entries[0].relevant, vec![7]);
}

#[test]
fn missing_tab_is_rejected_with_its_line() {
    let text: Vec<u8> = b"ok\t1\nno separator here\n".to_vec();
    let e = load_benchmark(&text).unwrap_err();
    assert_eq!(e.line, 2);
    assert_eq!(e.kind, ParseErrorKind::MissingSeparator);
}

#[test]
fn non_numeric_id_is_rejected() {
    let text: Vec<u8> = b"q\t1,x,3\n".to_vec();
    let e = load_benchmark(&text).unwrap_err();
    assert_eq!(e.line, 1);
    assert_eq!(e.kind, ParseErrorKind::BadId);
}

#[test]
fn empty_id_between_commas_is_rejected() {
    let text: Vec<u8> = b"q\t1,,3\n".to_vec();
    let e = load_benchmark(&text).unwrap_err();
    assert_eq!(e.kind, ParseErrorKind::BadId);
}

#[test]
fn oversized_id_is_rejected() {
    // One more than u64::MAX.
    let text: Vec<u8> = b"q\t18446744073709551616\n".to_vec();
    let e = load_benchmark(&text).unwrap_err();
    assert_eq!(e.kind, ParseErrorKind::BadId);
}

#[test]
fn largest_id_is_accepted() {
    let text: Vec<u8> = b"q\t18446744073709551615\n".to_vec();
    let b = load_benchmark(&text).unwrap();
    assert_eq!(b.entries[0].relevant, vec![u64::MAX]);
}

#[test]
fn duplicate_query_is_rejected_at_its_line() {
    let text: Vec<u8> = b"same\t1\nsame\t2\n".to_vec();
    let e = load_benchmark(&text).unwrap_err();
    assert_eq!(e.line, 2);
    assert_eq!(e.kind, ParseErrorKind::DuplicateQuery);
}

#[test]
fn first_error_wins() {
    let text: Vec<u8> = b"a\t1\nbad line\nq\tx\n".to_vec();
    let e = load_benchmark(&text).unwrap_err();
    assert_eq!(e.line, 2);
    assert_eq!(e.kind, ParseErrorKind::MissingSeparator);
}
