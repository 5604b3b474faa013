use billion_row::engine::{report_line, run, summarize_file};
use billion_row::fixed::{parse, slice_from, slice_range};
use billion_row::key::to_key;
use billion_row::order::{bytes_equal, bytes_less};
use billion_row::record::Record;
use billion_row::table::Table;
use billion_row::RunError;

fn lines_of(file: &[u8]) -> Vec<String> {
    run(file)
        .unwrap()
        .into_iter()
        .map(|l| String::from_utf8(l).unwrap())
        .collect()
}

#[test]
fn two_keys_report() {
    assert_eq!(
        lines_of(b"A;12.3\nB;-4.0\nA;-7.7\n"),
        vec!["A: -7.7/2.3/12.3".to_string(), "B: -4.0/-4.0/-4.0".to_string()]
    );
}

#[test]
fn missing_trailing_newline_is_truncated() {
    assert_eq!(run(b"A;12.3\nB;-4.0"), Err(RunError::TruncatedInput));
    assert_eq!(run(b""), Err(RunError::TruncatedInput));
}

#[test]
fn value_with_comma_is_invalid() {
    assert_eq!(run(b"A;1,000\n"), Err(RunError::InvalidRecordFormat));
}

#[test]
fn keys_sharing_a_prefix_stay_apart() {
    assert_eq!(
        lines_of(b"Alexandria;1.0\nAlex;2.0\nAlexandria;3.0\n"),
        vec!["Alex: 2.0/2.0/2.0".to_string(), "Alexandria: 1.0/2.0/3.0".to_string()]
    );
}

#[test]
fn keys_with_equal_codes_stay_apart() {
    assert_eq!(to_key(b"abcdefghX"), to_key(b"abcdefghY"));
    assert_eq!(
        lines_of(b"abcdefghY;1.0\nabcdefghX;2.0\nabcdefghY;3.0\n"),
        vec!["abcdefghX: 2.0/2.0/2.0".to_string(), "abcdefghY: 1.0/2.0/3.0".to_string()]
    );
}

#[test]
fn line_without_separator_is_invalid() {
    assert_eq!(run(b"A;1.0\nB 2.0\n"), Err(RunError::InvalidRecordFormat));
    assert_eq!(run(b"A;1.0\n\nB;2.0\n"), Err(RunError::InvalidRecordFormat));
}

#[test]
fn empty_body_gives_empty_report() {
    assert_eq!(run(b"\n"), Ok(vec![]));
}

#[test]
fn report_sorted_by_key_bytes() {
    assert_eq!(
        lines_of(b"b;1.0\nab;2.0\na;3.0\nB;4.0\n"),
        vec![
            "B: 4.0/4.0/4.0".to_string(),
            "a: 3.0/3.0/3.0".to_string(),
            "ab: 2.0/2.0/2.0".to_string(),
            "b: 1.0/1.0/1.0".to_string(),
        ]
    );
}

#[test]
fn mean_truncates_toward_zero() {
    assert_eq!(lines_of(b"x;-1.0\nx;-0.5\n"), vec!["x: -1.0/-0.7/-0.5".to_string()]);
    assert_eq!(lines_of(b"y;1.0\ny;0.5\n"), vec!["y: 0.5/0.7/1.0".to_string()]);
}

#[test]
fn mean_between_min_and_max() {
    let entries = summarize_file(b"k;-99.9\nk;99.9\nk;0.1\nj;5.5\n").unwrap();
    assert_eq!(entries.len(), 2);
    for (_, r) in entries.iter() {
        assert!(r.min <= r.avg() && r.avg() <= r.max);
    }
    assert_eq!(entries[1].0, b"k".to_vec());
    assert_eq!(entries[1].1.count, 3);
    assert_eq!(entries[1].1.sum, 1);
}

#[test]
fn run_twice_gives_same_report() {
    let file = b"Z;1.0\nA;2.0\nM;-3.3\nA;4.4\n";
    assert_eq!(run(file), run(file));
}

#[test]
fn every_key_has_one_line() {
    let lines = lines_of(b"p;1.0\nq;2.0\np;3.0\nr;4.0\nq;5.0\n");
    assert_eq!(lines.len(), 3);
    assert!(lines[0].starts_with("p:") && lines[1].starts_with("q:") && lines[2].starts_with("r:"));
}

#[test]
fn parse_accepted_shapes() {
    assert_eq!(parse(b"-12.3"), Ok(-123));
    assert_eq!(parse(b"1.5"), Ok(15));
    assert_eq!(parse(b"99.9"), Ok(999));
    assert_eq!(parse(b"999.9"), Ok(9999));
    assert_eq!(parse(b"-0.0"), Ok(0));
    assert_eq!(parse(b"5"), Ok(5));
    assert_eq!(parse(b"12"), Ok(120));
    assert_eq!(parse(b"123"), Ok(1230));
    assert_eq!(parse(b"-7"), Ok(-7));
}

#[test]
fn parse_rejected_shapes() {
    for s in [&b""[..], b"-", b"--1.0", b"1.", b".5", b"1234.5", b"1,000", b"1.23", b"a.b", b"+1.0", b"1234"] {
        assert_eq!(parse(s), Err(RunError::InvalidRecordFormat), "{:?}", s);
    }
}

#[test]
fn format_exact_values() {
    assert_eq!(billion_row::fixed::format(-123), b"-12.3".to_vec());
    assert_eq!(billion_row::fixed::format(-5), b"-0.5".to_vec());
    assert_eq!(billion_row::fixed::format(0), b"0.0".to_vec());
    assert_eq!(billion_row::fixed::format(9999), b"999.9".to_vec());
    assert_eq!(billion_row::fixed::format(i32::MIN), b"-214748364.8".to_vec());
}

#[test]
fn format_then_parse_round_trip() {
    for v in -9999..=9999 {
        let text = billion_row::fixed::format(v);
        assert_eq!(parse(&text), Ok(v));
    }
}

#[test]
fn key_codes() {
    assert_eq!(to_key(b""), 0);
    assert_eq!(to_key(b"ab"), (97 ^ 2) + 98 * 256);
    assert_ne!(to_key(b"Alex"), to_key(b"Alexandria"));
    assert_ne!(to_key(b"Alexandra"), to_key(b"Alexandria2"));
}

#[test]
fn record_folds_values() {
    let mut r = Record::default();
    assert_eq!(r.count, 0);
    assert_eq!((r.min, r.max, r.sum), (i32::MAX, i32::MIN, 0));
    r.add(-10);
    r.add(-5);
    assert_eq!((r.count, r.min, r.max, r.sum), (2, -10, -5, -15));
    assert_eq!(r.avg(), -7);
}

#[test]
fn table_folds_and_drains_sorted() {
    let mut t = Table::new();
    t.fold(b"b", 10);
    t.fold(b"a", 5);
    t.fold(b"b", -30);
    let out = t.drain_sorted();
    assert_eq!(out.len(), 2);
    assert_eq!(out[0].0, b"a".to_vec());
    assert_eq!(out[1].0, b"b".to_vec());
    assert_eq!((out[1].1.count, out[1].1.min, out[1].1.max, out[1].1.sum), (2, -30, 10, -20));
}

#[test]
fn report_line_layout() {
    let mut r = Record::default();
    r.add(123);
    r.add(-77);
    assert_eq!(report_line(b"A", r), b"A: -7.7/2.3/12.3".to_vec());
}

#[test]
fn byte_order_and_equality() {
    assert!(bytes_less(b"a", b"b"));
    assert!(bytes_less(b"a", b"ab"));
    assert!(!bytes_less(b"ab", b"a"));
    assert!(!bytes_less(b"a", b"a"));
    assert!(bytes_less(b"", b"a"));
    assert!(bytes_equal(b"xy", b"xy"));
    assert!(!bytes_equal(b"xy", b"xz"));
    assert_eq!(slice_from(b"abc", 1), b"bc");
    assert_eq!(slice_range(b"abcd", 1, 3), b"bc");
}
