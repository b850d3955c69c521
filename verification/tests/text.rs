use logparser::lines::{bytes_to_lines, LineSplitter};
use logparser::rank::{run_lengths, select_top, sort_ascending};
use logparser::text::{
    bytes_contain, bytes_end_with, bytes_equal, bytes_start_with, count_byte, find_byte,
    matches_at, rfind_byte, slice_between, slice_str,
};
use logparser::time::{parse_timestamp, Timestamp};
use logparser::tokens::{
    find_end_quote, findidx, parse_decimal, read_date, read_field, skip_space, Token,
};

#[test]
fn find_and_count_bytes() {
    let s = b"a/b/c";
    assert_eq!(find_byte(s, b'/'), Some(1));
    assert_eq!(rfind_byte(s, b'/'), Some(3));
    assert_eq!(find_byte(s, b'x'), None);
    assert_eq!(rfind_byte(b"", b'/'), None);
    assert_eq!(count_byte(s, b'/'), 2);
    assert_eq!(count_byte(b"", b'/'), 0);
}

#[test]
fn prefix_suffix_and_substring() {
    assert!(bytes_start_with(b"/admin/x", b"/admin"));
    assert!(!bytes_start_with(b"/adm", b"/admin"));
    assert!(bytes_end_with(b"a.css", b".css"));
    assert!(!bytes_end_with(b"css", b".css"));
    assert!(bytes_end_with(b"x", b""));
    assert!(bytes_contain(b"hello world", b"lo w"));
    assert!(bytes_contain(b"abc", b""));
    assert!(bytes_contain(b"", b""));
    assert!(!bytes_contain(b"abc", b"abcd"));
    assert!(!bytes_contain(b"abcabc", b"cb"));
    assert!(matches_at(b"abcabc", b"abc", 3));
    assert!(!matches_at(b"abcabc", b"abc", 4));
    assert!(!matches_at(b"abc", b"a", 9));
    assert!(bytes_equal(b"same", b"same"));
    assert!(!bytes_equal(b"same", b"sama"));
    assert!(!bytes_equal(b"same", b"sam"));
}

#[test]
fn slices_of_text() {
    let s = "päth \"quöted\" end";
    let q1 = s.find('"').unwrap();
    let q2 = s.rfind('"').unwrap();
    assert_eq!(slice_str(s, q1 + 1, q2), "quöted");
    assert_eq!(slice_str(s, 0, s.len()), s);
    assert_eq!(slice_str(s, 0, 0), "");
    assert_eq!(slice_between(s, 1, 3), "ä");
}

#[test]
fn sorting_is_ascending() {
    let mut v: Vec<u64> = vec![5, 1, 4, 1, 9, 0];
    sort_ascending(&mut v);
    assert_eq!(v, vec![0, 1, 1, 4, 5, 9]);
    let mut e: Vec<u64> = vec![];
    sort_ascending(&mut e);
    assert!(e.is_empty());
}

#[test]
fn run_lengths_count_each_value() {
    let (values, counts) = run_lengths(&vec![2, 2, 2, 5, 7, 7]);
    assert_eq!(values, vec![2, 5, 7]);
    assert_eq!(counts, vec![3, 1, 2]);
    let (values, counts) = run_lengths(&vec![]);
    assert!(values.is_empty() && counts.is_empty());
}

#[test]
fn ranking_orders_by_count_then_by_category() {
    let cands = vec![(10, 3), (11, 7), (12, 3), (13, 1), (9, 7)];
    assert_eq!(select_top(&cands, 0, 10), vec![(9, 7), (11, 7), (10, 3), (12, 3), (13, 1)]);
    assert_eq!(select_top(&cands, 3, 10), vec![(9, 7), (11, 7), (10, 3), (12, 3)]);
    assert_eq!(select_top(&cands, 0, 2), vec![(9, 7), (11, 7)]);
    assert_eq!(select_top(&cands, 8, 10), vec![]);
    assert_eq!(select_top(&cands, 0, 0), vec![]);
    assert_eq!(select_top(&vec![(1, u32::MAX), (0, 0)], 0, 5), vec![(1, u32::MAX), (0, 0)]);
}

#[test]
fn timestamps_are_read_by_format() {
    assert_eq!(
        parse_timestamp("2024-01-01 00:00:00", "%Y-%m-%d %H:%M:%S"),
        Some(Timestamp::new(1704067200, 0))
    );
    assert_eq!(
        parse_timestamp("1970-01-01 00:00:01.5", "%Y-%m-%d %H:%M:%S%.f"),
        Some(Timestamp::new(1, 500_000_000))
    );
    assert_eq!(
        parse_timestamp("1969-12-31 23:59:59", "%Y-%m-%d %H:%M:%S"),
        Some(Timestamp::new(-1, 0))
    );
    assert_eq!(parse_timestamp("yesterday", "%Y-%m-%d %H:%M:%S"), None);
    assert_eq!(parse_timestamp("2024-13-01 00:00:00", "%Y-%m-%d %H:%M:%S"), None);
    assert_eq!(parse_timestamp("", "%Y-%m-%d"), None);
}

#[test]
fn timestamps_compare_and_subtract() {
    let a = Timestamp::new(100, 5);
    let b = Timestamp::new(100, 6);
    let c = Timestamp::new(130, 0);
    assert!(a.is_before(&b));
    assert!(!b.is_before(&a));
    assert!(!a.is_before(&a));
    assert!(b.is_before(&c));
    assert_eq!(c.seconds_since(&a), 30);
    assert_eq!(a.seconds_since(&c), 0);
    assert_eq!(Timestamp::new(i64::MAX, 0).seconds_since(&Timestamp::new(i64::MIN, 0)), u32::MAX);
    // within ten seconds: strictly before the point ten seconds later
    assert!(Timestamp::new(109, 0).is_within(&a, 10));
    assert!(Timestamp::new(110, 4).is_within(&a, 10));
    assert!(!Timestamp::new(110, 5).is_within(&a, 10));
    assert!(!Timestamp::new(111, 0).is_within(&a, 10));
    assert!(Timestamp::new(50, 0).is_within(&a, 10));
}

#[test]
fn decimal_numbers() {
    assert_eq!(parse_decimal(b"0", 10), Some(0));
    assert_eq!(parse_decimal(b"200", u32::MAX as u64), Some(200));
    assert_eq!(parse_decimal(b"+17", 100), Some(17));
    assert_eq!(parse_decimal(b"007", 100), Some(7));
    assert_eq!(parse_decimal(b"4294967295", u32::MAX as u64), Some(4294967295));
    assert_eq!(parse_decimal(b"4294967296", u32::MAX as u64), None);
    assert_eq!(parse_decimal(b"18446744073709551615", u64::MAX), Some(u64::MAX));
    assert_eq!(parse_decimal(b"18446744073709551616", u64::MAX), None);
    assert_eq!(parse_decimal(b"99999999999999999999999", u64::MAX), None);
    assert_eq!(parse_decimal(b"", 10), None);
    assert_eq!(parse_decimal(b"+", 10), None);
    assert_eq!(parse_decimal(b"-1", 10), None);
    assert_eq!(parse_decimal(b"12a", 100), None);
    assert_eq!(parse_decimal(b" 1", 100), None);
    assert_eq!(parse_decimal(b"++1", 100), None);
    assert_eq!(parse_decimal(b"11", 10), None);
}

#[test]
fn spaces_and_searches_from_a_position() {
    let s = b"ab   cd e";
    assert_eq!(skip_space(s, 2), 5);
    assert_eq!(skip_space(s, 0), 0);
    assert_eq!(skip_space(s, 9), 9);
    assert_eq!(skip_space(b"   ", 0), 3);
    assert_eq!(findidx(s, 0, b' '), Some(2));
    assert_eq!(findidx(s, 5, b' '), Some(7));
    assert_eq!(findidx(s, 8, b' '), None);
}

#[test]
fn the_date_is_two_words() {
    let s = b"2021-05-01 02:16:15   \"1.1.1.1\" x";
    assert_eq!(read_date(s, 0), Some(Token { start: 0, end: 19, next: 22 }));
    assert_eq!(read_date(b"2021-05-01 02:16:15", 0), None);
    assert_eq!(read_date(b"oneword", 0), None);
    assert_eq!(read_date(b"", 0), None);
}

#[test]
fn quoted_fields_end_at_the_next_unescaped_quote() {
    // "a\"b" c   : the quote after the backslash is escaped
    let s = b"\"a\\\"b\" c";
    assert_eq!(find_end_quote(s, 1), Some(5));
    assert_eq!(read_field(s, 0), Some(Token { start: 1, end: 5, next: 7 }));
    // "a\\" c    : two backslashes escape each other, the quote ends the field
    let s = b"\"a\\\\\" c";
    assert_eq!(find_end_quote(s, 1), Some(4));
    // "a\\\" b"  : three backslashes, the quote is escaped
    let s = b"\"a\\\\\\\" b\"";
    assert_eq!(find_end_quote(s, 1), Some(8));
    // an empty quoted field
    assert_eq!(read_field(b"\"\" x", 0), Some(Token { start: 1, end: 1, next: 3 }));
    // no closing quote
    assert_eq!(read_field(b"\"abc", 0), None);
    assert_eq!(read_field(b"\"abc\\\"", 0), None);
}

#[test]
fn plain_fields_end_at_a_space() {
    let s = b"GET  example.com";
    assert_eq!(read_field(s, 0), Some(Token { start: 0, end: 3, next: 5 }));
    assert_eq!(read_field(s, 5), Some(Token { start: 5, end: 16, next: 16 }));
    assert_eq!(read_field(s, 16), Some(Token { start: 16, end: 16, next: 16 }));
}

#[test]
fn lines_are_cut_at_newlines() {
    let mut sp = LineSplitter::new();
    assert_eq!(sp.push(b"ab"), Vec::<Vec<u8>>::new());
    assert_eq!(sp.push(b"c\nde\n\nf"), vec![b"abc".to_vec(), b"de".to_vec(), b"".to_vec()]);
    assert_eq!(sp.push(b""), Vec::<Vec<u8>>::new());
    assert_eq!(sp.push(b"\n"), vec![b"f".to_vec()]);
}

#[test]
fn a_line_may_lie_across_chunks() {
    let chunks = vec![b"first li".to_vec(), b"ne\nsec".to_vec(), b"ond\nthird".to_vec()];
    assert_eq!(bytes_to_lines(&chunks), vec![b"first line".to_vec(), b"second".to_vec()]);
    assert_eq!(bytes_to_lines(&vec![]), Vec::<Vec<u8>>::new());
    assert_eq!(bytes_to_lines(&vec![b"no newline".to_vec()]), Vec::<Vec<u8>>::new());
}

#[test]
fn chunking_does_not_change_the_lines() {
    let data = b"alpha\nbeta\n\ngamma\ndelta";
    let whole = bytes_to_lines(&vec![data.to_vec()]);
    for cut in 0..=data.len() {
        let chunks = vec![data[..cut].to_vec(), data[cut..].to_vec()];
        assert_eq!(bytes_to_lines(&chunks), whole);
    }
    let single: Vec<Vec<u8>> = data.iter().map(|b| vec![*b]).collect();
    assert_eq!(bytes_to_lines(&single), whole);
}
