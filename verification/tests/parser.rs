use logparser::parser::{
    build_record, create_parser, indices_in_range, parse_captures, parse_line,
    parse_line_handwritten1, parser_from, ConfigError, FieldRefs, LogParser, ParseFailure,
};
use logparser::pattern::Pattern;
use logparser::symbols::GlobalTable;
use logparser::time::Timestamp;

const FORMAT: &str = "%Y-%m-%d %H:%M:%S";

const PATTERN: &str = "^(\\S+ \\S+) \"([^\"]*)\" \"([^\"]*)\" (\\S+) (\\S+) \"([^\"]*)\" (\\d+) (\\d+) (\\d+) \"([^\"]*)\" \"([^\"]*)\" \"([^\"]*)\" \"([^\"]*)\" \"([^\"]*)\" \"([^\"]*)\"$";

const LINE: &str = "2024-01-01 00:00:00 \"1.1.1.1\" \"HTTP/1.1\" GET example.com \"/a\" 200 100 0 \"-\" \"ua1\" \"-\" \"-\" \"text/html\" \"-\"";

fn all_groups() -> Vec<usize> {
    (1..=15).collect()
}

fn parser(strip: bool) -> LogParser {
    create_parser(PATTERN, all_groups(), FORMAT, strip).unwrap()
}

#[test]
fn parser_needs_fifteen_capture_indices() {
    let r = create_parser(PATTERN, vec![1, 2, 3], FORMAT, true);
    assert!(matches!(r, Err(ConfigError::WrongCaptureCount)));
    let r = create_parser("(", vec![], FORMAT, true);
    assert!(matches!(r, Err(ConfigError::WrongCaptureCount)));
    let r = create_parser(PATTERN, (1..=16).collect(), FORMAT, true);
    assert!(matches!(r, Err(ConfigError::WrongCaptureCount)));
}

#[test]
fn parser_needs_a_pattern_that_compiles() {
    let r = create_parser("foo(bar", all_groups(), FORMAT, true);
    assert!(matches!(r, Err(ConfigError::BadPattern)));
}

#[test]
fn parser_needs_capture_indices_within_the_pattern() {
    let r = create_parser("(a)(b)", all_groups(), FORMAT, true);
    assert!(matches!(r, Err(ConfigError::CaptureIndexOutOfRange)));
    // the pattern has the groups 0 to 15: the index 16 names none
    let mut idxs = all_groups();
    idxs[3] = 16;
    assert!(matches!(
        create_parser(PATTERN, idxs, FORMAT, true),
        Err(ConfigError::CaptureIndexOutOfRange)
    ));
    let mut idxs = all_groups();
    idxs[8] = 0;
    assert!(create_parser(PATTERN, idxs, FORMAT, true).is_ok());
}

#[test]
fn parser_from_decides_on_the_compiled_pattern() {
    assert!(matches!(
        parser_from(None, all_groups(), FORMAT, true),
        Err(ConfigError::BadPattern)
    ));
    assert!(matches!(
        parser_from(None, vec![], FORMAT, true),
        Err(ConfigError::WrongCaptureCount)
    ));
    assert!(matches!(
        parser_from(Pattern::compile("(a)"), all_groups(), FORMAT, true),
        Err(ConfigError::CaptureIndexOutOfRange)
    ));
    assert!(matches!(
        parser_from(Pattern::compile("(a)"), vec![1; 14], FORMAT, true),
        Err(ConfigError::WrongCaptureCount)
    ));
    assert!(parser_from(Pattern::compile("(a)"), vec![1; 15], FORMAT, true).is_ok());
    assert!(parser_from(Pattern::compile(PATTERN), all_groups(), FORMAT, false).is_ok());
}

#[test]
fn errors_have_words() {
    assert_eq!(ConfigError::WrongCaptureCount.message(), "capture_idxs must have 15 elements");
    assert_eq!(ConfigError::BadPattern.message(), "Could not create regex");
    assert!(ConfigError::CaptureIndexOutOfRange.message().contains("group"));
    assert_eq!(ParseFailure::NoMatch.message(), "Regex didn't match");
    assert_ne!(ParseFailure::MissingField.message(), ParseFailure::BadTimestamp.message());
    assert_ne!(ParseFailure::NotANumber.message(), ParseFailure::BadTimestamp.message());
}

#[test]
fn capture_indices_are_checked_against_the_number_of_groups() {
    assert!(indices_in_range(&vec![0, 1, 2], 3));
    assert!(!indices_in_range(&vec![0, 3, 2], 3));
    assert!(indices_in_range(&vec![], 0));
    assert!(!indices_in_range(&vec![0], 0));
}

#[test]
fn handwritten_parser_reads_the_canonical_line() {
    let p = parser(true);
    let mut t = GlobalTable::new();
    let l = parse_line_handwritten1(&p, &mut t, LINE).unwrap();
    assert_eq!(l.time, Timestamp::new(1704067200, 0));
    assert_eq!(l.ip, 1);
    assert_eq!(l.http_version, 1);
    assert_eq!(l.method, 1);
    assert_eq!(l.domain, 1);
    assert_eq!(l.path, 8);
    assert_eq!(l.status_code, 200);
    assert_eq!(l.size, 100);
    assert_eq!(l.referer, 1);
    assert_eq!(l.user_agent, 1);
    assert_eq!(l.content_type, 1);
    assert_eq!(l.compression_type, 1);
    assert_eq!(t.ip.resolve(1), Some("1.1.1.1"));
    assert_eq!(t.http_version.resolve(1), Some("HTTP/1.1"));
    assert_eq!(t.method.resolve(1), Some("GET"));
    assert_eq!(t.domain.resolve(1), Some("example.com"));
    assert_eq!(t.path.resolve(8), Some("/a"));
    assert_eq!(t.referer.resolve(1), Some("-"));
    assert_eq!(t.user_agent.resolve(1), Some("ua1"));
    assert_eq!(t.compression_type.resolve(1), Some("-"));
}

#[test]
fn both_parsers_give_the_same_record() {
    let lines = [
        LINE.to_string(),
        "2021-05-01 02:16:15 \"10.0.0.7\" \"HTTP/2.0\" POST ksp.example \"/img/home.png?x=1\" 204 0 0 \"https://ksp.example/css/ksp.css?v=2\" \"Mozilla/5.0 (Windows NT 10.0)\" \"-\" \"61647\" \"image/png\" \"gzip\"".to_string(),
        "2021-05-01 02:16:20 \"10.0.0.7\" \"HTTP/2.0\" GET ksp.example \"/deep/er/path/\" 200 5120 0 \"-\" \"Mozilla/5.0 (Windows NT 10.0)\" \"-\" \"-\" \"application/pdf\" \"-\"".to_string(),
    ];
    for strip in [true, false] {
        let p = parser(strip);
        let mut t1 = GlobalTable::new();
        let mut t2 = GlobalTable::new();
        for line in &lines {
            let a = parse_line(&p, &mut t1, line).unwrap();
            let b = parse_line_handwritten1(&p, &mut t2, line).unwrap();
            assert_eq!(format!("{:?}", a), format!("{:?}", b));
        }
        assert_eq!(t1.path.len(), t2.path.len());
        for pos in 0..t1.path.len() {
            assert_eq!(t1.path.name_at(pos), t2.path.name_at(pos));
        }
        assert_eq!(t1.referer.len(), t2.referer.len());
        assert_eq!(t1.content_type.get("application/pdf"), Some(12));
        assert_eq!(t2.content_type.get("application/pdf"), Some(12));
    }
}

#[test]
fn query_strings_are_cut_off_path_and_referer_only() {
    let line = "2024-01-01 00:00:00 \"1.1.1.1\" \"HTTP/1.1\" GET exa?mple.com \"/a/b?x=1&y=?\" 200 100 0 \"http://r/?q\" \"ua?1\" \"-\" \"-\" \"text/html\" \"-\"";
    let p = parser(true);
    let mut t = GlobalTable::new();
    let l = parse_line_handwritten1(&p, &mut t, line).unwrap();
    assert_eq!(t.path.resolve(l.path), Some("/a/b"));
    assert_eq!(t.referer.resolve(l.referer), Some("http://r/"));
    assert_eq!(t.domain.resolve(l.domain), Some("exa?mple.com"));
    assert_eq!(t.user_agent.resolve(l.user_agent), Some("ua?1"));

    let p = parser(false);
    let mut t = GlobalTable::new();
    let l = parse_line_handwritten1(&p, &mut t, line).unwrap();
    assert_eq!(t.path.resolve(l.path), Some("/a/b?x=1&y=?"));
    assert_eq!(t.referer.resolve(l.referer), Some("http://r/?q"));
}

#[test]
fn strip_query_string_cuts_at_the_first_question_mark() {
    let p = parser(true);
    assert_eq!(p.strip_query_string("/a?b?c"), "/a");
    assert_eq!(p.strip_query_string("?"), "");
    assert_eq!(p.strip_query_string("/plain"), "/plain");
    assert_eq!(p.strip_query_string_u8(b"/a?b"), b"/a");
    assert_eq!(p.strip_query_string_u8(b""), b"");
    let keep = parser(false);
    assert_eq!(keep.strip_query_string("/a?b?c"), "/a?b?c");
    assert_eq!(keep.strip_query_string_u8(b"/a?b"), b"/a?b");
}

#[test]
fn escaped_quotes_stay_in_the_field() {
    let line = "2024-01-01 00:00:00 \"1.1.1.1\" \"HTTP/1.1\" GET example.com \"/a\" 200 100 0 \"-\" \"agent \\\"quoted\\\" name\" \"-\" \"-\" \"text/html\" \"-\"";
    let p = parser(true);
    let mut t = GlobalTable::new();
    let l = parse_line_handwritten1(&p, &mut t, line).unwrap();
    assert_eq!(t.user_agent.resolve(l.user_agent), Some("agent \\\"quoted\\\" name"));
    assert_eq!(l.content_type, 1);
}

#[test]
fn leading_and_repeated_spaces_are_skipped() {
    let line = "   2024-01-01 00:00:00    \"1.1.1.1\"  \"HTTP/1.1\"   GET   example.com \"/a\"  200   100 0 \"-\" \"ua1\" \"-\" \"-\" \"text/html\"    \"-\"";
    let p = parser(true);
    let mut t = GlobalTable::new();
    let l = parse_line_handwritten1(&p, &mut t, line).unwrap();
    assert_eq!(l.status_code, 200);
    assert_eq!(l.size, 100);
    assert_eq!(t.domain.resolve(l.domain), Some("example.com"));
    assert_eq!(l.content_type, 1);
}

#[test]
fn a_short_line_has_empty_fields_at_its_end() {
    let line = "2024-01-01 00:00:00 \"1.1.1.1\" \"HTTP/1.1\" GET example.com \"/a\" 200 100";
    let p = parser(true);
    let mut t = GlobalTable::new();
    let l = parse_line_handwritten1(&p, &mut t, line).unwrap();
    assert_eq!(t.referer.resolve(l.referer), Some(""));
    assert_eq!(t.user_agent.resolve(l.user_agent), Some(""));
    // the empty content type is seeded with the id 0
    assert_eq!(l.content_type, 0);
}

fn failure(p: &LogParser, line: &str) -> ParseFailure {
    let mut t = GlobalTable::new();
    let e = parse_line_handwritten1(p, &mut t, line).unwrap_err();
    assert_eq!(e.line, line);
    // a line that gives no record leaves the table as it was
    assert_eq!(t.ip.len(), 0);
    assert_eq!(t.path.len(), 8);
    assert_eq!(t.user_agent.len(), 0);
    assert_eq!(t.content_type.len(), 11);
    e.reason
}

#[test]
fn a_line_without_a_time_has_a_missing_field() {
    let p = parser(true);
    assert_eq!(failure(&p, ""), ParseFailure::MissingField);
    assert_eq!(failure(&p, "word"), ParseFailure::MissingField);
    assert_eq!(failure(&p, "2024-01-01 00:00:00"), ParseFailure::MissingField);
}

#[test]
fn an_unclosed_quote_is_a_missing_field() {
    let p = parser(true);
    let line = "2024-01-01 00:00:00 \"1.1.1.1\" \"HTTP/1.1 GET example.com";
    assert_eq!(failure(&p, line), ParseFailure::MissingField);
}

#[test]
fn empty_domain_size_or_status_is_a_missing_field() {
    let p = parser(true);
    let no_domain = "2024-01-01 00:00:00 \"1.1.1.1\" \"HTTP/1.1\" GET \"\" \"/a\" 200 100 0";
    assert_eq!(failure(&p, no_domain), ParseFailure::MissingField);
    let no_size = "2024-01-01 00:00:00 \"1.1.1.1\" \"HTTP/1.1\" GET example.com \"/a\" 200";
    assert_eq!(failure(&p, no_size), ParseFailure::MissingField);
    let no_status = "2024-01-01 00:00:00 \"1.1.1.1\" \"HTTP/1.1\" GET example.com \"/a\" \"\" 100";
    assert_eq!(failure(&p, no_status), ParseFailure::MissingField);
}

#[test]
fn a_time_that_does_not_follow_the_format_is_a_bad_timestamp() {
    let p = parser(true);
    let line = "2024-01-01 25:00:00 \"1.1.1.1\" \"HTTP/1.1\" GET example.com \"/a\" 200 100 0 \"-\" \"ua1\" \"-\" \"-\" \"text/html\" \"-\"";
    assert_eq!(failure(&p, line), ParseFailure::BadTimestamp);
    let line = "01/01/2024 00:00:00 \"1.1.1.1\" \"HTTP/1.1\" GET example.com \"/a\" 200 100 0";
    assert_eq!(failure(&p, line), ParseFailure::BadTimestamp);
}

#[test]
fn a_status_or_size_that_is_no_number_is_not_a_number() {
    let p = parser(true);
    let line = "2024-01-01 00:00:00 \"1.1.1.1\" \"HTTP/1.1\" GET example.com \"/a\" OK 100 0";
    assert_eq!(failure(&p, line), ParseFailure::NotANumber);
    let line = "2024-01-01 00:00:00 \"1.1.1.1\" \"HTTP/1.1\" GET example.com \"/a\" 200 -5 0";
    assert_eq!(failure(&p, line), ParseFailure::NotANumber);
    let line = "2024-01-01 00:00:00 \"1.1.1.1\" \"HTTP/1.1\" GET example.com \"/a\" 4294967296 5 0";
    assert_eq!(failure(&p, line), ParseFailure::NotANumber);
    let line = "2024-01-01 00:00:00 \"1.1.1.1\" \"HTTP/1.1\" GET example.com \"/a\" 200 18446744073709551616 0";
    assert_eq!(failure(&p, line), ParseFailure::NotANumber);
}

#[test]
fn a_bad_time_is_reported_before_a_bad_number() {
    let p = parser(true);
    let line = "2024-99-01 00:00:00 \"1.1.1.1\" \"HTTP/1.1\" GET example.com \"/a\" OK 100 0";
    assert_eq!(failure(&p, line), ParseFailure::BadTimestamp);
}

#[test]
fn a_line_that_the_pattern_does_not_match_gives_no_record() {
    let p = parser(true);
    let mut t = GlobalTable::new();
    let e = parse_line(&p, &mut t, "not a log line").unwrap_err();
    assert_eq!(e.reason, ParseFailure::NoMatch);
    assert_eq!(e.line, "not a log line");
    assert_eq!(t.path.len(), 8);
}

#[test]
fn the_pattern_parser_reports_bad_fields() {
    let p = create_parser("^(\\S+ \\S+) (\\S+) (\\S+)$", vec![1, 0, 0, 0, 0, 0, 2, 3, 0, 0, 0, 0, 0, 0, 0], FORMAT, true).unwrap();
    let mut t = GlobalTable::new();
    let e = parse_line(&p, &mut t, "2024-01-01 00:00:61 200 5").unwrap_err();
    assert_eq!(e.reason, ParseFailure::BadTimestamp);
    let e = parse_line(&p, &mut t, "2024-01-01 00:00:01 abc 5").unwrap_err();
    assert_eq!(e.reason, ParseFailure::NotANumber);
    let e = parse_line(&p, &mut t, "2024-01-01 00:00:01 200 x").unwrap_err();
    assert_eq!(e.reason, ParseFailure::NotANumber);
    assert_eq!(t.ip.len(), 0);
}

#[test]
fn a_capture_index_of_zero_stands_for_the_text_zero() {
    let p = create_parser("^(\\S+ \\S+) (\\S+) (\\S+)$", vec![1, 0, 0, 0, 0, 0, 2, 3, 0, 0, 0, 0, 0, 0, 0], FORMAT, true).unwrap();
    let mut t = GlobalTable::new();
    let l = parse_line(&p, &mut t, "2024-01-01 00:00:01 200 5").unwrap();
    assert_eq!(l.status_code, 200);
    assert_eq!(l.size, 5);
    assert_eq!(t.ip.resolve(l.ip), Some("0"));
    assert_eq!(t.path.resolve(l.path), Some("0"));
    assert_eq!(t.user_agent.resolve(l.user_agent), Some("0"));
    assert_eq!(l.content_type, 12);
}

#[test]
fn a_group_that_took_no_part_is_a_missing_field() {
    let p = create_parser("^(\\S+ \\S+) (\\d+) (\\d+)(?: (\\S+))?$", vec![1, 4, 0, 0, 0, 0, 2, 3, 0, 0, 0, 0, 0, 0, 0], FORMAT, true).unwrap();
    let mut t = GlobalTable::new();
    let e = parse_line(&p, &mut t, "2024-01-01 00:00:01 200 5").unwrap_err();
    assert_eq!(e.reason, ParseFailure::MissingField);
    let l = parse_line(&p, &mut t, "2024-01-01 00:00:01 200 5 9.9.9.9").unwrap();
    assert_eq!(t.ip.resolve(l.ip), Some("9.9.9.9"));
}

#[test]
fn captures_are_checked_before_the_line_is_cut() {
    let p = create_parser("^(\\S+ \\S+) (\\S+) (\\S+)$", vec![1, 0, 0, 0, 0, 0, 2, 3, 0, 0, 0, 0, 0, 0, 0], FORMAT, true).unwrap();
    let line = "2024-01-01 00:00:01 200 5";
    let mut t = GlobalTable::new();
    let good = Some(vec![Some((0, 25)), Some((0, 19)), Some((20, 23)), Some((24, 25))]);
    let l = parse_captures(&p, &mut t, line, &good).unwrap();
    assert_eq!(l.time, Timestamp::new(1704067201, 0));
    assert_eq!((l.status_code, l.size), (200, 5));
    let none: Option<Vec<Option<(usize, usize)>>> = None;
    assert_eq!(parse_captures(&p, &mut t, line, &none).unwrap_err().reason, ParseFailure::NoMatch);
    let too_few = Some(vec![Some((0, 25)), Some((0, 19))]);
    assert_eq!(
        parse_captures(&p, &mut t, line, &too_few).unwrap_err().reason,
        ParseFailure::MissingField
    );
    let beyond = Some(vec![Some((0, 25)), Some((0, 19)), Some((20, 23)), Some((24, 99))]);
    assert_eq!(
        parse_captures(&p, &mut t, line, &beyond).unwrap_err().reason,
        ParseFailure::MissingField
    );
    let backwards = Some(vec![Some((0, 25)), Some((19, 0)), Some((20, 23)), Some((24, 25))]);
    assert_eq!(
        parse_captures(&p, &mut t, line, &backwards).unwrap_err().reason,
        ParseFailure::MissingField
    );
    let inside = "2024-01-01 00:00:01 200 5é";
    let split = Some(vec![Some((0, 27)), Some((0, 19)), Some((20, 23)), Some((24, 26))]);
    assert_eq!(
        parse_captures(&p, &mut t, inside, &split).unwrap_err().reason,
        ParseFailure::MissingField
    );
}

#[test]
fn build_record_enters_the_fields() {
    let p = parser(true);
    let mut t = GlobalTable::new();
    let f = FieldRefs {
        time: "2024-01-01 00:00:10",
        ip: "2.2.2.2",
        http_version: "HTTP/1.1",
        method: "GET",
        domain: "d",
        path: "/x/y/?q",
        status_code: "+301",
        size: "0042",
        referer: "-",
        user_agent: "ua",
        content_type: "text/css",
        compression_type: "br",
    };
    let l = build_record(&p, &mut t, &f).unwrap();
    assert_eq!(l.time, Timestamp::new(1704067210, 0));
    assert_eq!(l.status_code, 301);
    assert_eq!(l.size, 42);
    assert_eq!(l.content_type, 2);
    assert_eq!(t.path.resolve(l.path), Some("/x/y"));
    assert_eq!(t.path.get("/x"), Some(8));
    let again = build_record(&p, &mut t, &f).unwrap();
    assert_eq!(format!("{:?}", l), format!("{:?}", again));
    assert_eq!(t.path.len(), 10);
}

struct Lcg(u64);

impl Lcg {
    fn next(&mut self, bound: u64) -> u64 {
        self.0 = self.0.wrapping_mul(6364136223846793005).wrapping_add(1442695040888963407);
        (self.0 >> 33) % bound
    }

    fn word(&mut self, alphabet: &[&str], max: u64) -> String {
        let n = 1 + self.next(max);
        (0..n).map(|_| alphabet[self.next(alphabet.len() as u64) as usize]).collect()
    }
}

#[test]
fn both_parsers_agree_on_generated_lines() {
    let plain = ["a", "b", "c", "/", ".", "-", "1", "7", "é", "ß", "?"];
    let quoted = ["a", "b", " ", "  ", "/", ".", "?", "=", "é", "(", ")", ";", "1"];
    for strip in [true, false] {
        let p = parser(strip);
        let mut rng = Lcg(42);
        let mut t1 = GlobalTable::new();
        let mut t2 = GlobalTable::new();
        for _ in 0..300 {
            let line = format!(
                "20{:02}-{:02}-{:02} {:02}:{:02}:{:02} \"{}\" \"{}\" {} {} \"{}\" {} {} {} \"{}\" \"{}\" \"{}\" \"{}\" \"{}\" \"{}\"",
                rng.next(100),
                1 + rng.next(14),
                1 + rng.next(31),
                rng.next(26),
                rng.next(62),
                rng.next(62),
                rng.word(&quoted, 6),
                rng.word(&quoted, 4),
                rng.word(&plain, 5),
                rng.word(&plain, 8),
                rng.word(&quoted, 12),
                rng.next(700),
                rng.next(1 << 40),
                rng.next(10),
                rng.word(&quoted, 9),
                rng.word(&quoted, 9),
                rng.word(&quoted, 3),
                rng.word(&quoted, 3),
                rng.word(&quoted, 5),
                rng.word(&quoted, 3),
            );
            let a = parse_line(&p, &mut t1, &line);
            let b = parse_line_handwritten1(&p, &mut t2, &line);
            match (a, b) {
                (Ok(a), Ok(b)) => assert_eq!(format!("{:?}", a), format!("{:?}", b), "{}", line),
                (Err(a), Err(b)) => assert_eq!(a.reason, b.reason, "{}", line),
                (a, b) => panic!("{}: {:?} and {:?}", line, a.is_ok(), b.is_ok()),
            }
        }
        for (d1, d2) in [
            (&t1.ip, &t2.ip),
            (&t1.path, &t2.path),
            (&t1.referer, &t2.referer),
            (&t1.user_agent, &t2.user_agent),
            (&t1.content_type, &t2.content_type),
        ] {
            assert_eq!(d1.len(), d2.len());
            for pos in 0..d1.len() {
                assert_eq!(d1.name_at(pos), d2.name_at(pos));
            }
        }
        assert!(t1.ip.len() > 100);
    }
}
