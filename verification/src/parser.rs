//! Access-log records and the two line parsers that produce them: one that
//! follows a regular expression, and one that reads the canonical line by
//! its grammar.

use vstd::prelude::*;
use vstd::string::StringSliceAdditionalSpecFns;
use vstd::utf8::{
    decode_utf8, encode_utf8_decode_utf8, is_ascii_chars_encode_utf8, is_char_boundary,
};
use crate::pattern::{Pattern, regex_group_count, regex_match};
use crate::symbols::{
    CONTENT_TYPE_SEEDS, GlobalTable, Symbols, id_in, missing_chain, normalize, with_name,
};
use crate::text::{
    QUESTION, ascii_adjacent, find_byte, lemma_index_of, slice_between, slice_str,
};
use crate::time::{Timestamp, naive_datetime_from_str, parse_timestamp};
use crate::tokens::{
    Token, after_spaces, date_at, decimal_up_to, field_at, parse_decimal, read_date, read_field,
    skip_space, without_query,
};

verus! {

/// One parsed log line. Every textual field is held as the id that the
/// symbol table gave it.
#[derive(Clone, Copy, Debug)]
pub struct LogLine {
    pub time: Timestamp,
    pub ip: u32,
    pub http_version: u32,
    pub method: u32,
    pub domain: u32,
    pub path: u32,
    pub status_code: u32,
    pub size: u64,
    pub referer: u32,
    pub user_agent: u32,
    pub content_type: u32,
    pub compression_type: u32,
}

/// Why a parser could not be made.
#[derive(Clone, Copy, Debug, PartialEq, Eq, Structural)]
pub enum ConfigError {
    /// The list of capture indices does not have 15 entries.
    WrongCaptureCount,
    /// The pattern is no regular expression.
    BadPattern,
    /// A capture index names a group that the pattern does not have.
    CaptureIndexOutOfRange,
}

/// Why a line gave no record.
#[derive(Clone, Copy, Debug, PartialEq, Eq, Structural)]
pub enum ParseFailure {
    /// The pattern does not match the line.
    NoMatch,
    /// A field that the record needs is not there.
    MissingField,
    /// The time does not follow the format.
    BadTimestamp,
    /// The status code or the size is no number, or too large a number.
    NotANumber,
}

impl ConfigError {
    /// The error in words.
    pub fn message(&self) -> (m: &'static str)
        ensures
            m@ == match self {
                ConfigError::WrongCaptureCount => "capture_idxs must have 15 elements"@,
                ConfigError::BadPattern => "Could not create regex"@,
                ConfigError::CaptureIndexOutOfRange => "capture_idxs names a group that the regex does not have"@,
            },
    {
        match self {
            ConfigError::WrongCaptureCount => "capture_idxs must have 15 elements",
            ConfigError::BadPattern => "Could not create regex",
            ConfigError::CaptureIndexOutOfRange => "capture_idxs names a group that the regex does not have",
        }
    }
}

impl ParseFailure {
    /// The failure in words.
    pub fn message(&self) -> (m: &'static str)
        ensures
            m@ == match self {
                ParseFailure::NoMatch => "Regex didn't match"@,
                ParseFailure::MissingField => "A required field is missing"@,
                ParseFailure::BadTimestamp => "The time does not follow the format"@,
                ParseFailure::NotANumber => "Failed to parse status code or size as a number"@,
            },
    {
        match self {
            ParseFailure::NoMatch => "Regex didn't match",
            ParseFailure::MissingField => "A required field is missing",
            ParseFailure::BadTimestamp => "The time does not follow the format",
            ParseFailure::NotANumber => "Failed to parse status code or size as a number",
        }
    }
}

/// A line that gave no record, and why.
#[derive(Clone, Debug)]
pub struct ParseError {
    pub line: String,
    pub reason: ParseFailure,
}

/// The number of logical fields of a line.
pub const FIELD_COUNT: usize = 15;

/// A parser: the pattern that cuts a line into groups, for each logical
/// field the group that holds it, the format of the time, and whether query
/// strings are cut off paths and referers.
pub struct LogParser {
    pattern: Pattern,
    capture_idxs: Vec<usize>,
    datetime_format: String,
    ignore_query_string: bool,
}

impl LogParser {
    /// For each logical field the group that holds it; 0 where the line has
    /// no such field and `0` stands for it.
    pub closed spec fn capture_idxs(&self) -> Seq<usize> {
        self.capture_idxs@
    }

    /// The format of the time of a line.
    pub closed spec fn datetime_format(&self) -> Seq<char> {
        self.datetime_format@
    }

    /// Whether query strings are cut off paths and referers.
    pub closed spec fn ignore_query_string(&self) -> bool {
        self.ignore_query_string
    }

    /// The pattern that cuts a line into groups.
    pub closed spec fn pattern(&self) -> Seq<char> {
        self.pattern@
    }

    /// There is a group for each of the 15 logical fields.
    pub open spec fn wf(&self) -> bool {
        self.capture_idxs().len() == FIELD_COUNT
    }

    /// The pattern has each of the groups that hold the logical fields.
    pub open spec fn has_groups(&self) -> bool {
        forall|i: int|
            0 <= i < self.capture_idxs().len() ==> self.capture_idxs()[i] < regex_group_count(
                self.pattern(),
            )
    }

    /// The text without its query string, where the parser cuts query
    /// strings off.
    pub open spec fn stripped(&self, s: Seq<u8>) -> Seq<u8> {
        if self.ignore_query_string() {
            without_query(s)
        } else {
            s
        }
    }

    /// The text without its query string, where the parser cuts query
    /// strings off.
    pub fn strip_query_string<'a>(&self, s: &'a str) -> (r: &'a str)
        ensures
            r.spec_bytes() == self.stripped(s.spec_bytes()),
    {
        if self.ignore_query_string {
            let bytes = s.as_bytes();
            proof {
                lemma_index_of(bytes@, QUESTION);
            }
            match find_byte(bytes, QUESTION) {
                Some(idx) => slice_str(s, 0, idx),
                None => {
                    assert(bytes@.subrange(0, bytes@.len() as int) =~= bytes@);
                    s
                },
            }
        } else {
            s
        }
    }

    /// The bytes without their query string, where the parser cuts query
    /// strings off.
    pub fn strip_query_string_u8<'a>(&self, s: &'a [u8]) -> (r: &'a [u8])
        ensures
            r@ == self.stripped(s@),
    {
        if self.ignore_query_string {
            proof {
                lemma_index_of(s@, QUESTION);
            }
            match find_byte(s, QUESTION) {
                Some(idx) => {
                    let (head, _) = s.split_at(idx);
                    assert(head@ =~= s@.subrange(0, idx as int));
                    head
                },
                None => {
                    assert(s@.subrange(0, s@.len() as int) =~= s@);
                    s
                },
            }
        } else {
            s
        }
    }
}

/// Whether every capture index names one of `groups` groups.
pub fn indices_in_range(capture_idxs: &Vec<usize>, groups: usize) -> (r: bool)
    ensures
        r == forall|i: int| 0 <= i < capture_idxs@.len() ==> capture_idxs@[i] < groups,
{
    let mut i: usize = 0;
    while i < capture_idxs.len()
        invariant
            i <= capture_idxs@.len(),
            forall|k: int| 0 <= k < i ==> capture_idxs@[k] < groups,
        decreases capture_idxs@.len() - i,
    {
        if capture_idxs[i] >= groups {
            return false;
        }
        i += 1;
    }
    true
}

/// Makes a parser of a pattern that has been handed to the regular
/// expression engine: `compiled` is the compiled pattern, or `None` where
/// the engine refused it. `capture_idxs` gives for each of the 15 logical
/// fields the group that holds it, or 0 where the line has no such field.
/// The parser is refused if there are not 15 indices, if the pattern was
/// refused, or if an index names a group that the pattern does not have.
pub fn parser_from(
    compiled: Option<Pattern>,
    capture_idxs: Vec<usize>,
    datetime_format: &str,
    ignore_query_string: bool,
) -> (r: Result<LogParser, ConfigError>)
    ensures
        capture_idxs@.len() != FIELD_COUNT <==> r == Err::<LogParser, ConfigError>(
            ConfigError::WrongCaptureCount,
        ),
        capture_idxs@.len() == FIELD_COUNT && compiled is None <==> r == Err::<
            LogParser,
            ConfigError,
        >(ConfigError::BadPattern),
        capture_idxs@.len() == FIELD_COUNT && (compiled matches Some(c) && exists|i: int|
            0 <= i < FIELD_COUNT && capture_idxs@[i] >= regex_group_count(c@)) <==> r == Err::<
            LogParser,
            ConfigError,
        >(ConfigError::CaptureIndexOutOfRange),
        r matches Ok(p) ==> p.wf() && p.has_groups() && Some(p.pattern()) == (match compiled {
            Some(c) => Some(c@),
            None => None,
        }) && p.capture_idxs() == capture_idxs@ && p.datetime_format() == datetime_format@
            && p.ignore_query_string() == ignore_query_string,
{
    if capture_idxs.len() != FIELD_COUNT {
        return Err(ConfigError::WrongCaptureCount);
    }
    let pattern = match compiled {
        Some(p) => p,
        None => {
            return Err(ConfigError::BadPattern);
        },
    };
    if !indices_in_range(&capture_idxs, pattern.group_count()) {
        return Err(ConfigError::CaptureIndexOutOfRange);
    }
    Ok(
        LogParser {
            pattern,
            capture_idxs,
            datetime_format: datetime_format.to_owned(),
            ignore_query_string,
        },
    )
}

/// Makes a parser. `capture_idxs` gives for each of the 15 logical fields
/// the group of `pattern` that holds it, or 0 where the line has no such
/// field. The parser is refused if there are not 15 indices, if the regular
/// expression engine refuses the pattern, or if an index names a group that
/// the pattern does not have. Whether the engine takes a pattern is for the
/// engine to say; `parser_from` decides the rest.
pub fn create_parser(
    pattern: &str,
    capture_idxs: Vec<usize>,
    datetime_format: &str,
    ignore_query_string: bool,
) -> (r: Result<LogParser, ConfigError>)
    ensures
        capture_idxs@.len() != FIELD_COUNT <==> r == Err::<LogParser, ConfigError>(
            ConfigError::WrongCaptureCount,
        ),
        r == Err::<LogParser, ConfigError>(ConfigError::CaptureIndexOutOfRange) ==> exists|
            i: int,
        |
            0 <= i < FIELD_COUNT && capture_idxs@[i] >= regex_group_count(pattern@),
        capture_idxs@.len() == FIELD_COUNT && (forall|i: int|
            0 <= i < FIELD_COUNT ==> capture_idxs@[i] < regex_group_count(pattern@)) ==> r is Ok
            || r == Err::<LogParser, ConfigError>(ConfigError::BadPattern),
        r matches Ok(p) ==> p.wf() && p.has_groups() && p.pattern() == pattern@ && p.capture_idxs()
            == capture_idxs@ && p.datetime_format() == datetime_format@
            && p.ignore_query_string() == ignore_query_string,
{
    let ghost idxs = capture_idxs@;
    let compiled = Pattern::compile(pattern);
    let r = parser_from(compiled, capture_idxs, datetime_format, ignore_query_string);
    proof {
        match r {
            Ok(_) => {},
            Err(ConfigError::WrongCaptureCount) => {
                assert(r == Err::<LogParser, ConfigError>(ConfigError::WrongCaptureCount));
            },
            Err(ConfigError::BadPattern) => {
                assert(r == Err::<LogParser, ConfigError>(ConfigError::BadPattern));
            },
            Err(ConfigError::CaptureIndexOutOfRange) => {
                assert(r == Err::<LogParser, ConfigError>(ConfigError::CaptureIndexOutOfRange));
                let i = choose|i: int|
                    0 <= i < FIELD_COUNT && idxs[i] >= regex_group_count(pattern@);
                assert(idxs[i] >= regex_group_count(pattern@));
            },
        }
    }
    r
}

/// The fields of a line that a record is made of, as bytes.
pub struct Fields {
    pub time: Seq<u8>,
    pub ip: Seq<u8>,
    pub http_version: Seq<u8>,
    pub method: Seq<u8>,
    pub domain: Seq<u8>,
    pub path: Seq<u8>,
    pub status_code: Seq<u8>,
    pub size: Seq<u8>,
    pub referer: Seq<u8>,
    pub user_agent: Seq<u8>,
    pub content_type: Seq<u8>,
    pub compression_type: Seq<u8>,
}

/// The fields of a line that a record is made of, as parts of the line.
pub struct FieldRefs<'a> {
    pub time: &'a str,
    pub ip: &'a str,
    pub http_version: &'a str,
    pub method: &'a str,
    pub domain: &'a str,
    pub path: &'a str,
    pub status_code: &'a str,
    pub size: &'a str,
    pub referer: &'a str,
    pub user_agent: &'a str,
    pub content_type: &'a str,
    pub compression_type: &'a str,
}

impl<'a> View for FieldRefs<'a> {
    type V = Fields;

    open spec fn view(&self) -> Fields {
        Fields {
            time: self.time.spec_bytes(),
            ip: self.ip.spec_bytes(),
            http_version: self.http_version.spec_bytes(),
            method: self.method.spec_bytes(),
            domain: self.domain.spec_bytes(),
            path: self.path.spec_bytes(),
            status_code: self.status_code.spec_bytes(),
            size: self.size.spec_bytes(),
            referer: self.referer.spec_bytes(),
            user_agent: self.user_agent.spec_bytes(),
            content_type: self.content_type.spec_bytes(),
            compression_type: self.compression_type.spec_bytes(),
        }
    }
}

/// The fields with the query strings cut off the path and the referer, if
/// `strip` is set.
pub open spec fn without_queries(f: Fields, strip: bool) -> Fields {
    if strip {
        Fields { path: without_query(f.path), referer: without_query(f.referer), ..f }
    } else {
        f
    }
}

/// What the fields say of time, status and size, or why they say nothing.
pub open spec fn readings(f: Fields, format: Seq<char>) -> Result<
    (Timestamp, u32, u64),
    ParseFailure,
> {
    match naive_datetime_from_str(decode_utf8(f.time), format) {
        None => Err(ParseFailure::BadTimestamp),
        Some(t) => match decimal_up_to(f.status_code, u32::MAX as nat) {
            None => Err(ParseFailure::NotANumber),
            Some(status) => match decimal_up_to(f.size, u64::MAX as nat) {
                None => Err(ParseFailure::NotANumber),
                Some(size) => Ok((Timestamp { secs: t.0, nanos: t.1 }, status as u32, size as u64)),
            },
        },
    }
}

/// The symbol table after the fields have been entered.
pub open spec fn entered(t: Symbols, f: Fields) -> Symbols {
    Symbols {
        ip: with_name(t.ip, f.ip),
        http_version: with_name(t.http_version, f.http_version),
        method: with_name(t.method, f.method),
        domain: with_name(t.domain, f.domain),
        path: t.path + missing_chain(t.path, normalize(f.path)),
        referer: with_name(t.referer, f.referer),
        user_agent: with_name(t.user_agent, f.user_agent),
        content_type: with_name(t.content_type, f.content_type),
        compression_type: with_name(t.compression_type, f.compression_type),
    }
}

/// The record of the fields: each text as the id that it has once it is
/// entered in the table.
pub open spec fn record(t: Symbols, f: Fields, time: Timestamp, status: u32, size: u64) -> LogLine {
    let after = entered(t, f);
    LogLine {
        time,
        ip: id_in(after.ip, 0, f.ip),
        http_version: id_in(after.http_version, 0, f.http_version),
        method: id_in(after.method, 0, f.method),
        domain: id_in(after.domain, 0, f.domain),
        path: after.path.index_of(normalize(f.path)) as u32,
        status_code: status,
        size,
        referer: id_in(after.referer, 0, f.referer),
        user_agent: id_in(after.user_agent, 0, f.user_agent),
        content_type: id_in(after.content_type, CONTENT_TYPE_SEEDS as nat, f.content_type),
        compression_type: id_in(after.compression_type, 0, f.compression_type),
    }
}

/// What becomes of the fields of a line: the record and the table with its
/// symbols, or the reason why there is no record and the table as it was.
#[verifier::opaque]
pub open spec fn fields_outcome(format: Seq<char>, strip: bool, t: Symbols, raw: Fields) -> (
    Result<LogLine, ParseFailure>,
    Symbols,
) {
    let f = without_queries(raw, strip);
    match readings(f, format) {
        Err(e) => (Err(e), t),
        Ok(r) => (Ok(record(t, f, r.0, r.1, r.2)), entered(t, f)),
    }
}

/// Makes the record of the fields and enters their symbols in the table.
/// Where the time, the status or the size cannot be read, the table stays
/// as it is.
pub fn build_record(p: &LogParser, table: &mut GlobalTable, f: &FieldRefs) -> (r: Result<
    LogLine,
    ParseFailure,
>)
    requires
        old(table).wf(),
        old(table).has_room(f@.path.len()),
    ensures
        final(table).wf(),
        r == fields_outcome(p.datetime_format(), p.ignore_query_string(), old(table)@, f@).0,
        final(table)@ == fields_outcome(
            p.datetime_format(),
            p.ignore_query_string(),
            old(table)@,
            f@,
        ).1,
{
    broadcast use encode_utf8_decode_utf8;

    reveal(fields_outcome);
    let ghost used = without_queries(f@, p.ignore_query_string());
    let time = match parse_timestamp(f.time, p.datetime_format.as_str()) {
        Some(t) => t,
        None => {
            return Err(ParseFailure::BadTimestamp);
        },
    };
    let status_code = match parse_decimal(f.status_code.as_bytes(), u32::MAX as u64) {
        Some(v) => v as u32,
        None => {
            return Err(ParseFailure::NotANumber);
        },
    };
    let size = match parse_decimal(f.size.as_bytes(), u64::MAX) {
        Some(v) => v,
        None => {
            return Err(ParseFailure::NotANumber);
        },
    };
    let path_text = p.strip_query_string(f.path);
    let referer_text = p.strip_query_string(f.referer);
    proof {
        lemma_index_of(f@.path, QUESTION);
        assert(path_text.spec_bytes() == used.path);
        assert(referer_text.spec_bytes() == used.referer);
    }
    let ip = table.ip.intern(f.ip);
    let http_version = table.http_version.intern(f.http_version);
    let method = table.method.intern(f.method);
    let domain = table.domain.intern(f.domain);
    let path = table.add_path(path_text);
    proof {
        table.path.lemma_positional(normalize(used.path));
    }
    let referer = table.referer.intern(referer_text);
    let user_agent = table.user_agent.intern(f.user_agent);
    let content_type = table.content_type.intern(f.content_type);
    let compression_type = table.compression_type.intern(f.compression_type);
    proof {
        assert(table@ == entered(old(table)@, used));
    }
    Ok(
        LogLine {
            time,
            ip,
            http_version,
            method,
            domain,
            path,
            status_code,
            size,
            referer,
            user_agent,
            content_type,
            compression_type,
        },
    )
}


/// The `count` fields that follow one another from `pos` on, or `None`
/// where one of them has no end.
pub open spec fn tokens_from(s: Seq<u8>, pos: int, count: nat) -> Option<Seq<Token>>
    decreases count,
{
    if count == 0 {
        Some(Seq::empty())
    } else {
        match field_at(s, pos) {
            None => None,
            Some(t) => match tokens_from(s, t.next as int, (count - 1) as nat) {
                None => None,
                Some(rest) => Some(seq![t] + rest),
            },
        }
    }
}

/// The number of fields that follow the time in the canonical line.
pub const FIELDS_AFTER_TIME: usize = 14;

/// The bytes of `s` that the token spans.
pub open spec fn token_bytes(s: Seq<u8>, t: Token) -> Seq<u8> {
    s.subrange(t.start as int, t.end as int)
}

/// The fields of the canonical line: after leading spaces the time, which
/// is two words, and then address, protocol version, method, domain, path,
/// status code, size, a number that is not used, referer, user agent, two
/// fields that are not used, content type and compression type. `None`
/// where the time is not there or a quoted field has no end.
pub open spec fn line_fields(s: Seq<u8>) -> Option<Fields> {
    match date_at(s, after_spaces(s, 0)) {
        None => None,
        Some(time) => match tokens_from(s, time.next as int, FIELDS_AFTER_TIME as nat) {
            None => None,
            Some(t) => Some(
                Fields {
                    time: token_bytes(s, time),
                    ip: token_bytes(s, t[0]),
                    http_version: token_bytes(s, t[1]),
                    method: token_bytes(s, t[2]),
                    domain: token_bytes(s, t[3]),
                    path: token_bytes(s, t[4]),
                    status_code: token_bytes(s, t[5]),
                    size: token_bytes(s, t[6]),
                    referer: token_bytes(s, t[8]),
                    user_agent: token_bytes(s, t[9]),
                    content_type: token_bytes(s, t[12]),
                    compression_type: token_bytes(s, t[13]),
                },
            ),
        },
    }
}

/// What becomes of a line that is read by the grammar of the canonical
/// line: the record and the table with its symbols, or the reason why there
/// is no record and the table as it was. A line gives no record where a
/// field cannot be found, where domain, size or status code are empty, or
/// where time, status code or size cannot be read.
pub open spec fn handwritten_outcome(format: Seq<char>, strip: bool, t: Symbols, line: Seq<u8>) -> (
    Result<LogLine, ParseFailure>,
    Symbols,
) {
    match line_fields(line) {
        None => (Err(ParseFailure::MissingField), t),
        Some(f) => if f.domain.len() == 0 || f.size.len() == 0 || f.status_code.len() == 0 {
            (Err(ParseFailure::MissingField), t)
        } else {
            fields_outcome(format, strip, t, f)
        },
    }
}

/// The `FIELDS_AFTER_TIME` fields from `pos` on.
fn read_fields(s: &[u8], pos: usize) -> (r: Option<Vec<Token>>)
    requires
        pos <= s@.len(),
        ascii_adjacent(s@, pos as int),
    ensures
        match r {
            Some(tokens) => tokens_from(s@, pos as int, FIELDS_AFTER_TIME as nat) == Some(tokens@)
                && tokens@.len() == FIELDS_AFTER_TIME && forall|i: int|
                0 <= i < tokens@.len() ==> (#[trigger] tokens@[i]).start <= tokens@[i].end
                    <= s@.len() && ascii_adjacent(s@, tokens@[i].start as int)
                    && ascii_adjacent(s@, tokens@[i].end as int),
            None => tokens_from(s@, pos as int, FIELDS_AFTER_TIME as nat) is None,
        },
{
    let mut tokens: Vec<Token> = Vec::new();
    let mut at = pos;
    let mut k: usize = 0;
    while k < FIELDS_AFTER_TIME
        invariant
            k <= FIELDS_AFTER_TIME,
            at <= s@.len(),
            ascii_adjacent(s@, at as int),
            tokens@.len() == k,
            forall|i: int|
                0 <= i < tokens@.len() ==> (#[trigger] tokens@[i]).start <= tokens@[i].end
                    <= s@.len() && ascii_adjacent(s@, tokens@[i].start as int)
                    && ascii_adjacent(s@, tokens@[i].end as int),
            tokens_from(s@, pos as int, FIELDS_AFTER_TIME as nat) == match tokens_from(
                s@,
                at as int,
                (FIELDS_AFTER_TIME - k) as nat,
            ) {
                Some(rest) => Some(tokens@ + rest),
                None => None,
            },
        decreases FIELDS_AFTER_TIME - k,
    {
        let ghost before = tokens@;
        match read_field(s, at) {
            None => {
                return None;
            },
            Some(t) => {
                tokens.push(t);
                proof {
                    match tokens_from(s@, t.next as int, (FIELDS_AFTER_TIME - k - 1) as nat) {
                        Some(rest) => {
                            assert(before + (seq![t] + rest) =~= tokens@ + rest);
                        },
                        None => {},
                    }
                }
                at = t.next;
            },
        }
        k += 1;
    }
    proof {
        assert(tokens@ + Seq::<Token>::empty() =~= tokens@);
    }
    Some(tokens)
}

/// The part of the line that the token spans.
fn token_text<'a>(line: &'a str, t: &Token) -> (r: &'a str)
    requires
        t.start <= t.end <= line.spec_bytes().len(),
        ascii_adjacent(line.spec_bytes(), t.start as int),
        ascii_adjacent(line.spec_bytes(), t.end as int),
    ensures
        r.spec_bytes() == token_bytes(line.spec_bytes(), *t),
{
    slice_str(line, t.start, t.end)
}

/// The fields of the canonical line.
fn read_line_fields<'a>(line: &'a str) -> (r: Option<FieldRefs<'a>>)
    ensures
        match r {
            Some(f) => line_fields(line.spec_bytes()) == Some(f@) && f@.path.len()
                <= line.spec_bytes().len(),
            None => line_fields(line.spec_bytes()) is None,
        },
{
    let s = line.as_bytes();
    let start = skip_space(s, 0);
    let time = match read_date(s, start) {
        Some(t) => t,
        None => {
            return None;
        },
    };
    let tokens = match read_fields(s, time.next) {
        Some(t) => t,
        None => {
            return None;
        },
    };
    Some(
        FieldRefs {
            time: token_text(line, &time),
            ip: token_text(line, &tokens[0]),
            http_version: token_text(line, &tokens[1]),
            method: token_text(line, &tokens[2]),
            domain: token_text(line, &tokens[3]),
            path: token_text(line, &tokens[4]),
            status_code: token_text(line, &tokens[5]),
            size: token_text(line, &tokens[6]),
            referer: token_text(line, &tokens[8]),
            user_agent: token_text(line, &tokens[9]),
            content_type: token_text(line, &tokens[12]),
            compression_type: token_text(line, &tokens[13]),
        },
    )
}

/// The failure of a line.
fn failed(line: &str, reason: ParseFailure) -> (e: ParseError)
    ensures
        e.line@ == line@,
        e.reason == reason,
{
    ParseError { line: line.to_owned(), reason }
}

/// The outcome of a parser as the value that the contracts speak of: the
/// record, or the reason why there is none.
pub open spec fn reason_of(r: Result<LogLine, ParseError>) -> Result<LogLine, ParseFailure> {
    match r {
        Ok(l) => Ok(l),
        Err(e) => Err(e.reason),
    }
}

/// Reads a canonical log line by its grammar, enters its symbols in the
/// table and returns its record. A line that gives no record leaves the
/// table as it is.
pub fn parse_line_handwritten1(p: &LogParser, table: &mut GlobalTable, line: &str) -> (r: Result<
    LogLine,
    ParseError,
>)
    requires
        old(table).wf(),
        old(table).has_room(line.spec_bytes().len()),
    ensures
        final(table).wf(),
        reason_of(r) == handwritten_outcome(
            p.datetime_format(),
            p.ignore_query_string(),
            old(table)@,
            line.spec_bytes(),
        ).0,
        final(table)@ == handwritten_outcome(
            p.datetime_format(),
            p.ignore_query_string(),
            old(table)@,
            line.spec_bytes(),
        ).1,
        r matches Err(e) ==> e.line@ == line@,
{
    let f = match read_line_fields(line) {
        Some(f) => f,
        None => {
            return Err(failed(line, ParseFailure::MissingField));
        },
    };
    if f.domain.as_bytes().len() == 0 || f.size.as_bytes().len() == 0
        || f.status_code.as_bytes().len() == 0 {
        return Err(failed(line, ParseFailure::MissingField));
    }
    match build_record(p, table, &f) {
        Ok(l) => Ok(l),
        Err(reason) => Err(failed(line, reason)),
    }
}

/// The offsets lie in the line, in order, and on character boundaries.
pub open spec fn span_fits(line: Seq<u8>, span: (usize, usize)) -> bool {
    span.0 <= span.1 <= line.len() && is_char_boundary(line, span.0 as int) && is_char_boundary(
        line,
        span.1 as int,
    )
}

/// The text of the logical field that the group `idx` holds: `0` for the
/// index 0, and else what the group matched. `None` where the match has no
/// such group, where the group took no part in the match, or where its
/// offsets do not fit the line.
pub open spec fn capture_field(idx: usize, groups: Seq<Option<(usize, usize)>>, line: Seq<u8>) -> Option<
    Seq<u8>,
> {
    if idx == 0 {
        Some("0".spec_bytes())
    } else if idx < groups.len() {
        match groups[idx as int] {
            Some(span) => if span_fits(line, span) {
                Some(line.subrange(span.0 as int, span.1 as int))
            } else {
                None
            },
            None => None,
        }
    } else {
        None
    }
}

/// The fields of a line by the groups of a match.
pub open spec fn captured_fields(
    idxs: Seq<usize>,
    groups: Seq<Option<(usize, usize)>>,
    line: Seq<u8>,
) -> Option<Fields> {
    if capture_field(idxs[0], groups, line) is Some && capture_field(idxs[1], groups, line)
        is Some && capture_field(idxs[2], groups, line) is Some && capture_field(
        idxs[3],
        groups,
        line,
    ) is Some && capture_field(idxs[4], groups, line) is Some && capture_field(
        idxs[5],
        groups,
        line,
    ) is Some && capture_field(idxs[6], groups, line) is Some && capture_field(
        idxs[7],
        groups,
        line,
    ) is Some && capture_field(idxs[9], groups, line) is Some && capture_field(
        idxs[10],
        groups,
        line,
    ) is Some && capture_field(idxs[13], groups, line) is Some && capture_field(
        idxs[14],
        groups,
        line,
    ) is Some {
        Some(
            Fields {
                time: capture_field(idxs[0], groups, line)->0,
                ip: capture_field(idxs[1], groups, line)->0,
                http_version: capture_field(idxs[2], groups, line)->0,
                method: capture_field(idxs[3], groups, line)->0,
                domain: capture_field(idxs[4], groups, line)->0,
                path: capture_field(idxs[5], groups, line)->0,
                status_code: capture_field(idxs[6], groups, line)->0,
                size: capture_field(idxs[7], groups, line)->0,
                referer: capture_field(idxs[9], groups, line)->0,
                user_agent: capture_field(idxs[10], groups, line)->0,
                content_type: capture_field(idxs[13], groups, line)->0,
                compression_type: capture_field(idxs[14], groups, line)->0,
            },
        )
    } else {
        None
    }
}

/// What becomes of a line once the pattern has been tried on it: without a
/// match there is no record; with one, the record is made of the fields
/// that the groups hold.
pub open spec fn captures_outcome(
    idxs: Seq<usize>,
    format: Seq<char>,
    strip: bool,
    t: Symbols,
    line: Seq<u8>,
    captures: Option<Seq<Option<(usize, usize)>>>,
) -> (Result<LogLine, ParseFailure>, Symbols) {
    match captures {
        None => (Err(ParseFailure::NoMatch), t),
        Some(groups) => match captured_fields(idxs, groups, line) {
            None => (Err(ParseFailure::MissingField), t),
            Some(f) => fields_outcome(format, strip, t, f),
        },
    }
}

/// The text of the logical field `i`.
fn capture_text<'a>(p: &LogParser, line: &'a str, groups: &Vec<Option<(usize, usize)>>, i: usize) -> (r:
    Option<&'a str>)
    requires
        p.wf(),
        i < FIELD_COUNT,
    ensures
        match r {
            Some(s) => capture_field(p.capture_idxs()[i as int], groups@, line.spec_bytes())
                == Some(s.spec_bytes()) && s.spec_bytes().len() <= line.spec_bytes().len() + 1,
            None => capture_field(p.capture_idxs()[i as int], groups@, line.spec_bytes())
                is None,
        },
{
    let idx = p.capture_idxs[i];
    if idx == 0 {
        proof {
            reveal_strlit("0");
            is_ascii_chars_encode_utf8("0"@);
        }
        return Some("0");
    }
    if idx >= groups.len() {
        return None;
    }
    match groups[idx] {
        None => None,
        Some(span) => {
            let inside = span.0 <= span.1 && span.1 <= line.as_bytes().len();
            if inside && line.is_char_boundary(span.0) && line.is_char_boundary(span.1) {
                let text = slice_between(line, span.0, span.1);
                proof {
                    assert(groups@[idx as int] == Some(span));
                    assert(span_fits(line.spec_bytes(), span));
                    assert(text.spec_bytes().len() == span.1 - span.0);
                }
                Some(text)
            } else {
                proof {
                    assert(groups@[idx as int] == Some(span));
                    assert(!span_fits(line.spec_bytes(), span));
                }
                None
            }
        },
    }
}

/// Makes the record of a line from the groups of a match of the parser's
/// pattern, given as pairs of byte offsets, and enters its symbols in the
/// table. A line that gives no record leaves the table as it is.
pub fn parse_captures(
    p: &LogParser,
    table: &mut GlobalTable,
    line: &str,
    captures: &Option<Vec<Option<(usize, usize)>>>,
) -> (r: Result<LogLine, ParseError>)
    requires
        p.wf(),
        old(table).wf(),
        old(table).has_room(line.spec_bytes().len() + 1),
    ensures
        final(table).wf(),
        reason_of(r) == captures_outcome(
            p.capture_idxs(),
            p.datetime_format(),
            p.ignore_query_string(),
            old(table)@,
            line.spec_bytes(),
            match captures {
                Some(groups) => Some(groups@),
                None => None,
            },
        ).0,
        final(table)@ == captures_outcome(
            p.capture_idxs(),
            p.datetime_format(),
            p.ignore_query_string(),
            old(table)@,
            line.spec_bytes(),
            match captures {
                Some(groups) => Some(groups@),
                None => None,
            },
        ).1,
        r matches Err(e) ==> e.line@ == line@,
{
    let groups = match captures {
        Some(groups) => groups,
        None => {
            return Err(failed(line, ParseFailure::NoMatch));
        },
    };
    let time = capture_text(p, line, groups, 0);
    let ip = capture_text(p, line, groups, 1);
    let http_version = capture_text(p, line, groups, 2);
    let method = capture_text(p, line, groups, 3);
    let domain = capture_text(p, line, groups, 4);
    let path = capture_text(p, line, groups, 5);
    let status_code = capture_text(p, line, groups, 6);
    let size = capture_text(p, line, groups, 7);
    let referer = capture_text(p, line, groups, 9);
    let user_agent = capture_text(p, line, groups, 10);
    let content_type = capture_text(p, line, groups, 13);
    let compression_type = capture_text(p, line, groups, 14);
    if time.is_none() || ip.is_none() || http_version.is_none() || method.is_none()
        || domain.is_none() || path.is_none() || status_code.is_none() || size.is_none()
        || referer.is_none() || user_agent.is_none() || content_type.is_none()
        || compression_type.is_none() {
        return Err(failed(line, ParseFailure::MissingField));
    }
    let f = FieldRefs {
        time: time.unwrap(),
        ip: ip.unwrap(),
        http_version: http_version.unwrap(),
        method: method.unwrap(),
        domain: domain.unwrap(),
        path: path.unwrap(),
        status_code: status_code.unwrap(),
        size: size.unwrap(),
        referer: referer.unwrap(),
        user_agent: user_agent.unwrap(),
        content_type: content_type.unwrap(),
        compression_type: compression_type.unwrap(),
    };
    match build_record(p, table, &f) {
        Ok(l) => Ok(l),
        Err(reason) => Err(failed(line, reason)),
    }
}

/// Tries the parser's pattern on the line, makes the record of the fields
/// that its groups hold, and enters the symbols of the fields in the table.
/// A line that gives no record leaves the table as it is.
pub fn parse_line(p: &LogParser, table: &mut GlobalTable, line: &str) -> (r: Result<
    LogLine,
    ParseError,
>)
    requires
        p.wf(),
        old(table).wf(),
        old(table).has_room(line.spec_bytes().len() + 1),
    ensures
        final(table).wf(),
        reason_of(r) == captures_outcome(
            p.capture_idxs(),
            p.datetime_format(),
            p.ignore_query_string(),
            old(table)@,
            line.spec_bytes(),
            regex_match(p.pattern(), line@),
        ).0,
        final(table)@ == captures_outcome(
            p.capture_idxs(),
            p.datetime_format(),
            p.ignore_query_string(),
            old(table)@,
            line.spec_bytes(),
            regex_match(p.pattern(), line@),
        ).1,
        r matches Err(e) ==> e.line@ == line@,
{
    let captures = p.pattern.captures(line);
    parse_captures(p, table, line, &captures)
}

} // verus!
