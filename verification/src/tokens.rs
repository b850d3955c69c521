//! The grammar of the canonical log line, on bytes: fields separated by runs
//! of spaces, a field in double quotes running to the next unescaped quote,
//! and decimal numbers.

use vstd::prelude::*;
use crate::text::{
    BACKSLASH, DIGIT_NINE, DIGIT_ZERO, PLUS, QUESTION, QUOTE, SPACE, ascii_adjacent, index_of,
};

verus! {

/// One field of a line: where it begins, where it ends, and where the next
/// field begins.
#[derive(Clone, Copy, Debug, PartialEq, Eq, Structural)]
pub struct Token {
    pub start: usize,
    pub end: usize,
    pub next: usize,
}

/// The first position at or after `from` that holds no space, or the length
/// of `s`.
pub open spec fn after_spaces(s: Seq<u8>, from: int) -> int
    decreases s.len() - from,
{
    if 0 <= from < s.len() && s[from] == SPACE {
        after_spaces(s, from + 1)
    } else {
        from
    }
}

/// The first position at or after `from` that holds `c`, or the length of
/// `s`.
pub open spec fn next_index_of(s: Seq<u8>, from: int, c: u8) -> int
    decreases s.len() - from,
{
    if 0 <= from < s.len() && s[from] != c {
        next_index_of(s, from + 1, c)
    } else {
        from
    }
}

/// The number of backslashes that stand in a row directly before `i`.
pub open spec fn backslashes_before(s: Seq<u8>, i: int) -> nat
    decreases i,
{
    if 0 < i <= s.len() && s[i - 1] == BACKSLASH {
        1 + backslashes_before(s, i - 1)
    } else {
        0
    }
}

/// A quote stands at `i`, and it is not escaped: the number of backslashes
/// directly before it is even.
pub open spec fn is_closing_quote(s: Seq<u8>, i: int) -> bool {
    0 <= i < s.len() && s[i] == QUOTE && backslashes_before(s, i) % 2 == 0
}

/// The first closing quote at or after `from`, or the length of `s`.
pub open spec fn closing_quote(s: Seq<u8>, from: int) -> int
    decreases s.len() - from,
{
    if 0 <= from < s.len() && !is_closing_quote(s, from) {
        closing_quote(s, from + 1)
    } else {
        from
    }
}

/// The field that begins at `pos`. A field that begins with a quote runs
/// from after the quote to the next closing quote, and there is no field
/// where that quote is missing; any other field runs to the next space or
/// to the end of the line.
pub open spec fn field_at(s: Seq<u8>, pos: int) -> Option<Token> {
    if 0 <= pos < s.len() && s[pos] == QUOTE {
        let close = closing_quote(s, pos + 1);
        if close < s.len() {
            Some(
                Token {
                    start: (pos + 1) as usize,
                    end: close as usize,
                    next: after_spaces(s, close + 1) as usize,
                },
            )
        } else {
            None
        }
    } else {
        let end = next_index_of(s, pos, SPACE);
        Some(Token { start: pos as usize, end: end as usize, next: after_spaces(s, end) as usize })
    }
}

/// The date and time that begin at `pos`: two words with one space between
/// them, taken as one field. There is none where the line has no two spaces
/// from `pos` on.
pub open spec fn date_at(s: Seq<u8>, pos: int) -> Option<Token> {
    let middle = next_index_of(s, pos, SPACE);
    let end = next_index_of(s, middle + 1, SPACE);
    if 0 <= pos && middle < s.len() && end < s.len() {
        Some(Token { start: pos as usize, end: end as usize, next: after_spaces(s, end + 1) as usize })
    } else {
        None
    }
}

/// Where the next occurrence stands, and that nothing equal lies between.
pub proof fn lemma_next_index_of(s: Seq<u8>, from: int, c: u8)
    requires
        0 <= from <= s.len(),
    ensures
        from <= next_index_of(s, from, c) <= s.len(),
        forall|k: int| from <= k < next_index_of(s, from, c) ==> s[k] != c,
        next_index_of(s, from, c) < s.len() ==> s[next_index_of(s, from, c)] == c,
    decreases s.len() - from,
{
    if from < s.len() && s[from] != c {
        lemma_next_index_of(s, from + 1, c);
    }
}

/// Where the next closing quote stands, and that none lies between.
pub proof fn lemma_closing_quote(s: Seq<u8>, from: int)
    requires
        0 <= from <= s.len(),
    ensures
        from <= closing_quote(s, from) <= s.len(),
        forall|k: int| from <= k < closing_quote(s, from) ==> !is_closing_quote(s, k),
        closing_quote(s, from) < s.len() ==> is_closing_quote(s, closing_quote(s, from)),
    decreases s.len() - from,
{
    if from < s.len() && !is_closing_quote(s, from) {
        lemma_closing_quote(s, from + 1);
    }
}

/// The first position at or after `from` that holds no space.
pub fn skip_space(s: &[u8], from: usize) -> (r: usize)
    requires
        from <= s@.len(),
    ensures
        r == after_spaces(s@, from as int),
        from <= r <= s@.len(),
        ascii_adjacent(s@, from as int) ==> ascii_adjacent(s@, r as int),
{
    let mut r = from;
    while r < s.len() && s[r] == SPACE
        invariant
            from <= r <= s@.len(),
            after_spaces(s@, from as int) == after_spaces(s@, r as int),
            r > from ==> s@[r - 1] == SPACE,
        decreases s@.len() - r,
    {
        r += 1;
    }
    r
}

/// The first position at or after `from` that holds `c`.
pub fn findidx(s: &[u8], from: usize, c: u8) -> (r: Option<usize>)
    requires
        from <= s@.len(),
    ensures
        match r {
            Some(i) => i == next_index_of(s@, from as int, c) && from <= i < s@.len() && s@[i as int]
                == c,
            None => next_index_of(s@, from as int, c) == s@.len(),
        },
{
    let mut i = from;
    while i < s.len()
        invariant
            from <= i <= s@.len(),
            next_index_of(s@, from as int, c) == next_index_of(s@, i as int, c),
        decreases s@.len() - i,
    {
        if s[i] == c {
            return Some(i);
        }
        i += 1;
    }
    None
}

/// The date and time that begin at `pos`.
pub fn read_date(s: &[u8], pos: usize) -> (r: Option<Token>)
    requires
        pos <= s@.len(),
    ensures
        r == date_at(s@, pos as int),
        r matches Some(t) ==> pos == t.start <= t.end < t.next <= s@.len() && ascii_adjacent(
            s@,
            t.end as int,
        ) && ascii_adjacent(s@, t.next as int),
{
    let n = s.len();
    proof {
        lemma_next_index_of(s@, pos as int, SPACE);
    }
    match findidx(s, pos, SPACE) {
        Some(middle) => {
            proof {
                lemma_next_index_of(s@, middle + 1, SPACE);
            }
            match findidx(s, middle + 1, SPACE) {
                Some(end) => {
                    let next = skip_space(s, end + 1);
                    Some(Token { start: pos, end, next })
                },
                None => None,
            }
        },
        None => None,
    }
}

/// The closing quote of a field whose first byte comes after an opening
/// quote at `from - 1`.
pub fn find_end_quote(s: &[u8], from: usize) -> (r: Option<usize>)
    requires
        from <= s@.len(),
    ensures
        match r {
            Some(i) => i == closing_quote(s@, from as int) && from <= i < s@.len() && s@[i as int]
                == QUOTE,
            None => closing_quote(s@, from as int) == s@.len(),
        },
{
    let mut i = from;
    while i < s.len()
        invariant
            from <= i <= s@.len(),
            closing_quote(s@, from as int) == closing_quote(s@, i as int),
        decreases s@.len() - i,
    {
        if s[i] == QUOTE {
            // count the backslashes before the quote: an odd number escapes it
            let mut count: usize = 0;
            while count < i && s[i - count - 1] == BACKSLASH
                invariant
                    count <= i < s@.len(),
                    backslashes_before(s@, i as int) == count + backslashes_before(s@, i - count),
                decreases i - count,
            {
                count += 1;
            }
            if count % 2 == 0 {
                return Some(i);
            }
        }
        i += 1;
    }
    None
}

/// The field that begins at `pos`.
pub fn read_field(s: &[u8], pos: usize) -> (r: Option<Token>)
    requires
        pos <= s@.len(),
        ascii_adjacent(s@, pos as int),
    ensures
        r == field_at(s@, pos as int),
        r matches Some(t) ==> pos <= t.start <= t.end <= t.next <= s@.len() && ascii_adjacent(
            s@,
            t.start as int,
        ) && ascii_adjacent(s@, t.end as int) && ascii_adjacent(s@, t.next as int),
{
    let n = s.len();
    if pos < n && s[pos] == QUOTE {
        proof {
            lemma_closing_quote(s@, pos + 1);
        }
        match find_end_quote(s, pos + 1) {
            Some(close) => {
                let next = skip_space(s, close + 1);
                Some(Token { start: pos + 1, end: close, next })
            },
            None => None,
        }
    } else {
        proof {
            lemma_next_index_of(s@, pos as int, SPACE);
        }
        let end = match findidx(s, pos, SPACE) {
            Some(i) => i,
            None => s.len(),
        };
        let next = skip_space(s, end);
        Some(Token { start: pos, end, next })
    }
}

/// The byte is a decimal digit.
pub open spec fn is_digit(b: u8) -> bool {
    DIGIT_ZERO <= b <= DIGIT_NINE
}

/// Every byte of `s` is a decimal digit.
pub open spec fn all_digits(s: Seq<u8>) -> bool {
    forall|i: int| 0 <= i < s.len() ==> is_digit(#[trigger] s[i])
}

/// The number that the digits `s` write.
pub open spec fn digits_value(s: Seq<u8>) -> nat
    decreases s.len(),
{
    if s.len() == 0 {
        0
    } else {
        digits_value(s.drop_last()) * 10 + (s.last() - DIGIT_ZERO) as nat
    }
}

/// The number that `s` writes in decimal: an optional plus sign and then
/// one digit or more. `None` where `s` is not of that form.
pub open spec fn decimal(s: Seq<u8>) -> Option<nat> {
    let digits = if s.len() > 0 && s[0] == PLUS {
        s.drop_first()
    } else {
        s
    };
    if digits.len() > 0 && all_digits(digits) {
        Some(digits_value(digits))
    } else {
        None
    }
}

/// The number that `s` writes, if it writes one that is no greater than
/// `max`.
pub open spec fn decimal_up_to(s: Seq<u8>, max: nat) -> Option<nat> {
    match decimal(s) {
        Some(v) => if v <= max {
            Some(v)
        } else {
            None
        },
        None => None,
    }
}

/// More digits never write a smaller number.
pub proof fn lemma_digits_grow(s: Seq<u8>, k: int)
    requires
        0 <= k <= s.len(),
        all_digits(s),
    ensures
        digits_value(s.subrange(0, k)) <= digits_value(s),
    decreases s.len() - k,
{
    if k == s.len() {
        assert(s.subrange(0, k) =~= s);
    } else {
        let t = s.drop_last();
        assert(t.subrange(0, k) =~= s.subrange(0, k));
        assert forall|i: int| 0 <= i < t.len() implies is_digit(#[trigger] t[i]) by {
            assert(t[i] == s[i]);
        }
        lemma_digits_grow(t, k);
        assert(is_digit(s[s.len() - 1]));
    }
}

/// Reads a decimal number that is no greater than `max`.
pub fn parse_decimal(s: &[u8], max: u64) -> (r: Option<u64>)
    ensures
        r matches Some(v) ==> decimal_up_to(s@, max as nat) == Some(v as nat),
        r is None ==> decimal_up_to(s@, max as nat) is None,
{
    let n = s.len();
    let first: usize = if n > 0 && s[0] == PLUS {
        1
    } else {
        0
    };
    if first == n {
        return None;
    }
    let ghost digits = s@.subrange(first as int, n as int);
    proof {
        if first == 1 {
            assert(digits =~= s@.drop_first());
        } else {
            assert(digits =~= s@);
        }
    }
    let mut value: u64 = 0;
    let mut i: usize = first;
    assert(digits.subrange(0, 0) =~= Seq::<u8>::empty());
    while i < n
        invariant
            first <= i <= n,
            n == s@.len(),
            digits == s@.subrange(first as int, n as int),
            digits == if s@.len() > 0 && s@[0] == PLUS {
                s@.drop_first()
            } else {
                s@
            },
            all_digits(digits.subrange(0, i - first)),
            value == digits_value(digits.subrange(0, i - first)),
            value <= max,
        decreases n - i,
    {
        let b = s[i];
        let ghost seen = digits.subrange(0, i - first);
        let ghost more = digits.subrange(0, i + 1 - first);
        proof {
            assert(more.drop_last() =~= seen);
            assert(more.last() == b);
        }
        if !(b >= DIGIT_ZERO && b <= DIGIT_NINE) {
            proof {
                assert(!is_digit(digits[i - first]));
            }
            return None;
        }
        let d = (b - DIGIT_ZERO) as u64;
        proof {
            assert forall|k: int| 0 <= k < more.len() implies is_digit(#[trigger] more[k]) by {
                if k < seen.len() {
                    assert(more[k] == seen[k]);
                }
            }
        }
        if d > max || value > (max - d) / 10 {
            proof {
                assert(digits_value(more) > max);
                if all_digits(digits) {
                    lemma_digits_grow(digits, i + 1 - first);
                }
            }
            return None;
        }
        value = value * 10 + d;
        i += 1;
    }
    proof {
        assert(digits.subrange(0, n - first) =~= digits);
    }
    Some(value)
}

/// The part of `s` before its first question mark, or all of `s`.
pub open spec fn without_query(s: Seq<u8>) -> Seq<u8> {
    s.subrange(0, index_of(s, QUESTION))
}

} // verus!
