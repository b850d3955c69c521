//! Byte-level text predicates and the searches that decide them.

use vstd::prelude::*;
use vstd::string::StringSliceAdditionalSpecFns;
use vstd::utf8::*;

verus! {

/// The bytes that the grammar of log lines and paths speaks of.
pub const SPACE: u8 = 32;
pub const QUOTE: u8 = 34;
pub const PLUS: u8 = 43;
pub const SLASH: u8 = 47;
pub const DIGIT_ZERO: u8 = 48;
pub const DIGIT_NINE: u8 = 57;
pub const QUESTION: u8 = 63;
pub const BACKSLASH: u8 = 92;
pub const NEWLINE: u8 = 10;

/// `p` is a prefix of `s`.
pub open spec fn starts_with(s: Seq<u8>, p: Seq<u8>) -> bool {
    p.len() <= s.len() && s.subrange(0, p.len() as int) == p
}

/// `p` is a suffix of `s`.
pub open spec fn ends_with(s: Seq<u8>, p: Seq<u8>) -> bool {
    p.len() <= s.len() && s.subrange(s.len() - p.len(), s.len() as int) == p
}

/// `p` occurs in `s` starting at byte `i`.
pub open spec fn occurs_at(s: Seq<u8>, p: Seq<u8>, i: int) -> bool {
    0 <= i && i + p.len() <= s.len() && s.subrange(i, i + p.len()) == p
}

/// `p` occurs somewhere in `s`.
pub open spec fn contains(s: Seq<u8>, p: Seq<u8>) -> bool {
    exists|i: int| occurs_at(s, p, i)
}

/// Index of the first byte equal to `c`, or `s.len()` when there is none.
pub open spec fn index_of(s: Seq<u8>, c: u8) -> int
    decreases s.len(),
{
    if s.len() == 0 || s[0] == c {
        0
    } else {
        1 + index_of(s.drop_first(), c)
    }
}

/// Index of the last byte equal to `c`, or `-1` when there is none.
pub open spec fn last_index_of(s: Seq<u8>, c: u8) -> int
    decreases s.len(),
{
    if s.len() == 0 {
        -1
    } else if s.last() == c {
        s.len() - 1
    } else {
        last_index_of(s.drop_last(), c)
    }
}

/// Number of bytes of `s` equal to `c`.
pub open spec fn count_of(s: Seq<u8>, c: u8) -> nat
    decreases s.len(),
{
    if s.len() == 0 {
        0
    } else {
        count_of(s.drop_last(), c) + if s.last() == c { 1nat } else { 0nat }
    }
}

/// Position `i` of `b` lies at either end of `b` or next to a one-byte
/// (ASCII) character. In UTF-8 text such a position never falls inside the
/// encoding of a character.
pub open spec fn ascii_adjacent(b: Seq<u8>, i: int) -> bool {
    0 <= i <= b.len() && (i == 0 || i == b.len() || b[i] < 0x80 || b[i - 1] < 0x80)
}

/// Where the first occurrence stands, and that nothing equal precedes it.
pub proof fn lemma_index_of(s: Seq<u8>, c: u8)
    ensures
        0 <= index_of(s, c) <= s.len(),
        forall|j: int| 0 <= j < index_of(s, c) ==> s[j] != c,
        index_of(s, c) < s.len() ==> s[index_of(s, c)] == c,
    decreases s.len(),
{
    if s.len() == 0 || s[0] == c {
    } else {
        let t = s.drop_first();
        lemma_index_of(t, c);
        assert forall|j: int| 0 <= j < index_of(s, c) implies s[j] != c by {
            if j > 0 {
                assert(s[j] == t[j - 1]);
            }
        }
    }
}

/// The first occurrence is determined by what precedes it.
pub proof fn lemma_index_of_is(s: Seq<u8>, c: u8, i: int)
    requires
        0 <= i <= s.len(),
        forall|j: int| 0 <= j < i ==> s[j] != c,
        i < s.len() ==> s[i] == c,
    ensures
        index_of(s, c) == i,
{
    lemma_index_of(s, c);
    let k = index_of(s, c);
    if k < i {
        assert(s[k] != c);
    } else if i < k {
        assert(s[i] != c);
    }
}

/// Where the last occurrence stands, and that nothing equal follows it.
pub proof fn lemma_last_index_of(s: Seq<u8>, c: u8)
    ensures
        -1 <= last_index_of(s, c) < s.len(),
        forall|j: int| last_index_of(s, c) < j < s.len() ==> s[j] != c,
        last_index_of(s, c) >= 0 ==> s[last_index_of(s, c)] == c,
    decreases s.len(),
{
    if s.len() == 0 || s.last() == c {
    } else {
        let t = s.drop_last();
        lemma_last_index_of(t, c);
        assert forall|j: int| last_index_of(s, c) < j < s.len() implies s[j] != c by {
            if j < s.len() - 1 {
                assert(s[j] == t[j]);
            }
        }
    }
}

/// The last occurrence is determined by what follows it.
pub proof fn lemma_last_index_of_is(s: Seq<u8>, c: u8, i: int)
    requires
        -1 <= i < s.len(),
        forall|j: int| i < j < s.len() ==> s[j] != c,
        i >= 0 ==> s[i] == c,
    ensures
        last_index_of(s, c) == i,
{
    lemma_last_index_of(s, c);
    let k = last_index_of(s, c);
    if k < i {
        assert(s[i] != c);
    } else if i < k {
        assert(s[k] != c);
    }
}

/// Counting distributes over a split of the sequence.
pub proof fn lemma_count_of_split(s: Seq<u8>, c: u8, k: int)
    requires
        0 <= k <= s.len(),
    ensures
        count_of(s, c) == count_of(s.subrange(0, k), c) + count_of(s.subrange(k, s.len() as int), c),
    decreases s.len() - k,
{
    let tail = s.subrange(k, s.len() as int);
    if k == s.len() {
        assert(s.subrange(0, k) =~= s);
    } else {
        let t = s.drop_last();
        lemma_count_of_split(t, c, k);
        assert(t.subrange(0, k) =~= s.subrange(0, k));
        assert(t.subrange(k, t.len() as int) =~= tail.drop_last());
        assert(tail.last() == s.last());
    }
}

/// A prefix that stops at the last `c` holds one `c` fewer than the whole.
pub proof fn lemma_count_of_before_last(s: Seq<u8>, c: u8)
    requires
        last_index_of(s, c) >= 0,
    ensures
        count_of(s.subrange(0, last_index_of(s, c)), c) + 1 == count_of(s, c),
    decreases s.len(),
{
    lemma_last_index_of(s, c);
    if s.last() == c {
        assert(s.subrange(0, s.len() - 1) =~= s.drop_last());
    } else {
        let t = s.drop_last();
        lemma_last_index_of(t, c);
        lemma_count_of_before_last(t, c);
        assert(t.subrange(0, last_index_of(s, c)) =~= s.subrange(0, last_index_of(s, c)));
    }
}

/// A prefix never holds more `c` than the whole.
pub proof fn lemma_count_of_prefix(s: Seq<u8>, c: u8, k: int)
    requires
        0 <= k <= s.len(),
    ensures
        count_of(s.subrange(0, k), c) <= count_of(s, c),
{
    lemma_count_of_split(s, c, k);
}

/// In valid UTF-8, a position next to an ASCII byte is a character boundary.
pub proof fn lemma_ascii_adjacent_is_boundary(b: Seq<u8>, i: int)
    requires
        valid_utf8(b),
        ascii_adjacent(b, i),
    ensures
        is_char_boundary(b, i),
{
    broadcast use group_utf8_lib;

    if i == 0 || i == b.len() {
    } else if b[i] < 0x80 {
        assert(!is_continuation_byte(b[i]));
    } else {
        assert(!is_continuation_byte(b[i - 1]));
        assert(is_char_boundary(b, i - 1));
        valid_utf8_split(b, i - 1);
        let suffix = b.subrange(i - 1, b.len() as int);
        assert(valid_utf8(suffix));
        assert(suffix[0] == b[i - 1]);
        assert(is_leading_byte_width_1(suffix[0]));
        assert(length_of_first_scalar(suffix) == 1);
        let rest = pop_first_scalar(suffix);
        assert(rest =~= b.subrange(i, b.len() as int));
        assert(valid_utf8(rest));
        assert(rest.len() > 0);
        assert(rest[0] == b[i]);
        assert(valid_first_scalar(rest));
        is_char_boundary_iff_is_leading_byte(b, i);
    }
}

/// The part of `s` between two character boundaries, given as byte offsets.
pub fn slice_between<'a>(s: &'a str, from: usize, to: usize) -> (r: &'a str)
    requires
        from <= to <= s.spec_bytes().len(),
        is_char_boundary(s.spec_bytes(), from as int),
        is_char_boundary(s.spec_bytes(), to as int),
    ensures
        r.spec_bytes() == s.spec_bytes().subrange(from as int, to as int),
{
    broadcast use group_utf8_lib;

    let (head, _) = s.split_at(to);
    proof {
        let bytes = s.spec_bytes();
        assert(head.spec_bytes() =~= bytes.subrange(0, to as int));
        if from < to {
            is_char_boundary_iff_not_is_continuation_byte(bytes, from as int);
            is_char_boundary_iff_not_is_continuation_byte(head.spec_bytes(), from as int);
        }
    }
    let (_, r) = head.split_at(from);
    assert(r.spec_bytes() =~= s.spec_bytes().subrange(from as int, to as int));
    r
}

/// The part of `s` between byte offsets `from` and `to`, each of which lies
/// next to an ASCII character or at an end of `s`.
pub fn slice_str<'a>(s: &'a str, from: usize, to: usize) -> (r: &'a str)
    requires
        from <= to <= s.spec_bytes().len(),
        ascii_adjacent(s.spec_bytes(), from as int),
        ascii_adjacent(s.spec_bytes(), to as int),
    ensures
        r.spec_bytes() == s.spec_bytes().subrange(from as int, to as int),
{
    broadcast use group_utf8_lib;

    proof {
        lemma_ascii_adjacent_is_boundary(s.spec_bytes(), to as int);
        lemma_ascii_adjacent_is_boundary(s.spec_bytes(), from as int);
    }
    slice_between(s, from, to)
}

/// First index of `c` in `s`.
pub fn find_byte(s: &[u8], c: u8) -> (r: Option<usize>)
    ensures
        match r {
            Some(i) => i < s@.len() && i == index_of(s@, c),
            None => index_of(s@, c) == s@.len(),
        },
{
    let mut i: usize = 0;
    while i < s.len()
        invariant
            i <= s@.len(),
            forall|j: int| 0 <= j < i ==> s@[j] != c,
        decreases s@.len() - i,
    {
        if s[i] == c {
            proof {
                lemma_index_of_is(s@, c, i as int);
            }
            return Some(i);
        }
        i += 1;
    }
    proof {
        lemma_index_of_is(s@, c, s@.len() as int);
    }
    None
}

/// Last index of `c` in `s`.
pub fn rfind_byte(s: &[u8], c: u8) -> (r: Option<usize>)
    ensures
        match r {
            Some(i) => i < s@.len() && i == last_index_of(s@, c),
            None => last_index_of(s@, c) == -1,
        },
{
    let mut i: usize = s.len();
    while i > 0
        invariant
            i <= s@.len(),
            forall|j: int| i <= j < s@.len() ==> s@[j] != c,
        decreases i,
    {
        i -= 1;
        if s[i] == c {
            proof {
                lemma_last_index_of_is(s@, c, i as int);
            }
            return Some(i);
        }
    }
    proof {
        lemma_last_index_of_is(s@, c, -1);
    }
    None
}

/// Number of bytes of `s` equal to `c`.
pub fn count_byte(s: &[u8], c: u8) -> (n: usize)
    ensures
        n == count_of(s@, c),
{
    let mut n: usize = 0;
    let mut i: usize = 0;
    while i < s.len()
        invariant
            i <= s@.len(),
            n == count_of(s@.subrange(0, i as int), c),
            n <= i,
        decreases s@.len() - i,
    {
        proof {
            assert(s@.subrange(0, i + 1).drop_last() =~= s@.subrange(0, i as int));
        }
        if s[i] == c {
            n += 1;
        }
        i += 1;
    }
    proof {
        assert(s@.subrange(0, s@.len() as int) =~= s@);
    }
    n
}

/// Whether `p` occurs in `s` at byte `at`.
pub fn matches_at(s: &[u8], p: &[u8], at: usize) -> (r: bool)
    ensures
        r == occurs_at(s@, p@, at as int),
{
    if at > s.len() || p.len() > s.len() - at {
        return false;
    }
    let n: usize = s.len();
    let mut k: usize = 0;
    while k < p.len()
        invariant
            k <= p@.len(),
            n == s@.len(),
            at + p@.len() <= s@.len(),
            forall|j: int| 0 <= j < k ==> s@[at + j] == p@[j],
        decreases p@.len() - k,
    {
        if s[at + k] != p[k] {
            proof {
                let sub = s@.subrange(at as int, at + p@.len());
                assert(sub[k as int] == s@[at + k]);
            }
            return false;
        }
        k += 1;
    }
    assert(s@.subrange(at as int, at + p@.len()) =~= p@);
    true
}

/// Whether `s` begins with `p`.
pub fn bytes_start_with(s: &[u8], p: &[u8]) -> (r: bool)
    ensures
        r == starts_with(s@, p@),
{
    matches_at(s, p, 0)
}

/// Whether `s` ends with `p`.
pub fn bytes_end_with(s: &[u8], p: &[u8]) -> (r: bool)
    ensures
        r == ends_with(s@, p@),
{
    if p.len() > s.len() {
        return false;
    }
    matches_at(s, p, s.len() - p.len())
}

/// Whether `p` occurs anywhere in `s`.
pub fn bytes_contain(s: &[u8], p: &[u8]) -> (r: bool)
    ensures
        r == contains(s@, p@),
{
    if p.len() > s.len() {
        assert(forall|i: int| !occurs_at(s@, p@, i));
        return false;
    }
    let last: usize = s.len() - p.len();
    let mut i: usize = 0;
    while i < last
        invariant
            last == s@.len() - p@.len(),
            i <= last,
            forall|j: int| 0 <= j < i ==> !occurs_at(s@, p@, j),
        decreases last - i,
    {
        if matches_at(s, p, i) {
            return true;
        }
        i += 1;
    }
    let r = matches_at(s, p, last);
    assert(!r ==> forall|j: int| !occurs_at(s@, p@, j));
    r
}

/// Whether the two byte strings are equal.
pub fn bytes_equal(a: &[u8], b: &[u8]) -> (r: bool)
    ensures
        r == (a@ == b@),
{
    if a.len() != b.len() {
        return false;
    }
    let r = matches_at(a, b, 0);
    proof {
        assert(a@.subrange(0, a@.len() as int) =~= a@);
    }
    r
}

} // verus!
