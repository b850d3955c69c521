//! Ordering by count: the categories that pass a threshold, most frequent
//! first, and no more of them than asked for.

use vstd::prelude::*;
use vstd::relations::{sorted_by, total_ordering};
use vstd::seq_lib::lemma_sorted_unique;

verus! {

/// The order of `u64`.
pub open spec fn ascending() -> spec_fn(u64, u64) -> bool {
    |a: u64, b: u64| a <= b
}

/// `s` in ascending order.
pub open spec fn sorted(s: Seq<u64>) -> Seq<u64> {
    s.sort_by(ascending())
}

/// No element of `s` is greater than a later one.
pub open spec fn is_ascending(s: Seq<u64>) -> bool {
    forall|i: int, j: int| 0 <= i < j < s.len() ==> s[i] <= s[j]
}

/// Calls `<[u64]>::sort_unstable`, which sorts the slice in place: the
/// elements afterwards are those from before, each as often as before, and
/// none is greater than a later one.
#[verifier::external_body]
fn slice_sort_unstable(v: &mut Vec<u64>)
    ensures
        is_ascending(final(v)@),
        final(v)@.to_multiset() == old(v)@.to_multiset(),
{
    v.sort_unstable();
}

/// The ascending arrangement of a sequence is the only one.
pub proof fn lemma_sorted_is(s: Seq<u64>, t: Seq<u64>)
    requires
        is_ascending(t),
        t.to_multiset() == s.to_multiset(),
    ensures
        t == sorted(s),
        sorted(s).len() == s.len(),
        is_ascending(sorted(s)),
{
    let leq = ascending();
    assert(total_ordering(leq));
    s.lemma_sort_by_ensures(leq);
    assert(sorted_by(t, leq));
    lemma_sorted_unique(t, sorted(s), leq);
    s.to_multiset_ensures();
    t.to_multiset_ensures();
}

/// What holds of the ascending arrangement of any sequence.
pub proof fn lemma_sorted(s: Seq<u64>)
    ensures
        sorted(s).len() == s.len(),
        is_ascending(sorted(s)),
        sorted(s).to_multiset() == s.to_multiset(),
        forall|x: u64| sorted(s).contains(x) <==> s.contains(x),
{
    let leq = ascending();
    assert(total_ordering(leq));
    s.lemma_sort_by_ensures(leq);
    s.to_multiset_ensures();
    sorted(s).to_multiset_ensures();
    assert(sorted_by(sorted(s), leq));
    assert forall|i: int, j: int| 0 <= i < j < sorted(s).len() implies sorted(s)[i] <= sorted(
        s,
    )[j] by {
        assert(leq(sorted(s)[i], sorted(s)[j]));
    }
    assert forall|x: u64| sorted(s).contains(x) <==> s.contains(x) by {
        assert(s.to_multiset().count(x) == sorted(s).to_multiset().count(x));
    }
}

/// Sorts `v` in ascending order.
pub fn sort_ascending(v: &mut Vec<u64>)
    ensures
        final(v)@ == sorted(old(v)@),
{
    slice_sort_unstable(v);
    proof {
        lemma_sorted_is(old(v)@, v@);
    }
}

/// A category and its count as one number, such that a smaller number means
/// a greater count or, with equal counts, a smaller category.
pub open spec fn rank_code(key: u32, count: u32) -> u64 {
    ((u32::MAX - count) * 0x1_0000_0000 + key) as u64
}

/// The category and the count that a rank code stands for.
pub open spec fn rank_decode(code: u64) -> (u32, u32) {
    ((code % 0x1_0000_0000) as u32, (u32::MAX - code / 0x1_0000_0000) as u32)
}

/// `a` comes before `b` in the ranking: it has the greater count, or the
/// same count and the smaller category.
pub open spec fn ranks_before(a: (u32, u32), b: (u32, u32)) -> bool {
    a.1 > b.1 || (a.1 == b.1 && a.0 < b.0)
}

/// The rank codes of the candidates whose count reaches `threshold`, in the
/// order of the candidates.
pub open spec fn qualifying_codes(cands: Seq<(u32, u32)>, threshold: u32) -> Seq<u64>
    decreases cands.len(),
{
    if cands.len() == 0 {
        Seq::empty()
    } else if cands.last().1 >= threshold {
        qualifying_codes(cands.drop_last(), threshold).push(
            rank_code(cands.last().0, cands.last().1),
        )
    } else {
        qualifying_codes(cands.drop_last(), threshold)
    }
}

/// The candidates, each a category with its count, whose count reaches
/// `threshold`: ordered by falling count and, among equal counts, by rising
/// category, and cut off after the first `max`.
pub open spec fn top_of(cands: Seq<(u32, u32)>, threshold: u32, max: u32) -> Seq<(u32, u32)> {
    let codes = sorted(qualifying_codes(cands, threshold));
    Seq::new(
        if codes.len() <= max {
            codes.len()
        } else {
            max as nat
        },
        |i: int| rank_decode(codes[i]),
    )
}

/// The category `key` is among `top`.
pub open spec fn listed(top: Seq<(u32, u32)>, key: u32) -> bool {
    exists|i: int| 0 <= i < top.len() && (#[trigger] top[i]).0 == key
}

/// A rank code stands for one category and one count.
pub proof fn lemma_rank_code(key: u32, count: u32)
    ensures
        rank_decode(rank_code(key, count)) == (key, count),
{
    let c = (u32::MAX - count) as int;
    assert((c * 0x1_0000_0000 + key) % 0x1_0000_0000 == key) by (nonlinear_arith)
        requires
            0 <= key < 0x1_0000_0000,
            0 <= c,
    ;
    assert((c * 0x1_0000_0000 + key) / 0x1_0000_0000 == c) by (nonlinear_arith)
        requires
            0 <= key < 0x1_0000_0000,
            0 <= c,
    ;
}

/// A smaller rank code is an earlier rank.
pub proof fn lemma_rank_order(a: (u32, u32), b: (u32, u32))
    ensures
        rank_code(a.0, a.1) < rank_code(b.0, b.1) <==> ranks_before(a, b),
        rank_code(a.0, a.1) == rank_code(b.0, b.1) <==> a == b,
{
    lemma_rank_code(a.0, a.1);
    lemma_rank_code(b.0, b.1);
}

/// Every qualifying code is the code of a candidate that qualifies, and
/// every such candidate has its code among them.
pub proof fn lemma_qualifying_codes(cands: Seq<(u32, u32)>, threshold: u32)
    ensures
        qualifying_codes(cands, threshold).len() <= cands.len(),
        forall|x: u64|
            qualifying_codes(cands, threshold).contains(x) ==> cands.contains(rank_decode(x))
                && rank_decode(x).1 >= threshold && rank_code(rank_decode(x).0, rank_decode(x).1)
                == x,
        forall|i: int|
            0 <= i < cands.len() && (#[trigger] cands[i]).1 >= threshold ==> qualifying_codes(
                cands,
                threshold,
            ).contains(rank_code(cands[i].0, cands[i].1)),
    decreases cands.len(),
{
    let codes = qualifying_codes(cands, threshold);
    if cands.len() > 0 {
        let rest = cands.drop_last();
        let last = cands.last();
        lemma_qualifying_codes(rest, threshold);
        let inner = qualifying_codes(rest, threshold);
        lemma_rank_code(last.0, last.1);
        assert forall|x: u64| codes.contains(x) implies cands.contains(rank_decode(x))
            && rank_decode(x).1 >= threshold && rank_code(rank_decode(x).0, rank_decode(x).1)
            == x by {
            let k = choose|k: int| 0 <= k < codes.len() && codes[k] == x;
            if k < inner.len() {
                assert(inner[k] == x);
                assert(inner.contains(x));
                let j = choose|j: int| 0 <= j < rest.len() && rest[j] == rank_decode(x);
                assert(cands[j] == rank_decode(x));
            } else {
                assert(cands[cands.len() - 1] == last);
            }
        }
        assert forall|i: int| 0 <= i < cands.len() && (#[trigger] cands[i]).1
            >= threshold implies codes.contains(rank_code(cands[i].0, cands[i].1)) by {
            if i < rest.len() {
                assert(rest[i] == cands[i]);
                let x = rank_code(cands[i].0, cands[i].1);
                assert(inner.contains(x));
                let k = choose|k: int| 0 <= k < inner.len() && inner[k] == x;
                assert(codes[k] == x);
            } else {
                assert(codes[codes.len() - 1] == rank_code(last.0, last.1));
            }
        }
    }
}

/// What the ranking holds: no more than `max` entries, each a candidate
/// that reaches the threshold, each ranked before the next; and every
/// qualifying candidate that is missing ranks after all that are there,
/// which then number `max`.
pub proof fn lemma_top_of(cands: Seq<(u32, u32)>, threshold: u32, max: u32)
    ensures
        top_of(cands, threshold, max).len() <= max,
        top_of(cands, threshold, max).len() <= cands.len(),
        forall|i: int|
            0 <= i < top_of(cands, threshold, max).len() ==> cands.contains(
                #[trigger] top_of(cands, threshold, max)[i],
            ) && top_of(cands, threshold, max)[i].1 >= threshold,
        forall|i: int, j: int|
            0 <= i < j < top_of(cands, threshold, max).len() ==> ranks_before(
                top_of(cands, threshold, max)[i],
                top_of(cands, threshold, max)[j],
            ) || top_of(cands, threshold, max)[i] == top_of(cands, threshold, max)[j],
        forall|k: int|
            0 <= k < cands.len() && (#[trigger] cands[k]).1 >= threshold ==> top_of(
                cands,
                threshold,
                max,
            ).contains(cands[k]) || (top_of(cands, threshold, max).len() == max && forall|i: int|
                0 <= i < max ==> ranks_before(
                    #[trigger] top_of(cands, threshold, max)[i],
                    cands[k],
                ) || top_of(cands, threshold, max)[i] == cands[k]),
{
    let q = qualifying_codes(cands, threshold);
    let codes = sorted(q);
    let top = top_of(cands, threshold, max);
    lemma_sorted(q);
    lemma_qualifying_codes(cands, threshold);
    assert forall|i: int| 0 <= i < top.len() implies cands.contains(#[trigger] top[i]) && top[i].1
        >= threshold by {
        assert(codes.contains(codes[i]));
        assert(q.contains(codes[i]));
        assert(top[i] == rank_decode(codes[i]));
    }
    assert forall|i: int, j: int| 0 <= i < j < top.len() implies ranks_before(top[i], top[j])
        || top[i] == top[j] by {
        assert(codes.contains(codes[i]));
        assert(codes.contains(codes[j]));
        assert(q.contains(codes[i]));
        assert(q.contains(codes[j]));
        lemma_rank_order(top[i], top[j]);
    }
    assert forall|k: int| 0 <= k < cands.len() && (#[trigger] cands[k]).1
        >= threshold implies top.contains(cands[k]) || (top.len() == max && forall|i: int|
        0 <= i < max ==> ranks_before(#[trigger] top[i], cands[k]) || top[i] == cands[k]) by {
        let x = rank_code(cands[k].0, cands[k].1);
        lemma_rank_code(cands[k].0, cands[k].1);
        assert(q.contains(x));
        assert(codes.contains(x));
        let p = choose|p: int| 0 <= p < codes.len() && codes[p] == x;
        if p < top.len() {
            assert(top[p] == cands[k]);
        } else {
            assert forall|i: int| 0 <= i < max implies ranks_before(#[trigger] top[i], cands[k])
                || top[i] == cands[k] by {
                assert(codes.contains(codes[i]));
                assert(q.contains(codes[i]));
                lemma_rank_order(top[i], cands[k]);
            }
        }
    }
}

/// The candidates whose count reaches `threshold`, most frequent first and
/// at most `max` of them.
pub fn select_top(cands: &Vec<(u32, u32)>, threshold: u32, max: u32) -> (top: Vec<(u32, u32)>)
    ensures
        top@ == top_of(cands@, threshold, max),
{
    let mut codes: Vec<u64> = Vec::new();
    let mut i: usize = 0;
    assert(cands@.subrange(0, 0) =~= Seq::<(u32, u32)>::empty());
    while i < cands.len()
        invariant
            i <= cands@.len(),
            codes@ == qualifying_codes(cands@.subrange(0, i as int), threshold),
        decreases cands@.len() - i,
    {
        proof {
            let next = cands@.subrange(0, i + 1);
            assert(next.drop_last() =~= cands@.subrange(0, i as int));
            assert(next.last() == cands@[i as int]);
        }
        let c = cands[i];
        if c.1 >= threshold {
            codes.push((u32::MAX - c.1) as u64 * 0x1_0000_0000 + c.0 as u64);
        }
        i += 1;
    }
    assert(cands@.subrange(0, cands@.len() as int) =~= cands@);
    sort_ascending(&mut codes);
    let n: usize = if codes.len() <= max as usize {
        codes.len()
    } else {
        max as usize
    };
    let mut top: Vec<(u32, u32)> = Vec::new();
    let mut j: usize = 0;
    while j < n
        invariant
            j <= n <= codes@.len(),
            top@.len() == j,
            forall|k: int| 0 <= k < j ==> top@[k] == rank_decode(codes@[k]),
        decreases n - j,
    {
        let code = codes[j];
        top.push(((code % 0x1_0000_0000) as u32, (u32::MAX as u64 - code / 0x1_0000_0000) as u32));
        j += 1;
    }
    assert(top@ =~= top_of(cands@, threshold, max));
    top
}


/// `n`, or `u32::MAX` where `n` is greater.
pub open spec fn capped(n: nat) -> u32 {
    if n > u32::MAX {
        u32::MAX
    } else {
        n as u32
    }
}

/// How often `x` occurs in `s`.
pub open spec fn count_in(s: Seq<u64>, x: u64) -> nat
    decreases s.len(),
{
    if s.len() == 0 {
        0
    } else {
        count_in(s.drop_last(), x) + if s.last() == x {
            1nat
        } else {
            0nat
        }
    }
}

/// Counting is counting in the multiset.
pub proof fn lemma_count_in_multiset(s: Seq<u64>, x: u64)
    ensures
        count_in(s, x) == s.to_multiset().count(x),
    decreases s.len(),
{
    if s.len() == 0 {
        s.to_multiset_ensures();
        assert(s.to_multiset().len() == 0);
        if s.to_multiset().count(x) > 0 {
            assert(s.contains(x));
        }
    } else {
        let t = s.drop_last();
        lemma_count_in_multiset(t, x);
        t.to_multiset_ensures();
        assert(t.push(s.last()) =~= s);
    }
}

/// Sorting changes no count.
pub proof fn lemma_count_in_sorted(s: Seq<u64>, x: u64)
    ensures
        count_in(sorted(s), x) == count_in(s, x),
{
    lemma_sorted(s);
    lemma_count_in_multiset(s, x);
    lemma_count_in_multiset(sorted(s), x);
}

/// What does not occur after a prefix is counted in the prefix.
pub proof fn lemma_count_in_prefix(s: Seq<u64>, x: u64, k: int)
    requires
        0 <= k <= s.len(),
        forall|i: int| k <= i < s.len() ==> s[i] != x,
    ensures
        count_in(s, x) == count_in(s.subrange(0, k), x),
    decreases s.len() - k,
{
    if k == s.len() {
        assert(s.subrange(0, k) =~= s);
    } else {
        let t = s.drop_last();
        assert(t.subrange(0, k) =~= s.subrange(0, k));
        lemma_count_in_prefix(t, x, k);
    }
}

/// What occurs is counted, and what is counted occurs.
pub proof fn lemma_count_in_contains(s: Seq<u64>, x: u64)
    ensures
        count_in(s, x) > 0 <==> s.contains(x),
        count_in(s, x) <= s.len(),
    decreases s.len(),
{
    if s.len() > 0 {
        let t = s.drop_last();
        lemma_count_in_contains(t, x);
        if t.contains(x) {
            let i = choose|i: int| 0 <= i < t.len() && t[i] == x;
            assert(s[i] == x);
        }
        if s.contains(x) && s.last() != x {
            let i = choose|i: int| 0 <= i < s.len() && s[i] == x;
            assert(t[i] == x);
        }
        if s.last() == x {
            assert(s[s.len() - 1] == x);
        }
    }
}

/// The sum of the counts.
pub open spec fn sum_of(counts: Seq<u32>) -> nat
    decreases counts.len(),
{
    if counts.len() == 0 {
        0
    } else {
        sum_of(counts.drop_last()) + counts.last() as nat
    }
}

/// The distinct values of `s` in ascending order, each with the number of
/// times it occurs in `s`, which stops at `u32::MAX`. Where no number has
/// to stop, the numbers add up to the length of `s`.
pub open spec fn is_histogram(values: Seq<u64>, counts: Seq<u32>, s: Seq<u64>) -> bool {
    &&& values.len() == counts.len()
    &&& forall|i: int, j: int| 0 <= i < j < values.len() ==> values[i] < values[j]
    &&& forall|i: int| 0 <= i < values.len() ==> s.contains(#[trigger] values[i])
    &&& forall|k: int| 0 <= k < s.len() ==> values.contains(#[trigger] s[k])
    &&& forall|i: int|
        0 <= i < values.len() ==> #[trigger] counts[i] == capped(count_in(s, values[i]))
    &&& (forall|i: int| 0 <= i < values.len() ==> count_in(s, #[trigger] values[i]) <= u32::MAX)
        ==> sum_of(counts) == s.len()
}

/// The distinct values of an ascending sequence, each with the number of
/// times it occurs.
pub fn run_lengths(v: &Vec<u64>) -> (r: (Vec<u64>, Vec<u32>))
    requires
        is_ascending(v@),
    ensures
        is_histogram(r.0@, r.1@, v@),
{
    let mut values: Vec<u64> = Vec::new();
    let mut counts: Vec<u32> = Vec::new();
    let n = v.len();
    let mut i: usize = 0;
    while i < n
        invariant
            i <= n,
            n == v@.len(),
            is_ascending(v@),
            values@.len() == counts@.len(),
            forall|a: int, b: int| 0 <= a < b < values@.len() ==> values@[a] < values@[b],
            forall|a: int| 0 <= a < values@.len() ==> v@.contains(#[trigger] values@[a]),
            forall|a: int| 0 <= a < values@.len() && i < n ==> values@[a] < v@[i as int],
            forall|k: int| 0 <= k < i ==> values@.contains(#[trigger] v@[k]),
            forall|a: int|
                0 <= a < values@.len() ==> #[trigger] counts@[a] == capped(
                    count_in(v@, values@[a]),
                ),
            (forall|a: int|
                0 <= a < values@.len() ==> count_in(v@, #[trigger] values@[a]) <= u32::MAX)
                ==> sum_of(counts@) == i,
        decreases n - i,
    {
        let x = v[i];
        let mut j: usize = i + 1;
        proof {
            let one = v@.subrange(0, i + 1);
            assert(one.drop_last() =~= v@.subrange(0, i as int));
            lemma_count_in_contains(v@.subrange(0, i as int), x);
            if v@.subrange(0, i as int).contains(x) {
                let k = choose|k: int| 0 <= k < i && v@.subrange(0, i as int)[k] == x;
                assert(v@[k] == x);
                assert(values@.contains(v@[k]));
            }
        }
        while j < n && v[j] == x
            invariant
                i < j <= n,
                n == v@.len(),
                is_ascending(v@),
                x == v@[i as int],
                forall|k: int| i <= k < j ==> v@[k] == x,
                count_in(v@.subrange(0, j as int), x) == j - i,
            decreases n - j,
        {
            proof {
                let more = v@.subrange(0, j + 1);
                assert(more.drop_last() =~= v@.subrange(0, j as int));
            }
            j += 1;
        }
        proof {
            lemma_count_in_prefix(v@, x, j as int);
        }
        let ghost old_values = values@;
        let ghost old_counts = counts@;
        let run = j - i;
        values.push(x);
        counts.push(if run > u32::MAX as usize {
            u32::MAX
        } else {
            run as u32
        });
        proof {
            assert(counts@.drop_last() =~= old_counts);
            assert(v@.contains(x));
            assert(count_in(v@, x) == run);
            if forall|a: int|
                0 <= a < values@.len() ==> count_in(v@, #[trigger] values@[a]) <= u32::MAX {
                assert(values@[values@.len() - 1] == x);
                assert forall|a: int| 0 <= a < old_values.len() implies count_in(
                    v@,
                    #[trigger] old_values[a],
                ) <= u32::MAX by {
                    assert(values@[a] == old_values[a]);
                }
            }
            assert forall|k: int| 0 <= k < j implies values@.contains(#[trigger] v@[k]) by {
                if k < i {
                    assert(old_values.contains(v@[k]));
                    let a = choose|a: int| 0 <= a < old_values.len() && old_values[a] == v@[k];
                    assert(values@[a] == v@[k]);
                } else {
                    assert(values@[values@.len() - 1] == x);
                }
            }
            assert forall|a: int| 0 <= a < values@.len() implies v@.contains(
                #[trigger] values@[a],
            ) by {
                if a < old_values.len() {
                    assert(values@[a] == old_values[a]);
                    assert(v@.contains(old_values[a]));
                }
            }
            assert forall|a: int| 0 <= a < values@.len() implies #[trigger] counts@[a] == capped(
                count_in(v@, values@[a]),
            ) by {
                if a < old_values.len() {
                    assert(counts@[a] == old_counts[a]);
                    assert(values@[a] == old_values[a]);
                }
            }
        }
        i = j;
    }
    (values, counts)
}

} // verus!
