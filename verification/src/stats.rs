//! Usage statistics: how often each category was used in each interval of
//! time.

use vstd::prelude::*;
use vstd::string::StringSliceAdditionalSpecFns;
use vstd::utf8::encode_utf8;
use std::collections::HashMap;
use crate::interner::Interner;
use crate::rank::{
    capped, count_in, is_histogram, lemma_count_in_sorted, lemma_rank_code, lemma_sorted,
    lemma_top_of, qualifying_codes, rank_decode, run_lengths, select_top, sort_ascending, sorted,
    sum_of, top_of,
};
use crate::session::{Session, SessionView, all_valid, views};

verus! {

/// How statistics are cut: the width of an interval in seconds, the count
/// that a category must reach to be reported, and the number of categories
/// reported at most.
#[derive(Clone, Copy, Debug)]
pub struct StatsOptions {
    pub resolution_sec: u32,
    pub threshold: u32,
    pub max_paths: u32,
}

impl StatsOptions {
    /// Options with the given values.
    pub fn new(resolution_sec: u32, threshold: u32, max_paths: u32) -> (o: StatsOptions)
        ensures
            o.resolution_sec == resolution_sec,
            o.threshold == threshold,
            o.max_paths == max_paths,
    {
        StatsOptions { resolution_sec, threshold, max_paths }
    }
}


/// One category of the statistics: its label, and for each interval of
/// time in which it was used the number of the interval, counted from the
/// first interval of the statistics, and the number of uses.
#[derive(Clone, Debug)]
pub struct UsageStatRow {
    pub category: String,
    pub count: Vec<u32>,
    pub time: Vec<u64>,
}

/// Usage statistics: the rows of the categories, most used first, and the
/// first and the last interval in which anything was used.
#[derive(Clone, Debug)]
pub struct UsageStats {
    pub rows: Vec<UsageStatRow>,
    pub start_time: i64,
    pub end_time: i64,
    /// Only the first action of each session was counted.
    pub session_starts_only: bool,
}

/// For each id from 0 to the greatest id of the dictionary, the string that
/// carries the id, or `default` where none does.
pub open spec fn inverse_of(mapping: Interner, default: Seq<u8>) -> Seq<Seq<u8>> {
    Seq::new(
        if mapping.names().len() == 0 {
            0
        } else {
            (mapping.id_at(mapping.names().len() - 1) + 1) as nat
        },
        |id: int|
            match mapping.name_of(id as u32) {
                Some(b) => b,
                None => default,
            },
    )
}

/// The bytes of each string of a list.
pub open spec fn texts(v: Seq<String>) -> Seq<Seq<u8>> {
    Seq::new(v.len(), |i: int| encode_utf8(v[i]@))
}

/// The strings of a dictionary by their ids: the entry at `id` is the
/// string that carries `id`, or `default` where none does.
pub fn make_inverse_core(mapping: &Interner, default: &str) -> (keys: Vec<String>)
    requires
        mapping.wf(),
    ensures
        texts(keys@) == inverse_of(*mapping, default.spec_bytes()),
{
    let n = mapping.len();
    let mut keys: Vec<String> = Vec::new();
    let mut k: usize = 0;
    while k < n
        invariant
            k <= n,
            keys@.len() == k,
            forall|i: int| 0 <= i < k ==> encode_utf8((#[trigger] keys@[i])@) == default.spec_bytes(),
        decreases n - k,
    {
        keys.push(default.to_owned());
        k += 1;
    }
    if n > 0 && mapping.id_of_position(n - 1) as usize == n {
        keys.push(default.to_owned());
    }
    let ghost size = keys@.len();
    let mut pos: usize = 0;
    while pos < n
        invariant
            pos <= n,
            mapping.wf(),
            n == mapping.names().len(),
            keys@.len() == size,
            n > 0 ==> size == mapping.id_at(n - 1) + 1,
            forall|id: int|
                0 <= id < size ==> encode_utf8((#[trigger] keys@[id])@) == (if exists|q: int|
                    0 <= q < pos && mapping.id_at(q) == id {
                    mapping.names()[choose|q: int| 0 <= q < pos && mapping.id_at(q) == id]
                } else {
                    default.spec_bytes()
                }),
        decreases n - pos,
    {
        let id = mapping.id_of_position(pos) as usize;
        let name = mapping.name_at(pos);
        let ghost before = keys@;
        keys[id] = name.to_owned();
        proof {
            assert forall|x: int| 0 <= x < size implies encode_utf8((#[trigger] keys@[x])@) == (
            if exists|q: int| 0 <= q < pos + 1 && mapping.id_at(q) == x {
                mapping.names()[choose|q: int| 0 <= q < pos + 1 && mapping.id_at(q) == x]
            } else {
                default.spec_bytes()
            }) by {
                if x == id {
                    let q = choose|q: int| 0 <= q < pos + 1 && mapping.id_at(q) == x;
                    mapping.lemma_id_at_injective(q, pos as int);
                } else {
                    assert(keys@[x] == before[x]);
                    if exists|q: int| 0 <= q < pos + 1 && mapping.id_at(q) == x {
                        let q = choose|q: int| 0 <= q < pos + 1 && mapping.id_at(q) == x;
                        assert(q < pos);
                        let q0 = choose|q: int| 0 <= q < pos && mapping.id_at(q) == x;
                        mapping.lemma_id_at_injective(q, q0);
                    }
                }
            }
        }
        pos += 1;
    }
    proof {
        let target = inverse_of(*mapping, default.spec_bytes());
        assert forall|id: int| 0 <= id < size implies texts(keys@)[id] == target[id] by {
            if exists|q: int| 0 <= q < n && mapping.id_at(q) == id {
                let q = choose|q: int| 0 <= q < n && mapping.id_at(q) == id;
                mapping.lemma_name_of(q);
            } else {
                if mapping.name_of(id as u32) is Some {
                    let q = choose|q: int|
                        0 <= q < mapping.names().len() && mapping.id_at(q) == id as u32;
                    assert(mapping.id_at(q) == id);
                }
            }
        }
        assert(texts(keys@) =~= target);
    }
    keys
}

/// The labels of the ids of a dictionary.
pub struct InverseMapping {
    keys: Vec<String>,
    default: String,
}

impl InverseMapping {
    /// The label of `id`: the string that carries it, or the default.
    pub closed spec fn label(&self, id: u32) -> Seq<u8> {
        if id < self.keys@.len() {
            encode_utf8(self.keys@[id as int]@)
        } else {
            encode_utf8(self.default@)
        }
    }

    /// The label of `id`.
    pub fn describe(&self, id: &u32) -> (r: String)
        ensures
            encode_utf8(r@) == self.label(*id),
    {
        if (*id as usize) < self.keys.len() {
            self.keys[*id as usize].clone()
        } else {
            self.default.clone()
        }
    }
}

/// The labels of the ids of a dictionary: for each id the string that
/// carries it, and `default` for an id that no string carries.
pub fn make_inverse_mapping(mapping: &Interner, default: &str) -> (m: InverseMapping)
    requires
        mapping.wf(),
    ensures
        forall|id: u32|
            #[trigger] m.label(id) == match mapping.name_of(id) {
                Some(b) => b,
                None => default.spec_bytes(),
            },
{
    let keys = make_inverse_core(mapping, default);
    let m = InverseMapping { keys, default: default.to_owned() };
    proof {
        let inv = inverse_of(*mapping, default.spec_bytes());
        assert forall|id: u32|
            #[trigger] m.label(id) == match mapping.name_of(id) {
                Some(b) => b,
                None => default.spec_bytes(),
            } by {
            if id < inv.len() {
                assert(texts(m.keys@)[id as int] == inv[id as int]);
            } else if mapping.name_of(id) is Some {
                let q = choose|q: int| 0 <= q < mapping.names().len() && mapping.id_at(q) == id;
                assert(mapping.id_at(q) <= mapping.id_at(mapping.names().len() - 1));
            }
        }
    }
    m
}


/// What the statistics are kept by.
#[derive(Clone, Copy, Debug, PartialEq, Eq, Structural)]
pub enum Dimension {
    /// The path of each action.
    Path,
    /// The user agent of the session.
    UserAgent,
    /// The referer of the session.
    Referer,
}

/// The category of the action `i` of the session.
pub open spec fn key_of(by: Dimension, s: SessionView, i: int) -> u32 {
    match by {
        Dimension::Path => s.actions[i],
        Dimension::UserAgent => s.user_agent,
        Dimension::Referer => s.referer,
    }
}

/// The interval of time of the action `i` of the session: its time in
/// seconds, divided by the width of an interval and rounded down.
pub open spec fn bucket_of(s: SessionView, i: int, resolution_sec: u32) -> int {
    (s.start_time.secs + s.access_times[i]) / (resolution_sec as int)
}

/// The time of every action of the session fits in 64 bits.
pub open spec fn in_range(s: SessionView) -> bool {
    forall|i: int|
        0 <= i < s.access_times.len() ==> s.start_time.secs + #[trigger] s.access_times[i]
            <= i64::MAX
}

/// Every session of the list is in range.
pub open spec fn all_in_range(v: Seq<Session>) -> bool {
    forall|j: int| 0 <= j < v.len() ==> in_range((#[trigger] v[j])@)
}

/// The events that a session adds to the statistics, each a category and
/// an interval: one for each action, or one for the first action only.
pub open spec fn session_events(s: SessionView, all_actions: bool, by: Dimension, resolution_sec: u32) -> Seq<
    (u32, i64),
> {
    Seq::new(
        if all_actions {
            s.actions.len()
        } else {
            1
        },
        |i: int| (key_of(by, s, i), bucket_of(s, i, resolution_sec) as i64),
    )
}

/// The events of all sessions, in the order of the sessions.
pub open spec fn events(
    sessions: Seq<SessionView>,
    all_actions: bool,
    by: Dimension,
    resolution_sec: u32,
) -> Seq<(u32, i64)>
    decreases sessions.len(),
{
    if sessions.len() == 0 {
        Seq::empty()
    } else {
        events(sessions.drop_last(), all_actions, by, resolution_sec) + session_events(
            sessions.last(),
            all_actions,
            by,
            resolution_sec,
        )
    }
}

/// The first interval of any event, or 0 where there is no event.
pub open spec fn least_bucket(ev: Seq<(u32, i64)>) -> i64
    decreases ev.len(),
{
    if ev.len() == 0 {
        0
    } else if ev.len() == 1 || ev.last().1 < least_bucket(ev.drop_last()) {
        ev.last().1
    } else {
        least_bucket(ev.drop_last())
    }
}

/// The last interval of any event, or 0 where there is no event.
pub open spec fn greatest_bucket(ev: Seq<(u32, i64)>) -> i64
    decreases ev.len(),
{
    if ev.len() == 0 {
        0
    } else if ev.len() == 1 || ev.last().1 > greatest_bucket(ev.drop_last()) {
        ev.last().1
    } else {
        greatest_bucket(ev.drop_last())
    }
}

/// The categories of the events, each once, in the order in which they
/// first occur.
pub open spec fn distinct_keys(ev: Seq<(u32, i64)>) -> Seq<u32>
    decreases ev.len(),
{
    if ev.len() == 0 {
        Seq::empty()
    } else if distinct_keys(ev.drop_last()).contains(ev.last().0) {
        distinct_keys(ev.drop_last())
    } else {
        distinct_keys(ev.drop_last()).push(ev.last().0)
    }
}

/// The intervals of the events of the category `key`, counted from the
/// interval `first`, in the order of the events.
pub open spec fn buckets_of(ev: Seq<(u32, i64)>, key: u32, first: i64) -> Seq<u64>
    decreases ev.len(),
{
    if ev.len() == 0 {
        Seq::empty()
    } else if ev.last().0 == key {
        buckets_of(ev.drop_last(), key, first).push((ev.last().1 - first) as u64)
    } else {
        buckets_of(ev.drop_last(), key, first)
    }
}

/// Each category of the events with the number of its events, which stops
/// at `u32::MAX`.
pub open spec fn key_totals(ev: Seq<(u32, i64)>) -> Seq<(u32, u32)> {
    Seq::new(
        distinct_keys(ev).len(),
        |i: int| (distinct_keys(ev)[i], capped(buckets_of(ev, distinct_keys(ev)[i], 0).len())),
    )
}

/// The row is that of a category with the label `label` whose events lie
/// in the intervals `list`: it has one entry for each interval that occurs,
/// in ascending order, with the number of events in it.
pub open spec fn is_row(row: UsageStatRow, label: Seq<u8>, list: Seq<u64>) -> bool {
    encode_utf8(row.category@) == label && is_histogram(row.time@, row.count@, list)
}

/// The statistics are those of the events `ev`: the categories that reach
/// the threshold, most used first and no more than `max_paths`, each with
/// its row; and the first and the last interval of all events, whether
/// their category is reported or not.
pub open spec fn is_stats(
    st: UsageStats,
    ev: Seq<(u32, i64)>,
    describe: InverseMapping,
    threshold: u32,
    max_paths: u32,
    all_actions: bool,
) -> bool {
    let top = top_of(key_totals(ev), threshold, max_paths);
    &&& st.session_starts_only == !all_actions
    &&& st.start_time == least_bucket(ev)
    &&& st.end_time == greatest_bucket(ev)
    &&& st.rows@.len() == top.len()
    &&& forall|r: int|
        0 <= r < top.len() ==> is_row(
            #[trigger] st.rows@[r],
            describe.label(top[r].0),
            buckets_of(ev, top[r].0, least_bucket(ev)),
        )
}

/// No event lies before the first interval or after the last.
pub proof fn lemma_bucket_range(ev: Seq<(u32, i64)>, i: int)
    requires
        0 <= i < ev.len(),
    ensures
        least_bucket(ev) <= ev[i].1 <= greatest_bucket(ev),
    decreases ev.len(),
{
    if i < ev.len() - 1 {
        lemma_bucket_range(ev.drop_last(), i);
    }
}

/// The number of events of a category does not depend on the interval from
/// which their intervals are counted.
pub proof fn lemma_buckets_len(ev: Seq<(u32, i64)>, key: u32, a: i64, b: i64)
    ensures
        buckets_of(ev, key, a).len() == buckets_of(ev, key, b).len(),
        buckets_of(ev, key, a).len() <= ev.len(),
    decreases ev.len(),
{
    if ev.len() > 0 {
        lemma_buckets_len(ev.drop_last(), key, a, b);
    }
}

/// `t / d`, rounded down.
fn floor_div(t: i128, d: i128) -> (q: i128)
    requires
        0 < d <= u32::MAX,
        i64::MIN <= t <= i64::MAX,
    ensures
        q == t / d,
        i64::MIN <= q <= i64::MAX,
{
    if t >= 0 {
        let q = t / d;
        assert(0 <= t / d <= t) by (nonlinear_arith)
            requires
                t >= 0,
                d > 0,
        ;
        q
    } else {
        let a = -t;
        let up = (a + d - 1) / d;
        assert(t / d == -up && t <= t / d <= 0) by (nonlinear_arith)
            requires
                t < 0,
                d > 0,
                a == -t,
                up == (a + d - 1) / (d as int),
        ;
        -up
    }
}

/// The events of the sessions.
fn collect_events(sessions: &Vec<Session>, all_actions: bool, by: Dimension, resolution_sec: u32) -> (ev:
    Vec<(u32, i64)>)
    requires
        resolution_sec > 0,
        all_valid(sessions@),
        all_in_range(sessions@),
    ensures
        ev@ == events(views(sessions@), all_actions, by, resolution_sec),
{
    let mut ev: Vec<(u32, i64)> = Vec::new();
    let ghost all = views(sessions@);
    let mut j: usize = 0;
    assert(all.subrange(0, 0) =~= Seq::<SessionView>::empty());
    while j < sessions.len()
        invariant
            j <= sessions@.len(),
            resolution_sec > 0,
            all == views(sessions@),
            all_valid(sessions@),
            all_in_range(sessions@),
            ev@ == events(all.subrange(0, j as int), all_actions, by, resolution_sec),
        decreases sessions@.len() - j,
    {
        let s = &sessions[j];
        let ghost done = ev@;
        let ghost this = session_events(s@, all_actions, by, resolution_sec);
        proof {
            let next = all.subrange(0, j + 1);
            assert(next.drop_last() =~= all.subrange(0, j as int));
            assert(next.last() == s@);
            assert(s@.valid());
            assert(in_range(s@));
        }
        let count: usize = if all_actions {
            s.actions.len()
        } else {
            1
        };
        let mut i: usize = 0;
        while i < count
            invariant
                i <= count,
                resolution_sec > 0,
                count == this.len(),
                count <= s@.actions.len(),
                s@.actions.len() == s@.access_times.len(),
                in_range(s@),
                this == session_events(s@, all_actions, by, resolution_sec),
                ev@ == done + this.subrange(0, i as int),
            decreases count - i,
        {
            let key = match by {
                Dimension::Path => s.actions[i],
                Dimension::UserAgent => s.user_agent,
                Dimension::Referer => s.referer,
            };
            let elapsed = s.access_times[i];
            assert(s@.start_time.secs + s@.access_times[i as int] <= i64::MAX);
            let bucket = floor_div(
                s.start_time.secs as i128 + elapsed as i128,
                resolution_sec as i128,
            );
            ev.push((key, bucket as i64));
            proof {
                assert(ev@ =~= done + this.subrange(0, i + 1));
            }
            i += 1;
        }
        proof {
            assert(this.subrange(0, count as int) =~= this);
        }
        j += 1;
    }
    assert(all.subrange(0, sessions@.len() as int) =~= all);
    ev
}

/// The first and the last interval of the events.
fn bucket_range(ev: &Vec<(u32, i64)>) -> (r: (i64, i64))
    ensures
        r.0 == least_bucket(ev@),
        r.1 == greatest_bucket(ev@),
{
    if ev.len() == 0 {
        return (0, 0);
    }
    let mut least = ev[0].1;
    let mut greatest = ev[0].1;
    let mut i: usize = 1;
    proof {
        assert(ev@.subrange(0, 1).drop_last() =~= Seq::<(u32, i64)>::empty());
    }
    while i < ev.len()
        invariant
            1 <= i <= ev@.len(),
            least == least_bucket(ev@.subrange(0, i as int)),
            greatest == greatest_bucket(ev@.subrange(0, i as int)),
        decreases ev@.len() - i,
    {
        proof {
            let next = ev@.subrange(0, i + 1);
            assert(next.drop_last() =~= ev@.subrange(0, i as int));
        }
        let b = ev[i].1;
        if b < least {
            least = b;
        }
        if b > greatest {
            greatest = b;
        }
        i += 1;
    }
    assert(ev@.subrange(0, ev@.len() as int) =~= ev@);
    (least, greatest)
}

/// The events by category: the categories in the order in which they first
/// occur, and for each the intervals of its events, counted from `first`.
fn group_events(ev: &Vec<(u32, i64)>, first: i64) -> (r: (Vec<u32>, HashMap<u32, Vec<u64>>))
    requires
        first == least_bucket(ev@),
    ensures
        r.0@ == distinct_keys(ev@),
        forall|k: u32| #[trigger] r.1@.contains_key(k) <==> r.0@.contains(k),
        forall|k: u32| #[trigger] r.1@.contains_key(k) ==> r.1@[k]@ == buckets_of(ev@, k, first),
{
    let mut keys: Vec<u32> = Vec::new();
    let mut groups: HashMap<u32, Vec<u64>> = HashMap::new();
    let mut i: usize = 0;
    assert(ev@.subrange(0, 0) =~= Seq::<(u32, i64)>::empty());
    while i < ev.len()
        invariant
            i <= ev@.len(),
            first == least_bucket(ev@),
            keys@ == distinct_keys(ev@.subrange(0, i as int)),
            forall|k: u32| #[trigger] groups@.contains_key(k) <==> keys@.contains(k),
            forall|k: u32| #[trigger]
                groups@.contains_key(k) ==> groups@[k]@ == buckets_of(
                    ev@.subrange(0, i as int),
                    k,
                    first,
                ),
        decreases ev@.len() - i,
    {
        let ghost done = ev@.subrange(0, i as int);
        let ghost next = ev@.subrange(0, i + 1);
        let ghost old_keys = keys@;
        let ghost old_groups = groups@;
        proof {
            assert(next.drop_last() =~= done);
            assert(next.last() == ev@[i as int]);
            lemma_bucket_range(ev@, i as int);
        }
        let key = ev[i].0;
        let rel = (ev[i].1 as i128 - first as i128) as u64;
        let mut list = match groups.remove(&key) {
            Some(list) => list,
            None => {
                keys.push(key);
                Vec::new()
            },
        };
        proof {
            if !old_groups.contains_key(key) {
                lemma_no_events(done, key, first);
            }
        }
        list.push(rel);
        groups.insert(key, list);
        proof {
            assert forall|k: u32| #[trigger] groups@.contains_key(k) <==> keys@.contains(k) by {
                if k == key {
                    if old_keys.contains(key) {
                        let q = choose|q: int| 0 <= q < old_keys.len() && old_keys[q] == key;
                        assert(keys@[q] == key);
                    } else {
                        assert(keys@[keys@.len() - 1] == key);
                    }
                } else {
                    assert(old_groups.contains_key(k) <==> old_keys.contains(k));
                    if old_keys.contains(k) {
                        let q = choose|q: int| 0 <= q < old_keys.len() && old_keys[q] == k;
                        assert(keys@[q] == k);
                    }
                    if keys@.contains(k) {
                        let q = choose|q: int| 0 <= q < keys@.len() && keys@[q] == k;
                        assert(old_keys[q] == k);
                    }
                }
            }
            assert forall|k: u32| #[trigger] groups@.contains_key(k) implies groups@[k]@
                == buckets_of(next, k, first) by {
                if k != key {
                    assert(old_groups.contains_key(k));
                }
            }
        }
        i += 1;
    }
    assert(ev@.subrange(0, ev@.len() as int) =~= ev@);
    (keys, groups)
}

/// A category that is not among the distinct categories has no event.
pub proof fn lemma_no_events(ev: Seq<(u32, i64)>, key: u32, first: i64)
    requires
        !distinct_keys(ev).contains(key),
    ensures
        buckets_of(ev, key, first) == Seq::<u64>::empty(),
    decreases ev.len(),
{
    if ev.len() > 0 {
        let rest = distinct_keys(ev.drop_last());
        if rest.contains(key) {
            let q = choose|q: int| 0 <= q < rest.len() && rest[q] == key;
            assert(distinct_keys(ev)[q] == key);
        }
        if ev.last().0 == key {
            assert(distinct_keys(ev)[distinct_keys(ev).len() - 1] == key || rest.contains(key));
        }
        lemma_no_events(ev.drop_last(), key, first);
    }
}

/// A histogram of a sequence in ascending order is one of the sequence.
pub proof fn lemma_histogram_of_sorted(values: Seq<u64>, counts: Seq<u32>, s: Seq<u64>)
    requires
        is_histogram(values, counts, sorted(s)),
    ensures
        is_histogram(values, counts, s),
{
    lemma_sorted(s);
    assert forall|i: int| 0 <= i < values.len() implies #[trigger] counts[i] == capped(
        count_in(s, values[i]),
    ) by {
        lemma_count_in_sorted(s, values[i]);
    }
    assert forall|i: int| 0 <= i < values.len() implies count_in(sorted(s), #[trigger] values[i])
        == count_in(s, values[i]) by {
        lemma_count_in_sorted(s, values[i]);
    }
    assert forall|k: int| 0 <= k < s.len() implies values.contains(#[trigger] s[k]) by {
        assert(s.contains(s[k]));
        assert(sorted(s).contains(s[k]));
        let q = choose|q: int| 0 <= q < sorted(s).len() && sorted(s)[q] == s[k];
        assert(values.contains(sorted(s)[q]));
    }
}

/// The statistics of the sessions: how often each category was used in
/// each interval of `opt.resolution_sec` seconds. The events are the actions
/// of the sessions, or, unless `all_actions` is set, the first action of
/// each session; `by` says what the category of an event is, and `describe`
/// gives the label of a category. Reported are the categories with at
/// least `opt.threshold` events, most used first and with equal use the
/// smaller id first, and no more than `opt.max_paths` of them.
pub fn calc_stats(
    sessions: &Vec<Session>,
    opt: &StatsOptions,
    all_actions: bool,
    by: Dimension,
    describe: &InverseMapping,
) -> (st: UsageStats)
    requires
        opt.resolution_sec > 0,
        all_valid(sessions@),
        all_in_range(sessions@),
    ensures
        is_stats(
            st,
            events(views(sessions@), all_actions, by, opt.resolution_sec),
            *describe,
            opt.threshold,
            opt.max_paths,
            all_actions,
        ),
{
    let ev = collect_events(sessions, all_actions, by, opt.resolution_sec);
    let (first, last) = bucket_range(&ev);
    let (keys, groups) = group_events(&ev, first);
    let mut cands: Vec<(u32, u32)> = Vec::new();
    let mut i: usize = 0;
    while i < keys.len()
        invariant
            i <= keys@.len(),
            keys@ == distinct_keys(ev@),
            forall|k: u32| #[trigger] groups@.contains_key(k) <==> keys@.contains(k),
            forall|k: u32| #[trigger]
                groups@.contains_key(k) ==> groups@[k]@ == buckets_of(ev@, k, first),
            cands@.len() == i,
            forall|q: int| 0 <= q < i ==> cands@[q] == key_totals(ev@)[q],
        decreases keys@.len() - i,
    {
        let key = keys[i];
        proof {
            assert(keys@.contains(keys@[i as int]));
            assert(groups@.contains_key(key));
            lemma_buckets_len(ev@, key, first, 0);
        }
        let total = match groups.get(&key) {
            Some(list) => if list.len() > u32::MAX as usize {
                u32::MAX
            } else {
                list.len() as u32
            },
            None => 0,
        };
        cands.push((key, total));
        i += 1;
    }
    assert(cands@ =~= key_totals(ev@));
    let top = select_top(&cands, opt.threshold, opt.max_paths);
    proof {
        lemma_top_of(cands@, opt.threshold, opt.max_paths);
    }
    let mut rows: Vec<UsageStatRow> = Vec::new();
    let mut r: usize = 0;
    while r < top.len()
        invariant
            r <= top@.len(),
            keys@ == distinct_keys(ev@),
            cands@ == key_totals(ev@),
            forall|q: int| 0 <= q < top@.len() ==> cands@.contains(#[trigger] top@[q]),
            forall|k: u32| #[trigger] groups@.contains_key(k) <==> keys@.contains(k),
            forall|k: u32| #[trigger]
                groups@.contains_key(k) ==> groups@[k]@ == buckets_of(ev@, k, first),
            rows@.len() == r,
            forall|q: int|
                0 <= q < r ==> is_row(
                    #[trigger] rows@[q],
                    describe.label(top@[q].0),
                    buckets_of(ev@, top@[q].0, first),
                ),
        decreases top@.len() - r,
    {
        let key = top[r].0;
        proof {
            assert(cands@.contains(top@[r as int]));
            let q = choose|q: int| 0 <= q < cands@.len() && cands@[q] == top@[r as int];
            assert(keys@[q] == key);
            assert(keys@.contains(key));
            assert(groups@.contains_key(key));
        }
        let mut list: Vec<u64> = match groups.get(&key) {
            Some(list) => list.clone(),
            None => Vec::new(),
        };
        let ghost unsorted = list@;
        assert(unsorted =~= buckets_of(ev@, key, first));
        sort_ascending(&mut list);
        proof {
            lemma_sorted(unsorted);
        }
        let (time, count) = run_lengths(&list);
        proof {
            lemma_histogram_of_sorted(time@, count@, unsorted);
        }
        let row = UsageStatRow { category: describe.describe(&key), count, time };
        let ghost before = rows@;
        rows.push(row);
        proof {
            assert forall|q: int| 0 <= q < r + 1 implies is_row(
                #[trigger] rows@[q],
                describe.label(top@[q].0),
                buckets_of(ev@, top@[q].0, first),
            ) by {
                if q < r {
                    assert(rows@[q] == before[q]);
                }
            }
        }
        r += 1;
    }
    UsageStats { rows, start_time: first, end_time: last, session_starts_only: !all_actions }
}


/// All counts of all rows, added up.
pub open spec fn emitted(rows: Seq<UsageStatRow>) -> nat
    decreases rows.len(),
{
    if rows.len() == 0 {
        0
    } else {
        emitted(rows.drop_last()) + sum_of(rows.last().count@)
    }
}

/// The number of events of the category `key`.
pub open spec fn total_of(ev: Seq<(u32, i64)>, key: u32) -> nat {
    buckets_of(ev, key, 0).len()
}

/// The numbers of events of the categories `keys`, added up.
pub open spec fn key_sum(ev: Seq<(u32, i64)>, keys: Seq<u32>) -> nat
    decreases keys.len(),
{
    if keys.len() == 0 {
        0
    } else {
        key_sum(ev, keys.drop_last()) + total_of(ev, keys.last())
    }
}

/// The numbers of events of the categories that the rank codes stand for,
/// added up.
pub open spec fn code_sum(ev: Seq<(u32, i64)>, codes: Seq<u64>) -> nat
    decreases codes.len(),
{
    if codes.len() == 0 {
        0
    } else {
        code_sum(ev, codes.drop_last()) + total_of(ev, rank_decode(codes.last()).0)
    }
}

proof fn lemma_distinct_keys(ev: Seq<(u32, i64)>)
    ensures
        distinct_keys(ev).no_duplicates(),
        forall|i: int| 0 <= i < ev.len() ==> distinct_keys(ev).contains((#[trigger] ev[i]).0),
    decreases ev.len(),
{
    if ev.len() > 0 {
        let rest = ev.drop_last();
        lemma_distinct_keys(rest);
        let keys = distinct_keys(ev);
        let before = distinct_keys(rest);
        assert forall|i: int| 0 <= i < ev.len() implies keys.contains((#[trigger] ev[i]).0) by {
            if i < rest.len() {
                assert(rest[i] == ev[i]);
                let q = choose|q: int| 0 <= q < before.len() && before[q] == ev[i].0;
                assert(keys[q] == ev[i].0);
            } else if before.contains(ev.last().0) {
            } else {
                assert(keys[keys.len() - 1] == ev.last().0);
            }
        }
        if !before.contains(ev.last().0) {
            assert forall|i: int, j: int| 0 <= i < keys.len() && 0 <= j < keys.len() && i
                != j implies keys[i] != keys[j] by {
                if i < before.len() && j < before.len() {
                    assert(before[i] != before[j]);
                } else if i < before.len() {
                    assert(before.contains(before[i]));
                } else {
                    assert(before.contains(before[j]));
                }
            }
        }
    }
}

/// One more event adds one to the sum over distinct categories that hold
/// its category, and nothing to a sum over categories that do not.
proof fn lemma_key_sum_push(ev: Seq<(u32, i64)>, keys: Seq<u32>)
    requires
        ev.len() > 0,
        keys.no_duplicates(),
    ensures
        key_sum(ev, keys) == key_sum(ev.drop_last(), keys) + if keys.contains(ev.last().0) {
            1nat
        } else {
            0nat
        },
    decreases keys.len(),
{
    if keys.len() > 0 {
        let rest = keys.drop_last();
        assert forall|i: int, j: int| 0 <= i < rest.len() && 0 <= j < rest.len() && i
            != j implies rest[i] != rest[j] by {
            assert(rest[i] == keys[i] && rest[j] == keys[j]);
        }
        lemma_key_sum_push(ev, rest);
        if rest.contains(ev.last().0) {
            let q = choose|q: int| 0 <= q < rest.len() && rest[q] == ev.last().0;
            assert(keys[q] == ev.last().0);
            assert(keys[keys.len() - 1] != keys[q]);
        }
        if keys.last() == ev.last().0 {
            assert(keys[keys.len() - 1] == ev.last().0);
        } else if keys.contains(ev.last().0) {
            let q = choose|q: int| 0 <= q < keys.len() && keys[q] == ev.last().0;
            assert(rest[q] == ev.last().0);
        }
    }
}

/// Every event belongs to one of the distinct categories.
proof fn lemma_keys_cover(ev: Seq<(u32, i64)>)
    ensures
        key_sum(ev, distinct_keys(ev)) == ev.len(),
    decreases ev.len(),
{
    if ev.len() > 0 {
        let rest = ev.drop_last();
        let before = distinct_keys(rest);
        let keys = distinct_keys(ev);
        lemma_keys_cover(rest);
        lemma_distinct_keys(ev);
        lemma_distinct_keys(rest);
        if before.contains(ev.last().0) {
            lemma_key_sum_push(ev, keys);
        } else {
            assert(keys.drop_last() =~= before);
            lemma_key_sum_push(ev, before);
            lemma_no_events(rest, ev.last().0, 0);
        }
    }
}

proof fn lemma_code_sum_remove(ev: Seq<(u32, i64)>, s: Seq<u64>, k: int)
    requires
        0 <= k < s.len(),
    ensures
        code_sum(ev, s) == code_sum(ev, s.remove(k)) + total_of(ev, rank_decode(s[k]).0),
    decreases s.len(),
{
    if k == s.len() - 1 {
        assert(s.remove(k) =~= s.drop_last());
    } else {
        lemma_code_sum_remove(ev, s.drop_last(), k);
        assert(s.remove(k).drop_last() =~= s.drop_last().remove(k));
        assert(s.remove(k).last() == s.last());
    }
}

/// The sum does not depend on the order of the codes.
proof fn lemma_code_sum_permutation(ev: Seq<(u32, i64)>, a: Seq<u64>, b: Seq<u64>)
    requires
        a.to_multiset() == b.to_multiset(),
    ensures
        code_sum(ev, a) == code_sum(ev, b),
    decreases a.len(),
{
    a.to_multiset_ensures();
    b.to_multiset_ensures();
    if a.len() > 0 {
        let x = a.last();
        let rest = a.drop_last();
        rest.to_multiset_ensures();
        assert(rest.push(x) =~= a);
        assert(a.to_multiset().count(x) > 0);
        assert(b.contains(x));
        let k = choose|k: int| 0 <= k < b.len() && b[k] == x;
        let other = b.remove(k);
        assert(other.to_multiset() =~= b.to_multiset().remove(x));
        assert(rest.to_multiset() =~= a.to_multiset().remove(x));
        lemma_code_sum_permutation(ev, rest, other);
        lemma_code_sum_remove(ev, b, k);
    }
}

/// With the threshold 0 every candidate has its code among the qualifying
/// codes, in the order of the candidates.
proof fn lemma_all_qualify(ev: Seq<(u32, i64)>, cands: Seq<(u32, u32)>, keys: Seq<u32>)
    requires
        cands.len() == keys.len(),
        forall|i: int| 0 <= i < cands.len() ==> (#[trigger] cands[i]).0 == keys[i],
    ensures
        qualifying_codes(cands, 0).len() == cands.len(),
        code_sum(ev, qualifying_codes(cands, 0)) == key_sum(ev, keys),
    decreases cands.len(),
{
    if cands.len() > 0 {
        let c = cands.drop_last();
        let k = keys.drop_last();
        assert forall|i: int| 0 <= i < c.len() implies (#[trigger] c[i]).0 == k[i] by {
            assert(c[i] == cands[i]);
        }
        lemma_all_qualify(ev, c, k);
        lemma_rank_code(cands.last().0, cands.last().1);
        assert(cands[cands.len() - 1].0 == keys[cands.len() - 1]);
        assert(qualifying_codes(cands, 0).drop_last() =~= qualifying_codes(c, 0));
    }
}

/// No category has more than `u32::MAX` events in one interval, so that no
/// count has to stop.
pub open spec fn counts_fit(ev: Seq<(u32, i64)>) -> bool {
    forall|key: u32, x: u64|
        #[trigger] count_in(buckets_of(ev, key, least_bucket(ev)), x) <= u32::MAX
}

/// Counts are conserved: where every category is reported, because the
/// threshold is 0 and the number of categories is within `max_paths`, and
/// no count has to stop at `u32::MAX`, all counts of all rows add up to the
/// number of events.
pub proof fn law_counts_conserved(
    st: UsageStats,
    ev: Seq<(u32, i64)>,
    describe: InverseMapping,
    max_paths: u32,
    all_actions: bool,
)
    requires
        is_stats(st, ev, describe, 0, max_paths, all_actions),
        distinct_keys(ev).len() <= max_paths,
        counts_fit(ev),
    ensures
        emitted(st.rows@) == ev.len(),
{
    let cands = key_totals(ev);
    let keys = distinct_keys(ev);
    let codes = qualifying_codes(cands, 0);
    let ordered = sorted(codes);
    let top = top_of(cands, 0, max_paths);
    lemma_all_qualify(ev, cands, keys);
    lemma_sorted(codes);
    lemma_keys_cover(ev);
    lemma_code_sum_permutation(ev, ordered, codes);
    assert(top.len() == ordered.len());
    let rows = st.rows@;
    assert(rows.len() == ordered.len());
    lemma_rows_sum(rows, ev, ordered, least_bucket(ev), rows.len() as int);
    assert(rows.subrange(0, rows.len() as int) =~= rows);
    assert(ordered.subrange(0, rows.len() as int) =~= ordered);
}

/// The counts of the first `n` rows add up to the events of their
/// categories.
proof fn lemma_rows_sum(
    rows: Seq<UsageStatRow>,
    ev: Seq<(u32, i64)>,
    ordered: Seq<u64>,
    first: i64,
    n: int,
)
    requires
        0 <= n <= rows.len(),
        rows.len() == ordered.len(),
        first == least_bucket(ev),
        counts_fit(ev),
        forall|r: int|
            0 <= r < rows.len() ==> is_histogram(
                (#[trigger] rows[r]).time@,
                rows[r].count@,
                buckets_of(ev, rank_decode(ordered[r]).0, first),
            ),
    ensures
        emitted(rows.subrange(0, n)) == code_sum(ev, ordered.subrange(0, n)),
    decreases n,
{
    if n > 0 {
        lemma_rows_sum(rows, ev, ordered, first, n - 1);
        assert(rows.subrange(0, n).drop_last() =~= rows.subrange(0, n - 1));
        assert(ordered.subrange(0, n).drop_last() =~= ordered.subrange(0, n - 1));
        let key = rank_decode(ordered[n - 1]).0;
        lemma_buckets_len(ev, key, first, 0);
        assert(is_histogram(rows[n - 1].time@, rows[n - 1].count@, buckets_of(ev, key, first)));
    }
}

} // verus!
