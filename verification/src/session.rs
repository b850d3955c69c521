//! Sessions, and the sliding time window that reconstructs them from a
//! stream of log records.

use vstd::prelude::*;
use std::collections::BTreeSet;
use std::collections::HashMap;
use crate::parser::LogLine;
use crate::symbols::GlobalTable;
use crate::time::{Timestamp, clamp_u32};

verus! {

/// The visits of one client, told apart by address and user agent.
#[derive(Clone, Debug)]
pub struct Session {
    pub ip: u32,
    pub user_agent: u32,
    /// Referer of the first record of the session.
    pub referer: u32,
    pub start_time: Timestamp,
    /// Time of the last meaningful action.
    pub end_time: Timestamp,
    /// Seconds from `start_time` to each meaningful action.
    pub access_times: Vec<u32>,
    /// Path id of each meaningful action.
    pub actions: Vec<u32>,
    /// All records of the session, meaningful or not. Stops at `u32::MAX`.
    pub total_requests: u32,
    /// Bytes of all records of the session. Stops at `u64::MAX`.
    pub total_bytes: u64,
}

/// A session as a mathematical value.
pub struct SessionView {
    pub ip: u32,
    pub user_agent: u32,
    pub referer: u32,
    pub start_time: Timestamp,
    pub end_time: Timestamp,
    pub access_times: Seq<u32>,
    pub actions: Seq<u32>,
    pub total_requests: u32,
    pub total_bytes: u64,
}

impl View for Session {
    type V = SessionView;

    open spec fn view(&self) -> SessionView {
        SessionView {
            ip: self.ip,
            user_agent: self.user_agent,
            referer: self.referer,
            start_time: self.start_time,
            end_time: self.end_time,
            access_times: self.access_times@,
            actions: self.actions@,
            total_requests: self.total_requests,
            total_bytes: self.total_bytes,
        }
    }
}

/// The views of a list of sessions.
pub open spec fn views(v: Seq<Session>) -> Seq<SessionView> {
    Seq::new(v.len(), |i: int| v[i]@)
}

/// The key of the session of an address and a user agent: the address in
/// the upper 32 bits, the user agent in the lower.
pub open spec fn session_id(ip: u32, user_agent: u32) -> u64 {
    (ip as u64 * 0x1_0000_0000 + user_agent as u64) as u64
}

/// `a` comes before `b`, or is `b`, in the order of the eviction index:
/// by second, then by nanosecond, then by session id.
pub open spec fn key_le(a: (i64, u32, u64), b: (i64, u32, u64)) -> bool {
    a.0 < b.0 || (a.0 == b.0 && (a.1 < b.1 || (a.1 == b.1 && a.2 <= b.2)))
}

impl SessionView {
    /// The key of the session.
    pub open spec fn id(self) -> u64 {
        session_id(self.ip, self.user_agent)
    }

    /// A session holds at least one action, and a time for each action.
    pub open spec fn valid(self) -> bool {
        self.actions.len() > 0 && self.actions.len() == self.access_times.len()
    }

    /// Where the session stands in the eviction index.
    pub open spec fn age_key(self) -> (i64, u32, u64) {
        (self.end_time.secs, self.end_time.nanos, self.id())
    }
}

impl Session {
    /// The key of the session of an address and a user agent.
    pub fn compute_id(ip: u32, user_agent: u32) -> (id: u64)
        ensures
            id == session_id(ip, user_agent),
    {
        let id = ((ip as u64) << 32) | user_agent as u64;
        assert(((ip as u64) << 32) | (user_agent as u64) == (ip as u64) * 0x1_0000_0000
            + user_agent as u64) by (bit_vector);
        id
    }

    /// The key of the session.
    pub fn id(&self) -> (id: u64)
        ensures
            id == self@.id(),
    {
        Session::compute_id(self.ip, self.user_agent)
    }

    /// A copy of the session.
    pub fn duplicate(&self) -> (s: Session)
        ensures
            s@ == self@,
    {
        Session {
            ip: self.ip,
            user_agent: self.user_agent,
            referer: self.referer,
            start_time: self.start_time,
            end_time: self.end_time,
            access_times: self.access_times.clone(),
            actions: self.actions.clone(),
            total_requests: self.total_requests,
            total_bytes: self.total_bytes,
        }
    }
}

/// Different pairs of address and user agent have different session ids.
pub proof fn law_session_ids_distinct(ip1: u32, ua1: u32, ip2: u32, ua2: u32)
    requires
        session_id(ip1, ua1) == session_id(ip2, ua2),
    ensures
        ip1 == ip2,
        ua1 == ua2,
{
}

/// The sessions that are open at some point of the stream.
pub struct Window {
    /// The open sessions, by id.
    pub open: Map<u64, SessionView>,
    /// The ids of the sessions that stand in the eviction index. A session
    /// leaves the index when a record is folded into it as noise, and
    /// comes back with its next meaningful action.
    pub indexed: Set<u64>,
}

impl Window {
    /// The window with no open session.
    pub open spec fn empty() -> Window {
        Window { open: Map::empty(), indexed: Set::empty() }
    }

    /// Every open session is valid and stands under its own id, and only
    /// open sessions are indexed.
    pub open spec fn valid(self) -> bool {
        &&& self.open.dom().finite()
        &&& self.indexed.finite()
        &&& forall|id: u64| #[trigger]
            self.open.contains_key(id) ==> self.open[id].valid() && self.open[id].id() == id
        &&& forall|id: u64| #[trigger] self.indexed.contains(id) ==> self.open.contains_key(id)
    }
}

/// Among the sessions `among`, `id` is the one that comes first in the
/// eviction index.
pub open spec fn is_oldest(open: Map<u64, SessionView>, among: Set<u64>, id: u64) -> bool {
    &&& among.contains(id)
    &&& open.contains_key(id)
    &&& forall|o: u64|
        among.contains(o) && #[trigger] open.contains_key(o) ==> key_le(
            open[id].age_key(),
            open[o].age_key(),
        )
}

/// The session's last meaningful action lies before `limit`; with no limit,
/// every session leaves.
pub open spec fn leaves(s: SessionView, limit: Option<int>) -> bool {
    limit matches Some(x) ==> s.end_time.secs < x
}

/// The sessions that a sweep emits, in the order in which it emits them:
/// as long as the oldest of `among` leaves, it is taken out and emitted.
pub open spec fn evicted(open: Map<u64, SessionView>, among: Set<u64>, limit: Option<int>) -> Seq<
    SessionView,
>
    decreases among.len(),
    when among.finite()
{
    if exists|id: u64| is_oldest(open, among, id) {
        let id = choose|id: u64| is_oldest(open, among, id);
        if leaves(open[id], limit) {
            seq![open[id]] + evicted(open.remove(id), among.remove(id), limit)
        } else {
            Seq::empty()
        }
    } else {
        Seq::empty()
    }
}

/// The window after a sweep: the indexed sessions that ended before
/// `limit` are gone.
pub open spec fn swept(w: Window, limit: int) -> Window {
    Window {
        open: w.open.restrict(
            Set::new(|id: u64| !(w.indexed.contains(id) && w.open[id].end_time.secs < limit)),
        ),
        indexed: Set::new(|id: u64| w.indexed.contains(id) && !(w.open[id].end_time.secs < limit)),
    }
}

/// The session that a first record opens, before the record is counted.
pub open spec fn fresh(l: LogLine) -> SessionView {
    SessionView {
        ip: l.ip,
        user_agent: l.user_agent,
        referer: l.referer,
        start_time: l.time,
        end_time: l.time,
        access_times: Seq::empty(),
        actions: Seq::empty(),
        total_requests: 0,
        total_bytes: 0,
    }
}

/// The record counts for the session's totals only: it is a static asset,
/// or it is probably one and follows an action of the session by less than
/// ten seconds.
pub open spec fn is_noise(table: GlobalTable, s: SessionView, l: LogLine) -> bool {
    table.meaningless(l) || (table.probably_meaningless(l) && s.actions.len() > 0
        && l.time.within(s.end_time, 10))
}

/// `x + y`, stopping at `max`.
pub open spec fn capped_add(x: int, y: int, max: int) -> int {
    if x + y > max {
        max
    } else {
        x + y
    }
}

/// The session `s` after the record `l`.
pub open spec fn absorbed(table: GlobalTable, s: SessionView, l: LogLine) -> SessionView {
    let counted = SessionView {
        total_requests: capped_add(s.total_requests as int, 1, u32::MAX as int) as u32,
        total_bytes: capped_add(s.total_bytes as int, l.size as int, u64::MAX as int) as u64,
        ..s
    };
    if is_noise(table, s, l) {
        counted
    } else {
        SessionView {
            access_times: s.access_times.push(l.time.elapsed_since(s.start_time) as u32),
            actions: s.actions.push(l.path),
            end_time: l.time,
            ..counted
        }
    }
}

/// The record takes part in session reconstruction: its status is a
/// success, and it is not a static asset that would open a session.
pub open spec fn takes_part(table: GlobalTable, w: Window, l: LogLine) -> bool {
    &&& 200 <= l.status_code < 300
    &&& w.open.contains_key(session_id(l.ip, l.user_agent)) || !table.meaningless(l)
}

/// The window once `l` has been counted into its session, before the sweep.
pub open spec fn admitted(table: GlobalTable, w: Window, l: LogLine) -> Window {
    let id = session_id(l.ip, l.user_agent);
    let s = if w.open.contains_key(id) {
        w.open[id]
    } else {
        fresh(l)
    };
    Window {
        open: w.open.insert(id, absorbed(table, s, l)),
        indexed: if is_noise(table, s, l) {
            w.indexed.remove(id)
        } else {
            w.indexed.insert(id)
        },
    }
}

/// The second before which a session must have ended to be swept out when
/// a record of time `now` arrives.
pub open spec fn sweep_limit(now: Timestamp, max_age: u32) -> int {
    now.secs - max_age
}

/// One step of the reconstruction: the window after the record `l`, and the
/// sessions that the record's sweep emits.
pub open spec fn step(table: GlobalTable, w: Window, max_age: u32, l: LogLine) -> (
    Window,
    Seq<SessionView>,
) {
    if takes_part(table, w, l) {
        let w1 = admitted(table, w, l);
        let limit = sweep_limit(l.time, max_age);
        (swept(w1, limit), evicted(w1.open, w1.indexed, Some(limit)))
    } else {
        (w, Seq::empty())
    }
}

/// The window after all of `lines`, and the sessions emitted on the way.
pub open spec fn run(table: GlobalTable, max_age: u32, lines: Seq<LogLine>) -> (
    Window,
    Seq<SessionView>,
)
    decreases lines.len(),
{
    if lines.len() == 0 {
        (Window::empty(), Seq::empty())
    } else {
        let before = run(table, max_age, lines.drop_last());
        let after = step(table, before.0, max_age, lines.last());
        (after.0, before.1 + after.1)
    }
}

/// The sessions that a flush emits: every open session, in the order of
/// the eviction index.
pub open spec fn flushed(w: Window) -> Seq<SessionView> {
    evicted(w.open, w.open.dom(), None)
}

/// The sessions reconstructed from `lines`: those that the sweeps emit, in
/// the order of the sweeps, and then those that are still open at the end.
pub open spec fn sessions_of(table: GlobalTable, max_age: u32, lines: Seq<LogLine>) -> Seq<
    SessionView,
> {
    let end = run(table, max_age, lines);
    end.1 + flushed(end.0)
}

/// At most one session is the oldest.
pub proof fn lemma_oldest_unique(open: Map<u64, SessionView>, among: Set<u64>, a: u64, b: u64)
    requires
        forall|id: u64| #[trigger] open.contains_key(id) ==> open[id].id() == id,
        is_oldest(open, among, a),
        is_oldest(open, among, b),
    ensures
        a == b,
{
}

/// What a sweep emits when the oldest session is known.
pub proof fn lemma_evicted_unfold(
    open: Map<u64, SessionView>,
    among: Set<u64>,
    limit: Option<int>,
    id: u64,
)
    requires
        among.finite(),
        forall|id: u64| #[trigger] open.contains_key(id) ==> open[id].id() == id,
        is_oldest(open, among, id),
    ensures
        evicted(open, among, limit) == if leaves(open[id], limit) {
            seq![open[id]] + evicted(open.remove(id), among.remove(id), limit)
        } else {
            Seq::empty()
        },
{
    let chosen = choose|id: u64| is_oldest(open, among, id);
    lemma_oldest_unique(open, among, chosen, id);
}

/// A window stays valid through a step.
pub proof fn lemma_admitted_valid(table: GlobalTable, w: Window, l: LogLine)
    requires
        w.valid(),
        takes_part(table, w, l),
    ensures
        admitted(table, w, l).valid(),
{
    let id = session_id(l.ip, l.user_agent);
    let w1 = admitted(table, w, l);
    assert forall|o: u64| #[trigger] w1.open.contains_key(o) implies w1.open[o].valid()
        && w1.open[o].id() == o by {
        if o != id {
            assert(w.open.contains_key(o));
        }
    }
    assert forall|o: u64| #[trigger] w1.indexed.contains(o) implies w1.open.contains_key(o) by {
        if o != id {
            assert(w.indexed.contains(o));
        }
    }
}


/// What a sweep emits: each session that it emits is one of `among`, stands
/// in `open` under its own id, and leaves by the limit; and the sessions
/// come in the order of the eviction index.
pub proof fn lemma_evicted_members(
    open: Map<u64, SessionView>,
    among: Set<u64>,
    limit: Option<int>,
)
    requires
        among.finite(),
        forall|id: u64| #[trigger] open.contains_key(id) ==> open[id].id() == id,
    ensures
        forall|j: int|
            0 <= j < evicted(open, among, limit).len() ==> among.contains(
                (#[trigger] evicted(open, among, limit)[j]).id(),
            ) && open.contains_key(evicted(open, among, limit)[j].id()) && open[evicted(
                open,
                among,
                limit,
            )[j].id()] == evicted(open, among, limit)[j] && leaves(
                evicted(open, among, limit)[j],
                limit,
            ),
        forall|i: int, j: int|
            0 <= i < j < evicted(open, among, limit).len() ==> key_le(
                (#[trigger] evicted(open, among, limit)[i]).age_key(),
                (#[trigger] evicted(open, among, limit)[j]).age_key(),
            ),
    decreases among.len(),
{
    let out = evicted(open, among, limit);
    if exists|id: u64| is_oldest(open, among, id) {
        let id = choose|id: u64| is_oldest(open, among, id);
        if leaves(open[id], limit) {
            let rest_open = open.remove(id);
            let rest_among = among.remove(id);
            let rest = evicted(rest_open, rest_among, limit);
            assert forall|x: u64| #[trigger] rest_open.contains_key(x) implies rest_open[x].id()
                == x by {
                assert(open.contains_key(x));
            }
            lemma_evicted_members(rest_open, rest_among, limit);
            assert(out =~= seq![open[id]] + rest);
            assert forall|j: int| 0 <= j < out.len() implies among.contains(
                (#[trigger] out[j]).id(),
            ) && open.contains_key(out[j].id()) && open[out[j].id()] == out[j] && leaves(
                out[j],
                limit,
            ) by {
                if j > 0 {
                    assert(out[j] == rest[j - 1]);
                    assert(rest_among.contains(rest[j - 1].id()));
                }
            }
            assert forall|i: int, j: int| 0 <= i < j < out.len() implies key_le(
                (#[trigger] out[i]).age_key(),
                (#[trigger] out[j]).age_key(),
            ) by {
                assert(out[j] == rest[j - 1]);
                let x = rest[j - 1].id();
                assert(rest_among.contains(x) && rest_open.contains_key(x));
                assert(among.contains(x) && open.contains_key(x));
                if i > 0 {
                    assert(out[i] == rest[i - 1]);
                }
            }
        }
    }
}

/// A window stays valid through a sweep.
pub proof fn lemma_swept_valid(w: Window, limit: int)
    requires
        w.valid(),
    ensures
        swept(w, limit).valid(),
{
    let after = swept(w, limit);
    assert(after.open.dom().subset_of(w.open.dom()));
    vstd::set_lib::lemma_len_subset(after.open.dom(), w.open.dom());
    assert(after.indexed.subset_of(w.indexed));
    vstd::set_lib::lemma_len_subset(after.indexed, w.indexed);
    assert forall|id: u64| #[trigger] after.indexed.contains(id) implies after.open.contains_key(
        id,
    ) by {
        assert(w.indexed.contains(id));
    }
}

/// The window is valid after every record of a stream.
pub proof fn lemma_run_valid(table: GlobalTable, max_age: u32, lines: Seq<LogLine>)
    ensures
        run(table, max_age, lines).0.valid(),
    decreases lines.len(),
{
    if lines.len() > 0 {
        lemma_run_valid(table, max_age, lines.drop_last());
        let before = run(table, max_age, lines.drop_last()).0;
        let l = lines.last();
        if takes_part(table, before, l) {
            lemma_admitted_valid(table, before, l);
            lemma_swept_valid(admitted(table, before, l), sweep_limit(l.time, max_age));
        }
    }
}

/// Static assets open no session: where every record of a visitor, told
/// by address and user agent, is a static asset, the stream yields no
/// session of that visitor.
pub proof fn law_assets_open_no_session(
    table: GlobalTable,
    max_age: u32,
    lines: Seq<LogLine>,
    ip: u32,
    user_agent: u32,
)
    requires
        forall|i: int|
            0 <= i < lines.len() && (#[trigger] lines[i]).ip == ip && lines[i].user_agent
                == user_agent ==> table.meaningless(lines[i]),
    ensures
        forall|j: int|
            0 <= j < sessions_of(table, max_age, lines).len() ==> !((#[trigger] sessions_of(
                table,
                max_age,
                lines,
            )[j]).ip == ip && sessions_of(table, max_age, lines)[j].user_agent == user_agent),
{
    lemma_no_session_of(table, max_age, lines, ip, user_agent);
    lemma_run_valid(table, max_age, lines);
    let end = run(table, max_age, lines);
    let last = flushed(end.0);
    lemma_evicted_members(end.0.open, end.0.open.dom(), None);
    let all = sessions_of(table, max_age, lines);
    assert forall|j: int| 0 <= j < all.len() implies !((#[trigger] all[j]).ip == ip
        && all[j].user_agent == user_agent) by {
        if j >= end.1.len() {
            let s = last[j - end.1.len()];
            assert(end.0.open.contains_key(s.id()));
        }
    }
}

/// While all records of a visitor are static assets, the window holds no
/// session of the visitor and none has been emitted.
proof fn lemma_no_session_of(
    table: GlobalTable,
    max_age: u32,
    lines: Seq<LogLine>,
    ip: u32,
    user_agent: u32,
)
    requires
        forall|i: int|
            0 <= i < lines.len() && (#[trigger] lines[i]).ip == ip && lines[i].user_agent
                == user_agent ==> table.meaningless(lines[i]),
    ensures
        !run(table, max_age, lines).0.open.contains_key(session_id(ip, user_agent)),
        forall|j: int|
            0 <= j < run(table, max_age, lines).1.len() ==> (#[trigger] run(
                table,
                max_age,
                lines,
            ).1[j]).id() != session_id(ip, user_agent),
    decreases lines.len(),
{
    let id = session_id(ip, user_agent);
    if lines.len() > 0 {
        let rest = lines.drop_last();
        let l = lines.last();
        assert forall|i: int|
            0 <= i < rest.len() && (#[trigger] rest[i]).ip == ip && rest[i].user_agent
                == user_agent implies table.meaningless(rest[i]) by {
            assert(rest[i] == lines[i]);
        }
        lemma_no_session_of(table, max_age, rest, ip, user_agent);
        lemma_run_valid(table, max_age, rest);
        let before = run(table, max_age, rest);
        let after = step(table, before.0, max_age, l);
        if takes_part(table, before.0, l) {
            if l.ip == ip && l.user_agent == user_agent {
                assert(lines[lines.len() - 1] == l);
                assert(table.meaningless(l));
            }
            if session_id(l.ip, l.user_agent) == id {
                law_session_ids_distinct(l.ip, l.user_agent, ip, user_agent);
            }
            let w1 = admitted(table, before.0, l);
            lemma_admitted_valid(table, before.0, l);
            lemma_evicted_members(w1.open, w1.indexed, Some(sweep_limit(l.time, max_age)));
            assert(!w1.open.contains_key(id));
            assert forall|j: int| 0 <= j < after.1.len() implies (#[trigger] after.1[j]).id()
                != id by {
                assert(w1.open.contains_key(after.1[j].id()));
            }
        }
        let out = run(table, max_age, lines).1;
        assert forall|j: int| 0 <= j < out.len() implies (#[trigger] out[j]).id() != id by {
            if j < before.1.len() {
                assert(out[j] == before.1[j]);
            } else {
                assert(out[j] == after.1[j - before.1.len()]);
            }
        }
    }
}

/// Every session that a stream yields is valid: it has at least one
/// action, and a time for each action.
pub proof fn law_sessions_valid(table: GlobalTable, max_age: u32, lines: Seq<LogLine>)
    ensures
        forall|j: int|
            0 <= j < sessions_of(table, max_age, lines).len() ==> (#[trigger] sessions_of(
                table,
                max_age,
                lines,
            )[j]).valid(),
{
    lemma_emitted_valid(table, max_age, lines);
    lemma_run_valid(table, max_age, lines);
    let end = run(table, max_age, lines);
    lemma_evicted_members(end.0.open, end.0.open.dom(), None);
    let all = sessions_of(table, max_age, lines);
    assert forall|j: int| 0 <= j < all.len() implies (#[trigger] all[j]).valid() by {
        if j >= end.1.len() {
            let s = flushed(end.0)[j - end.1.len()];
            assert(end.0.open.contains_key(s.id()));
        }
    }
}

/// Every session that the sweeps of a stream emit is valid.
proof fn lemma_emitted_valid(table: GlobalTable, max_age: u32, lines: Seq<LogLine>)
    ensures
        forall|j: int|
            0 <= j < run(table, max_age, lines).1.len() ==> (#[trigger] run(
                table,
                max_age,
                lines,
            ).1[j]).valid(),
    decreases lines.len(),
{
    if lines.len() > 0 {
        let rest = lines.drop_last();
        let l = lines.last();
        lemma_emitted_valid(table, max_age, rest);
        lemma_run_valid(table, max_age, rest);
        let before = run(table, max_age, rest);
        let after = step(table, before.0, max_age, l);
        if takes_part(table, before.0, l) {
            let w1 = admitted(table, before.0, l);
            lemma_admitted_valid(table, before.0, l);
            lemma_evicted_members(w1.open, w1.indexed, Some(sweep_limit(l.time, max_age)));
            assert forall|j: int| 0 <= j < after.1.len() implies (#[trigger] after.1[j]).valid() by {
                assert(w1.open.contains_key(after.1[j].id()));
            }
        }
        let out = run(table, max_age, lines).1;
        assert forall|j: int| 0 <= j < out.len() implies (#[trigger] out[j]).valid() by {
            if j < before.1.len() {
                assert(out[j] == before.1[j]);
            } else {
                assert(out[j] == after.1[j - before.1.len()]);
            }
        }
    }
}

/// The times of the actions never fall, and none is later than `secs`
/// seconds after the start of the session.
pub open spec fn times_rise(s: SessionView, secs: int) -> bool {
    &&& forall|a: int, b: int|
        0 <= a <= b < s.access_times.len() ==> s.access_times[a] <= s.access_times[b]
    &&& forall|a: int|
        0 <= a < s.access_times.len() ==> #[trigger] s.access_times[a] <= clamp_u32(
            secs - s.start_time.secs,
        )
}

/// The records come in the order of their seconds.
pub open spec fn in_order(lines: Seq<LogLine>) -> bool {
    forall|i: int, j: int|
        0 <= i <= j < lines.len() ==> (#[trigger] lines[i]).time.secs <= (
        #[trigger] lines[j]).time.secs
}

/// While the records come in order, the times of the actions of every
/// session, open or emitted, never fall.
proof fn lemma_times_rise(table: GlobalTable, max_age: u32, lines: Seq<LogLine>)
    requires
        in_order(lines),
        lines.len() > 0,
    ensures
        forall|id: u64| #[trigger]
            run(table, max_age, lines).0.open.contains_key(id) ==> times_rise(
                run(table, max_age, lines).0.open[id],
                lines.last().time.secs as int,
            ),
        forall|j: int|
            0 <= j < run(table, max_age, lines).1.len() ==> times_rise(
                #[trigger] run(table, max_age, lines).1[j],
                lines.last().time.secs as int,
            ),
    decreases lines.len(),
{
    let rest = lines.drop_last();
    let l = lines.last();
    let now = l.time.secs as int;
    let before = run(table, max_age, rest);
    let after = step(table, before.0, max_age, l);
    lemma_run_valid(table, max_age, rest);
    if rest.len() > 0 {
        assert forall|i: int, j: int| 0 <= i <= j < rest.len() implies (
        #[trigger] rest[i]).time.secs <= (#[trigger] rest[j]).time.secs by {
            assert(rest[i] == lines[i] && rest[j] == lines[j]);
        }
        lemma_times_rise(table, max_age, rest);
        assert(rest.last() == lines[lines.len() - 2]);
        assert(lines[lines.len() - 1] == l);
        assert(rest.last().time.secs <= now);
    } else {
        assert(before.0.open =~= Map::<u64, SessionView>::empty());
    }
    let earlier = if rest.len() > 0 {
        rest.last().time.secs as int
    } else {
        now
    };
    assert forall|id: u64| #[trigger] before.0.open.contains_key(id) implies times_rise(
        before.0.open[id],
        now,
    ) by {
        assert(times_rise(before.0.open[id], earlier));
    }
    if takes_part(table, before.0, l) {
        let w1 = admitted(table, before.0, l);
        let id = session_id(l.ip, l.user_agent);
        lemma_admitted_valid(table, before.0, l);
        assert forall|x: u64| #[trigger] w1.open.contains_key(x) implies times_rise(
            w1.open[x],
            now,
        ) by {
            if x == id {
                let s0 = if before.0.open.contains_key(id) {
                    before.0.open[id]
                } else {
                    fresh(l)
                };
                assert(times_rise(s0, now));
                let s1 = w1.open[id];
                assert(s1 == absorbed(table, s0, l));
                assert forall|a: int, b: int|
                    0 <= a <= b < s1.access_times.len() implies s1.access_times[a]
                    <= s1.access_times[b] by {
                    if b < s0.access_times.len() {
                        assert(s1.access_times[a] == s0.access_times[a]);
                        assert(s1.access_times[b] == s0.access_times[b]);
                    } else if a < s0.access_times.len() {
                        assert(s1.access_times[a] == s0.access_times[a]);
                    }
                }
            } else {
                assert(before.0.open.contains_key(x));
            }
        }
        lemma_evicted_members(w1.open, w1.indexed, Some(sweep_limit(l.time, max_age)));
        assert forall|j: int| 0 <= j < after.1.len() implies times_rise(
            #[trigger] after.1[j],
            now,
        ) by {
            assert(w1.open.contains_key(after.1[j].id()));
        }
        assert forall|x: u64| #[trigger] after.0.open.contains_key(x) implies times_rise(
            after.0.open[x],
            now,
        ) by {
            assert(w1.open.contains_key(x));
        }
    }
    let out = run(table, max_age, lines).1;
    assert forall|j: int| 0 <= j < out.len() implies times_rise(#[trigger] out[j], now) by {
        if j < before.1.len() {
            assert(out[j] == before.1[j]);
            assert(times_rise(before.1[j], earlier));
        } else {
            assert(out[j] == after.1[j - before.1.len()]);
        }
    }
}

/// Where the records come in the order of their seconds, the times of the
/// actions of every session that the stream yields never fall.
pub proof fn law_times_rise(table: GlobalTable, max_age: u32, lines: Seq<LogLine>)
    requires
        in_order(lines),
    ensures
        forall|j: int, a: int, b: int|
            0 <= j < sessions_of(table, max_age, lines).len() && 0 <= a <= b < sessions_of(
                table,
                max_age,
                lines,
            )[j].access_times.len() ==> (#[trigger] sessions_of(
                table,
                max_age,
                lines,
            )[j].access_times[a]) <= (#[trigger] sessions_of(
                table,
                max_age,
                lines,
            )[j].access_times[b]),
{
    let all = sessions_of(table, max_age, lines);
    let end = run(table, max_age, lines);
    if lines.len() > 0 {
        lemma_times_rise(table, max_age, lines);
        lemma_run_valid(table, max_age, lines);
        lemma_evicted_members(end.0.open, end.0.open.dom(), None);
        let now = lines.last().time.secs as int;
        assert forall|j: int| 0 <= j < all.len() implies times_rise(#[trigger] all[j], now) by {
            if j >= end.1.len() {
                let s = flushed(end.0)[j - end.1.len()];
                assert(end.0.open.contains_key(s.id()));
            }
        }
        assert forall|j: int, a: int, b: int|
            0 <= j < all.len() && 0 <= a <= b < all[j].access_times.len() implies (
        #[trigger] all[j].access_times[a]) <= (#[trigger] all[j].access_times[b]) by {
            assert(times_rise(all[j], now));
        }
    } else {
        assert(end.0.open.dom() =~= Set::<u64>::empty());
        assert(forall|id: u64| !is_oldest(end.0.open, end.0.open.dom(), id));
        assert(all =~= Seq::<SessionView>::empty());
    }
}

/// A sweep emits the sessions that have rested, oldest first: every session
/// that the step of a record emits ended more than `max_age` seconds before
/// the record, the sessions come in the order of the eviction index, and no
/// session that stays in the index has rested that long.
pub proof fn law_sweep_emits_the_rested(table: GlobalTable, w: Window, max_age: u32, l: LogLine)
    requires
        w.valid(),
    ensures
        forall|j: int|
            0 <= j < step(table, w, max_age, l).1.len() ==> (#[trigger] step(
                table,
                w,
                max_age,
                l,
            ).1[j]).end_time.secs < l.time.secs - max_age,
        forall|i: int, j: int|
            0 <= i < j < step(table, w, max_age, l).1.len() ==> key_le(
                (#[trigger] step(table, w, max_age, l).1[i]).age_key(),
                (#[trigger] step(table, w, max_age, l).1[j]).age_key(),
            ),
        takes_part(table, w, l) ==> forall|id: u64| #[trigger]
            step(table, w, max_age, l).0.indexed.contains(id) ==> step(
                table,
                w,
                max_age,
                l,
            ).0.open[id].end_time.secs >= l.time.secs - max_age,
{
    if takes_part(table, w, l) {
        let w1 = admitted(table, w, l);
        lemma_admitted_valid(table, w, l);
        lemma_evicted_members(w1.open, w1.indexed, Some(sweep_limit(l.time, max_age)));
    }
}

/// Every session of the list is valid.
pub open spec fn all_valid(v: Seq<Session>) -> bool {
    forall|i: int| 0 <= i < v.len() ==> (#[trigger] v[i])@.valid()
}

/// Calls `BTreeSet::first`, which returns the minimum of the set, if the set
/// has any element. The elements are triples of integers, which std orders
/// component by component; `key_le` spells that order out.
#[verifier::external_body]
fn first_key(index: &BTreeSet<(i64, u32, u64)>) -> (r: Option<(i64, u32, u64)>)
    ensures
        match r {
            Some(k) => index@.contains(k) && forall|o: (i64, u32, u64)|
                index@.contains(o) ==> key_le(k, o),
            None => forall|o: (i64, u32, u64)| !index@.contains(o),
        },
{
    index.first().copied()
}

/// The sliding window over a stream of records: the open sessions, and the
/// index by which the oldest of them is found.
pub struct SessionTracker {
    sessions: HashMap<u64, Session>,
    /// The eviction index.
    ages: BTreeSet<(i64, u32, u64)>,
    /// All open sessions in the order of the eviction index.
    order: BTreeSet<(i64, u32, u64)>,
    max_age: u32,
}

impl View for SessionTracker {
    type V = Window;

    closed spec fn view(&self) -> Window {
        Window {
            open: Map::new(
                |id: u64| self.sessions@.contains_key(id),
                |id: u64| self.sessions@[id]@,
            ),
            indexed: Set::new(
                |id: u64|
                    self.sessions@.contains_key(id) && self.ages@.contains(
                        self.sessions@[id]@.age_key(),
                    ),
            ),
        }
    }
}

impl SessionTracker {
    /// Seconds that a session may rest before a sweep emits it.
    pub closed spec fn max_age(&self) -> u32 {
        self.max_age
    }

    /// The two indexes hold the keys of the sessions they stand for, and
    /// nothing else.
    pub closed spec fn indexes_agree(&self) -> bool {
        &&& forall|k: (i64, u32, u64)| #[trigger]
            self.ages@.contains(k) ==> self.sessions@.contains_key(k.2)
                && self.sessions@[k.2]@.age_key() == k
        &&& forall|k: (i64, u32, u64)| #[trigger]
            self.order@.contains(k) ==> self.sessions@.contains_key(k.2)
                && self.sessions@[k.2]@.age_key() == k
        &&& forall|id: u64| #[trigger]
            self.sessions@.contains_key(id) ==> self.order@.contains(
                self.sessions@[id]@.age_key(),
            )
    }

    /// The window is valid and the indexes agree with it.
    pub open spec fn wf(&self) -> bool {
        self@.valid() && self.indexes_agree()
    }

    /// A window with no open session.
    pub fn new(max_age: u32) -> (t: SessionTracker)
        ensures
            t.wf(),
            t@ == Window::empty(),
            t.max_age() == max_age,
    {
        let t = SessionTracker {
            sessions: HashMap::new(),
            ages: BTreeSet::new(),
            order: BTreeSet::new(),
            max_age,
        };
        proof {
            assert(t@.open =~= Map::<u64, SessionView>::empty());
            assert(t@.indexed =~= Set::<u64>::empty());
        }
        t
    }

    /// The key of the oldest indexed session, if that session ended before
    /// `limit`.
    fn next_due(&self, limit: i128) -> (r: Option<(i64, u32, u64)>)
        requires
            self.wf(),
        ensures
            match r {
                Some(k) => is_oldest(self@.open, self@.indexed, k.2) && self@.open[k.2].age_key()
                    == k && k.0 < limit && self.ages@.contains(k),
                None => evicted(self@.open, self@.indexed, Some(limit as int)) == Seq::<
                    SessionView,
                >::empty() && forall|id: u64| #[trigger]
                    self@.indexed.contains(id) ==> self@.open[id].end_time.secs >= limit,
            },
    {
        match first_key(&self.ages) {
            Some(k) => {
                proof {
                    assert(self@.indexed.contains(k.2));
                    assert forall|o: u64|
                        self@.indexed.contains(o) && #[trigger] self@.open.contains_key(
                            o,
                        ) implies key_le(self@.open[k.2].age_key(), self@.open[o].age_key()) by {
                        assert(self.ages@.contains(self.sessions@[o]@.age_key()));
                    }
                    lemma_evicted_unfold(self@.open, self@.indexed, Some(limit as int), k.2);
                }
                if (k.0 as i128) < limit {
                    Some(k)
                } else {
                    proof {
                        assert forall|id: u64| #[trigger]
                            self@.indexed.contains(id) implies self@.open[id].end_time.secs
                            >= limit by {
                            assert(self@.open.contains_key(id));
                            assert(key_le(
                                self@.open[k.2].age_key(),
                                self@.open[id].age_key(),
                            ));
                        }
                    }
                    None
                }
            },
            None => {
                proof {
                    assert forall|id: u64| !is_oldest(self@.open, self@.indexed, id) by {
                        if self@.indexed.contains(id) {
                            assert(self.ages@.contains(self.sessions@[id]@.age_key()));
                        }
                    }
                }
                None
            },
        }
    }

    /// Taking the oldest indexed session out of the tracker keeps it valid.
    proof fn lemma_removed(before: SessionTracker, after: SessionTracker, k: (i64, u32, u64))
        requires
            before.wf(),
            before.ages@.contains(k),
            after.ages@ == before.ages@.remove(k),
            after.order@ == before.order@.remove(k),
            after.sessions@ == before.sessions@.remove(k.2),
        ensures
            after.wf(),
            after@.open == before@.open.remove(k.2),
            after@.indexed == before@.indexed.remove(k.2),
    {
        assert(before.sessions@.contains_key(k.2) && before.sessions@[k.2]@.age_key() == k);
        assert(after@.open =~= before@.open.remove(k.2));
        assert forall|id: u64| #[trigger] after.sessions@.contains_key(id) implies id != k.2
            && before@.open.contains_key(id) && before.sessions@[id]@.age_key() != k by {
            assert(before@.open.contains_key(id));
            assert(before@.open[id].id() == id);
        }
        assert forall|id: u64| after@.indexed.contains(id) <==> before@.indexed.remove(
            k.2,
        ).contains(id) by {
            if before@.indexed.contains(id) && id != k.2 {
                assert(before@.open.contains_key(id));
                assert(after.sessions@.contains_key(id));
            }
        }
        assert(after@.indexed =~= before@.indexed.remove(k.2));
        assert forall|o: (i64, u32, u64)| #[trigger] after.ages@.contains(o) implies after.sessions@.contains_key(
            o.2,
        ) && after.sessions@[o.2]@.age_key() == o by {
            assert(before.ages@.contains(o));
        }
        assert forall|o: (i64, u32, u64)| #[trigger] after.order@.contains(o) implies after.sessions@.contains_key(
            o.2,
        ) && after.sessions@[o.2]@.age_key() == o by {
            assert(before.order@.contains(o));
        }
        assert forall|id: u64| #[trigger] after.sessions@.contains_key(id) implies after.order@.contains(
            after.sessions@[id]@.age_key(),
        ) by {
            assert(before.sessions@.contains_key(id));
        }
        assert forall|id: u64| #[trigger] after@.open.contains_key(id) implies after@.open[id].valid()
            && after@.open[id].id() == id by {
            assert(before@.open.contains_key(id));
        }
        assert forall|id: u64| #[trigger] after@.indexed.contains(id) implies after@.open.contains_key(
            id,
        ) by {}
    }

    /// The sweep for a record of time `now`: emits the indexed sessions that
    /// ended more than `max_age` seconds before `now`, oldest first.
    fn sweep_into(&mut self, now: Timestamp, out: &mut Vec<Session>)
        requires
            old(self).wf(),
            all_valid(old(out)@),
        ensures
            final(self).wf(),
            final(self).max_age() == old(self).max_age(),
            final(self)@ == swept(old(self)@, sweep_limit(now, old(self).max_age())),
            views(final(out)@) == views(old(out)@) + evicted(
                old(self)@.open,
                old(self)@.indexed,
                Some(sweep_limit(now, old(self).max_age())),
            ),
            all_valid(final(out)@),
    {
        let limit: i128 = now.secs as i128 - self.max_age as i128;
        let ghost w1 = self@;
        let ghost out0 = views(out@);
        let ghost lim = Some(limit as int);
        let mut due = self.next_due(limit);
        assert(views(out@) + evicted(self@.open, self@.indexed, lim) =~= out0 + evicted(
            w1.open,
            w1.indexed,
            lim,
        ));
        while due.is_some()
            invariant
                self.wf(),
                self.max_age() == old(self).max_age(),
                all_valid(out@),
                limit == sweep_limit(now, old(self).max_age()),
                lim == Some(limit as int),
                w1 == old(self)@,
                w1.valid(),
                out0 == views(old(out)@),
                views(out@) + evicted(self@.open, self@.indexed, lim) == out0 + evicted(
                    w1.open,
                    w1.indexed,
                    lim,
                ),
                forall|id: u64| #[trigger]
                    self@.open.contains_key(id) ==> w1.open.contains_key(id) && self@.open[id]
                        == w1.open[id],
                forall|id: u64|
                    #[trigger] w1.open.contains_key(id) && !self@.open.contains_key(id)
                        ==> w1.indexed.contains(id) && w1.open[id].end_time.secs < limit,
                forall|id: u64| #[trigger]
                    self@.indexed.contains(id) ==> w1.indexed.contains(id),
                forall|id: u64| #[trigger]
                    w1.indexed.contains(id) && self@.open.contains_key(id)
                        ==> self@.indexed.contains(id),
                match due {
                    Some(k) => is_oldest(self@.open, self@.indexed, k.2)
                        && self@.open[k.2].age_key() == k && k.0 < limit && self.ages@.contains(k),
                    None => evicted(self@.open, self@.indexed, lim) == Seq::<SessionView>::empty()
                        && forall|id: u64| #[trigger]
                        self@.indexed.contains(id) ==> self@.open[id].end_time.secs >= limit,
                },
            decreases self.sessions@.len(),
        {
            let k = due.unwrap();
            let ghost before = *self;
            let ghost out_before = out@;
            proof {
                lemma_evicted_unfold(before@.open, before@.indexed, lim, k.2);
                assert(before.sessions@.contains_key(k.2));
            }
            self.ages.remove(&k);
            self.order.remove(&k);
            let taken = self.sessions.remove(&k.2);
            proof {
                SessionTracker::lemma_removed(before, *self, k);
            }
            match taken {
                Some(s) => {
                    out.push(s);
                    proof {
                        assert(s@ == before@.open[k.2]);
                        assert(views(out@) =~= views(out_before) + seq![before@.open[k.2]]);
                        assert(views(out@) + evicted(self@.open, self@.indexed, lim) =~= views(
                            out_before,
                        ) + evicted(before@.open, before@.indexed, lim));
                        assert(before@.open.contains_key(k.2));
                        assert(all_valid(out@)) by {
                            assert forall|i: int| 0 <= i < out@.len() implies (#[trigger] out@[i])@.valid() by {
                                if i < out_before.len() {
                                    assert(out@[i] == out_before[i]);
                                }
                            }
                        }
                        assert forall|id: u64| #[trigger]
                            self@.open.contains_key(id) implies w1.open.contains_key(id)
                            && self@.open[id] == w1.open[id] by {
                            assert(before@.open.contains_key(id));
                        }
                        assert forall|id: u64|
                            #[trigger] w1.open.contains_key(id) && !self@.open.contains_key(
                                id,
                            ) implies w1.indexed.contains(id) && w1.open[id].end_time.secs
                            < limit by {
                            if id == k.2 {
                                assert(before@.indexed.contains(id));
                            } else {
                                assert(!before@.open.contains_key(id));
                            }
                        }
                        assert forall|id: u64| #[trigger]
                            self@.indexed.contains(id) implies w1.indexed.contains(id) by {
                            assert(before@.indexed.contains(id));
                        }
                        assert forall|id: u64| #[trigger]
                            w1.indexed.contains(id) && self@.open.contains_key(
                                id,
                            ) implies self@.indexed.contains(id) by {
                            assert(before@.open.contains_key(id));
                            assert(before@.indexed.contains(id));
                        }
                    }
                },
                None => {
                    assert(false);
                },
            }
            due = self.next_due(limit);
        }
        proof {
            let target = swept(w1, limit as int);
            assert forall|id: u64| self@.open.contains_key(id) <==> target.open.contains_key(
                id,
            ) by {
                if self@.open.contains_key(id) {
                    assert(w1.open.contains_key(id));
                    if w1.indexed.contains(id) {
                        assert(self@.indexed.contains(id));
                    }
                }
                if target.open.contains_key(id) {
                    assert(w1.open.contains_key(id));
                }
            }
            assert(self@.open =~= target.open);
            assert forall|id: u64| self@.indexed.contains(id) <==> target.indexed.contains(
                id,
            ) by {
                if target.indexed.contains(id) {
                    assert(w1.open.contains_key(id));
                }
                if self@.indexed.contains(id) {
                    assert(self@.open.contains_key(id));
                }
            }
            assert(self@.indexed =~= target.indexed);
        }
    }

    /// Putting a session back under its id, with its new key in the order
    /// and, unless the record was noise, in the eviction index.
    proof fn lemma_admitted(
        before: SessionTracker,
        after: SessionTracker,
        table: GlobalTable,
        l: LogLine,
        noise: bool,
    )
        requires
            before.wf(),
            takes_part(table, before@, l),
            ({
                let id = session_id(l.ip, l.user_agent);
                let s0 = if before@.open.contains_key(id) {
                    before@.open[id]
                } else {
                    fresh(l)
                };
                let s1 = absorbed(table, s0, l);
                &&& noise == is_noise(table, s0, l)
                &&& after.sessions@.contains_key(id)
                &&& after.sessions@[id]@ == s1
                &&& forall|o: u64|
                    o != id ==> (#[trigger] after.sessions@.contains_key(o)
                        <==> before.sessions@.contains_key(o))
                &&& forall|o: u64|
                    o != id && #[trigger] after.sessions@.contains_key(o) ==> after.sessions@[o]
                        == before.sessions@[o]
                &&& after.sessions@.dom().finite()
                &&& forall|k: (i64, u32, u64)|
                    k.2 != id ==> (#[trigger] after.ages@.contains(k) <==> before.ages@.contains(
                        k,
                    ))
                &&& forall|k: (i64, u32, u64)|
                    k.2 != id ==> (#[trigger] after.order@.contains(k)
                        <==> before.order@.contains(k))
                &&& forall|k: (i64, u32, u64)|
                    k.2 == id ==> (#[trigger] after.ages@.contains(k) <==> !noise && k
                        == s1.age_key())
                &&& forall|k: (i64, u32, u64)|
                    k.2 == id ==> (#[trigger] after.order@.contains(k) <==> k == s1.age_key())
            }),
        ensures
            after.wf(),
            after@ == admitted(table, before@, l),
    {
        let id = session_id(l.ip, l.user_agent);
        let w0 = before@;
        let w1 = admitted(table, w0, l);
        lemma_admitted_valid(table, w0, l);
        assert(w1.open[id].id() == id) by {
            if w0.open.contains_key(id) {
                assert(w0.open[id].id() == id);
            }
        }
        assert forall|o: u64| after@.open.contains_key(o) <==> w1.open.contains_key(o) by {
            if o != id {
                assert(after.sessions@.contains_key(o) <==> before.sessions@.contains_key(o));
            }
        }
        assert forall|o: u64| after@.open.contains_key(o) implies after@.open[o]
            == w1.open[o] by {
            if o != id {
                assert(after.sessions@.contains_key(o));
            }
        }
        assert(after@.open =~= w1.open);
        assert forall|o: u64| after@.indexed.contains(o) <==> w1.indexed.contains(o) by {
            if o != id {
                if after.sessions@.contains_key(o) {
                    assert(before.sessions@.contains_key(o));
                    assert(w0.open.contains_key(o));
                    assert(w0.open[o].id() == o);
                    let k = before.sessions@[o]@.age_key();
                    assert(k.2 == o);
                    assert(after.ages@.contains(k) <==> before.ages@.contains(k));
                }
                if w0.indexed.contains(o) {
                    assert(w0.open.contains_key(o));
                    assert(after.sessions@.contains_key(o) <==> before.sessions@.contains_key(o));
                }
            } else {
                let k = after.sessions@[id]@.age_key();
                assert(k.2 == id);
                assert(after.ages@.contains(k) <==> !noise);
            }
        }
        assert(after@.indexed =~= w1.indexed);
        assert(after@ == w1);
        assert forall|k: (i64, u32, u64)| #[trigger] after.ages@.contains(k) implies after.sessions@.contains_key(
            k.2,
        ) && after.sessions@[k.2]@.age_key() == k by {
            if k.2 != id {
                assert(before.ages@.contains(k));
                assert(after.sessions@.contains_key(k.2) <==> before.sessions@.contains_key(k.2));
            }
        }
        assert forall|k: (i64, u32, u64)| #[trigger] after.order@.contains(k) implies after.sessions@.contains_key(
            k.2,
        ) && after.sessions@[k.2]@.age_key() == k by {
            if k.2 != id {
                assert(before.order@.contains(k));
                assert(after.sessions@.contains_key(k.2) <==> before.sessions@.contains_key(k.2));
            }
        }
        assert forall|o: u64| #[trigger] after.sessions@.contains_key(o) implies after.order@.contains(
            after.sessions@[o]@.age_key(),
        ) by {
            if o != id {
                assert(before.sessions@.contains_key(o));
                assert(w0.open.contains_key(o));
                assert(w0.open[o].id() == o);
                let k = before.sessions@[o]@.age_key();
                assert(before.order@.contains(k));
                assert(after.order@.contains(k) <==> before.order@.contains(k));
            }
        }
    }

    /// Takes the record into the window and sweeps: the sessions that the
    /// sweep emits are appended to `out`.
    pub fn push_into(&mut self, table: &GlobalTable, l: &LogLine, out: &mut Vec<Session>)
        requires
            old(self).wf(),
            table.wf(),
            all_valid(old(out)@),
        ensures
            final(self).wf(),
            final(self).max_age() == old(self).max_age(),
            final(self)@ == step(*table, old(self)@, old(self).max_age(), *l).0,
            views(final(out)@) == views(old(out)@) + step(
                *table,
                old(self)@,
                old(self).max_age(),
                *l,
            ).1,
            all_valid(final(out)@),
    {
        let ghost before = *self;
        let ghost w0 = self@;
        if !(l.status_code >= 200 && l.status_code < 300) {
            assert(views(out@) + Seq::<SessionView>::empty() =~= views(out@));
            return ;
        }
        let meaningless = table.is_meaningless(l);
        let id = Session::compute_id(l.ip, l.user_agent);
        let taken = self.sessions.remove(&id);
        let mut s = match taken {
            Some(s) => {
                let key = (s.end_time.secs, s.end_time.nanos, id);
                self.ages.remove(&key);
                self.order.remove(&key);
                s
            },
            None => {
                if meaningless {
                    proof {
                        assert(self.sessions@ =~= before.sessions@);
                        assert(self@.open =~= w0.open);
                        assert(self@.indexed =~= w0.indexed);
                        assert(views(out@) + Seq::<SessionView>::empty() =~= views(out@));
                    }
                    return ;
                }
                Session {
                    ip: l.ip,
                    user_agent: l.user_agent,
                    referer: l.referer,
                    start_time: l.time,
                    end_time: l.time,
                    access_times: Vec::new(),
                    actions: Vec::new(),
                    total_requests: 0,
                    total_bytes: 0,
                }
            },
        };
        let ghost s0 = s@;
        proof {
            if w0.open.contains_key(id) {
                assert(s0 == w0.open[id]);
                assert(w0.open[id].id() == id);
            } else {
                assert(s0.access_times =~= Seq::<u32>::empty());
                assert(s0.actions =~= Seq::<u32>::empty());
                assert(s0 == fresh(*l));
            }
            assert(takes_part(*table, w0, *l));
        }
        let ghost mid = *self;
        proof {
            assert forall|k: (i64, u32, u64)| k.2 == id implies !(#[trigger] mid.ages@.contains(k))
                && !mid.order@.contains(k) by {
                if before.ages@.contains(k) || before.order@.contains(k) {
                    assert(before.sessions@.contains_key(k.2));
                }
            }
        }
        let elapsed = l.time.seconds_since(&s.start_time);
        let noise = meaningless || (table.is_probably_meaningless(l) && s.actions.len() > 0
            && l.time.is_within(&s.end_time, 10));
        s.total_requests = if s.total_requests < u32::MAX {
            s.total_requests + 1
        } else {
            u32::MAX
        };
        s.total_bytes = if l.size <= u64::MAX - s.total_bytes {
            s.total_bytes + l.size
        } else {
            u64::MAX
        };
        if !noise {
            s.access_times.push(elapsed);
            s.end_time = l.time;
            s.actions.push(l.path);
        }
        let key = (s.end_time.secs, s.end_time.nanos, id);
        let ghost s1 = s@;
        assert(s1 == absorbed(*table, s0, *l));
        self.order.insert(key);
        if !noise {
            self.ages.insert(key);
        }
        self.sessions.insert(id, s);
        proof {
            assert(key == s1.age_key());
            SessionTracker::lemma_admitted(before, *self, *table, *l, noise);
        }
        self.sweep_into(l.time, out);
    }


    /// Takes the record into the window and returns the sessions that its
    /// sweep emits.
    pub fn push(&mut self, table: &GlobalTable, l: &LogLine) -> (out: Vec<Session>)
        requires
            old(self).wf(),
            table.wf(),
        ensures
            final(self).wf(),
            final(self).max_age() == old(self).max_age(),
            final(self)@ == step(*table, old(self)@, old(self).max_age(), *l).0,
            views(out@) == step(*table, old(self)@, old(self).max_age(), *l).1,
            all_valid(out@),
    {
        let mut out: Vec<Session> = Vec::new();
        self.push_into(table, l, &mut out);
        assert(views(Seq::<Session>::empty()) + views(out@) =~= views(out@));
        out
    }

    /// The key that comes first among all open sessions.
    fn next_of_all(&self) -> (r: Option<(i64, u32, u64)>)
        requires
            self.wf(),
        ensures
            match r {
                Some(k) => is_oldest(self@.open, self@.open.dom(), k.2) && self@.open[k.2].age_key()
                    == k && self.order@.contains(k),
                None => flushed(self@) == Seq::<SessionView>::empty() && forall|id: u64|
                    !self.sessions@.contains_key(id),
            },
    {
        match first_key(&self.order) {
            Some(k) => {
                proof {
                    assert(self.sessions@.contains_key(k.2));
                    assert(self@.open.dom().contains(k.2));
                    assert forall|o: u64|
                        self@.open.dom().contains(o) && #[trigger] self@.open.contains_key(
                            o,
                        ) implies key_le(self@.open[k.2].age_key(), self@.open[o].age_key()) by {
                        assert(self.sessions@.contains_key(o));
                        assert(self.order@.contains(self.sessions@[o]@.age_key()));
                    }
                }
                Some(k)
            },
            None => {
                proof {
                    assert forall|id: u64| !self.sessions@.contains_key(id) by {
                        if self.sessions@.contains_key(id) {
                            assert(self.order@.contains(self.sessions@[id]@.age_key()));
                        }
                    }
                    assert forall|id: u64| !is_oldest(self@.open, self@.open.dom(), id) by {}
                }
                None
            },
        }
    }

    /// Emits every open session, in the order of the eviction index, and
    /// leaves the window empty.
    pub fn flush_into(&mut self, out: &mut Vec<Session>)
        requires
            old(self).wf(),
            all_valid(old(out)@),
        ensures
            final(self).wf(),
            final(self).max_age() == old(self).max_age(),
            final(self)@ == Window::empty(),
            views(final(out)@) == views(old(out)@) + flushed(old(self)@),
            all_valid(final(out)@),
    {
        let ghost w1 = self@;
        let ghost out0 = views(out@);
        let mut next = self.next_of_all();
        assert(views(out@) + flushed(self@) =~= out0 + flushed(w1));
        while next.is_some()
            invariant
                self.wf(),
                self.max_age() == old(self).max_age(),
                all_valid(out@),
                views(out@) + flushed(self@) == out0 + flushed(w1),
                match next {
                    Some(k) => is_oldest(self@.open, self@.open.dom(), k.2)
                        && self@.open[k.2].age_key() == k && self.order@.contains(k),
                    None => flushed(self@) == Seq::<SessionView>::empty() && forall|id: u64|
                        !self.sessions@.contains_key(id),
                },
            decreases self.sessions@.len(),
        {
            let k = next.unwrap();
            let ghost before = *self;
            let ghost out_before = out@;
            proof {
                lemma_evicted_unfold(before@.open, before@.open.dom(), None, k.2);
                assert(before.sessions@.contains_key(k.2));
            }
            self.ages.remove(&k);
            self.order.remove(&k);
            let taken = self.sessions.remove(&k.2);
            proof {
                SessionTracker::lemma_flushed_one(before, *self, k);
            }
            match taken {
                Some(s) => {
                    out.push(s);
                    proof {
                        assert(s@ == before@.open[k.2]);
                        assert(before@.open.contains_key(k.2));
                        assert(views(out@) =~= views(out_before) + seq![before@.open[k.2]]);
                        assert(self@.open.dom() =~= before@.open.dom().remove(k.2));
                        assert(views(out@) + flushed(self@) =~= views(out_before) + flushed(
                            before@,
                        ));
                        assert forall|i: int| 0 <= i < out@.len() implies (#[trigger] out@[i])@.valid() by {
                            if i < out_before.len() {
                                assert(out@[i] == out_before[i]);
                            }
                        }
                    }
                },
                None => {
                    assert(false);
                },
            }
            next = self.next_of_all();
        }
        self.ages.clear();
        proof {
            assert(self@.open =~= Map::<u64, SessionView>::empty());
            assert(self@.indexed =~= Set::<u64>::empty());
            assert(views(out@) + Seq::<SessionView>::empty() =~= views(out@));
        }
    }

    /// Taking a session out of the tracker, whether it was indexed or not,
    /// keeps the tracker valid.
    proof fn lemma_flushed_one(before: SessionTracker, after: SessionTracker, k: (i64, u32, u64))
        requires
            before.wf(),
            before.sessions@.contains_key(k.2),
            before.sessions@[k.2]@.age_key() == k,
            after.ages@ == before.ages@.remove(k),
            after.order@ == before.order@.remove(k),
            after.sessions@ == before.sessions@.remove(k.2),
        ensures
            after.wf(),
            after@.open == before@.open.remove(k.2),
    {
        assert(after@.open =~= before@.open.remove(k.2));
        assert forall|id: u64| #[trigger] after.sessions@.contains_key(id) implies id != k.2
            && before@.open.contains_key(id) && before.sessions@[id]@.age_key() != k by {
            assert(before@.open.contains_key(id));
            assert(before@.open[id].id() == id);
        }
        assert forall|id: u64| after@.indexed.contains(id) <==> before@.indexed.remove(
            k.2,
        ).contains(id) by {
            if before@.indexed.contains(id) && id != k.2 {
                assert(before@.open.contains_key(id));
                assert(after.sessions@.contains_key(id));
            }
        }
        assert(after@.indexed =~= before@.indexed.remove(k.2));
        assert forall|o: (i64, u32, u64)| #[trigger] after.ages@.contains(o) implies after.sessions@.contains_key(
            o.2,
        ) && after.sessions@[o.2]@.age_key() == o by {
            assert(before.ages@.contains(o));
        }
        assert forall|o: (i64, u32, u64)| #[trigger] after.order@.contains(o) implies after.sessions@.contains_key(
            o.2,
        ) && after.sessions@[o.2]@.age_key() == o by {
            assert(before.order@.contains(o));
        }
        assert forall|id: u64| #[trigger] after.sessions@.contains_key(id) implies after.order@.contains(
            after.sessions@[id]@.age_key(),
        ) by {
            assert(before.sessions@.contains_key(id));
        }
        assert forall|id: u64| #[trigger] after@.open.contains_key(id) implies after@.open[id].valid()
            && after@.open[id].id() == id by {
            assert(before@.open.contains_key(id));
        }
    }

    /// Emits every open session, in the order of the eviction index, and
    /// leaves the window empty.
    pub fn flush(&mut self) -> (out: Vec<Session>)
        requires
            old(self).wf(),
        ensures
            final(self).wf(),
            final(self).max_age() == old(self).max_age(),
            final(self)@ == Window::empty(),
            views(out@) == flushed(old(self)@),
            all_valid(out@),
    {
        let mut out: Vec<Session> = Vec::new();
        self.flush_into(&mut out);
        assert(views(Seq::<Session>::empty()) + views(out@) =~= views(out@));
        out
    }
}

/// Reconstructs the sessions of a stream of records, which should come in
/// the order of their times. A session is emitted when a later record shows
/// that it has rested for more than `max_age` seconds, and at the end of
/// the stream.
pub fn get_sessions(table: &GlobalTable, loglines: &Vec<LogLine>, max_age: u32) -> (out: Vec<
    Session,
>)
    requires
        table.wf(),
    ensures
        views(out@) == sessions_of(*table, max_age, loglines@),
        all_valid(out@),
{
    let mut tracker = SessionTracker::new(max_age);
    let mut out: Vec<Session> = Vec::new();
    let mut i: usize = 0;
    assert(loglines@.subrange(0, 0) =~= Seq::<LogLine>::empty());
    assert(views(out@) =~= Seq::<SessionView>::empty());
    while i < loglines.len()
        invariant
            table.wf(),
            tracker.wf(),
            tracker.max_age() == max_age,
            i <= loglines@.len(),
            all_valid(out@),
            tracker@ == run(*table, max_age, loglines@.subrange(0, i as int)).0,
            views(out@) == run(*table, max_age, loglines@.subrange(0, i as int)).1,
        decreases loglines@.len() - i,
    {
        proof {
            let next = loglines@.subrange(0, i + 1);
            assert(next.drop_last() =~= loglines@.subrange(0, i as int));
            assert(next.last() == loglines@[i as int]);
        }
        tracker.push_into(table, &loglines[i], &mut out);
        i += 1;
    }
    assert(loglines@.subrange(0, i as int) =~= loglines@);
    tracker.flush_into(&mut out);
    out
}

} // verus!
