//! The operations on a store of sessions and symbols: taking log lines in,
//! clearing the store, and the queries on it.

use vstd::prelude::*;
use vstd::string::StringSliceAdditionalSpecFns;
use vstd::utf8::encode_utf8;
use crate::graph::{
    TransitionGraph, calc_graph, graph_paths, graph_sessions, is_graph, rest_path_id,
};
use crate::parser::{
    LogLine, LogParser, handwritten_outcome, parse_line_handwritten1,
};
use crate::session::{Session, SessionView, all_valid, get_sessions, sessions_of, views};
use crate::stats::{
    Dimension, InverseMapping, StatsOptions, UsageStats, all_in_range, calc_stats, events, is_stats,
    make_inverse_mapping,
};
use crate::symbols::{
    GlobalTable, Symbols, is_bot, is_bot_user_agent, room_for, seed_content_types, seed_paths,
};
use crate::text::{bytes_contain, contains};

verus! {

/// The line names a bot outright: `Bot/` or `bot/` occurs in it. Such a
/// line is not read.
pub open spec fn names_bot(line: Seq<u8>) -> bool {
    contains(line, "Bot/".spec_bytes()) || contains(line, "bot/".spec_bytes())
}

/// The bytes of each line of a list.
pub open spec fn line_bytes(lines: Seq<String>) -> Seq<Seq<u8>> {
    Seq::new(lines.len(), |i: int| encode_utf8(lines[i]@))
}

/// The records of the lines and the symbol table after them. A line is
/// passed over if it names a bot, if the table has no room for its symbols,
/// or if it gives no record.
pub open spec fn read_lines(format: Seq<char>, strip: bool, t: Symbols, lines: Seq<Seq<u8>>) -> (
    Seq<LogLine>,
    Symbols,
)
    decreases lines.len(),
{
    if lines.len() == 0 {
        (Seq::empty(), t)
    } else {
        let before = read_lines(format, strip, t, lines.drop_last());
        let line = lines.last();
        if names_bot(line) || !room_for(before.1, line.len()) {
            before
        } else {
            let outcome = handwritten_outcome(format, strip, before.1, line);
            match outcome.0 {
                Ok(l) => (before.0.push(l), outcome.1),
                Err(_) => (before.0, outcome.1),
            }
        }
    }
}

/// The user agent of the session names a bot.
pub open spec fn by_bot(table: GlobalTable, s: SessionView) -> bool {
    table.user_agent.name_of(s.user_agent) matches Some(name) && is_bot(name)
}

/// The sessions that no bot made, in their order.
pub open spec fn without_bots(table: GlobalTable, sessions: Seq<SessionView>) -> Seq<SessionView>
    decreases sessions.len(),
{
    if sessions.len() == 0 {
        Seq::empty()
    } else if by_bot(table, sessions.last()) {
        without_bots(table, sessions.drop_last())
    } else {
        without_bots(table, sessions.drop_last()).push(sessions.last())
    }
}

/// The number of actions of all sessions.
pub open spec fn action_total(sessions: Seq<SessionView>) -> nat
    decreases sessions.len(),
{
    if sessions.len() == 0 {
        0
    } else {
        action_total(sessions.drop_last()) + sessions.last().actions.len()
    }
}

/// Leaving sessions out leaves no more sessions than there were.
pub proof fn lemma_without_bots_len(table: GlobalTable, sessions: Seq<SessionView>)
    ensures
        without_bots(table, sessions).len() <= sessions.len(),
    decreases sessions.len(),
{
    if sessions.len() > 0 {
        lemma_without_bots_len(table, sessions.drop_last());
    }
}

/// The actions of two lists of sessions add up.
pub proof fn lemma_action_total_append(a: Seq<SessionView>, b: Seq<SessionView>)
    ensures
        action_total(a + b) == action_total(a) + action_total(b),
    decreases b.len(),
{
    if b.len() == 0 {
        assert(a + b =~= a);
    } else {
        lemma_action_total_append(a, b.drop_last());
        assert((a + b).drop_last() =~= a + b.drop_last());
    }
}

/// What taking lines in has done.
#[derive(Clone, Copy, Debug)]
pub struct LoadSummary {
    /// Lines that gave a record.
    pub parsed_lines: usize,
    /// Sessions reconstructed from the records.
    pub sessions_found: usize,
    /// Sessions that no bot made; they are added to the store.
    pub sessions_kept: usize,
    /// Actions of the sessions that were added, stopping at `usize::MAX`.
    pub actions: usize,
}

/// The records of the lines.
pub fn read_records(parser: &LogParser, table: &mut GlobalTable, lines: &Vec<String>) -> (records:
    Vec<LogLine>)
    requires
        old(table).wf(),
    ensures
        final(table).wf(),
        records@ == read_lines(
            parser.datetime_format(),
            parser.ignore_query_string(),
            old(table)@,
            line_bytes(lines@),
        ).0,
        final(table)@ == read_lines(
            parser.datetime_format(),
            parser.ignore_query_string(),
            old(table)@,
            line_bytes(lines@),
        ).1,
{
    let mut records: Vec<LogLine> = Vec::new();
    let ghost all = line_bytes(lines@);
    let ghost format = parser.datetime_format();
    let ghost strip = parser.ignore_query_string();
    let mut i: usize = 0;
    assert(all.subrange(0, 0) =~= Seq::<Seq<u8>>::empty());
    while i < lines.len()
        invariant
            i <= lines@.len(),
            all == line_bytes(lines@),
            format == parser.datetime_format(),
            strip == parser.ignore_query_string(),
            table.wf(),
            records@ == read_lines(format, strip, old(table)@, all.subrange(0, i as int)).0,
            table@ == read_lines(format, strip, old(table)@, all.subrange(0, i as int)).1,
        decreases lines@.len() - i,
    {
        let line = lines[i].as_str();
        let bytes = line.as_bytes();
        proof {
            let next = all.subrange(0, i + 1);
            assert(next.drop_last() =~= all.subrange(0, i as int));
            assert(next.last() == line.spec_bytes());
        }
        let skipped = bytes_contain(bytes, "Bot/".as_bytes()) || bytes_contain(
            bytes,
            "bot/".as_bytes(),
        );
        if !skipped && table.can_take(bytes.len()) {
            match parse_line_handwritten1(parser, table, line) {
                Ok(l) => {
                    records.push(l);
                },
                Err(_) => {},
            }
        }
        i += 1;
    }
    assert(all.subrange(0, lines@.len() as int) =~= all);
    records
}

/// Adds to `sessions` those of `found` that no bot made, and says how many
/// they are and how many actions they have.
fn keep_visitors(table: &GlobalTable, found: Vec<Session>, sessions: &mut Vec<Session>) -> (r: (
    usize,
    usize,
))
    requires
        table.wf(),
        all_valid(found@),
        all_valid(old(sessions)@),
    ensures
        views(final(sessions)@) == views(old(sessions)@) + without_bots(*table, views(found@)),
        all_valid(final(sessions)@),
        r.0 == without_bots(*table, views(found@)).len(),
        r.1 == if action_total(without_bots(*table, views(found@))) > usize::MAX {
            usize::MAX as nat
        } else {
            action_total(without_bots(*table, views(found@)))
        },
{
    let ghost all = views(found@);
    let ghost start = views(sessions@);
    let total = found.len();
    let mut kept: usize = 0;
    let mut actions: usize = 0;
    let mut found = found;
    let mut taken: Vec<Session> = Vec::new();
    // take the sessions from the back, then put them in their order
    while found.len() > 0
        invariant
            all_valid(found@),
            all_valid(taken@),
            found@.len() + taken@.len() == all.len(),
            forall|k: int| 0 <= k < found@.len() ==> (#[trigger] found@[k])@ == all[k],
            forall|k: int|
                0 <= k < taken@.len() ==> (#[trigger] taken@[k])@ == all[all.len() - 1 - k],
        decreases found@.len(),
    {
        let ghost before = taken@;
        match found.pop() {
            Some(s) => {
                taken.push(s);
                proof {
                    assert forall|k: int| 0 <= k < taken@.len() implies (#[trigger] taken@[k])@.valid() by {
                        if k < before.len() {
                            assert(taken@[k] == before[k]);
                        }
                    }
                }
            },
            None => {},
        }
    }
    assert(all.subrange(0, 0) =~= Seq::<SessionView>::empty());
    assert(views(sessions@) + Seq::<SessionView>::empty() =~= views(sessions@));
    let ghost n = all.len();
    while taken.len() > 0
        invariant
            table.wf(),
            all_valid(taken@),
            all_valid(sessions@),
            n == all.len(),
            n == total,
            taken@.len() <= n,
            forall|k: int| 0 <= k < taken@.len() ==> (#[trigger] taken@[k])@ == all[n - 1 - k],
            views(sessions@) == start + without_bots(
                *table,
                all.subrange(0, n - taken@.len()),
            ),
            kept == without_bots(*table, all.subrange(0, n - taken@.len())).len(),
            actions == if action_total(without_bots(*table, all.subrange(0, n - taken@.len())))
                > usize::MAX {
                usize::MAX as nat
            } else {
                action_total(without_bots(*table, all.subrange(0, n - taken@.len())))
            },
        decreases taken@.len(),
    {
        let ghost done = all.subrange(0, n - taken@.len());
        let ghost next = all.subrange(0, n - taken@.len() + 1);
        let ghost before = sessions@;
        match taken.pop() {
            Some(s) => {
                proof {
                    assert(next.drop_last() =~= done);
                    assert(next.last() == s@);
                    assert(s@.valid());
                    lemma_without_bots_len(*table, done);
                    assert(without_bots(*table, done).push(s@).drop_last() =~= without_bots(
                        *table,
                        done,
                    ));
                }
                let bot = match table.user_agent.resolve(s.user_agent) {
                    Some(name) => is_bot_user_agent(name),
                    None => false,
                };
                if !bot {
                    let count = s.actions.len();
                    actions = if count > usize::MAX - actions {
                        usize::MAX
                    } else {
                        actions + count
                    };
                    sessions.push(s);
                    kept = kept + 1;
                    proof {
                        assert(views(sessions@) =~= views(before).push(s@));
                        assert(start + without_bots(*table, done).push(s@) =~= (start
                            + without_bots(*table, done)).push(s@));
                        assert forall|k: int| 0 <= k < sessions@.len() implies (
                        #[trigger] sessions@[k])@.valid() by {
                            if k < before.len() {
                                assert(sessions@[k] == before[k]);
                            }
                        }
                    }
                }
            },
            None => {},
        }
    }
    assert(all.subrange(0, n as int) =~= all);
    (kept, actions)
}

/// Takes log lines in: reads each line that names no bot by the grammar of
/// the canonical line, reconstructs the sessions of the records, and adds
/// to the store the sessions whose user agent names no bot. Lines that give
/// no record are passed over.
pub fn load_logs(
    parser: &LogParser,
    table: &mut GlobalTable,
    sessions: &mut Vec<Session>,
    lines: &Vec<String>,
    max_age: u32,
) -> (summary: LoadSummary)
    requires
        old(table).wf(),
        all_valid(old(sessions)@),
    ensures
        final(table).wf(),
        all_valid(final(sessions)@),
        final(table)@ == read_lines(
            parser.datetime_format(),
            parser.ignore_query_string(),
            old(table)@,
            line_bytes(lines@),
        ).1,
        views(final(sessions)@) == views(old(sessions)@) + without_bots(
            *final(table),
            sessions_of(
                *final(table),
                max_age,
                read_lines(
                    parser.datetime_format(),
                    parser.ignore_query_string(),
                    old(table)@,
                    line_bytes(lines@),
                ).0,
            ),
        ),
        summary.parsed_lines == read_lines(
            parser.datetime_format(),
            parser.ignore_query_string(),
            old(table)@,
            line_bytes(lines@),
        ).0.len(),
        summary.sessions_found == sessions_of(
            *final(table),
            max_age,
            read_lines(
                parser.datetime_format(),
                parser.ignore_query_string(),
                old(table)@,
                line_bytes(lines@),
            ).0,
        ).len(),
        summary.sessions_kept == final(sessions)@.len() - old(sessions)@.len(),
        summary.actions == if action_total(views(final(sessions)@)) - action_total(
            views(old(sessions)@),
        ) > usize::MAX {
            usize::MAX as int
        } else {
            action_total(views(final(sessions)@)) - action_total(views(old(sessions)@))
        },
{
    let records = read_records(parser, table, lines);
    let found = get_sessions(table, &records, max_age);
    let sessions_found = found.len();
    let ghost before = views(sessions@);
    let (sessions_kept, actions) = keep_visitors(table, found, sessions);
    proof {
        assert(views(sessions@).len() == before.len() + without_bots(*table, views(found@)).len());
        lemma_action_total_append(before, without_bots(*table, views(found@)));
    }
    LoadSummary { parsed_lines: records.len(), sessions_found, sessions_kept, actions }
}

/// Empties the store: no session is left, and the symbol table is as new.
pub fn clear_sessions(sessions: &mut Vec<Session>, table: &mut GlobalTable)
    ensures
        final(sessions)@.len() == 0,
        final(table).wf(),
        final(table).path.names() == seed_paths(),
        final(table).content_type.names() == seed_content_types(),
        final(table).ip.names().len() == 0,
        final(table).http_version.names().len() == 0,
        final(table).method.names().len() == 0,
        final(table).domain.names().len() == 0,
        final(table).referer.names().len() == 0,
        final(table).user_agent.names().len() == 0,
        final(table).compression_type.names().len() == 0,
{
    sessions.clear();
    *table = GlobalTable::new();
}

/// How often each path was visited in each interval of time, over all
/// actions of all sessions.
pub fn usage_stats_by_path(sessions: &Vec<Session>, table: &GlobalTable, opt: &StatsOptions) -> (st:
    UsageStats)
    requires
        table.wf(),
        opt.resolution_sec > 0,
        all_valid(sessions@),
        all_in_range(sessions@),
    ensures
        exists|describe: InverseMapping|
            (forall|id: u32|
                #[trigger] describe.label(id) == match table.path.name_of(id) {
                    Some(b) => b,
                    None => "".spec_bytes(),
                }) && is_stats(
                st,
                events(views(sessions@), true, Dimension::Path, opt.resolution_sec),
                describe,
                opt.threshold,
                opt.max_paths,
                true,
            ),
{
    let describe = make_inverse_mapping(&table.path, "");
    calc_stats(sessions, opt, true, Dimension::Path, &describe)
}

/// How many sessions of each user agent began in each interval of time.
pub fn usage_stats_by_ua(sessions: &Vec<Session>, table: &GlobalTable, opt: &StatsOptions) -> (st:
    UsageStats)
    requires
        table.wf(),
        opt.resolution_sec > 0,
        all_valid(sessions@),
        all_in_range(sessions@),
    ensures
        exists|describe: InverseMapping|
            (forall|id: u32|
                #[trigger] describe.label(id) == match table.user_agent.name_of(id) {
                    Some(b) => b,
                    None => "".spec_bytes(),
                }) && is_stats(
                st,
                events(views(sessions@), false, Dimension::UserAgent, opt.resolution_sec),
                describe,
                opt.threshold,
                opt.max_paths,
                false,
            ),
{
    let describe = make_inverse_mapping(&table.user_agent, "");
    calc_stats(sessions, opt, false, Dimension::UserAgent, &describe)
}

/// How many sessions that came from each referer began in each interval of
/// time.
pub fn usage_stats_by_referer(sessions: &Vec<Session>, table: &GlobalTable, opt: &StatsOptions) -> (st:
    UsageStats)
    requires
        table.wf(),
        opt.resolution_sec > 0,
        all_valid(sessions@),
        all_in_range(sessions@),
    ensures
        exists|describe: InverseMapping|
            (forall|id: u32|
                #[trigger] describe.label(id) == match table.referer.name_of(id) {
                    Some(b) => b,
                    None => "".spec_bytes(),
                }) && is_stats(
                st,
                events(views(sessions@), false, Dimension::Referer, opt.resolution_sec),
                describe,
                opt.threshold,
                opt.max_paths,
                false,
            ),
{
    let describe = make_inverse_mapping(&table.referer, "");
    calc_stats(sessions, opt, false, Dimension::Referer, &describe)
}

/// The transition graph of the sessions of the store.
pub fn usage_transfer_graph(
    sessions: &Vec<Session>,
    table: &GlobalTable,
    opt: &StatsOptions,
    graph_length: usize,
    must_contain: &str,
    must_start_with: &str,
) -> (g: TransitionGraph)
    requires
        table.wf(),
        all_valid(sessions@),
    ensures
        is_graph(
            g,
            table.path.names(),
            graph_paths(
                *table,
                views(sessions@),
                *opt,
                must_contain.spec_bytes(),
                must_start_with.spec_bytes(),
            ),
            rest_path_id(*table),
            graph_sessions(
                *table,
                views(sessions@),
                *opt,
                must_contain.spec_bytes(),
                must_start_with.spec_bytes(),
            ),
            graph_length as nat,
        ),
{
    calc_graph(sessions, table, graph_length, opt, must_contain, must_start_with)
}

} // verus!
