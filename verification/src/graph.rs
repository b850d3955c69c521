//! The page-transition graph: sessions are cut to the part that matters,
//! rare paths are folded into the directories above them until the set of
//! paths settles, and the steps of the sessions are counted layer by layer.

use vstd::prelude::*;
use vstd::string::StringSliceAdditionalSpecFns;
use vstd::utf8::is_ascii_chars_encode_utf8;
use std::collections::HashMap;
use vstd::utf8::encode_utf8;
use crate::rank::{
    capped, lemma_sorted, lemma_top_of, listed, select_top, sort_ascending, sorted, top_of,
};
use crate::session::{Session, SessionView, all_valid, views};
use crate::stats::StatsOptions;
use crate::symbols::{
    GlobalTable, depth, has_parent, lemma_parent_shorter, normalize, parent, trimmed_len,
};
use crate::text::{
    SLASH, bytes_contain, bytes_end_with, bytes_start_with, contains, count_byte, ends_with,
    lemma_last_index_of, rfind_byte, slice_str, starts_with,
};

verus! {

/// The action at `i` repeats the action before it.
pub open spec fn is_repeat(actions: Seq<u32>, i: int) -> bool {
    i > 0 && actions[i] == actions[i - 1]
}

/// The first `n` actions and their times without the actions that repeat
/// the action before them.
pub open spec fn deduped(actions: Seq<u32>, times: Seq<u32>, n: nat) -> (Seq<u32>, Seq<u32>)
    decreases n,
{
    if n == 0 {
        (Seq::empty(), Seq::empty())
    } else {
        let before = deduped(actions, times, (n - 1) as nat);
        if is_repeat(actions, n - 1) {
            before
        } else {
            (before.0.push(actions[n - 1]), before.1.push(times[n - 1]))
        }
    }
}

/// The actions, each replaced by what `table` gives for it, if anything.
pub open spec fn substituted(actions: Seq<u32>, table: Map<u32, u32>) -> Seq<u32> {
    Seq::new(
        actions.len(),
        |i: int|
            if table.contains_key(actions[i]) {
                table[actions[i]]
            } else {
                actions[i]
            },
    )
}

/// How many of the actions `table` replaces.
pub open spec fn substitutions(actions: Seq<u32>, table: Map<u32, u32>) -> nat
    decreases actions.len(),
{
    if actions.len() == 0 {
        0
    } else {
        substitutions(actions.drop_last(), table) + if table.contains_key(actions.last()) {
            1nat
        } else {
            0nat
        }
    }
}

/// The session with other actions and times.
pub open spec fn with_actions(s: SessionView, actions: Seq<u32>, times: Seq<u32>) -> SessionView {
    SessionView { actions: actions, access_times: times, ..s }
}

/// Collapses each run of equal actions into its first action, which keeps
/// its time.
pub fn dedupe_actions(s: &mut Session)
    requires
        old(s)@.actions.len() == old(s)@.access_times.len(),
    ensures
        final(s)@ == with_actions(
            old(s)@,
            deduped(old(s)@.actions, old(s)@.access_times, old(s)@.actions.len()).0,
            deduped(old(s)@.actions, old(s)@.access_times, old(s)@.actions.len()).1,
        ),
        final(s)@.actions.len() == final(s)@.access_times.len(),
        final(s)@.actions.len() <= old(s)@.actions.len(),
        old(s)@.actions.len() > 0 ==> final(s)@.actions.len() > 0,
{
    let mut actions: Vec<u32> = Vec::new();
    let mut times: Vec<u32> = Vec::new();
    let n = s.actions.len();
    let mut i: usize = 0;
    while i < n
        invariant
            i <= n,
            n == s.actions@.len(),
            n == s.access_times@.len(),
            *s == *old(s),
            actions@ == deduped(s.actions@, s.access_times@, i as nat).0,
            times@ == deduped(s.actions@, s.access_times@, i as nat).1,
            actions@.len() == times@.len(),
            actions@.len() <= i,
            i > 0 ==> actions@.len() > 0,
        decreases n - i,
    {
        if i == 0 || s.actions[i] != s.actions[i - 1] {
            actions.push(s.actions[i]);
            times.push(s.access_times[i]);
        }
        i += 1;
    }
    s.actions = actions;
    s.access_times = times;
}

/// Replaces each action that `table` has an entry for, and says how many
/// it replaced.
pub fn replace_actions(s: &mut Session, table: &HashMap<u32, u32>) -> (replacements: usize)
    ensures
        final(s)@ == with_actions(
            old(s)@,
            substituted(old(s)@.actions, table@),
            old(s)@.access_times,
        ),
        replacements == substitutions(old(s)@.actions, table@),
{
    let mut replacements: usize = 0;
    let n = s.actions.len();
    let mut i: usize = 0;
    let ghost before = s@.actions;
    assert(before.subrange(0, 0) =~= Seq::<u32>::empty());
    while i < n
        invariant
            i <= n,
            n == before.len(),
            before == old(s)@.actions,
            s@ == with_actions(old(s)@, s@.actions, old(s)@.access_times),
            s@.actions.len() == n,
            forall|k: int| 0 <= k < i ==> s@.actions[k] == substituted(before, table@)[k],
            forall|k: int| i <= k < n ==> s@.actions[k] == before[k],
            replacements == substitutions(before.subrange(0, i as int), table@),
            replacements <= i,
        decreases n - i,
    {
        proof {
            let next = before.subrange(0, i + 1);
            assert(next.drop_last() =~= before.subrange(0, i as int));
            assert(next.last() == before[i as int]);
        }
        let x = s.actions[i];
        match table.get(&x) {
            Some(r) => {
                let r = *r;
                s.actions[i] = r;
                replacements += 1;
            },
            None => {},
        }
        i += 1;
    }
    proof {
        assert(before.subrange(0, n as int) =~= before);
        assert(s@.actions =~= substituted(before, table@));
    }
    replacements
}

/// The path that stands for the group of `p`, among the paths `names` whose
/// ids are their positions: for a directory index the directory itself, if
/// it is known; else for a script `js`, for a style sheet `css`, and for a
/// private or administrative page `admin`.
pub open spec fn coarse_target(names: Seq<Seq<u8>>, p: Seq<u8>) -> Option<u32> {
    let index = "/index.html".spec_bytes();
    if ends_with(p, index) && names.contains(p.subrange(0, p.len() - index.len())) {
        Some(names.index_of(p.subrange(0, p.len() - index.len())) as u32)
    } else if ends_with(p, ".js".spec_bytes()) {
        Some(names.index_of("js".spec_bytes()) as u32)
    } else if ends_with(p, ".css".spec_bytes()) {
        Some(names.index_of("css".spec_bytes()) as u32)
    } else if starts_with(p, "/priv".spec_bytes()) || starts_with(p, "/admin".spec_bytes()) {
        Some(names.index_of("admin".spec_bytes()) as u32)
    } else {
        None
    }
}

/// The coarsening of all known paths: each path that stands in a group, to
/// the path that stands for the group.
pub open spec fn coarse_map(names: Seq<Seq<u8>>) -> Map<u32, u32> {
    Map::new(
        |id: u32| id < names.len() && coarse_target(names, names[id as int]) is Some,
        |id: u32| coarse_target(names, names[id as int])->0,
    )
}

/// The table that sends each known path to the path that stands for its
/// group. It depends on the symbol table alone.
pub fn get_global_replacement_table(table: &GlobalTable) -> (t: HashMap<u32, u32>)
    requires
        table.wf(),
    ensures
        t@ == coarse_map(table.path.names()),
{
    let mut t: HashMap<u32, u32> = HashMap::new();
    let ghost names = table.path.names();
    proof {
        table.path.lemma_positional("admin".spec_bytes());
        table.path.lemma_positional("css".spec_bytes());
        table.path.lemma_positional("js".spec_bytes());
        reveal_strlit("/index.html");
        is_ascii_chars_encode_utf8("/index.html"@);
    }
    let admin = match table.path.get("admin") {
        Some(id) => id,
        None => 0,
    };
    let css = match table.path.get("css") {
        Some(id) => id,
        None => 0,
    };
    let js = match table.path.get("js") {
        Some(id) => id,
        None => 0,
    };
    let index = "/index.html".as_bytes();
    let n = table.path.len();
    let mut pos: usize = 0;
    while pos < n
        invariant
            table.wf(),
            names == table.path.names(),
            n == names.len(),
            pos <= n,
            admin == names.index_of("admin".spec_bytes()),
            css == names.index_of("css".spec_bytes()),
            js == names.index_of("js".spec_bytes()),
            index@ == "/index.html".spec_bytes(),
            index@.len() > 0,
            index@[0] == SLASH,
            forall|id: u32| #[trigger]
                t@.contains_key(id) <==> id < pos && coarse_target(names, names[id as int])
                    is Some,
            forall|id: u32| #[trigger]
                t@.contains_key(id) ==> t@[id] == coarse_target(names, names[id as int])->0,
        decreases n - pos,
    {
        let name = table.path.name_at(pos);
        let p = name.as_bytes();
        let id = table.path.id_of_position(pos);
        let mut target: Option<u32> = None;
        if bytes_start_with(p, "/priv".as_bytes()) || bytes_start_with(p, "/admin".as_bytes()) {
            target = Some(admin);
        }
        if bytes_end_with(p, ".css".as_bytes()) {
            target = Some(css);
        }
        if bytes_end_with(p, ".js".as_bytes()) {
            target = Some(js);
        }
        if bytes_end_with(p, index) {
            let cut = p.len() - index.len();
            assert(p@.subrange(cut as int, p@.len() as int)[0] == p@[cut as int]);
            let directory = slice_str(name, 0, cut);
            proof {
                if names.contains(directory.spec_bytes()) {
                    table.path.lemma_positional(directory.spec_bytes());
                }
            }
            match table.path.get(directory) {
                Some(d) => {
                    target = Some(d);
                },
                None => {},
            }
        }
        assert(target == coarse_target(names, names[pos as int]));
        match target {
            Some(x) => {
                t.insert(id, x);
            },
            None => {},
        }
        pos += 1;
    }
    assert(t@ =~= coarse_map(names));
    t
}


/// The actions of each session of a list.
pub open spec fn actions_of(sessions: Seq<Session>) -> Seq<Seq<u32>> {
    Seq::new(sessions.len(), |j: int| sessions[j]@.actions)
}

/// How often `id` occurs among the actions.
pub open spec fn occurrences(actions: Seq<u32>, id: u32) -> nat
    decreases actions.len(),
{
    if actions.len() == 0 {
        0
    } else {
        occurrences(actions.drop_last(), id) + if actions.last() == id {
            1nat
        } else {
            0nat
        }
    }
}

/// How often the path `id` occurs among the actions of all sessions.
pub open spec fn usage(acts: Seq<Seq<u32>>, id: u32) -> nat
    decreases acts.len(),
{
    if acts.len() == 0 {
        0
    } else {
        usage(acts.drop_last(), id) + occurrences(acts.last(), id)
    }
}

/// Each of the first `n` paths with its usage, which stops at `u32::MAX`.
pub open spec fn usage_candidates(acts: Seq<Seq<u32>>, n: nat) -> Seq<(u32, u32)> {
    Seq::new(n, |id: int| (id as u32, capped(usage(acts, id as u32))))
}

/// The paths that keep their own node in the graph, most used first: those
/// used at least `threshold` times, and no more than `max_paths` of them.
pub open spec fn whitelist(acts: Seq<Seq<u32>>, n: nat, threshold: u32, max_paths: u32) -> Seq<
    (u32, u32),
> {
    top_of(usage_candidates(acts, n), threshold, max_paths)
}

/// The usage of each of the first `n` paths, stopping at `u32::MAX`.
fn count_usage(sessions: &Vec<Session>, n: usize) -> (counts: Vec<u32>)
    requires
        n <= u32::MAX,
    ensures
        counts@.len() == n,
        forall|id: int|
            0 <= id < n ==> counts@[id] == capped(usage(actions_of(sessions@), id as u32)),
{
    let mut counts: Vec<u32> = Vec::new();
    let mut k: usize = 0;
    while k < n
        invariant
            k <= n,
            counts@.len() == k,
            forall|id: int| 0 <= id < k ==> counts@[id] == 0,
        decreases n - k,
    {
        counts.push(0);
        k += 1;
    }
    let ghost acts = actions_of(sessions@);
    let mut j: usize = 0;
    assert(acts.subrange(0, 0) =~= Seq::<Seq<u32>>::empty());
    while j < sessions.len()
        invariant
            n <= u32::MAX,
            j <= sessions@.len(),
            acts == actions_of(sessions@),
            counts@.len() == n,
            forall|id: int|
                0 <= id < n ==> counts@[id] == capped(
                    usage(acts.subrange(0, j as int), id as u32),
                ),
        decreases sessions@.len() - j,
    {
        let actions = &sessions[j].actions;
        let ghost done = acts.subrange(0, j as int);
        let mut i: usize = 0;
        assert(actions@.subrange(0, 0) =~= Seq::<u32>::empty());
        while i < actions.len()
            invariant
                n <= u32::MAX,
                i <= actions@.len(),
                counts@.len() == n,
                forall|id: int|
                    0 <= id < n ==> counts@[id] == capped(
                        usage(done, id as u32) + occurrences(
                            actions@.subrange(0, i as int),
                            id as u32,
                        ),
                    ),
            decreases actions@.len() - i,
        {
            proof {
                let next = actions@.subrange(0, i + 1);
                assert(next.drop_last() =~= actions@.subrange(0, i as int));
                assert(next.last() == actions@[i as int]);
            }
            let a = actions[i] as usize;
            if a < n && counts[a] < u32::MAX {
                counts[a] = counts[a] + 1;
            }
            i += 1;
        }
        proof {
            assert(actions@.subrange(0, actions@.len() as int) =~= actions@);
            let next = acts.subrange(0, j + 1);
            assert(next.drop_last() =~= done);
            assert(next.last() == actions@);
        }
        j += 1;
    }
    assert(acts.subrange(0, sessions@.len() as int) =~= acts);
    counts
}

/// The most used paths among the first `n`, each with its usage: those used
/// at least `threshold` times, most used first, at most `max_paths` of them.
pub fn get_usage_table_sum(sessions: &Vec<Session>, n: usize, threshold: u32, max_paths: u32) -> (top:
    Vec<(u32, u32)>)
    requires
        n <= u32::MAX,
    ensures
        top@ == whitelist(actions_of(sessions@), n as nat, threshold, max_paths),
{
    let counts = count_usage(sessions, n);
    let top = rank_counts(&counts, threshold, max_paths);
    assert(usage_candidates(actions_of(sessions@), n as nat) =~= Seq::new(
        n as nat,
        |id: int| (id as u32, counts@[id]),
    ));
    top
}

/// The ranking of the positions of `counts` by their counts.
fn rank_counts(counts: &Vec<u32>, threshold: u32, max: u32) -> (top: Vec<(u32, u32)>)
    requires
        counts@.len() <= u32::MAX,
    ensures
        top@ == top_of(
            Seq::new(counts@.len(), |id: int| (id as u32, counts@[id])),
            threshold,
            max,
        ),
{
    let mut cands: Vec<(u32, u32)> = Vec::new();
    let mut k: usize = 0;
    while k < counts.len()
        invariant
            k <= counts@.len(),
            counts@.len() <= u32::MAX,
            cands@.len() == k,
            forall|id: int| 0 <= id < k ==> cands@[id] == (id as u32, counts@[id]),
        decreases counts@.len() - k,
    {
        cands.push((k as u32, counts[k]));
        k += 1;
    }
    assert(cands@ =~= Seq::new(counts@.len(), |id: int| (id as u32, counts@[id])));
    select_top(&cands, threshold, max)
}

/// The id of the directory above the path `id`, where the path has one and
/// the directory is known.
pub open spec fn parent_id(names: Seq<Seq<u8>>, id: int) -> Option<u32> {
    if has_parent(names[id]) && names.contains(parent(names[id])) {
        Some(names.index_of(parent(names[id])) as u32)
    } else {
        None
    }
}

/// The number of slashes of each known path.
fn path_depths(table: &GlobalTable) -> (depths: Vec<usize>)
    requires
        table.wf(),
    ensures
        depths@.len() == table.path.names().len(),
        forall|id: int| 0 <= id < depths@.len() ==> depths@[id] == depth(table.path.names()[id]),
{
    let mut depths: Vec<usize> = Vec::new();
    let n = table.path.len();
    let mut pos: usize = 0;
    while pos < n
        invariant
            pos <= n,
            n == table.path.names().len(),
            depths@.len() == pos,
            forall|id: int| 0 <= id < pos ==> depths@[id] == depth(table.path.names()[id]),
        decreases n - pos,
    {
        depths.push(count_byte(table.path.name_at(pos).as_bytes(), SLASH));
        pos += 1;
    }
    depths
}

/// For each known path the id of the directory above it, if it has one.
fn path_parents(table: &GlobalTable) -> (parents: Vec<Option<u32>>)
    requires
        table.wf(),
    ensures
        parents@.len() == table.path.names().len(),
        forall|id: int|
            0 <= id < parents@.len() ==> parents@[id] == parent_id(table.path.names(), id),
{
    let mut parents: Vec<Option<u32>> = Vec::new();
    let n = table.path.len();
    let ghost names = table.path.names();
    let mut pos: usize = 0;
    while pos < n
        invariant
            table.wf(),
            names == table.path.names(),
            pos <= n,
            n == names.len(),
            parents@.len() == pos,
            forall|id: int| 0 <= id < pos ==> parents@[id] == parent_id(names, id),
        decreases n - pos,
    {
        let name = table.path.name_at(pos);
        let bytes = name.as_bytes();
        let above = match rfind_byte(bytes, SLASH) {
            Some(last) => {
                if last > 0 {
                    proof {
                        lemma_last_index_of(bytes@, SLASH);
                    }
                    let cut = trimmed_len(bytes, last);
                    let directory = slice_str(name, 0, cut);
                    proof {
                        assert(directory.spec_bytes() == parent(bytes@));
                        if names.contains(directory.spec_bytes()) {
                            table.path.lemma_positional(directory.spec_bytes());
                        }
                    }
                    table.path.get(directory)
                } else {
                    None
                }
            },
            None => None,
        };
        parents.push(above);
        pos += 1;
    }
    parents
}


/// The path `id` is used by some session and has no node of its own.
pub open spec fn is_loose(acts: Seq<Seq<u32>>, top: Seq<(u32, u32)>, n: nat, id: int) -> bool {
    0 <= id < n && usage(acts, id as u32) > 0 && !listed(top, id as u32)
}

/// The greatest number of slashes among the loose paths below `upto`, or 0
/// where there is none.
pub open spec fn deepest_loose(
    names: Seq<Seq<u8>>,
    acts: Seq<Seq<u32>>,
    top: Seq<(u32, u32)>,
    upto: nat,
) -> nat
    decreases upto,
{
    if upto == 0 {
        0
    } else {
        let below = deepest_loose(names, acts, top, (upto - 1) as nat);
        if is_loose(acts, top, names.len(), upto - 1) && depth(names[upto - 1]) > below {
            depth(names[upto - 1])
        } else {
            below
        }
    }
}

/// What one round of the reduction puts in the place of the path `id`: the
/// directory above it, if the path is loose, is among the deepest of the
/// loose paths, and has more than one slash.
pub open spec fn replacement(
    names: Seq<Seq<u8>>,
    acts: Seq<Seq<u32>>,
    top: Seq<(u32, u32)>,
    id: int,
) -> Option<u32> {
    if is_loose(acts, top, names.len(), id) && depth(names[id]) >= deepest_loose(
        names,
        acts,
        top,
        names.len(),
    ) && depth(names[id]) > 1 {
        parent_id(names, id)
    } else {
        None
    }
}

/// The replacements of one round as a table.
pub open spec fn replacement_map(
    names: Seq<Seq<u8>>,
    acts: Seq<Seq<u32>>,
    top: Seq<(u32, u32)>,
) -> Map<u32, u32> {
    Map::new(
        |id: u32| replacement(names, acts, top, id as int) is Some,
        |id: u32| replacement(names, acts, top, id as int)->0,
    )
}

/// The actions of all sessions after the replacements of `table`.
pub open spec fn reduce_step(acts: Seq<Seq<u32>>, table: Map<u32, u32>) -> Seq<Seq<u32>> {
    Seq::new(acts.len(), |j: int| substituted(acts[j], table))
}

/// How many actions of all sessions `table` replaces.
pub open spec fn total_substitutions(acts: Seq<Seq<u32>>, table: Map<u32, u32>) -> nat
    decreases acts.len(),
{
    if acts.len() == 0 {
        0
    } else {
        total_substitutions(acts.drop_last(), table) + substitutions(acts.last(), table)
    }
}

/// The reduction: in each round the most used paths are given their nodes
/// and the deepest of the other paths are replaced by their directories,
/// until a round replaces nothing or `rounds` rounds are done. The result is
/// the actions after the last round and the most used paths of that round.
pub open spec fn reduced(
    names: Seq<Seq<u8>>,
    acts: Seq<Seq<u32>>,
    threshold: u32,
    max_paths: u32,
    rounds: nat,
) -> (Seq<Seq<u32>>, Seq<(u32, u32)>)
    decreases rounds,
{
    let top = whitelist(acts, names.len(), threshold, max_paths);
    let table = replacement_map(names, acts, top);
    let next = reduce_step(acts, table);
    if rounds <= 1 || total_substitutions(acts, table) == 0 {
        (next, top)
    } else {
        reduced(names, next, threshold, max_paths, (rounds - 1) as nat)
    }
}

/// The number of rounds after which the reduction stops at the latest.
pub const MAX_ROUNDS: usize = 1000;

/// Every entry of the ranking names one of the first `n` paths.
pub proof fn lemma_whitelist_ids(acts: Seq<Seq<u32>>, n: nat, threshold: u32, max_paths: u32)
    requires
        n <= u32::MAX,
    ensures
        whitelist(acts, n, threshold, max_paths).len() <= max_paths,
        forall|i: int|
            0 <= i < whitelist(acts, n, threshold, max_paths).len() ==> (#[trigger] whitelist(
                acts,
                n,
                threshold,
                max_paths,
            )[i]).0 < n,
{
    let cands = usage_candidates(acts, n);
    let top = whitelist(acts, n, threshold, max_paths);
    lemma_top_of(cands, threshold, max_paths);
    assert forall|i: int| 0 <= i < top.len() implies (#[trigger] top[i]).0 < n by {
        assert(cands.contains(top[i]));
        let k = choose|k: int| 0 <= k < cands.len() && cands[k] == top[i];
    }
}

/// For each of the first `n` paths, whether it is in the ranking.
fn mark_listed(top: &Vec<(u32, u32)>, n: usize) -> (marks: Vec<bool>)
    requires
        n <= u32::MAX,
        forall|i: int| 0 <= i < top@.len() ==> (#[trigger] top@[i]).0 < n,
    ensures
        marks@.len() == n,
        forall|id: int| 0 <= id < n ==> marks@[id] == listed(top@, id as u32),
{
    let mut marks: Vec<bool> = Vec::new();
    let mut k: usize = 0;
    while k < n
        invariant
            k <= n,
            marks@.len() == k,
            forall|id: int| 0 <= id < k ==> !marks@[id],
        decreases n - k,
    {
        marks.push(false);
        k += 1;
    }
    let mut i: usize = 0;
    while i < top.len()
        invariant
            i <= top@.len(),
            marks@.len() == n,
            forall|i: int| 0 <= i < top@.len() ==> (#[trigger] top@[i]).0 < n,
            forall|id: int|
                0 <= id < n ==> (marks@[id] <==> exists|k: int|
                    0 <= k < i && (#[trigger] top@[k]).0 == id),
        decreases top@.len() - i,
    {
        let id = top[i].0 as usize;
        let ghost before = marks@;
        marks[id] = true;
        proof {
            assert forall|x: int| 0 <= x < n implies (marks@[x] <==> exists|k: int|
                0 <= k < i + 1 && (#[trigger] top@[k]).0 == x) by {
                if x == id {
                    assert(top@[i as int].0 == x);
                } else {
                    if marks@[x] {
                        let k = choose|k: int| 0 <= k < i && (#[trigger] top@[k]).0 == x;
                        assert(0 <= k < i + 1 && top@[k].0 == x);
                    }
                    if exists|k: int| 0 <= k < i + 1 && (#[trigger] top@[k]).0 == x {
                        let k = choose|k: int| 0 <= k < i + 1 && (#[trigger] top@[k]).0 == x;
                        assert(k < i);
                    }
                }
            }
        }
        i += 1;
    }
    proof {
        assert forall|id: int| 0 <= id < n implies marks@[id] == listed(top@, id as u32) by {
            if marks@[id] {
                let k = choose|k: int| 0 <= k < top@.len() && (#[trigger] top@[k]).0 == id;
                assert(top@[k].0 == id as u32);
            }
            if listed(top@, id as u32) {
                let k = choose|k: int| 0 <= k < top@.len() && (#[trigger] top@[k]).0 == id as u32;
                assert(top@[k].0 == id);
            }
        }
    }
    marks
}

/// The table of one round of the reduction.
fn round_table(
    counts: &Vec<u32>,
    marks: &Vec<bool>,
    depths: &Vec<usize>,
    parents: &Vec<Option<u32>>,
    Ghost(names): Ghost<Seq<Seq<u8>>>,
    Ghost(acts): Ghost<Seq<Seq<u32>>>,
    Ghost(top): Ghost<Seq<(u32, u32)>>,
) -> (t: HashMap<u32, u32>)
    requires
        names.len() <= u32::MAX,
        counts@.len() == names.len(),
        marks@.len() == names.len(),
        depths@.len() == names.len(),
        parents@.len() == names.len(),
        forall|id: int| 0 <= id < names.len() ==> counts@[id] == capped(usage(acts, id as u32)),
        forall|id: int| 0 <= id < names.len() ==> marks@[id] == listed(top, id as u32),
        forall|id: int| 0 <= id < names.len() ==> depths@[id] == depth(names[id]),
        forall|id: int| 0 <= id < names.len() ==> parents@[id] == parent_id(names, id),
    ensures
        t@ == replacement_map(names, acts, top),
{
    let n = counts.len();
    let mut deepest: usize = 0;
    let mut id: usize = 0;
    while id < n
        invariant
            id <= n,
            n == names.len(),
            counts@.len() == n,
            marks@.len() == n,
            depths@.len() == n,
            forall|id: int| 0 <= id < n ==> counts@[id] == capped(usage(acts, id as u32)),
            forall|id: int| 0 <= id < n ==> marks@[id] == listed(top, id as u32),
            forall|id: int| 0 <= id < n ==> depths@[id] == depth(names[id]),
            deepest == deepest_loose(names, acts, top, id as nat),
        decreases n - id,
    {
        if counts[id] > 0 && !marks[id] && depths[id] > deepest {
            deepest = depths[id];
        }
        id += 1;
    }
    let mut t: HashMap<u32, u32> = HashMap::new();
    let mut id: usize = 0;
    while id < n
        invariant
            id <= n,
            n == names.len(),
            n <= u32::MAX,
            counts@.len() == n,
            marks@.len() == n,
            depths@.len() == n,
            parents@.len() == n,
            forall|id: int| 0 <= id < n ==> counts@[id] == capped(usage(acts, id as u32)),
            forall|id: int| 0 <= id < n ==> marks@[id] == listed(top, id as u32),
            forall|id: int| 0 <= id < n ==> depths@[id] == depth(names[id]),
            forall|id: int| 0 <= id < n ==> parents@[id] == parent_id(names, id),
            deepest == deepest_loose(names, acts, top, n as nat),
            forall|x: u32| #[trigger]
                t@.contains_key(x) <==> x < id && replacement(names, acts, top, x as int) is Some,
            forall|x: u32| #[trigger]
                t@.contains_key(x) ==> t@[x] == replacement(names, acts, top, x as int)->0,
        decreases n - id,
    {
        if counts[id] > 0 && !marks[id] && depths[id] >= deepest && depths[id] > 1 {
            match parents[id] {
                Some(p) => {
                    t.insert(id as u32, p);
                },
                None => {},
            }
        }
        id += 1;
    }
    assert(t@ =~= replacement_map(names, acts, top));
    t
}

/// Applies `table` to the actions of every session, and says whether any
/// action was replaced.
fn replace_all(sessions: &mut Vec<Session>, table: &HashMap<u32, u32>) -> (changed: bool)
    ensures
        final(sessions)@.len() == old(sessions)@.len(),
        forall|j: int|
            0 <= j < old(sessions)@.len() ==> (#[trigger] final(sessions)@[j])@ == with_actions(
                old(sessions)@[j]@,
                substituted(old(sessions)@[j]@.actions, table@),
                old(sessions)@[j]@.access_times,
            ),
        actions_of(final(sessions)@) == reduce_step(actions_of(old(sessions)@), table@),
        changed == (total_substitutions(actions_of(old(sessions)@), table@) > 0),
{
    let mut changed = false;
    let ghost acts = actions_of(sessions@);
    let mut j: usize = 0;
    assert(acts.subrange(0, 0) =~= Seq::<Seq<u32>>::empty());
    while j < sessions.len()
        invariant
            j <= sessions@.len(),
            sessions@.len() == old(sessions)@.len(),
            acts == actions_of(old(sessions)@),
            forall|k: int|
                0 <= k < j ==> (#[trigger] sessions@[k])@ == with_actions(
                    old(sessions)@[k]@,
                    substituted(old(sessions)@[k]@.actions, table@),
                    old(sessions)@[k]@.access_times,
                ),
            forall|k: int| j <= k < sessions@.len() ==> sessions@[k] == old(sessions)@[k],
            changed == (total_substitutions(acts.subrange(0, j as int), table@) > 0),
        decreases sessions@.len() - j,
    {
        proof {
            let next = acts.subrange(0, j + 1);
            assert(next.drop_last() =~= acts.subrange(0, j as int));
            assert(next.last() == acts[j as int]);
        }
        let replaced = replace_actions(&mut sessions[j], table);
        if replaced > 0 {
            changed = true;
        }
        j += 1;
    }
    proof {
        assert(acts.subrange(0, sessions@.len() as int) =~= acts);
        assert(actions_of(sessions@) =~= reduce_step(acts, table@));
    }
    changed
}

/// The sessions differ from `given` in their actions at most, and each
/// has as many actions as before.
pub open spec fn same_but_actions(sessions: Seq<Session>, given: Seq<Session>) -> bool {
    &&& sessions.len() == given.len()
    &&& forall|j: int|
        0 <= j < sessions.len() ==> (#[trigger] sessions[j])@ == with_actions(
            given[j]@,
            sessions[j]@.actions,
            given[j]@.access_times,
        ) && sessions[j]@.actions.len() == given[j]@.actions.len()
}

/// Folds rare paths into the directories above them, round by round, and
/// returns the sessions with the paths that are left and the most used
/// paths of the last round, each by its id and with its usage.
pub fn reduce_paths(sessions: Vec<Session>, table: &GlobalTable, threshold: u32, max_paths: u32) -> (r:
    (Vec<Session>, Vec<(u32, u32)>))
    requires
        table.wf(),
    ensures
        same_but_actions(r.0@, sessions@),
        actions_of(r.0@) == reduced(
            table.path.names(),
            actions_of(sessions@),
            threshold,
            max_paths,
            MAX_ROUNDS as nat,
        ).0,
        r.1@ == reduced(
            table.path.names(),
            actions_of(sessions@),
            threshold,
            max_paths,
            MAX_ROUNDS as nat,
        ).1,
        r.1@.len() <= max_paths,
        forall|i: int| 0 <= i < r.1@.len() ==> (#[trigger] r.1@[i]).0 < table.path.names().len(),
{
    let ghost names = table.path.names();
    let ghost given = sessions@;
    let mut current = sessions;
    let n = table.path.len();
    let depths = path_depths(table);
    let parents = path_parents(table);
    let mut round: usize = 0;
    while round < MAX_ROUNDS
        invariant
            table.wf(),
            given == sessions@,
            names == table.path.names(),
            n == names.len(),
            n <= u32::MAX,
            round < MAX_ROUNDS,
            depths@.len() == n,
            parents@.len() == n,
            forall|id: int| 0 <= id < n ==> depths@[id] == depth(names[id]),
            forall|id: int| 0 <= id < n ==> parents@[id] == parent_id(names, id),
            same_but_actions(current@, given),
            reduced(names, actions_of(given), threshold, max_paths, MAX_ROUNDS as nat)
                == reduced(
                names,
                actions_of(current@),
                threshold,
                max_paths,
                (MAX_ROUNDS - round) as nat,
            ),
        decreases MAX_ROUNDS - round,
    {
        let ghost acts = actions_of(current@);
        let ghost before = current@;
        let counts = count_usage(&current, n);
        let top = rank_counts(&counts, threshold, max_paths);
        proof {
            assert(usage_candidates(acts, n as nat) =~= Seq::new(
                n as nat,
                |id: int| (id as u32, counts@[id]),
            ));
            lemma_whitelist_ids(acts, n as nat, threshold, max_paths);
        }
        let marks = mark_listed(&top, n);
        let t = round_table(&counts, &marks, &depths, &parents, Ghost(names), Ghost(acts), Ghost(top@));
        let changed = replace_all(&mut current, &t);
        proof {
            assert forall|j: int| 0 <= j < current@.len() implies (#[trigger] current@[j])@
                == with_actions(given[j]@, current@[j]@.actions, given[j]@.access_times)
                && current@[j]@.actions.len() == given[j]@.actions.len() by {
                assert(before[j]@ == with_actions(
                    given[j]@,
                    before[j]@.actions,
                    given[j]@.access_times,
                ));
            }
        }
        if !changed || round == MAX_ROUNDS - 1 {
            return (current, top);
        }
        round += 1;
    }
    (current, Vec::new())
}


/// The ids of the known paths in which `needle` occurs.
pub open spec fn paths_containing(names: Seq<Seq<u8>>, needle: Seq<u8>) -> Set<u32> {
    Set::new(|id: u32| id < names.len() && contains(names[id as int], needle))
}

/// The index of the first action that is in `marked`, or the number of
/// actions where none is.
pub open spec fn first_marked(actions: Seq<u32>, marked: Set<u32>) -> int
    decreases actions.len(),
{
    if actions.len() == 0 || marked.contains(actions[0]) {
        0
    } else {
        1 + first_marked(actions.drop_first(), marked)
    }
}

/// The first marked action is determined by what precedes it.
pub proof fn lemma_first_marked(actions: Seq<u32>, marked: Set<u32>, i: int)
    requires
        0 <= i <= actions.len(),
        forall|k: int| 0 <= k < i ==> !marked.contains(actions[k]),
        i < actions.len() ==> marked.contains(actions[i]),
    ensures
        first_marked(actions, marked) == i,
    decreases actions.len(),
{
    if actions.len() == 0 || marked.contains(actions[0]) {
        if i > 0 {
            assert(!marked.contains(actions[0]));
        }
    } else {
        let rest = actions.drop_first();
        assert forall|k: int| 0 <= k < i - 1 implies !marked.contains(rest[k]) by {
            assert(rest[k] == actions[k + 1]);
        }
        lemma_first_marked(rest, marked, i - 1);
    }
}

/// The session as it enters the graph: cut to begin at its first action in
/// `starts`, runs of equal actions collapsed, and each path replaced by the
/// path that stands for its group.
pub open spec fn prepared(s: SessionView, names: Seq<Seq<u8>>, starts: Set<u32>) -> SessionView {
    let from = first_marked(s.actions, starts);
    let actions = s.actions.skip(from);
    let times = s.access_times.skip(from);
    let kept = deduped(actions, times, actions.len());
    with_actions(s, substituted(kept.0, coarse_map(names)), kept.1)
}

/// The session enters the graph: it has an action in `starts` and, once
/// prepared, an action in `wanted`.
pub open spec fn is_selected(
    s: SessionView,
    names: Seq<Seq<u8>>,
    starts: Set<u32>,
    wanted: Set<u32>,
) -> bool {
    &&& first_marked(s.actions, starts) < s.actions.len()
    &&& exists|i: int|
        0 <= i < prepared(s, names, starts).actions.len() && wanted.contains(
            #[trigger] prepared(s, names, starts).actions[i],
        )
}

/// The sessions that enter the graph, prepared, in their order.
pub open spec fn selected(
    sessions: Seq<SessionView>,
    names: Seq<Seq<u8>>,
    starts: Set<u32>,
    wanted: Set<u32>,
) -> Seq<SessionView>
    decreases sessions.len(),
{
    if sessions.len() == 0 {
        Seq::empty()
    } else if is_selected(sessions.last(), names, starts, wanted) {
        selected(sessions.drop_last(), names, starts, wanted).push(
            prepared(sessions.last(), names, starts),
        )
    } else {
        selected(sessions.drop_last(), names, starts, wanted)
    }
}

/// The ids below the length of `marks` that `marks` holds true for.
pub open spec fn marked_ids(marks: Seq<bool>) -> Set<u32> {
    Set::new(|id: u32| id < marks.len() && marks[id as int])
}

/// For each known path, whether `needle` occurs in it.
fn paths_with(table: &GlobalTable, needle: &str) -> (marks: Vec<bool>)
    requires
        table.wf(),
    ensures
        marks@.len() == table.path.names().len(),
        marked_ids(marks@) == paths_containing(table.path.names(), needle.spec_bytes()),
{
    let mut marks: Vec<bool> = Vec::new();
    let n = table.path.len();
    let pattern = needle.as_bytes();
    let mut pos: usize = 0;
    while pos < n
        invariant
            pos <= n,
            n == table.path.names().len(),
            pattern@ == needle.spec_bytes(),
            marks@.len() == pos,
            forall|id: int|
                0 <= id < pos ==> marks@[id] == contains(table.path.names()[id], pattern@),
        decreases n - pos,
    {
        marks.push(bytes_contain(table.path.name_at(pos).as_bytes(), pattern));
        pos += 1;
    }
    assert(marked_ids(marks@) =~= paths_containing(table.path.names(), needle.spec_bytes()));
    marks
}

/// Whether `id` is marked.
fn is_marked(marks: &Vec<bool>, id: u32) -> (r: bool)
    ensures
        r == marked_ids(marks@).contains(id),
{
    (id as usize) < marks.len() && marks[id as usize]
}

/// The session prepared for the graph, if it has an action in `starts`.
fn prepare_session(s: &Session, starts: &Vec<bool>, coarse: &HashMap<u32, u32>, Ghost(names): Ghost<
    Seq<Seq<u8>>,
>) -> (r: Option<Session>)
    requires
        s@.actions.len() == s@.access_times.len(),
        coarse@ == coarse_map(names),
    ensures
        r is Some <==> first_marked(s@.actions, marked_ids(starts@)) < s@.actions.len(),
        r matches Some(p) ==> p@ == prepared(s@, names, marked_ids(starts@)),
        r matches Some(p) ==> p@.actions.len() == p@.access_times.len() && p@.actions.len() > 0,
{
    let n = s.actions.len();
    let mut from: usize = 0;
    while from < n && !is_marked(starts, s.actions[from])
        invariant
            from <= n,
            n == s@.actions.len(),
            forall|k: int| 0 <= k < from ==> !marked_ids(starts@).contains(s@.actions[k]),
        decreases n - from,
    {
        from += 1;
    }
    proof {
        lemma_first_marked(s@.actions, marked_ids(starts@), from as int);
    }
    if from == n {
        return None;
    }
    let mut actions: Vec<u32> = Vec::new();
    let mut times: Vec<u32> = Vec::new();
    let mut i: usize = from;
    while i < n
        invariant
            from <= i <= n,
            n == s@.actions.len(),
            n == s@.access_times.len(),
            actions@ == s@.actions.subrange(from as int, i as int),
            times@ == s@.access_times.subrange(from as int, i as int),
        decreases n - i,
    {
        actions.push(s.actions[i]);
        times.push(s.access_times[i]);
        proof {
            assert(actions@ =~= s@.actions.subrange(from as int, i + 1));
            assert(times@ =~= s@.access_times.subrange(from as int, i + 1));
        }
        i += 1;
    }
    let mut p = Session {
        ip: s.ip,
        user_agent: s.user_agent,
        referer: s.referer,
        start_time: s.start_time,
        end_time: s.end_time,
        access_times: times,
        actions: actions,
        total_requests: s.total_requests,
        total_bytes: s.total_bytes,
    };
    proof {
        assert(p@.actions =~= s@.actions.skip(from as int));
        assert(p@.access_times =~= s@.access_times.skip(from as int));
    }
    dedupe_actions(&mut p);
    replace_actions(&mut p, coarse);
    Some(p)
}

/// Whether any action of the session is marked.
fn has_marked(s: &Session, marks: &Vec<bool>) -> (r: bool)
    ensures
        r == exists|i: int|
            0 <= i < s@.actions.len() && marked_ids(marks@).contains(#[trigger] s@.actions[i]),
{
    let mut i: usize = 0;
    while i < s.actions.len()
        invariant
            i <= s@.actions.len(),
            forall|k: int| 0 <= k < i ==> !marked_ids(marks@).contains(#[trigger] s@.actions[k]),
        decreases s@.actions.len() - i,
    {
        if is_marked(marks, s.actions[i]) {
            return true;
        }
        i += 1;
    }
    false
}

/// The sessions that enter the graph, prepared.
fn select_sessions(
    sessions: &Vec<Session>,
    starts: &Vec<bool>,
    wanted: &Vec<bool>,
    coarse: &HashMap<u32, u32>,
    Ghost(names): Ghost<Seq<Seq<u8>>>,
) -> (chosen: Vec<Session>)
    requires
        forall|j: int|
            0 <= j < sessions@.len() ==> (#[trigger] sessions@[j])@.actions.len()
                == sessions@[j]@.access_times.len(),
        coarse@ == coarse_map(names),
    ensures
        views(chosen@) == selected(
            views(sessions@),
            names,
            marked_ids(starts@),
            marked_ids(wanted@),
        ),
        all_valid(chosen@),
{
    let mut chosen: Vec<Session> = Vec::new();
    let ghost all = views(sessions@);
    let mut j: usize = 0;
    assert(all.subrange(0, 0) =~= Seq::<SessionView>::empty());
    assert(views(chosen@) =~= Seq::<SessionView>::empty());
    while j < sessions.len()
        invariant
            j <= sessions@.len(),
            all == views(sessions@),
            forall|j: int|
                0 <= j < sessions@.len() ==> (#[trigger] sessions@[j])@.actions.len()
                    == sessions@[j]@.access_times.len(),
            coarse@ == coarse_map(names),
            views(chosen@) == selected(
                all.subrange(0, j as int),
                names,
                marked_ids(starts@),
                marked_ids(wanted@),
            ),
            all_valid(chosen@),
        decreases sessions@.len() - j,
    {
        proof {
            let next = all.subrange(0, j + 1);
            assert(next.drop_last() =~= all.subrange(0, j as int));
            assert(next.last() == sessions@[j as int]@);
        }
        let ghost before = chosen@;
        match prepare_session(&sessions[j], starts, coarse, Ghost(names)) {
            Some(p) => {
                if has_marked(&p, wanted) {
                    chosen.push(p);
                    proof {
                        assert(views(chosen@) =~= views(
                            before,
                        ).push(p@));
                        assert forall|i: int| 0 <= i < chosen@.len() implies (
                        #[trigger] chosen@[i])@.valid() by {
                            if i < before.len() {
                                assert(chosen@[i] == before[i]);
                            }
                        }
                    }
                }
            },
            None => {},
        }
        j += 1;
    }
    assert(all.subrange(0, sessions@.len() as int) =~= all);
    chosen
}


/// One node of one layer of the graph.
#[derive(Clone, Debug)]
pub struct TransitionGraphNode {
    /// The path that the node stands for, or `Rest`.
    pub path: String,
    pub path_id: u32,
    /// Sessions that are at this node in this layer.
    pub session_count: u32,
    /// Median of the seconds that those sessions took to go on.
    pub median_view_time: u32,
    /// Sessions that end at this node.
    pub drop_count: u32,
    /// Sessions that go on, by the node of the next layer they go to.
    pub transfer_count: HashMap<usize, u32>,
}

/// The nodes of one step of the sessions.
#[derive(Clone, Debug)]
pub struct TransitionGraphLayer {
    pub nodes: Vec<TransitionGraphNode>,
}

/// The graph: one layer for each of the first steps of the sessions.
#[derive(Clone, Debug)]
pub struct TransitionGraph {
    pub layers: Vec<TransitionGraphLayer>,
}

/// The node of the path `id` among the first `upto` entries of the ranking:
/// the first entry that names the path, or, where none does, the node after
/// the last entry of the ranking, which stands for all other paths.
pub open spec fn node_among(top: Seq<(u32, u32)>, id: u32, upto: nat) -> int
    decreases upto,
{
    if upto == 0 {
        top.len() as int
    } else {
        let before = node_among(top, id, (upto - 1) as nat);
        if before == top.len() && top[upto - 1].0 == id {
            upto - 1
        } else {
            before
        }
    }
}

/// The node of the path `id`.
pub open spec fn node_of(top: Seq<(u32, u32)>, id: u32) -> int {
    node_among(top, id, top.len())
}

/// The node of a path is an entry of the ranking that names the path, or
/// the node for all other paths where no entry names it.
pub proof fn lemma_node_among(top: Seq<(u32, u32)>, id: u32, upto: nat)
    requires
        upto <= top.len(),
    ensures
        0 <= node_among(top, id, upto) <= top.len(),
        node_among(top, id, upto) < top.len() ==> node_among(top, id, upto) < upto && top[node_among(
            top,
            id,
            upto,
        )].0 == id,
        node_among(top, id, upto) == top.len() ==> forall|k: int|
            0 <= k < upto ==> (#[trigger] top[k]).0 != id,
    decreases upto,
{
    if upto > 0 {
        lemma_node_among(top, id, (upto - 1) as nat);
    }
}

/// The session is neither a single page view nor a scraper's run: it has
/// more than one action, no more than 40, and at least 7 requests.
pub open spec fn counts_for_graph(s: SessionView) -> bool {
    1 < s.actions.len() <= 40 && s.total_requests >= 7
}

/// The session is at the node `node` in the layer `layer`.
pub open spec fn visits(s: SessionView, top: Seq<(u32, u32)>, layer: int, node: int) -> bool {
    counts_for_graph(s) && 0 <= layer < s.actions.len() && node_of(top, s.actions[layer]) == node
}

/// The session has an action after the layer `layer`.
pub open spec fn goes_on(s: SessionView, layer: int) -> bool {
    layer + 1 < s.actions.len()
}

/// The seconds between the session's action in the layer `layer` and its
/// next action, or 0 where the times run backwards.
pub open spec fn dwell(s: SessionView, layer: int) -> u64 {
    if s.access_times[layer + 1] >= s.access_times[layer] {
        (s.access_times[layer + 1] - s.access_times[layer]) as u64
    } else {
        0
    }
}

/// How many sessions are at `node` in `layer`.
pub open spec fn visit_count(sessions: Seq<SessionView>, top: Seq<(u32, u32)>, layer: int, node: int) -> nat
    decreases sessions.len(),
{
    if sessions.len() == 0 {
        0
    } else {
        visit_count(sessions.drop_last(), top, layer, node) + if visits(
            sessions.last(),
            top,
            layer,
            node,
        ) {
            1nat
        } else {
            0nat
        }
    }
}

/// How many sessions end at `node` in `layer`.
pub open spec fn drop_count(sessions: Seq<SessionView>, top: Seq<(u32, u32)>, layer: int, node: int) -> nat
    decreases sessions.len(),
{
    if sessions.len() == 0 {
        0
    } else {
        drop_count(sessions.drop_last(), top, layer, node) + if visits(
            sessions.last(),
            top,
            layer,
            node,
        ) && !goes_on(sessions.last(), layer) {
            1nat
        } else {
            0nat
        }
    }
}

/// How many sessions go from `node` in `layer` to `next` in the layer after.
pub open spec fn transfer_count(
    sessions: Seq<SessionView>,
    top: Seq<(u32, u32)>,
    layer: int,
    node: int,
    next: int,
) -> nat
    decreases sessions.len(),
{
    if sessions.len() == 0 {
        0
    } else {
        transfer_count(sessions.drop_last(), top, layer, node, next) + if visits(
            sessions.last(),
            top,
            layer,
            node,
        ) && goes_on(sessions.last(), layer) && node_of(top, sessions.last().actions[layer + 1])
            == next {
            1nat
        } else {
            0nat
        }
    }
}

/// The seconds that the sessions at `node` in `layer` took to go on, in the
/// order of the sessions.
pub open spec fn dwell_times(sessions: Seq<SessionView>, top: Seq<(u32, u32)>, layer: int, node: int) -> Seq<
    u64,
>
    decreases sessions.len(),
{
    if sessions.len() == 0 {
        Seq::empty()
    } else if visits(sessions.last(), top, layer, node) && goes_on(sessions.last(), layer) {
        dwell_times(sessions.drop_last(), top, layer, node).push(dwell(sessions.last(), layer))
    } else {
        dwell_times(sessions.drop_last(), top, layer, node)
    }
}

/// The element in the middle of the samples in ascending order, the upper
/// of the two where their number is even; 0 where there is no sample.
pub open spec fn median(samples: Seq<u64>) -> u64 {
    if samples.len() == 0 {
        0
    } else {
        sorted(samples)[samples.len() as int / 2]
    }
}

/// The median of the samples.
fn median_of(samples: &Vec<u64>) -> (m: u32)
    requires
        forall|i: int| 0 <= i < samples@.len() ==> samples@[i] <= u32::MAX,
    ensures
        m == median(samples@),
{
    if samples.len() == 0 {
        return 0;
    }
    let mut ordered = samples.clone();
    assert(ordered@ =~= samples@);
    sort_ascending(&mut ordered);
    proof {
        lemma_sorted(samples@);
        let x = ordered@[samples@.len() as int / 2];
        assert(ordered@.contains(x));
        assert(samples@.contains(x));
    }
    ordered[samples.len() / 2] as u32
}

/// `count + 1`, stopping at `u32::MAX`.
fn bump(count: u32) -> (r: u32)
    ensures
        forall|n: nat| count == #[trigger] capped(n) ==> r == capped(n + 1),
{
    if count < u32::MAX {
        count + 1
    } else {
        count
    }
}

/// The node of each of the first `n` paths.
fn node_positions(top: &Vec<(u32, u32)>, n: usize) -> (nodes: Vec<usize>)
    requires
        n <= u32::MAX,
        forall|i: int| 0 <= i < top@.len() ==> (#[trigger] top@[i]).0 < n,
    ensures
        nodes@.len() == n,
        forall|id: int| 0 <= id < n ==> nodes@[id] == node_of(top@, id as u32),
{
    let rest = top.len();
    let mut nodes: Vec<usize> = Vec::new();
    let mut k: usize = 0;
    while k < n
        invariant
            k <= n,
            nodes@.len() == k,
            forall|id: int| 0 <= id < k ==> nodes@[id] == rest,
        decreases n - k,
    {
        nodes.push(rest);
        k += 1;
    }
    let mut i: usize = 0;
    while i < top.len()
        invariant
            i <= top@.len(),
            rest == top@.len(),
            n <= u32::MAX,
            nodes@.len() == n,
            forall|i: int| 0 <= i < top@.len() ==> (#[trigger] top@[i]).0 < n,
            forall|id: int| 0 <= id < n ==> nodes@[id] == node_among(top@, id as u32, i as nat),
        decreases top@.len() - i,
    {
        let id = top[i].0 as usize;
        if nodes[id] == rest {
            nodes[id] = i;
        }
        i += 1;
    }
    nodes
}

/// What one layer of the graph counts, node by node.
struct LayerCounts {
    visits: Vec<u32>,
    drops: Vec<u32>,
    transfers: Vec<HashMap<usize, u32>>,
    samples: Vec<Vec<u64>>,
}

impl LayerCounts {
    /// The counts are those of `sessions` in the layer `layer`, for `nodes`
    /// nodes.
    spec fn counts(
        &self,
        sessions: Seq<SessionView>,
        top: Seq<(u32, u32)>,
        layer: int,
        nodes: int,
    ) -> bool {
        &&& self.visits@.len() == nodes
        &&& self.drops@.len() == nodes
        &&& self.transfers@.len() == nodes
        &&& self.samples@.len() == nodes
        &&& forall|k: int|
            0 <= k < nodes ==> #[trigger] self.visits@[k] == capped(
                visit_count(sessions, top, layer, k),
            )
        &&& forall|k: int|
            0 <= k < nodes ==> #[trigger] self.drops@[k] == capped(
                drop_count(sessions, top, layer, k),
            )
        &&& forall|k: int|
            0 <= k < nodes ==> (#[trigger] self.samples@[k])@ == dwell_times(
                sessions,
                top,
                layer,
                k,
            )
        &&& forall|k: int, i: int|
            0 <= k < nodes && 0 <= i < self.samples@[k]@.len() ==> (#[trigger] self.samples@[k]@[i])
                <= u32::MAX
        &&& forall|k: int, next: usize|
            0 <= k < nodes ==> (#[trigger] self.transfers@[k]@.contains_key(next)
                <==> transfer_count(sessions, top, layer, k, next as int) > 0)
        &&& forall|k: int, next: usize|
            0 <= k < nodes && #[trigger] self.transfers@[k]@.contains_key(next)
                ==> self.transfers@[k]@[next] == capped(
                transfer_count(sessions, top, layer, k, next as int),
            )
    }
}

/// The node of the action `a`.
fn node_for(positions: &Vec<usize>, rest: usize, a: u32, Ghost(top): Ghost<Seq<(u32, u32)>>) -> (k:
    usize)
    requires
        rest == top.len(),
        positions@.len() <= u32::MAX,
        forall|id: int| 0 <= id < positions@.len() ==> positions@[id] == node_of(top, id as u32),
        forall|i: int| 0 <= i < top.len() ==> (#[trigger] top[i]).0 < positions@.len(),
    ensures
        k == node_of(top, a),
        k <= rest,
{
    proof {
        lemma_node_among(top, a, top.len());
    }
    if (a as usize) < positions.len() {
        positions[a as usize]
    } else {
        rest
    }
}

/// Counts the sessions of one layer.
fn count_layer(
    sessions: &Vec<Session>,
    positions: &Vec<usize>,
    rest: usize,
    layer: usize,
    Ghost(top): Ghost<Seq<(u32, u32)>>,
) -> (c: LayerCounts)
    requires
        rest == top.len(),
        rest < usize::MAX,
        positions@.len() <= u32::MAX,
        forall|id: int| 0 <= id < positions@.len() ==> positions@[id] == node_of(top, id as u32),
        forall|i: int| 0 <= i < top.len() ==> (#[trigger] top[i]).0 < positions@.len(),
        forall|j: int|
            0 <= j < sessions@.len() ==> (#[trigger] sessions@[j])@.actions.len()
                == sessions@[j]@.access_times.len(),
    ensures
        c.counts(views(sessions@), top, layer as int, rest + 1),
{
    let nodes = rest + 1;
    let mut c = LayerCounts {
        visits: Vec::new(),
        drops: Vec::new(),
        transfers: Vec::new(),
        samples: Vec::new(),
    };
    let mut k: usize = 0;
    while k < nodes
        invariant
            k <= nodes,
            c.visits@.len() == k,
            c.drops@.len() == k,
            c.transfers@.len() == k,
            c.samples@.len() == k,
            forall|i: int| 0 <= i < k ==> #[trigger] c.visits@[i] == 0,
            forall|i: int| 0 <= i < k ==> #[trigger] c.drops@[i] == 0,
            forall|i: int| 0 <= i < k ==> (#[trigger] c.samples@[i])@ == Seq::<u64>::empty(),
            forall|i: int| 0 <= i < k ==> (#[trigger] c.transfers@[i])@ == Map::<usize, u32>::empty(),
        decreases nodes - k,
    {
        c.visits.push(0);
        c.drops.push(0);
        c.transfers.push(HashMap::new());
        c.samples.push(Vec::new());
        k += 1;
    }
    let ghost all = views(sessions@);
    let mut j: usize = 0;
    assert(all.subrange(0, 0) =~= Seq::<SessionView>::empty());
    while j < sessions.len()
        invariant
            j <= sessions@.len(),
            all == views(sessions@),
            nodes == rest + 1,
            rest == top.len(),
            positions@.len() <= u32::MAX,
            forall|id: int|
                0 <= id < positions@.len() ==> positions@[id] == node_of(top, id as u32),
            forall|i: int| 0 <= i < top.len() ==> (#[trigger] top[i]).0 < positions@.len(),
            forall|j: int|
                0 <= j < sessions@.len() ==> (#[trigger] sessions@[j])@.actions.len()
                    == sessions@[j]@.access_times.len(),
            c.counts(all.subrange(0, j as int), top, layer as int, nodes as int),
        decreases sessions@.len() - j,
    {
        let s = &sessions[j];
        let ghost done = all.subrange(0, j as int);
        let ghost next = all.subrange(0, j + 1);
        let ghost before = c;
        proof {
            assert(next.drop_last() =~= done);
            assert(next.last() == s@);
        }
        let len = s.actions.len();
        if len > 1 && len <= 40 && s.total_requests >= 7 && layer < len {
            let k = node_for(positions, rest, s.actions[layer], Ghost(top));
            c.visits[k] = bump(c.visits[k]);
            if layer + 1 < len {
                let to = node_for(positions, rest, s.actions[layer + 1], Ghost(top));
                let t0 = s.access_times[layer];
                let t1 = s.access_times[layer + 1];
                let sample: u64 = if t1 >= t0 {
                    (t1 - t0) as u64
                } else {
                    0
                };
                c.samples[k].push(sample);
                let seen = match c.transfers[k].get(&to) {
                    Some(x) => *x,
                    None => 0,
                };
                proof {
                    assert(before.transfers@[k as int]@.contains_key(to) <==> transfer_count(
                        done,
                        top,
                        layer as int,
                        k as int,
                        to as int,
                    ) > 0);
                    assert(seen == capped(transfer_count(done, top, layer as int, k as int, to as int)));
                }
                c.transfers[k].insert(to, bump(seen));
            } else {
                c.drops[k] = bump(c.drops[k]);
            }
        }
        proof {
            assert forall|k: int| 0 <= k < nodes implies (#[trigger] c.samples@[k])@ == dwell_times(
                next,
                top,
                layer as int,
                k,
            ) by {
                assert(before.samples@[k]@ == dwell_times(done, top, layer as int, k));
            }
            assert forall|k: int, i: int|
                0 <= k < nodes && 0 <= i < c.samples@[k]@.len() implies (
            #[trigger] c.samples@[k]@[i]) <= u32::MAX by {
                if i < before.samples@[k]@.len() {
                    assert(before.samples@[k]@[i] <= u32::MAX);
                }
            }
            assert forall|k: int| 0 <= k < nodes implies #[trigger] c.visits@[k] == capped(
                visit_count(next, top, layer as int, k),
            ) by {
                assert(before.visits@[k] == capped(visit_count(done, top, layer as int, k)));
            }
            assert forall|k: int| 0 <= k < nodes implies #[trigger] c.drops@[k] == capped(
                drop_count(next, top, layer as int, k),
            ) by {
                assert(before.drops@[k] == capped(drop_count(done, top, layer as int, k)));
            }
            assert forall|k: int, to: usize| 0 <= k < nodes implies (
            #[trigger] c.transfers@[k]@.contains_key(to) <==> transfer_count(
                next,
                top,
                layer as int,
                k,
                to as int,
            ) > 0) by {
                assert(before.transfers@[k]@.contains_key(to) <==> transfer_count(
                    done,
                    top,
                    layer as int,
                    k,
                    to as int,
                ) > 0);
            }
            assert forall|k: int, to: usize|
                0 <= k < nodes && #[trigger] c.transfers@[k]@.contains_key(
                    to,
                ) implies c.transfers@[k]@[to] == capped(
                transfer_count(next, top, layer as int, k, to as int),
            ) by {
                assert(before.transfers@[k]@.contains_key(to) <==> transfer_count(
                    done,
                    top,
                    layer as int,
                    k,
                    to as int,
                ) > 0);
                if before.transfers@[k]@.contains_key(to) {
                    assert(before.transfers@[k]@[to] == capped(
                        transfer_count(done, top, layer as int, k, to as int),
                    ));
                }
            }
        }
        j += 1;
    }
    assert(all.subrange(0, sessions@.len() as int) =~= all);
    c
}


/// The actions of each session of a list.
pub open spec fn view_actions(sessions: Seq<SessionView>) -> Seq<Seq<u32>> {
    Seq::new(sessions.len(), |j: int| sessions[j].actions)
}

/// The labels name the paths of the ranking, each with its usage, and after
/// them the catch-all `Rest` with the count 0.
pub open spec fn labels_of(
    labels: Seq<(String, u32)>,
    names: Seq<Seq<u8>>,
    top: Seq<(u32, u32)>,
) -> bool {
    &&& labels.len() == top.len() + 1
    &&& forall|i: int|
        0 <= i < top.len() ==> encode_utf8((#[trigger] labels[i]).0@) == names[top[i].0 as int]
            && labels[i].1 == top[i].1
    &&& labels[top.len() as int].0@ == "Rest"@
    &&& labels[top.len() as int].1 == 0
}

/// The names of the paths of the ranking, and `Rest`.
fn label_paths(table: &GlobalTable, top: &Vec<(u32, u32)>) -> (labels: Vec<(String, u32)>)
    requires
        forall|i: int| 0 <= i < top@.len() ==> (#[trigger] top@[i]).0 < table.path.names().len(),
    ensures
        labels_of(labels@, table.path.names(), top@),
{
    let mut labels: Vec<(String, u32)> = Vec::new();
    let mut i: usize = 0;
    while i < top.len()
        invariant
            i <= top@.len(),
            forall|i: int|
                0 <= i < top@.len() ==> (#[trigger] top@[i]).0 < table.path.names().len(),
            labels@.len() == i,
            forall|k: int|
                0 <= k < i ==> encode_utf8((#[trigger] labels@[k]).0@)
                    == table.path.names()[top@[k].0 as int] && labels@[k].1 == top@[k].1,
        decreases top@.len() - i,
    {
        let name = table.path.name_at(top[i].0 as usize);
        labels.push((name.to_owned(), top[i].1));
        i += 1;
    }
    labels.push(("Rest".to_owned(), 0));
    labels
}

/// Folds rare paths into the directories above them, round by round, until
/// a round changes nothing or the limit of rounds is reached. Returns the
/// sessions with the paths that are left, and the most used paths of the
/// last round by name, each with its usage, followed by `Rest`.
pub fn reduce_sessions(sessions: Vec<Session>, table: &GlobalTable, threshold: u32, max_paths: u32) -> (r:
    (Vec<Session>, Vec<(String, u32)>))
    requires
        table.wf(),
    ensures
        same_but_actions(r.0@, sessions@),
        actions_of(r.0@) == reduced(
            table.path.names(),
            actions_of(sessions@),
            threshold,
            max_paths,
            MAX_ROUNDS as nat,
        ).0,
        labels_of(
            r.1@,
            table.path.names(),
            reduced(
                table.path.names(),
                actions_of(sessions@),
                threshold,
                max_paths,
                MAX_ROUNDS as nat,
            ).1,
        ),
        r.1@.len() <= max_paths + 1,
{
    let (reduced_sessions, top) = reduce_paths(sessions, table, threshold, max_paths);
    let labels = label_paths(table, &top);
    (reduced_sessions, labels)
}

/// The node `node` is the node `k` of the layer `layer` for the sessions
/// `sessions`.
pub open spec fn is_node(
    node: TransitionGraphNode,
    names: Seq<Seq<u8>>,
    top: Seq<(u32, u32)>,
    rest_id: u32,
    sessions: Seq<SessionView>,
    layer: int,
    k: int,
) -> bool {
    &&& encode_utf8(node.path@) == if k < top.len() {
        names[top[k].0 as int]
    } else {
        "Rest".spec_bytes()
    }
    &&& node.path_id == if k < top.len() {
        top[k].0
    } else {
        rest_id
    }
    &&& node.session_count == capped(visit_count(sessions, top, layer, k))
    &&& node.drop_count == capped(drop_count(sessions, top, layer, k))
    &&& node.median_view_time == median(dwell_times(sessions, top, layer, k))
    &&& forall|next: usize| #[trigger]
        node.transfer_count@.contains_key(next) <==> transfer_count(
            sessions,
            top,
            layer,
            k,
            next as int,
        ) > 0
    &&& forall|next: usize| #[trigger]
        node.transfer_count@.contains_key(next) ==> node.transfer_count@[next] == capped(
            transfer_count(sessions, top, layer, k, next as int),
        )
}

/// The graph has `graph_length` layers, each with one node for each path
/// of the ranking and one for the rest, and each node counts the sessions
/// `sessions`.
pub open spec fn is_graph(
    g: TransitionGraph,
    names: Seq<Seq<u8>>,
    top: Seq<(u32, u32)>,
    rest_id: u32,
    sessions: Seq<SessionView>,
    graph_length: nat,
) -> bool {
    &&& g.layers@.len() == graph_length
    &&& forall|layer: int|
        0 <= layer < graph_length ==> (#[trigger] g.layers@[layer]).nodes@.len() == top.len() + 1
    &&& forall|layer: int, k: int|
        0 <= layer < graph_length && 0 <= k <= top.len() ==> is_node(
            #[trigger] g.layers@[layer].nodes@[k],
            names,
            top,
            rest_id,
            sessions,
            layer,
            k,
        )
}

/// The nodes of a layer from its counts.
fn make_nodes(
    c: &LayerCounts,
    labels: &Vec<(String, u32)>,
    top: &Vec<(u32, u32)>,
    rest_id: u32,
    Ghost(names): Ghost<Seq<Seq<u8>>>,
    Ghost(sessions): Ghost<Seq<SessionView>>,
    Ghost(layer): Ghost<int>,
) -> (nodes: Vec<TransitionGraphNode>)
    requires
        labels_of(labels@, names, top@),
        c.counts(sessions, top@, layer, top@.len() as int + 1),
    ensures
        nodes@.len() == top@.len() + 1,
        forall|k: int|
            0 <= k <= top@.len() ==> is_node(
                #[trigger] nodes@[k],
                names,
                top@,
                rest_id,
                sessions,
                layer,
                k,
            ),
{
    let mut nodes: Vec<TransitionGraphNode> = Vec::new();
    let n = labels.len();
    let mut k: usize = 0;
    while k < n
        invariant
            k <= n,
            n == top@.len() + 1,
            labels_of(labels@, names, top@),
            c.counts(sessions, top@, layer, top@.len() as int + 1),
            nodes@.len() == k,
            forall|i: int|
                0 <= i < k ==> is_node(
                    #[trigger] nodes@[i],
                    names,
                    top@,
                    rest_id,
                    sessions,
                    layer,
                    i,
                ),
        decreases n - k,
    {
        let path = labels[k].0.clone();
        let path_id = if k < top.len() {
            top[k].0
        } else {
            rest_id
        };
        proof {
            assert forall|i: int| 0 <= i < c.samples@[k as int]@.len() implies c.samples@[k as int]@[i]
                <= u32::MAX by {
                assert(c.samples@[k as int]@[i] <= u32::MAX);
            }
            assert(c.samples@[k as int]@ == dwell_times(sessions, top@, layer, k as int));
        }
        let node = TransitionGraphNode {
            path,
            path_id,
            session_count: c.visits[k],
            median_view_time: median_of(&c.samples[k]),
            drop_count: c.drops[k],
            transfer_count: c.transfers[k].clone(),
        };
        proof {
            assert(node.transfer_count@ == c.transfers@[k as int]@);
            assert forall|next: usize| #[trigger]
                node.transfer_count@.contains_key(next) <==> transfer_count(
                    sessions,
                    top@,
                    layer,
                    k as int,
                    next as int,
                ) > 0 by {
                assert(c.transfers@[k as int]@.contains_key(next) <==> transfer_count(
                    sessions,
                    top@,
                    layer,
                    k as int,
                    next as int,
                ) > 0);
            }
            assert(is_node(node, names, top@, rest_id, sessions, layer, k as int));
        }
        nodes.push(node);
        k += 1;
    }
    nodes
}

/// The id that the node for all other paths carries: that of a path named
/// `Rest`, if there is one, and else 0.
pub open spec fn rest_path_id(table: GlobalTable) -> u32 {
    match table.path.lookup("Rest".spec_bytes()) {
        Some(id) => id,
        None => 0,
    }
}

/// The sessions that the graph counts: those that enter it, prepared, with
/// their paths reduced.
pub open spec fn graph_sessions(
    table: GlobalTable,
    sessions: Seq<SessionView>,
    opt: StatsOptions,
    must_contain: Seq<u8>,
    must_start_with: Seq<u8>,
) -> Seq<SessionView> {
    let names = table.path.names();
    let input = selected(
        sessions,
        names,
        paths_containing(names, must_start_with),
        paths_containing(names, must_contain),
    );
    let acts = reduced(
        names,
        view_actions(input),
        opt.threshold,
        opt.max_paths,
        MAX_ROUNDS as nat,
    ).0;
    Seq::new(input.len(), |j: int| with_actions(input[j], acts[j], input[j].access_times))
}

/// The paths that have a node of their own in the graph, most used first.
pub open spec fn graph_paths(
    table: GlobalTable,
    sessions: Seq<SessionView>,
    opt: StatsOptions,
    must_contain: Seq<u8>,
    must_start_with: Seq<u8>,
) -> Seq<(u32, u32)> {
    let names = table.path.names();
    let input = selected(
        sessions,
        names,
        paths_containing(names, must_start_with),
        paths_containing(names, must_contain),
    );
    reduced(names, view_actions(input), opt.threshold, opt.max_paths, MAX_ROUNDS as nat).1
}

/// Builds the transition graph of the sessions. A session enters the graph
/// if the name of one of its paths contains `must_start_with`, from that
/// action on, and if then the name of one of its paths contains
/// `must_contain`. The paths are reduced to the most used ones and the
/// directories above the others, and the first `graph_length` steps of the
/// sessions are counted.
pub fn calc_graph(
    sessions: &Vec<Session>,
    table: &GlobalTable,
    graph_length: usize,
    opt: &StatsOptions,
    must_contain: &str,
    must_start_with: &str,
) -> (g: TransitionGraph)
    requires
        table.wf(),
        all_valid(sessions@),
    ensures
        is_graph(
            g,
            table.path.names(),
            graph_paths(
                *table,
                views(sessions@),
                *opt,
                must_contain.spec_bytes(),
                must_start_with.spec_bytes(),
            ),
            rest_path_id(*table),
            graph_sessions(
                *table,
                views(sessions@),
                *opt,
                must_contain.spec_bytes(),
                must_start_with.spec_bytes(),
            ),
            graph_length as nat,
        ),
{
    let ghost names = table.path.names();
    let coarse = get_global_replacement_table(table);
    let wanted = paths_with(table, must_contain);
    let starts = paths_with(table, must_start_with);
    let chosen = select_sessions(sessions, &starts, &wanted, &coarse, Ghost(names));
    let ghost input = views(chosen@);
    proof {
        assert(actions_of(chosen@) =~= view_actions(input));
    }
    let (counted, top) = reduce_paths(chosen, table, opt.threshold, opt.max_paths);
    let ghost target = graph_sessions(
        *table,
        views(sessions@),
        *opt,
        must_contain.spec_bytes(),
        must_start_with.spec_bytes(),
    );
    proof {
        assert(views(counted@) =~= target) by {
            assert forall|j: int| 0 <= j < counted@.len() implies views(counted@)[j]
                == target[j] by {
                assert(counted@[j]@ == with_actions(
                    chosen@[j]@,
                    counted@[j]@.actions,
                    chosen@[j]@.access_times,
                ));
                assert(actions_of(counted@)[j] == counted@[j]@.actions);
            }
        }
    }
    let labels = label_paths(table, &top);
    let rest_id = match table.path.get("Rest") {
        Some(id) => id,
        None => 0,
    };
    let n = table.path.len();
    let positions = node_positions(&top, n);
    let rest = top.len();
    let mut layers: Vec<TransitionGraphLayer> = Vec::new();
    let mut layer: usize = 0;
    while layer < graph_length
        invariant
            layer <= graph_length,
            names == table.path.names(),
            rest == top@.len(),
            rest < usize::MAX,
            labels_of(labels@, names, top@),
            positions@.len() <= u32::MAX,
            forall|id: int|
                0 <= id < positions@.len() ==> positions@[id] == node_of(top@, id as u32),
            forall|i: int| 0 <= i < top@.len() ==> (#[trigger] top@[i]).0 < positions@.len(),
            forall|j: int|
                0 <= j < counted@.len() ==> (#[trigger] counted@[j])@.actions.len()
                    == counted@[j]@.access_times.len(),
            views(counted@) == target,
            layers@.len() == layer,
            forall|i: int| 0 <= i < layer ==> (#[trigger] layers@[i]).nodes@.len() == top@.len() + 1,
            forall|i: int, k: int|
                0 <= i < layer && 0 <= k <= top@.len() ==> is_node(
                    #[trigger] layers@[i].nodes@[k],
                    names,
                    top@,
                    rest_id,
                    target,
                    i,
                    k,
                ),
        decreases graph_length - layer,
    {
        let c = count_layer(&counted, &positions, rest, layer, Ghost(top@));
        let nodes = make_nodes(
            &c,
            &labels,
            &top,
            rest_id,
            Ghost(names),
            Ghost(target),
            Ghost(layer as int),
        );
        layers.push(TransitionGraphLayer { nodes });
        layer += 1;
    }
    TransitionGraph { layers }
}


/// The number of slashes of the path of an action, or 0 for an action that
/// names no known path.
pub open spec fn action_depth(names: Seq<Seq<u8>>, a: u32) -> nat {
    if a < names.len() {
        depth(names[a as int])
    } else {
        0
    }
}

/// The slashes of the paths of the actions, added up.
pub open spec fn depth_sum(names: Seq<Seq<u8>>, actions: Seq<u32>) -> nat
    decreases actions.len(),
{
    if actions.len() == 0 {
        0
    } else {
        depth_sum(names, actions.drop_last()) + action_depth(names, actions.last())
    }
}

/// The slashes of the paths of all actions of all sessions, added up. Each
/// replacement of the reduction makes this number smaller.
pub open spec fn potential(names: Seq<Seq<u8>>, acts: Seq<Seq<u32>>) -> nat
    decreases acts.len(),
{
    if acts.len() == 0 {
        0
    } else {
        potential(names, acts.drop_last()) + depth_sum(names, acts.last())
    }
}

/// Every entry of the table leads to a path with fewer slashes.
pub open spec fn lowers(names: Seq<Seq<u8>>, table: Map<u32, u32>) -> bool {
    forall|a: u32| #[trigger]
        table.contains_key(a) ==> action_depth(names, table[a]) < action_depth(names, a)
}

proof fn lemma_substituted_lowers(names: Seq<Seq<u8>>, actions: Seq<u32>, table: Map<u32, u32>)
    requires
        lowers(names, table),
    ensures
        depth_sum(names, substituted(actions, table)) + substitutions(actions, table) <= depth_sum(
            names,
            actions,
        ),
        substitutions(actions, table) == 0 ==> substituted(actions, table) == actions,
    decreases actions.len(),
{
    if actions.len() > 0 {
        let rest = actions.drop_last();
        lemma_substituted_lowers(names, rest, table);
        assert(substituted(actions, table).drop_last() =~= substituted(rest, table));
        if substitutions(actions, table) == 0 {
            assert(substituted(actions, table) =~= substituted(rest, table).push(actions.last()));
            assert(rest.push(actions.last()) =~= actions);
        }
    } else {
        assert(substituted(actions, table) =~= actions);
    }
}

proof fn lemma_step_lowers(names: Seq<Seq<u8>>, acts: Seq<Seq<u32>>, table: Map<u32, u32>)
    requires
        lowers(names, table),
    ensures
        potential(names, reduce_step(acts, table)) + total_substitutions(acts, table) <= potential(
            names,
            acts,
        ),
        total_substitutions(acts, table) == 0 ==> reduce_step(acts, table) == acts,
    decreases acts.len(),
{
    if acts.len() > 0 {
        let rest = acts.drop_last();
        lemma_step_lowers(names, rest, table);
        lemma_substituted_lowers(names, acts.last(), table);
        assert(reduce_step(acts, table).drop_last() =~= reduce_step(rest, table));
        if total_substitutions(acts, table) == 0 {
            assert(reduce_step(acts, table) =~= reduce_step(rest, table).push(acts.last()));
            assert(rest.push(acts.last()) =~= acts);
        }
    } else {
        assert(reduce_step(acts, table) =~= acts);
    }
}

proof fn lemma_replacements_lower(names: Seq<Seq<u8>>, acts: Seq<Seq<u32>>, top: Seq<(u32, u32)>)
    requires
        names.len() <= u32::MAX,
    ensures
        lowers(names, replacement_map(names, acts, top)),
{
    let table = replacement_map(names, acts, top);
    assert forall|a: u32| #[trigger] table.contains_key(a) implies action_depth(names, table[a])
        < action_depth(names, a) by {
        let p = parent(names[a as int]);
        assert(names.contains(p));
        let k = names.index_of(p);
        assert(0 <= k < names.len() && names[k] == p);
        lemma_parent_shorter(names[a as int]);
    }
}

/// Each of the first `rounds` rounds of the reduction replaces an action.
pub open spec fn replaces_in_every_round(
    names: Seq<Seq<u8>>,
    acts: Seq<Seq<u32>>,
    threshold: u32,
    max_paths: u32,
    rounds: nat,
) -> bool
    decreases rounds,
{
    if rounds == 0 {
        true
    } else {
        let top = whitelist(acts, names.len(), threshold, max_paths);
        let table = replacement_map(names, acts, top);
        total_substitutions(acts, table) > 0 && replaces_in_every_round(
            names,
            reduce_step(acts, table),
            threshold,
            max_paths,
            (rounds - 1) as nat,
        )
    }
}

/// The reduction ends settled unless it is cut short: where not every one
/// of the rounds allowed replaces an action, the last round replaces
/// nothing, the paths returned are the most used paths of the sessions
/// returned, and one more round would change nothing. The list of paths is
/// never longer than `max_paths`.
pub proof fn law_reduction_ends_settled(
    names: Seq<Seq<u8>>,
    acts: Seq<Seq<u32>>,
    threshold: u32,
    max_paths: u32,
    rounds: nat,
)
    requires
        names.len() <= u32::MAX,
        rounds >= 1,
        !replaces_in_every_round(names, acts, threshold, max_paths, rounds),
    ensures
        reduced(names, acts, threshold, max_paths, rounds).1 == whitelist(
            reduced(names, acts, threshold, max_paths, rounds).0,
            names.len(),
            threshold,
            max_paths,
        ),
        total_substitutions(
            reduced(names, acts, threshold, max_paths, rounds).0,
            replacement_map(
                names,
                reduced(names, acts, threshold, max_paths, rounds).0,
                reduced(names, acts, threshold, max_paths, rounds).1,
            ),
        ) == 0,
        reduced(names, acts, threshold, max_paths, rounds).1.len() <= max_paths,
    decreases rounds,
{
    let top = whitelist(acts, names.len(), threshold, max_paths);
    let table = replacement_map(names, acts, top);
    let next = reduce_step(acts, table);
    lemma_replacements_lower(names, acts, top);
    lemma_step_lowers(names, acts, table);
    lemma_whitelist_ids(acts, names.len(), threshold, max_paths);
    if total_substitutions(acts, table) == 0 {
        assert(next == acts);
    } else {
        assert(!replaces_in_every_round(names, next, threshold, max_paths, (rounds - 1) as nat));
        law_reduction_ends_settled(names, next, threshold, max_paths, (rounds - 1) as nat);
    }
}

/// A reduction that starts with few slashes is not cut short: where the
/// slashes of all paths of all actions add up to less than the number of
/// rounds, some round replaces nothing.
pub proof fn lemma_shallow_is_not_cut_short(
    names: Seq<Seq<u8>>,
    acts: Seq<Seq<u32>>,
    threshold: u32,
    max_paths: u32,
    rounds: nat,
)
    requires
        names.len() <= u32::MAX,
        rounds >= 1,
        potential(names, acts) < rounds,
    ensures
        !replaces_in_every_round(names, acts, threshold, max_paths, rounds),
    decreases rounds,
{
    let top = whitelist(acts, names.len(), threshold, max_paths);
    let table = replacement_map(names, acts, top);
    let next = reduce_step(acts, table);
    lemma_replacements_lower(names, acts, top);
    lemma_step_lowers(names, acts, table);
    if total_substitutions(acts, table) > 0 {
        lemma_shallow_is_not_cut_short(names, next, threshold, max_paths, (rounds - 1) as nat);
    }
}

/// The reduction settles where the paths are shallow: where the slashes of
/// all paths of all actions add up to less than the number of rounds
/// allowed, the last round of the reduction replaces nothing. The paths
/// returned are then the most used paths of the sessions returned, and one
/// more round would change nothing.
pub proof fn law_reduction_settles(
    names: Seq<Seq<u8>>,
    acts: Seq<Seq<u32>>,
    threshold: u32,
    max_paths: u32,
    rounds: nat,
)
    requires
        names.len() <= u32::MAX,
        potential(names, acts) < rounds,
    ensures
        reduced(names, acts, threshold, max_paths, rounds).1 == whitelist(
            reduced(names, acts, threshold, max_paths, rounds).0,
            names.len(),
            threshold,
            max_paths,
        ),
        total_substitutions(
            reduced(names, acts, threshold, max_paths, rounds).0,
            replacement_map(
                names,
                reduced(names, acts, threshold, max_paths, rounds).0,
                reduced(names, acts, threshold, max_paths, rounds).1,
            ),
        ) == 0,
        reduced(names, acts, threshold, max_paths, rounds).1.len() <= max_paths,
{
    lemma_shallow_is_not_cut_short(names, acts, threshold, max_paths, rounds);
    law_reduction_ends_settled(names, acts, threshold, max_paths, rounds);
}

} // verus!
