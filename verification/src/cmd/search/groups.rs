//! Matches taken together by session or thread.
use vstd::hash_map::StringHashMap;
use vstd::prelude::*;
use vstd::string::*;

use super::records::{
    group_values, hits_of, samples_of, Group, GroupRecord, GroupSample, Hit, Sample, SearchRecord,
};
use super::GroupMode;
use crate::cmd::capped;
use crate::order::{lemma_lex_irreflexive, lemma_lex_transitive, lex_lt};
use crate::output::emit::{lines_of, offered_all, taken_count, value_lines};
use crate::output::Emitter;
use crate::text::{codes, text_less, text_lt};

verus! {

broadcast use {
    vstd::seq::group_seq_axioms,
    vstd::string::group_string_axioms,
    vstd::map::group_map_axioms,
};

/// What a match is grouped by: its session, or the root of its thread where it has one.
pub open spec fn group_key(h: Hit, mode: GroupMode) -> Seq<char> {
    match (mode, h.thread_root) {
        (GroupMode::Thread, Some(root)) => root,
        _ => h.session_id,
    }
}

/// The keys of the groups, in the order in which they first appear.
pub open spec fn group_keys(hits: Seq<Hit>, mode: GroupMode) -> Seq<Seq<char>>
    decreases hits.len(),
{
    if hits.len() == 0 {
        Seq::empty()
    } else {
        let before = group_keys(hits.drop_last(), mode);
        let key = group_key(hits.last(), mode);
        if before.contains(key) {
            before
        } else {
            before.push(key)
        }
    }
}

/// The matches of a group.
pub open spec fn members(hits: Seq<Hit>, mode: GroupMode, key: Seq<char>) -> Seq<Hit>
    decreases hits.len(),
{
    if hits.len() == 0 {
        Seq::empty()
    } else {
        let before = members(hits.drop_last(), mode, key);
        if group_key(hits.last(), mode) == key {
            before.push(hits.last())
        } else {
            before
        }
    }
}

/// The earlier of two timestamps, of which one may be missing.
pub open spec fn earlier(best: Option<Seq<char>>, ts: Option<Seq<char>>) -> Option<Seq<char>> {
    match (best, ts) {
        (Some(b), Some(t)) => if text_lt(t, b) {
            ts
        } else {
            best
        },
        (None, _) => ts,
        (_, None) => best,
    }
}

/// The later of two timestamps, of which one may be missing.
pub open spec fn later(best: Option<Seq<char>>, ts: Option<Seq<char>>) -> Option<Seq<char>> {
    match (best, ts) {
        (Some(b), Some(t)) => if text_lt(b, t) {
            ts
        } else {
            best
        },
        (None, _) => ts,
        (_, None) => best,
    }
}

/// The earliest timestamp of the matches.
pub open spec fn first_ts(hits: Seq<Hit>) -> Option<Seq<char>>
    decreases hits.len(),
{
    if hits.len() == 0 {
        None
    } else {
        earlier(first_ts(hits.drop_last()), hits.last().timestamp)
    }
}

/// The latest timestamp of the matches.
pub open spec fn last_ts(hits: Seq<Hit>) -> Option<Seq<char>>
    decreases hits.len(),
{
    if hits.len() == 0 {
        None
    } else {
        later(last_ts(hits.drop_last()), hits.last().timestamp)
    }
}

/// What is shown of a match in its group.
pub open spec fn sample_of(h: Hit) -> Sample {
    Sample { line: h.line, timestamp: h.timestamp, text: h.text }
}

/// What is shown of the first matches, at most `n`.
pub open spec fn samples(hits: Seq<Hit>, n: int) -> Seq<Sample> {
    hits.take(
        if n < hits.len() {
            n
        } else {
            hits.len() as int
        },
    ).map_values(|h: Hit| sample_of(h))
}

/// The name of a way of grouping.
pub open spec fn mode_name(mode: GroupMode) -> Seq<char> {
    match mode {
        GroupMode::Session => "session"@,
        GroupMode::Thread => "thread"@,
    }
}

/// The group of some matches. Project and session are those of the first.
pub open spec fn group_of(ms: Seq<Hit>, mode: GroupMode, key: Seq<char>, n: int) -> Group {
    Group {
        record_type: "group"@,
        group_by: mode_name(mode),
        key,
        project: ms[0].project,
        session_id: ms[0].session_id,
        hits: ms.len(),
        first_ts: first_ts(ms),
        last_ts: last_ts(ms),
        samples: samples(ms, n),
    }
}

/// The groups of the matches, in the order in which they first appear, each with at most `n`
/// samples.
pub open spec fn groups(hits: Seq<Hit>, mode: GroupMode, n: int) -> Seq<Group> {
    group_keys(hits, mode).map_values(
        |key: Seq<char>| group_of(members(hits, mode, key), mode, key, n),
    )
}

/// The values of a list of groups.
pub open spec fn groups_of(records: Seq<GroupRecord>) -> Seq<Group> {
    records.map_values(|g: GroupRecord| g@)
}

/// A group with one match more.
pub open spec fn grown(g: Group, h: Hit, n: int) -> Group {
    Group {
        hits: g.hits + 1,
        first_ts: earlier(g.first_ts, h.timestamp),
        last_ts: later(g.last_ts, h.timestamp),
        samples: if g.samples.len() < n {
            g.samples.push(sample_of(h))
        } else {
            g.samples
        },
        ..g
    }
}

/// A group grows by a match as its matches do.
proof fn lemma_group_grows(ms: Seq<Hit>, h: Hit, mode: GroupMode, key: Seq<char>, n: int)
    requires
        ms.len() > 0,
        0 <= n,
    ensures
        group_of(ms.push(h), mode, key, n) == grown(group_of(ms, mode, key, n), h, n),
{
    assert(ms.push(h).drop_last() =~= ms);
    assert(samples(ms.push(h), n) =~= grown(group_of(ms, mode, key, n), h, n).samples);
    assert(group_of(ms.push(h), mode, key, n) =~= grown(group_of(ms, mode, key, n), h, n));
}

/// A key is listed exactly where it has matches, and none is listed twice.
proof fn lemma_keys(hits: Seq<Hit>, mode: GroupMode)
    ensures
        forall|p: int, q: int|
            0 <= p < q < group_keys(hits, mode).len() ==> group_keys(hits, mode)[p] != group_keys(
                hits,
                mode,
            )[q],
        forall|key: Seq<char>| #[trigger]
            group_keys(hits, mode).contains(key) <==> members(hits, mode, key).len() > 0,
        group_keys(hits, mode).len() <= hits.len(),
    decreases hits.len(),
{
    if hits.len() > 0 {
        let rest = hits.drop_last();
        lemma_keys(rest, mode);
        let before = group_keys(rest, mode);
        let after = group_keys(hits, mode);
        let k = group_key(hits.last(), mode);
        assert forall|key: Seq<char>| #[trigger] after.contains(key) <==> members(
            hits,
            mode,
            key,
        ).len() > 0 by {
            if !before.contains(k) {
                assert(after[before.len() as int] == k);
            }
            if before.contains(key) {
                let p = choose|p: int| 0 <= p < before.len() && before[p] == key;
                assert(after[p] == key);
            }
            assert(before.contains(key) <==> members(rest, mode, key).len() > 0);
        }
        assert forall|p: int, q: int| 0 <= p < q < after.len() implies after[p] != after[q] by {
            if q == before.len() {
                assert(before.contains(before[p]));
            }
        }
    }
}

/// Adds a match to its group.
fn grow(g: &mut GroupRecord, rec: &SearchRecord, n: usize)
    requires
        old(g).hits < usize::MAX,
    ensures
        final(g)@ == grown(old(g)@, rec@, n as int),
        final(g).hits == old(g).hits + 1,
{
    g.hits = g.hits + 1;
    match &rec.timestamp {
        Some(ts) => {
            let first = match &g.first_ts {
                Some(b) => text_less(ts.as_str(), b.as_str()),
                None => true,
            };
            if first {
                g.first_ts = Some(ts.clone());
            }
            let last = match &g.last_ts {
                Some(b) => text_less(b.as_str(), ts.as_str()),
                None => true,
            };
            if last {
                g.last_ts = Some(ts.clone());
            }
        },
        None => {},
    }
    if g.samples.len() < n {
        let ghost before = g.samples@;
        g.samples.push(
            GroupSample {
                line: rec.line,
                timestamp: rec.timestamp.clone(),
                text: rec.text.clone(),
            },
        );
        assert(samples_of(g.samples@) =~= samples_of(before).push(sample_of(rec@)));
    }
    assert(g@ =~= grown(old(g)@, rec@, n as int));
}

/// The key of a match.
fn key_of(rec: &SearchRecord, mode: GroupMode) -> (r: String)
    ensures
        r@ == group_key(rec@, mode),
{
    match mode {
        GroupMode::Session => rec.session_id.clone(),
        GroupMode::Thread => match &rec.thread_root {
            Some(root) => root.clone(),
            None => rec.session_id.clone(),
        },
    }
}

/// A group without a match, for the match that it begins with.
fn begin(rec: &SearchRecord, mode: GroupMode, key: String) -> (r: GroupRecord)
    ensures
        r.hits == 0,
        r@ == (Group {
            record_type: "group"@,
            group_by: mode_name(mode),
            key: key@,
            project: rec@.project,
            session_id: rec@.session_id,
            hits: 0,
            first_ts: None,
            last_ts: None,
            samples: Seq::empty(),
        }),
{
    let r = GroupRecord {
        record_type: "group",
        group_by: match mode {
            GroupMode::Session => "session",
            GroupMode::Thread => "thread",
        },
        key,
        project: rec.project.clone(),
        session_id: rec.session_id.clone(),
        hits: 0,
        first_ts: None,
        last_ts: None,
        samples: Vec::new(),
    };
    assert(samples_of(r.samples@) =~= Seq::empty());
    r
}

/// Whether `index` leads from each key to its group.
spec fn indexes(index: Map<Seq<char>, usize>, keys: Seq<Seq<char>>) -> bool {
    &&& forall|k: Seq<char>| #[trigger] index.dom().contains(k) <==> keys.contains(k)
    &&& forall|k: Seq<char>| #[trigger]
        index.dom().contains(k) ==> index[k] < keys.len() && keys[index[k] as int] == k
}

/// Takes matches together, each group with at most `n` samples.
pub fn collect_groups(all: &Vec<SearchRecord>, mode: GroupMode, n: usize) -> (r: Vec<GroupRecord>)
    ensures
        groups_of(r@) == groups(hits_of(all@), mode, n as int),
{
    let ghost hits = hits_of(all@);
    let mut index: StringHashMap<usize> = StringHashMap::new();
    let mut r: Vec<GroupRecord> = Vec::new();
    let mut i: usize = 0;
    assert(groups_of(r@) =~= groups(hits.take(0), mode, n as int));
    while i < all.len()
        invariant
            i <= all.len(),
            hits == hits_of(all@),
            indexes(index@, group_keys(hits.take(i as int), mode)),
            groups_of(r@) == groups(hits.take(i as int), mode, n as int),
        decreases all.len() - i,
    {
        let rec = &all[i];
        let key = key_of(rec, mode);
        let ghost before = hits.take(i as int);
        let ghost next = hits.take(i + 1);
        let ghost keys = group_keys(before, mode);
        let ghost old_r = r@;
        proof {
            assert(next.drop_last() =~= before);
            assert(next.last() == rec@);
            assert(groups_of(r@).len() == groups(before, mode, n as int).len());
            lemma_keys(before, mode);
            lemma_members_bound(before, mode, key@);
            assert forall|k: Seq<char>| k != key@ implies #[trigger] members(next, mode, k)
                == members(before, mode, k) by {}
            assert forall|j: int| 0 <= j < r.len() implies #[trigger] r@[j]@ == groups(
                before,
                mode,
                n as int,
            )[j] by {
                assert(groups_of(r@)[j] == r@[j]@);
            }
        }
        match index.get(key.as_str()) {
            Some(at) => {
                let at: usize = *at;
                assert(keys.contains(key@));
                assert(r@[at as int]@ == groups(before, mode, n as int)[at as int]);
                proof {
                    lemma_group_grows(
                        members(before, mode, key@),
                        rec@,
                        mode,
                        key@,
                        n as int,
                    );
                }
                grow(&mut r[at], rec, n);
                proof {
                    assert(group_keys(next, mode) == keys);
                    assert forall|j: int| 0 <= j < keys.len() implies #[trigger] groups_of(r@)[j]
                        == groups(next, mode, n as int)[j] by {
                        if j != at {
                            assert(keys[j] != keys[at as int]);
                            assert(r@[j] == old_r[j]);
                            assert(old_r[j]@ == groups(before, mode, n as int)[j]);
                            assert(members(next, mode, keys[j]) == members(before, mode, keys[j]));
                        } else {
                            assert(members(next, mode, key@) == members(before, mode, key@).push(
                                rec@,
                            ));
                        }
                    }
                    assert(groups_of(r@) =~= groups(next, mode, n as int));
                }
            },
            None => {
                assert(!keys.contains(key@));
                let ghost old_index = index@;
                let place: usize = r.len();
                index.insert(key.clone(), place);
                let mut g = begin(rec, mode, key);
                grow(&mut g, rec, n);
                let ghost gv = g@;
                r.push(g);
                proof {
                    let after = group_keys(next, mode);
                    assert(after == keys.push(key@));
                    assert(members(before, mode, key@).len() == 0);
                    assert(members(next, mode, key@) =~= seq![rec@]);
                    let one = seq![rec@];
                    assert(one.drop_last() =~= Seq::<Hit>::empty());
                    assert(samples(one, n as int) =~= gv.samples);
                    reveal_with_fuel(first_ts, 2);
                    reveal_with_fuel(last_ts, 2);
                    assert(gv =~= group_of(one, mode, key@, n as int));
                    assert forall|j: int| 0 <= j < after.len() implies #[trigger] groups_of(r@)[j]
                        == groups(next, mode, n as int)[j] by {
                        if j < keys.len() {
                            assert(keys.contains(keys[j]));
                            assert(r@[j] == old_r[j]);
                            assert(old_r[j]@ == groups(before, mode, n as int)[j]);
                            assert(members(next, mode, keys[j]) == members(before, mode, keys[j]));
                        }
                    }
                    assert(groups_of(r@) =~= groups(next, mode, n as int));
                    assert forall|k: Seq<char>| #[trigger]
                        index@.dom().contains(k) <==> after.contains(k) by {
                        if keys.contains(k) {
                            let p = choose|p: int| 0 <= p < keys.len() && keys[p] == k;
                            assert(after[p] == k);
                        }
                        assert(after[keys.len() as int] == key@);
                    }
                    assert forall|k: Seq<char>| #[trigger] index@.dom().contains(k) implies index@[k]
                        < after.len() && after[index@[k] as int] == k by {
                        if k != key@ {
                            assert(old_index.dom().contains(k));
                        }
                    }
                }
            },
        }
        i = i + 1;
    }
    assert(hits.take(i as int) =~= hits);
    r
}

/// A group holds no more matches than there are.
proof fn lemma_members_bound(hits: Seq<Hit>, mode: GroupMode, key: Seq<char>)
    ensures
        members(hits, mode, key).len() <= hits.len(),
    decreases hits.len(),
{
    if hits.len() > 0 {
        lemma_members_bound(hits.drop_last(), mode, key);
    }
}

/// Writes the groups of the matches, at most `max` of them (0 for all), as far as the budget
/// has room. Gives how many were written, how many were to be written, and whether `max` left
/// any out.
pub fn emit_groups(
    all: &Vec<SearchRecord>,
    mode: GroupMode,
    max: usize,
    samples_per_group: usize,
    em: &mut Emitter,
) -> (r: (usize, usize, bool))
    requires
        old(em).wf(),
    ensures
        final(em).wf(),
        ({
            let gs = groups(hits_of(all@), mode, samples_per_group as int);
            let lines = value_lines(group_values(capped(gs, max as int)));
            &&& r.0 == taken_count(old(em)@, lines)
            &&& r.1 == lines.len()
            &&& r.2 == (0 < max < gs.len())
            &&& final(em)@ == offered_all(old(em)@, lines)
        }),
{
    let ghost gs = groups(hits_of(all@), mode, samples_per_group as int);
    let mut list = collect_groups(all, mode, samples_per_group);
    assert(groups_of(list@).len() == gs.len());
    let cut = max > 0 && list.len() > max;
    if cut {
        list.truncate(max);
    }
    let intended: usize = list.len();
    assert(groups_of(list@) =~= capped(gs, max as int));
    assert(lines_of(list@) =~= value_lines(group_values(capped(gs, max as int))));
    let count: usize = em.emit_all(&list);
    (count, intended, cut)
}

// ---- Laws of grouping -----------------------------------------------------

/// How many matches the groups hold together.
pub open spec fn total_hits(gs: Seq<Group>) -> nat
    decreases gs.len(),
{
    if gs.len() == 0 {
        0
    } else {
        total_hits(gs.drop_last()) + gs.last().hits
    }
}

/// How many matches the groups of some keys hold together.
spec fn total_members(hits: Seq<Hit>, mode: GroupMode, keys: Seq<Seq<char>>) -> nat
    decreases keys.len(),
{
    if keys.len() == 0 {
        0
    } else {
        total_members(hits, mode, keys.drop_last()) + members(hits, mode, keys.last()).len()
    }
}

/// One match more adds one, to the group of its key.
proof fn lemma_total_grows(hits: Seq<Hit>, h: Hit, mode: GroupMode, keys: Seq<Seq<char>>)
    requires
        forall|p: int, q: int| 0 <= p < q < keys.len() ==> keys[p] != keys[q],
    ensures
        total_members(hits.push(h), mode, keys) == total_members(hits, mode, keys) + if keys.contains(
            group_key(h, mode),
        ) {
            1nat
        } else {
            0nat
        },
    decreases keys.len(),
{
    if keys.len() > 0 {
        let rest = keys.drop_last();
        let k = group_key(h, mode);
        lemma_total_grows(hits, h, mode, rest);
        assert(hits.push(h).drop_last() =~= hits);
        assert(rest.contains(k) ==> keys.contains(k)) by {
            if rest.contains(k) {
                let p = choose|p: int| 0 <= p < rest.len() && rest[p] == k;
                assert(keys[p] == k);
            }
        }
        if keys.last() == k {
            assert(keys[keys.len() - 1] == k);
            assert(!rest.contains(k));
        } else if keys.contains(k) {
            let p = choose|p: int| 0 <= p < keys.len() && keys[p] == k;
            assert(rest[p] == k);
        }
    }
}

proof fn lemma_total_members(hits: Seq<Hit>, mode: GroupMode)
    ensures
        total_members(hits, mode, group_keys(hits, mode)) == hits.len(),
    decreases hits.len(),
{
    if hits.len() == 0 {
        assert(group_keys(hits, mode).len() == 0);
    } else {
        let rest = hits.drop_last();
        let h = hits.last();
        let k = group_key(h, mode);
        lemma_total_members(rest, mode);
        lemma_keys(rest, mode);
        assert(rest.push(h) =~= hits);
        let before = group_keys(rest, mode);
        lemma_total_grows(rest, h, mode, before);
        if !before.contains(k) {
            let after = before.push(k);
            assert(after.drop_last() =~= before);
            assert(members(rest, mode, k).len() == 0);
        }
    }
}

proof fn lemma_total_hits(hits: Seq<Hit>, mode: GroupMode, keys: Seq<Seq<char>>, n: int)
    ensures
        total_hits(
            keys.map_values(|key: Seq<char>| group_of(members(hits, mode, key), mode, key, n)),
        ) == total_members(hits, mode, keys),
    decreases keys.len(),
{
    let gs = keys.map_values(|key: Seq<char>| group_of(members(hits, mode, key), mode, key, n));
    if keys.len() > 0 {
        lemma_total_hits(hits, mode, keys.drop_last(), n);
        assert(gs.drop_last() =~= keys.drop_last().map_values(
            |key: Seq<char>| group_of(members(hits, mode, key), mode, key, n),
        ));
    }
}

/// Every match is counted in one group: the groups hold as many matches as there are.
pub proof fn law_groups_hold_every_match_once(hits: Seq<Hit>, mode: GroupMode, n: int)
    ensures
        total_hits(groups(hits, mode, n)) == hits.len(),
{
    lemma_total_members(hits, mode);
    lemma_total_hits(hits, mode, group_keys(hits, mode), n);
}

/// No two groups have the same key, and none is empty.
pub proof fn law_groups_have_their_own_keys(hits: Seq<Hit>, mode: GroupMode, n: int)
    ensures
        forall|p: int, q: int|
            0 <= p < q < groups(hits, mode, n).len() ==> (#[trigger] groups(hits, mode, n)[p]).key
                != (#[trigger] groups(hits, mode, n)[q]).key,
        forall|p: int|
            0 <= p < groups(hits, mode, n).len() ==> (#[trigger] groups(hits, mode, n)[p]).hits
                > 0,
{
    lemma_keys(hits, mode);
    let keys = group_keys(hits, mode);
    let gs = groups(hits, mode, n);
    assert forall|p: int| 0 <= p < gs.len() implies (#[trigger] gs[p]).hits > 0 by {
        assert(keys.contains(keys[p]));
    }
    assert forall|p: int, q: int| 0 <= p < q < gs.len() implies (#[trigger] gs[p]).key != (
    #[trigger] gs[q]).key by {
        assert(keys[p] != keys[q]);
    }
}

/// The range of timestamps of a group spans those of its matches.
pub proof fn law_group_spans_its_matches(ms: Seq<Hit>, i: int)
    requires
        0 <= i < ms.len(),
    ensures
        ms[i].timestamp is Some ==> {
            &&& first_ts(ms) is Some
            &&& last_ts(ms) is Some
            &&& !text_lt(ms[i].timestamp->0, first_ts(ms)->0)
            &&& !text_lt(last_ts(ms)->0, ms[i].timestamp->0)
        },
    decreases ms.len(),
{
    let rest = ms.drop_last();
    if i < rest.len() {
        law_group_spans_its_matches(rest, i);
        assert(rest[i] == ms[i]);
        if ms[i].timestamp is Some && ms.last().timestamp is Some {
            let ts = codes(ms[i].timestamp->0);
            let t = codes(ms.last().timestamp->0);
            let a = codes(first_ts(rest)->0);
            let b = codes(last_ts(rest)->0);
            if lex_lt(ts, t) && lex_lt(t, a) {
                lemma_lex_transitive(ts, t, a);
            }
            if lex_lt(b, t) && lex_lt(t, ts) {
                lemma_lex_transitive(b, t, ts);
            }
        }
    } else if ms[i].timestamp is Some {
        let ts = codes(ms[i].timestamp->0);
        lemma_lex_irreflexive(ts);
    }
}

/// A group shows its first matches, as many as asked for or as it has.
pub proof fn law_group_shows_its_first_matches(ms: Seq<Hit>, mode: GroupMode, key: Seq<char>, n: int)
    requires
        0 <= n,
    ensures
        group_of(ms, mode, key, n).samples.len() == if n < ms.len() {
            n
        } else {
            ms.len() as int
        },
        forall|i: int|
            0 <= i < group_of(ms, mode, key, n).samples.len() ==> #[trigger] group_of(
                ms,
                mode,
                key,
                n,
            ).samples[i] == sample_of(ms[i]),
{
}

/// No group holds more matches than there are.
pub proof fn law_no_group_exceeds_the_matches(hits: Seq<Hit>, mode: GroupMode, n: int, i: int)
    requires
        0 <= i < groups(hits, mode, n).len(),
    ensures
        groups(hits, mode, n)[i].hits <= hits.len(),
{
    lemma_members_bound(hits, mode, group_keys(hits, mode)[i]);
}

/// There are no more groups than matches.
pub proof fn law_no_more_groups_than_matches(hits: Seq<Hit>, mode: GroupMode, n: int)
    ensures
        groups(hits, mode, n).len() <= hits.len(),
{
    lemma_keys(hits, mode);
}

/// Matches are grouped by their session, or by the root of their thread; one without a thread
/// belongs to its session.
pub proof fn law_matches_are_grouped_by_session_or_thread(h: Hit)
    ensures
        group_key(h, GroupMode::Session) == h.session_id,
        h.thread_root matches Some(root) ==> group_key(h, GroupMode::Thread) == root,
        h.thread_root is None ==> group_key(h, GroupMode::Thread) == h.session_id,
{
}

/// A group holds the matches of its key, in their order and no others, and groups come in the
/// order in which their first match does.
pub proof fn law_groups_gather_in_order(
    a: Seq<Hit>,
    b: Seq<Hit>,
    h: Hit,
    mode: GroupMode,
    key: Seq<char>,
)
    ensures
        members(Seq::empty(), mode, key) == Seq::<Hit>::empty(),
        members(a + b, mode, key) == members(a, mode, key) + members(b, mode, key),
        members(seq![h], mode, key) == if group_key(h, mode) == key {
            seq![h]
        } else {
            Seq::empty()
        },
        group_keys(Seq::empty(), mode) == Seq::<Seq<char>>::empty(),
        members(a, mode, group_key(h, mode)).len() > 0 ==> group_keys(a.push(h), mode)
            == group_keys(a, mode),
        members(a, mode, group_key(h, mode)).len() == 0 ==> group_keys(a.push(h), mode)
            == group_keys(a, mode).push(group_key(h, mode)),
    decreases b.len(),
{
    reveal_with_fuel(members, 2);
    assert(seq![h].drop_last() =~= Seq::empty());
    assert(seq![h].last() == h);
    assert(members(seq![h], mode, key) =~= if group_key(h, mode) == key {
        seq![h]
    } else {
        Seq::empty()
    });
    lemma_keys(a, mode);
    assert(a.push(h).drop_last() =~= a);
    if b.len() == 0 {
        assert(a + b =~= a);
        assert(members(a, mode, key) + members(b, mode, key) =~= members(a, mode, key));
    } else {
        assert((a + b).drop_last() =~= a + b.drop_last());
        assert((a + b).last() == b.last());
        law_groups_gather_in_order(a, b.drop_last(), h, mode, key);
        assert(members(a + b, mode, key) =~= members(a, mode, key) + members(b, mode, key));
    }
}

/// What is told of a group: its key and how it was made, how many matches it holds, the project
/// and the session of the first, the range of their timestamps, and its first matches, each
/// with its line, timestamp and snippet.
pub proof fn law_groups_tell_of_their_matches(
    hits: Seq<Hit>,
    mode: GroupMode,
    n: int,
    p: int,
    i: int,
)
    requires
        0 <= n,
        0 <= p < groups(hits, mode, n).len(),
    ensures
        groups(hits, mode, n).len() == group_keys(hits, mode).len(),
        ({
            let g = groups(hits, mode, n)[p];
            let ms = members(hits, mode, g.key);
            &&& g.record_type == "group"@
            &&& g.key == group_keys(hits, mode)[p]
            &&& mode == GroupMode::Session ==> g.group_by == "session"@
            &&& mode == GroupMode::Thread ==> g.group_by == "thread"@
            &&& ms.len() > 0
            &&& g.hits == ms.len()
            &&& g.project == ms[0].project
            &&& g.session_id == ms[0].session_id
            &&& g.first_ts == first_ts(ms)
            &&& g.last_ts == last_ts(ms)
            &&& g.samples.len() == if n < ms.len() {
                n
            } else {
                ms.len() as int
            }
            &&& 0 <= i < g.samples.len() ==> g.samples[i].line == ms[i].line
                && g.samples[i].timestamp == ms[i].timestamp && g.samples[i].text == ms[i].text
        }),
{
    lemma_keys(hits, mode);
    let key = group_keys(hits, mode)[p];
    assert(group_keys(hits, mode).contains(key));
}

/// The ends of a group's range of timestamps are timestamps of its matches, and there is none
/// exactly where no match has one.
pub proof fn law_group_range_is_reached(ms: Seq<Hit>)
    ensures
        first_ts(ms) is Some ==> exists|i: int|
            0 <= i < ms.len() && (#[trigger] ms[i]).timestamp == first_ts(ms),
        last_ts(ms) is Some ==> exists|i: int|
            0 <= i < ms.len() && (#[trigger] ms[i]).timestamp == last_ts(ms),
        first_ts(ms) is None ==> forall|i: int|
            0 <= i < ms.len() ==> (#[trigger] ms[i]).timestamp is None,
        last_ts(ms) is None ==> forall|i: int|
            0 <= i < ms.len() ==> (#[trigger] ms[i]).timestamp is None,
    decreases ms.len(),
{
    if ms.len() > 0 {
        let rest = ms.drop_last();
        let n = ms.len() - 1;
        law_group_range_is_reached(rest);
        assert(ms[n] == ms.last());
        if first_ts(rest) is Some {
            let i = choose|i: int| 0 <= i < rest.len() && (#[trigger] rest[i]).timestamp == first_ts(rest);
            assert(ms[i] == rest[i]);
        }
        if last_ts(rest) is Some {
            let i = choose|i: int| 0 <= i < rest.len() && (#[trigger] rest[i]).timestamp == last_ts(rest);
            assert(ms[i] == rest[i]);
        }
        assert forall|i: int| 0 <= i < n implies #[trigger] ms[i] == rest[i] by {}
    }
}

} // verus!
