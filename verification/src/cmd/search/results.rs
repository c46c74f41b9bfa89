//! The order of results, and repeated snippets.
use vstd::hash_set::StringHashSet;
use vstd::prelude::*;
use vstd::string::*;

use super::records::{hits_of, Hit, SearchRecord};
use super::SortMode;
use crate::cmd::{lemma_ts_keys, timestamp_key, ts_key};
use crate::order::{
    is_ranking, key_views, lemma_lex_irreflexive, lemma_lex_transitive, lemma_ranking_exists,
    lex_lt, listed_before, ranking, sort_by_keys,
};
use crate::text::text_lt;

verus! {

broadcast use {
    vstd::seq::group_seq_axioms,
    vstd::string::group_string_axioms,
    vstd::set::group_set_axioms,
};

// ---- Order ----------------------------------------------------------------

/// What a score is ordered by: a missing one comes before all others.
pub open spec fn score_key(score: Option<u64>) -> Seq<u64> {
    match score {
        Some(n) => seq![n],
        None => Seq::empty(),
    }
}

/// What a match is ordered by.
pub open spec fn sort_key(h: Hit, mode: SortMode) -> Seq<u64> {
    if mode == SortMode::Relevance {
        score_key(h.score)
    } else {
        ts_key(h.timestamp)
    }
}

/// What the matches are ordered by.
pub open spec fn sort_keys(hits: Seq<Hit>, mode: SortMode) -> Seq<Seq<u64>> {
    hits.map_values(|h: Hit| sort_key(h, mode))
}

/// Whether the greatest comes first.
pub open spec fn descending(mode: SortMode) -> bool {
    mode != SortMode::Oldest
}

/// The matches in the order asked for. Those that tie stay in the order of the logs.
pub open spec fn sorted(hits: Seq<Hit>, mode: SortMode) -> Seq<Hit> {
    if mode == SortMode::Document {
        hits
    } else {
        ranking(sort_keys(hits, mode), descending(mode)).map_values(|i: usize| hits[i as int])
    }
}

/// The key of a match.
fn record_key(rec: &SearchRecord, mode: SortMode) -> (r: Vec<u64>)
    ensures
        r@ == sort_key(rec@, mode),
{
    if mode == SortMode::Relevance {
        let mut r: Vec<u64> = Vec::new();
        match rec.score {
            Some(n) => {
                r.push(n);
                assert(r@ =~= seq![n]);
            },
            None => {},
        }
        r
    } else {
        timestamp_key(&rec.timestamp)
    }
}

/// Puts matches in the order asked for.
pub fn sort_records(all: Vec<SearchRecord>, mode: SortMode) -> (r: Vec<SearchRecord>)
    ensures
        hits_of(r@) == sorted(hits_of(all@), mode),
{
    if mode == SortMode::Document {
        return all;
    }
    let ghost hits = hits_of(all@);
    let mut keys: Vec<Vec<u64>> = Vec::new();
    let mut i: usize = 0;
    while i < all.len()
        invariant
            i <= all.len(),
            keys.len() == i,
            hits == hits_of(all@),
            forall|k: int| 0 <= k < i ==> #[trigger] keys[k]@ == sort_key(hits[k], mode),
        decreases all.len() - i,
    {
        keys.push(record_key(&all[i], mode));
        i = i + 1;
    }
    assert(key_views(keys@) =~= sort_keys(hits, mode));
    let r = sort_by_keys(all, &keys, mode != SortMode::Oldest);
    proof {
        lemma_ranking_exists(sort_keys(hits, mode), descending(mode));
        let order = ranking(sort_keys(hits, mode), descending(mode));
        assert forall|p: int| 0 <= p < order.len() implies #[trigger] order[p] < hits.len() by {
            assert(order.contains(order[p]));
        }
    }
    assert(hits_of(r@) =~= sorted(hits, mode));
    r
}

// ---- Repeats --------------------------------------------------------------

/// Whether a snippet is among those of the matches.
pub open spec fn shown_in(hits: Seq<Hit>, text: Seq<char>) -> bool {
    exists|i: int| 0 <= i < hits.len() && (#[trigger] hits[i]).text == text
}

/// The matches without those that repeat the snippet of an earlier one.
pub open spec fn distinct(hits: Seq<Hit>) -> Seq<Hit>
    decreases hits.len(),
{
    if hits.len() == 0 {
        Seq::empty()
    } else {
        let before = distinct(hits.drop_last());
        if shown_in(hits.drop_last(), hits.last().text) {
            before
        } else {
            before.push(hits.last())
        }
    }
}

/// Leaves out matches that repeat the snippet of an earlier one.
pub fn drop_repeats(all: Vec<SearchRecord>) -> (r: Vec<SearchRecord>)
    ensures
        hits_of(r@) == distinct(hits_of(all@)),
        r.len() <= all.len(),
{
    let ghost given = all@;
    let ghost hits = hits_of(all@);
    let mut seen = StringHashSet::new();
    let mut r: Vec<SearchRecord> = Vec::new();
    assert(hits_of(r@) =~= distinct(hits.take(0)));
    for rec in it: all
        invariant
            it.seq() == given,
            hits == hits_of(given),
            r.len() <= it.index(),
            hits_of(r@) == distinct(hits.take(it.index() as int)),
            forall|t: Seq<char>| #[trigger]
                seen@.contains(t) <==> shown_in(hits.take(it.index() as int), t),
    {
        let ghost i = it.index() as int;
        let ghost before = hits.take(i);
        let ghost next = hits.take(i + 1);
        assert(next.drop_last() =~= before);
        assert(next.last() == rec@);
        let ghost kept = r@;
        let fresh = seen.insert(rec.text.clone());
        if fresh {
            r.push(rec);
            assert(hits_of(r@) =~= hits_of(kept).push(rec@));
        }
        assert forall|t: Seq<char>| #[trigger] seen@.contains(t) <==> shown_in(next, t) by {
            if shown_in(before, t) {
                let j = choose|j: int| 0 <= j < before.len() && (#[trigger] before[j]).text == t;
                assert(next[j].text == t);
            }
            if t == rec.text@ {
                assert(next[i].text == t);
            }
            if shown_in(next, t) {
                let j = choose|j: int| 0 <= j < next.len() && (#[trigger] next[j]).text == t;
                if j < i {
                    assert(before[j].text == t);
                }
            }
        }
    }
    assert(hits.take(hits.len() as int) =~= hits);
    r
}

// ---- Laws -----------------------------------------------------------------

/// Sorting neither loses nor repeats a match: the order names each once, by key, and keeps the
/// order of the logs where keys tie.
pub proof fn law_sorting_is_a_stable_permutation(hits: Seq<Hit>, mode: SortMode)
    requires
        hits.len() <= usize::MAX,
        mode != SortMode::Document,
    ensures
        sorted(hits, mode).len() == hits.len(),
        is_ranking(
            sort_keys(hits, mode),
            descending(mode),
            ranking(sort_keys(hits, mode), descending(mode)),
        ),
        forall|i: int|
            0 <= i < hits.len() ==> #[trigger] sorted(hits, mode)[i]
                == hits[ranking(sort_keys(hits, mode), descending(mode))[i] as int],
{
    lemma_ranking_exists(sort_keys(hits, mode), descending(mode));
}

/// Of two results, the earlier has no smaller key where the greatest comes first, and no
/// greater one where it comes last.
proof fn lemma_sorted_keys(hits: Seq<Hit>, mode: SortMode, p: int, q: int)
    requires
        hits.len() <= usize::MAX,
        mode != SortMode::Document,
        0 <= p < q < hits.len(),
    ensures
        ({
            let a = sort_key(sorted(hits, mode)[p], mode);
            let b = sort_key(sorted(hits, mode)[q], mode);
            &&& descending(mode) ==> !lex_lt(a, b)
            &&& !descending(mode) ==> !lex_lt(b, a)
        }),
{
    let keys = sort_keys(hits, mode);
    let order = ranking(keys, descending(mode));
    lemma_ranking_exists(keys, descending(mode));
    assert(listed_before(keys, descending(mode), order[p], order[q]));
    assert(order.contains(order[p]) && order.contains(order[q]));
    let a = keys[order[p] as int];
    let b = keys[order[q] as int];
    lemma_lex_irreflexive(a);
    if lex_lt(a, b) && lex_lt(b, a) {
        lemma_lex_transitive(a, b, a);
    }
}

/// With the latest first, no result is followed by a later one, and those without a timestamp
/// come last.
pub proof fn law_recency_puts_the_latest_first(hits: Seq<Hit>, p: int, q: int)
    requires
        hits.len() <= usize::MAX,
        0 <= p < q < hits.len(),
    ensures
        ({
            let r = sorted(hits, SortMode::Recency);
            match (r[p].timestamp, r[q].timestamp) {
                (Some(a), Some(b)) => !text_lt(a, b),
                (None, Some(_)) => false,
                (_, None) => true,
            }
        }),
{
    lemma_sorted_keys(hits, SortMode::Recency, p, q);
    let r = sorted(hits, SortMode::Recency);
    if r[p].timestamp is Some && r[q].timestamp is Some {
        lemma_ts_keys(r[p].timestamp->0, r[q].timestamp->0);
    }
}

/// With the earliest first, no result is followed by an earlier one.
pub proof fn law_oldest_puts_the_earliest_first(hits: Seq<Hit>, p: int, q: int)
    requires
        hits.len() <= usize::MAX,
        0 <= p < q < hits.len(),
    ensures
        ({
            let r = sorted(hits, SortMode::Oldest);
            match (r[p].timestamp, r[q].timestamp) {
                (Some(a), Some(b)) => !text_lt(b, a),
                (Some(_), None) => false,
                (None, _) => true,
            }
        }),
{
    lemma_sorted_keys(hits, SortMode::Oldest, p, q);
    let r = sorted(hits, SortMode::Oldest);
    if r[p].timestamp is Some && r[q].timestamp is Some {
        lemma_ts_keys(r[q].timestamp->0, r[p].timestamp->0);
    }
}

/// With the most relevant first, no result is followed by one of a higher score.
pub proof fn law_relevance_puts_the_best_first(hits: Seq<Hit>, p: int, q: int)
    requires
        hits.len() <= usize::MAX,
        0 <= p < q < hits.len(),
    ensures
        ({
            let r = sorted(hits, SortMode::Relevance);
            match (r[p].score, r[q].score) {
                (Some(a), Some(b)) => a >= b,
                (None, Some(_)) => false,
                (_, None) => true,
            }
        }),
{
    lemma_sorted_keys(hits, SortMode::Relevance, p, q);
    let r = sorted(hits, SortMode::Relevance);
    if r[p].score is Some && r[q].score is Some {
        let a = score_key(r[p].score);
        let b = score_key(r[q].score);
        assert(a[0] == r[p].score->0 && b[0] == r[q].score->0);
    }
}

/// Every snippet is kept once: no two of the matches kept show the same, and what any match
/// shows, one that was kept shows.
pub proof fn law_each_snippet_is_kept_once(hits: Seq<Hit>)
    ensures
        distinct(hits).len() <= hits.len(),
        forall|p: int, q: int|
            0 <= p < q < distinct(hits).len() ==> (#[trigger] distinct(hits)[p]).text != (
            #[trigger] distinct(hits)[q]).text,
        forall|t: Seq<char>| #[trigger] shown_in(hits, t) <==> shown_in(distinct(hits), t),
    decreases hits.len(),
{
    if hits.len() > 0 {
        let rest = hits.drop_last();
        let h = hits.last();
        law_each_snippet_is_kept_once(rest);
        let kept = distinct(rest);
        let all = distinct(hits);
        if !shown_in(rest, h.text) {
            assert(!shown_in(kept, h.text));
            assert forall|p: int, q: int| 0 <= p < q < all.len() implies (#[trigger] all[p]).text
                != (#[trigger] all[q]).text by {
                if q == kept.len() {
                    assert(kept[p].text != h.text);
                } else {
                    assert(kept[p].text != kept[q].text);
                }
            }
        }
        assert forall|t: Seq<char>| #[trigger] shown_in(hits, t) <==> shown_in(all, t) by {
            if shown_in(hits, t) {
                let i = choose|i: int| 0 <= i < hits.len() && (#[trigger] hits[i]).text == t;
                if i < rest.len() {
                    assert(rest[i].text == t);
                    assert(shown_in(rest, t));
                } else if shown_in(rest, t) {
                    assert(shown_in(kept, t));
                }
                if shown_in(kept, t) {
                    let j = choose|j: int| 0 <= j < kept.len() && (#[trigger] kept[j]).text == t;
                    assert(all[j].text == t);
                } else {
                    assert(all[kept.len() as int].text == t);
                }
            }
            if shown_in(all, t) {
                let j = choose|j: int| 0 <= j < all.len() && (#[trigger] all[j]).text == t;
                if j < kept.len() {
                    assert(kept[j].text == t);
                    assert(shown_in(rest, t));
                    let i = choose|i: int| 0 <= i < rest.len() && (#[trigger] rest[i]).text == t;
                    assert(hits[i].text == t);
                } else {
                    assert(hits[hits.len() - 1].text == t);
                }
            }
        }
    }
}

/// What is left of the matches once they are sorted, or repeats are left out, are matches.
pub proof fn law_results_are_matches(hits: Seq<Hit>, mode: SortMode)
    requires
        hits.len() <= usize::MAX,
    ensures
        forall|i: int|
            0 <= i < sorted(hits, mode).len() ==> hits.contains(#[trigger] sorted(hits, mode)[i]),
        forall|i: int|
            0 <= i < distinct(hits).len() ==> hits.contains(#[trigger] distinct(hits)[i]),
{
    lemma_distinct_are_matches(hits);
    if mode != SortMode::Document {
        let order = ranking(sort_keys(hits, mode), descending(mode));
        law_sorting_is_a_stable_permutation(hits, mode);
        assert forall|i: int| 0 <= i < sorted(hits, mode).len() implies hits.contains(
            #[trigger] sorted(hits, mode)[i],
        ) by {
            assert(order.contains(order[i]));
            assert(sorted(hits, mode)[i] == hits[order[i] as int]);
        }
    }
}

/// What is left once repeats are left out are matches.
proof fn lemma_distinct_are_matches(hits: Seq<Hit>)
    ensures
        forall|i: int|
            0 <= i < distinct(hits).len() ==> hits.contains(#[trigger] distinct(hits)[i]),
    decreases hits.len(),
{
    if hits.len() > 0 {
        let rest = hits.drop_last();
        lemma_distinct_are_matches(rest);
        assert forall|i: int| 0 <= i < distinct(hits).len() implies hits.contains(
            #[trigger] distinct(hits)[i],
        ) by {
            if i < distinct(rest).len() {
                let k = choose|k: int| 0 <= k < rest.len() && rest[k] == distinct(rest)[i];
                assert(rest.contains(distinct(rest)[i]));
                assert(hits[k] == distinct(hits)[i]);
            } else {
                assert(hits[hits.len() - 1] == distinct(hits)[i]);
            }
        }
    }
}

/// Of matches that show the same, the first is kept, and the order of those kept stays: one
/// match more is kept exactly where none before it shows what it shows.
pub proof fn law_first_of_repeats_is_kept(hits: Seq<Hit>, h: Hit)
    ensures
        distinct(Seq::empty()) == Seq::<Hit>::empty(),
        (exists|i: int| 0 <= i < hits.len() && (#[trigger] hits[i]).text == h.text) ==> distinct(
            hits.push(h),
        ) == distinct(hits),
        !(exists|i: int| 0 <= i < hits.len() && (#[trigger] hits[i]).text == h.text) ==> distinct(
            hits.push(h),
        ) == distinct(hits).push(h),
{
    assert(hits.push(h).drop_last() =~= hits);
}

/// Sorting neither loses nor repeats a match, and keeps the order of the logs among those that
/// tie: result `p` is match `order[p]`, each of them once. In the order of the logs nothing is
/// moved.
pub proof fn law_sorting_moves_each_match_once(hits: Seq<Hit>, mode: SortMode) -> (order: Seq<
    usize,
>)
    requires
        hits.len() <= usize::MAX,
    ensures
        mode == SortMode::Document ==> sorted(hits, mode) == hits,
        sorted(hits, mode).len() == hits.len(),
        mode != SortMode::Document ==> {
            &&& order.len() == hits.len()
            &&& forall|k: usize| #[trigger] order.contains(k) <==> k < hits.len()
            &&& forall|p: int|
                0 <= p < hits.len() ==> #[trigger] sorted(hits, mode)[p] == hits[order[p] as int]
            &&& forall|p: int, q: int|
                0 <= p < q < hits.len() && (if mode == SortMode::Relevance {
                    hits[#[trigger] order[p] as int].score == hits[#[trigger] order[q] as int].score
                } else {
                    hits[order[p] as int].timestamp == hits[order[q] as int].timestamp
                }) ==> order[p] < order[q]
        },
{
    let keys = sort_keys(hits, mode);
    let order = ranking(keys, descending(mode));
    if mode != SortMode::Document {
        law_sorting_is_a_stable_permutation(hits, mode);
        assert forall|p: int, q: int|
            0 <= p < q < hits.len() && (if mode == SortMode::Relevance {
                hits[#[trigger] order[p] as int].score == hits[#[trigger] order[q] as int].score
            } else {
                hits[order[p] as int].timestamp == hits[order[q] as int].timestamp
            }) implies order[p] < order[q] by {
            assert(order.contains(order[p]) && order.contains(order[q]));
            assert(listed_before(keys, descending(mode), order[p], order[q]));
            lemma_lex_irreflexive(keys[order[p] as int]);
        }
    }
    order
}

} // verus!
