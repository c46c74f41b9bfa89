//! Full-text search across conversation logs.
use vstd::prelude::*;
use vstd::string::*;

use self::corpus::{merged, no_docs, Corpus, CorpusStats};
use self::groups::{emit_groups, groups};
use self::matcher::refused;
use self::records::{
    group_values, hit_values, hits_of, law_groups_are_readable, law_matches_are_readable,
    law_search_summaries_are_readable, search_summary_text, search_summary_value, Hit,
    SearchRecord, SearchSummary, Summary,
};
use self::results::{distinct, drop_repeats, sort_records, sorted};
use self::scan::{
    law_only_matching_messages_are_listed, messages, prepare, queries_of, scoring, search_file,
    session_corpus, session_hits, terms_of, Plan,
};
use crate::cmd::{capped, in_project, of_project, Session};
use crate::json::{depth_limit, readable, JsonTree};
use crate::models::Record;
use crate::output::emit::{
    all_readable, block, forced, header_value, law_truncated_iff_refused, lines_of, new_stream,
    offered, offered_all, taken_count, value_lines, Stream,
};
use crate::output::history::law_listings_can_be_read_back;
use crate::output::records::{error_text, error_value, law_errors_are_readable};
use crate::output::Emitter;
use crate::text::{
    begins_with, has_whitespace, holds_whitespace, join, joined, starts_with, texts,
};
use crate::util::discover::SessionFile;

pub mod corpus;
pub mod groups;
pub mod guarantees;
pub mod matcher;
pub mod records;
pub mod results;
pub mod scan;
pub mod snippet;
pub mod threads;

verus! {

broadcast use {vstd::seq::group_seq_axioms, vstd::string::group_string_axioms};

// ---- What is searched for -------------------------------------------------

/// The order of the results.
#[derive(Clone, Copy, Debug, Default, PartialEq, Eq, Structural)]
pub enum SortMode {
    /// As they stand in the logs.
    #[default]
    Document,
    /// The latest first; those without a timestamp last.
    Recency,
    /// The earliest first.
    Oldest,
    /// The most relevant first. Relevance is scored then.
    Relevance,
}

/// Takes matches together instead of listing each.
#[derive(Clone, Copy, Debug, PartialEq, Eq, Structural)]
pub enum GroupMode {
    /// One group for each session.
    Session,
    /// One group for each conversation thread.
    Thread,
}

/// What to search for, and how.
#[derive(Clone, Debug)]
pub struct SearchOpts {
    pub queries: Vec<String>,
    /// Whether the queries are regular expressions.
    pub is_regex: bool,
    /// Whether all queries must be found, instead of one.
    pub and_mode: bool,
    pub role: Option<String>,
    pub tool: Option<String>,
    pub project: Option<String>,
    pub after: Option<String>,
    pub before: Option<String>,
    pub branch: Option<String>,
    pub file: Option<String>,
    /// Whether only the inputs of tools are searched.
    pub tool_input: bool,
    /// The most results to write, 0 for all.
    pub max_results: usize,
    /// Whether messages that quote earlier output are searched.
    pub include_smc: bool,
    /// Sessions whose id begins so are left out.
    pub exclude_session: Option<String>,
    /// The most characters of a snippet, 0 for the whole message.
    pub snippet_len: usize,
    pub sort: SortMode,
    pub group_by: Option<GroupMode>,
    /// How many matches of a group are shown.
    pub group_samples: usize,
    /// Whether relevance is scored.
    pub score: bool,
    /// How many messages before and after a match are shown with it. They are the conversation
    /// around it: no filter applies to them.
    pub context: usize,
    /// Whether all queries make one phrase.
    pub phrase: bool,
    /// Whether matches that repeat a snippet are left out.
    pub dedupe: bool,
    /// Leaves out sessions written in the last so many seconds: the conversation that runs the
    /// search would find itself.
    pub exclude_live: Option<u64>,
}

/// Why a search cannot be run.
#[derive(Debug)]
pub enum SearchError {
    /// There is no query.
    EmptyQuery,
    /// A query is no regular expression.
    InvalidRegex { message: String },
}

impl SearchError {
    /// The text to show.
    pub fn message(&self) -> (r: String)
        ensures
            r@ == match self {
                SearchError::EmptyQuery => "search query cannot be empty"@,
                SearchError::InvalidRegex { message } => message@,
            },
    {
        match self {
            SearchError::EmptyQuery => "search query cannot be empty".to_owned(),
            SearchError::InvalidRegex { message } => message.clone(),
        }
    }
}

// ---- Which sessions are searched ------------------------------------------

/// How many nanoseconds make a second.
pub const SECOND: i128 = 1_000_000_000;

/// Whether a session was written in the last `window` seconds. One that was written at an
/// unknown time, or in the future, counts as such. Times are nanoseconds.
pub open spec fn is_live(modified: Option<i128>, now: i128, window: u64) -> bool {
    match modified {
        Some(m) => m > now || (now - m) / (SECOND as int) < window,
        None => true,
    }
}

/// Whether a session is searched.
pub open spec fn wanted(opts: SearchOpts, f: SessionFile, now: i128) -> bool {
    &&& in_project(f, opts.project)
    &&& opts.exclude_session matches Some(id) ==> !begins_with(f.session_id@, id@)
    &&& opts.exclude_live matches Some(window) ==> !is_live(f.modified, now, window)
}

/// Whether a session was written in the last `window` seconds.
pub fn live(modified: Option<i128>, now: i128, window: u64) -> (r: bool)
    ensures
        r == is_live(modified, now, window),
{
    match modified {
        Some(m) => if m > now {
            true
        } else {
            match now.checked_sub(m) {
                Some(age) => age / SECOND < window as i128,
                None => false,
            }
        },
        None => true,
    }
}

/// Whether a session is searched, at the time `now`.
pub fn selects(opts: &SearchOpts, file: &SessionFile, now: i128) -> (r: bool)
    ensures
        r == wanted(*opts, *file, now),
{
    if !of_project(file, &opts.project) {
        return false;
    }
    match &opts.exclude_session {
        Some(id) => {
            if starts_with(file.session_id.as_str(), id.as_str()) {
                return false;
            }
        },
        None => {},
    }
    match opts.exclude_live {
        Some(window) => !live(file.modified, now, window),
        None => true,
    }
}

// ---- The matches of all sessions ------------------------------------------

/// The sessions that are searched.
pub open spec fn wanted_sessions(opts: SearchOpts, ss: Seq<Session>, now: i128) -> Seq<Session>
    decreases ss.len(),
{
    if ss.len() == 0 {
        Seq::empty()
    } else {
        let before = wanted_sessions(opts, ss.drop_last(), now);
        if wanted(opts, ss.last().file, now) {
            before.push(ss.last())
        } else {
            before
        }
    }
}

/// The matches of the sessions, one after the other.
pub open spec fn all_hits(opts: SearchOpts, ss: Seq<Session>) -> Seq<Hit>
    decreases ss.len(),
{
    if ss.len() == 0 {
        Seq::empty()
    } else {
        all_hits(opts, ss.drop_last()) + session_hits(ss.last().file, opts, ss.last().log())
    }
}

/// The counts of the sessions together.
pub open spec fn whole_corpus(opts: SearchOpts, ss: Seq<Session>) -> Corpus
    decreases ss.len(),
{
    if ss.len() == 0 {
        no_docs(terms_of(opts).list.len())
    } else {
        merged(whole_corpus(opts, ss.drop_last()), session_corpus(opts, ss.last().log()))
    }
}

/// The matches of a list of results, one after the other.
pub open spec fn found_hits(results: Seq<(Vec<SearchRecord>, CorpusStats)>) -> Seq<Hit>
    decreases results.len(),
{
    if results.len() == 0 {
        Seq::empty()
    } else {
        found_hits(results.drop_last()) + hits_of(results.last().0@)
    }
}

/// The counts of a list of results together.
pub open spec fn found_corpus(results: Seq<(Vec<SearchRecord>, CorpusStats)>, terms: nat) -> Corpus
    decreases results.len(),
{
    if results.len() == 0 {
        no_docs(terms)
    } else {
        merged(found_corpus(results.drop_last(), terms), results.last().1@)
    }
}

/// Whether `results` holds what was found in each of the sessions.
pub open spec fn searched_apart(
    opts: SearchOpts,
    ss: Seq<Session>,
    results: Seq<(Vec<SearchRecord>, CorpusStats)>,
) -> bool {
    &&& results.len() == ss.len()
    &&& forall|i: int|
        0 <= i < ss.len() ==> hits_of((#[trigger] results[i]).0@) == session_hits(
            ss[i].file,
            opts,
            ss[i].log(),
        ) && results[i].1@ == session_corpus(opts, ss[i].log())
}

/// Puts together what was found in each session: the matches in the order of the sessions, and
/// the counts for all the terms.
pub fn gather(results: Vec<(Vec<SearchRecord>, CorpusStats)>, terms: usize) -> (r: (
    Vec<SearchRecord>,
    CorpusStats,
))
    ensures
        hits_of(r.0@) == found_hits(results@),
        r.1@ == found_corpus(results@, terms as nat),
{
    let ghost given = results@;
    let mut all: Vec<SearchRecord> = Vec::new();
    let mut corpus = CorpusStats::new(terms);
    assert(hits_of(all@) =~= found_hits(given.take(0)));
    for part in it: results
        invariant
            it.seq() == given,
            hits_of(all@) == found_hits(given.take(it.index() as int)),
            corpus@ == found_corpus(given.take(it.index() as int), terms as nat),
    {
        let ghost i = it.index() as int;
        assert(given.take(i + 1).drop_last() =~= given.take(i));
        let ghost before = all@;
        let (hits, stats) = part;
        let ghost more = hits@;
        let mut hits = hits;
        corpus.merge(&stats);
        all.append(&mut hits);
        assert(hits_of(all@) =~= hits_of(before) + hits_of(more));
    }
    assert(given.take(given.len() as int) =~= given);
    (all, corpus)
}

/// Whether `out` is the match `hit` with a score that `score` gives for it.
pub open spec fn scored<F: Fn(&CorpusStats, &Vec<usize>, usize) -> u64>(
    score: F,
    corpus: Corpus,
    hit: Hit,
    out: Hit,
) -> bool {
    &&& out == Hit { score: out.score, ..hit }
    &&& out.score is Some
    &&& exists|c: CorpusStats, t: Vec<usize>|
        c@ == corpus && t@ == hit.tfs && #[trigger] score.ensures(
            (&c, &t, hit.doc_len),
            out.score->0,
        )
}

/// Whether `out` is `hits`, each with a score that `score` gives for it.
pub open spec fn scored_by<F: Fn(&CorpusStats, &Vec<usize>, usize) -> u64>(
    score: F,
    corpus: Corpus,
    hits: Seq<Hit>,
    out: Seq<Hit>,
) -> bool {
    &&& out.len() == hits.len()
    &&& forall|i: int| 0 <= i < hits.len() ==> scored(score, corpus, hits[i], #[trigger] out[i])
}

/// Sets the score of a match.
fn set_score(rec: &mut SearchRecord, n: u64)
    ensures
        final(rec)@ == (Hit { score: Some(n), ..old(rec)@ }),
{
    rec.score = Some(n);
    assert(rec@ =~= (Hit { score: Some(n), ..old(rec)@ }));
}

/// Scores each match with what the whole corpus shows.
pub fn score_all<F: Fn(&CorpusStats, &Vec<usize>, usize) -> u64>(
    all: Vec<SearchRecord>,
    corpus: &CorpusStats,
    score: &F,
) -> (r: Vec<SearchRecord>)
    requires
        forall|c: &CorpusStats, t: &Vec<usize>, n: usize| #[trigger] score.requires((c, t, n)),
    ensures
        scored_by(*score, corpus@, hits_of(all@), hits_of(r@)),
{
    let ghost hits = hits_of(all@);
    let mut r = all;
    let mut i: usize = 0;
    while i < r.len()
        invariant
            i <= r.len(),
            r.len() == hits.len(),
            forall|c: &CorpusStats, t: &Vec<usize>, n: usize| #[trigger] score.requires((c, t, n)),
            forall|k: int| i <= k < r.len() ==> #[trigger] r@[k]@ == hits[k],
            forall|k: int| 0 <= k < i ==> scored(*score, corpus@, hits[k], #[trigger] r@[k]@),
        decreases r.len() - i,
    {
        let ghost hit = hits[i as int];
        assert(r@[i as int]@ == hit);
        let n: u64 = score(corpus, &r[i].tfs, r[i].doc_len);
        proof {
            let out = Hit { score: Some(n), ..hit };
            let (c, t) = (*corpus, r@[i as int].tfs);
            assert(out.score->0 == n);
            assert((*score).ensures((&c, &t, hit.doc_len), out.score->0));
            assert(scored(*score, corpus@, hit, out));
        }
        set_score(&mut r[i], n);
        i = i + 1;
    }
    r
}

// ---- What is written ------------------------------------------------------

/// What is said where a query of several words finds nothing.
pub const HINT: &'static str = "0 matches: a multi-word query matches as ONE exact substring. Pass words as separate arguments for OR (or ranked --sort relevance) search, or use --phrase/-F to make exact-phrase intent explicit.";

/// The matches in the order asked for, without repeats where that is asked for.
pub open spec fn kept(opts: SearchOpts, hits: Seq<Hit>) -> Seq<Hit> {
    if opts.dedupe {
        distinct(sorted(hits, opts.sort))
    } else {
        sorted(hits, opts.sort)
    }
}

/// What to write: the matches, or their groups, at most as many as asked for.
pub open spec fn result_values(opts: SearchOpts, list: Seq<Hit>) -> Seq<JsonTree> {
    match opts.group_by {
        Some(mode) => group_values(
            capped(groups(list, mode, opts.group_samples as int), opts.max_results as int),
        ),
        None => hit_values(capped(list, opts.max_results as int)),
    }
}

/// The lines to write.
pub open spec fn result_lines(opts: SearchOpts, list: Seq<Hit>) -> Seq<Seq<char>> {
    value_lines(result_values(opts, list))
}

/// Whether the limit on results leaves any out.
pub open spec fn leaves_out(opts: SearchOpts, list: Seq<Hit>) -> bool {
    match opts.group_by {
        Some(mode) => 0 < opts.max_results < groups(list, mode, opts.group_samples as int).len(),
        None => 0 < opts.max_results < list.len(),
    }
}

/// Whether the hint is due: a single query of several words, meant as words, finds nothing.
pub open spec fn hint_due(opts: SearchOpts, total: nat) -> bool {
    &&& total == 0
    &&& !opts.is_regex
    &&& !opts.phrase
    &&& queries_of(opts).len() == 1
    &&& has_whitespace(queries_of(opts)[0])
}

/// The stream once the results are written.
pub open spec fn with_results(opts: SearchOpts, hits: Seq<Hit>, s: Stream) -> Stream {
    offered_all(s, result_lines(opts, kept(opts, hits)))
}

/// The stream once the hint is written, if it is due.
pub open spec fn with_hint(opts: SearchOpts, hits: Seq<Hit>, s: Stream) -> Stream {
    if hint_due(opts, hits.len()) {
        offered(with_results(opts, hits, s), error_text("warning"@, None, HINT@), false)
    } else {
        with_results(opts, hits, s)
    }
}

/// The summary of a search.
pub open spec fn summary_of(
    opts: SearchOpts,
    hits: Seq<Hit>,
    files_scanned: nat,
    elapsed_ms: nat,
    s: Stream,
) -> Summary {
    let list = kept(opts, hits);
    let lines = result_lines(opts, list);
    Summary {
        record_type: "summary"@,
        query: joined(queries_of(opts), ", "@),
        count: taken_count(s, lines),
        total_matched: hits.len(),
        files_scanned,
        truncated: taken_count(s, lines) < lines.len(),
        capped: leaves_out(opts, list),
        deduped: if opts.dedupe {
            Some((sorted(hits, opts.sort).len() - list.len()) as nat)
        } else {
            None
        },
        elapsed_ms,
    }
}

/// The stream at the end of a search.
pub open spec fn concluded(
    opts: SearchOpts,
    hits: Seq<Hit>,
    files_scanned: nat,
    elapsed_ms: nat,
    s: Stream,
) -> Stream {
    forced(
        with_hint(opts, hits, s),
        search_summary_text(summary_of(opts, hits, files_scanned, elapsed_ms, s)),
    )
}

/// Writes the results of a search: the matches or their groups in the order asked for, a hint
/// where it is due, and the summary. Says whether anything matched. `all` holds every match in
/// the order of the logs.
pub fn conclude(
    plan: &Plan<'_>,
    all: Vec<SearchRecord>,
    files_scanned: usize,
    elapsed_ms: u128,
    em: &mut Emitter,
) -> (r: bool)
    requires
        plan.wf(),
        old(em).wf(),
    ensures
        final(em).wf(),
        r == (all@.len() > 0),
        final(em)@ == concluded(
            *plan.opts,
            hits_of(all@),
            files_scanned as nat,
            elapsed_ms as nat,
            old(em)@,
        ),
{
    let opts = plan.opts;
    let ghost hits = hits_of(all@);
    let total_matched: usize = all.len();
    let mut list = sort_records(all, opts.sort);
    assert(hits_of(list@).len() == list@.len());
    let pre: usize = list.len();
    if opts.dedupe {
        list = drop_repeats(list);
    }
    let deduped: usize = pre - list.len();
    assert(hits_of(list@) == kept(*opts, hits));
    assert(hits_of(list@).len() == list@.len());
    let (count, intended, cut) = match opts.group_by {
        Some(mode) => emit_groups(&list, mode, opts.max_results, opts.group_samples, em),
        None => {
            let cut = opts.max_results > 0 && list.len() > opts.max_results;
            if cut {
                list.truncate(opts.max_results);
            }
            assert(hits_of(list@) =~= capped(kept(*opts, hits), opts.max_results as int));
            assert(lines_of(list@) =~= result_lines(*opts, kept(*opts, hits)));
            let intended: usize = list.len();
            let count: usize = em.emit_all(&list);
            (count, intended, cut)
        },
    };
    if total_matched == 0 && !opts.is_regex && !opts.phrase && plan.queries.len() == 1 {
        assert(texts(plan.queries@)[0] == plan.queries@[0]@);
        if holds_whitespace(plan.queries[0].as_str()) {
            em.warn(None, HINT);
        }
    }
    assert(texts(plan.queries@).len() == plan.queries@.len());
    assert(em@ == with_hint(*opts, hits, old(em)@));
    let summary = SearchSummary {
        record_type: "summary",
        query: join(&plan.queries, ", "),
        count,
        total_matched,
        files_scanned,
        truncated: count < intended,
        capped: cut,
        deduped: if opts.dedupe {
            Some(deduped)
        } else {
            None
        },
        elapsed_ms,
    };
    assert(summary@ =~= summary_of(
        *opts,
        hits,
        files_scanned as nat,
        elapsed_ms as nat,
        old(em)@,
    ));
    em.emit_always(&summary);
    total_matched > 0
}

/// Whether `out` is what is written of the matches `hits`: scored where relevance is scored.
pub open spec fn rated<F: Fn(&CorpusStats, &Vec<usize>, usize) -> u64>(
    opts: SearchOpts,
    score: F,
    corpus: Corpus,
    hits: Seq<Hit>,
    out: Seq<Hit>,
) -> bool {
    if scoring(opts) {
        scored_by(score, corpus, hits, out)
    } else {
        out == hits
    }
}

/// Searches one session. One whose log could not be opened has no messages.
pub fn search_session(session: &Session, plan: &Plan<'_>) -> (r: (Vec<SearchRecord>, CorpusStats))
    requires
        plan.wf(),
    ensures
        hits_of(r.0@) == session_hits(session.file, *plan.opts, session.log()),
        r.1@ == session_corpus(*plan.opts, session.log()),
{
    match &session.records {
        Some(records) => search_file(&session.file, records, plan),
        None => {
            let none: Vec<(usize, Record)> = Vec::new();
            assert(none@ =~= session.log());
            search_file(&session.file, &none, plan)
        },
    }
}

/// Ends a search once each session is searched: puts together what was found, in the order of
/// the sessions, scores it where relevance is scored, and writes the results. Says whether
/// anything matched.
pub fn finish<F: Fn(&CorpusStats, &Vec<usize>, usize) -> u64>(
    plan: &Plan<'_>,
    results: Vec<(Vec<SearchRecord>, CorpusStats)>,
    elapsed_ms: u128,
    score: &F,
    em: &mut Emitter,
) -> (r: bool)
    requires
        plan.wf(),
        old(em).wf(),
        forall|c: &CorpusStats, t: &Vec<usize>, n: usize| #[trigger] score.requires((c, t, n)),
    ensures
        final(em).wf(),
        r == (found_hits(results@).len() > 0),
        found_hits(results@).len() <= usize::MAX,
        exists|out: Seq<Hit>| #[trigger]
            rated(
                *plan.opts,
                *score,
                found_corpus(results@, terms_of(*plan.opts).list.len()),
                found_hits(results@),
                out,
            ) && final(em)@ == concluded(
                *plan.opts,
                out,
                results@.len(),
                elapsed_ms as nat,
                old(em)@,
            ),
{
    let files_scanned: usize = results.len();
    let ghost corpus_found = found_corpus(results@, terms_of(*plan.opts).list.len());
    let (all, corpus) = gather(results, plan.matcher.term_count());
    let ghost hits = hits_of(all@);
    let all = if plan.scoring {
        score_all(all, &corpus, score)
    } else {
        all
    };
    let ghost out = hits_of(all@);
    assert(out.len() == hits.len());
    assert(out.len() == all.len());
    assert(rated(*plan.opts, *score, corpus_found, hits, out));
    conclude(plan, all, files_scanned, elapsed_ms, em)
}

/// Whether a search over sessions at the time `now` may end so: it says `any`, and leaves the
/// stream `after` where it found `before`.
pub open spec fn ran<F: Fn(&CorpusStats, &Vec<usize>, usize) -> u64>(
    opts: SearchOpts,
    sessions: Seq<Session>,
    now: i128,
    elapsed_ms: nat,
    score: F,
    before: Stream,
    any: bool,
    after: Stream,
) -> bool {
    let ws = wanted_sessions(opts, sessions, now);
    let hits = all_hits(opts, ws);
    &&& any == (hits.len() > 0)
    &&& hits.len() <= usize::MAX
    &&& exists|out: Seq<Hit>| #[trigger]
        rated(opts, score, whole_corpus(opts, ws), hits, out) && after == concluded(
            opts,
            out,
            ws.len(),
            elapsed_ms,
            before,
        )
}

/// Runs a search over sessions at the time `now`, in nanoseconds, and writes its results. Says
/// whether anything matched. `score` rates a match, in ten-thousandths, by the counts of the
/// corpus, how often each term occurs in the message, and its length in words. `elapsed_ms` is
/// the time the search took. A search that cannot be run writes nothing.
pub fn run<F: Fn(&CorpusStats, &Vec<usize>, usize) -> u64>(
    opts: &SearchOpts,
    sessions: &Vec<Session>,
    now: i128,
    elapsed_ms: u128,
    score: F,
    em: &mut Emitter,
) -> (r: Result<bool, SearchError>)
    requires
        old(em).wf(),
        forall|c: &CorpusStats, t: &Vec<usize>, n: usize| #[trigger] score.requires((c, t, n)),
    ensures
        final(em).wf(),
        match r {
            Ok(any) => opts.queries@.len() > 0 && ran(
                *opts,
                sessions@,
                now,
                elapsed_ms as nat,
                score,
                old(em)@,
                any,
                final(em)@,
            ),
            Err(SearchError::EmptyQuery) => opts.queries@.len() == 0 && final(em)@ == old(em)@,
            Err(SearchError::InvalidRegex { message }) => opts.queries@.len() > 0 && opts.is_regex
                && refused(queries_of(*opts), message@) && final(em)@ == old(em)@,
        },
{
    let plan = match prepare(opts) {
        Ok(p) => p,
        Err(e) => {
            return Err(e);
        },
    };
    let mut results: Vec<(Vec<SearchRecord>, CorpusStats)> = Vec::new();
    let mut i: usize = 0;
    while i < sessions.len()
        invariant
            i <= sessions.len(),
            plan.wf(),
            *plan.opts == *opts,
            searched_apart(
                *opts,
                wanted_sessions(*opts, sessions@.take(i as int), now),
                results@,
            ),
        decreases sessions.len() - i,
    {
        let s = &sessions[i];
        assert(sessions@.take(i + 1).drop_last() =~= sessions@.take(i as int));
        if selects(opts, &s.file, now) {
            results.push(search_session(s, &plan));
        }
        i = i + 1;
    }
    assert(sessions@.take(i as int) =~= sessions@);
    proof {
        law_sessions_may_be_searched_apart(
            *opts,
            wanted_sessions(*opts, sessions@, now),
            results@,
        );
    }
    Ok(finish(&plan, results, elapsed_ms, &score, em))
}

// ---- Laws of searching ----------------------------------------------------

/// Sessions may be searched each by itself, in any order: what was found in each comes to the
/// matches and the counts of all of them.
pub proof fn law_sessions_may_be_searched_apart(
    opts: SearchOpts,
    ss: Seq<Session>,
    results: Seq<(Vec<SearchRecord>, CorpusStats)>,
)
    requires
        searched_apart(opts, ss, results),
    ensures
        found_hits(results) == all_hits(opts, ss),
        found_corpus(results, terms_of(opts).list.len()) == whole_corpus(opts, ss),
    decreases ss.len(),
{
    if ss.len() > 0 {
        assert(searched_apart(opts, ss.drop_last(), results.drop_last()));
        law_sessions_may_be_searched_apart(opts, ss.drop_last(), results.drop_last());
        assert(hits_of(results[ss.len() - 1].0@) == session_hits(
            ss.last().file,
            opts,
            ss.last().log(),
        ));
    }
}

/// What counts as live in a window counts as live in every longer one, and with a window of no
/// length only what has no known past does.
pub proof fn law_longer_windows_take_in_more(modified: Option<i128>, now: i128, a: u64, b: u64)
    requires
        a <= b,
    ensures
        is_live(modified, now, a) ==> is_live(modified, now, b),
        is_live(modified, now, 0) <==> (modified matches Some(m) ==> m > now),
{
}

/// The summary is the last line of the stream, whatever the budget.
pub proof fn law_summary_comes_last(
    opts: SearchOpts,
    hits: Seq<Hit>,
    files_scanned: nat,
    elapsed_ms: nat,
    s: Stream,
)
    ensures
        exists|before: Seq<char>|
            concluded(opts, hits, files_scanned, elapsed_ms, s).text == #[trigger] (before
                + search_summary_text(summary_of(opts, hits, files_scanned, elapsed_ms, s))) + seq![
                '\n',
            ],
{
    let before = crate::output::emit::headed(with_hint(opts, hits, s), false).text;
    assert(concluded(opts, hits, files_scanned, elapsed_ms, s).text == (before
        + search_summary_text(summary_of(opts, hits, files_scanned, elapsed_ms, s))) + seq!['\n']);
}

/// The numbers of a summary agree: no more is written than there is, an output without a
/// budget is never cut short, and a limit on results leaves something out exactly where there
/// is more than that.
pub proof fn law_summary_adds_up(
    opts: SearchOpts,
    hits: Seq<Hit>,
    files_scanned: nat,
    elapsed_ms: nat,
    s: Stream,
)
    requires
        hits.len() <= usize::MAX,
        !s.truncated,
    ensures
        ({
            let sum = summary_of(opts, hits, files_scanned, elapsed_ms, s);
            &&& sum.total_matched == hits.len()
            &&& sum.count <= result_lines(opts, kept(opts, hits)).len()
            &&& opts.max_results > 0 ==> sum.count <= opts.max_results
            &&& opts.group_by is None ==> sum.count <= sum.total_matched
            &&& s.budget == 0 ==> !sum.truncated
            &&& sum.truncated == with_results(opts, hits, s).truncated
            &&& kept(opts, hits).len() + (match sum.deduped {
                Some(n) => n,
                None => 0,
            }) == sum.total_matched
        }),
{
    let list = kept(opts, hits);
    let lines = result_lines(opts, list);
    crate::output::emit::law_truncated_iff_refused(s, lines);
    if s.budget == 0 {
        crate::output::emit::law_no_budget_takes_all(s, lines);
    }
    if opts.sort != SortMode::Document {
        self::results::law_sorting_is_a_stable_permutation(hits, opts.sort);
    }
    self::results::law_each_snippet_is_kept_once(sorted(hits, opts.sort));
}

/// The limit on results applies after sorting: what is written are the first of the sorted
/// matches.
pub proof fn law_limit_applies_after_sorting(opts: SearchOpts, hits: Seq<Hit>, i: int)
    requires
        opts.group_by is None,
        !opts.dedupe,
        0 <= i < result_lines(opts, kept(opts, hits)).len(),
    ensures
        result_lines(opts, kept(opts, hits))[i] == self::records::hit_text(
            sorted(hits, opts.sort)[i],
        ),
{
}

/// The matches that are kept, sorted and without repeats, are matches.
proof fn lemma_kept_are_matches(opts: SearchOpts, hits: Seq<Hit>, i: int)
    requires
        hits.len() <= usize::MAX,
        0 <= i < kept(opts, hits).len(),
    ensures
        hits.contains(kept(opts, hits)[i]),
        kept(opts, hits).len() <= hits.len(),
{
    let list = sorted(hits, opts.sort);
    self::results::law_results_are_matches(hits, opts.sort);
    if opts.sort != SortMode::Document {
        self::results::law_sorting_is_a_stable_permutation(hits, opts.sort);
    }
    self::results::law_results_are_matches(list, SortMode::Document);
    self::results::law_each_snippet_is_kept_once(list);
    if opts.dedupe {
        let h = distinct(list)[i];
        let k = choose|k: int| 0 <= k < list.len() && list[k] == h;
        assert(list.contains(h));
        assert(hits.contains(list[k]));
    } else {
        assert(hits.contains(list[i]));
    }
}

/// Matches have no score before they are scored.
pub proof fn law_matches_begin_without_a_score(opts: SearchOpts, ss: Seq<Session>, i: int)
    requires
        0 <= i < all_hits(opts, ss).len(),
    ensures
        all_hits(opts, ss)[i].score is None,
    decreases ss.len(),
{
    let before = all_hits(opts, ss.drop_last());
    if i < before.len() {
        law_matches_begin_without_a_score(opts, ss.drop_last(), i);
    } else {
        let ms = messages(ss.last().log());
        law_only_matching_messages_are_listed(
            ss.last().file,
            opts,
            ms,
            ms.len() as int,
            i - before.len(),
        );
    }
}

/// The results of a search without scores can be read back.
pub proof fn law_results_are_readable(opts: SearchOpts, hits: Seq<Hit>)
    requires
        hits.len() <= usize::MAX,
        forall|i: int| 0 <= i < hits.len() ==> (#[trigger] hits[i]).score is None,
    ensures
        all_readable(result_values(opts, kept(opts, hits))),
        result_values(opts, kept(opts, hits)).len() <= hits.len(),
{
    let list = kept(opts, hits);
    let values = result_values(opts, list);
    if list.len() > 0 {
        lemma_kept_are_matches(opts, hits, 0);
    }
    match opts.group_by {
        Some(mode) => {
            let n = opts.group_samples as int;
            let gs = groups(list, mode, n);
            self::groups::law_no_more_groups_than_matches(list, mode, n);
            assert forall|i: int| 0 <= i < values.len() implies readable(
                #[trigger] values[i],
                depth_limit(),
            ) by {
                self::groups::law_no_group_exceeds_the_matches(list, mode, n, i);
                law_groups_are_readable(gs[i]);
            }
        },
        None => {
            assert forall|i: int| 0 <= i < values.len() implies readable(
                #[trigger] values[i],
                depth_limit(),
            ) by {
                lemma_kept_are_matches(opts, hits, i);
                let k = choose|k: int| 0 <= k < hits.len() && hits[k] == list[i];
                assert(hits.contains(list[i]));
                assert(hits[k].score is None);
                law_matches_are_readable(list[i]);
            }
        },
    }
}

/// What a search without scores writes, whatever the budget, can be read back: a header, the
/// matches or their groups as far as there is room, the hint where it is due, and the summary.
pub proof fn law_output_can_be_read_back(
    opts: SearchOpts,
    hits: Seq<Hit>,
    files_scanned: nat,
    elapsed_ms: nat,
    budget: nat,
)
    requires
        hits.len() <= usize::MAX,
        forall|i: int| 0 <= i < hits.len() ==> (#[trigger] hits[i]).score is None,
        files_scanned <= u64::MAX,
        elapsed_ms <= u64::MAX,
    ensures
        ({
            let new = new_stream(budget);
            let values = if hint_due(opts, hits.len()) {
                seq![error_value("warning"@, None, HINT@)]
            } else {
                result_values(opts, kept(opts, hits))
            };
            let n = taken_count(new, value_lines(values)) as int;
            let summary = search_summary_value(
                summary_of(opts, hits, files_scanned, elapsed_ms, new),
            );
            let all = seq![header_value()] + values.take(n) + seq![summary];
            &&& concluded(opts, hits, files_scanned, elapsed_ms, new).text == block(
                value_lines(all),
            )
            &&& all_readable(all)
        }),
{
    let new = new_stream(budget);
    let results = result_values(opts, kept(opts, hits));
    let hint = error_value("warning"@, None, HINT@);
    let due = hint_due(opts, hits.len());
    let values = if due {
        seq![hint]
    } else {
        results
    };
    let sum = summary_of(opts, hits, files_scanned, elapsed_ms, new);
    law_results_are_readable(opts, hits);
    law_errors_are_readable("warning"@, None, HINT@);
    law_summary_adds_up(opts, hits, files_scanned, elapsed_ms, new);
    law_truncated_iff_refused(new, value_lines(results));
    law_search_summaries_are_readable(sum);
    assert(all_readable(values));
    law_listings_can_be_read_back(budget, values, search_summary_value(sum));
    if due {
        assert(value_lines(results) =~= Seq::empty());
        assert(value_lines(values)[0] == error_text("warning"@, None, HINT@));
        assert(value_lines(values).drop_first() =~= Seq::empty());
        reveal_with_fuel(offered_all, 2);
        assert(with_hint(opts, hits, new) == offered_all(new, value_lines(values)));
    }
}

} // verus!
