//! Searching the messages of one session.
use vstd::prelude::*;
use vstd::string::*;

use super::corpus::{consistent, merged, no_docs, one_doc, Corpus, CorpusStats};
use super::matcher::{
    counts, earliest, found, law_earliest_is_first_and_nearest, located, match_of, refused,
    term_find, term_finds, terms, Matcher, Terms,
};
use super::records::{ctx_views, hits_of, Ctx, CtxMsg, Hit, SearchRecord};
use super::snippet::{law_snippet_shows_the_match, make_snippet, snippet};
use super::threads::{resolve_thread_root, root_of, Ancestry, Parents};
use super::{GroupMode, SearchError, SearchOpts, SortMode};
use crate::models::{
    message_of, parent_of, reading_of, role_of, slice_texts, tools_of, touches, MessageRecord,
    Reading, Record,
};
use crate::output::emit::{law_stream_holds_tag, opened, Stream};
use crate::output::SMC_TAG;
use crate::text::{
    contains, contains_text, each_lower, head, join, joined, keeps_places,
    law_origin_covers_the_places, law_origin_follows_the_places, law_origin_is_the_place,
    lemma_find_from, lowercase, opt_text, origin, same_text, stands_at, take_chars, text_less,
    text_lt, texts, to_chars, to_lowercase, word_count, words,
};
use crate::util::dates::{
    is_bare_day, law_before_covers_the_day, normalize_before, upper_bound,
};
use crate::util::discover::SessionFile;

verus! {

broadcast use {vstd::seq::group_seq_axioms, vstd::string::group_string_axioms};

/// How many characters of a message near a match are shown.
pub const CTX_TEXT_CHARS: usize = 200;

// ---- The plan of a search -------------------------------------------------

/// The queries: all of them as one where they make a phrase.
pub open spec fn queries_of(opts: SearchOpts) -> Seq<Seq<char>> {
    if opts.phrase {
        seq![joined(texts(opts.queries@), " "@)]
    } else {
        texts(opts.queries@)
    }
}

/// The terms to find.
pub open spec fn terms_of(opts: SearchOpts) -> Terms {
    terms(queries_of(opts), opts.is_regex, opts.and_mode)
}

/// Whether relevance is scored.
pub open spec fn scoring(opts: SearchOpts) -> bool {
    opts.score || opts.sort == SortMode::Relevance
}

/// The last timestamp to take: a bare day is taken whole.
pub open spec fn latest(opts: SearchOpts) -> Option<Seq<char>> {
    match opts.before {
        Some(b) => Some(upper_bound(b@)),
        None => None,
    }
}

/// A search whose queries are ready to be found.
pub struct Plan<'a> {
    pub opts: &'a SearchOpts,
    pub queries: Vec<String>,
    pub matcher: Matcher,
    pub before: Option<String>,
    pub scoring: bool,
}

impl<'a> Plan<'a> {
    /// The plan is that of its options.
    pub open spec fn wf(&self) -> bool {
        &&& self.matcher.wf()
        &&& self.matcher@ == terms_of(*self.opts)
        &&& texts(self.queries@) == queries_of(*self.opts)
        &&& opt_text(self.before) == latest(*self.opts)
        &&& self.scoring == scoring(*self.opts)
    }
}

/// A second copy of a list of strings.
pub fn copy_texts(list: &Vec<String>) -> (r: Vec<String>)
    ensures
        texts(r@) == texts(list@),
{
    let mut r: Vec<String> = Vec::new();
    let mut i: usize = 0;
    while i < list.len()
        invariant
            i <= list.len(),
            r.len() == i,
            forall|k: int| 0 <= k < i ==> #[trigger] r[k]@ == list[k]@,
        decreases list.len() - i,
    {
        r.push(list[i].clone());
        i = i + 1;
    }
    assert(texts(r@) =~= texts(list@));
    r
}

/// Makes the queries ready. Without a query there is nothing to search for, and a regular
/// expression may be refused; every other search can be run.
pub fn prepare(opts: &SearchOpts) -> (r: Result<Plan<'_>, SearchError>)
    ensures
        match r {
            Ok(p) => opts.queries@.len() > 0 && p.wf() && *p.opts == *opts,
            Err(SearchError::EmptyQuery) => opts.queries@.len() == 0,
            Err(SearchError::InvalidRegex { message }) => opts.queries@.len() > 0 && opts.is_regex
                && refused(queries_of(*opts), message@),
        },
{
    if opts.queries.is_empty() {
        return Err(SearchError::EmptyQuery);
    }
    let queries = if opts.phrase {
        let mut one: Vec<String> = Vec::new();
        one.push(join(&opts.queries, " "));
        assert(texts(one@) =~= seq![joined(texts(opts.queries@), " "@)]);
        one
    } else {
        copy_texts(&opts.queries)
    };
    let before = match &opts.before {
        Some(b) => Some(normalize_before(b.clone())),
        None => None,
    };
    match Matcher::new(queries.as_slice(), opts.is_regex, opts.and_mode) {
        Ok(matcher) => Ok(
            Plan {
                opts,
                queries,
                matcher,
                before,
                scoring: opts.score || opts.sort == SortMode::Relevance,
            },
        ),
        Err(e) => Err(e),
    }
}

// ---- Which messages are searched ------------------------------------------

/// Whether a message calls a tool whose name holds `tool`, in any case.
pub open spec fn calls(m: MessageRecord, tool: Seq<char>) -> bool {
    exists|i: int|
        0 <= i < tools_of(m).len() && contains_text(
            lowercase(#[trigger] tools_of(m)[i]),
            lowercase(tool),
        )
}

/// Whether a message lies within the dates asked for. One without a timestamp cannot be placed,
/// so it lies outside any.
pub open spec fn in_time(opts: SearchOpts, m: MessageRecord) -> bool {
    if opts.after is Some || opts.before is Some {
        match m.timestamp {
            Some(ts) => {
                &&& opts.after matches Some(a) ==> !text_lt(ts@, a@)
                &&& latest(opts) matches Some(b) ==> !text_lt(b, ts@)
            },
            None => false,
        }
    } else {
        true
    }
}

/// Whether a message is one of those asked for.
pub open spec fn passes(opts: SearchOpts, r: Record, m: MessageRecord) -> bool {
    &&& opts.role matches Some(role) ==> role_of(r) == role@
    &&& opts.tool matches Some(tool) ==> calls(m, tool@)
    &&& in_time(opts, m)
    &&& opts.branch matches Some(branch) ==> match m.git_branch {
        Some(b) => contains_text(lowercase(b@), lowercase(branch@)),
        None => false,
    }
    &&& opts.file matches Some(path) ==> touches(m, path@)
}

/// The text that is searched.
pub open spec fn searched_text(opts: SearchOpts, m: MessageRecord) -> Seq<char> {
    reading_of(
        m,
        if opts.tool_input {
            Reading::ToolInput
        } else {
            Reading::Full
        },
    )
}

/// Whether a message is searched: it is one of those asked for, it has text, and it does not
/// quote earlier output, unless that is asked for.
pub open spec fn searchable(opts: SearchOpts, r: Record, m: MessageRecord) -> bool {
    &&& passes(opts, r, m)
    &&& searched_text(opts, m).len() > 0
    &&& opts.include_smc || !contains_text(searched_text(opts, m), SMC_TAG@)
}

/// Whether any of the names holds `wanted`, which is in lower case.
fn any_holds(names: &Vec<&str>, wanted: &str) -> (r: bool)
    ensures
        r == exists|i: int|
            0 <= i < names@.len() && contains_text(
                lowercase(#[trigger] slice_texts(names@)[i]),
                wanted@,
            ),
{
    let mut i: usize = 0;
    while i < names.len()
        invariant
            i <= names.len(),
            forall|k: int|
                0 <= k < i ==> !contains_text(
                    lowercase(#[trigger] slice_texts(names@)[k]),
                    wanted@,
                ),
        decreases names.len() - i,
    {
        let lower = to_lowercase(names[i]);
        if contains(lower.as_str(), wanted) {
            assert(slice_texts(names@)[i as int] == names@[i as int]@);
            return true;
        }
        i = i + 1;
    }
    false
}

impl<'a> Plan<'a> {
    /// Whether a message lies within the dates asked for.
    fn dated(&self, msg: &MessageRecord) -> (r: bool)
        requires
            self.wf(),
        ensures
            r == in_time(*self.opts, *msg),
    {
        if self.opts.after.is_some() || self.before.is_some() {
            match &msg.timestamp {
                Some(ts) => {
                    let early = match &self.opts.after {
                        Some(a) => text_less(ts.as_str(), a.as_str()),
                        None => false,
                    };
                    let late = match &self.before {
                        Some(b) => text_less(b.as_str(), ts.as_str()),
                        None => false,
                    };
                    !early && !late
                },
                None => false,
            }
        } else {
            true
        }
    }

    /// Whether a message is one of those asked for.
    fn selects(&self, record: &Record, msg: &MessageRecord) -> (r: bool)
        requires
            self.wf(),
        ensures
            r == passes(*self.opts, *record, *msg),
    {
        match &self.opts.role {
            Some(role) => {
                if !same_text(record.role(), role.as_str()) {
                    return false;
                }
            },
            None => {},
        }
        match &self.opts.tool {
            Some(tool) => {
                let names = msg.tool_names();
                let wanted = to_lowercase(tool.as_str());
                if !any_holds(&names, wanted.as_str()) {
                    return false;
                }
            },
            None => {},
        }
        if !self.dated(msg) {
            return false;
        }
        match &self.opts.branch {
            Some(branch) => match &msg.git_branch {
                Some(b) => {
                    let lower = to_lowercase(b.as_str());
                    let wanted = to_lowercase(branch.as_str());
                    if !contains(lower.as_str(), wanted.as_str()) {
                        return false;
                    }
                },
                None => {
                    return false;
                },
            },
            None => {},
        }
        match &self.opts.file {
            Some(path) => msg.touches_file(path.as_str()),
            None => true,
        }
    }

    /// The text of a message that is searched, where it is.
    fn text_to_search(&self, record: &Record, msg: &MessageRecord) -> (r: Option<String>)
        requires
            self.wf(),
        ensures
            match r {
                Some(t) => searchable(*self.opts, *record, *msg) && t@ == searched_text(
                    *self.opts,
                    *msg,
                ),
                None => !searchable(*self.opts, *record, *msg),
            },
    {
        if !self.selects(record, msg) {
            return None;
        }
        let text = if self.opts.tool_input {
            msg.tool_input_content()
        } else {
            msg.full_content()
        };
        if text.as_str().is_empty() {
            return None;
        }
        if !self.opts.include_smc && contains(text.as_str(), SMC_TAG) {
            return None;
        }
        Some(text)
    }
}

// ---- The messages of a session --------------------------------------------

/// The records that carry a message.
pub open spec fn messages(records: Seq<(usize, Record)>) -> Seq<(usize, Record)>
    decreases records.len(),
{
    if records.len() == 0 {
        Seq::empty()
    } else {
        let before = messages(records.drop_last());
        if message_of(records.last().1) is Some {
            before.push(records.last())
        } else {
            before
        }
    }
}

/// The message of a record that carries one.
pub open spec fn msg(r: (usize, Record)) -> MessageRecord {
    message_of(r.1)->0
}

/// What is shown of a message near a match.
pub open spec fn ctx_of(r: (usize, Record)) -> Ctx {
    Ctx {
        line: r.0,
        role: role_of(r.1),
        timestamp: opt_text(msg(r).timestamp),
        text: head(reading_of(msg(r), Reading::Full), CTX_TEXT_CHARS as int),
    }
}

/// What is shown of the messages from `from` up to `to`.
pub open spec fn ctx_between(ms: Seq<(usize, Record)>, from: int, to: int) -> Seq<Ctx> {
    ms.subrange(from, to).map_values(|r: (usize, Record)| ctx_of(r))
}

/// Where the context before message `k` begins.
pub open spec fn ctx_from(k: int, n: int) -> int {
    if k > n {
        k - n
    } else {
        0
    }
}

/// Where the context after message `k` ends.
pub open spec fn ctx_to(len: int, k: int, n: int) -> int {
    if k + 1 + n < len {
        k + 1 + n
    } else {
        len
    }
}

/// The parents of the messages, by their ids. Where an id repeats, the later message counts.
pub open spec fn ancestry(ms: Seq<(usize, Record)>) -> Ancestry
    decreases ms.len(),
{
    if ms.len() == 0 {
        Map::empty()
    } else {
        let before = ancestry(ms.drop_last());
        match msg(ms.last()).uuid {
            Some(id) => before.insert(id@, parent_of(msg(ms.last()))),
            None => before,
        }
    }
}

// ---- The matches of a session ---------------------------------------------

/// Whether message `k` is searched.
pub open spec fn searched(opts: SearchOpts, ms: Seq<(usize, Record)>, k: int) -> bool {
    searchable(opts, ms[k].1, msg(ms[k]))
}

/// Whether message `k` matches.
pub open spec fn matches_at(opts: SearchOpts, ms: Seq<(usize, Record)>, k: int) -> bool {
    searched(opts, ms, k) && match_of(terms_of(opts), searched_text(opts, msg(ms[k]))) is Some
}

/// How many words are counted of a text.
pub open spec fn counted_words(opts: SearchOpts, text: Seq<char>) -> usize {
    if scoring(opts) {
        words(text) as usize
    } else {
        0
    }
}

/// How often the terms are counted in a text.
pub open spec fn counted_terms(opts: SearchOpts, text: Seq<char>) -> Seq<usize> {
    if scoring(opts) {
        counts(terms_of(opts), text)
    } else {
        Seq::empty()
    }
}

/// The match that message `k` makes, but for its thread.
pub open spec fn unthreaded_hit(
    file: SessionFile,
    opts: SearchOpts,
    ms: Seq<(usize, Record)>,
    k: int,
) -> Hit {
    let m = msg(ms[k]);
    let text = searched_text(opts, m);
    let f = located(terms_of(opts), text)->0;
    Hit {
        record_type: "match"@,
        project: file.project_name@,
        session_id: file.session_id@,
        line: ms[k].0,
        uuid: opt_text(m.uuid),
        role: role_of(ms[k].1),
        timestamp: opt_text(m.timestamp),
        matched_query: f.text,
        score: None,
        text: snippet(text, f.at, opts.snippet_len as int),
        match_offset: f.at as usize,
        msg_chars: text.len() as usize,
        tool_names: tools_of(m),
        git_branch: opt_text(m.git_branch),
        context_before: ctx_between(ms, ctx_from(k, opts.context as int), k),
        context_after: ctx_between(ms, k + 1, ctx_to(ms.len() as int, k, opts.context as int)),
        thread_root: None,
        doc_len: counted_words(opts, text),
        tfs: counted_terms(opts, text),
    }
}

/// The match that message `k` makes.
pub open spec fn hit_at(
    file: SessionFile,
    opts: SearchOpts,
    ms: Seq<(usize, Record)>,
    k: int,
) -> Hit {
    Hit {
        thread_root: match (opts.group_by, msg(ms[k]).uuid) {
            (Some(GroupMode::Thread), Some(id)) => Some(root_of(ancestry(ms), id@)),
            _ => None,
        },
        ..unthreaded_hit(file, opts, ms, k)
    }
}

/// The matches among the first `n` messages, in the order of the log.
pub open spec fn hits_among(
    file: SessionFile,
    opts: SearchOpts,
    ms: Seq<(usize, Record)>,
    n: int,
) -> Seq<Hit>
    decreases n,
{
    if n <= 0 {
        Seq::empty()
    } else {
        let before = hits_among(file, opts, ms, n - 1);
        if matches_at(opts, ms, n - 1) {
            before.push(hit_at(file, opts, ms, n - 1))
        } else {
            before
        }
    }
}

/// The matches of a session, in the order of the log.
pub open spec fn session_hits(
    file: SessionFile,
    opts: SearchOpts,
    records: Seq<(usize, Record)>,
) -> Seq<Hit> {
    hits_among(file, opts, messages(records), messages(records).len() as int)
}

/// What the first `n` messages add to the counts. Every message that is searched counts,
/// whether it matches or not.
pub open spec fn corpus_among(opts: SearchOpts, ms: Seq<(usize, Record)>, n: int) -> Corpus
    decreases n,
{
    if n <= 0 {
        no_docs(terms_of(opts).list.len())
    } else {
        let before = corpus_among(opts, ms, n - 1);
        if scoring(opts) && searched(opts, ms, n - 1) {
            let text = searched_text(opts, msg(ms[n - 1]));
            merged(before, one_doc(counted_words(opts, text), counted_terms(opts, text)))
        } else {
            before
        }
    }
}

/// The counts of a session.
pub open spec fn session_corpus(opts: SearchOpts, records: Seq<(usize, Record)>) -> Corpus {
    corpus_among(opts, messages(records), messages(records).len() as int)
}

/// Where the messages of a session stand among its records.
fn message_places(records: &Vec<(usize, Record)>) -> (r: Vec<usize>)
    ensures
        r.len() == messages(records@).len(),
        forall|k: int|
            0 <= k < r.len() ==> #[trigger] r[k] < records.len() && messages(records@)[k]
                == records@[r[k] as int] && message_of(records@[r[k] as int].1) is Some,
{
    let mut r: Vec<usize> = Vec::new();
    let mut i: usize = 0;
    while i < records.len()
        invariant
            i <= records.len(),
            r.len() == messages(records@.take(i as int)).len(),
            forall|k: int|
                0 <= k < r.len() ==> #[trigger] r[k] < records.len() && messages(
                    records@.take(i as int),
                )[k] == records@[r[k] as int] && message_of(records@[r[k] as int].1) is Some,
        decreases records.len() - i,
    {
        assert(records@.take(i + 1).drop_last() =~= records@.take(i as int));
        if records[i].1.is_message() {
            r.push(i);
        }
        i = i + 1;
    }
    assert(records@.take(i as int) =~= records@);
    r
}

/// What is shown of a message near a match.
fn context_message(line: usize, record: &Record, m: &MessageRecord) -> (r: CtxMsg)
    requires
        message_of(*record) == Some(*m),
    ensures
        r@ == ctx_of((line, *record)),
{
    let full = m.full_content();
    CtxMsg {
        line,
        role: record.role().to_owned(),
        timestamp: m.timestamp.clone(),
        text: take_chars(full.as_str(), CTX_TEXT_CHARS),
    }
}

/// What is shown of each message, where context is asked for.
fn context_messages(records: &Vec<(usize, Record)>, places: &Vec<usize>) -> (r: Vec<CtxMsg>)
    requires
        places.len() == messages(records@).len(),
        forall|k: int|
            0 <= k < places.len() ==> #[trigger] places[k] < records.len() && messages(records@)[k]
                == records@[places[k] as int] && message_of(records@[places[k] as int].1) is Some,
    ensures
        r.len() == places.len(),
        forall|k: int| 0 <= k < r.len() ==> #[trigger] r[k]@ == ctx_of(messages(records@)[k]),
{
    let mut r: Vec<CtxMsg> = Vec::new();
    let mut i: usize = 0;
    while i < places.len()
        invariant
            i <= places.len(),
            r.len() == i,
            places.len() == messages(records@).len(),
            forall|k: int|
                0 <= k < places.len() ==> #[trigger] places[k] < records.len() && messages(
                    records@,
                )[k] == records@[places[k] as int] && message_of(records@[places[k] as int].1)
                    is Some,
            forall|k: int| 0 <= k < i ==> #[trigger] r[k]@ == ctx_of(messages(records@)[k]),
        decreases places.len() - i,
    {
        let rec = &records[places[i]];
        match rec.1.as_message() {
            Some(m) => {
                r.push(context_message(rec.0, &rec.1, m));
            },
            None => {},
        }
        i = i + 1;
    }
    r
}

/// Copies of the messages from `from` up to `to`.
fn copy_range(list: &Vec<CtxMsg>, from: usize, to: usize) -> (r: Vec<CtxMsg>)
    requires
        from <= to <= list.len(),
    ensures
        ctx_views(r@) == ctx_views(list@).subrange(from as int, to as int),
{
    let mut r: Vec<CtxMsg> = Vec::new();
    let mut i: usize = from;
    while i < to
        invariant
            from <= i <= to <= list.len(),
            r.len() == i - from,
            forall|k: int| 0 <= k < r.len() ==> #[trigger] r[k]@ == list[from + k]@,
        decreases to - i,
    {
        r.push(list[i].copy());
        i = i + 1;
    }
    assert(ctx_views(r@) =~= ctx_views(list@).subrange(from as int, to as int));
    r
}

/// Owned copies of a list of names.
fn owned(names: &Vec<&str>) -> (r: Vec<String>)
    ensures
        texts(r@) == slice_texts(names@),
{
    let mut r: Vec<String> = Vec::new();
    let mut i: usize = 0;
    while i < names.len()
        invariant
            i <= names.len(),
            r.len() == i,
            forall|k: int| 0 <= k < i ==> #[trigger] r[k]@ == names[k]@,
        decreases names.len() - i,
    {
        r.push(names[i].to_owned());
        i = i + 1;
    }
    assert(texts(r@) =~= slice_texts(names@));
    r
}

/// The parents of the messages.
fn parents_of(records: &Vec<(usize, Record)>) -> (r: Parents)
    ensures
        r.wf(),
        r@ == ancestry(messages(records@)),
{
    let mut r = Parents::new();
    let mut i: usize = 0;
    while i < records.len()
        invariant
            i <= records.len(),
            r.wf(),
            r@ == ancestry(messages(records@.take(i as int))),
        decreases records.len() - i,
    {
        let ghost before = messages(records@.take(i as int));
        assert(records@.take(i + 1).drop_last() =~= records@.take(i as int));
        match records[i].1.as_message() {
            Some(m) => {
                assert(before.push(records@[i as int]).drop_last() =~= before);
                match &m.uuid {
                    Some(id) => {
                        let parent = m.parent_uuid_str();
                        assert(opt_text(parent) == parent_of(*m));
                        r.insert(id.clone(), parent);
                    },
                    None => {},
                }
            },
            None => {},
        }
        i = i + 1;
    }
    assert(records@.take(i as int) =~= records@);
    r
}

impl<'a> Plan<'a> {
    /// Searches message `k`, adds it to the counts, and gives the match it makes, if any.
    fn search_message(
        &self,
        file: &SessionFile,
        records: &Vec<(usize, Record)>,
        places: &Vec<usize>,
        contexts: &Vec<CtxMsg>,
        k: usize,
        corpus: &mut CorpusStats,
    ) -> (r: Option<SearchRecord>)
        requires
            self.wf(),
            k < places.len(),
            places.len() == messages(records@).len(),
            forall|j: int|
                0 <= j < places.len() ==> #[trigger] places[j] < records.len() && messages(
                    records@,
                )[j] == records@[places[j] as int] && message_of(records@[places[j] as int].1)
                    is Some,
            self.opts.context > 0 ==> contexts.len() == places.len() && forall|j: int|
                0 <= j < contexts.len() ==> #[trigger] contexts[j]@ == ctx_of(
                    messages(records@)[j],
                ),
            old(corpus)@ == corpus_among(*self.opts, messages(records@), k as int),
        ensures
            match r {
                Some(h) => matches_at(*self.opts, messages(records@), k as int) && h@
                    == unthreaded_hit(*file, *self.opts, messages(records@), k as int),
                None => !matches_at(*self.opts, messages(records@), k as int),
            },
            final(corpus)@ == corpus_among(*self.opts, messages(records@), k + 1),
    {
        let ghost ms = messages(records@);
        let ghost opts = *self.opts;
        let rec = &records[places[k]];
        assert(ms[k as int] == *rec);
        let m = match rec.1.as_message() {
            Some(m) => m,
            None => {
                return None;
            },
        };
        let text = match self.text_to_search(&rec.1, m) {
            Some(t) => t,
            None => {
                return None;
            },
        };
        let (info, tfs) = self.matcher.scan(text.as_str(), self.scoring);
        let chars = to_chars(text.as_str());
        let doc_len: usize = if self.scoring {
            word_count(&chars)
        } else {
            0
        };
        if self.scoring {
            corpus.add_doc(doc_len, &tfs);
        }
        let info = match info {
            Some(i) => i,
            None => {
                return None;
            },
        };
        let n: usize = self.opts.context;
        let mut context_before: Vec<CtxMsg> = Vec::new();
        let mut context_after: Vec<CtxMsg> = Vec::new();
        if n > 0 {
            let from: usize = if k > n {
                k - n
            } else {
                0
            };
            let len: usize = contexts.len();
            let to: usize = if n < len - (k + 1) {
                k + 1 + n
            } else {
                len
            };
            context_before = copy_range(contexts, from, k);
            context_after = copy_range(contexts, k + 1, to);
            assert(ctx_views(contexts@).subrange(from as int, k as int) =~= ctx_between(
                ms,
                from as int,
                k as int,
            ));
            assert(ctx_views(contexts@).subrange(k + 1, to as int) =~= ctx_between(
                ms,
                k + 1,
                to as int,
            ));
        } else {
            assert(ctx_views(context_before@) =~= ctx_between(ms, k as int, k as int));
            assert(ctx_views(context_after@) =~= ctx_between(ms, k + 1, k + 1));
        }
        let names = m.tool_names();
        let hit = SearchRecord {
            record_type: "match",
            project: file.project_name.clone(),
            session_id: file.session_id.clone(),
            line: rec.0,
            uuid: m.uuid.clone(),
            role: rec.1.role().to_owned(),
            timestamp: m.timestamp.clone(),
            matched_query: info.matched,
            score: None,
            text: make_snippet(chars.as_slice(), info.char_pos, self.opts.snippet_len),
            match_offset: info.char_pos,
            msg_chars: chars.len(),
            tool_names: owned(&names),
            git_branch: m.git_branch.clone(),
            context_before,
            context_after,
            thread_root: None,
            doc_len,
            tfs,
        };
        assert(hit@ =~= unthreaded_hit(*file, opts, ms, k as int));
        Some(hit)
    }
}

/// Searches the messages of a session. `records` holds its records with their lines. Gives the
/// matches in the order of the log, and what the session adds to the counts.
pub fn search_file(file: &SessionFile, records: &Vec<(usize, Record)>, plan: &Plan<'_>) -> (r: (
    Vec<SearchRecord>,
    CorpusStats,
))
    requires
        plan.wf(),
    ensures
        hits_of(r.0@) == session_hits(*file, *plan.opts, records@),
        r.1@ == session_corpus(*plan.opts, records@),
{
    let ghost ms = messages(records@);
    let ghost opts = *plan.opts;
    let places = message_places(records);
    let contexts = if plan.opts.context > 0 {
        context_messages(records, &places)
    } else {
        Vec::new()
    };
    let by_thread = match plan.opts.group_by {
        Some(GroupMode::Thread) => true,
        _ => false,
    };
    let parents = if by_thread {
        parents_of(records)
    } else {
        Parents::new()
    };
    let mut hits: Vec<SearchRecord> = Vec::new();
    let mut corpus = CorpusStats::new(plan.matcher.term_count());
    let mut k: usize = 0;
    assert(hits_of(hits@) =~= hits_among(*file, opts, ms, 0));
    while k < places.len()
        invariant
            k <= places.len(),
            plan.wf(),
            opts == *plan.opts,
            ms == messages(records@),
            places.len() == ms.len(),
            forall|j: int|
                0 <= j < places.len() ==> #[trigger] places[j] < records.len() && ms[j]
                    == records@[places[j] as int] && message_of(records@[places[j] as int].1)
                    is Some,
            opts.context > 0 ==> contexts.len() == places.len() && forall|j: int|
                0 <= j < contexts.len() ==> #[trigger] contexts[j]@ == ctx_of(ms[j]),
            by_thread == (opts.group_by == Some(GroupMode::Thread)),
            by_thread ==> parents.wf() && parents@ == ancestry(ms),
            hits_of(hits@) == hits_among(*file, opts, ms, k as int),
            corpus@ == corpus_among(opts, ms, k as int),
        decreases places.len() - k,
    {
        match plan.search_message(file, records, &places, &contexts, k, &mut corpus) {
            Some(hit) => {
                let ghost before = hits@;
                let mut hit = hit;
                if by_thread {
                    hit.thread_root = match &hit.uuid {
                        Some(id) => Some(resolve_thread_root(id.as_str(), &parents)),
                        None => None,
                    };
                }
                assert(hit@ =~= hit_at(*file, opts, ms, k as int));
                hits.push(hit);
                assert(hits_of(hits@) =~= hits_of(before).push(hit@));
            },
            None => {},
        }
        k = k + 1;
    }
    (hits, corpus)
}

// ---- Laws of scanning -----------------------------------------------------

/// A message that quotes a whole output stream is not searched, unless that is asked for: no
/// search finds its own output again, however short a budget cut it.
pub proof fn law_own_output_is_not_searched(
    opts: SearchOpts,
    r: Record,
    m: MessageRecord,
    s: Stream,
    before: Seq<char>,
    after: Seq<char>,
)
    requires
        opened(s),
        s.header_written,
        !opts.include_smc,
        searched_text(opts, m) == before + s.text + after,
    ensures
        !searchable(opts, r, m),
{
    law_stream_holds_tag(s, before, after);
}

/// With output of its own asked for, the tag decides nothing.
pub proof fn law_own_output_is_searched_if_asked_for(opts: SearchOpts, r: Record, m: MessageRecord)
    requires
        opts.include_smc,
    ensures
        searchable(opts, r, m) <==> passes(opts, r, m) && searched_text(opts, m).len() > 0,
{
}

/// Where dates are asked for, a message without a timestamp is left out.
pub proof fn law_undated_messages_are_left_out(opts: SearchOpts, r: Record, m: MessageRecord)
    requires
        opts.after is Some || opts.before is Some,
        m.timestamp is None,
    ensures
        !searchable(opts, r, m),
{
}

/// A bare day as the last one takes in the whole of that day.
pub proof fn law_last_day_is_taken_whole(
    opts: SearchOpts,
    m: MessageRecord,
    day: Seq<char>,
    rest: Seq<char>,
)
    requires
        opts.before matches Some(b) && b@ == day,
        opts.after is None,
        is_bare_day(day),
        m.timestamp matches Some(ts) && ts@ == day + "T"@ + rest,
        rest.len() > 0 ==> rest[0] < '~',
    ensures
        in_time(opts, m),
{
    law_before_covers_the_day(day, rest);
}

/// What matches is listed, once and in the order of the log, and nothing else is: match `i` of
/// the list is that of the message that `i` matching messages stand before.
pub proof fn law_every_matching_message_is_listed(
    file: SessionFile,
    opts: SearchOpts,
    ms: Seq<(usize, Record)>,
    n: int,
    k: int,
)
    requires
        0 <= k < n <= ms.len(),
        matches_at(opts, ms, k),
    ensures
        hits_among(file, opts, ms, k).len() < hits_among(file, opts, ms, n).len(),
        hits_among(file, opts, ms, n)[hits_among(file, opts, ms, k).len() as int] == hit_at(
            file,
            opts,
            ms,
            k,
        ),
    decreases n - k,
{
    if k < n - 1 {
        law_every_matching_message_is_listed(file, opts, ms, n - 1, k);
    }
}

/// Every listed match is that of a message that matches.
pub proof fn law_only_matching_messages_are_listed(
    file: SessionFile,
    opts: SearchOpts,
    ms: Seq<(usize, Record)>,
    n: int,
    i: int,
)
    requires
        0 <= n <= ms.len(),
        0 <= i < hits_among(file, opts, ms, n).len(),
    ensures
        exists|k: int|
            0 <= k < n && #[trigger] matches_at(opts, ms, k) && hits_among(file, opts, ms, n)[i]
                == hit_at(file, opts, ms, k),
    decreases n,
{
    let before = hits_among(file, opts, ms, n - 1);
    if i < before.len() {
        law_only_matching_messages_are_listed(file, opts, ms, n - 1, i);
        let k = choose|k: int|
            0 <= k < n - 1 && #[trigger] matches_at(opts, ms, k) && before[i] == hit_at(
                file,
                opts,
                ms,
                k,
            );
        assert(matches_at(opts, ms, k));
    } else {
        assert(matches_at(opts, ms, n - 1));
    }
}

/// The messages shown around a match are its neighbours in the conversation, as many as asked
/// for or as there are, and the match itself is not among them.
pub proof fn law_context_shows_the_neighbours(
    file: SessionFile,
    opts: SearchOpts,
    ms: Seq<(usize, Record)>,
    k: int,
    j: int,
)
    requires
        0 <= k < ms.len(),
        0 <= j,
    ensures
        ({
            let h = hit_at(file, opts, ms, k);
            let n = opts.context as int;
            &&& h.context_before.len() == if k < n {
                k
            } else {
                n
            }
            &&& h.context_after.len() == if ms.len() - 1 - k < n {
                ms.len() - 1 - k
            } else {
                n
            }
            &&& j < h.context_before.len() ==> h.context_before[j] == ctx_of(
                ms[k - h.context_before.len() + j],
            )
            &&& j < h.context_after.len() ==> h.context_after[j] == ctx_of(ms[k + 1 + j])
        }),
{
}

/// The messages around a match do not depend on what is searched for, nor on any filter.
pub proof fn law_context_ignores_filters(
    file: SessionFile,
    a: SearchOpts,
    b: SearchOpts,
    ms: Seq<(usize, Record)>,
    k: int,
)
    requires
        a.context == b.context,
    ensures
        hit_at(file, a, ms, k).context_before == hit_at(file, b, ms, k).context_before,
        hit_at(file, a, ms, k).context_after == hit_at(file, b, ms, k).context_after,
{
}

/// Of no term are more messages counted than were searched.
pub proof fn law_session_counts_are_consistent(opts: SearchOpts, ms: Seq<(usize, Record)>, n: int)
    ensures
        consistent(corpus_among(opts, ms, n)),
    decreases n,
{
    if n > 0 {
        law_session_counts_are_consistent(opts, ms, n - 1);
    }
}

/// The snippet of a match shows what was matched, whole, where that stands in the text at the
/// position given and takes up no more than the latter half of the snippet. Every find of a
/// regular expression stands there.
pub proof fn law_snippet_shows_what_matched(
    file: SessionFile,
    opts: SearchOpts,
    ms: Seq<(usize, Record)>,
    k: int,
)
    requires
        ({
            let text = searched_text(opts, msg(ms[k]));
            let f = located(terms_of(opts), text)->0;
            &&& stands_at(text, f.text, f.at)
            &&& opts.snippet_len == 0 || f.text.len() <= opts.snippet_len - opts.snippet_len / 2
        }),
    ensures
        contains_text(hit_at(file, opts, ms, k).text, hit_at(file, opts, ms, k).matched_query),
{
    let text = searched_text(opts, msg(ms[k]));
    let f = located(terms_of(opts), text)->0;
    law_snippet_shows_the_match(text, f.at, f.text.len() as int, opts.snippet_len as int);
}

/// The characters of a text whose lower case covers the `len` places from `at` on.
pub open spec fn stretch(text: Seq<char>, at: int, len: int) -> Seq<char> {
    if len <= 0 {
        Seq::empty()
    } else {
        text.subrange(origin(text, at), origin(text, at + len - 1) + 1)
    }
}

/// The snippet of a match of plain queries shows the earliest find, whole: all characters of
/// the message whose lower case covers the query found, where that takes up no more than the
/// latter half of the snippet. They begin at the position given, are no more than the
/// characters of the query, and hold it in lower case, unless the lower case of the message
/// differs from that of its characters.
pub proof fn law_snippet_shows_where_it_matched(
    file: SessionFile,
    opts: SearchOpts,
    ms: Seq<(usize, Record)>,
    k: int,
)
    requires
        !opts.is_regex,
        opts.queries@.len() > 0,
        matches_at(opts, ms, k),
        ({
            let text = searched_text(opts, msg(ms[k]));
            let f = earliest(term_finds(terms_of(opts), text))->0;
            opts.snippet_len == 0 || f.text.len() <= opts.snippet_len - opts.snippet_len / 2
        }),
        searched_text(opts, msg(ms[k])).len() <= usize::MAX,
    ensures
        ({
            let text = searched_text(opts, msg(ms[k]));
            let f = earliest(term_finds(terms_of(opts), text))->0;
            let h = hit_at(file, opts, ms, k);
            let s = stretch(text, f.at, f.text.len() as int);
            &&& earliest(term_finds(terms_of(opts), text)) is Some
            &&& h.match_offset == origin(text, f.at)
            &&& h.match_offset < h.msg_chars
            &&& s.len() <= f.text.len()
            &&& stands_at(text, s, h.match_offset as int)
            &&& contains_text(h.text, s)
            &&& lowercase(text) == each_lower(text) ==> contains_text(each_lower(s), f.text)
        }),
{
    let t = terms_of(opts);
    let text = searched_text(opts, msg(ms[k]));
    let finds = term_finds(t, text);
    law_earliest_is_first_and_nearest(finds);
    assert(finds[0] == term_find(t, 0, text));
    assert(earliest(finds) is Some);
    let f = earliest(finds)->0;
    let i = choose|i: int| 0 <= i < finds.len() && #[trigger] finds[i] == Some(f);
    assert(finds[i] == term_find(t, i, text));
    lemma_find_from(lowercase(text), t.list[i], 0);
    let len = f.text.len() as int;
    law_origin_follows_the_places(text, f.at, f.at);
    if len > 0 {
        law_origin_follows_the_places(text, f.at, f.at + len - 1);
    }
    let s = stretch(text, f.at, len);
    let from = origin(text, f.at);
    assert(text.subrange(from, from + s.len()) =~= s);
    law_snippet_shows_the_match(text, from, s.len() as int, opts.snippet_len as int);
    if lowercase(text) == each_lower(text) {
        if len > 0 {
            law_origin_covers_the_places(text, f.at, len);
        } else {
            assert(each_lower(s).subrange(0, 0) =~= f.text);
            assert(stands_at(each_lower(s), f.text, 0));
        }
    }
}

/// In a text that is in lower case, a plain query is reported where it stands.
pub proof fn law_plain_match_stands_where_found(opts: SearchOpts, text: Seq<char>)
    requires
        !opts.is_regex,
        !opts.and_mode,
        lowercase(text) == text,
        keeps_places(text),
        located(terms_of(opts), text) is Some,
    ensures
        ({
            let f = located(terms_of(opts), text)->0;
            stands_at(text, f.text, f.at)
        }),
{
    let t = terms_of(opts);
    let finds = term_finds(t, text);
    law_earliest_is_first_and_nearest(finds);
    let f = match_of(t, text)->0;
    let i = choose|i: int| 0 <= i < finds.len() && #[trigger] finds[i] == Some(f);
    assert(finds[i] == term_find(t, i, text));
    lemma_find_from(lowercase(text), t.list[i], 0);
    if f.at < text.len() {
        law_origin_is_the_place(text, f.at);
    } else {
        if text.len() > 0 {
            law_origin_follows_the_places(text, f.at, f.at);
        }
        let p = origin(text, f.at);
        assert(text.subrange(p, p) =~= f.text);
    }
}

} // verus!
