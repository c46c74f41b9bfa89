//! Lists the sessions.
use vstd::prelude::*;
use vstd::string::*;

use super::{
    capped, chosen, law_projects_are_chosen_by_name, lemma_all_are_chosen, lemma_ts_keys,
    of_project, timestamp_key, ts_key, Session,
};
use crate::json::{
    depth_limit, json_text, lemma_named_num, lemma_named_object, lemma_named_opt, lemma_named_str,
    member, readable, with_num, with_opt, with_str, Fields, JsonLine, JsonTree, Members,
};
use crate::models::{message_of, reading_of, Reading, Record};
use crate::order::{
    key_views, lemma_lex_irreflexive, lemma_lex_transitive, lemma_ranking_exists, lex_lt,
    listed_before, ranking, sort_by_keys,
};
use crate::output::emit::{
    all_readable, block, forced, header_value, lines_of, new_stream, offered_all, taken_count,
    value_lines, Stream,
};
use crate::output::history::law_listings_can_be_read_back;
use crate::output::records::{law_summaries_are_readable, summary_text, summary_value};
use crate::output::{Emitter, SummaryRecord};
use crate::text::{
    blank, contains_text, decimal, head, is_blank, lowercase, opt_text, take_chars, text_less,
    text_lt, whitespace,
};
use crate::util::dates::{normalize_before, upper_bound};
use crate::util::discover::{human_size, SessionFile};

verus! {

broadcast use {vstd::seq::group_seq_axioms, vstd::string::group_string_axioms};

/// How many characters of a session's first message are shown.
pub const PREVIEW_CHARS: usize = 120;

/// Which sessions to list.
#[derive(Debug)]
pub struct SessionsOpts {
    /// The most sessions to list, 0 for all.
    pub limit: usize,
    pub project: Option<String>,
    pub after: Option<String>,
    pub before: Option<String>,
}

/// One session.
#[derive(Debug)]
pub struct SessionRecord {
    pub record_type: &'static str,
    pub session_id: String,
    pub project: String,
    pub size_bytes: u64,
    pub size_human: String,
    /// The first timestamp of the session.
    pub timestamp: Option<String>,
    pub last_timestamp: Option<String>,
    pub preview: Option<String>,
    pub msg_count: usize,
}

/// A session as a value.
#[verifier::ext_equal]
pub struct Entry {
    pub record_type: Seq<char>,
    pub session_id: Seq<char>,
    pub project: Seq<char>,
    pub size_bytes: u64,
    pub size_human: Seq<char>,
    pub timestamp: Option<Seq<char>>,
    pub last_timestamp: Option<Seq<char>>,
    pub preview: Option<Seq<char>>,
    pub msg_count: nat,
}

impl View for SessionRecord {
    type V = Entry;

    open spec fn view(&self) -> Entry {
        Entry {
            record_type: self.record_type@,
            session_id: self.session_id@,
            project: self.project@,
            size_bytes: self.size_bytes,
            size_human: self.size_human@,
            timestamp: opt_text(self.timestamp),
            last_timestamp: opt_text(self.last_timestamp),
            preview: opt_text(self.preview),
            msg_count: self.msg_count as nat,
        }
    }
}

/// The values of a list of sessions.
pub open spec fn entries_of(list: Seq<SessionRecord>) -> Seq<Entry> {
    list.map_values(|r: SessionRecord| r@)
}

/// The value of a session.
pub open spec fn entry_value(e: Entry) -> JsonTree {
    let f = with_str(Seq::empty(), "type"@, e.record_type);
    let f = with_str(f, "session_id"@, e.session_id);
    let f = with_str(f, "project"@, e.project);
    let f = with_num(f, "size_bytes"@, e.size_bytes as nat);
    let f = with_str(f, "size_human"@, e.size_human);
    let f = with_opt(f, "timestamp"@, e.timestamp);
    let f = with_opt(f, "last_timestamp"@, e.last_timestamp);
    let f = with_opt(f, "preview"@, e.preview);
    JsonTree::Object(with_num(f, "msg_count"@, e.msg_count))
}

/// The text of a session.
pub open spec fn entry_text(e: Entry) -> Seq<char> {
    json_text(entry_value(e))
}

/// The texts of a list of sessions.
pub open spec fn entry_texts(list: Seq<Entry>) -> Seq<Seq<char>> {
    list.map_values(|e: Entry| entry_text(e))
}

impl JsonLine for SessionRecord {
    open spec fn value(&self) -> JsonTree {
        entry_value(self@)
    }

    fn to_line(&self) -> (r: String) {
        let mut f = Fields::new();
        f.str("type", self.record_type);
        f.str("session_id", self.session_id.as_str());
        f.str("project", self.project.as_str());
        f.num("size_bytes", self.size_bytes as u128);
        f.str("size_human", self.size_human.as_str());
        f.opt("timestamp", &self.timestamp);
        f.opt("last_timestamp", &self.last_timestamp);
        f.opt("preview", &self.preview);
        f.num("msg_count", self.msg_count as u128);
        f.finish()
    }
}

// ---- One session ----------------------------------------------------------

/// The timestamp of a record that carries a message.
pub open spec fn stamp(r: Record) -> Option<Seq<char>> {
    match message_of(r) {
        Some(m) => opt_text(m.timestamp),
        None => None,
    }
}

/// The first timestamp of the records.
pub open spec fn first_stamp(records: Seq<(usize, Record)>) -> Option<Seq<char>>
    decreases records.len(),
{
    if records.len() == 0 {
        None
    } else {
        match first_stamp(records.drop_last()) {
            Some(ts) => Some(ts),
            None => stamp(records.last().1),
        }
    }
}

/// The last timestamp of the records.
pub open spec fn last_stamp(records: Seq<(usize, Record)>) -> Option<Seq<char>>
    decreases records.len(),
{
    if records.len() == 0 {
        None
    } else {
        match stamp(records.last().1) {
            Some(ts) => Some(ts),
            None => last_stamp(records.drop_last()),
        }
    }
}

/// What a record of the user says, cut short, where it says anything.
pub open spec fn opening_of(r: Record) -> Option<Seq<char>> {
    match r {
        Record::User(m) => {
            let t = head(reading_of(m, Reading::Spoken), PREVIEW_CHARS as int);
            if is_blank(t) {
                None
            } else {
                Some(t)
            }
        },
        _ => None,
    }
}

/// What the first record of the user that says anything says, cut short.
pub open spec fn opening(records: Seq<(usize, Record)>) -> Option<Seq<char>>
    decreases records.len(),
{
    if records.len() == 0 {
        None
    } else {
        match opening(records.drop_last()) {
            Some(t) => Some(t),
            None => opening_of(records.last().1),
        }
    }
}

/// How many of the records carry a message.
pub open spec fn message_count(records: Seq<(usize, Record)>) -> nat
    decreases records.len(),
{
    if records.len() == 0 {
        0
    } else {
        message_count(records.drop_last()) + if message_of(records.last().1) is Some {
            1nat
        } else {
            0nat
        }
    }
}

/// The entry of a session.
pub open spec fn entry_of(file: SessionFile, records: Seq<(usize, Record)>) -> Entry {
    Entry {
        record_type: "session"@,
        session_id: file.session_id@,
        project: file.project_name@,
        size_bytes: file.size_bytes,
        size_human: human_size(file.size_bytes as nat),
        timestamp: first_stamp(records),
        last_timestamp: last_stamp(records),
        preview: opening(records),
        msg_count: message_count(records),
    }
}

/// Whether a session begins within the dates asked for. One without a timestamp begins within
/// none. A bare day as the last one is taken whole.
pub open spec fn begins_in_time(opts: SessionsOpts, first: Option<Seq<char>>) -> bool {
    if opts.after is Some || opts.before is Some {
        match first {
            Some(ts) => {
                &&& opts.after matches Some(a) ==> !text_lt(ts, a@)
                &&& opts.before matches Some(b) ==> !text_lt(upper_bound(b@), ts)
            },
            None => false,
        }
    } else {
        true
    }
}

/// Whether a session begins within the dates asked for.
fn dated(opts: &SessionsOpts, first: &Option<String>) -> (r: bool)
    ensures
        r == begins_in_time(*opts, opt_text(*first)),
{
    if opts.after.is_some() || opts.before.is_some() {
        match first {
            Some(ts) => {
                let early = match &opts.after {
                    Some(a) => text_less(ts.as_str(), a.as_str()),
                    None => false,
                };
                let late = match &opts.before {
                    Some(b) => {
                        let bound = normalize_before(b.clone());
                        text_less(bound.as_str(), ts.as_str())
                    },
                    None => false,
                };
                !early && !late
            },
            None => false,
        }
    } else {
        true
    }
}

/// What a record of the user says, cut short, where it says anything.
fn read_opening(record: &Record) -> (r: Option<String>)
    ensures
        opt_text(r) == opening_of(*record),
{
    match record {
        Record::User(m) => {
            let full = m.text_content();
            let t = take_chars(full.as_str(), PREVIEW_CHARS);
            if blank(t.as_str()) {
                None
            } else {
                Some(t)
            }
        },
        _ => None,
    }
}

/// The entry of a session, where it begins within the dates asked for.
pub fn describe(opts: &SessionsOpts, file: &SessionFile, records: &Vec<(usize, Record)>) -> (r:
    Option<SessionRecord>)
    ensures
        match r {
            Some(e) => begins_in_time(*opts, first_stamp(records@)) && e@ == entry_of(
                *file,
                records@,
            ),
            None => !begins_in_time(*opts, first_stamp(records@)),
        },
{
    let mut first: Option<String> = None;
    let mut last: Option<String> = None;
    let mut preview: Option<String> = None;
    let mut msg_count: usize = 0;
    let mut i: usize = 0;
    while i < records.len()
        invariant
            i <= records.len(),
            msg_count <= i,
            opt_text(first) == first_stamp(records@.take(i as int)),
            opt_text(last) == last_stamp(records@.take(i as int)),
            opt_text(preview) == opening(records@.take(i as int)),
            msg_count == message_count(records@.take(i as int)),
        decreases records.len() - i,
    {
        assert(records@.take(i + 1).drop_last() =~= records@.take(i as int));
        let record = &records[i].1;
        match record.as_message() {
            Some(m) => {
                msg_count = msg_count + 1;
                match &m.timestamp {
                    Some(ts) => {
                        if first.is_none() {
                            first = Some(ts.clone());
                        }
                        last = Some(ts.clone());
                    },
                    None => {},
                }
                if preview.is_none() {
                    preview = read_opening(record);
                }
            },
            None => {},
        }
        i = i + 1;
    }
    assert(records@.take(i as int) =~= records@);
    if !dated(opts, &first) {
        return None;
    }
    let e = SessionRecord {
        record_type: "session",
        session_id: file.session_id.clone(),
        project: file.project_name.clone(),
        size_bytes: file.size_bytes,
        size_human: file.size_human(),
        timestamp: first,
        last_timestamp: last,
        preview,
        msg_count,
    };
    assert(e@ =~= entry_of(*file, records@));
    Some(e)
}

// ---- All sessions ---------------------------------------------------------

/// The entry of a session, where its log could be opened and it begins within the dates asked
/// for.
pub open spec fn session_entry(opts: SessionsOpts, s: Session) -> Option<Entry> {
    if s.records is Some && begins_in_time(opts, first_stamp(s.log())) {
        Some(entry_of(s.file, s.log()))
    } else {
        None
    }
}

/// The entries of the sessions that have one.
pub open spec fn entries(opts: SessionsOpts, ss: Seq<Session>) -> Seq<Entry>
    decreases ss.len(),
{
    if ss.len() == 0 {
        Seq::empty()
    } else {
        let before = entries(opts, ss.drop_last());
        match session_entry(opts, ss.last()) {
            Some(e) => before.push(e),
            None => before,
        }
    }
}

/// The entry that a record stands for, where there is one.
pub open spec fn opt_entry(r: Option<SessionRecord>) -> Option<Entry> {
    match r {
        Some(e) => Some(e@),
        None => None,
    }
}

/// The entries that a list of parts holds.
pub open spec fn gathered(parts: Seq<Option<SessionRecord>>) -> Seq<Entry>
    decreases parts.len(),
{
    if parts.len() == 0 {
        Seq::empty()
    } else {
        let before = gathered(parts.drop_last());
        match parts.last() {
            Some(e) => before.push(e@),
            None => before,
        }
    }
}

/// Whether `parts` holds the entry of each of the sessions.
pub open spec fn described_apart(
    opts: SessionsOpts,
    ss: Seq<Session>,
    parts: Seq<Option<SessionRecord>>,
) -> bool {
    &&& parts.len() == ss.len()
    &&& forall|i: int|
        0 <= i < ss.len() ==> opt_entry(#[trigger] parts[i]) == session_entry(opts, ss[i])
}

/// What sessions are ordered by.
pub open spec fn entry_keys(list: Seq<Entry>) -> Seq<Seq<u64>> {
    list.map_values(|e: Entry| ts_key(e.timestamp))
}

/// The sessions with the latest first, those without a timestamp last.
pub open spec fn latest_first(list: Seq<Entry>) -> Seq<Entry> {
    ranking(entry_keys(list), true).map_values(|i: usize| list[i as int])
}

/// The lines to write: the sessions with the latest first, no more than the limit.
pub open spec fn listing(opts: SessionsOpts, list: Seq<Entry>) -> Seq<Seq<char>> {
    entry_texts(capped(latest_first(list), opts.limit as int))
}

/// The stream at the end of the command.
pub open spec fn concluded(
    opts: SessionsOpts,
    list: Seq<Entry>,
    files_scanned: usize,
    elapsed_ms: nat,
    s: Stream,
) -> Stream {
    let lines = listing(opts, list);
    forced(
        offered_all(s, lines),
        summary_text("summary"@, lines.len(), Some(files_scanned), elapsed_ms),
    )
}

/// Writes the sessions, the latest first and no more than the limit, as far as the budget has
/// room, and a summary. Says whether any session was written.
pub fn conclude(
    opts: &SessionsOpts,
    all: Vec<SessionRecord>,
    files_scanned: usize,
    elapsed_ms: u128,
    em: &mut Emitter,
) -> (r: bool)
    requires
        old(em).wf(),
    ensures
        final(em).wf(),
        r == (taken_count(old(em)@, listing(*opts, entries_of(all@))) > 0),
        final(em)@ == concluded(
            *opts,
            entries_of(all@),
            files_scanned,
            elapsed_ms as nat,
            old(em)@,
        ),
{
    let ghost list = entries_of(all@);
    let mut keys: Vec<Vec<u64>> = Vec::new();
    let mut i: usize = 0;
    while i < all.len()
        invariant
            i <= all.len(),
            keys.len() == i,
            list == entries_of(all@),
            forall|k: int| 0 <= k < i ==> #[trigger] keys[k]@ == ts_key(list[k].timestamp),
        decreases all.len() - i,
    {
        keys.push(timestamp_key(&all[i].timestamp));
        i = i + 1;
    }
    assert(key_views(keys@) =~= entry_keys(list));
    let mut sorted = sort_by_keys(all, &keys, true);
    proof {
        lemma_ranking_exists(entry_keys(list), true);
        let order = ranking(entry_keys(list), true);
        assert forall|p: int| 0 <= p < order.len() implies #[trigger] order[p] < list.len() by {
            assert(order.contains(order[p]));
        }
    }
    assert(entries_of(sorted@) =~= latest_first(list));
    assert(entries_of(sorted@).len() == sorted@.len());
    if opts.limit > 0 && sorted.len() > opts.limit {
        sorted.truncate(opts.limit);
    }
    let show: usize = sorted.len();
    assert(entries_of(sorted@) =~= capped(latest_first(list), opts.limit as int));
    assert(lines_of(sorted@) =~= listing(*opts, list));
    let written: usize = em.emit_all(&sorted);
    let summary = SummaryRecord {
        record_type: "summary",
        count: show,
        files_scanned: Some(files_scanned),
        elapsed_ms,
    };
    em.emit_always(&summary);
    written > 0
}

/// The entry of a session, where it has one.
pub fn describe_session(opts: &SessionsOpts, session: &Session) -> (r: Option<SessionRecord>)
    ensures
        opt_entry(r) == session_entry(*opts, *session),
{
    match &session.records {
        Some(records) => describe(opts, &session.file, records),
        None => None,
    }
}

/// Ends the command once the entry of each session is there, in the order of the sessions.
/// Every session counts as scanned, whether it has an entry or not. Says whether any session
/// was written.
pub fn finish(
    opts: &SessionsOpts,
    parts: Vec<Option<SessionRecord>>,
    elapsed_ms: u128,
    em: &mut Emitter,
) -> (r: bool)
    requires
        old(em).wf(),
    ensures
        final(em).wf(),
        r == (taken_count(old(em)@, listing(*opts, gathered(parts@))) > 0),
        final(em)@ == concluded(
            *opts,
            gathered(parts@),
            parts@.len() as usize,
            elapsed_ms as nat,
            old(em)@,
        ),
{
    let ghost given = parts@;
    let files: usize = parts.len();
    let mut all: Vec<SessionRecord> = Vec::new();
    assert(entries_of(all@) =~= gathered(given.take(0)));
    for part in it: parts
        invariant
            it.seq() == given,
            entries_of(all@) == gathered(given.take(it.index() as int)),
    {
        let ghost i = it.index() as int;
        assert(given.take(i + 1).drop_last() =~= given.take(i));
        match part {
            Some(e) => {
                let ghost before = all@;
                all.push(e);
                assert(entries_of(all@) =~= entries_of(before).push(e@));
            },
            None => {},
        }
    }
    assert(given.take(given.len() as int) =~= given);
    conclude(opts, all, files, elapsed_ms, em)
}

/// The stream once the command was run over sessions.
pub open spec fn ran(
    opts: SessionsOpts,
    sessions: Seq<Session>,
    elapsed_ms: nat,
    s: Stream,
) -> Stream {
    let ss = chosen(opts.project, sessions);
    concluded(opts, entries(opts, ss), ss.len() as usize, elapsed_ms, s)
}

/// Whether anything is written when the command is run over sessions.
pub open spec fn any_written(opts: SessionsOpts, sessions: Seq<Session>, s: Stream) -> bool {
    taken_count(s, listing(opts, entries(opts, chosen(opts.project, sessions)))) > 0
}

/// Lists the sessions. Says whether any was written. `elapsed_ms` is the time the command took.
pub fn run(opts: &SessionsOpts, sessions: &Vec<Session>, elapsed_ms: u128, em: &mut Emitter) -> (r:
    bool)
    requires
        old(em).wf(),
    ensures
        final(em).wf(),
        r == any_written(*opts, sessions@, old(em)@),
        final(em)@ == ran(*opts, sessions@, elapsed_ms as nat, old(em)@),
{
    let mut parts: Vec<Option<SessionRecord>> = Vec::new();
    let mut i: usize = 0;
    while i < sessions.len()
        invariant
            i <= sessions.len(),
            described_apart(*opts, chosen(opts.project, sessions@.take(i as int)), parts@),
        decreases sessions.len() - i,
    {
        let s = &sessions[i];
        assert(sessions@.take(i + 1).drop_last() =~= sessions@.take(i as int));
        if of_project(&s.file, &opts.project) {
            parts.push(describe_session(opts, s));
        }
        i = i + 1;
    }
    assert(sessions@.take(i as int) =~= sessions@);
    proof {
        law_sessions_may_be_described_apart(*opts, chosen(opts.project, sessions@), parts@);
    }
    finish(opts, parts, elapsed_ms, em)
}

// ---- Laws -----------------------------------------------------------------

/// Sessions may be described each by itself, in any order: the entries of each come to those of
/// all of them.
pub proof fn law_sessions_may_be_described_apart(
    opts: SessionsOpts,
    ss: Seq<Session>,
    parts: Seq<Option<SessionRecord>>,
)
    requires
        described_apart(opts, ss, parts),
    ensures
        gathered(parts) == entries(opts, ss),
    decreases ss.len(),
{
    if ss.len() > 0 {
        assert(described_apart(opts, ss.drop_last(), parts.drop_last()));
        law_sessions_may_be_described_apart(opts, ss.drop_last(), parts.drop_last());
        assert(opt_entry(parts[ss.len() - 1]) == session_entry(opts, ss.last()));
    }
}

/// No session is followed by one that began later, and those without a timestamp come last.
pub proof fn law_latest_sessions_come_first(list: Seq<Entry>, p: int, q: int)
    requires
        list.len() <= usize::MAX,
        0 <= p < q < list.len(),
    ensures
        match (latest_first(list)[p].timestamp, latest_first(list)[q].timestamp) {
            (Some(a), Some(b)) => !text_lt(a, b),
            (None, Some(_)) => false,
            (_, None) => true,
        },
{
    let keys = entry_keys(list);
    let order = ranking(keys, true);
    lemma_ranking_exists(keys, true);
    assert(order.contains(order[p]) && order.contains(order[q]));
    assert(listed_before(keys, true, order[p], order[q]));
    let a = keys[order[p] as int];
    let b = keys[order[q] as int];
    lemma_lex_irreflexive(a);
    if lex_lt(a, b) && lex_lt(b, a) {
        lemma_lex_transitive(a, b, a);
    }
    let (x, y) = (latest_first(list)[p].timestamp, latest_first(list)[q].timestamp);
    if x is Some && y is Some {
        lemma_ts_keys(x->0, y->0);
    }
}

/// Where dates are asked for, a session without a timestamp is left out.
pub proof fn law_undated_sessions_are_left_out(opts: SessionsOpts, ss: Seq<Session>, i: int)
    requires
        opts.after is Some || opts.before is Some,
        0 <= i < entries(opts, ss).len(),
    ensures
        entries(opts, ss)[i].timestamp is Some,
    decreases ss.len(),
{
    if i < entries(opts, ss.drop_last()).len() {
        law_undated_sessions_are_left_out(opts, ss.drop_last(), i);
    }
}

/// A session has as many messages as records that carry one, and a first timestamp exactly
/// where it has a last one.
pub proof fn law_session_is_scanned_whole(records: Seq<(usize, Record)>)
    ensures
        message_count(records) == crate::cmd::search::scan::messages(records).len(),
        first_stamp(records) is Some <==> last_stamp(records) is Some,
    decreases records.len(),
{
    if records.len() > 0 {
        law_session_is_scanned_whole(records.drop_last());
    }
}

/// A listed session can be read back.
pub proof fn law_entries_are_readable(e: Entry)
    requires
        e.msg_count <= u64::MAX,
    ensures
        readable(entry_value(e), depth_limit()),
{
    reveal_strlit("type");
    reveal_strlit("session_id");
    reveal_strlit("project");
    reveal_strlit("size_bytes");
    reveal_strlit("size_human");
    reveal_strlit("timestamp");
    reveal_strlit("last_timestamp");
    reveal_strlit("preview");
    reveal_strlit("msg_count");
    assert("type"@.len() == 4);
    assert("session_id"@.len() == 10 && "session_id"@[1] == 'e');
    assert("project"@.len() == 7 && "project"@[2] == 'o');
    assert("size_bytes"@.len() == 10 && "size_bytes"@[1] == 'i' && "size_bytes"@[5] == 'b');
    assert("size_human"@.len() == 10 && "size_human"@[1] == 'i' && "size_human"@[5] == 'h');
    assert("timestamp"@.len() == 9 && "timestamp"@[0] == 't');
    assert("last_timestamp"@.len() == 14);
    assert("preview"@.len() == 7 && "preview"@[2] == 'e');
    assert("msg_count"@.len() == 9 && "msg_count"@[0] == 'm');
    let d = (depth_limit() - 1) as nat;
    let (f, n) = (Members::empty(), Set::<Seq<char>>::empty());
    lemma_named_str(f, n, "type"@, e.record_type, d);
    let (f, n) = (with_str(f, "type"@, e.record_type), n.insert("type"@));
    lemma_named_str(f, n, "session_id"@, e.session_id, d);
    let (f, n) = (with_str(f, "session_id"@, e.session_id), n.insert("session_id"@));
    lemma_named_str(f, n, "project"@, e.project, d);
    let (f, n) = (with_str(f, "project"@, e.project), n.insert("project"@));
    lemma_named_num(f, n, "size_bytes"@, e.size_bytes as nat, d);
    let (f, n) = (with_num(f, "size_bytes"@, e.size_bytes as nat), n.insert("size_bytes"@));
    lemma_named_str(f, n, "size_human"@, e.size_human, d);
    let (f, n) = (with_str(f, "size_human"@, e.size_human), n.insert("size_human"@));
    lemma_named_opt(f, n, "timestamp"@, e.timestamp, d);
    let (f, n) = (with_opt(f, "timestamp"@, e.timestamp), n.insert("timestamp"@));
    lemma_named_opt(f, n, "last_timestamp"@, e.last_timestamp, d);
    let (f, n) = (with_opt(f, "last_timestamp"@, e.last_timestamp), n.insert("last_timestamp"@));
    lemma_named_opt(f, n, "preview"@, e.preview, d);
    let (f, n) = (with_opt(f, "preview"@, e.preview), n.insert("preview"@));
    lemma_named_num(f, n, "msg_count"@, e.msg_count, d);
    let (f, n) = (with_num(f, "msg_count"@, e.msg_count), n.insert("msg_count"@));
    lemma_named_object(f, n, d);
}

/// What the command writes, whatever the budget, can be read back: a header, the sessions as far
/// as there is room, and the summary.
pub proof fn law_output_can_be_read_back(
    opts: SessionsOpts,
    list: Seq<Entry>,
    files_scanned: usize,
    elapsed_ms: nat,
    budget: nat,
)
    requires
        list.len() <= usize::MAX,
        forall|i: int| 0 <= i < list.len() ==> (#[trigger] list[i]).msg_count <= u64::MAX,
        elapsed_ms <= u64::MAX,
    ensures
        ({
            let new = new_stream(budget);
            let values = capped(latest_first(list), opts.limit as int).map_values(
                |e: Entry| entry_value(e),
            );
            let n = taken_count(new, listing(opts, list)) as int;
            let summary = summary_value("summary"@, values.len(), Some(files_scanned), elapsed_ms);
            let all = seq![header_value()] + values.take(n) + seq![summary];
            &&& concluded(opts, list, files_scanned, elapsed_ms, new).text == block(
                value_lines(all),
            )
            &&& all_readable(all)
        }),
{
    let order = ranking(entry_keys(list), true);
    lemma_ranking_exists(entry_keys(list), true);
    let shown = capped(latest_first(list), opts.limit as int);
    let values = shown.map_values(|e: Entry| entry_value(e));
    let summary = summary_value("summary"@, values.len(), Some(files_scanned), elapsed_ms);
    assert forall|i: int| 0 <= i < values.len() implies readable(
        #[trigger] values[i],
        depth_limit(),
    ) by {
        assert(order.contains(order[i]));
        assert(shown[i] == list[order[i] as int]);
        law_entries_are_readable(shown[i]);
    }
    law_summaries_are_readable("summary"@, values.len(), Some(files_scanned), elapsed_ms);
    assert(value_lines(values) =~= listing(opts, list));
    law_listings_can_be_read_back(budget, values, summary);
}

// ---- Laws of listing ------------------------------------------------------

/// A session is listed exactly where its log could be opened and it begins within each of the
/// bounds by itself: not before the one, and not after the other, of which a bare day is taken
/// whole. With a bound, one that has no timestamp is not.
pub proof fn law_each_bound_holds_by_itself(opts: SessionsOpts, s: Session)
    ensures
        session_entry(opts, s) is Some <==> {
            &&& s.records is Some
            &&& opts.after matches Some(a) ==> (first_stamp(s.log()) matches Some(ts) && !text_lt(
                ts,
                a@,
            ))
            &&& opts.before matches Some(b) ==> (first_stamp(s.log()) matches Some(ts)
                && !text_lt(upper_bound(b@), ts))
        },
{
}

/// A further bound lets in no session that the other leaves out, and both let in what each does.
pub proof fn law_bounds_only_leave_out(
    opts: SessionsOpts,
    after: SessionsOpts,
    before: SessionsOpts,
    s: Session,
)
    requires
        after.after == opts.after,
        after.before is None,
        before.after is None,
        before.before == opts.before,
    ensures
        session_entry(opts, s) is Some <==> session_entry(after, s) is Some && session_entry(
            before,
            s,
        ) is Some,
{
}

/// What is told of a listed session: its file, the first and the last timestamp of its
/// messages, how many there are, and what the user said first.
pub proof fn law_entries_tell_of_their_session(opts: SessionsOpts, s: Session)
    ensures
        session_entry(opts, s) matches Some(e) ==> {
            &&& e.record_type == "session"@
            &&& e.session_id == s.file.session_id@
            &&& e.project == s.file.project_name@
            &&& e.size_bytes == s.file.size_bytes
            &&& e.size_human == human_size(s.file.size_bytes as nat)
            &&& e.timestamp == first_stamp(s.log())
            &&& e.last_timestamp == last_stamp(s.log())
            &&& e.preview == opening(s.log())
            &&& e.msg_count == message_count(s.log())
        },
{
}

/// The first timestamp of a log is that of its first message that has one, the last that of its
/// last. Every message counts, of whatever role, and no other record.
pub proof fn law_logs_are_read_from_end_to_end(
    a: Seq<(usize, Record)>,
    b: Seq<(usize, Record)>,
    r: (usize, Record),
)
    ensures
        first_stamp(a + b) == match first_stamp(a) {
            Some(ts) => Some(ts),
            None => first_stamp(b),
        },
        last_stamp(a + b) == match last_stamp(b) {
            Some(ts) => Some(ts),
            None => last_stamp(a),
        },
        opening(a + b) == match opening(a) {
            Some(t) => Some(t),
            None => opening(b),
        },
        message_count(a + b) == message_count(a) + message_count(b),
        first_stamp(Seq::empty()) is None && last_stamp(Seq::empty()) is None,
        opening(Seq::empty()) is None && message_count(Seq::empty()) == 0,
        first_stamp(seq![r]) == match r.1 {
            Record::User(m) | Record::Assistant(m) | Record::System(m) => opt_text(m.timestamp),
            _ => None,
        },
        last_stamp(seq![r]) == first_stamp(seq![r]),
        message_count(seq![r]) == if r.1 is User || r.1 is Assistant || r.1 is System {
            1nat
        } else {
            0nat
        },
    decreases b.len(),
{
    reveal_with_fuel(first_stamp, 2);
    reveal_with_fuel(last_stamp, 2);
    reveal_with_fuel(message_count, 2);
    assert(seq![r].drop_last() =~= Seq::empty());
    assert(seq![r].last() == r);
    if b.len() == 0 {
        assert(a + b =~= a);
    } else {
        assert((a + b).drop_last() =~= a + b.drop_last());
        assert((a + b).last() == b.last());
        law_logs_are_read_from_end_to_end(a, b.drop_last(), r);
    }
}

/// What a single record opens a log with: nothing, unless it is of the user and one of the first
/// 120 characters that it says or thinks is no whitespace; then those characters.
pub proof fn law_logs_open_with_what_the_user_says(r: (usize, Record))
    ensures
        opening(seq![r]) is Some <==> (r.1 matches Record::User(m) && exists|k: int|
            0 <= k < reading_of(m, Reading::Spoken).len() && k < 120 && !whitespace(
                #[trigger] reading_of(m, Reading::Spoken)[k],
            )),
        opening(seq![r]) matches Some(t) ==> {
            let text = reading_of(message_of(r.1)->0, Reading::Spoken);
            &&& t.len() == if text.len() < 120 {
                text.len() as int
            } else {
                120
            }
            &&& forall|k: int| 0 <= k < t.len() ==> #[trigger] t[k] == text[k]
        },
{
    reveal_with_fuel(opening, 2);
    assert(seq![r].drop_last() =~= Seq::empty());
    assert(seq![r].last() == r);
    if let Record::User(m) = r.1 {
        let text = reading_of(m, Reading::Spoken);
        let t = head(text, 120);
        if !is_blank(t) {
            let k = choose|k: int| 0 <= k < t.len() && !whitespace(#[trigger] t[k]);
            assert(!whitespace(text[k]));
        }
        if exists|k: int| 0 <= k < text.len() && k < 120 && !whitespace(#[trigger] text[k]) {
            let k = choose|k: int| 0 <= k < text.len() && k < 120 && !whitespace(#[trigger] text[k]);
            assert(!whitespace(t[k]));
        }
    }
}

/// The sessions listed are those that have an entry, one after the other.
pub proof fn law_sessions_are_listed_in_turn(
    opts: SessionsOpts,
    a: Seq<Session>,
    b: Seq<Session>,
    s: Session,
)
    ensures
        entries(opts, Seq::empty()) == Seq::<Entry>::empty(),
        entries(opts, a + b) == entries(opts, a) + entries(opts, b),
        entries(opts, seq![s]) == match session_entry(opts, s) {
            Some(e) => seq![e],
            None => Seq::empty(),
        },
    decreases b.len(),
{
    reveal_with_fuel(entries, 2);
    assert(seq![s].drop_last() =~= Seq::empty());
    assert(seq![s].last() == s);
    assert(entries(opts, seq![s]) =~= match session_entry(opts, s) {
        Some(e) => seq![e],
        None => Seq::empty(),
    });
    if b.len() == 0 {
        assert(a + b =~= a);
        assert(entries(opts, a) + entries(opts, b) =~= entries(opts, a));
    } else {
        assert((a + b).drop_last() =~= a + b.drop_last());
        assert((a + b).last() == b.last());
        law_sessions_are_listed_in_turn(opts, a, b.drop_last(), s);
        assert(entries(opts, a + b) =~= entries(opts, a) + entries(opts, b));
    }
}

/// To put the latest first neither loses nor repeats a session, and keeps the order of those
/// that begin at one time: session `p` of the list is session `order[p]`, each of them once.
pub proof fn law_latest_first_is_a_stable_permutation(list: Seq<Entry>) -> (order: Seq<usize>)
    requires
        list.len() <= usize::MAX,
    ensures
        latest_first(list).len() == list.len(),
        order.len() == list.len(),
        forall|k: usize| #[trigger] order.contains(k) <==> k < list.len(),
        forall|p: int| 0 <= p < list.len() ==> #[trigger] latest_first(list)[p] == list[order[p] as int],
        forall|p: int, q: int|
            0 <= p < q < list.len() && list[#[trigger] order[p] as int].timestamp
                == list[#[trigger] order[q] as int].timestamp ==> order[p] < order[q],
{
    let keys = entry_keys(list);
    let order = ranking(keys, true);
    lemma_ranking_exists(keys, true);
    assert forall|p: int, q: int|
        0 <= p < q < list.len() && list[#[trigger] order[p] as int].timestamp
            == list[#[trigger] order[q] as int].timestamp implies order[p] < order[q] by {
        assert(order.contains(order[p]) && order.contains(order[q]));
        assert(listed_before(keys, true, order[p], order[q]));
        lemma_lex_irreflexive(keys[order[p] as int]);
    }
    order
}

/// As many sessions are written as the limit asks for, or all of them, as far as the budget has
/// room: the first of those with the latest first.
pub proof fn law_first_sessions_are_written(opts: SessionsOpts, list: Seq<Entry>, i: int)
    requires
        list.len() <= usize::MAX,
    ensures
        listing(opts, list).len() == if 0 < opts.limit < list.len() {
            opts.limit as int
        } else {
            list.len() as int
        },
        0 <= i < listing(opts, list).len() ==> listing(opts, list)[i] == json_text(
            entry_value(latest_first(list)[i]),
        ),
{
    let _ = law_latest_first_is_a_stable_permutation(list);
}

/// A listed session holds its fields under their names, those that are missing left out.
pub proof fn law_entries_hold_their_fields(e: Entry)
    ensures
        ({
            let v = entry_value(e);
            &&& member(v, "type"@) == Some(JsonTree::Str(e.record_type))
            &&& member(v, "session_id"@) == Some(JsonTree::Str(e.session_id))
            &&& member(v, "project"@) == Some(JsonTree::Str(e.project))
            &&& member(v, "size_bytes"@) == Some(JsonTree::Number(decimal(e.size_bytes as nat)))
            &&& member(v, "size_human"@) == Some(JsonTree::Str(e.size_human))
            &&& member(v, "timestamp"@) == match e.timestamp {
                Some(x) => Some(JsonTree::Str(x)),
                None => None,
            }
            &&& member(v, "last_timestamp"@) == match e.last_timestamp {
                Some(x) => Some(JsonTree::Str(x)),
                None => None,
            }
            &&& member(v, "preview"@) == match e.preview {
                Some(x) => Some(JsonTree::Str(x)),
                None => None,
            }
            &&& member(v, "msg_count"@) == Some(JsonTree::Number(decimal(e.msg_count)))
        }),
{
    broadcast use crate::json::lemma_entry_pushed;

    reveal_strlit("type");
    reveal_strlit("session_id");
    reveal_strlit("project");
    reveal_strlit("size_bytes");
    reveal_strlit("size_human");
    reveal_strlit("timestamp");
    reveal_strlit("last_timestamp");
    reveal_strlit("preview");
    reveal_strlit("msg_count");
    assert("type"@.len() == 4);
    assert("session_id"@.len() == 10 && "session_id"@[1] == 'e');
    assert("project"@.len() == 7 && "project"@[2] == 'o');
    assert("size_bytes"@.len() == 10 && "size_bytes"@[1] == 'i' && "size_bytes"@[5] == 'b');
    assert("size_human"@.len() == 10 && "size_human"@[1] == 'i' && "size_human"@[5] == 'h');
    assert("timestamp"@.len() == 9 && "timestamp"@[0] == 't');
    assert("last_timestamp"@.len() == 14);
    assert("preview"@.len() == 7 && "preview"@[2] == 'e');
    assert("msg_count"@.len() == 9 && "msg_count"@[0] == 'm');
}

/// A session of another project changes nothing, and is not counted either; where all are of
/// the project, or none is asked for, all of them are scanned.
pub proof fn law_other_projects_change_nothing(
    opts: SessionsOpts,
    a: Seq<Session>,
    other: Session,
    b: Seq<Session>,
    elapsed_ms: nat,
    s: Stream,
)
    ensures
        opts.project matches Some(p) ==> (!contains_text(
            lowercase(other.file.project_name@),
            lowercase(p@),
        ) ==> ran(opts, a + seq![other] + b, elapsed_ms, s) == ran(opts, a + b, elapsed_ms, s)
            && any_written(opts, a + seq![other] + b, s) == any_written(opts, a + b, s)),
        (opts.project matches Some(p) ==> forall|i: int|
            0 <= i < a.len() ==> contains_text(
                lowercase((#[trigger] a[i]).file.project_name@),
                lowercase(p@),
            )) ==> ran(opts, a, elapsed_ms, s) == concluded(
            opts,
            entries(opts, a),
            a.len() as usize,
            elapsed_ms,
            s,
        ) && (any_written(opts, a, s) <==> taken_count(s, listing(opts, entries(opts, a))) >= 1),
{
    let one = seq![other];
    law_projects_are_chosen_by_name(opts.project, a + one, b, other);
    law_projects_are_chosen_by_name(opts.project, a, one, other);
    law_projects_are_chosen_by_name(opts.project, a, b, other);
    let ca = chosen(opts.project, a);
    assert(ca + Seq::empty() =~= ca);
    if opts.project matches Some(p) ==> forall|i: int|
        0 <= i < a.len() ==> contains_text(
            lowercase((#[trigger] a[i]).file.project_name@),
            lowercase(p@),
        ) {
        lemma_all_are_chosen(opts.project, a);
    }
}

} // verus!
