//! Lists the most recent messages of all sessions.
use std::collections::VecDeque;

use vstd::prelude::*;
use vstd::string::*;

use super::{
    chosen, law_projects_are_chosen_by_name, lemma_all_are_chosen, of_project, Session,
};
use crate::json::{
    depth_limit, json_text, lemma_named_num, lemma_named_object, lemma_named_str, member, readable,
    with_num, with_str, Fields, JsonLine, JsonTree, Members,
};
use crate::models::{message_of, reading_of, role_of, MessageRecord, Reading, Record};
use crate::order::{
    key_views, lemma_lex_irreflexive, lemma_lex_total, lemma_lex_transitive, lemma_ranking_exists,
    lex_lt, listed_before, ranking, sort_by_keys,
};
use crate::output::emit::{
    all_readable, block, forced, header_value, lines_of, new_stream, offered_all, taken_count,
    value_lines, Stream,
};
use crate::output::history::law_listings_can_be_read_back;
use crate::output::records::{law_summaries_are_readable, summary_text, summary_value};
use crate::output::{Emitter, SummaryRecord};
use crate::text::{
    blank, codes, codes_of, contains_text, decimal, head, is_blank, lowercase, same_text, text_lt,
    to_chars, whitespace,
};
use crate::util::discover::SessionFile;

verus! {

broadcast use {vstd::seq::group_seq_axioms, vstd::string::group_string_axioms};

/// How many characters of a message are shown.
pub const PREVIEW_CHARS: usize = 120;

/// Which messages to list.
#[derive(Debug)]
pub struct RecentOpts {
    /// The most messages to list.
    pub limit: usize,
    pub role: Option<String>,
    pub project: Option<String>,
}

/// One message.
#[derive(Debug)]
pub struct RecentRecord {
    pub record_type: &'static str,
    pub project: String,
    pub session_id: String,
    /// The line of the log.
    pub line: usize,
    pub role: String,
    pub timestamp: String,
    pub text: String,
}

/// A message as a value.
#[verifier::ext_equal]
pub struct Recent {
    pub record_type: Seq<char>,
    pub project: Seq<char>,
    pub session_id: Seq<char>,
    pub line: usize,
    pub role: Seq<char>,
    pub timestamp: Seq<char>,
    pub text: Seq<char>,
}

impl View for RecentRecord {
    type V = Recent;

    open spec fn view(&self) -> Recent {
        Recent {
            record_type: self.record_type@,
            project: self.project@,
            session_id: self.session_id@,
            line: self.line,
            role: self.role@,
            timestamp: self.timestamp@,
            text: self.text@,
        }
    }
}

/// The values of a list of messages.
pub open spec fn recents_of(list: Seq<RecentRecord>) -> Seq<Recent> {
    list.map_values(|r: RecentRecord| r@)
}

/// The value of a message.
pub open spec fn recent_value(r: Recent) -> JsonTree {
    let f = with_str(Seq::empty(), "type"@, r.record_type);
    let f = with_str(f, "project"@, r.project);
    let f = with_str(f, "session_id"@, r.session_id);
    let f = with_num(f, "line"@, r.line as nat);
    let f = with_str(f, "role"@, r.role);
    let f = with_str(f, "timestamp"@, r.timestamp);
    JsonTree::Object(with_str(f, "text"@, r.text))
}

/// The text of a message.
pub open spec fn recent_text(r: Recent) -> Seq<char> {
    json_text(recent_value(r))
}

/// The texts of a list of messages.
pub open spec fn recent_texts(list: Seq<Recent>) -> Seq<Seq<char>> {
    list.map_values(|r: Recent| recent_text(r))
}

impl JsonLine for RecentRecord {
    open spec fn value(&self) -> JsonTree {
        recent_value(self@)
    }

    fn to_line(&self) -> (r: String) {
        let mut f = Fields::new();
        f.str("type", self.record_type);
        f.str("project", self.project.as_str());
        f.str("session_id", self.session_id.as_str());
        f.num("line", self.line as u128);
        f.str("role", self.role.as_str());
        f.str("timestamp", self.timestamp.as_str());
        f.str("text", self.text.as_str());
        f.finish()
    }
}

// ---- The messages of one session ------------------------------------------

/// A text with a space in place of each line feed.
pub open spec fn on_one_line(s: Seq<char>) -> Seq<char> {
    s.map_values(
        |c: char|
            if c == '\n' {
                ' '
            } else {
                c
            },
    )
}

/// What is shown of a message: the beginning of what was said or thought, on one line.
pub open spec fn preview(m: MessageRecord) -> Seq<char> {
    on_one_line(head(reading_of(m, Reading::Spoken), PREVIEW_CHARS as int))
}

/// Whether a record is listed: a message of the role asked for that has something to show.
pub open spec fn listed(opts: RecentOpts, r: Record) -> bool {
    match message_of(r) {
        Some(m) => (opts.role matches Some(role) ==> role_of(r) == role@) && !is_blank(preview(m)),
        None => false,
    }
}

/// A listed message. One without a timestamp has an empty one.
pub open spec fn recent_of(file: SessionFile, r: (usize, Record)) -> Recent {
    let m = message_of(r.1)->0;
    Recent {
        record_type: "recent"@,
        project: file.project_name@,
        session_id: file.session_id@,
        line: r.0,
        role: role_of(r.1),
        timestamp: match m.timestamp {
            Some(ts) => ts@,
            None => Seq::empty(),
        },
        text: preview(m),
    }
}

/// The messages of a session that may be listed, in the order of the log.
pub open spec fn candidates(
    opts: RecentOpts,
    file: SessionFile,
    records: Seq<(usize, Record)>,
) -> Seq<Recent>
    decreases records.len(),
{
    if records.len() == 0 {
        Seq::empty()
    } else {
        let before = candidates(opts, file, records.drop_last());
        if listed(opts, records.last().1) {
            before.push(recent_of(file, records.last()))
        } else {
            before
        }
    }
}

/// The last `n` items of a list.
pub open spec fn last_of<T>(list: Seq<T>, n: int) -> Seq<T> {
    if n < list.len() {
        list.skip(list.len() - n)
    } else {
        list
    }
}

/// Puts a space in place of each line feed among the first `n` characters of `s`, and drops
/// the rest.
fn preview_text(s: &str, n: usize) -> (r: String)
    ensures
        r@ == on_one_line(head(s@, n as int)),
{
    let chars = to_chars(s);
    let ghost want = on_one_line(head(s@, n as int));
    let mut r = String::new();
    let mut i: usize = 0;
    while i < chars.len() && i < n
        invariant
            i <= chars.len(),
            i <= n,
            chars@ == s@,
            want == on_one_line(head(s@, n as int)),
            r@ == want.take(i as int),
        decreases chars.len() - i,
    {
        let c: char = chars[i];
        r.push(
            if c == '\n' {
                ' '
            } else {
                c
            },
        );
        assert(r@ =~= want.take(i + 1));
        i = i + 1;
    }
    assert(r@ =~= want);
    r
}

/// What the record on a line is listed as, where it is.
fn list_record(opts: &RecentOpts, file: &SessionFile, line: usize, record: &Record) -> (r: Option<
    RecentRecord,
>)
    ensures
        match r {
            Some(x) => listed(*opts, *record) && x@ == recent_of(*file, (line, *record)),
            None => !listed(*opts, *record),
        },
{
    let m = match record.as_message() {
        Some(m) => m,
        None => {
            return None;
        },
    };
    match &opts.role {
        Some(role) => {
            if !same_text(record.role(), role.as_str()) {
                return None;
            }
        },
        None => {},
    }
    let full = m.text_content();
    let text = preview_text(full.as_str(), PREVIEW_CHARS);
    if blank(text.as_str()) {
        return None;
    }
    let timestamp = match &m.timestamp {
        Some(ts) => ts.clone(),
        None => String::new(),
    };
    let x = RecentRecord {
        record_type: "recent",
        project: file.project_name.clone(),
        session_id: file.session_id.clone(),
        line,
        role: record.role().to_owned(),
        timestamp,
        text,
    };
    assert(x@ =~= recent_of(*file, (line, *record)));
    Some(x)
}

/// The last messages of a session that may be listed, no more than the limit. The filters
/// apply before the limit, so that they leave no gap.
pub fn last_messages(opts: &RecentOpts, file: &SessionFile, records: &Vec<(usize, Record)>) -> (r:
    Vec<RecentRecord>)
    ensures
        recents_of(r@) == last_of(candidates(*opts, *file, records@), opts.limit as int),
{
    let mut buf: VecDeque<RecentRecord> = VecDeque::new();
    let mut i: usize = 0;
    assert(recents_of(buf@) =~= last_of(
        candidates(*opts, *file, records@.take(0)),
        opts.limit as int,
    ));
    while i < records.len()
        invariant
            i <= records.len(),
            recents_of(buf@) == last_of(
                candidates(*opts, *file, records@.take(i as int)),
                opts.limit as int,
            ),
        decreases records.len() - i,
    {
        let ghost before = candidates(*opts, *file, records@.take(i as int));
        assert(records@.take(i + 1).drop_last() =~= records@.take(i as int));
        match list_record(opts, file, records[i].0, &records[i].1) {
            Some(x) => {
                let ghost had = buf@;
                assert(recents_of(had).len() == had.len());
                buf.push_back(x);
                let ghost pushed = buf@;
                assert(recents_of(pushed) =~= last_of(before, opts.limit as int).push(x@));
                if buf.len() > opts.limit {
                    let _ = buf.pop_front();
                    assert(recents_of(buf@) =~= recents_of(pushed).skip(1));
                }
                assert(recents_of(buf@) =~= last_of(before.push(x@), opts.limit as int));
            },
            None => {},
        }
        i = i + 1;
    }
    assert(records@.take(i as int) =~= records@);
    let ghost all = buf@;
    let mut r: Vec<RecentRecord> = Vec::new();
    while buf.len() > 0
        invariant
            r@ + buf@ == all,
        decreases buf@.len(),
    {
        let ghost rest = buf@;
        match buf.pop_front() {
            Some(x) => {
                let ghost had = r@;
                r.push(x);
                assert(r@ + buf@ =~= had + rest);
            },
            None => {},
        }
    }
    assert(r@ =~= all);
    r
}

// ---- All sessions ---------------------------------------------------------

/// The last messages of a session that may be listed. One whose log could not be opened has
/// none.
pub open spec fn session_recents(opts: RecentOpts, s: Session) -> Seq<Recent> {
    last_of(candidates(opts, s.file, s.log()), opts.limit as int)
}

/// The last messages of each session, one session after the other.
pub open spec fn all_candidates(opts: RecentOpts, ss: Seq<Session>) -> Seq<Recent>
    decreases ss.len(),
{
    if ss.len() == 0 {
        Seq::empty()
    } else {
        all_candidates(opts, ss.drop_last()) + session_recents(opts, ss.last())
    }
}

/// The messages of a list of parts, one part after the other.
pub open spec fn gathered(parts: Seq<Vec<RecentRecord>>) -> Seq<Recent>
    decreases parts.len(),
{
    if parts.len() == 0 {
        Seq::empty()
    } else {
        gathered(parts.drop_last()) + recents_of(parts.last()@)
    }
}

/// Whether `parts` holds the last messages of each of the sessions.
pub open spec fn listed_apart(
    opts: RecentOpts,
    ss: Seq<Session>,
    parts: Seq<Vec<RecentRecord>>,
) -> bool {
    &&& parts.len() == ss.len()
    &&& forall|i: int|
        0 <= i < ss.len() ==> recents_of((#[trigger] parts[i])@) == session_recents(opts, ss[i])
}

/// What messages are ordered by.
pub open spec fn recent_keys(list: Seq<Recent>) -> Seq<Seq<u64>> {
    list.map_values(|r: Recent| codes(r.timestamp))
}

/// The messages with the latest first; those of the same time stay as they were.
pub open spec fn latest_first(list: Seq<Recent>) -> Seq<Recent> {
    ranking(recent_keys(list), true).map_values(|i: usize| list[i as int])
}

/// How many messages are listed.
pub open spec fn shown(opts: RecentOpts, list: Seq<Recent>) -> int {
    if opts.limit < list.len() {
        opts.limit as int
    } else {
        list.len() as int
    }
}

/// The lines to write: the latest messages, no more than the limit.
pub open spec fn listing(opts: RecentOpts, list: Seq<Recent>) -> Seq<Seq<char>> {
    recent_texts(latest_first(list).take(shown(opts, list)))
}

/// The stream at the end of the command.
pub open spec fn concluded(
    opts: RecentOpts,
    list: Seq<Recent>,
    files_scanned: usize,
    elapsed_ms: nat,
    s: Stream,
) -> Stream {
    forced(
        offered_all(s, listing(opts, list)),
        summary_text(
            "summary"@,
            shown(opts, list) as nat,
            Some(files_scanned),
            elapsed_ms,
        ),
    )
}

/// Writes the latest of the messages, no more than the limit, as far as the budget has room,
/// and a summary. Says whether any message was written.
pub fn conclude(
    opts: &RecentOpts,
    all: Vec<RecentRecord>,
    files_scanned: usize,
    elapsed_ms: u128,
    em: &mut Emitter,
) -> (r: bool)
    requires
        old(em).wf(),
    ensures
        final(em).wf(),
        r == (taken_count(old(em)@, listing(*opts, recents_of(all@))) > 0),
        final(em)@ == concluded(
            *opts,
            recents_of(all@),
            files_scanned,
            elapsed_ms as nat,
            old(em)@,
        ),
{
    let ghost list = recents_of(all@);
    let mut keys: Vec<Vec<u64>> = Vec::new();
    let mut i: usize = 0;
    while i < all.len()
        invariant
            i <= all.len(),
            keys.len() == i,
            list == recents_of(all@),
            forall|k: int| 0 <= k < i ==> #[trigger] keys[k]@ == codes(list[k].timestamp),
        decreases all.len() - i,
    {
        keys.push(codes_of(all[i].timestamp.as_str()));
        i = i + 1;
    }
    assert(key_views(keys@) =~= recent_keys(list));
    let mut sorted = sort_by_keys(all, &keys, true);
    proof {
        lemma_ranking_exists(recent_keys(list), true);
        let order = ranking(recent_keys(list), true);
        assert forall|p: int| 0 <= p < order.len() implies #[trigger] order[p] < list.len() by {
            assert(order.contains(order[p]));
        }
    }
    assert(recents_of(sorted@) =~= latest_first(list));
    assert(recents_of(sorted@).len() == list.len());
    if sorted.len() > opts.limit {
        sorted.truncate(opts.limit);
    }
    let show: usize = sorted.len();
    assert(recents_of(sorted@) =~= latest_first(list).take(shown(*opts, list)));
    assert(lines_of(sorted@) =~= listing(*opts, list));
    let written: usize = em.emit_all(&sorted);
    let summary = SummaryRecord {
        record_type: "summary",
        count: show,
        files_scanned: Some(files_scanned),
        elapsed_ms,
    };
    em.emit_always(&summary);
    written > 0
}

/// The last messages of a session that may be listed.
pub fn session_messages(opts: &RecentOpts, session: &Session) -> (r: Vec<RecentRecord>)
    ensures
        recents_of(r@) == session_recents(*opts, *session),
{
    match &session.records {
        Some(records) => last_messages(opts, &session.file, records),
        None => {
            let r: Vec<RecentRecord> = Vec::new();
            assert(recents_of(r@) =~= session_recents(*opts, *session));
            r
        },
    }
}

/// Ends the command once the last messages of each session are there, in the order of the
/// sessions. Says whether any message was written.
pub fn finish(
    opts: &RecentOpts,
    parts: Vec<Vec<RecentRecord>>,
    elapsed_ms: u128,
    em: &mut Emitter,
) -> (r: bool)
    requires
        old(em).wf(),
    ensures
        final(em).wf(),
        r == (taken_count(old(em)@, listing(*opts, gathered(parts@))) > 0),
        final(em)@ == concluded(
            *opts,
            gathered(parts@),
            parts@.len() as usize,
            elapsed_ms as nat,
            old(em)@,
        ),
{
    let ghost given = parts@;
    let files: usize = parts.len();
    let mut all: Vec<RecentRecord> = Vec::new();
    assert(recents_of(all@) =~= gathered(given.take(0)));
    for part in it: parts
        invariant
            it.seq() == given,
            recents_of(all@) == gathered(given.take(it.index() as int)),
    {
        let ghost i = it.index() as int;
        assert(given.take(i + 1).drop_last() =~= given.take(i));
        let ghost before = all@;
        let ghost more = part@;
        let mut part = part;
        all.append(&mut part);
        assert(recents_of(all@) =~= recents_of(before) + recents_of(more));
    }
    assert(given.take(given.len() as int) =~= given);
    conclude(opts, all, files, elapsed_ms, em)
}

/// The stream once the command was run over sessions.
pub open spec fn ran(
    opts: RecentOpts,
    sessions: Seq<Session>,
    elapsed_ms: nat,
    s: Stream,
) -> Stream {
    let ss = chosen(opts.project, sessions);
    concluded(opts, all_candidates(opts, ss), ss.len() as usize, elapsed_ms, s)
}

/// Whether anything is written when the command is run over sessions.
pub open spec fn any_written(opts: RecentOpts, sessions: Seq<Session>, s: Stream) -> bool {
    taken_count(s, listing(opts, all_candidates(opts, chosen(opts.project, sessions)))) > 0
}

/// Lists the most recent messages of the sessions. Says whether any was written. `elapsed_ms`
/// is the time the command took.
pub fn run(opts: &RecentOpts, sessions: &Vec<Session>, elapsed_ms: u128, em: &mut Emitter) -> (r:
    bool)
    requires
        old(em).wf(),
    ensures
        final(em).wf(),
        r == any_written(*opts, sessions@, old(em)@),
        final(em)@ == ran(*opts, sessions@, elapsed_ms as nat, old(em)@),
{
    let mut parts: Vec<Vec<RecentRecord>> = Vec::new();
    let mut i: usize = 0;
    while i < sessions.len()
        invariant
            i <= sessions.len(),
            listed_apart(*opts, chosen(opts.project, sessions@.take(i as int)), parts@),
        decreases sessions.len() - i,
    {
        let s = &sessions[i];
        assert(sessions@.take(i + 1).drop_last() =~= sessions@.take(i as int));
        if of_project(&s.file, &opts.project) {
            parts.push(session_messages(opts, s));
        }
        i = i + 1;
    }
    assert(sessions@.take(i as int) =~= sessions@);
    proof {
        law_sessions_may_be_read_apart(*opts, chosen(opts.project, sessions@), parts@);
    }
    finish(opts, parts, elapsed_ms, em)
}

// ---- Laws -----------------------------------------------------------------

/// Sessions may be read each by itself, in any order: the last messages of each come to those
/// of all of them.
pub proof fn law_sessions_may_be_read_apart(
    opts: RecentOpts,
    ss: Seq<Session>,
    parts: Seq<Vec<RecentRecord>>,
)
    requires
        listed_apart(opts, ss, parts),
    ensures
        gathered(parts) == all_candidates(opts, ss),
    decreases ss.len(),
{
    if ss.len() > 0 {
        assert(listed_apart(opts, ss.drop_last(), parts.drop_last()));
        law_sessions_may_be_read_apart(opts, ss.drop_last(), parts.drop_last());
        assert(recents_of(parts[ss.len() - 1]@) == session_recents(opts, ss.last()));
    }
}

/// The filters apply before the limit: a session gives as many messages as the limit asks for
/// wherever it has them, whatever else stands between.
pub proof fn law_filters_leave_no_gap(
    opts: RecentOpts,
    file: SessionFile,
    records: Seq<(usize, Record)>,
)
    ensures
        ({
            let all = candidates(opts, file, records);
            last_of(all, opts.limit as int).len() == if opts.limit < all.len() {
                opts.limit as int
            } else {
                all.len() as int
            }
        }),
{
}

/// No message is followed by a later one.
pub proof fn law_latest_messages_come_first(list: Seq<Recent>, p: int, q: int)
    requires
        list.len() <= usize::MAX,
        0 <= p < q < list.len(),
    ensures
        !text_lt(latest_first(list)[p].timestamp, latest_first(list)[q].timestamp),
{
    let keys = recent_keys(list);
    let order = ranking(keys, true);
    lemma_ranking_exists(keys, true);
    assert(order.contains(order[p]) && order.contains(order[q]));
    assert(listed_before(keys, true, order[p], order[q]));
    let a = keys[order[p] as int];
    let b = keys[order[q] as int];
    lemma_lex_irreflexive(a);
    if lex_lt(a, b) && lex_lt(b, a) {
        lemma_lex_transitive(a, b, a);
    }
}

/// Every message that may be listed is a candidate, in the order of the log: that of record `k`
/// is the one that as many stand before as stand before the record.
pub proof fn law_every_listed_record_is_a_candidate(
    opts: RecentOpts,
    file: SessionFile,
    records: Seq<(usize, Record)>,
    k: int,
)
    requires
        0 <= k < records.len(),
        listed(opts, records[k].1),
    ensures
        ({
            let before = candidates(opts, file, records.take(k));
            let all = candidates(opts, file, records);
            before.len() < all.len() && all[before.len() as int] == recent_of(file, records[k])
        }),
    decreases records.len(),
{
    let rest = records.drop_last();
    if k < rest.len() {
        law_every_listed_record_is_a_candidate(opts, file, rest, k);
        assert(rest.take(k) =~= records.take(k));
    } else {
        assert(records.take(k) =~= rest);
    }
}

/// Every candidate is a record of the log that may be listed.
pub proof fn law_only_listed_records_are_candidates(
    opts: RecentOpts,
    file: SessionFile,
    records: Seq<(usize, Record)>,
    i: int,
)
    requires
        0 <= i < candidates(opts, file, records).len(),
    ensures
        exists|k: int|
            0 <= k < records.len() && listed(opts, (#[trigger] records[k]).1) && candidates(
                opts,
                file,
                records,
            )[i] == recent_of(file, records[k]),
    decreases records.len(),
{
    let rest = records.drop_last();
    let before = candidates(opts, file, rest);
    if i < before.len() {
        law_only_listed_records_are_candidates(opts, file, rest, i);
        let k = choose|k: int|
            0 <= k < rest.len() && listed(opts, (#[trigger] rest[k]).1) && before[i] == recent_of(
                file,
                rest[k],
            );
        assert(records[k] == rest[k]);
    } else {
        let k = records.len() - 1;
        assert(listed(opts, records[k].1));
    }
}

/// A listed message can be read back.
pub proof fn law_messages_are_readable(r: Recent)
    ensures
        readable(recent_value(r), depth_limit()),
{
    reveal_strlit("type");
    reveal_strlit("project");
    reveal_strlit("session_id");
    reveal_strlit("line");
    reveal_strlit("role");
    reveal_strlit("timestamp");
    reveal_strlit("text");
    assert("type"@.len() == 4 && "type"@[0] == 't' && "type"@[1] == 'y');
    assert("project"@.len() == 7);
    assert("session_id"@.len() == 10);
    assert("line"@.len() == 4 && "line"@[0] == 'l');
    assert("role"@.len() == 4 && "role"@[0] == 'r');
    assert("timestamp"@.len() == 9);
    assert("text"@.len() == 4 && "text"@[0] == 't' && "text"@[1] == 'e');
    let d = (depth_limit() - 1) as nat;
    let (f, n) = (Members::empty(), Set::<Seq<char>>::empty());
    lemma_named_str(f, n, "type"@, r.record_type, d);
    let (f, n) = (with_str(f, "type"@, r.record_type), n.insert("type"@));
    lemma_named_str(f, n, "project"@, r.project, d);
    let (f, n) = (with_str(f, "project"@, r.project), n.insert("project"@));
    lemma_named_str(f, n, "session_id"@, r.session_id, d);
    let (f, n) = (with_str(f, "session_id"@, r.session_id), n.insert("session_id"@));
    lemma_named_num(f, n, "line"@, r.line as nat, d);
    let (f, n) = (with_num(f, "line"@, r.line as nat), n.insert("line"@));
    lemma_named_str(f, n, "role"@, r.role, d);
    let (f, n) = (with_str(f, "role"@, r.role), n.insert("role"@));
    lemma_named_str(f, n, "timestamp"@, r.timestamp, d);
    let (f, n) = (with_str(f, "timestamp"@, r.timestamp), n.insert("timestamp"@));
    lemma_named_str(f, n, "text"@, r.text, d);
    let (f, n) = (with_str(f, "text"@, r.text), n.insert("text"@));
    lemma_named_object(f, n, d);
}

/// What the command writes, whatever the budget, can be read back: a header, the messages as far
/// as there is room, and the summary.
pub proof fn law_output_can_be_read_back(
    opts: RecentOpts,
    list: Seq<Recent>,
    files_scanned: usize,
    elapsed_ms: nat,
    budget: nat,
)
    requires
        list.len() <= usize::MAX,
        elapsed_ms <= u64::MAX,
    ensures
        ({
            let new = new_stream(budget);
            let values = latest_first(list).take(shown(opts, list)).map_values(
                |r: Recent| recent_value(r),
            );
            let n = taken_count(new, listing(opts, list)) as int;
            let summary = summary_value(
                "summary"@,
                shown(opts, list) as nat,
                Some(files_scanned),
                elapsed_ms,
            );
            let all = seq![header_value()] + values.take(n) + seq![summary];
            &&& concluded(opts, list, files_scanned, elapsed_ms, new).text == block(
                value_lines(all),
            )
            &&& all_readable(all)
        }),
{
    let shown_list = latest_first(list).take(shown(opts, list));
    let values = shown_list.map_values(|r: Recent| recent_value(r));
    let summary = summary_value(
        "summary"@,
        shown(opts, list) as nat,
        Some(files_scanned),
        elapsed_ms,
    );
    assert forall|i: int| 0 <= i < values.len() implies readable(
        #[trigger] values[i],
        depth_limit(),
    ) by {
        law_messages_are_readable(shown_list[i]);
    }
    law_summaries_are_readable(
        "summary"@,
        shown(opts, list) as nat,
        Some(files_scanned),
        elapsed_ms,
    );
    assert(value_lines(values) =~= listing(opts, list));
    law_listings_can_be_read_back(budget, values, summary);
}

// ---- Laws of listing ------------------------------------------------------

/// A session gives the last of its messages, as many as the limit asks for: of `c` messages that
/// may be listed and a limit of `n`, message `i` that it gives is that of place `c - n + i`.
pub proof fn law_sessions_give_their_last_messages(opts: RecentOpts, s: Session, i: int)
    ensures
        ({
            let all = candidates(opts, s.file, s.log());
            let given = session_recents(opts, s);
            let n = if opts.limit < all.len() {
                opts.limit as int
            } else {
                all.len() as int
            };
            &&& given.len() == n
            &&& 0 <= i < n ==> given[i] == all[all.len() - n + i]
        }),
{
}

/// Where timestamps rise with the lines of a log, no message of a session is left out that is
/// later than one that is given.
pub proof fn law_no_later_message_is_left_out(opts: RecentOpts, s: Session, k: int, i: int)
    requires
        0 <= k < candidates(opts, s.file, s.log()).len() - opts.limit,
        0 <= i < session_recents(opts, s).len(),
        forall|a: int, b: int|
            0 <= a <= b < candidates(opts, s.file, s.log()).len() ==> !text_lt(
                (#[trigger] candidates(opts, s.file, s.log())[b]).timestamp,
                (#[trigger] candidates(opts, s.file, s.log())[a]).timestamp,
            ),
    ensures
        !text_lt(
            session_recents(opts, s)[i].timestamp,
            candidates(opts, s.file, s.log())[k].timestamp,
        ),
{
    let all = candidates(opts, s.file, s.log());
    law_sessions_give_their_last_messages(opts, s, i);
    assert(session_recents(opts, s)[i] == all[all.len() - opts.limit + i]);
}

/// A record may be listed exactly where it is a message of the role asked for and one of the
/// first 120 characters of what it says or thinks is no whitespace. It is listed with those
/// characters, a space in place of each line feed, its line, role and timestamp.
pub proof fn law_messages_are_listed_by_what_they_say(
    opts: RecentOpts,
    file: SessionFile,
    r: (usize, Record),
)
    ensures
        listed(opts, r.1) <==> {
            let text = reading_of(message_of(r.1)->0, Reading::Spoken);
            &&& r.1 is User || r.1 is Assistant || r.1 is System
            &&& opts.role matches Some(role) ==> role_of(r.1) == role@
            &&& exists|k: int| 0 <= k < text.len() && k < 120 && !whitespace(#[trigger] text[k])
        },
        listed(opts, r.1) ==> {
            let m = message_of(r.1)->0;
            let text = reading_of(m, Reading::Spoken);
            let x = recent_of(file, r);
            &&& x.record_type == "recent"@
            &&& x.project == file.project_name@
            &&& x.session_id == file.session_id@
            &&& x.line == r.0
            &&& x.role == role_of(r.1)
            &&& x.timestamp == match m.timestamp {
                Some(ts) => ts@,
                None => Seq::empty(),
            }
            &&& x.text.len() == if text.len() < 120 {
                text.len() as int
            } else {
                120
            }
            &&& forall|k: int|
                0 <= k < x.text.len() ==> #[trigger] x.text[k] == if text[k] == '\n' {
                    ' '
                } else {
                    text[k]
                }
        },
{
    if r.1 is User || r.1 is Assistant || r.1 is System {
        let m = message_of(r.1)->0;
        let text = reading_of(m, Reading::Spoken);
        let shown = preview(m);
        assert forall|k: int| 0 <= k < shown.len() implies whitespace(#[trigger] shown[k])
            == whitespace(text[k]) by {}
        if !is_blank(shown) {
            let k = choose|k: int| 0 <= k < shown.len() && !whitespace(#[trigger] shown[k]);
            assert(!whitespace(text[k]));
        }
        if exists|k: int| 0 <= k < text.len() && k < 120 && !whitespace(#[trigger] text[k]) {
            let k = choose|k: int| 0 <= k < text.len() && k < 120 && !whitespace(#[trigger] text[k]);
            assert(!whitespace(shown[k]));
        }
    }
}

/// The messages of all sessions are those that each gives, one session after the other.
pub proof fn law_sessions_give_in_turn(
    opts: RecentOpts,
    a: Seq<Session>,
    b: Seq<Session>,
    s: Session,
)
    ensures
        all_candidates(opts, Seq::empty()) == Seq::<Recent>::empty(),
        all_candidates(opts, a + b) == all_candidates(opts, a) + all_candidates(opts, b),
        all_candidates(opts, seq![s]) == session_recents(opts, s),
    decreases b.len(),
{
    reveal_with_fuel(all_candidates, 2);
    assert(seq![s].drop_last() =~= Seq::empty());
    assert(seq![s].last() == s);
    assert(all_candidates(opts, seq![s]) =~= session_recents(opts, s));
    if b.len() == 0 {
        assert(a + b =~= a);
        assert(all_candidates(opts, a) + all_candidates(opts, b) =~= all_candidates(opts, a));
    } else {
        assert((a + b).drop_last() =~= a + b.drop_last());
        law_sessions_give_in_turn(opts, a, b.drop_last(), s);
        assert(all_candidates(opts, a + b) =~= all_candidates(opts, a) + all_candidates(opts, b));
    }
}

/// To put the latest first neither loses nor repeats a message, and keeps the order of those of
/// one time: message `p` of the list is message `order[p]`, each of them once.
pub proof fn law_latest_first_is_a_stable_permutation(list: Seq<Recent>) -> (order: Seq<usize>)
    requires
        list.len() <= usize::MAX,
    ensures
        latest_first(list).len() == list.len(),
        order.len() == list.len(),
        forall|k: usize| #[trigger] order.contains(k) <==> k < list.len(),
        forall|p: int| 0 <= p < list.len() ==> #[trigger] latest_first(list)[p] == list[order[p] as int],
        forall|p: int, q: int|
            0 <= p < q < list.len() && list[#[trigger] order[p] as int].timestamp
                == list[#[trigger] order[q] as int].timestamp ==> order[p] < order[q],
{
    let keys = recent_keys(list);
    let order = ranking(keys, true);
    lemma_ranking_exists(keys, true);
    assert forall|p: int, q: int|
        0 <= p < q < list.len() && list[#[trigger] order[p] as int].timestamp
            == list[#[trigger] order[q] as int].timestamp implies order[p] < order[q] by {
        assert(order.contains(order[p]) && order.contains(order[q]));
        assert(listed_before(keys, true, order[p], order[q]));
        lemma_lex_irreflexive(keys[order[p] as int]);
    }
    order
}

/// As many messages are written as the limit asks for, or as there are, as far as the budget has
/// room: the first of those with the latest first.
pub proof fn law_first_messages_are_written(opts: RecentOpts, list: Seq<Recent>, i: int)
    requires
        list.len() <= usize::MAX,
    ensures
        listing(opts, list).len() == if opts.limit < list.len() {
            opts.limit as int
        } else {
            list.len() as int
        },
        0 <= i < listing(opts, list).len() ==> listing(opts, list)[i] == json_text(
            recent_value(latest_first(list)[i]),
        ),
{
    let _ = law_latest_first_is_a_stable_permutation(list);
}

/// A listed message holds its fields under their names.
pub proof fn law_messages_hold_their_fields(r: Recent)
    ensures
        ({
            let v = recent_value(r);
            &&& member(v, "type"@) == Some(JsonTree::Str(r.record_type))
            &&& member(v, "project"@) == Some(JsonTree::Str(r.project))
            &&& member(v, "session_id"@) == Some(JsonTree::Str(r.session_id))
            &&& member(v, "line"@) == Some(JsonTree::Number(decimal(r.line as nat)))
            &&& member(v, "role"@) == Some(JsonTree::Str(r.role))
            &&& member(v, "timestamp"@) == Some(JsonTree::Str(r.timestamp))
            &&& member(v, "text"@) == Some(JsonTree::Str(r.text))
        }),
{
    broadcast use crate::json::lemma_entry_pushed;

    reveal_strlit("type");
    reveal_strlit("project");
    reveal_strlit("session_id");
    reveal_strlit("line");
    reveal_strlit("role");
    reveal_strlit("timestamp");
    reveal_strlit("text");
    assert("type"@.len() == 4 && "type"@[0] == 't' && "type"@[1] == 'y');
    assert("project"@.len() == 7);
    assert("session_id"@.len() == 10);
    assert("line"@.len() == 4 && "line"@[0] == 'l');
    assert("role"@.len() == 4 && "role"@[0] == 'r');
    assert("timestamp"@.len() == 9);
    assert("text"@.len() == 4 && "text"@[0] == 't' && "text"@[1] == 'e');
}

/// Every record that may be listed is a candidate once, in the order of the log, and nothing
/// else is: candidate `i` is that of record `ks[i]`.
pub proof fn law_each_record_is_a_candidate_once(
    opts: RecentOpts,
    file: SessionFile,
    records: Seq<(usize, Record)>,
) -> (ks: Seq<int>)
    ensures
        ks.len() == candidates(opts, file, records).len(),
        forall|i: int|
            0 <= i < ks.len() ==> 0 <= #[trigger] ks[i] < records.len() && listed(
                opts,
                records[ks[i]].1,
            ) && candidates(opts, file, records)[i] == recent_of(file, records[ks[i]]),
        forall|i: int, j: int| 0 <= i < j < ks.len() ==> #[trigger] ks[i] < #[trigger] ks[j],
        forall|k: int|
            0 <= k < records.len() && listed(opts, (#[trigger] records[k]).1) ==> ks.contains(k),
    decreases records.len(),
{
    if records.len() == 0 {
        Seq::empty()
    } else {
        let rest = records.drop_last();
        let n = records.len() - 1;
        let before = law_each_record_is_a_candidate_once(opts, file, rest);
        let ks = if listed(opts, records.last().1) {
            before.push(n)
        } else {
            before
        };
        assert forall|i: int| 0 <= i < ks.len() implies 0 <= #[trigger] ks[i] < records.len()
            && listed(opts, records[ks[i]].1) && candidates(opts, file, records)[i] == recent_of(
            file,
            records[ks[i]],
        ) by {
            if i < before.len() {
                assert(ks[i] == before[i]);
                assert(rest[before[i]] == records[before[i]]);
            }
        }
        assert forall|k: int|
            0 <= k < records.len() && listed(
                opts,
                (#[trigger] records[k]).1,
            ) implies ks.contains(k) by {
            if k < n {
                assert(rest[k] == records[k]);
                assert(before.contains(k));
                let i = choose|i: int| 0 <= i < before.len() && before[i] == k;
                assert(ks[i] == k);
            } else {
                assert(ks[before.len() as int] == k);
            }
        }
        ks
    }
}

/// Where a message is given, it stands among those of all sessions.
proof fn lemma_given_messages_are_there(opts: RecentOpts, ss: Seq<Session>, d: int) -> (at: int)
    requires
        0 <= d < ss.len(),
    ensures
        0 <= at,
        at + session_recents(opts, ss[d]).len() <= all_candidates(opts, ss).len(),
        forall|i: int|
            0 <= i < session_recents(opts, ss[d]).len() ==> #[trigger] session_recents(
                opts,
                ss[d],
            )[i] == all_candidates(opts, ss)[at + i],
{
    let (a, b) = (ss.take(d), ss.skip(d + 1));
    let one = seq![ss[d]];
    assert(ss =~= a + (one + b));
    law_sessions_give_in_turn(opts, a, one + b, ss[d]);
    law_sessions_give_in_turn(opts, one, b, ss[d]);
    all_candidates(opts, a).len() as int
}

/// Different places below `p` are no more than `p`.
proof fn lemma_few_places(places: Seq<int>, p: int)
    requires
        places.no_duplicates(),
        forall|i: int| 0 <= i < places.len() ==> 0 <= #[trigger] places[i] < p,
    ensures
        places.len() <= p || places.len() == 0,
{
    if places.len() > 0 {
        assert(0 <= places[0] < p);
        places.unique_seq_to_set();
        let all = vstd::set_lib::set_int_range(0, p);
        vstd::set_lib::lemma_int_range(0, p);
        assert forall|x: int| places.to_set().contains(x) implies all.contains(x) by {
            let i = choose|i: int| 0 <= i < places.len() && places[i] == x;
            assert(0 <= places[i] < p);
        }
        vstd::set_lib::lemma_len_subset(places.to_set(), all);
    }
}

/// What is written are the latest messages of all sessions: where timestamps rise with the lines
/// of a log, each of its messages that may be listed is written, or none that is written is
/// earlier than it.
pub proof fn law_written_messages_are_the_latest(
    opts: RecentOpts,
    ss: Seq<Session>,
    d: int,
    k: int,
    p: int,
)
    requires
        0 <= d < ss.len(),
        all_candidates(opts, ss).len() <= usize::MAX,
        0 <= k < candidates(opts, ss[d].file, ss[d].log()).len(),
        forall|a: int, b: int|
            0 <= a <= b < candidates(opts, ss[d].file, ss[d].log()).len() ==> !text_lt(
                (#[trigger] candidates(opts, ss[d].file, ss[d].log())[b]).timestamp,
                (#[trigger] candidates(opts, ss[d].file, ss[d].log())[a]).timestamp,
            ),
        0 <= p < listing(opts, all_candidates(opts, ss)).len(),
    ensures
        ({
            let x = candidates(opts, ss[d].file, ss[d].log())[k];
            let list = latest_first(all_candidates(opts, ss));
            ||| exists|q: int|
                0 <= q < listing(opts, all_candidates(opts, ss)).len() && #[trigger] list[q] == x
            ||| !text_lt(list[p].timestamp, x.timestamp)
        }),
{
    let all = candidates(opts, ss[d].file, ss[d].log());
    let x = all[k];
    let list = all_candidates(opts, ss);
    let sorted = latest_first(list);
    let given = session_recents(opts, ss[d]);
    let order = law_latest_first_is_a_stable_permutation(list);
    let at = lemma_given_messages_are_there(opts, ss, d);
    let c = all.len() as int;
    let n = given.len() as int;
    law_first_messages_are_written(opts, list, p);
    law_sessions_give_their_last_messages(opts, ss[d], k - (c - n));
    if k >= c - n {
        assert(given[k - (c - n)] == x);
        let i = (at + k - (c - n)) as usize;
        assert(list[i as int] == x);
        assert(order.contains(i));
        let q = choose|q: int| 0 <= q < order.len() && order[q] == i;
        assert(sorted[q] == x);
        if q >= listing(opts, list).len() {
            law_latest_messages_come_first(list, p, q);
        }
    } else if text_lt(sorted[p].timestamp, x.timestamp) {
        let places = Seq::new(n as nat, |i: int| place_of(order, (at + i) as usize));
        assert forall|i: int| 0 <= i < n implies 0 <= #[trigger] places[i] < p && order[places[i]]
            == at + i by {
            assert(order.contains((at + i) as usize));
            let q = places[i];
            assert(0 <= q < order.len() && order[q] == (at + i) as usize);
            law_sessions_give_their_last_messages(opts, ss[d], i);
            let y = given[i];
            assert(y == all[c - n + i]);
            assert(list[at + i] == y);
            assert(sorted[q] == y);
            assert(!text_lt(all[c - n + i].timestamp, all[k].timestamp));
            let (u, v, w) = (
                codes(sorted[p].timestamp),
                codes(x.timestamp),
                codes(y.timestamp),
            );
            lemma_lex_total(v, w);
            if lex_lt(v, w) {
                lemma_lex_transitive(u, v, w);
            }
            assert(lex_lt(u, w));
            lemma_lex_irreflexive(u);
            if q > p {
                law_latest_messages_come_first(list, p, q);
            }
        }
        assert(places.no_duplicates()) by {
            assert forall|i: int, j: int| 0 <= i < n && 0 <= j < n && i != j implies places[i]
                != places[j] by {
                assert(order[places[i]] == at + i && order[places[j]] == at + j);
            }
        }
        lemma_few_places(places, p);
    }
}

/// The place of an entry in a list that holds it.
spec fn place_of(order: Seq<usize>, i: usize) -> int {
    choose|q: int| 0 <= q < order.len() && order[q] == i
}

/// A session of another project changes nothing, and is not counted either; where all are of
/// the project, or none is asked for, all of them are scanned.
pub proof fn law_other_projects_change_nothing(
    opts: RecentOpts,
    a: Seq<Session>,
    other: Session,
    b: Seq<Session>,
    elapsed_ms: nat,
    s: Stream,
)
    ensures
        opts.project matches Some(p) ==> (!contains_text(
            lowercase(other.file.project_name@),
            lowercase(p@),
        ) ==> ran(opts, a + seq![other] + b, elapsed_ms, s) == ran(opts, a + b, elapsed_ms, s)
            && any_written(opts, a + seq![other] + b, s) == any_written(opts, a + b, s)),
        (opts.project matches Some(p) ==> forall|i: int|
            0 <= i < a.len() ==> contains_text(
                lowercase((#[trigger] a[i]).file.project_name@),
                lowercase(p@),
            )) ==> ran(opts, a, elapsed_ms, s) == concluded(
            opts,
            all_candidates(opts, a),
            a.len() as usize,
            elapsed_ms,
            s,
        ) && (any_written(opts, a, s) <==> taken_count(s, listing(opts, all_candidates(opts, a))) >= 1),
{
    let one = seq![other];
    law_projects_are_chosen_by_name(opts.project, a + one, b, other);
    law_projects_are_chosen_by_name(opts.project, a, one, other);
    law_projects_are_chosen_by_name(opts.project, a, b, other);
    let ca = chosen(opts.project, a);
    assert(ca + Seq::empty() =~= ca);
    if opts.project matches Some(p) ==> forall|i: int|
        0 <= i < a.len() ==> contains_text(
            lowercase((#[trigger] a[i]).file.project_name@),
            lowercase(p@),
        ) {
        lemma_all_are_chosen(opts.project, a);
    }
}

} // verus!
