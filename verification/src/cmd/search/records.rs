//! The records that a search writes.
use vstd::prelude::*;
use vstd::string::*;

use crate::json::{
    all_one_line, depth_limit, item_texts, json_text, lemma_item_texts, lemma_named_list,
    lemma_named_num, lemma_named_object, lemma_named_opt, lemma_named_str, lemma_named_value,
    lemma_texts_readable, member, one_line, quote_all, readable, str_values, values_of, with_flag,
    with_list, with_num, with_opt, with_str, Fields, JsonLine, JsonTree, Members,
};
use crate::text::{
    decimal, decimal_text, digit, digits_value, opt_text, texts,
};

verus! {

broadcast use {vstd::seq::group_seq_axioms, vstd::string::group_string_axioms};

// ---- Scores ---------------------------------------------------------------

/// The last `digits` decimal digits of a number, leading zeros and all.
pub open spec fn padded(n: nat, digits: nat) -> Seq<char>
    decreases digits,
{
    if digits == 0 {
        Seq::empty()
    } else {
        padded(n / 10, (digits - 1) as nat).push(digit((n % 10) as int))
    }
}

/// The digits behind the point: trailing zeros are dropped, but one digit stays.
pub open spec fn fraction(n: nat, digits: nat) -> Seq<char>
    decreases digits,
{
    if digits <= 1 || n % 10 != 0 {
        padded(n, digits)
    } else {
        fraction(n / 10, (digits - 1) as nat)
    }
}

/// The text of a score given in ten-thousandths.
pub open spec fn score_text(n: nat) -> Seq<char> {
    decimal(n / 10000) + seq!['.'] + fraction(n % 10000, 4)
}

fn push_padded(out: &mut String, n: u64, digits: u8)
    requires
        one_line(old(out)@),
    ensures
        final(out)@ == old(out)@ + padded(n as nat, digits as nat),
        one_line(final(out)@),
    decreases digits,
{
    if digits > 0 {
        push_padded(out, n / 10, digits - 1);
        let ghost before = out@;
        let d: u8 = (n % 10) as u8;
        let c: char = (48 + d) as char;
        assert(c == digit((n % 10) as int));
        out.push(c);
        assert(out@ =~= old(out)@ + padded(n as nat, digits as nat));
        assert forall|i: int| 0 <= i < out@.len() implies out@[i] != '\n' by {
            if i < before.len() {
                assert(out@[i] == before[i]);
            }
        }
    } else {
        assert(out@ =~= old(out)@ + padded(n as nat, 0));
    }
}

/// Writes a score given in ten-thousandths: as many decimals as it has, at least one.
pub fn write_score(n: u64) -> (r: String)
    ensures
        r@ == score_text(n as nat),
        one_line(r@),
{
    let mut r = decimal_text((n / 10000) as u128);
    let ghost before = r@;
    r.push('.');
    assert(r@ =~= decimal((n / 10000) as nat) + seq!['.']);
    assert forall|i: int| 0 <= i < r@.len() implies r@[i] != '\n' by {
        if i < before.len() {
            assert(r@[i] == before[i]);
        }
    }
    let mut f: u64 = n % 10000;
    let mut digits: u8 = 4;
    while digits > 1 && f % 10 == 0
        invariant
            1 <= digits <= 4,
            fraction(f as nat, digits as nat) == fraction((n % 10000) as nat, 4),
        decreases digits,
    {
        f = f / 10;
        digits = digits - 1;
    }
    push_padded(&mut r, f, digits);
    r
}

// ---- Matches --------------------------------------------------------------

/// One message near a match.
#[derive(Debug)]
pub struct CtxMsg {
    pub line: usize,
    pub role: String,
    pub timestamp: Option<String>,
    pub text: String,
}

/// A message near a match, as a value.
#[verifier::ext_equal]
pub struct Ctx {
    pub line: usize,
    pub role: Seq<char>,
    pub timestamp: Option<Seq<char>>,
    pub text: Seq<char>,
}

impl View for CtxMsg {
    type V = Ctx;

    open spec fn view(&self) -> Ctx {
        Ctx {
            line: self.line,
            role: self.role@,
            timestamp: opt_text(self.timestamp),
            text: self.text@,
        }
    }
}

/// The value of a message near a match.
pub open spec fn ctx_value(c: Ctx) -> JsonTree {
    let f = with_num(Seq::empty(), "line"@, c.line as nat);
    let f = with_str(f, "role"@, c.role);
    let f = with_opt(f, "timestamp"@, c.timestamp);
    JsonTree::Object(with_str(f, "text"@, c.text))
}

impl JsonLine for CtxMsg {
    open spec fn value(&self) -> JsonTree {
        ctx_value(self@)
    }

    fn to_line(&self) -> (r: String) {
        let mut f = Fields::new();
        f.num("line", self.line as u128);
        f.str("role", self.role.as_str());
        f.opt("timestamp", &self.timestamp);
        f.str("text", self.text.as_str());
        f.finish()
    }
}

impl CtxMsg {
    /// A second copy of the message.
    pub fn copy(&self) -> (r: Self)
        ensures
            r@ == self@,
    {
        CtxMsg {
            line: self.line,
            role: self.role.clone(),
            timestamp: self.timestamp.clone(),
            text: self.text.clone(),
        }
    }
}

/// The values of a list of messages.
pub open spec fn ctx_views(list: Seq<CtxMsg>) -> Seq<Ctx> {
    list.map_values(|c: CtxMsg| c@)
}

/// What is written of a list of messages.
pub open spec fn ctx_values(list: Seq<Ctx>) -> Seq<JsonTree> {
    list.map_values(|c: Ctx| ctx_value(c))
}

/// A match.
#[derive(Debug)]
pub struct SearchRecord {
    pub record_type: &'static str,
    pub project: String,
    pub session_id: String,
    /// The line of the log.
    pub line: usize,
    pub uuid: Option<String>,
    pub role: String,
    pub timestamp: Option<String>,
    pub matched_query: String,
    /// The relevance in ten-thousandths, where relevance is scored.
    pub score: Option<u64>,
    /// The snippet around the match.
    pub text: String,
    /// The position of the match in the message.
    pub match_offset: usize,
    /// The length of the message.
    pub msg_chars: usize,
    pub tool_names: Vec<String>,
    pub git_branch: Option<String>,
    pub context_before: Vec<CtxMsg>,
    pub context_after: Vec<CtxMsg>,
    /// The root of the message's thread, where matches are grouped by thread.
    pub thread_root: Option<String>,
    /// How many words the message holds, where relevance is scored.
    pub doc_len: usize,
    /// How often each query term occurs in the message, where relevance is scored.
    pub tfs: Vec<usize>,
}

/// A match as a value.
#[verifier::ext_equal]
pub struct Hit {
    pub record_type: Seq<char>,
    pub project: Seq<char>,
    pub session_id: Seq<char>,
    pub line: usize,
    pub uuid: Option<Seq<char>>,
    pub role: Seq<char>,
    pub timestamp: Option<Seq<char>>,
    pub matched_query: Seq<char>,
    pub score: Option<u64>,
    pub text: Seq<char>,
    pub match_offset: usize,
    pub msg_chars: usize,
    pub tool_names: Seq<Seq<char>>,
    pub git_branch: Option<Seq<char>>,
    pub context_before: Seq<Ctx>,
    pub context_after: Seq<Ctx>,
    pub thread_root: Option<Seq<char>>,
    pub doc_len: usize,
    pub tfs: Seq<usize>,
}

impl View for SearchRecord {
    type V = Hit;

    open spec fn view(&self) -> Hit {
        Hit {
            record_type: self.record_type@,
            project: self.project@,
            session_id: self.session_id@,
            line: self.line,
            uuid: opt_text(self.uuid),
            role: self.role@,
            timestamp: opt_text(self.timestamp),
            matched_query: self.matched_query@,
            score: self.score,
            text: self.text@,
            match_offset: self.match_offset,
            msg_chars: self.msg_chars,
            tool_names: texts(self.tool_names@),
            git_branch: opt_text(self.git_branch),
            context_before: ctx_views(self.context_before@),
            context_after: ctx_views(self.context_after@),
            thread_root: opt_text(self.thread_root),
            doc_len: self.doc_len,
            tfs: self.tfs@,
        }
    }
}

/// The values of a list of matches.
pub open spec fn hits_of(records: Seq<SearchRecord>) -> Seq<Hit> {
    records.map_values(|r: SearchRecord| r@)
}

/// The value of a match. What relevance and threads are worked out from is not written.
pub open spec fn hit_value(h: Hit) -> JsonTree {
    let f = with_str(Seq::empty(), "type"@, h.record_type);
    let f = with_str(f, "project"@, h.project);
    let f = with_str(f, "session_id"@, h.session_id);
    let f = with_num(f, "line"@, h.line as nat);
    let f = with_opt(f, "uuid"@, h.uuid);
    let f = with_str(f, "role"@, h.role);
    let f = with_opt(f, "timestamp"@, h.timestamp);
    let f = with_str(f, "matched_query"@, h.matched_query);
    let f = match h.score {
        Some(n) => f.push(("score"@, JsonTree::Number(score_text(n as nat)))),
        None => f,
    };
    let f = with_str(f, "text"@, h.text);
    let f = with_num(f, "match_offset"@, h.match_offset as nat);
    let f = with_num(f, "msg_chars"@, h.msg_chars as nat);
    let f = with_list(f, "tool_names"@, str_values(h.tool_names));
    let f = with_opt(f, "git_branch"@, h.git_branch);
    let f = with_list(f, "context_before"@, ctx_values(h.context_before));
    JsonTree::Object(with_list(f, "context_after"@, ctx_values(h.context_after)))
}

/// The text of a match.
pub open spec fn hit_text(h: Hit) -> Seq<char> {
    json_text(hit_value(h))
}

/// What is written of a list of matches.
pub open spec fn hit_values(hits: Seq<Hit>) -> Seq<JsonTree> {
    hits.map_values(|h: Hit| hit_value(h))
}

/// Writes each item of a list.
fn write_items<T: JsonLine>(items: &Vec<T>) -> (r: Vec<String>)
    ensures
        texts(r@) == item_texts(values_of(items@), items@.len()),
        all_one_line(texts(r@)),
{
    let ghost ts = values_of(items@);
    let mut r: Vec<String> = Vec::new();
    let mut i: usize = 0;
    while i < items.len()
        invariant
            i <= items.len(),
            r.len() == i,
            ts == values_of(items@),
            forall|k: int| 0 <= k < i ==> #[trigger] r[k]@ == json_text(ts[k]) && one_line(r[k]@),
        decreases items.len() - i,
    {
        r.push(items[i].to_line());
        i = i + 1;
    }
    proof {
        lemma_item_texts(ts, items@.len());
    }
    assert(texts(r@) =~= item_texts(ts, items@.len()));
    r
}

impl JsonLine for SearchRecord {
    open spec fn value(&self) -> JsonTree {
        hit_value(self@)
    }

    fn to_line(&self) -> (r: String) {
        let mut f = Fields::new();
        f.str("type", self.record_type);
        f.str("project", self.project.as_str());
        f.str("session_id", self.session_id.as_str());
        f.num("line", self.line as u128);
        f.opt("uuid", &self.uuid);
        f.str("role", self.role.as_str());
        f.opt("timestamp", &self.timestamp);
        f.str("matched_query", self.matched_query.as_str());
        match self.score {
            Some(n) => {
                let s = write_score(n);
                f.put("score", s.as_str(), Ghost(JsonTree::Number(s@)));
            },
            None => {},
        }
        f.str("text", self.text.as_str());
        f.num("match_offset", self.match_offset as u128);
        f.num("msg_chars", self.msg_chars as u128);
        let tools = quote_all(&self.tool_names);
        f.list("tool_names", &tools, Ghost(str_values(self@.tool_names)));
        f.opt("git_branch", &self.git_branch);
        let before = write_items(&self.context_before);
        assert(values_of(self.context_before@) =~= ctx_values(self@.context_before));
        f.list("context_before", &before, Ghost(ctx_values(self@.context_before)));
        let after = write_items(&self.context_after);
        assert(values_of(self.context_after@) =~= ctx_values(self@.context_after));
        f.list("context_after", &after, Ghost(ctx_values(self@.context_after)));
        f.finish()
    }
}

// ---- Groups ---------------------------------------------------------------

/// One match of a group.
#[derive(Debug)]
pub struct GroupSample {
    pub line: usize,
    pub timestamp: Option<String>,
    pub text: String,
}

/// One match of a group, as a value.
#[verifier::ext_equal]
pub struct Sample {
    pub line: usize,
    pub timestamp: Option<Seq<char>>,
    pub text: Seq<char>,
}

impl View for GroupSample {
    type V = Sample;

    open spec fn view(&self) -> Sample {
        Sample { line: self.line, timestamp: opt_text(self.timestamp), text: self.text@ }
    }
}

/// The value of a sample.
pub open spec fn sample_value(s: Sample) -> JsonTree {
    let f = with_num(Seq::empty(), "line"@, s.line as nat);
    let f = with_opt(f, "timestamp"@, s.timestamp);
    JsonTree::Object(with_str(f, "text"@, s.text))
}

impl JsonLine for GroupSample {
    open spec fn value(&self) -> JsonTree {
        sample_value(self@)
    }

    fn to_line(&self) -> (r: String) {
        let mut f = Fields::new();
        f.num("line", self.line as u128);
        f.opt("timestamp", &self.timestamp);
        f.str("text", self.text.as_str());
        f.finish()
    }
}

/// The values of a list of samples.
pub open spec fn samples_of(list: Seq<GroupSample>) -> Seq<Sample> {
    list.map_values(|s: GroupSample| s@)
}

/// What is written of a list of samples.
pub open spec fn sample_values(list: Seq<Sample>) -> Seq<JsonTree> {
    list.map_values(|s: Sample| sample_value(s))
}

/// The matches of one session or thread, taken together.
#[derive(Debug)]
pub struct GroupRecord {
    pub record_type: &'static str,
    pub group_by: &'static str,
    pub key: String,
    pub project: String,
    pub session_id: String,
    pub hits: usize,
    pub first_ts: Option<String>,
    pub last_ts: Option<String>,
    pub samples: Vec<GroupSample>,
}

/// A group as a value.
#[verifier::ext_equal]
pub struct Group {
    pub record_type: Seq<char>,
    pub group_by: Seq<char>,
    pub key: Seq<char>,
    pub project: Seq<char>,
    pub session_id: Seq<char>,
    pub hits: nat,
    pub first_ts: Option<Seq<char>>,
    pub last_ts: Option<Seq<char>>,
    pub samples: Seq<Sample>,
}

impl View for GroupRecord {
    type V = Group;

    open spec fn view(&self) -> Group {
        Group {
            record_type: self.record_type@,
            group_by: self.group_by@,
            key: self.key@,
            project: self.project@,
            session_id: self.session_id@,
            hits: self.hits as nat,
            first_ts: opt_text(self.first_ts),
            last_ts: opt_text(self.last_ts),
            samples: samples_of(self.samples@),
        }
    }
}

/// The value of a group.
pub open spec fn group_value(g: Group) -> JsonTree {
    let f = with_str(Seq::empty(), "type"@, g.record_type);
    let f = with_str(f, "group_by"@, g.group_by);
    let f = with_str(f, "key"@, g.key);
    let f = with_str(f, "project"@, g.project);
    let f = with_str(f, "session_id"@, g.session_id);
    let f = with_num(f, "hits"@, g.hits);
    let f = with_opt(f, "first_ts"@, g.first_ts);
    let f = with_opt(f, "last_ts"@, g.last_ts);
    JsonTree::Object(f.push(("samples"@, JsonTree::Array(sample_values(g.samples)))))
}

/// What is written of a list of groups.
pub open spec fn group_values(groups: Seq<Group>) -> Seq<JsonTree> {
    groups.map_values(|g: Group| group_value(g))
}

impl JsonLine for GroupRecord {
    open spec fn value(&self) -> JsonTree {
        group_value(self@)
    }

    fn to_line(&self) -> (r: String) {
        let mut f = Fields::new();
        f.str("type", self.record_type);
        f.str("group_by", self.group_by);
        f.str("key", self.key.as_str());
        f.str("project", self.project.as_str());
        f.str("session_id", self.session_id.as_str());
        f.num("hits", self.hits as u128);
        f.opt("first_ts", &self.first_ts);
        f.opt("last_ts", &self.last_ts);
        let samples = write_items(&self.samples);
        assert(values_of(self.samples@) =~= sample_values(self@.samples));
        f.array("samples", &samples, Ghost(sample_values(self@.samples)));
        f.finish()
    }
}

// ---- Summary --------------------------------------------------------------

/// The last record of a search.
#[derive(Debug)]
pub struct SearchSummary {
    pub record_type: &'static str,
    pub query: String,
    /// How many matches or groups were written.
    pub count: usize,
    /// How many matches there are.
    pub total_matched: usize,
    pub files_scanned: usize,
    /// Whether the budget stopped the output.
    pub truncated: bool,
    /// Whether the limit on results left matches or groups out.
    pub capped: bool,
    /// How many matches were left out for repeating a snippet, where that was asked for.
    pub deduped: Option<usize>,
    pub elapsed_ms: u128,
}

/// A summary as a value.
#[verifier::ext_equal]
pub struct Summary {
    pub record_type: Seq<char>,
    pub query: Seq<char>,
    pub count: nat,
    pub total_matched: nat,
    pub files_scanned: nat,
    pub truncated: bool,
    pub capped: bool,
    pub deduped: Option<nat>,
    pub elapsed_ms: nat,
}

impl View for SearchSummary {
    type V = Summary;

    open spec fn view(&self) -> Summary {
        Summary {
            record_type: self.record_type@,
            query: self.query@,
            count: self.count as nat,
            total_matched: self.total_matched as nat,
            files_scanned: self.files_scanned as nat,
            truncated: self.truncated,
            capped: self.capped,
            deduped: match self.deduped {
                Some(n) => Some(n as nat),
                None => None,
            },
            elapsed_ms: self.elapsed_ms as nat,
        }
    }
}

/// The value of a summary.
pub open spec fn search_summary_value(s: Summary) -> JsonTree {
    let f = with_str(Seq::empty(), "type"@, s.record_type);
    let f = with_str(f, "query"@, s.query);
    let f = with_num(f, "count"@, s.count);
    let f = with_num(f, "total_matched"@, s.total_matched);
    let f = with_num(f, "files_scanned"@, s.files_scanned);
    let f = with_flag(f, "truncated"@, s.truncated);
    let f = with_flag(f, "capped"@, s.capped);
    let f = match s.deduped {
        Some(n) => with_num(f, "deduped"@, n),
        None => f,
    };
    JsonTree::Object(with_num(f, "elapsed_ms"@, s.elapsed_ms))
}

/// The text of a summary.
pub open spec fn search_summary_text(s: Summary) -> Seq<char> {
    json_text(search_summary_value(s))
}

impl JsonLine for SearchSummary {
    open spec fn value(&self) -> JsonTree {
        search_summary_value(self@)
    }

    fn to_line(&self) -> (r: String) {
        let mut f = Fields::new();
        f.str("type", self.record_type);
        f.str("query", self.query.as_str());
        f.num("count", self.count as u128);
        f.num("total_matched", self.total_matched as u128);
        f.num("files_scanned", self.files_scanned as u128);
        f.flag("truncated", self.truncated);
        f.flag("capped", self.capped);
        match self.deduped {
            Some(n) => {
                f.num("deduped", n as u128);
            },
            None => {},
        }
        f.num("elapsed_ms", self.elapsed_ms);
        f.finish()
    }
}

// ---- Reading back ---------------------------------------------------------

/// A message near a match can be read back.
pub proof fn lemma_contexts_are_readable(c: Ctx, depth: nat)
    requires
        depth > 0,
    ensures
        readable(ctx_value(c), depth),
{
    reveal_strlit("line");
    reveal_strlit("role");
    reveal_strlit("timestamp");
    reveal_strlit("text");
    assert("line"@.len() == 4 && "line"@[0] == 'l');
    assert("role"@.len() == 4 && "role"@[0] == 'r');
    assert("timestamp"@.len() == 9);
    assert("text"@.len() == 4 && "text"@[0] == 't');
    let d = (depth - 1) as nat;
    let (f, n) = (Members::empty(), Set::<Seq<char>>::empty());
    lemma_named_num(f, n, "line"@, c.line as nat, d);
    let (f, n) = (with_num(f, "line"@, c.line as nat), n.insert("line"@));
    lemma_named_str(f, n, "role"@, c.role, d);
    let (f, n) = (with_str(f, "role"@, c.role), n.insert("role"@));
    lemma_named_opt(f, n, "timestamp"@, c.timestamp, d);
    let (f, n) = (with_opt(f, "timestamp"@, c.timestamp), n.insert("timestamp"@));
    lemma_named_str(f, n, "text"@, c.text, d);
    let (f, n) = (with_str(f, "text"@, c.text), n.insert("text"@));
    lemma_named_object(f, n, d);
}

/// A match without a score can be read back.
pub proof fn law_matches_are_readable(h: Hit)
    requires
        h.score is None,
    ensures
        readable(hit_value(h), depth_limit()),
{
    reveal_strlit("type");
    reveal_strlit("project");
    reveal_strlit("session_id");
    reveal_strlit("line");
    reveal_strlit("uuid");
    reveal_strlit("role");
    reveal_strlit("timestamp");
    reveal_strlit("matched_query");
    reveal_strlit("text");
    reveal_strlit("match_offset");
    reveal_strlit("msg_chars");
    reveal_strlit("tool_names");
    reveal_strlit("git_branch");
    reveal_strlit("context_before");
    reveal_strlit("context_after");
    assert("type"@.len() == 4 && "type"@[0] == 't' && "type"@[1] == 'y');
    assert("project"@.len() == 7);
    assert("session_id"@.len() == 10 && "session_id"@[0] == 's');
    assert("line"@.len() == 4 && "line"@[0] == 'l');
    assert("uuid"@.len() == 4 && "uuid"@[0] == 'u');
    assert("role"@.len() == 4 && "role"@[0] == 'r');
    assert("timestamp"@.len() == 9 && "timestamp"@[0] == 't');
    assert("matched_query"@.len() == 13 && "matched_query"@[0] == 'm');
    assert("text"@.len() == 4 && "text"@[0] == 't' && "text"@[1] == 'e');
    assert("match_offset"@.len() == 12);
    assert("msg_chars"@.len() == 9 && "msg_chars"@[0] == 'm');
    assert("tool_names"@.len() == 10 && "tool_names"@[0] == 't');
    assert("git_branch"@.len() == 10 && "git_branch"@[0] == 'g');
    assert("context_before"@.len() == 14);
    assert("context_after"@.len() == 13 && "context_after"@[0] == 'c');
    assert forall|i: int| 0 <= i < h.context_before.len() implies readable(
        #[trigger] ctx_values(h.context_before)[i],
        (depth_limit() - 2) as nat,
    ) by {
        lemma_contexts_are_readable(h.context_before[i], (depth_limit() - 2) as nat);
    }
    assert forall|i: int| 0 <= i < h.context_after.len() implies readable(
        #[trigger] ctx_values(h.context_after)[i],
        (depth_limit() - 2) as nat,
    ) by {
        lemma_contexts_are_readable(h.context_after[i], (depth_limit() - 2) as nat);
    }
    let d = (depth_limit() - 1) as nat;
    let (f, n) = (Members::empty(), Set::<Seq<char>>::empty());
    lemma_named_str(f, n, "type"@, h.record_type, d);
    let (f, n) = (with_str(f, "type"@, h.record_type), n.insert("type"@));
    lemma_named_str(f, n, "project"@, h.project, d);
    let (f, n) = (with_str(f, "project"@, h.project), n.insert("project"@));
    lemma_named_str(f, n, "session_id"@, h.session_id, d);
    let (f, n) = (with_str(f, "session_id"@, h.session_id), n.insert("session_id"@));
    lemma_named_num(f, n, "line"@, h.line as nat, d);
    let (f, n) = (with_num(f, "line"@, h.line as nat), n.insert("line"@));
    lemma_named_opt(f, n, "uuid"@, h.uuid, d);
    let (f, n) = (with_opt(f, "uuid"@, h.uuid), n.insert("uuid"@));
    lemma_named_str(f, n, "role"@, h.role, d);
    let (f, n) = (with_str(f, "role"@, h.role), n.insert("role"@));
    lemma_named_opt(f, n, "timestamp"@, h.timestamp, d);
    let (f, n) = (with_opt(f, "timestamp"@, h.timestamp), n.insert("timestamp"@));
    lemma_named_str(f, n, "matched_query"@, h.matched_query, d);
    let (f, n) = (with_str(f, "matched_query"@, h.matched_query), n.insert("matched_query"@));
    lemma_named_str(f, n, "text"@, h.text, d);
    let (f, n) = (with_str(f, "text"@, h.text), n.insert("text"@));
    lemma_named_num(f, n, "match_offset"@, h.match_offset as nat, d);
    let (f, n) = (with_num(f, "match_offset"@, h.match_offset as nat), n.insert("match_offset"@));
    lemma_named_num(f, n, "msg_chars"@, h.msg_chars as nat, d);
    let (f, n) = (with_num(f, "msg_chars"@, h.msg_chars as nat), n.insert("msg_chars"@));
    lemma_texts_readable(h.tool_names, d);
    lemma_named_list(f, n, "tool_names"@, str_values(h.tool_names), d);
    let (f, n) = (with_list(f, "tool_names"@, str_values(h.tool_names)), n.insert("tool_names"@));
    lemma_named_opt(f, n, "git_branch"@, h.git_branch, d);
    let (f, n) = (with_opt(f, "git_branch"@, h.git_branch), n.insert("git_branch"@));
    lemma_named_list(f, n, "context_before"@, ctx_values(h.context_before), d);
    let (f, n) = (with_list(f, "context_before"@, ctx_values(h.context_before)), n.insert("context_before"@));
    lemma_named_list(f, n, "context_after"@, ctx_values(h.context_after), d);
    let (f, n) = (with_list(f, "context_after"@, ctx_values(h.context_after)), n.insert("context_after"@));
    lemma_named_object(f, n, d);
}

/// A sample of a group can be read back.
pub proof fn lemma_samples_are_readable(s: Sample, depth: nat)
    requires
        depth > 0,
    ensures
        readable(sample_value(s), depth),
{
    reveal_strlit("line");
    reveal_strlit("timestamp");
    reveal_strlit("text");
    assert("line"@.len() == 4 && "line"@[0] == 'l');
    assert("timestamp"@.len() == 9);
    assert("text"@.len() == 4 && "text"@[0] == 't');
    let d = (depth - 1) as nat;
    let (f, n) = (Members::empty(), Set::<Seq<char>>::empty());
    lemma_named_num(f, n, "line"@, s.line as nat, d);
    let (f, n) = (with_num(f, "line"@, s.line as nat), n.insert("line"@));
    lemma_named_opt(f, n, "timestamp"@, s.timestamp, d);
    let (f, n) = (with_opt(f, "timestamp"@, s.timestamp), n.insert("timestamp"@));
    lemma_named_str(f, n, "text"@, s.text, d);
    let (f, n) = (with_str(f, "text"@, s.text), n.insert("text"@));
    lemma_named_object(f, n, d);
}

/// A group can be read back.
pub proof fn law_groups_are_readable(g: Group)
    requires
        g.hits <= u64::MAX,
    ensures
        readable(group_value(g), depth_limit()),
{
    reveal_strlit("type");
    reveal_strlit("group_by");
    reveal_strlit("key");
    reveal_strlit("project");
    reveal_strlit("session_id");
    reveal_strlit("hits");
    reveal_strlit("first_ts");
    reveal_strlit("last_ts");
    reveal_strlit("samples");
    assert("type"@.len() == 4 && "type"@[0] == 't');
    assert("group_by"@.len() == 8 && "group_by"@[0] == 'g');
    assert("key"@.len() == 3);
    assert("project"@.len() == 7 && "project"@[0] == 'p');
    assert("session_id"@.len() == 10);
    assert("hits"@.len() == 4 && "hits"@[0] == 'h');
    assert("first_ts"@.len() == 8 && "first_ts"@[0] == 'f');
    assert("last_ts"@.len() == 7 && "last_ts"@[0] == 'l');
    assert("samples"@.len() == 7 && "samples"@[0] == 's');
    assert forall|i: int| 0 <= i < g.samples.len() implies readable(
        #[trigger] sample_values(g.samples)[i],
        (depth_limit() - 2) as nat,
    ) by {
        lemma_samples_are_readable(g.samples[i], (depth_limit() - 2) as nat);
    }
    let d = (depth_limit() - 1) as nat;
    let (f, n) = (Members::empty(), Set::<Seq<char>>::empty());
    lemma_named_str(f, n, "type"@, g.record_type, d);
    let (f, n) = (with_str(f, "type"@, g.record_type), n.insert("type"@));
    lemma_named_str(f, n, "group_by"@, g.group_by, d);
    let (f, n) = (with_str(f, "group_by"@, g.group_by), n.insert("group_by"@));
    lemma_named_str(f, n, "key"@, g.key, d);
    let (f, n) = (with_str(f, "key"@, g.key), n.insert("key"@));
    lemma_named_str(f, n, "project"@, g.project, d);
    let (f, n) = (with_str(f, "project"@, g.project), n.insert("project"@));
    lemma_named_str(f, n, "session_id"@, g.session_id, d);
    let (f, n) = (with_str(f, "session_id"@, g.session_id), n.insert("session_id"@));
    lemma_named_num(f, n, "hits"@, g.hits, d);
    let (f, n) = (with_num(f, "hits"@, g.hits), n.insert("hits"@));
    lemma_named_opt(f, n, "first_ts"@, g.first_ts, d);
    let (f, n) = (with_opt(f, "first_ts"@, g.first_ts), n.insert("first_ts"@));
    lemma_named_opt(f, n, "last_ts"@, g.last_ts, d);
    let (f, n) = (with_opt(f, "last_ts"@, g.last_ts), n.insert("last_ts"@));
    lemma_named_value(f, n, "samples"@, Some(JsonTree::Array(sample_values(g.samples))), d);
    let (f, n) = (f.push(("samples"@, JsonTree::Array(sample_values(g.samples)))), n.insert("samples"@));
    lemma_named_object(f, n, d);
}

/// The summary of a search can be read back, as long as its numbers are of 64 bits.
pub proof fn law_search_summaries_are_readable(s: Summary)
    requires
        s.count <= u64::MAX,
        s.total_matched <= u64::MAX,
        s.files_scanned <= u64::MAX,
        s.deduped matches Some(k) ==> k <= u64::MAX,
        s.elapsed_ms <= u64::MAX,
    ensures
        readable(search_summary_value(s), depth_limit()),
{
    reveal_strlit("type");
    reveal_strlit("query");
    reveal_strlit("count");
    reveal_strlit("total_matched");
    reveal_strlit("files_scanned");
    reveal_strlit("truncated");
    reveal_strlit("capped");
    reveal_strlit("deduped");
    reveal_strlit("elapsed_ms");
    assert("type"@.len() == 4);
    assert("query"@.len() == 5 && "query"@[0] == 'q');
    assert("count"@.len() == 5 && "count"@[0] == 'c');
    assert("total_matched"@.len() == 13 && "total_matched"@[0] == 't');
    assert("files_scanned"@.len() == 13 && "files_scanned"@[0] == 'f');
    assert("truncated"@.len() == 9);
    assert("capped"@.len() == 6);
    assert("deduped"@.len() == 7);
    assert("elapsed_ms"@.len() == 10);
    let d = (depth_limit() - 1) as nat;
    let (f, n) = (Members::empty(), Set::<Seq<char>>::empty());
    lemma_named_str(f, n, "type"@, s.record_type, d);
    let (f, n) = (with_str(f, "type"@, s.record_type), n.insert("type"@));
    lemma_named_str(f, n, "query"@, s.query, d);
    let (f, n) = (with_str(f, "query"@, s.query), n.insert("query"@));
    lemma_named_num(f, n, "count"@, s.count, d);
    let (f, n) = (with_num(f, "count"@, s.count), n.insert("count"@));
    lemma_named_num(f, n, "total_matched"@, s.total_matched, d);
    let (f, n) = (with_num(f, "total_matched"@, s.total_matched), n.insert("total_matched"@));
    lemma_named_num(f, n, "files_scanned"@, s.files_scanned, d);
    let (f, n) = (with_num(f, "files_scanned"@, s.files_scanned), n.insert("files_scanned"@));
    lemma_named_value(f, n, "truncated"@, Some(JsonTree::Bool(s.truncated)), d);
    let (f, n) = (with_flag(f, "truncated"@, s.truncated), n.insert("truncated"@));
    lemma_named_value(f, n, "capped"@, Some(JsonTree::Bool(s.capped)), d);
    let (f, n) = (with_flag(f, "capped"@, s.capped), n.insert("capped"@));
    if let Some(k) = s.deduped {
        lemma_named_num(f, n, "deduped"@, k, d);
    } else {
        lemma_named_value(f, n, "deduped"@, None, d);
    }
    let f = match s.deduped {
        Some(k) => with_num(f, "deduped"@, k),
        None => f,
    };
    let n = n.insert("deduped"@);
    lemma_named_num(f, n, "elapsed_ms"@, s.elapsed_ms, d);
    let (f, n) = (with_num(f, "elapsed_ms"@, s.elapsed_ms), n.insert("elapsed_ms"@));
    lemma_named_object(f, n, d);
}

/// A message near a match holds its fields under their names.
pub proof fn law_contexts_hold_their_fields(c: Ctx)
    ensures
        ({
            let v = ctx_value(c);
            &&& member(v, "line"@) == Some(JsonTree::Number(decimal(c.line as nat)))
            &&& member(v, "role"@) == Some(JsonTree::Str(c.role))
            &&& member(v, "timestamp"@) == match c.timestamp {
                Some(x) => Some(JsonTree::Str(x)),
                None => None,
            }
            &&& member(v, "text"@) == Some(JsonTree::Str(c.text))
        }),
{
    broadcast use crate::json::lemma_entry_pushed;

    reveal_strlit("line");
    reveal_strlit("role");
    reveal_strlit("timestamp");
    reveal_strlit("text");
    assert("line"@.len() == 4 && "line"@[0] == 'l');
    assert("role"@.len() == 4 && "role"@[0] == 'r');
    assert("timestamp"@.len() == 9);
    assert("text"@.len() == 4 && "text"@[0] == 't');
}

/// A match holds its fields under their names, those that are missing or empty left out.
pub proof fn law_matches_hold_their_fields(h: Hit)
    ensures
        ({
            let v = hit_value(h);
            &&& member(v, "type"@) == Some(JsonTree::Str(h.record_type))
            &&& member(v, "project"@) == Some(JsonTree::Str(h.project))
            &&& member(v, "session_id"@) == Some(JsonTree::Str(h.session_id))
            &&& member(v, "line"@) == Some(JsonTree::Number(decimal(h.line as nat)))
            &&& member(v, "uuid"@) == match h.uuid {
                Some(x) => Some(JsonTree::Str(x)),
                None => None,
            }
            &&& member(v, "role"@) == Some(JsonTree::Str(h.role))
            &&& member(v, "timestamp"@) == match h.timestamp {
                Some(x) => Some(JsonTree::Str(x)),
                None => None,
            }
            &&& member(v, "matched_query"@) == Some(JsonTree::Str(h.matched_query))
            &&& member(v, "score"@) == match h.score {
                Some(n) => Some(JsonTree::Number(score_text(n as nat))),
                None => None,
            }
            &&& member(v, "text"@) == Some(JsonTree::Str(h.text))
            &&& member(v, "match_offset"@) == Some(JsonTree::Number(decimal(h.match_offset as nat)))
            &&& member(v, "msg_chars"@) == Some(JsonTree::Number(decimal(h.msg_chars as nat)))
            &&& member(v, "tool_names"@) == if h.tool_names.len() == 0 {
                None
            } else {
                Some(JsonTree::Array(str_values(h.tool_names)))
            }
            &&& member(v, "git_branch"@) == match h.git_branch {
                Some(x) => Some(JsonTree::Str(x)),
                None => None,
            }
            &&& member(v, "context_before"@) == if h.context_before.len() == 0 {
                None
            } else {
                Some(JsonTree::Array(ctx_values(h.context_before)))
            }
            &&& member(v, "context_after"@) == if h.context_after.len() == 0 {
                None
            } else {
                Some(JsonTree::Array(ctx_values(h.context_after)))
            }
        }),
{
    broadcast use crate::json::lemma_entry_pushed;

    reveal_strlit("type");
    reveal_strlit("project");
    reveal_strlit("session_id");
    reveal_strlit("line");
    reveal_strlit("uuid");
    reveal_strlit("role");
    reveal_strlit("timestamp");
    reveal_strlit("matched_query");
    reveal_strlit("score");
    reveal_strlit("text");
    reveal_strlit("match_offset");
    reveal_strlit("msg_chars");
    reveal_strlit("tool_names");
    reveal_strlit("git_branch");
    reveal_strlit("context_before");
    reveal_strlit("context_after");
    assert("type"@.len() == 4 && "type"@[0] == 't' && "type"@[1] == 'y');
    assert("project"@.len() == 7);
    assert("session_id"@.len() == 10 && "session_id"@[0] == 's');
    assert("line"@.len() == 4 && "line"@[0] == 'l');
    assert("uuid"@.len() == 4 && "uuid"@[0] == 'u');
    assert("role"@.len() == 4 && "role"@[0] == 'r');
    assert("timestamp"@.len() == 9 && "timestamp"@[0] == 't');
    assert("matched_query"@.len() == 13 && "matched_query"@[0] == 'm');
    assert("score"@.len() == 5);
    assert("text"@.len() == 4 && "text"@[0] == 't' && "text"@[1] == 'e');
    assert("match_offset"@.len() == 12);
    assert("msg_chars"@.len() == 9 && "msg_chars"@[0] == 'm');
    assert("tool_names"@.len() == 10 && "tool_names"@[0] == 't');
    assert("git_branch"@.len() == 10 && "git_branch"@[0] == 'g');
    assert("context_before"@.len() == 14);
    assert("context_after"@.len() == 13 && "context_after"@[0] == 'c');
}

/// A sample of a group holds its fields under their names.
pub proof fn law_samples_hold_their_fields(s: Sample)
    ensures
        ({
            let v = sample_value(s);
            &&& member(v, "line"@) == Some(JsonTree::Number(decimal(s.line as nat)))
            &&& member(v, "timestamp"@) == match s.timestamp {
                Some(x) => Some(JsonTree::Str(x)),
                None => None,
            }
            &&& member(v, "text"@) == Some(JsonTree::Str(s.text))
        }),
{
    broadcast use crate::json::lemma_entry_pushed;

    reveal_strlit("line");
    reveal_strlit("timestamp");
    reveal_strlit("text");
    assert("line"@.len() == 4 && "line"@[0] == 'l');
    assert("timestamp"@.len() == 9);
    assert("text"@.len() == 4 && "text"@[0] == 't');
}

/// A group holds its fields under their names, those that are missing left out.
pub proof fn law_groups_hold_their_fields(g: Group)
    ensures
        ({
            let v = group_value(g);
            &&& member(v, "type"@) == Some(JsonTree::Str(g.record_type))
            &&& member(v, "group_by"@) == Some(JsonTree::Str(g.group_by))
            &&& member(v, "key"@) == Some(JsonTree::Str(g.key))
            &&& member(v, "project"@) == Some(JsonTree::Str(g.project))
            &&& member(v, "session_id"@) == Some(JsonTree::Str(g.session_id))
            &&& member(v, "hits"@) == Some(JsonTree::Number(decimal(g.hits)))
            &&& member(v, "first_ts"@) == match g.first_ts {
                Some(x) => Some(JsonTree::Str(x)),
                None => None,
            }
            &&& member(v, "last_ts"@) == match g.last_ts {
                Some(x) => Some(JsonTree::Str(x)),
                None => None,
            }
            &&& member(v, "samples"@) == Some(JsonTree::Array(sample_values(g.samples)))
        }),
{
    broadcast use crate::json::lemma_entry_pushed;

    reveal_strlit("type");
    reveal_strlit("group_by");
    reveal_strlit("key");
    reveal_strlit("project");
    reveal_strlit("session_id");
    reveal_strlit("hits");
    reveal_strlit("first_ts");
    reveal_strlit("last_ts");
    reveal_strlit("samples");
    assert("type"@.len() == 4 && "type"@[0] == 't');
    assert("group_by"@.len() == 8 && "group_by"@[0] == 'g');
    assert("key"@.len() == 3);
    assert("project"@.len() == 7 && "project"@[0] == 'p');
    assert("session_id"@.len() == 10);
    assert("hits"@.len() == 4 && "hits"@[0] == 'h');
    assert("first_ts"@.len() == 8 && "first_ts"@[0] == 'f');
    assert("last_ts"@.len() == 7 && "last_ts"@[0] == 'l');
    assert("samples"@.len() == 7 && "samples"@[0] == 's');
}

/// The summary of a search holds its fields under their names.
pub proof fn law_search_summaries_hold_their_fields(s: Summary)
    ensures
        ({
            let v = search_summary_value(s);
            &&& member(v, "type"@) == Some(JsonTree::Str(s.record_type))
            &&& member(v, "query"@) == Some(JsonTree::Str(s.query))
            &&& member(v, "count"@) == Some(JsonTree::Number(decimal(s.count)))
            &&& member(v, "total_matched"@) == Some(JsonTree::Number(decimal(s.total_matched)))
            &&& member(v, "files_scanned"@) == Some(JsonTree::Number(decimal(s.files_scanned)))
            &&& member(v, "truncated"@) == Some(JsonTree::Bool(s.truncated))
            &&& member(v, "capped"@) == Some(JsonTree::Bool(s.capped))
            &&& member(v, "deduped"@) == match s.deduped {
                Some(x) => Some(JsonTree::Number(decimal(x))),
                None => None,
            }
            &&& member(v, "elapsed_ms"@) == Some(JsonTree::Number(decimal(s.elapsed_ms)))
        }),
{
    broadcast use crate::json::lemma_entry_pushed;

    reveal_strlit("type");
    reveal_strlit("query");
    reveal_strlit("count");
    reveal_strlit("total_matched");
    reveal_strlit("files_scanned");
    reveal_strlit("truncated");
    reveal_strlit("capped");
    reveal_strlit("deduped");
    reveal_strlit("elapsed_ms");
    assert("type"@.len() == 4);
    assert("query"@.len() == 5 && "query"@[0] == 'q');
    assert("count"@.len() == 5 && "count"@[0] == 'c');
    assert("total_matched"@.len() == 13 && "total_matched"@[0] == 't');
    assert("files_scanned"@.len() == 13 && "files_scanned"@[0] == 'f');
    assert("truncated"@.len() == 9);
    assert("capped"@.len() == 6);
    assert("deduped"@.len() == 7);
    assert("elapsed_ms"@.len() == 10);
}

// ---- Scores ---------------------------------------------------------------

/// Ten to the power of `k`.
pub open spec fn power(k: nat) -> nat
    decreases k,
{
    if k == 0 {
        1
    } else {
        10 * power((k - 1) as nat)
    }
}

/// Padded digits stand for their number.
proof fn lemma_padded(n: nat, digits: nat)
    requires
        n < power(digits),
    ensures
        padded(n, digits).len() == digits,
        digits_value(padded(n, digits)) == n,
    decreases digits,
{
    if digits > 0 {
        lemma_padded(n / 10, (digits - 1) as nat);
        assert(padded(n, digits).drop_last() =~= padded(n / 10, (digits - 1) as nat));
        assert(digit((n % 10) as int) as int == 48 + n % 10);
    }
}

/// The digits behind the point stand for the fraction, without a zero at the end but for one
/// digit.
proof fn lemma_fraction(n: nat, digits: nat) -> (k: nat)
    requires
        1 <= digits,
        n < power(digits),
    ensures
        1 <= k <= digits,
        fraction(n, digits).len() == k,
        digits_value(fraction(n, digits)) * power((digits - k) as nat) == n,
        k > 1 ==> fraction(n, digits).last() != '0',
    decreases digits,
{
    if digits <= 1 || n % 10 != 0 {
        lemma_padded(n, digits);
        assert(digits_value(padded(n, digits)) * power(0) == n) by {
            assert(power(0) == 1);
        }
        if digits > 1 {
            assert(padded(n, digits).last() == digit((n % 10) as int));
            assert(digit((n % 10) as int) as int == 48 + n % 10);
        }
        digits
    } else {
        let k = lemma_fraction(n / 10, (digits - 1) as nat);
        let v = digits_value(fraction(n / 10, (digits - 1) as nat));
        let w = power((digits - 1 - k) as nat);
        assert(power((digits - k) as nat) == 10 * w);
        assert(v * (10 * w) == 10 * (v * w)) by (nonlinear_arith);
        k
    }
}

/// A score is written as the decimal number it stands for: its whole part, a point, and at
/// least one and at most four digits, the last of several not zero, which stand for the
/// ten-thousandths.
pub proof fn law_scores_are_written_as_their_number(n: nat) -> (k: nat)
    ensures
        1 <= k <= 4,
        ({
            let whole = decimal(n / 10000);
            let digits = score_text(n).skip((whole.len() + 1) as int);
            &&& score_text(n) == whole + seq!['.'] + digits
            &&& digits.len() == k
            &&& digits_value(digits) * power((4 - k) as nat) == n % 10000
            &&& k > 1 ==> digits.last() != '0'
        }),
{
    reveal_with_fuel(power, 5);
    assert(power(4) == 10000);
    let k = lemma_fraction(n % 10000, 4);
    let whole = decimal(n / 10000);
    let f = fraction(n % 10000, 4);
    assert(score_text(n).skip((whole.len() + 1) as int) =~= f);
    k
}

} // verus!
