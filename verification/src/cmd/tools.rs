//! Lists the tool calls of a session.
use vstd::prelude::*;
use vstd::string::*;

use crate::json::{
    depth_limit, json_text, lemma_named_num, lemma_named_object, lemma_named_opt, lemma_named_str,
    member, readable, values_of, with_num, with_opt, with_str, Fields, JsonLine, JsonTree, Members,
};
use crate::models::{
    content_of, message_of, role_of, Content, ContentBlock, ContentView, MessageContent,
    MessageRecord, Record,
};
use crate::output::emit::{
    all_readable, block, forced, header_value, law_truncated_iff_refused, lines_of, new_stream,
    offered_all, taken_count, value_lines, Stream,
};
use crate::output::history::law_listings_can_be_read_back;
use crate::output::records::{law_summaries_are_readable, summary_text, summary_value};
use crate::output::{Emitter, SummaryRecord};
use crate::text::{
    decimal, head, opt_text, take_chars,
};

verus! {

broadcast use {vstd::seq::group_seq_axioms, vstd::string::group_string_axioms};

/// How many characters of a tool's input are shown.
pub const PREVIEW_CHARS: usize = 200;

/// One tool call.
#[derive(Debug)]
pub struct ToolRecord {
    pub record_type: &'static str,
    /// The line of the log.
    pub line: usize,
    pub uuid: Option<String>,
    pub timestamp: Option<String>,
    pub role: String,
    pub tool_name: String,
    pub input_preview: String,
}

/// The value of a tool call.
pub open spec fn tool_value(
    record_type: Seq<char>,
    line: nat,
    uuid: Option<Seq<char>>,
    timestamp: Option<Seq<char>>,
    role: Seq<char>,
    tool_name: Seq<char>,
    input_preview: Seq<char>,
) -> JsonTree {
    let f = with_str(Seq::empty(), "type"@, record_type);
    let f = with_num(f, "line"@, line);
    let f = with_opt(f, "uuid"@, uuid);
    let f = with_opt(f, "timestamp"@, timestamp);
    let f = with_str(f, "role"@, role);
    let f = with_str(f, "tool_name"@, tool_name);
    JsonTree::Object(with_str(f, "input_preview"@, input_preview))
}

impl JsonLine for ToolRecord {
    open spec fn value(&self) -> JsonTree {
        tool_value(
            self.record_type@,
            self.line as nat,
            opt_text(self.uuid),
            opt_text(self.timestamp),
            self.role@,
            self.tool_name@,
            self.input_preview@,
        )
    }

    fn to_line(&self) -> (r: String) {
        let mut f = Fields::new();
        f.str("type", self.record_type);
        f.num("line", self.line as u128);
        f.opt("uuid", &self.uuid);
        f.opt("timestamp", &self.timestamp);
        f.str("role", self.role.as_str());
        f.str("tool_name", self.tool_name.as_str());
        f.str("input_preview", self.input_preview.as_str());
        f.finish()
    }
}

/// The calls among the blocks of a message.
pub open spec fn block_calls(
    line: usize,
    r: Record,
    m: MessageRecord,
    blocks: Seq<ContentBlock>,
) -> Seq<JsonTree>
    decreases blocks.len(),
{
    if blocks.len() == 0 {
        Seq::empty()
    } else {
        let before = block_calls(line, r, m, blocks.drop_last());
        match blocks.last() {
            ContentBlock::ToolUse { id, name, input } => before.push(
                tool_value(
                    "tool_call"@,
                    line as nat,
                    opt_text(m.uuid),
                    opt_text(m.timestamp),
                    role_of(r),
                    name@,
                    head(json_text(input@), PREVIEW_CHARS as int),
                ),
            ),
            _ => before,
        }
    }
}

/// The calls of one record.
pub open spec fn record_calls(line: usize, r: Record) -> Seq<JsonTree> {
    match message_of(r) {
        Some(m) => match content_of(m) {
            Content::Blocks(b) => block_calls(line, r, m, b),
            _ => Seq::empty(),
        },
        None => Seq::empty(),
    }
}

/// The calls of a session, in the order of the log.
pub open spec fn session_calls(records: Seq<(usize, Record)>) -> Seq<JsonTree>
    decreases records.len(),
{
    if records.len() == 0 {
        Seq::empty()
    } else {
        session_calls(records.drop_last()) + record_calls(records.last().0, records.last().1)
    }
}

/// Adds the calls of one message.
fn push_calls(
    out: &mut Vec<ToolRecord>,
    line: usize,
    record: &Record,
    msg: &MessageRecord,
    blocks: &Vec<ContentBlock>,
)
    ensures
        values_of(final(out)@) == values_of(old(out)@) + block_calls(line, *record, *msg, blocks@),
{
    let mut i: usize = 0;
    assert(values_of(out@) =~= values_of(old(out)@) + block_calls(
        line,
        *record,
        *msg,
        blocks@.take(0),
    ));
    while i < blocks.len()
        invariant
            i <= blocks.len(),
            values_of(out@) == values_of(old(out)@) + block_calls(
                line,
                *record,
                *msg,
                blocks@.take(i as int),
            ),
        decreases blocks.len() - i,
    {
        let ghost before = out@;
        assert(blocks@.take(i + 1).drop_last() =~= blocks@.take(i as int));
        match &blocks[i] {
            ContentBlock::ToolUse { id, name, input } => {
                let text = input.to_text();
                let rec = ToolRecord {
                    record_type: "tool_call",
                    line,
                    uuid: msg.uuid.clone(),
                    timestamp: msg.timestamp.clone(),
                    role: record.role().to_owned(),
                    tool_name: name.clone(),
                    input_preview: take_chars(text.as_str(), PREVIEW_CHARS),
                };
                let ghost v = rec.value();
                out.push(rec);
                assert(values_of(out@) =~= values_of(before).push(v));
                assert(values_of(out@) =~= values_of(old(out)@) + block_calls(
                    line,
                    *record,
                    *msg,
                    blocks@.take(i + 1),
                ));
            },
            _ => {},
        }
        i = i + 1;
    }
    assert(blocks@.take(i as int) =~= blocks@);
}

/// The stream at the end of the command.
pub open spec fn concluded(records: Seq<(usize, Record)>, elapsed_ms: nat, s: Stream) -> Stream {
    let calls = value_lines(session_calls(records));
    forced(
        offered_all(s, calls),
        summary_text("summary"@, taken_count(s, calls), None, elapsed_ms),
    )
}

/// Writes the tool calls of a session, as far as the budget has room, and a summary. Says
/// whether any call was written. `elapsed_ms` is the time the command took.
pub fn run(records: &Vec<(usize, Record)>, elapsed_ms: u128, em: &mut Emitter) -> (r: bool)
    requires
        old(em).wf(),
    ensures
        final(em).wf(),
        ({
            let calls = value_lines(session_calls(records@));
            &&& r == (taken_count(old(em)@, calls) > 0)
            &&& final(em)@ == concluded(records@, elapsed_ms as nat, old(em)@)
        }),
{
    let mut calls: Vec<ToolRecord> = Vec::new();
    let mut i: usize = 0;
    assert(values_of(calls@) =~= session_calls(records@.take(0)));
    while i < records.len()
        invariant
            i <= records.len(),
            values_of(calls@) == session_calls(records@.take(i as int)),
        decreases records.len() - i,
    {
        assert(records@.take(i + 1).drop_last() =~= records@.take(i as int));
        let record = &records[i].1;
        let ghost before = values_of(calls@);
        match record.as_message() {
            Some(msg) => match msg.content_view() {
                ContentView::Blocks(blocks) => {
                    push_calls(&mut calls, records[i].0, record, msg, blocks);
                },
                _ => {
                    assert(before =~= before + Seq::<JsonTree>::empty());
                },
            },
            None => {
                assert(before =~= before + Seq::<JsonTree>::empty());
            },
        }
        i = i + 1;
    }
    assert(records@.take(i as int) =~= records@);
    assert(lines_of(calls@) =~= value_lines(session_calls(records@)));
    let count: usize = em.emit_all(&calls);
    let summary = SummaryRecord {
        record_type: "summary",
        count,
        files_scanned: None,
        elapsed_ms,
    };
    em.emit_always(&summary);
    count > 0
}

/// A tool call can be read back.
pub proof fn law_calls_are_readable(
    record_type: Seq<char>,
    line: usize,
    uuid: Option<Seq<char>>,
    timestamp: Option<Seq<char>>,
    role: Seq<char>,
    tool_name: Seq<char>,
    input_preview: Seq<char>,
)
    ensures
        readable(
            tool_value(
                record_type,
                line as nat,
                uuid,
                timestamp,
                role,
                tool_name,
                input_preview,
            ),
            depth_limit(),
        ),
{
    reveal_strlit("type");
    reveal_strlit("line");
    reveal_strlit("uuid");
    reveal_strlit("timestamp");
    reveal_strlit("role");
    reveal_strlit("tool_name");
    reveal_strlit("input_preview");
    assert("type"@.len() == 4 && "type"@[0] == 't');
    assert("line"@.len() == 4 && "line"@[0] == 'l');
    assert("uuid"@.len() == 4 && "uuid"@[0] == 'u');
    assert("timestamp"@.len() == 9 && "timestamp"@[1] == 'i');
    assert("role"@.len() == 4 && "role"@[0] == 'r');
    assert("tool_name"@.len() == 9 && "tool_name"@[1] == 'o');
    assert("input_preview"@.len() == 13);
    let d = (depth_limit() - 1) as nat;
    let (f, n) = (Members::empty(), Set::<Seq<char>>::empty());
    lemma_named_str(f, n, "type"@, record_type, d);
    let (f, n) = (with_str(f, "type"@, record_type), n.insert("type"@));
    lemma_named_num(f, n, "line"@, line as nat, d);
    let (f, n) = (with_num(f, "line"@, line as nat), n.insert("line"@));
    lemma_named_opt(f, n, "uuid"@, uuid, d);
    let (f, n) = (with_opt(f, "uuid"@, uuid), n.insert("uuid"@));
    lemma_named_opt(f, n, "timestamp"@, timestamp, d);
    let (f, n) = (with_opt(f, "timestamp"@, timestamp), n.insert("timestamp"@));
    lemma_named_str(f, n, "role"@, role, d);
    let (f, n) = (with_str(f, "role"@, role), n.insert("role"@));
    lemma_named_str(f, n, "tool_name"@, tool_name, d);
    let (f, n) = (with_str(f, "tool_name"@, tool_name), n.insert("tool_name"@));
    lemma_named_str(f, n, "input_preview"@, input_preview, d);
    let (f, n) = (with_str(f, "input_preview"@, input_preview), n.insert("input_preview"@));
    lemma_named_object(f, n, d);
}

/// The calls among the blocks of a message can be read back.
proof fn lemma_block_calls_readable(
    line: usize,
    r: Record,
    m: MessageRecord,
    blocks: Seq<ContentBlock>,
)
    ensures
        all_readable(block_calls(line, r, m, blocks)),
    decreases blocks.len(),
{
    if blocks.len() > 0 {
        lemma_block_calls_readable(line, r, m, blocks.drop_last());
        match blocks.last() {
            ContentBlock::ToolUse { id, name, input } => {
                law_calls_are_readable(
                    "tool_call"@,
                    line,
                    opt_text(m.uuid),
                    opt_text(m.timestamp),
                    role_of(r),
                    name@,
                    head(json_text(input@), PREVIEW_CHARS as int),
                );
            },
            _ => {},
        }
    }
}

/// The calls of a session can be read back.
pub proof fn law_session_calls_are_readable(records: Seq<(usize, Record)>)
    ensures
        all_readable(session_calls(records)),
    decreases records.len(),
{
    if records.len() > 0 {
        let (line, r) = records.last();
        let (before, more) = (session_calls(records.drop_last()), record_calls(line, r));
        law_session_calls_are_readable(records.drop_last());
        if let Some(m) = message_of(r) {
            if let Content::Blocks(b) = content_of(m) {
                lemma_block_calls_readable(line, r, m, b);
            }
        }
        assert(all_readable(more));
        assert forall|i: int| 0 <= i < (before + more).len() implies readable(
            #[trigger] (before + more)[i],
            depth_limit(),
        ) by {
            if i < before.len() {
                assert((before + more)[i] == before[i]);
            } else {
                assert((before + more)[i] == more[i - before.len()]);
            }
        }
    }
}

/// What the command writes, whatever the budget, can be read back: a header, the calls as far
/// as there is room, and a summary that counts them.
pub proof fn law_output_can_be_read_back(
    records: Seq<(usize, Record)>,
    elapsed_ms: nat,
    budget: nat,
)
    requires
        session_calls(records).len() <= u64::MAX,
        elapsed_ms <= u64::MAX,
    ensures
        ({
            let new = new_stream(budget);
            let calls = session_calls(records);
            let n = taken_count(new, value_lines(calls));
            let all = seq![header_value()] + calls.take(n as int) + seq![
                summary_value("summary"@, n, None, elapsed_ms),
            ];
            &&& concluded(records, elapsed_ms, new).text == block(value_lines(all))
            &&& all_readable(all)
        }),
{
    let new = new_stream(budget);
    let calls = session_calls(records);
    let n = taken_count(new, value_lines(calls));
    law_session_calls_are_readable(records);
    law_truncated_iff_refused(new, value_lines(calls));
    law_summaries_are_readable("summary"@, n, None, elapsed_ms);
    law_listings_can_be_read_back(budget, calls, summary_value("summary"@, n, None, elapsed_ms));
}

// ---- Laws of listing ------------------------------------------------------

/// How many of the blocks call a tool.
pub open spec fn calls_in(blocks: Seq<ContentBlock>) -> nat
    decreases blocks.len(),
{
    if blocks.len() == 0 {
        0
    } else {
        calls_in(blocks.drop_last()) + if blocks.last() is ToolUse {
            1nat
        } else {
            0nat
        }
    }
}

/// The blocks of a record: those of its message, where it carries one that has blocks.
pub open spec fn blocks_of(r: Record) -> Seq<ContentBlock> {
    match r {
        Record::User(m) | Record::Assistant(m) | Record::System(m) => match m.message {
            Some(msg) => match msg.content {
                MessageContent::Blocks(b) => b@,
                MessageContent::Text(_) => Seq::empty(),
            },
            None => Seq::empty(),
        },
        _ => Seq::empty(),
    }
}

/// How many of the blocks of a log call a tool.
pub open spec fn calls_of_all(records: Seq<(usize, Record)>) -> nat
    decreases records.len(),
{
    if records.len() == 0 {
        0
    } else {
        calls_of_all(records.drop_last()) + calls_in(blocks_of(records.last().1))
    }
}

/// The calls of a log are those of its parts, one after the other: no record hides the calls of
/// another.
pub proof fn law_calls_are_listed_record_by_record(
    a: Seq<(usize, Record)>,
    b: Seq<(usize, Record)>,
    r: (usize, Record),
)
    ensures
        session_calls(Seq::empty()) == Seq::<JsonTree>::empty(),
        session_calls(a + b) == session_calls(a) + session_calls(b),
        session_calls(seq![r]) == record_calls(r.0, r.1),
    decreases b.len(),
{
    reveal_with_fuel(session_calls, 2);
    assert(seq![r].drop_last() =~= Seq::empty());
    assert(seq![r].last() == r);
    assert(session_calls(seq![r]) =~= record_calls(r.0, r.1));
    if b.len() == 0 {
        assert(a + b =~= a);
        assert(session_calls(a) + session_calls(b) =~= session_calls(a));
    } else {
        assert((a + b).drop_last() =~= a + b.drop_last());
        law_calls_are_listed_record_by_record(a, b.drop_last(), r);
        assert(session_calls(a + b) =~= session_calls(a) + session_calls(b));
    }
}

/// As many calls are listed of a record as it has blocks that call a tool, and block `j` of
/// them stands behind those before it.
proof fn lemma_block_calls(
    line: usize,
    r: Record,
    m: MessageRecord,
    blocks: Seq<ContentBlock>,
    j: int,
)
    ensures
        block_calls(line, r, m, blocks).len() == calls_in(blocks),
        0 <= j < blocks.len() && blocks[j] is ToolUse ==> {
            let at = calls_in(blocks.take(j)) as int;
            &&& at < calls_in(blocks)
            &&& block_calls(line, r, m, blocks)[at] == tool_value(
                "tool_call"@,
                line as nat,
                opt_text(m.uuid),
                opt_text(m.timestamp),
                role_of(r),
                blocks[j]->name@,
                head(json_text(blocks[j]->input@), PREVIEW_CHARS as int),
            )
        },
    decreases blocks.len(),
{
    if blocks.len() > 0 {
        let rest = blocks.drop_last();
        lemma_block_calls(line, r, m, rest, j);
        if 0 <= j < rest.len() {
            assert(rest.take(j) =~= blocks.take(j));
        } else if j == rest.len() {
            assert(blocks.take(j) =~= rest);
        }
    }
}

/// Every call of a log is listed, once, and in the order of the log: as many are listed as there
/// are blocks that call a tool, and the call of block `j` of record `i` stands behind those of
/// the records and of the blocks before it. It tells the line, who called, when, and with what:
/// the first 200 characters of the input's text.
pub proof fn law_every_call_is_listed_once(records: Seq<(usize, Record)>, i: int, j: int)
    requires
        0 <= i < records.len(),
        0 <= j < blocks_of(records[i].1).len(),
        blocks_of(records[i].1)[j] is ToolUse,
    ensures
        session_calls(records).len() == calls_of_all(records),
        ({
            let (line, r) = records[i];
            let m = message_of(r)->0;
            let b = blocks_of(r)[j];
            let at = (calls_of_all(records.take(i)) + calls_in(blocks_of(r).take(j))) as int;
            let input = json_text(b->input@);
            &&& at < calls_of_all(records)
            &&& session_calls(records)[at] == tool_value(
                "tool_call"@,
                line as nat,
                opt_text(m.uuid),
                opt_text(m.timestamp),
                role_of(r),
                b->name@,
                if input.len() <= 200 {
                    input
                } else {
                    input.take(200)
                },
            )
        }),
{
    let (a, b) = (records.take(i), records.skip(i + 1));
    let one = seq![records[i]];
    let (line, r) = records[i];
    let m = message_of(r)->0;
    assert(records =~= a + (one + b));
    law_calls_are_listed_record_by_record(a, one + b, records[i]);
    law_calls_are_listed_record_by_record(one, b, records[i]);
    lemma_calls_are_counted(records);
    lemma_calls_are_counted(a);
    lemma_block_calls(line, r, m, blocks_of(r), j);
    assert(record_calls(line, r) == block_calls(line, r, m, blocks_of(r)));
}

/// As many calls are listed as there are blocks that call a tool.
proof fn lemma_calls_are_counted(records: Seq<(usize, Record)>)
    ensures
        session_calls(records).len() == calls_of_all(records),
    decreases records.len(),
{
    if records.len() > 0 {
        let (line, r) = records.last();
        lemma_calls_are_counted(records.drop_last());
        if message_of(r) is Some {
            lemma_block_calls(line, r, message_of(r)->0, blocks_of(r), 0);
        }
    }
}

/// A log has as many calls as its records have: none is listed that no block makes.
pub proof fn law_no_more_calls_are_listed_than_made(records: Seq<(usize, Record)>)
    ensures
        session_calls(records).len() == calls_of_all(records),
{
    lemma_calls_are_counted(records);
}

/// A tool call holds its fields under their names, those that are missing left out.
pub proof fn law_calls_hold_their_fields(
    record_type: Seq<char>,
    line: nat,
    uuid: Option<Seq<char>>,
    timestamp: Option<Seq<char>>,
    role: Seq<char>,
    tool_name: Seq<char>,
    input_preview: Seq<char>,
)
    ensures
        ({
            let v = tool_value(
                record_type,
                line,
                uuid,
                timestamp,
                role,
                tool_name,
                input_preview,
            );
            &&& member(v, "type"@) == Some(JsonTree::Str(record_type))
            &&& member(v, "line"@) == Some(JsonTree::Number(decimal(line)))
            &&& member(v, "uuid"@) == match uuid {
                Some(x) => Some(JsonTree::Str(x)),
                None => None,
            }
            &&& member(v, "timestamp"@) == match timestamp {
                Some(x) => Some(JsonTree::Str(x)),
                None => None,
            }
            &&& member(v, "role"@) == Some(JsonTree::Str(role))
            &&& member(v, "tool_name"@) == Some(JsonTree::Str(tool_name))
            &&& member(v, "input_preview"@) == Some(JsonTree::Str(input_preview))
        }),
{
    broadcast use crate::json::lemma_entry_pushed;

    reveal_strlit("type");
    reveal_strlit("line");
    reveal_strlit("uuid");
    reveal_strlit("timestamp");
    reveal_strlit("role");
    reveal_strlit("tool_name");
    reveal_strlit("input_preview");
    assert("type"@.len() == 4 && "type"@[0] == 't');
    assert("line"@.len() == 4 && "line"@[0] == 'l');
    assert("uuid"@.len() == 4 && "uuid"@[0] == 'u');
    assert("timestamp"@.len() == 9 && "timestamp"@[1] == 'i');
    assert("role"@.len() == 4 && "role"@[0] == 'r');
    assert("tool_name"@.len() == 9 && "tool_name"@[1] == 'o');
    assert("input_preview"@.len() == 13);
}

} // verus!
