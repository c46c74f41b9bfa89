//! The records of a conversation log, and the text that they carry.
//!
//! Each line of a log is one record: a message of the user, the assistant or the system, or
//! something that carries no message.
use vstd::prelude::*;
use vstd::string::*;

use crate::json::{json_text, member, string_of, Json, JsonTree, Members};
use crate::output::emit::{lemma_contains_through, lemma_joined_holds};
use crate::text::{
    contains, contains_text, join, joined, law_held_text_stands_inside, lowercase, texts,
    to_lowercase,
};

verus! {

broadcast use {vstd::seq::group_seq_axioms, vstd::string::group_string_axioms};

// ---- Records --------------------------------------------------------------

/// One line of a log.
#[derive(Debug)]
pub enum Record {
    User(MessageRecord),
    Assistant(MessageRecord),
    System(MessageRecord),
    FileHistorySnapshot(Json),
    Progress(Json),
    Unknown,
}

/// A message, with what the log says about it.
#[derive(Debug)]
pub struct MessageRecord {
    pub uuid: Option<String>,
    pub parent_uuid: Option<Json>,
    pub session_id: Option<String>,
    pub timestamp: Option<String>,
    pub cwd: Option<String>,
    pub git_branch: Option<String>,
    pub version: Option<String>,
    /// User and assistant records carry the message here.
    pub message: Option<Message>,
    /// System records carry their text here instead, if they have any.
    pub content: Option<String>,
}

/// What was said.
#[derive(Debug)]
pub struct Message {
    pub role: String,
    pub content: MessageContent,
}

/// The content of a message: plain text, or blocks.
#[derive(Debug)]
pub enum MessageContent {
    Text(String),
    Blocks(Vec<ContentBlock>),
}

/// One block of a message.
#[derive(Debug)]
pub enum ContentBlock {
    Text { text: String },
    Thinking { thinking: String },
    ToolUse { id: Option<String>, name: String, input: Json },
    ToolResult { tool_use_id: Option<String>, content: Option<Json> },
    Other,
}

/// The content of a record, wherever it stands.
pub enum ContentView<'a> {
    Text(&'a str),
    Blocks(&'a Vec<ContentBlock>),
    Empty,
}

/// The content of a record as a value.
pub enum Content {
    Text(Seq<char>),
    Blocks(Seq<ContentBlock>),
    Empty,
}

/// The value of a content view.
pub open spec fn viewed(v: ContentView) -> Content {
    match v {
        ContentView::Text(s) => Content::Text(s@),
        ContentView::Blocks(b) => Content::Blocks(b@),
        ContentView::Empty => Content::Empty,
    }
}

/// The message that a record carries.
pub open spec fn message_of(r: Record) -> Option<MessageRecord> {
    match r {
        Record::User(m) => Some(m),
        Record::Assistant(m) => Some(m),
        Record::System(m) => Some(m),
        _ => None,
    }
}

/// Who speaks in a record.
pub open spec fn role_of(r: Record) -> Seq<char> {
    match r {
        Record::User(_) => "user"@,
        Record::Assistant(_) => "assistant"@,
        Record::System(_) => "system"@,
        _ => "other"@,
    }
}

/// The content of a message: that of `message` where there is one, else the text of `content`.
pub open spec fn content_of(m: MessageRecord) -> Content {
    match m.message {
        Some(msg) => match msg.content {
            MessageContent::Text(s) => Content::Text(s@),
            MessageContent::Blocks(b) => Content::Blocks(b@),
        },
        None => match m.content {
            Some(c) => Content::Text(c@),
            None => Content::Empty,
        },
    }
}

impl Record {
    /// The message that the record carries, if any.
    pub fn as_message(&self) -> (r: Option<&MessageRecord>)
        ensures
            match r {
                Some(m) => message_of(*self) == Some(*m),
                None => message_of(*self) is None,
            },
    {
        match self {
            Record::User(m) => Some(m),
            Record::Assistant(m) => Some(m),
            Record::System(m) => Some(m),
            _ => None,
        }
    }

    /// Who speaks.
    pub fn role(&self) -> (r: &'static str)
        ensures
            r@ == role_of(*self),
    {
        match self {
            Record::User(_) => "user",
            Record::Assistant(_) => "assistant",
            Record::System(_) => "system",
            _ => "other",
        }
    }

    /// Whether the record carries a message.
    pub fn is_message(&self) -> (r: bool)
        ensures
            r == (message_of(*self) is Some),
    {
        match self {
            Record::User(_) => true,
            Record::Assistant(_) => true,
            Record::System(_) => true,
            _ => false,
        }
    }
}

// ---- Text of JSON values --------------------------------------------------

/// The strings of a value, depth first.
pub open spec fn leaves(v: JsonTree) -> Seq<Seq<char>>
    decreases v, 0nat,
{
    match v {
        JsonTree::Str(s) => seq![s],
        JsonTree::Array(items) => item_leaves(items, items.len()),
        JsonTree::Object(entries) => entry_leaves(entries, entries.len()),
        _ => Seq::empty(),
    }
}

/// The strings of the first `n` items.
pub open spec fn item_leaves(items: Seq<JsonTree>, n: nat) -> Seq<Seq<char>>
    decreases items, n,
{
    if n == 0 || n > items.len() {
        Seq::empty()
    } else {
        item_leaves(items, (n - 1) as nat) + leaves(items[n - 1])
    }
}

/// The strings of the values of the first `n` entries.
pub open spec fn entry_leaves(entries: Seq<(Seq<char>, JsonTree)>, n: nat) -> Seq<Seq<char>>
    decreases entries, n,
{
    if n == 0 || n > entries.len() {
        Seq::empty()
    } else {
        entry_leaves(entries, (n - 1) as nat) + leaves(entries[n - 1].1)
    }
}

/// The strings of a value, one to the line.
pub open spec fn string_values(v: JsonTree) -> Seq<char> {
    joined(leaves(v), "\n"@)
}

/// What an item of a tool result says: a string says itself, an object its `text`.
pub open spec fn result_part(v: JsonTree) -> Option<Seq<char>> {
    match v {
        JsonTree::Str(s) => Some(s),
        JsonTree::Object(_) => match member(v, "text"@) {
            Some(t) => string_of(t),
            None => None,
        },
        _ => None,
    }
}

/// What the first `n` items of a tool result say.
pub open spec fn result_parts(items: Seq<JsonTree>, n: nat) -> Seq<Seq<char>>
    decreases n,
{
    if n == 0 || n > items.len() {
        Seq::empty()
    } else {
        let before = result_parts(items, (n - 1) as nat);
        match result_part(items[n - 1]) {
            Some(s) => before.push(s),
            None => before,
        }
    }
}

/// The text of a tool result: a string itself, the parts of a list one to the line, and of
/// anything else its JSON text.
pub open spec fn result_text(v: JsonTree) -> Seq<char> {
    match v {
        JsonTree::Str(s) => s,
        JsonTree::Array(items) => joined(result_parts(items, items.len()), "\n"@),
        _ => json_text(v),
    }
}

/// Appends the strings of `v`, depth first.
fn walk(v: &Json, out: &mut Vec<String>)
    ensures
        texts(final(out)@) == texts(old(out)@) + leaves(v@),
    decreases v,
{
    match v {
        Json::Str(s) => {
            out.push(s.clone());
            assert(texts(out@) =~= texts(old(out)@) + leaves(v@));
        },
        Json::Array(items) => {
            let ghost ts = v@->Array_0;
            let mut i: usize = 0;
            assert(texts(out@) =~= texts(old(out)@) + item_leaves(ts, 0));
            while i < items.len()
                invariant
                    i <= items.len(),
                    *v == Json::Array(*items),
                    v@ == JsonTree::Array(ts),
                    ts.len() == items.len(),
                    texts(out@) == texts(old(out)@) + item_leaves(ts, i as nat),
                decreases items.len() - i,
            {
                assert(ts[i as int] == items[i as int]@);
                walk(&items[i], out);
                assert(texts(out@) =~= texts(old(out)@) + item_leaves(ts, (i + 1) as nat));
                i = i + 1;
            }
        },
        Json::Object(entries) => {
            let ghost ts = v@->Object_0;
            let mut i: usize = 0;
            assert(texts(out@) =~= texts(old(out)@) + entry_leaves(ts, 0));
            while i < entries.len()
                invariant
                    i <= entries.len(),
                    *v == Json::Object(*entries),
                    v@ == JsonTree::Object(ts),
                    ts.len() == entries.len(),
                    texts(out@) == texts(old(out)@) + entry_leaves(ts, i as nat),
                decreases entries.len() - i,
            {
                assert(ts[i as int] == (entries[i as int].0@, entries[i as int].1@));
                walk(&entries[i].1, out);
                assert(texts(out@) =~= texts(old(out)@) + entry_leaves(ts, (i + 1) as nat));
                i = i + 1;
            }
        },
        _ => {
            assert(texts(out@) =~= texts(old(out)@) + leaves(v@));
        },
    }
}

/// The strings of a JSON value, depth first, one to the line: what makes a tool's input
/// searchable as text.
pub fn json_string_values(v: &Json) -> (r: String)
    ensures
        r@ == string_values(v@),
{
    let mut parts: Vec<String> = Vec::new();
    walk(v, &mut parts);
    assert(texts(parts@) =~= leaves(v@));
    join(&parts, "\n")
}

/// The text of a tool result, which is a string or a list of `{type, text}` blocks.
pub fn tool_result_text(c: &Json) -> (r: String)
    ensures
        r@ == result_text(c@),
{
    match c {
        Json::Str(s) => s.clone(),
        Json::Array(items) => {
            let ghost ts = c@->Array_0;
            let mut parts: Vec<String> = Vec::new();
            let mut i: usize = 0;
            assert(texts(parts@) =~= result_parts(ts, 0));
            while i < items.len()
                invariant
                    i <= items.len(),
                    *c == Json::Array(*items),
                    c@ == JsonTree::Array(ts),
                    ts.len() == items.len(),
                    texts(parts@) == result_parts(ts, i as nat),
                decreases items.len() - i,
            {
                let ghost before = parts@;
                let it = &items[i];
                assert(ts[i as int] == it@);
                match it {
                    Json::Str(s) => {
                        parts.push(s.clone());
                        assert(texts(parts@) =~= texts(before).push(s@));
                    },
                    Json::Object(_) => match it.get("text") {
                        Some(t) => match t.as_str() {
                            Some(s) => {
                                parts.push(s.to_owned());
                                assert(texts(parts@) =~= texts(before).push(s@));
                            },
                            None => {},
                        },
                        None => {},
                    },
                    _ => {},
                }
                i = i + 1;
            }
            join(&parts, "\n")
        },
        _ => c.to_text(),
    }
}

// ---- Text of messages -----------------------------------------------------

/// Which blocks of a message are read, and how.
#[derive(Clone, Copy, Debug, PartialEq, Eq, Structural)]
pub enum Reading {
    /// What was said or thought.
    Spoken,
    /// What was said.
    Said,
    /// What was thought.
    Thought,
    /// What tools were called with.
    ToolInput,
    /// All of it, tool calls and results as well.
    Full,
}

/// What a thinking block says. One without text says nothing: it stands for thoughts that the
/// log does not keep.
pub open spec fn thought(thinking: Seq<char>) -> Option<Seq<char>> {
    if thinking.len() > 0 {
        Some(thinking)
    } else {
        None
    }
}

/// What a block says in a reading.
pub open spec fn piece(b: ContentBlock, how: Reading) -> Option<Seq<char>> {
    match b {
        ContentBlock::Text { text } => match how {
            Reading::Spoken | Reading::Said | Reading::Full => Some(text@),
            _ => None,
        },
        ContentBlock::Thinking { thinking } => match how {
            Reading::Spoken | Reading::Thought | Reading::Full => thought(thinking@),
            _ => None,
        },
        ContentBlock::ToolUse { id, name, input } => match how {
            Reading::ToolInput => Some("["@ + name@ + "] "@ + string_values(input@)),
            Reading::Full => Some("[tool: "@ + name@ + "] "@ + string_values(input@)),
            _ => None,
        },
        ContentBlock::ToolResult { tool_use_id, content } => match (how, content) {
            (Reading::Full, Some(c)) => Some("[result] "@ + result_text(c@)),
            _ => None,
        },
        ContentBlock::Other => None,
    }
}

/// What the blocks say in a reading, one after the other.
pub open spec fn pieces(blocks: Seq<ContentBlock>, how: Reading) -> Seq<Seq<char>>
    decreases blocks.len(),
{
    if blocks.len() == 0 {
        Seq::empty()
    } else {
        let before = pieces(blocks.drop_last(), how);
        match piece(blocks.last(), how) {
            Some(s) => before.push(s),
            None => before,
        }
    }
}

/// The text of a message in a reading. Plain text was said; it holds no thought and no call.
pub open spec fn reading_of(m: MessageRecord, how: Reading) -> Seq<char> {
    match content_of(m) {
        Content::Text(s) => match how {
            Reading::Spoken | Reading::Said | Reading::Full => s,
            _ => Seq::empty(),
        },
        Content::Blocks(b) => joined(pieces(b, how), "\n"@),
        Content::Empty => Seq::empty(),
    }
}

/// The names of the tools that the blocks call.
pub open spec fn called_tools(blocks: Seq<ContentBlock>) -> Seq<Seq<char>>
    decreases blocks.len(),
{
    if blocks.len() == 0 {
        Seq::empty()
    } else {
        let before = called_tools(blocks.drop_last());
        match blocks.last() {
            ContentBlock::ToolUse { id, name, input } => before.push(name@),
            _ => before,
        }
    }
}

/// The names of the tools that a message calls.
pub open spec fn tools_of(m: MessageRecord) -> Seq<Seq<char>> {
    match content_of(m) {
        Content::Blocks(b) => called_tools(b),
        _ => Seq::empty(),
    }
}

/// Whether a block's tool input or result names a path, in any case.
pub open spec fn block_touches(b: ContentBlock, path: Seq<char>) -> bool {
    match b {
        ContentBlock::ToolUse { id, name, input } => contains_text(
            lowercase(string_values(input@)),
            lowercase(path),
        ),
        ContentBlock::ToolResult { tool_use_id, content: Some(c) } => contains_text(
            lowercase(result_text(c@)),
            lowercase(path),
        ),
        _ => false,
    }
}

/// Whether any tool input or result of a message names a path, in any case.
pub open spec fn touches(m: MessageRecord, path: Seq<char>) -> bool {
    match content_of(m) {
        Content::Blocks(b) => exists|i: int|
            0 <= i < b.len() && block_touches(#[trigger] b[i], path),
        _ => false,
    }
}

/// The parent of a message, where the log gives it as a string.
pub open spec fn parent_of(m: MessageRecord) -> Option<Seq<char>> {
    match m.parent_uuid {
        Some(v) => string_of(v@),
        None => None,
    }
}

/// The texts of a list of slices.
pub open spec fn slice_texts(parts: Seq<&str>) -> Seq<Seq<char>> {
    parts.map_values(|s: &str| s@)
}

/// Writes `open`, the name of a tool, `close`, and the strings of its input.
fn call_text(open: &str, name: &String, close: &str, input: &Json) -> (r: String)
    ensures
        r@ == open@ + name@ + close@ + string_values(input@),
{
    let mut s = open.to_owned();
    s.append(name.as_str());
    s.append(close);
    let values = json_string_values(input);
    s.append(values.as_str());
    s
}

/// What a block says in a reading.
fn read_block(b: &ContentBlock, how: Reading) -> (r: Option<String>)
    ensures
        match r {
            Some(s) => piece(*b, how) == Some(s@),
            None => piece(*b, how) is None,
        },
{
    match b {
        ContentBlock::Text { text } => match how {
            Reading::Spoken | Reading::Said | Reading::Full => Some(text.clone()),
            _ => None,
        },
        ContentBlock::Thinking { thinking } => match how {
            Reading::Spoken | Reading::Thought | Reading::Full => if thinking.as_str().is_empty() {
                None
            } else {
                Some(thinking.clone())
            },
            _ => None,
        },
        ContentBlock::ToolUse { id, name, input } => match how {
            Reading::ToolInput => Some(call_text("[", name, "] ", input)),
            Reading::Full => Some(call_text("[tool: ", name, "] ", input)),
            _ => None,
        },
        ContentBlock::ToolResult { tool_use_id, content } => match (how, content) {
            (Reading::Full, Some(c)) => {
                let mut s = "[result] ".to_owned();
                let t = tool_result_text(c);
                s.append(t.as_str());
                Some(s)
            },
            _ => None,
        },
        ContentBlock::Other => None,
    }
}

/// What the blocks say in a reading, one to the line.
fn read_blocks(blocks: &Vec<ContentBlock>, how: Reading) -> (r: String)
    ensures
        r@ == joined(pieces(blocks@, how), "\n"@),
{
    let mut parts: Vec<String> = Vec::new();
    let mut i: usize = 0;
    assert(texts(parts@) =~= pieces(blocks@.take(0), how));
    while i < blocks.len()
        invariant
            i <= blocks.len(),
            texts(parts@) == pieces(blocks@.take(i as int), how),
        decreases blocks.len() - i,
    {
        let ghost before = parts@;
        assert(blocks@.take(i + 1).drop_last() =~= blocks@.take(i as int));
        match read_block(&blocks[i], how) {
            Some(s) => {
                parts.push(s);
                assert(texts(parts@) =~= texts(before).push(s@));
            },
            None => {},
        }
        i = i + 1;
    }
    assert(blocks@.take(i as int) =~= blocks@);
    join(&parts, "\n")
}

impl MessageRecord {
    /// The parent's id, where the log gives it as a string.
    pub fn parent_uuid_str(&self) -> (r: Option<String>)
        ensures
            match r {
                Some(s) => parent_of(*self) == Some(s@),
                None => parent_of(*self) is None,
            },
    {
        match &self.parent_uuid {
            Some(v) => match v.as_str() {
                Some(s) => Some(s.to_owned()),
                None => None,
            },
            None => None,
        }
    }

    /// The content, wherever it stands.
    pub fn content_view(&self) -> (r: ContentView<'_>)
        ensures
            viewed(r) == content_of(*self),
    {
        match &self.message {
            Some(m) => match &m.content {
                MessageContent::Text(s) => ContentView::Text(s.as_str()),
                MessageContent::Blocks(b) => ContentView::Blocks(b),
            },
            None => match &self.content {
                Some(c) => ContentView::Text(c.as_str()),
                None => ContentView::Empty,
            },
        }
    }

    /// The text of the message in a reading.
    fn read(&self, how: Reading) -> (r: String)
        ensures
            r@ == reading_of(*self, how),
    {
        match self.content_view() {
            ContentView::Text(s) => match how {
                Reading::Spoken | Reading::Said | Reading::Full => s.to_owned(),
                _ => String::new(),
            },
            ContentView::Blocks(b) => read_blocks(b, how),
            ContentView::Empty => String::new(),
        }
    }

    /// What was said or thought, without tool calls and results.
    pub fn text_content(&self) -> (r: String)
        ensures
            r@ == reading_of(*self, Reading::Spoken),
    {
        self.read(Reading::Spoken)
    }

    /// What was said, without thoughts.
    pub fn text_no_thinking(&self) -> (r: String)
        ensures
            r@ == reading_of(*self, Reading::Said),
    {
        self.read(Reading::Said)
    }

    /// What was thought.
    pub fn thinking_content(&self) -> (r: String)
        ensures
            r@ == reading_of(*self, Reading::Thought),
    {
        self.read(Reading::Thought)
    }

    /// What tools were called with: their names and the strings of their inputs.
    pub fn tool_input_content(&self) -> (r: String)
        ensures
            r@ == reading_of(*self, Reading::ToolInput),
    {
        self.read(Reading::ToolInput)
    }

    /// Everything, tool calls and results as well.
    pub fn full_content(&self) -> (r: String)
        ensures
            r@ == reading_of(*self, Reading::Full),
    {
        self.read(Reading::Full)
    }

    /// The names of the tools that the message calls.
    pub fn tool_names(&self) -> (r: Vec<&str>)
        ensures
            slice_texts(r@) == tools_of(*self),
    {
        let mut r: Vec<&str> = Vec::new();
        match self.content_view() {
            ContentView::Blocks(blocks) => {
                let mut i: usize = 0;
                assert(slice_texts(r@) =~= called_tools(blocks@.take(0)));
                while i < blocks.len()
                    invariant
                        i <= blocks.len(),
                        slice_texts(r@) == called_tools(blocks@.take(i as int)),
                    decreases blocks.len() - i,
                {
                    let ghost before = r@;
                    assert(blocks@.take(i + 1).drop_last() =~= blocks@.take(i as int));
                    match &blocks[i] {
                        ContentBlock::ToolUse { id, name, input } => {
                            r.push(name.as_str());
                            assert(slice_texts(r@) =~= slice_texts(before).push(name@));
                        },
                        _ => {},
                    }
                    i = i + 1;
                }
                assert(blocks@.take(i as int) =~= blocks@);
            },
            _ => {
                assert(slice_texts(r@) =~= Seq::empty());
            },
        }
        r
    }

    /// Whether any tool input or result names `path`, in any case.
    pub fn touches_file(&self, path: &str) -> (r: bool)
        ensures
            r == touches(*self, path@),
    {
        let wanted = to_lowercase(path);
        match self.content_view() {
            ContentView::Blocks(blocks) => {
                let mut i: usize = 0;
                while i < blocks.len()
                    invariant
                        i <= blocks.len(),
                        wanted@ == lowercase(path@),
                        content_of(*self) == Content::Blocks(blocks@),
                        forall|k: int| 0 <= k < i ==> !block_touches(#[trigger] blocks@[k], path@),
                    decreases blocks.len() - i,
                {
                    let hit = match &blocks[i] {
                        ContentBlock::ToolUse { id, name, input } => {
                            let values = json_string_values(input);
                            let lower = to_lowercase(values.as_str());
                            contains(lower.as_str(), wanted.as_str())
                        },
                        ContentBlock::ToolResult { tool_use_id, content } => match content {
                            Some(c) => {
                                let t = tool_result_text(c);
                                let lower = to_lowercase(t.as_str());
                                contains(lower.as_str(), wanted.as_str())
                            },
                            None => false,
                        },
                        _ => false,
                    };
                    assert(hit == block_touches(blocks@[i as int], path@));
                    if hit {
                        let ghost b = content_of(*self)->Blocks_0;
                        assert(block_touches(b[i as int], path@));
                        return true;
                    }
                    i = i + 1;
                }
                false
            },
            _ => false,
        }
    }
}

// ---- Laws of the readings -------------------------------------------------

/// Blocks that say nothing in a reading do not change the text: a message reads as if they
/// were not there. A thinking block without text is such a block in every reading.
pub proof fn law_silent_blocks_are_invisible(
    before: Seq<ContentBlock>,
    silent: ContentBlock,
    after: Seq<ContentBlock>,
    how: Reading,
)
    requires
        piece(silent, how) is None,
    ensures
        pieces(before.push(silent) + after, how) == pieces(before + after, how),
    decreases after.len(),
{
    if after.len() == 0 {
        assert(before.push(silent) + after =~= before.push(silent));
        assert(before.push(silent).drop_last() =~= before);
        assert(before + after =~= before);
    } else {
        let a = before.push(silent) + after;
        let b = before + after;
        assert(a.drop_last() =~= before.push(silent) + after.drop_last());
        assert(b.drop_last() =~= before + after.drop_last());
        law_silent_blocks_are_invisible(before, silent, after.drop_last(), how);
    }
}

/// A thinking block without text is silent in every reading.
pub proof fn law_empty_thinking_is_silent(b: ContentBlock, how: Reading)
    requires
        b matches ContentBlock::Thinking { thinking } && thinking@.len() == 0,
    ensures
        piece(b, how) is None,
{
}

/// A message without thoughts reads the same with and without them.
pub proof fn law_spoken_without_thoughts_is_said(blocks: Seq<ContentBlock>)
    requires
        pieces(blocks, Reading::Thought).len() == 0,
    ensures
        pieces(blocks, Reading::Spoken) == pieces(blocks, Reading::Said),
    decreases blocks.len(),
{
    if blocks.len() > 0 {
        law_spoken_without_thoughts_is_said(blocks.drop_last());
    }
}

/// Who speaks in a record, and which records carry a message: those of the user, the assistant
/// and the system, and no others.
pub proof fn law_messages_have_their_speaker(r: Record)
    ensures
        r matches Record::User(m) ==> message_of(r) == Some(m) && role_of(r) == "user"@,
        r matches Record::Assistant(m) ==> message_of(r) == Some(m) && role_of(r) == "assistant"@,
        r matches Record::System(m) ==> message_of(r) == Some(m) && role_of(r) == "system"@,
        !(r is User || r is Assistant || r is System) ==> message_of(r) is None && role_of(r)
            == "other"@,
{
}

/// The strings of a value are gathered depth first and in order: those of a list are those of
/// its items one after the other, those of an object those of its values, a string is its own,
/// and nothing else has any.
pub proof fn law_strings_are_gathered_in_order(
    a: Seq<JsonTree>,
    b: Seq<JsonTree>,
    x: JsonTree,
    s: Seq<char>,
)
    ensures
        leaves(JsonTree::Str(s)) == seq![s],
        leaves(JsonTree::Array(seq![x])) == leaves(x),
        leaves(JsonTree::Array(a + b)) == leaves(JsonTree::Array(a)) + leaves(JsonTree::Array(b)),
        x is Null || x is Bool || x is Number ==> leaves(x).len() == 0,
{
    let one = seq![x];
    assert(item_leaves(one, 0) =~= Seq::empty());
    assert(item_leaves(one, 1) == item_leaves(one, 0) + leaves(one[0]));
    assert(item_leaves(one, 1) =~= leaves(x));
    assert(leaves(JsonTree::Array(one)) == item_leaves(one, one.len()));
    lemma_item_leaves(a, b, b.len());
    lemma_item_leaves(a, Seq::empty(), 0);
    assert(a + Seq::empty() =~= a);
}

/// The strings of items behind others.
proof fn lemma_item_leaves(a: Seq<JsonTree>, b: Seq<JsonTree>, n: nat)
    requires
        n <= b.len(),
    ensures
        item_leaves(a + b, a.len() + n) == item_leaves(a, a.len()) + item_leaves(b, n),
    decreases n,
{
    if n > 0 {
        lemma_item_leaves(a, b, (n - 1) as nat);
        assert((a + b)[a.len() + n - 1] == b[n - 1]);
        assert(item_leaves(a + b, a.len() + n) =~= item_leaves(a, a.len()) + item_leaves(b, n));
    } else {
        lemma_first_item_leaves(a, b, a.len());
        assert(item_leaves(a, a.len()) + item_leaves(b, 0) =~= item_leaves(a, a.len()));
    }
}

/// The strings of the first items do not depend on what follows.
proof fn lemma_first_item_leaves(a: Seq<JsonTree>, b: Seq<JsonTree>, n: nat)
    requires
        n <= a.len(),
    ensures
        item_leaves(a + b, n) == item_leaves(a, n),
    decreases n,
{
    if n > 0 {
        lemma_first_item_leaves(a, b, (n - 1) as nat);
        assert((a + b)[n - 1] == a[n - 1]);
    }
}

/// The strings of an object are those of its values, in their order; its names are none of them.
pub proof fn law_names_are_not_among_the_strings(members: Members)
    ensures
        leaves(JsonTree::Object(members)) == leaves(
            JsonTree::Array(members.map_values(|e: (Seq<char>, JsonTree)| e.1)),
        ),
{
    let items = members.map_values(|e: (Seq<char>, JsonTree)| e.1);
    lemma_entry_leaves(members, items, members.len());
}

/// The strings of the first members are those of their values.
proof fn lemma_entry_leaves(members: Members, items: Seq<JsonTree>, n: nat)
    requires
        n <= members.len(),
        items == members.map_values(|e: (Seq<char>, JsonTree)| e.1),
    ensures
        entry_leaves(members, n) == item_leaves(items, n),
    decreases n,
{
    if n > 0 {
        lemma_entry_leaves(members, items, (n - 1) as nat);
    }
}

/// A tool result says its string, or what the items of its list say, one to the line: a string
/// says itself, an object the string under `text`, and anything else nothing. Of any other
/// result the JSON text is shown.
pub proof fn law_results_say_their_texts(a: Seq<JsonTree>, b: Seq<JsonTree>, x: JsonTree)
    ensures
        x matches JsonTree::Str(s) ==> result_text(x) == s,
        x matches JsonTree::Array(items) ==> result_text(x) == joined(
            result_parts(items, items.len()),
            "\n"@,
        ),
        !(x is Str || x is Array) ==> result_text(x) == json_text(x),
        result_parts(a + b, a.len() + b.len()) == result_parts(a, a.len()) + result_parts(
            b,
            b.len(),
        ),
        result_parts(seq![x], 1) == match (x, member(x, "text"@)) {
            (JsonTree::Str(s), _) => seq![s],
            (JsonTree::Object(_), Some(JsonTree::Str(s))) => seq![s],
            _ => Seq::empty(),
        },
{
    lemma_result_parts(a, b, b.len());
    reveal_with_fuel(result_parts, 2);
    assert(result_parts(seq![x], 1) =~= match (x, member(x, "text"@)) {
        (JsonTree::Str(s), _) => seq![s],
        (JsonTree::Object(_), Some(JsonTree::Str(s))) => seq![s],
        _ => Seq::empty(),
    });
}

/// What items behind others say.
proof fn lemma_result_parts(a: Seq<JsonTree>, b: Seq<JsonTree>, n: nat)
    requires
        n <= b.len(),
    ensures
        result_parts(a + b, a.len() + n) == result_parts(a, a.len()) + result_parts(b, n),
    decreases n,
{
    if n > 0 {
        lemma_result_parts(a, b, (n - 1) as nat);
        assert((a + b)[a.len() + n - 1] == b[n - 1]);
        assert(result_parts(a + b, a.len() + n) =~= result_parts(a, a.len()) + result_parts(b, n));
    } else {
        lemma_first_result_parts(a, b, a.len());
        assert(result_parts(a, a.len()) + result_parts(b, 0) =~= result_parts(a, a.len()));
    }
}

/// What the first items say does not depend on what follows.
proof fn lemma_first_result_parts(a: Seq<JsonTree>, b: Seq<JsonTree>, n: nat)
    requires
        n <= a.len(),
    ensures
        result_parts(a + b, n) == result_parts(a, n),
    decreases n,
{
    if n > 0 {
        lemma_first_result_parts(a, b, (n - 1) as nat);
        assert((a + b)[n - 1] == a[n - 1]);
    }
}

/// Blocks are read one after the other: no block changes what another says.
pub proof fn law_blocks_are_read_in_order(
    a: Seq<ContentBlock>,
    b: Seq<ContentBlock>,
    how: Reading,
)
    ensures
        pieces(Seq::empty(), how) == Seq::<Seq<char>>::empty(),
        pieces(a + b, how) == pieces(a, how) + pieces(b, how),
        called_tools(a + b) == called_tools(a) + called_tools(b),
    decreases b.len(),
{
    if b.len() == 0 {
        assert(a + b =~= a);
        assert(pieces(a, how) + pieces(b, how) =~= pieces(a, how));
        assert(called_tools(a) + called_tools(b) =~= called_tools(a));
    } else {
        assert((a + b).drop_last() =~= a + b.drop_last());
        assert((a + b).last() == b.last());
        law_blocks_are_read_in_order(a, b.drop_last(), how);
        assert(pieces(a + b, how) =~= pieces(a, how) + pieces(b, how));
        assert(called_tools(a + b) =~= called_tools(a) + called_tools(b));
    }
}

/// What one block says: text and thoughts say themselves where they are read, a tool call its
/// name and the strings of its input, and a result its text. Thoughts without text, results
/// without content and blocks of another kind say nothing.
pub proof fn law_blocks_say_what_they_hold(b: ContentBlock, how: Reading)
    ensures
        ({
            let said = pieces(seq![b], how);
            let full = how == Reading::Full;
            match b {
                ContentBlock::Text { text } => said == if full || how == Reading::Spoken || how
                    == Reading::Said {
                    seq![text@]
                } else {
                    Seq::empty()
                },
                ContentBlock::Thinking { thinking } => said == if thinking@.len() > 0 && (full
                    || how == Reading::Spoken || how == Reading::Thought) {
                    seq![thinking@]
                } else {
                    Seq::empty()
                },
                ContentBlock::ToolUse { id, name, input } => said == if full {
                    seq!["[tool: "@ + name@ + "] "@ + joined(leaves(input@), "\n"@)]
                } else if how == Reading::ToolInput {
                    seq!["["@ + name@ + "] "@ + joined(leaves(input@), "\n"@)]
                } else {
                    Seq::empty()
                },
                ContentBlock::ToolResult { tool_use_id, content } => said == match content {
                    Some(c) => if full {
                        seq!["[result] "@ + result_text(c@)]
                    } else {
                        Seq::empty()
                    },
                    None => Seq::empty(),
                },
                ContentBlock::Other => said.len() == 0,
            }
        }),
{
    reveal_with_fuel(pieces, 2);
    assert(seq![b].drop_last() =~= Seq::empty());
    assert(pieces(seq![b], how) =~= match piece(b, how) {
        Some(s) => seq![s],
        None => Seq::empty(),
    });
}

/// A message reads as its content does: plain text, wherever it stands, in the readings of what
/// was said, and blocks one to the line.
pub proof fn law_messages_read_as_their_content(m: MessageRecord, how: Reading)
    ensures
        ({
            let text = reading_of(m, how);
            let said = how == Reading::Full || how == Reading::Spoken || how == Reading::Said;
            match m.message {
                Some(msg) => match msg.content {
                    MessageContent::Text(s) => text == if said {
                        s@
                    } else {
                        Seq::empty()
                    },
                    MessageContent::Blocks(b) => text == joined(pieces(b@, how), "\n"@),
                },
                None => match m.content {
                    Some(c) => text == if said {
                        c@
                    } else {
                        Seq::empty()
                    },
                    None => text.len() == 0,
                },
            }
        }),
{
}

/// The full text of a message holds everything that it says: the text of each block, each
/// thought, every string that a tool was called with, and every string result.
pub proof fn law_everything_is_in_the_full_text(
    m: MessageRecord,
    blocks: Seq<ContentBlock>,
    i: int,
    k: int,
)
    requires
        m.message matches Some(msg) && msg.content matches MessageContent::Blocks(b) && b@
            == blocks,
        0 <= i < blocks.len(),
    ensures
        match blocks[i] {
            ContentBlock::Text { text } => contains_text(reading_of(m, Reading::Full), text@),
            ContentBlock::Thinking { thinking } => contains_text(
                reading_of(m, Reading::Full),
                thinking@,
            ),
            ContentBlock::ToolUse { id, name, input } => {
                &&& contains_text(reading_of(m, Reading::Full), name@)
                &&& contains_text(reading_of(m, Reading::ToolInput), name@)
                &&& 0 <= k < leaves(input@).len() ==> contains_text(
                    reading_of(m, Reading::Full),
                    leaves(input@)[k],
                ) && contains_text(reading_of(m, Reading::ToolInput), leaves(input@)[k])
            },
            ContentBlock::ToolResult { tool_use_id, content: Some(c) } => contains_text(
                reading_of(m, Reading::Full),
                result_text(c@),
            ),
            _ => true,
        },
{
    let b = blocks[i];
    let full = reading_of(m, Reading::Full);
    let nothing = Seq::<char>::empty();
    match b {
        ContentBlock::Text { text } => {
            lemma_piece_is_read(blocks, i, Reading::Full);
        },
        ContentBlock::Thinking { thinking } => {
            if thinking@.len() > 0 {
                lemma_piece_is_read(blocks, i, Reading::Full);
            } else {
                law_held_text_stands_inside(full, thinking@, nothing, full);
                assert(nothing + thinking@ + full =~= full);
            }
        },
        ContentBlock::ToolUse { id, name, input } => {
            let strings = string_values(input@);
            lemma_piece_is_read(blocks, i, Reading::Full);
            lemma_piece_is_read(blocks, i, Reading::ToolInput);
            lemma_call_holds("[tool: "@, name@, "] "@, strings);
            lemma_call_holds("["@, name@, "] "@, strings);
            let (p, q) = (piece(b, Reading::Full)->0, piece(b, Reading::ToolInput)->0);
            let input_text = reading_of(m, Reading::ToolInput);
            lemma_contains_through(full, p, name@);
            lemma_contains_through(input_text, q, name@);
            if 0 <= k < leaves(input@).len() {
                lemma_joined_holds(leaves(input@), "\n"@, k);
                lemma_contains_through(p, strings, leaves(input@)[k]);
                lemma_contains_through(q, strings, leaves(input@)[k]);
                lemma_contains_through(full, p, leaves(input@)[k]);
                lemma_contains_through(input_text, q, leaves(input@)[k]);
            }
        },
        ContentBlock::ToolResult { tool_use_id, content: Some(c) } => {
            let t = result_text(c@);
            lemma_piece_is_read(blocks, i, Reading::Full);
            law_held_text_stands_inside("[result] "@ + t, t, "[result] "@, nothing);
            assert("[result] "@ + t + nothing =~= "[result] "@ + t);
            lemma_contains_through(full, "[result] "@ + t, t);
        },
        _ => {},
    }
}

/// The text of a call holds the name of the tool and the strings of its input.
proof fn lemma_call_holds(open: Seq<char>, name: Seq<char>, close: Seq<char>, rest: Seq<char>)
    ensures
        contains_text(open + name + close + rest, name),
        contains_text(open + name + close + rest, rest),
{
    let nothing = Seq::<char>::empty();
    law_held_text_stands_inside(nothing, name, open, close + rest);
    assert(open + name + (close + rest) =~= open + name + close + rest);
    law_held_text_stands_inside(nothing, rest, open + name + close, nothing);
    assert(open + name + close + rest + nothing =~= open + name + close + rest);
}

/// What a block says stands in the text of its message.
proof fn lemma_piece_is_read(blocks: Seq<ContentBlock>, i: int, how: Reading)
    requires
        0 <= i < blocks.len(),
        piece(blocks[i], how) is Some,
    ensures
        contains_text(joined(pieces(blocks, how), "\n"@), piece(blocks[i], how)->0),
{
    let (a, b) = (blocks.take(i), blocks.skip(i + 1));
    let one = seq![blocks[i]];
    assert(blocks =~= a + (one + b));
    law_blocks_are_read_in_order(a, one + b, how);
    law_blocks_are_read_in_order(one, b, how);
    reveal_with_fuel(pieces, 2);
    assert(one.drop_last() =~= Seq::empty());
    let n = pieces(a, how).len() as int;
    assert(pieces(one, how)[0] == piece(blocks[i], how)->0);
    assert(pieces(blocks, how)[n] == piece(blocks[i], how)->0);
    lemma_joined_holds(pieces(blocks, how), "\n"@, n);
}

/// The tools that a message calls are those of its blocks, one for each call and in their order.
pub proof fn law_tools_are_those_called(m: MessageRecord, b: ContentBlock)
    ensures
        tools_of(m) == match m.message {
            Some(msg) => match msg.content {
                MessageContent::Blocks(blocks) => called_tools(blocks@),
                MessageContent::Text(_) => Seq::empty(),
            },
            None => Seq::empty(),
        },
        called_tools(Seq::empty()) == Seq::<Seq<char>>::empty(),
        called_tools(seq![b]) == match b {
            ContentBlock::ToolUse { id, name, input } => seq![name@],
            _ => Seq::empty(),
        },
{
    reveal_with_fuel(called_tools, 2);
    assert(seq![b].drop_last() =~= Seq::empty());
    assert(called_tools(seq![b]) =~= match b {
        ContentBlock::ToolUse { id, name, input } => seq![name@],
        _ => Seq::empty(),
    });
}

/// A message touches a file exactly where the strings that one of its tools was called with, or
/// what one of its tool results says, name the path, in any case.
pub proof fn law_files_are_touched_by_tools(m: MessageRecord, path: Seq<char>)
    ensures
        touches(m, path) <==> (m.message matches Some(msg) && msg.content matches
            MessageContent::Blocks(b) && exists|i: int|
            0 <= i < b@.len() && match #[trigger] b@[i] {
                ContentBlock::ToolUse { id, name, input } => contains_text(
                    lowercase(joined(leaves(input@), "\n"@)),
                    lowercase(path),
                ),
                ContentBlock::ToolResult { tool_use_id, content: Some(c) } => contains_text(
                    lowercase(result_text(c@)),
                    lowercase(path),
                ),
                _ => false,
            }),
{
}

/// The parent of a message is what the log names as a string, and nothing else.
pub proof fn law_parents_are_strings(m: MessageRecord, s: Seq<char>)
    ensures
        parent_of(m) == Some(s) <==> (m.parent_uuid matches Some(v) && v@ == JsonTree::Str(s)),
{
}

} // verus!
