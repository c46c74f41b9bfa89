//! Records that every command shares.
use vstd::prelude::*;
use vstd::string::*;

use crate::json::{
    depth_limit, json_text, lemma_named_num, lemma_named_object, lemma_named_opt, lemma_named_str,
    lemma_named_value, member, readable, with_num, with_opt, with_str, Fields, JsonLine, JsonTree,
    Members,
};
use crate::text::{decimal, opt_text};

verus! {

/// Marks every output stream. A search leaves out each message that holds it, so that output
/// pasted into a conversation is not found again.
pub const SMC_TAG: &'static str = "<smc-cc-cli>";

/// The version that the stream's header names.
pub const VERSION: &'static str = "0.9.1";

/// The header of a JSON stream: where it comes from, and the tag.
#[derive(Debug)]
pub struct MetaRecord {
    pub record_type: &'static str,
    pub tool: &'static str,
    pub tag: &'static str,
    pub version: &'static str,
}

impl MetaRecord {
    /// The header of this version.
    pub fn current() -> (r: Self)
        ensures
            r.record_type@ == "meta"@,
            r.tool@ == "smc"@,
            r.tag@ == SMC_TAG@,
            r.version@ == VERSION@,
    {
        MetaRecord { record_type: "meta", tool: "smc", tag: SMC_TAG, version: VERSION }
    }
}

/// The value of a header.
pub open spec fn meta_value(
    record_type: Seq<char>,
    tool: Seq<char>,
    tag: Seq<char>,
    version: Seq<char>,
) -> JsonTree {
    let f = with_str(Seq::empty(), "type"@, record_type);
    let f = with_str(f, "tool"@, tool);
    let f = with_str(f, "tag"@, tag);
    JsonTree::Object(with_str(f, "version"@, version))
}

impl JsonLine for MetaRecord {
    open spec fn value(&self) -> JsonTree {
        meta_value(self.record_type@, self.tool@, self.tag@, self.version@)
    }

    fn to_line(&self) -> (r: String) {
        let mut f = Fields::new();
        f.str("type", self.record_type);
        f.str("tool", self.tool);
        f.str("tag", self.tag);
        f.str("version", self.version);
        f.finish()
    }
}

/// An error or a warning, possibly about one file.
#[derive(Debug)]
pub struct ErrorRecord {
    pub record_type: &'static str,
    pub file: Option<String>,
    pub message: String,
}

/// The text of an optional slice.
pub open spec fn opt_slice(o: Option<&str>) -> Option<Seq<char>> {
    match o {
        Some(s) => Some(s@),
        None => None,
    }
}

impl ErrorRecord {
    /// An error.
    pub fn new(file: Option<&str>, message: &str) -> (r: Self)
        ensures
            r.record_type@ == "error"@,
            opt_text(r.file) == opt_slice(file),
            r.message@ == message@,
    {
        let file = match file {
            Some(s) => Some(s.to_owned()),
            None => None,
        };
        ErrorRecord { record_type: "error", file, message: message.to_owned() }
    }

    /// A warning.
    pub fn warn(file: Option<&str>, message: &str) -> (r: Self)
        ensures
            r.record_type@ == "warning"@,
            opt_text(r.file) == opt_slice(file),
            r.message@ == message@,
    {
        let file = match file {
            Some(s) => Some(s.to_owned()),
            None => None,
        };
        ErrorRecord { record_type: "warning", file, message: message.to_owned() }
    }
}

/// The value of an error or a warning.
pub open spec fn error_value(
    record_type: Seq<char>,
    file: Option<Seq<char>>,
    message: Seq<char>,
) -> JsonTree {
    let f = with_str(Seq::empty(), "type"@, record_type);
    let f = with_opt(f, "file"@, file);
    JsonTree::Object(with_str(f, "message"@, message))
}

/// The text of an error or a warning.
pub open spec fn error_text(
    record_type: Seq<char>,
    file: Option<Seq<char>>,
    message: Seq<char>,
) -> Seq<char> {
    json_text(error_value(record_type, file, message))
}

impl JsonLine for ErrorRecord {
    open spec fn value(&self) -> JsonTree {
        error_value(self.record_type@, opt_text(self.file), self.message@)
    }

    fn to_line(&self) -> (r: String) {
        let mut f = Fields::new();
        f.str("type", self.record_type);
        f.opt("file", &self.file);
        f.str("message", self.message.as_str());
        f.finish()
    }
}

/// The last record of a command's stream.
#[derive(Debug)]
pub struct SummaryRecord {
    pub record_type: &'static str,
    pub count: usize,
    pub files_scanned: Option<usize>,
    pub elapsed_ms: u128,
}

/// The value of a summary.
pub open spec fn summary_value(
    record_type: Seq<char>,
    count: nat,
    files_scanned: Option<usize>,
    elapsed_ms: nat,
) -> JsonTree {
    let f = with_str(Seq::empty(), "type"@, record_type);
    let f = with_num(f, "count"@, count);
    let f = match files_scanned {
        Some(n) => with_num(f, "files_scanned"@, n as nat),
        None => f,
    };
    JsonTree::Object(with_num(f, "elapsed_ms"@, elapsed_ms))
}

/// The text of a summary.
pub open spec fn summary_text(
    record_type: Seq<char>,
    count: nat,
    files_scanned: Option<usize>,
    elapsed_ms: nat,
) -> Seq<char> {
    json_text(summary_value(record_type, count, files_scanned, elapsed_ms))
}

impl JsonLine for SummaryRecord {
    open spec fn value(&self) -> JsonTree {
        summary_value(
            self.record_type@,
            self.count as nat,
            self.files_scanned,
            self.elapsed_ms as nat,
        )
    }

    fn to_line(&self) -> (r: String) {
        let mut f = Fields::new();
        f.str("type", self.record_type);
        f.num("count", self.count as u128);
        match self.files_scanned {
            Some(n) => {
                f.num("files_scanned", n as u128);
            },
            None => {},
        }
        f.num("elapsed_ms", self.elapsed_ms);
        f.finish()
    }
}

// ---- Reading back ---------------------------------------------------------

/// A header can be read back.
pub proof fn law_headers_are_readable(
    record_type: Seq<char>,
    tool: Seq<char>,
    tag: Seq<char>,
    version: Seq<char>,
)
    ensures
        readable(meta_value(record_type, tool, tag, version), depth_limit()),
{
    reveal_strlit("type");
    reveal_strlit("tool");
    reveal_strlit("tag");
    reveal_strlit("version");
    assert("type"@.len() == 4 && "type"@[1] == 'y');
    assert("tool"@.len() == 4 && "tool"@[1] == 'o');
    assert("tag"@.len() == 3);
    assert("version"@.len() == 7);
    let d = (depth_limit() - 1) as nat;
    let (f, n) = (Members::empty(), Set::<Seq<char>>::empty());
    lemma_named_str(f, n, "type"@, record_type, d);
    let (f, n) = (with_str(f, "type"@, record_type), n.insert("type"@));
    lemma_named_str(f, n, "tool"@, tool, d);
    let (f, n) = (with_str(f, "tool"@, tool), n.insert("tool"@));
    lemma_named_str(f, n, "tag"@, tag, d);
    let (f, n) = (with_str(f, "tag"@, tag), n.insert("tag"@));
    lemma_named_str(f, n, "version"@, version, d);
    let (f, n) = (with_str(f, "version"@, version), n.insert("version"@));
    lemma_named_object(f, n, d);
}

/// An error or a warning can be read back.
pub proof fn law_errors_are_readable(
    record_type: Seq<char>,
    file: Option<Seq<char>>,
    message: Seq<char>,
)
    ensures
        readable(error_value(record_type, file, message), depth_limit()),
{
    reveal_strlit("type");
    reveal_strlit("file");
    reveal_strlit("message");
    assert("type"@.len() == 4 && "type"@[0] == 't');
    assert("file"@.len() == 4 && "file"@[0] == 'f');
    assert("message"@.len() == 7);
    let d = (depth_limit() - 1) as nat;
    let (f, n) = (Members::empty(), Set::<Seq<char>>::empty());
    lemma_named_str(f, n, "type"@, record_type, d);
    let (f, n) = (with_str(f, "type"@, record_type), n.insert("type"@));
    lemma_named_opt(f, n, "file"@, file, d);
    let (f, n) = (with_opt(f, "file"@, file), n.insert("file"@));
    lemma_named_str(f, n, "message"@, message, d);
    let (f, n) = (with_str(f, "message"@, message), n.insert("message"@));
    lemma_named_object(f, n, d);
}

/// A summary can be read back, as long as the milliseconds are a number of 64 bits.
pub proof fn law_summaries_are_readable(
    record_type: Seq<char>,
    count: nat,
    files_scanned: Option<usize>,
    elapsed_ms: nat,
)
    requires
        count <= u64::MAX,
        elapsed_ms <= u64::MAX,
    ensures
        readable(summary_value(record_type, count, files_scanned, elapsed_ms), depth_limit()),
{
    reveal_strlit("type");
    reveal_strlit("count");
    reveal_strlit("files_scanned");
    reveal_strlit("elapsed_ms");
    assert("type"@.len() == 4);
    assert("count"@.len() == 5);
    assert("files_scanned"@.len() == 13);
    assert("elapsed_ms"@.len() == 10);
    let d = (depth_limit() - 1) as nat;
    let (f, n) = (Members::empty(), Set::<Seq<char>>::empty());
    lemma_named_str(f, n, "type"@, record_type, d);
    let (f, n) = (with_str(f, "type"@, record_type), n.insert("type"@));
    lemma_named_num(f, n, "count"@, count, d);
    let (f, n) = (with_num(f, "count"@, count), n.insert("count"@));
    if let Some(k) = files_scanned {
        lemma_named_num(f, n, "files_scanned"@, k as nat, d);
    } else {
        lemma_named_value(f, n, "files_scanned"@, None, d);
    }
    let f = match files_scanned {
        Some(k) => with_num(f, "files_scanned"@, k as nat),
        None => f,
    };
    let n = n.insert("files_scanned"@);
    lemma_named_num(f, n, "elapsed_ms"@, elapsed_ms, d);
    let (f, n) = (with_num(f, "elapsed_ms"@, elapsed_ms), n.insert("elapsed_ms"@));
    lemma_named_object(f, n, d);
}

/// A header holds its fields under their names.
pub proof fn law_headers_hold_their_fields(
    record_type: Seq<char>,
    tool: Seq<char>,
    tag: Seq<char>,
    version: Seq<char>,
)
    ensures
        ({
            let v = meta_value(record_type, tool, tag, version);
            &&& member(v, "type"@) == Some(JsonTree::Str(record_type))
            &&& member(v, "tool"@) == Some(JsonTree::Str(tool))
            &&& member(v, "tag"@) == Some(JsonTree::Str(tag))
            &&& member(v, "version"@) == Some(JsonTree::Str(version))
        }),
{
    broadcast use crate::json::lemma_entry_pushed;

    reveal_strlit("type");
    reveal_strlit("tool");
    reveal_strlit("tag");
    reveal_strlit("version");
    assert("type"@.len() == 4 && "type"@[1] == 'y');
    assert("tool"@.len() == 4 && "tool"@[1] == 'o');
    assert("tag"@.len() == 3);
    assert("version"@.len() == 7);
}

/// An error or a warning holds its fields under their names; the file only where there is one.
pub proof fn law_errors_hold_their_fields(
    record_type: Seq<char>,
    file: Option<Seq<char>>,
    message: Seq<char>,
)
    ensures
        ({
            let v = error_value(record_type, file, message);
            &&& member(v, "type"@) == Some(JsonTree::Str(record_type))
            &&& member(v, "file"@) == match file {
                Some(x) => Some(JsonTree::Str(x)),
                None => None,
            }
            &&& member(v, "message"@) == Some(JsonTree::Str(message))
        }),
{
    broadcast use crate::json::lemma_entry_pushed;

    reveal_strlit("type");
    reveal_strlit("file");
    reveal_strlit("message");
    assert("type"@.len() == 4 && "type"@[0] == 't');
    assert("file"@.len() == 4 && "file"@[0] == 'f');
    assert("message"@.len() == 7);
}

/// A summary holds its fields under their names; the files only where they were counted.
pub proof fn law_summaries_hold_their_fields(
    record_type: Seq<char>,
    count: nat,
    files_scanned: Option<usize>,
    elapsed_ms: nat,
)
    ensures
        ({
            let v = summary_value(record_type, count, files_scanned, elapsed_ms);
            &&& member(v, "type"@) == Some(JsonTree::Str(record_type))
            &&& member(v, "count"@) == Some(JsonTree::Number(decimal(count)))
            &&& member(v, "files_scanned"@) == match files_scanned {
                Some(x) => Some(JsonTree::Number(decimal(x as nat))),
                None => None,
            }
            &&& member(v, "elapsed_ms"@) == Some(JsonTree::Number(decimal(elapsed_ms)))
        }),
{
    broadcast use crate::json::lemma_entry_pushed;

    reveal_strlit("type");
    reveal_strlit("count");
    reveal_strlit("files_scanned");
    reveal_strlit("elapsed_ms");
    assert("type"@.len() == 4);
    assert("count"@.len() == 5);
    assert("files_scanned"@.len() == 13);
    assert("elapsed_ms"@.len() == 10);
}

} // verus!
