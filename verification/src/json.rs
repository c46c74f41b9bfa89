//! JSON values, and the text of JSON objects written field by field.
use vstd::prelude::*;
use vstd::string::*;
use vstd::utf8::*;

use crate::order::{lemma_lex_irreflexive, lemma_lex_transitive};
use crate::text::{
    codes, decimal, decimal_text, digit, join, joined, opt_text, same_text, text_lt, texts,
};

verus! {

broadcast use {vstd::seq::group_seq_axioms, vstd::string::group_string_axioms};

/// A JSON value. A number is held as the outside crate read it, an object as its entries in
/// the order in which they are walked.
#[derive(Debug)]
pub enum Json {
    Null,
    Bool(bool),
    Number(serde_json::Number),
    Str(String),
    Array(Vec<Json>),
    Object(Vec<(String, Json)>),
}

/// A JSON value as a mathematical tree.
pub enum JsonTree {
    Null,
    Bool(bool),
    Number(Seq<char>),
    Str(Seq<char>),
    Array(Seq<JsonTree>),
    Object(Seq<(Seq<char>, JsonTree)>),
}

/// The tree of a value.
pub open spec fn tree(v: Json) -> JsonTree
    decreases v,
{
    match v {
        Json::Null => JsonTree::Null,
        Json::Bool(b) => JsonTree::Bool(b),
        Json::Number(n) => JsonTree::Number(number_text(n)),
        Json::Str(s) => JsonTree::Str(s@),
        Json::Array(items) => JsonTree::Array(
            Seq::new(
                items@.len(),
                |i: int|
                    if 0 <= i < items@.len() {
                        tree(items@[i])
                    } else {
                        JsonTree::Null
                    },
            ),
        ),
        Json::Object(entries) => JsonTree::Object(
            Seq::new(
                entries@.len(),
                |i: int|
                    if 0 <= i < entries@.len() {
                        (entries@[i].0@, tree(entries@[i].1))
                    } else {
                        (Seq::empty(), JsonTree::Null)
                    },
            ),
        ),
    }
}

impl View for Json {
    type V = JsonTree;

    open spec fn view(&self) -> JsonTree {
        tree(*self)
    }
}

/// The members of an object: their names and values, in order.
pub type Members = Seq<(Seq<char>, JsonTree)>;

// ---- Outside functions ----------------------------------------------------

/// `serde_json::Number`, a number as the outside crate holds it.
#[verifier::external_type_specification]
#[verifier::external_body]
pub struct ExNumber(serde_json::Number);

/// `serde_json::Value`, the outside crate's JSON value.
#[verifier::external_type_specification]
#[verifier::external_body]
pub struct ExValue(serde_json::Value);

/// The text of a number.
pub uninterp spec fn number_text(n: serde_json::Number) -> Seq<char>;

/// What a `serde_json::Value` holds.
pub uninterp spec fn value_tree(v: serde_json::Value) -> JsonTree;

/// What `serde_json::from_slice` reads from bytes: nothing where they are no JSON text.
pub uninterp spec fn json_parsed(bytes: Seq<u8>) -> Option<JsonTree>;

/// Calls the `Display` of `serde_json::Number`: a decimal number, without a line feed.
#[verifier::external_body]
fn write_number(n: &serde_json::Number) -> (r: String)
    ensures
        r@ == number_text(*n),
        !r@.contains('\n'),
{
    n.to_string()
}

/// Calls `serde_json::from_slice` for a `serde_json::Value`. What it reads, and whether it
/// reads anything, depends on the bytes alone. What was read is read again from its own compact
/// text: the feature `float_roundtrip` sees to that for numbers. The compact text of a value
/// whose numbers are integers of 64 bits, whose objects have no name twice, and that is not
/// nested beyond the limit on recursion, is read as that value, with the members of each object
/// in the order of its map, which is that of their names.
#[verifier::external_body]
fn read_value(bytes: &[u8]) -> (r: Option<serde_json::Value>)
    ensures
        match r {
            Some(v) => json_parsed(bytes@) == Some(value_tree(v)),
            None => json_parsed(bytes@) is None,
        },
        r matches Some(v) ==> json_parsed(encode_utf8(json_text(value_tree(v)))) == Some(
            value_tree(v),
        ),
        match r {
            Some(v) => reads_back(bytes@, Some(value_tree(v))),
            None => reads_back(bytes@, None),
        },
{
    serde_json::from_slice(bytes).ok()
}

/// The outermost layer of a `serde_json::Value`.
enum Layer {
    Null,
    Bool(bool),
    Number(serde_json::Number),
    Str(String),
    Array(Vec<serde_json::Value>),
    Object(Vec<(String, serde_json::Value)>),
}

/// The tree that a layer opens into.
spec fn layer_tree(l: Layer) -> JsonTree {
    match l {
        Layer::Null => JsonTree::Null,
        Layer::Bool(b) => JsonTree::Bool(b),
        Layer::Number(n) => JsonTree::Number(number_text(n)),
        Layer::Str(s) => JsonTree::Str(s@),
        Layer::Array(items) => JsonTree::Array(
            items@.map_values(|v: serde_json::Value| value_tree(v)),
        ),
        Layer::Object(entries) => JsonTree::Object(
            entries@.map_values(|e: (String, serde_json::Value)| (e.0@, value_tree(e.1))),
        ),
    }
}

/// Takes a `serde_json::Value` apart, variant by variant; an object's entries come in the order
/// of its map.
#[verifier::external_body]
fn open_value(v: serde_json::Value) -> (r: Layer)
    ensures
        layer_tree(r) == value_tree(v),
{
    match v {
        serde_json::Value::Null => Layer::Null,
        serde_json::Value::Bool(b) => Layer::Bool(b),
        serde_json::Value::Number(n) => Layer::Number(n),
        serde_json::Value::String(s) => Layer::Str(s),
        serde_json::Value::Array(a) => Layer::Array(a),
        serde_json::Value::Object(o) => Layer::Object(o.into_iter().collect()),
    }
}

/// A hexadecimal digit, in lower case.
pub open spec fn hex_digit(d: int) -> char {
    if d < 10 {
        digit(d)
    } else {
        (87 + d) as char
    }
}

/// How a character is written in a JSON string literal: the quotation mark, the backslash and
/// the control characters are escaped, every other character stands for itself.
pub open spec fn escaped(c: char) -> Seq<char> {
    if c == '"' {
        seq!['\\', '"']
    } else if c == '\\' {
        seq!['\\', '\\']
    } else if c == '\u{8}' {
        seq!['\\', 'b']
    } else if c == '\u{c}' {
        seq!['\\', 'f']
    } else if c == '\n' {
        seq!['\\', 'n']
    } else if c == '\r' {
        seq!['\\', 'r']
    } else if c == '\t' {
        seq!['\\', 't']
    } else if ' ' > c {
        seq!['\\', 'u', '0', '0', hex_digit(c as int / 16), hex_digit(c as int % 16)]
    } else {
        seq![c]
    }
}

/// How the characters of a text are written, one after the other.
pub open spec fn escaped_text(s: Seq<char>) -> Seq<char>
    decreases s.len(),
{
    if s.len() == 0 {
        Seq::empty()
    } else {
        escaped_text(s.drop_last()) + escaped(s.last())
    }
}

/// The JSON string literal of a text.
pub open spec fn quoted(s: Seq<char>) -> Seq<char> {
    seq!['"'] + escaped_text(s) + seq!['"']
}

/// Whether a character stands for itself in a JSON string literal.
pub open spec fn is_plain(c: char) -> bool {
    c >= ' ' && c != '"' && c != '\\'
}

/// Calls `serde_json::to_string` on a text, which cannot fail there: the text between two
/// quotation marks, with the quotation mark, the backslash and control characters escaped.
#[verifier::external_body]
fn write_quoted(s: &str) -> (r: String)
    ensures
        r@ == quoted(s@),
{
    serde_json::to_string(s).unwrap_or_default()
}

/// How a character is written holds no line feed.
proof fn lemma_escaped_one_line(c: char)
    ensures
        one_line(escaped(c)),
{
    let e = escaped(c);
    if ' ' > c {
        let u = c as int;
        assert(0 <= u / 16 < 16 && 0 <= u % 16 < 16);
        assert(hex_digit(u / 16) != '\n' && hex_digit(u % 16) != '\n');
    }
    assert forall|i: int| 0 <= i < e.len() implies e[i] != '\n' by {}
}

/// A string literal holds no line feed.
pub proof fn lemma_quoted_one_line(s: Seq<char>)
    ensures
        one_line(escaped_text(s)),
        one_line(quoted(s)),
    decreases s.len(),
{
    if s.len() > 0 {
        lemma_quoted_one_line(s.drop_last());
        lemma_escaped_one_line(s.last());
        lemma_one_line_concat(escaped_text(s.drop_last()), escaped(s.last()));
    }
    let mark = seq!['"'];
    assert(one_line(mark)) by {
        assert(mark[0] == '"');
    }
    lemma_one_line_concat(mark, escaped_text(s));
    lemma_one_line_concat(mark + escaped_text(s), mark);
}

/// A text whose characters stand for themselves is written between two quotation marks.
pub proof fn lemma_quoted_plain(s: Seq<char>)
    requires
        forall|i: int| 0 <= i < s.len() ==> is_plain(#[trigger] s[i]),
    ensures
        escaped_text(s) == s,
        quoted(s) == seq!['"'] + s + seq!['"'],
    decreases s.len(),
{
    if s.len() > 0 {
        assert forall|i: int| 0 <= i < s.drop_last().len() implies is_plain(
            #[trigger] s.drop_last()[i],
        ) by {
            assert(s.drop_last()[i] == s[i]);
        }
        lemma_quoted_plain(s.drop_last());
        assert(is_plain(s[s.len() - 1]));
        assert(s.drop_last() + seq![s.last()] =~= s);
    } else {
        assert(escaped_text(s) =~= s);
    }
}

/// Writes a text as a JSON string literal, which stays on one line.
pub(crate) fn quote(s: &str) -> (r: String)
    ensures
        r@ == quoted(s@),
        one_line(r@),
{
    proof {
        lemma_quoted_one_line(s@);
    }
    write_quoted(s)
}

// ---- Reading --------------------------------------------------------------

/// The first entry of that name.
pub open spec fn entry_named(entries: Members, key: Seq<char>) -> Option<JsonTree>
    decreases entries.len(),
{
    if entries.len() == 0 {
        None
    } else if entries[0].0 == key {
        Some(entries[0].1)
    } else {
        entry_named(entries.drop_first(), key)
    }
}

/// What a value holds under a key: nothing where it is no object.
pub open spec fn member(v: JsonTree, key: Seq<char>) -> Option<JsonTree> {
    match v {
        JsonTree::Object(entries) => entry_named(entries, key),
        _ => None,
    }
}

/// The text of a value that is a string.
pub open spec fn string_of(v: JsonTree) -> Option<Seq<char>> {
    match v {
        JsonTree::Str(s) => Some(s),
        _ => None,
    }
}

/// The compact JSON text of a tree.
pub open spec fn json_text(v: JsonTree) -> Seq<char>
    decreases v, 0nat,
{
    match v {
        JsonTree::Null => "null"@,
        JsonTree::Bool(b) => bool_text(b),
        JsonTree::Number(n) => n,
        JsonTree::Str(s) => quoted(s),
        JsonTree::Array(items) => array_text(item_texts(items, items.len())),
        JsonTree::Object(entries) => object_text(member_texts(entries, entries.len())),
    }
}

/// The compact JSON texts of the first `n` items.
pub open spec fn item_texts(items: Seq<JsonTree>, n: nat) -> Seq<Seq<char>>
    decreases items, n,
{
    if n == 0 || n > items.len() {
        Seq::empty()
    } else {
        item_texts(items, (n - 1) as nat).push(json_text(items[n - 1]))
    }
}

/// The compact JSON texts of the first `n` members.
pub open spec fn member_texts(entries: Members, n: nat) -> Seq<Seq<char>>
    decreases entries, n,
{
    if n == 0 || n > entries.len() {
        Seq::empty()
    } else {
        member_texts(entries, (n - 1) as nat).push(
            field_text(entries[n - 1].0, json_text(entries[n - 1].1)),
        )
    }
}

/// Each item has its text.
pub proof fn lemma_item_texts(items: Seq<JsonTree>, n: nat)
    requires
        n <= items.len(),
    ensures
        item_texts(items, n).len() == n,
        forall|i: int| 0 <= i < n ==> #[trigger] item_texts(items, n)[i] == json_text(items[i]),
    decreases n,
{
    if n > 0 {
        lemma_item_texts(items, (n - 1) as nat);
    }
}

/// Each member has its text.
pub proof fn lemma_member_texts(entries: Members, n: nat)
    requires
        n <= entries.len(),
    ensures
        member_texts(entries, n).len() == n,
        forall|i: int|
            0 <= i < n ==> #[trigger] member_texts(entries, n)[i] == field_text(
                entries[i].0,
                json_text(entries[i].1),
            ),
    decreases n,
{
    if n > 0 {
        lemma_member_texts(entries, (n - 1) as nat);
    }
}

/// What one member more adds to the texts.
proof fn lemma_one_member_more(entries: Members, name: Seq<char>, t: JsonTree)
    ensures
        member_texts(entries.push((name, t)), entries.len() + 1) == member_texts(
            entries,
            entries.len(),
        ).push(field_text(name, json_text(t))),
{
    let more = entries.push((name, t));
    lemma_member_texts(entries, entries.len());
    lemma_member_texts(more, more.len());
    assert(member_texts(more, more.len()) =~= member_texts(entries, entries.len()).push(
        field_text(name, json_text(t)),
    ));
}

// ---- Reading back ---------------------------------------------------------

/// How deep arrays and objects may be nested to be read.
pub open spec fn depth_limit() -> nat {
    127
}

/// Whether a text is that of an integer which is held as it is: any of 64 bits, with a sign or
/// without.
pub open spec fn integer_text(n: Seq<char>) -> bool {
    ||| exists|k: nat| k <= u64::MAX && n == #[trigger] decimal(k)
    ||| exists|k: nat| 0 < k <= 0x8000_0000_0000_0000 && n == seq!['-'] + #[trigger] decimal(k)
}

/// Whether no name occurs twice.
pub open spec fn distinct_names(members: Members) -> bool {
    forall|i: int, j: int|
        0 <= i < j < members.len() ==> (#[trigger] members[i]).0 != (#[trigger] members[j]).0
}

/// Whether the names are in ascending order, none of them twice.
pub open spec fn ascending(members: Members) -> bool {
    forall|i: int, j: int|
        0 <= i < j < members.len() ==> text_lt(
            (#[trigger] members[i]).0,
            (#[trigger] members[j]).0,
        )
}

/// Whether a value can be read back from its text: its numbers are integers, no object has a
/// name twice, and nothing is nested deeper than `depth`.
pub open spec fn readable(t: JsonTree, depth: nat) -> bool
    decreases t,
{
    match t {
        JsonTree::Number(n) => integer_text(n),
        JsonTree::Array(items) => depth > 0 && forall|i: int|
            0 <= i < items.len() ==> readable(#[trigger] items[i], (depth - 1) as nat),
        JsonTree::Object(members) => depth > 0 && distinct_names(members) && forall|i: int|
            0 <= i < members.len() ==> readable((#[trigger] members[i]).1, (depth - 1) as nat),
        _ => true,
    }
}

/// Whether `u` is the value `t` with the members of each object in ascending order of their
/// names.
pub open spec fn reads_as(t: JsonTree, u: JsonTree) -> bool
    decreases t,
{
    match t {
        JsonTree::Array(a) => u matches JsonTree::Array(b) && a.len() == b.len() && forall|i: int|
            0 <= i < a.len() ==> reads_as(#[trigger] a[i], b[i]),
        JsonTree::Object(a) => u matches JsonTree::Object(b) && a.len() == b.len() && ascending(b)
            && (forall|i: int|
            0 <= i < a.len() ==> exists|j: int|
                0 <= j < b.len() && b[j].0 == (#[trigger] a[i]).0 && reads_as(
                    a[i].1,
                    (#[trigger] b[j]).1,
                )) && forall|j: int|
            0 <= j < b.len() ==> exists|i: int|
                0 <= i < a.len() && (#[trigger] a[i]).0 == (#[trigger] b[j]).0,
        _ => u == t,
    }
}

/// Whether `read` is what must be read from bytes that are the text of a value which can be
/// read back.
pub open spec fn reads_back(bytes: Seq<u8>, read: Option<JsonTree>) -> bool {
    forall|t: JsonTree|
        readable(t, depth_limit()) && encode_utf8(#[trigger] json_text(t)) == bytes ==> (
        read matches Some(u) && reads_as(t, u))
}

/// The same value as a `Json`.
fn from_value(v: serde_json::Value) -> (r: Json)
    ensures
        r@ == value_tree(v),
    decreases value_tree(v),
{
    let ghost whole = value_tree(v);
    match open_value(v) {
        Layer::Null => Json::Null,
        Layer::Bool(b) => Json::Bool(b),
        Layer::Number(n) => Json::Number(n),
        Layer::Str(s) => Json::Str(s),
        Layer::Array(items) => {
            let ghost given = items@;
            let ghost ts = whole->Array_0;
            let mut r: Vec<Json> = Vec::new();
            for x in it: items
                invariant
                    it.seq() == given,
                    whole == value_tree(v),
                    whole == JsonTree::Array(ts),
                    ts == given.map_values(|v: serde_json::Value| value_tree(v)),
                    r.len() == it.index(),
                    forall|k: int| 0 <= k < r.len() ==> #[trigger] r[k]@ == ts[k],
            {
                assert(value_tree(x) == whole->Array_0[it.index() as int]);
                assert(decreases_to!(whole => whole->Array_0[it.index() as int]));
                r.push(from_value(x));
            }
            let out = Json::Array(r);
            assert(out@->Array_0 =~= ts);
            out
        },
        Layer::Object(entries) => {
            let ghost given = entries@;
            let ghost ts = whole->Object_0;
            let mut r: Vec<(String, Json)> = Vec::new();
            for e in it: entries
                invariant
                    it.seq() == given,
                    whole == value_tree(v),
                    whole == JsonTree::Object(ts),
                    ts == given.map_values(
                        |e: (String, serde_json::Value)| (e.0@, value_tree(e.1)),
                    ),
                    r.len() == it.index(),
                    forall|k: int| 0 <= k < r.len() ==> (#[trigger] r[k].0@, r[k].1@) == ts[k],
            {
                let (key, x) = e;
                assert((key@, value_tree(x)) == whole->Object_0[it.index() as int]);
                assert(decreases_to!(whole => whole->Object_0[it.index() as int].1));
                r.push((key, from_value(x)));
            }
            let out = Json::Object(r);
            assert(out@->Object_0 =~= ts);
            out
        },
    }
}

impl Json {
    /// Reads one JSON value; nothing where the bytes are no JSON text. What was read can be
    /// written and read again, and so can every value whose numbers are integers, within the
    /// limits of `readable`.
    pub fn parse(bytes: &[u8]) -> (r: Option<Json>)
        ensures
            match r {
                Some(v) => json_parsed(bytes@) == Some(v@),
                None => json_parsed(bytes@) is None,
            },
            r matches Some(v) ==> json_parsed(encode_utf8(json_text(v@))) == Some(v@),
            reads_back(bytes@, json_parsed(bytes@)),
    {
        match read_value(bytes) {
            Some(v) => Some(from_value(v)),
            None => None,
        }
    }

    /// The compact JSON text of the value.
    pub fn to_text(&self) -> (r: String)
        ensures
            r@ == json_text(self@),
            !r@.contains('\n'),
        decreases self,
    {
        match self {
            Json::Null => {
                proof {
                    reveal_strlit("null");
                }
                "null".to_owned()
            },
            Json::Bool(b) => {
                proof {
                    reveal_strlit("true");
                    reveal_strlit("false");
                }
                if *b {
                    "true".to_owned()
                } else {
                    "false".to_owned()
                }
            },
            Json::Number(n) => write_number(n),
            Json::Str(s) => quote(s.as_str()),
            Json::Array(items) => {
                let ghost ts = self@->Array_0;
                let mut parts: Vec<String> = Vec::new();
                let mut i: usize = 0;
                assert(texts(parts@) =~= item_texts(ts, 0));
                while i < items.len()
                    invariant
                        i <= items.len(),
                        *self == Json::Array(*items),
                        self@ == JsonTree::Array(ts),
                        ts.len() == items.len(),
                        texts(parts@) == item_texts(ts, i as nat),
                        all_one_line(texts(parts@)),
                    decreases items.len() - i,
                {
                    assert(ts[i as int] == items[i as int]@);
                    let ghost before = parts@;
                    let part = items[i].to_text();
                    parts.push(part);
                    assert(texts(parts@) =~= texts(before).push(part@));
                    i = i + 1;
                }
                write_array(&parts)
            },
            Json::Object(entries) => {
                let ghost ts = self@->Object_0;
                let mut f = Fields::new();
                let mut i: usize = 0;
                assert(f@ =~= ts.take(0));
                while i < entries.len()
                    invariant
                        i <= entries.len(),
                        *self == Json::Object(*entries),
                        self@ == JsonTree::Object(ts),
                        ts.len() == entries.len(),
                        f.wf(),
                        f@ == ts.take(i as int),
                    decreases entries.len() - i,
                {
                    assert(ts[i as int] == (entries[i as int].0@, entries[i as int].1@));
                    let value = entries[i].1.to_text();
                    f.put(entries[i].0.as_str(), value.as_str(), Ghost(entries[i as int].1@));
                    assert(f@ =~= ts.take(i + 1));
                    i = i + 1;
                }
                assert(f@ =~= ts);
                f.finish()
            },
        }
    }

    /// What the value holds under `key`.
    pub fn get(&self, key: &str) -> (r: Option<&Json>)
        ensures
            match r {
                Some(v) => member(self@, key@) == Some(v@),
                None => member(self@, key@) is None,
            },
    {
        match self {
            Json::Object(entries) => {
                let ghost es = self@->Object_0;
                assert(es.skip(0) =~= es);
                let mut i: usize = 0;
                while i < entries.len()
                    invariant
                        i <= entries.len(),
                        *self == Json::Object(*entries),
                        self@ == JsonTree::Object(es),
                        es.len() == entries.len(),
                        entry_named(es, key@) == entry_named(es.skip(i as int), key@),
                    decreases entries.len() - i,
                {
                    assert(es[i as int] == (entries[i as int].0@, entries[i as int].1@));
                    assert(es.skip(i as int)[0] == es[i as int]);
                    if same_text(entries[i].0.as_str(), key) {
                        return Some(&entries[i].1);
                    }
                    assert(es.skip(i as int).drop_first() =~= es.skip(i + 1));
                    i = i + 1;
                }
                None
            },
            _ => None,
        }
    }

    /// The text of the value, where it is a string.
    pub fn as_str(&self) -> (r: Option<&str>)
        ensures
            match r {
                Some(s) => string_of(self@) == Some(s@),
                None => string_of(self@) is None,
            },
    {
        match self {
            Json::Str(s) => Some(s.as_str()),
            _ => None,
        }
    }
}

// ---- Writing --------------------------------------------------------------

/// One member of an object: the quoted name, a colon, the value's text.
pub open spec fn field_text(name: Seq<char>, value: Seq<char>) -> Seq<char> {
    quoted(name) + seq![':'] + value
}

/// An object of the given members.
pub open spec fn object_text(fields: Seq<Seq<char>>) -> Seq<char> {
    seq!['{'] + joined(fields, seq![',']) + seq!['}']
}

/// An array of the given values.
pub open spec fn array_text(items: Seq<Seq<char>>) -> Seq<char> {
    seq!['['] + joined(items, seq![',']) + seq![']']
}

/// The members so far, and one more that holds a text.
pub open spec fn with_str(members: Members, name: Seq<char>, value: Seq<char>) -> Members {
    members.push((name, JsonTree::Str(value)))
}

/// The members so far, and one more that holds a text, if there is one.
pub open spec fn with_opt(members: Members, name: Seq<char>, value: Option<Seq<char>>) -> Members {
    match value {
        Some(v) => with_str(members, name, v),
        None => members,
    }
}

/// The members so far, and one more that holds a number.
pub open spec fn with_num(members: Members, name: Seq<char>, value: nat) -> Members {
    members.push((name, JsonTree::Number(decimal(value))))
}

/// The members so far, and one more that holds a truth value.
pub open spec fn with_flag(members: Members, name: Seq<char>, value: bool) -> Members {
    members.push((name, JsonTree::Bool(value)))
}

/// The text of a truth value.
pub open spec fn bool_text(b: bool) -> Seq<char> {
    if b {
        "true"@
    } else {
        "false"@
    }
}

/// The members so far, and one more that holds an array, unless that is empty.
pub open spec fn with_list(members: Members, name: Seq<char>, items: Seq<JsonTree>) -> Members {
    if items.len() == 0 {
        members
    } else {
        members.push((name, JsonTree::Array(items)))
    }
}

/// Whether a text stays on one line.
pub open spec fn one_line(s: Seq<char>) -> bool {
    !s.contains('\n')
}

/// Whether each of the texts stays on one line.
pub open spec fn all_one_line(parts: Seq<Seq<char>>) -> bool {
    forall|i: int| 0 <= i < parts.len() ==> one_line(#[trigger] parts[i])
}

/// Texts of one line put together make one line.
pub proof fn lemma_one_line_concat(a: Seq<char>, b: Seq<char>)
    requires
        one_line(a),
        one_line(b),
    ensures
        one_line(a + b),
{
    assert forall|i: int| 0 <= i < (a + b).len() implies (a + b)[i] != '\n' by {
        if i < a.len() {
            assert((a + b)[i] == a[i]);
        } else {
            assert((a + b)[i] == b[i - a.len()]);
        }
    }
}

/// Texts of one line joined make one line.
pub proof fn lemma_one_line_joined(parts: Seq<Seq<char>>, sep: Seq<char>)
    requires
        all_one_line(parts),
        one_line(sep),
    ensures
        one_line(joined(parts, sep)),
    decreases parts.len(),
{
    if parts.len() > 1 {
        lemma_one_line_joined(parts.drop_last(), sep);
        lemma_one_line_concat(joined(parts.drop_last(), sep), sep);
        lemma_one_line_concat(joined(parts.drop_last(), sep) + sep, parts.last());
    }
}

/// Texts of one line between brackets make one line.
proof fn lemma_one_line_enclosed(open: char, parts: Seq<Seq<char>>, close: char)
    requires
        all_one_line(parts),
        open != '\n',
        close != '\n',
    ensures
        one_line(seq![open] + joined(parts, seq![',']) + seq![close]),
{
    let sep = seq![','];
    assert(one_line(sep)) by {
        assert(sep[0] == ',');
    }
    assert(one_line(seq![open]) && one_line(seq![close]));
    lemma_one_line_joined(parts, sep);
    lemma_one_line_concat(seq![open], joined(parts, sep));
    lemma_one_line_concat(seq![open] + joined(parts, sep), seq![close]);
}

/// A number has a digit, and nothing but digits.
proof fn lemma_decimal_one_line(n: nat)
    ensures
        decimal(n).len() > 0,
        one_line(decimal(n)),
    decreases n,
{
    let last = seq![digit((n % 10) as int)];
    assert(one_line(last)) by {
        assert(last[0] != '\n');
    }
    if n >= 10 {
        lemma_decimal_one_line(n / 10);
        lemma_one_line_concat(decimal(n / 10), last);
        assert(decimal(n) =~= decimal(n / 10) + last);
    } else {
        assert(decimal(n) =~= last);
    }
}

/// The text of a value that can be read back is not empty, and stays on one line.
pub proof fn lemma_readable_text(t: JsonTree, depth: nat)
    requires
        readable(t, depth),
    ensures
        json_text(t).len() > 0,
        one_line(json_text(t)),
    decreases t,
{
    match t {
        JsonTree::Null => {
            reveal_strlit("null");
        },
        JsonTree::Bool(_) => {
            reveal_strlit("true");
            reveal_strlit("false");
        },
        JsonTree::Number(n) => {
            if exists|k: nat| k <= u64::MAX && n == #[trigger] decimal(k) {
                let k = choose|k: nat| k <= u64::MAX && n == #[trigger] decimal(k);
                lemma_decimal_one_line(k);
            } else {
                let k = choose|k: nat|
                    0 < k <= 0x8000_0000_0000_0000 && n == seq!['-'] + #[trigger] decimal(k);
                lemma_decimal_one_line(k);
                assert(one_line(seq!['-']));
                lemma_one_line_concat(seq!['-'], decimal(k));
            }
        },
        JsonTree::Str(s) => {
            lemma_quoted_one_line(s);
        },
        JsonTree::Array(items) => {
            let parts = item_texts(items, items.len());
            lemma_item_texts(items, items.len());
            assert forall|i: int| 0 <= i < parts.len() implies one_line(#[trigger] parts[i]) by {
                lemma_readable_text(items[i], (depth - 1) as nat);
            }
            lemma_one_line_enclosed('[', parts, ']');
        },
        JsonTree::Object(members) => {
            let parts = member_texts(members, members.len());
            lemma_member_texts(members, members.len());
            assert forall|i: int| 0 <= i < parts.len() implies one_line(#[trigger] parts[i]) by {
                let (name, value) = members[i];
                lemma_readable_text(members[i].1, (depth - 1) as nat);
                lemma_quoted_one_line(name);
                assert(one_line(seq![':']));
                lemma_one_line_concat(quoted(name), seq![':']);
                lemma_one_line_concat(quoted(name) + seq![':'], json_text(value));
            }
            lemma_one_line_enclosed('{', parts, '}');
        },
    }
}

/// The first entry of a name that occurs once.
proof fn lemma_entry_named(members: Members, j: int)
    requires
        distinct_names(members),
        0 <= j < members.len(),
    ensures
        entry_named(members, members[j].0) == Some(members[j].1),
    decreases members.len(),
{
    if j > 0 {
        let rest = members.drop_first();
        assert(members[0].0 != members[j].0);
        assert(distinct_names(rest)) by {
            assert forall|a: int, b: int| 0 <= a < b < rest.len() implies (#[trigger] rest[a]).0
                != (#[trigger] rest[b]).0 by {
                assert(members[a + 1].0 != members[b + 1].0);
            }
        }
        lemma_entry_named(rest, j - 1);
    }
}

/// A name that is found occurs.
proof fn lemma_entry_occurs(members: Members, key: Seq<char>) -> (j: int)
    requires
        entry_named(members, key) is Some,
    ensures
        0 <= j < members.len(),
        members[j].0 == key,
        entry_named(members, key) == Some(members[j].1),
    decreases members.len(),
{
    if members[0].0 == key {
        0
    } else {
        1 + lemma_entry_occurs(members.drop_first(), key)
    }
}

/// Names in ascending order are distinct.
proof fn lemma_ascending_distinct(members: Members)
    requires
        ascending(members),
    ensures
        distinct_names(members),
{
    assert forall|i: int, j: int| 0 <= i < j < members.len() implies (#[trigger] members[i]).0 != (
    #[trigger] members[j]).0 by {
        lemma_lex_irreflexive(codes(members[i].0));
    }
}

/// What is read back has the same members as what was written, whatever their order: under each
/// name the value that was written there, and nothing under any other.
pub proof fn law_members_are_read_back(t: JsonTree, u: JsonTree, key: Seq<char>)
    requires
        reads_as(t, u),
        readable(t, depth_limit()),
    ensures
        match (member(t, key), member(u, key)) {
            (Some(x), Some(y)) => reads_as(x, y),
            (None, None) => true,
            _ => false,
        },
{
    match t {
        JsonTree::Object(a) => {
            let b = u->Object_0;
            lemma_ascending_distinct(b);
            if entry_named(a, key) is Some {
                let i = lemma_entry_occurs(a, key);
                let j = choose|j: int|
                    0 <= j < b.len() && b[j].0 == a[i].0 && reads_as(
                        a[i].1,
                        (#[trigger] b[j]).1,
                    );
                lemma_entry_named(b, j);
            } else if entry_named(b, key) is Some {
                let j = lemma_entry_occurs(b, key);
                let i = choose|i: int| 0 <= i < a.len() && (#[trigger] a[i]).0 == b[j].0;
                lemma_entry_named(a, i);
            }
        },
        _ => {},
    }
}

/// Whether the members of each object are in ascending order of their names.
pub open spec fn in_order(t: JsonTree) -> bool
    decreases t,
{
    match t {
        JsonTree::Array(items) => forall|i: int|
            0 <= i < items.len() ==> in_order(#[trigger] items[i]),
        JsonTree::Object(members) => ascending(members) && forall|i: int|
            0 <= i < members.len() ==> in_order((#[trigger] members[i]).1),
        _ => true,
    }
}

/// In members that are in order, a later name comes later.
proof fn lemma_places_ascend(b: Members, i: int, j: int)
    requires
        ascending(b),
        0 <= i < b.len(),
        0 <= j < b.len(),
        text_lt(b[i].0, b[j].0),
    ensures
        i < j,
{
    lemma_lex_irreflexive(codes(b[i].0));
    if j < i {
        lemma_lex_transitive(codes(b[i].0), codes(b[j].0), codes(b[i].0));
    }
}

/// Members in order that read as each other stand at the same places.
proof fn lemma_same_place(a: Members, b: Members, i: int)
    requires
        ascending(a),
        reads_as(JsonTree::Object(a), JsonTree::Object(b)),
        0 <= i < a.len(),
    ensures
        a[i].0 == b[i].0,
        reads_as(a[i].1, b[i].1),
{
    let j = lemma_place_from_below(a, b, i);
    lemma_place_from_above(a, b, i, j);
}

/// The place of a member is no earlier than it was.
proof fn lemma_place_from_below(a: Members, b: Members, i: int) -> (j: int)
    requires
        ascending(a),
        reads_as(JsonTree::Object(a), JsonTree::Object(b)),
        0 <= i < a.len(),
    ensures
        i <= j < b.len(),
        b[j].0 == a[i].0,
        reads_as(a[i].1, b[j].1),
    decreases i,
{
    let j = choose|j: int|
        0 <= j < b.len() && b[j].0 == a[i].0 && reads_as(a[i].1, (#[trigger] b[j]).1);
    if i > 0 {
        let before = lemma_place_from_below(a, b, i - 1);
        assert(text_lt(a[i - 1].0, a[i].0));
        lemma_places_ascend(b, before, j);
    }
    j
}

/// The place of a member is no later than it was.
proof fn lemma_place_from_above(a: Members, b: Members, i: int, j: int)
    requires
        ascending(a),
        reads_as(JsonTree::Object(a), JsonTree::Object(b)),
        0 <= i < a.len(),
        i <= j < b.len(),
        b[j].0 == a[i].0,
    ensures
        j == i,
    decreases a.len() - i,
{
    if i + 1 < a.len() {
        let next = lemma_place_from_below(a, b, i + 1);
        lemma_place_from_above(a, b, i + 1, next);
        assert(text_lt(a[i].0, a[i + 1].0));
        lemma_places_ascend(b, j, next);
    }
}

/// A value whose objects are in order is read back as it was written, to the last member.
pub proof fn law_ordered_values_are_read_back_unchanged(t: JsonTree, u: JsonTree)
    requires
        reads_as(t, u),
        in_order(t),
    ensures
        u == t,
    decreases t,
{
    match t {
        JsonTree::Array(a) => {
            let b = u->Array_0;
            assert forall|i: int| 0 <= i < a.len() implies a[i] == b[i] by {
                law_ordered_values_are_read_back_unchanged(a[i], b[i]);
            }
            assert(a =~= b);
        },
        JsonTree::Object(a) => {
            let b = u->Object_0;
            assert forall|i: int| 0 <= i < a.len() implies a[i] == b[i] by {
                lemma_same_place(a, b, i);
                law_ordered_values_are_read_back_unchanged(a[i].1, b[i].1);
            }
            assert(a =~= b);
        },
        _ => {},
    }
}

/// Whether the members have names of the given ones, none of them twice, and values that can be
/// read back.
pub open spec fn named(members: Members, names: Set<Seq<char>>, depth: nat) -> bool {
    &&& distinct_names(members)
    &&& forall|i: int|
        0 <= i < members.len() ==> names.contains((#[trigger] members[i]).0) && readable(
            members[i].1,
            depth,
        )
}

/// One member more, under a name of its own, or none: the names stay distinct.
pub proof fn lemma_named_value(
    members: Members,
    names: Set<Seq<char>>,
    name: Seq<char>,
    value: Option<JsonTree>,
    depth: nat,
)
    requires
        named(members, names, depth),
        !names.contains(name),
        value matches Some(t) ==> readable(t, depth),
    ensures
        value matches Some(t) ==> named(members.push((name, t)), names.insert(name), depth),
        value is None ==> named(members, names.insert(name), depth),
{
    if let Some(t) = value {
        let more = members.push((name, t));
        assert forall|i: int, j: int| 0 <= i < j < more.len() implies (#[trigger] more[i]).0 != (
        #[trigger] more[j]).0 by {
            assert(more[i] == members[i]);
        }
    }
}

/// One member more that holds a text.
pub proof fn lemma_named_str(
    members: Members,
    names: Set<Seq<char>>,
    name: Seq<char>,
    value: Seq<char>,
    depth: nat,
)
    requires
        named(members, names, depth),
        !names.contains(name),
    ensures
        named(with_str(members, name, value), names.insert(name), depth),
{
    lemma_named_value(members, names, name, Some(JsonTree::Str(value)), depth);
}

/// One member more that holds a text, if there is one.
pub proof fn lemma_named_opt(
    members: Members,
    names: Set<Seq<char>>,
    name: Seq<char>,
    value: Option<Seq<char>>,
    depth: nat,
)
    requires
        named(members, names, depth),
        !names.contains(name),
    ensures
        named(with_opt(members, name, value), names.insert(name), depth),
{
    match value {
        Some(v) => {
            lemma_named_str(members, names, name, v, depth);
        },
        None => {
            lemma_named_value(members, names, name, None, depth);
        },
    }
}

/// One member more that holds a number.
pub proof fn lemma_named_num(
    members: Members,
    names: Set<Seq<char>>,
    name: Seq<char>,
    value: nat,
    depth: nat,
)
    requires
        named(members, names, depth),
        !names.contains(name),
        value <= u64::MAX,
    ensures
        named(with_num(members, name, value), names.insert(name), depth),
{
    lemma_named_value(members, names, name, Some(JsonTree::Number(decimal(value))), depth);
}

/// One member more that holds an array, unless that is empty.
pub proof fn lemma_named_list(
    members: Members,
    names: Set<Seq<char>>,
    name: Seq<char>,
    items: Seq<JsonTree>,
    depth: nat,
)
    requires
        named(members, names, depth),
        !names.contains(name),
        readable(JsonTree::Array(items), depth),
    ensures
        named(with_list(members, name, items), names.insert(name), depth),
{
    lemma_named_value(members, names, name, Some(JsonTree::Array(items)), depth);
    lemma_named_value(members, names, name, None, depth);
}

/// An array of texts can be read back.
pub proof fn lemma_texts_readable(parts: Seq<Seq<char>>, depth: nat)
    requires
        depth > 0,
    ensures
        readable(JsonTree::Array(str_values(parts)), depth),
{
    let items = str_values(parts);
    assert forall|i: int| 0 <= i < items.len() implies readable(
        #[trigger] items[i],
        (depth - 1) as nat,
    ) by {
        assert(items[i] == JsonTree::Str(parts[i]));
    }
}

/// The members of an object that can be read back.
pub proof fn lemma_named_object(members: Members, names: Set<Seq<char>>, depth: nat)
    requires
        named(members, names, depth),
    ensures
        readable(JsonTree::Object(members), depth + 1),
{
}

/// Something written as one line of JSON.
pub trait JsonLine {
    /// The value that is written.
    spec fn value(&self) -> JsonTree;

    /// Writes the value's compact text, which holds no line feed.
    fn to_line(&self) -> (r: String)
        ensures
            r@ == json_text(self.value()),
            one_line(r@),
    ;
}

/// The values of a list of records.
pub open spec fn values_of<T: JsonLine>(recs: Seq<T>) -> Seq<JsonTree> {
    recs.map_values(|r: T| r.value())
}

impl JsonLine for Json {
    open spec fn value(&self) -> JsonTree {
        self@
    }

    fn to_line(&self) -> (r: String) {
        self.to_text()
    }
}

/// The members of a JSON object that is being written.
pub struct Fields {
    pub items: Vec<String>,
    pub members: Ghost<Members>,
}

impl View for Fields {
    type V = Members;

    open spec fn view(&self) -> Members {
        self.members@
    }
}

impl Fields {
    /// The texts are those of the members, and every one stays on one line.
    pub open spec fn wf(&self) -> bool {
        &&& texts(self.items@) == member_texts(self@, self@.len())
        &&& all_one_line(texts(self.items@))
    }

    /// No member yet.
    pub fn new() -> (r: Self)
        ensures
            r@ == Members::empty(),
            r.wf(),
    {
        let r = Fields { items: Vec::new(), members: Ghost(Members::empty()) };
        assert(texts(r.items@) =~= member_texts(r@, 0));
        r
    }

    /// Adds a member, the text of whose value is written already.
    pub(crate) fn put(&mut self, name: &str, value: &str, Ghost(t): Ghost<JsonTree>)
        requires
            old(self).wf(),
            one_line(value@),
            value@ == json_text(t),
        ensures
            final(self)@ == old(self)@.push((name@, t)),
            final(self).wf(),
    {
        let mut s = quote(name);
        proof {
            lemma_one_line_concat(s@, seq![':']);
            lemma_one_line_concat(s@ + seq![':'], value@);
            lemma_one_member_more(self@, name@, t);
        }
        s.push(':');
        assert(s@ =~= quoted(name@) + seq![':']);
        s.append(value);
        self.items.push(s);
        self.members = Ghost(self.members@.push((name@, t)));
        assert(texts(self.items@) =~= texts(old(self).items@).push(s@));
    }

    /// Adds a member that holds a text.
    pub fn str(&mut self, name: &str, value: &str)
        requires
            old(self).wf(),
        ensures
            final(self)@ == with_str(old(self)@, name@, value@),
            final(self).wf(),
    {
        let q = quote(value);
        self.put(name, q.as_str(), Ghost(JsonTree::Str(value@)));
    }

    /// Adds a member that holds a text, if there is one.
    pub fn opt(&mut self, name: &str, value: &Option<String>)
        requires
            old(self).wf(),
        ensures
            final(self)@ == with_opt(old(self)@, name@, opt_text(*value)),
            final(self).wf(),
    {
        match value {
            Some(v) => {
                self.str(name, v.as_str());
            },
            None => {},
        }
    }

    /// Adds a member that holds a number.
    pub fn num(&mut self, name: &str, value: u128)
        requires
            old(self).wf(),
        ensures
            final(self)@ == with_num(old(self)@, name@, value as nat),
            final(self).wf(),
    {
        let d = decimal_text(value);
        self.put(name, d.as_str(), Ghost(JsonTree::Number(decimal(value as nat))));
    }

    /// Adds a member that holds a truth value.
    pub fn flag(&mut self, name: &str, value: bool)
        requires
            old(self).wf(),
        ensures
            final(self)@ == with_flag(old(self)@, name@, value),
            final(self).wf(),
    {
        proof {
            reveal_strlit("true");
            reveal_strlit("false");
        }
        if value {
            self.put(name, "true", Ghost(JsonTree::Bool(true)));
        } else {
            self.put(name, "false", Ghost(JsonTree::Bool(false)));
        }
    }

    /// Adds a member that holds an array, the texts of whose items are written already.
    pub(crate) fn array(&mut self, name: &str, items: &Vec<String>, Ghost(ts): Ghost<Seq<JsonTree>>)
        requires
            old(self).wf(),
            all_one_line(texts(items@)),
            texts(items@) == item_texts(ts, ts.len()),
        ensures
            final(self)@ == old(self)@.push((name@, JsonTree::Array(ts))),
            final(self).wf(),
    {
        let a = write_array(items);
        self.put(name, a.as_str(), Ghost(JsonTree::Array(ts)));
    }

    /// Adds a member that holds an array, unless that is empty.
    pub(crate) fn list(&mut self, name: &str, items: &Vec<String>, Ghost(ts): Ghost<Seq<JsonTree>>)
        requires
            old(self).wf(),
            all_one_line(texts(items@)),
            texts(items@) == item_texts(ts, ts.len()),
        ensures
            final(self)@ == with_list(old(self)@, name@, ts),
            final(self).wf(),
    {
        proof {
            lemma_item_texts(ts, ts.len());
            assert(texts(items@).len() == items@.len());
        }
        if items.len() > 0 {
            self.array(name, items, Ghost(ts));
        }
    }

    /// The whole object.
    pub fn finish(&self) -> (r: String)
        requires
            self.wf(),
        ensures
            r@ == json_text(JsonTree::Object(self@)),
            one_line(r@),
    {
        let mut r = String::new();
        r.push('{');
        let body = join_commas(&self.items);
        r.append(body.as_str());
        r.push('}');
        assert(r@ =~= object_text(texts(self.items@)));
        proof {
            lemma_one_line_enclosed('{', texts(self.items@), '}');
        }
        r
    }
}

fn join_commas(items: &Vec<String>) -> (r: String)
    ensures
        r@ == joined(texts(items@), seq![',']),
{
    proof {
        reveal_strlit(",");
    }
    assert(","@ =~= seq![',']);
    join(items, ",")
}

/// Writes an array of values that are JSON text already.
pub fn write_array(items: &Vec<String>) -> (r: String)
    requires
        all_one_line(texts(items@)),
    ensures
        r@ == array_text(texts(items@)),
        one_line(r@),
{
    let mut r = String::new();
    r.push('[');
    let body = join_commas(items);
    r.append(body.as_str());
    r.push(']');
    assert(r@ =~= array_text(texts(items@)));
    proof {
        lemma_one_line_enclosed('[', texts(items@), ']');
    }
    r
}

/// The values of a list of texts.
pub open spec fn str_values(parts: Seq<Seq<char>>) -> Seq<JsonTree> {
    parts.map_values(|s: Seq<char>| JsonTree::Str(s))
}

/// Quotes each text of a list.
pub fn quote_all(parts: &Vec<String>) -> (r: Vec<String>)
    ensures
        texts(r@) == item_texts(str_values(texts(parts@)), parts@.len()),
        all_one_line(texts(r@)),
{
    let ghost ts = str_values(texts(parts@));
    let mut r: Vec<String> = Vec::new();
    let mut i: usize = 0;
    while i < parts.len()
        invariant
            i <= parts.len(),
            r.len() == i,
            ts == str_values(texts(parts@)),
            forall|k: int| 0 <= k < i ==> #[trigger] r[k]@ == json_text(ts[k]) && one_line(r[k]@),
        decreases parts.len() - i,
    {
        r.push(quote(parts[i].as_str()));
        i = i + 1;
    }
    proof {
        lemma_item_texts(ts, parts@.len());
    }
    assert(texts(r@) =~= item_texts(ts, parts@.len()));
    r
}

/// What one member more makes of a search by name: a name that was there is found as before.
pub broadcast proof fn lemma_entry_pushed(
    members: Members,
    name: Seq<char>,
    t: JsonTree,
    key: Seq<char>,
)
    ensures
        #[trigger] entry_named(members.push((name, t)), key) == match entry_named(members, key) {
            Some(x) => Some(x),
            None => if name == key {
                Some(t)
            } else {
                None
            },
        },
    decreases members.len(),
{
    let more = members.push((name, t));
    if members.len() == 0 {
        assert(more.drop_first() =~= Members::empty());
        reveal_with_fuel(entry_named, 2);
    } else {
        assert(more.drop_first() =~= members.drop_first().push((name, t)));
        lemma_entry_pushed(members.drop_first(), name, t, key);
    }
}

/// Where a name occurs twice, the first member of that name is found.
pub proof fn law_first_member_of_a_name_is_found(
    before: Members,
    key: Seq<char>,
    t: JsonTree,
    after: Members,
)
    requires
        forall|i: int| 0 <= i < before.len() ==> (#[trigger] before[i]).0 != key,
    ensures
        member(JsonTree::Object(before + seq![(key, t)] + after), key) == Some(t),
        member(JsonTree::Object(before), key) is None,
    decreases before.len(),
{
    let all = before + seq![(key, t)] + after;
    if before.len() > 0 {
        let rest = before.drop_first();
        assert forall|i: int| 0 <= i < rest.len() implies (#[trigger] rest[i]).0 != key by {
            assert(rest[i] == before[i + 1]);
        }
        law_first_member_of_a_name_is_found(rest, key, t, after);
        assert(all.drop_first() =~= rest + seq![(key, t)] + after);
        assert(all[0] == before[0]);
        assert(before[0].0 != key);
    } else {
        assert(all[0] == (key, t));
    }
}

/// The text of a value, kind by kind: the items of a list between brackets and the members of
/// an object between braces, in their order, each with its own text and with commas between.
pub proof fn law_texts_are_those_of_the_parts(v: JsonTree, i: int)
    ensures
        v is Null ==> json_text(v) == "null"@,
        v matches JsonTree::Bool(b) ==> json_text(v) == if b {
            "true"@
        } else {
            "false"@
        },
        v matches JsonTree::Number(n) ==> json_text(v) == n,
        v matches JsonTree::Str(s) ==> json_text(v) == seq!['"'] + escaped_text(s) + seq!['"'],
        v matches JsonTree::Array(items) ==> {
            let parts = item_texts(items, items.len());
            &&& json_text(v) == seq!['['] + joined(parts, seq![',']) + seq![']']
            &&& parts.len() == items.len()
            &&& 0 <= i < items.len() ==> parts[i] == json_text(items[i])
        },
        v matches JsonTree::Object(members) ==> {
            let parts = member_texts(members, members.len());
            &&& json_text(v) == seq!['{'] + joined(parts, seq![',']) + seq!['}']
            &&& parts.len() == members.len()
            &&& 0 <= i < members.len() ==> parts[i] == seq!['"'] + escaped_text(members[i].0)
                + seq!['"'] + seq![':'] + json_text(members[i].1)
        },
{
    match v {
        JsonTree::Array(items) => {
            lemma_item_texts(items, items.len());
        },
        JsonTree::Object(members) => {
            lemma_member_texts(members, members.len());
        },
        _ => {},
    }
}

/// A text is escaped character by character.
pub proof fn law_texts_are_escaped_in_order(a: Seq<char>, b: Seq<char>)
    ensures
        escaped_text(a + b) == escaped_text(a) + escaped_text(b),
    decreases b.len(),
{
    if b.len() == 0 {
        assert(a + b =~= a);
        assert(escaped_text(a) + escaped_text(b) =~= escaped_text(a));
    } else {
        assert((a + b).drop_last() =~= a + b.drop_last());
        law_texts_are_escaped_in_order(a, b.drop_last());
        assert(escaped_text(a + b) =~= escaped_text(a) + escaped_text(b));
    }
}

} // verus!
