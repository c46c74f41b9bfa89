//! The output stream of every command.
//!
//! A stream is text, one record to the line. It opens with a header that carries the tag, and
//! a token budget bounds what follows. The stream is kept in memory: `flush` hands over what
//! was added since the last flush, for the caller to write out.
use vstd::prelude::*;
use vstd::string::*;
use vstd::utf8::*;

use super::records::{
    error_text, meta_value, opt_slice, ErrorRecord, MetaRecord, SMC_TAG, VERSION,
};
use crate::json::{
    depth_limit, field_text, json_parsed, json_text, lemma_member_texts, lemma_quoted_plain,
    lemma_readable_text, member_texts, object_text, one_line, quoted, readable, reads_as,
    reads_back, Json, JsonLine, JsonTree,
};
use crate::text::{contains_text, joined, split, stands_at};
use crate::util::tokens::{approx_line, line_cost};

verus! {

broadcast use {vstd::seq::group_seq_axioms, vstd::string::group_string_axioms};

// ---- The stream as a value ------------------------------------------------

/// A stream: its text, the tokens counted so far, and what bounds it.
#[verifier::ext_equal]
pub struct Stream {
    /// Everything written.
    pub text: Seq<char>,
    /// How many bytes of it were handed over.
    pub flushed: nat,
    /// The token budget, 0 for none.
    pub budget: nat,
    /// The tokens counted so far.
    pub used: nat,
    /// Whether a record was left out for want of budget.
    pub truncated: bool,
    /// Whether the header was written.
    pub header_written: bool,
}

/// A stream that nothing was written to.
pub open spec fn new_stream(budget: nat) -> Stream {
    Stream {
        text: Seq::empty(),
        flushed: 0,
        budget,
        used: 0,
        truncated: false,
        header_written: false,
    }
}

/// What the header of a JSON stream holds.
pub open spec fn header_value() -> JsonTree {
    meta_value("meta"@, "smc"@, SMC_TAG@, VERSION@)
}

/// The header of a JSON stream.
pub open spec fn json_header() -> Seq<char> {
    json_text(header_value())
}

/// The header of a markdown stream: a comment.
pub open spec fn markdown_header() -> Seq<char> {
    "<!-- smc "@ + SMC_TAG@ + " v"@ + VERSION@ + " -->"@
}

/// The header of a stream.
pub open spec fn header(markdown: bool) -> Seq<char> {
    if markdown {
        markdown_header()
    } else {
        json_header()
    }
}

/// What a line costs.
pub open spec fn cost(line: Seq<char>) -> nat {
    line_cost(encode_utf8(line).len())
}

/// The stream with one line more.
pub open spec fn written(s: Stream, line: Seq<char>) -> Stream {
    Stream { text: s.text + line + seq!['\n'], used: s.used + cost(line), ..s }
}

/// The stream once its header is written.
pub open spec fn headed(s: Stream, markdown: bool) -> Stream {
    if s.header_written {
        s
    } else {
        Stream { header_written: true, ..written(s, header(markdown)) }
    }
}

/// Whether the budget leaves room for a line.
pub open spec fn fits(s: Stream, line: Seq<char>) -> bool {
    s.budget == 0 || s.used + cost(line) <= s.budget
}

/// The stream after a line was offered: with the line where the budget has room, else marked
/// as truncated.
pub open spec fn offered(s: Stream, line: Seq<char>, markdown: bool) -> Stream {
    let h = headed(s, markdown);
    if fits(h, line) {
        written(h, line)
    } else {
        Stream { truncated: true, ..h }
    }
}

/// Whether an offered line is taken.
pub open spec fn taken(s: Stream, line: Seq<char>, markdown: bool) -> bool {
    fits(headed(s, markdown), line)
}

/// The stream after a line that no budget holds back.
pub open spec fn forced(s: Stream, line: Seq<char>) -> Stream {
    written(headed(s, false), line)
}

/// How many of the lines are taken when they are offered in turn until one is refused.
pub open spec fn taken_count(s: Stream, lines: Seq<Seq<char>>) -> nat
    decreases lines.len(),
{
    if lines.len() == 0 || !taken(s, lines[0], false) {
        0
    } else {
        1 + taken_count(offered(s, lines[0], false), lines.drop_first())
    }
}

/// The stream after lines were offered in turn until one was refused.
pub open spec fn offered_all(s: Stream, lines: Seq<Seq<char>>) -> Stream
    decreases lines.len(),
{
    if lines.len() == 0 {
        s
    } else if !taken(s, lines[0], false) {
        offered(s, lines[0], false)
    } else {
        offered_all(offered(s, lines[0], false), lines.drop_first())
    }
}

/// The lines of a list of records.
pub open spec fn lines_of<T: JsonLine>(recs: Seq<T>) -> Seq<Seq<char>> {
    recs.map_values(|r: T| json_text(r.value()))
}

/// Whether the stream opens as it must: empty before the header, and with the header, tag and
/// all, after.
pub open spec fn opened(s: Stream) -> bool {
    if s.header_written {
        has_header(s.text)
    } else {
        s.text.len() == 0 && s.used == 0
    }
}

/// Whether a text begins with a header line that holds the tag.
pub open spec fn has_header(text: Seq<char>) -> bool {
    exists|markdown: bool| #[trigger]
        opens_with(text, header(markdown) + seq!['\n']) && contains_text(
            header(markdown),
            SMC_TAG@,
        )
}

/// Whether a text begins with another.
pub open spec fn opens_with(text: Seq<char>, start: Seq<char>) -> bool {
    start.len() <= text.len() && text.take(start.len() as int) == start
}

/// The bytes cut at each line feed.
pub open spec fn split_lines(bytes: Seq<u8>) -> Seq<Seq<u8>>
    decreases bytes.len(),
{
    if bytes.len() == 0 {
        seq![Seq::empty()]
    } else {
        let s = split_lines(bytes.drop_last());
        if bytes.last() == 10 {
            s.push(Seq::empty())
        } else {
            s.drop_last().push(s.last().push(bytes.last()))
        }
    }
}

/// What the lines that are JSON hold, empty lines left out.
pub open spec fn parsed_lines(lines: Seq<Seq<u8>>) -> Seq<JsonTree>
    decreases lines.len(),
{
    if lines.len() == 0 {
        Seq::empty()
    } else {
        let before = parsed_lines(lines.drop_last());
        let line = lines.last();
        match json_parsed(line) {
            Some(t) => if line.len() > 0 {
                before.push(t)
            } else {
                before
            },
            None => before,
        }
    }
}

/// Lines, each with a line feed behind it.
pub open spec fn block(lines: Seq<Seq<char>>) -> Seq<char>
    decreases lines.len(),
{
    if lines.len() == 0 {
        Seq::empty()
    } else {
        block(lines.drop_last()) + lines.last() + seq!['\n']
    }
}

/// The texts of a list of values.
pub open spec fn value_lines(values: Seq<JsonTree>) -> Seq<Seq<char>> {
    values.map_values(|t: JsonTree| json_text(t))
}

/// Whether each of the values can be read back from its text.
pub open spec fn all_readable(values: Seq<JsonTree>) -> bool {
    forall|i: int| 0 <= i < values.len() ==> readable(#[trigger] values[i], depth_limit())
}

/// Whether `read` are the same values, one by one, with the members of each object in order.
pub open spec fn all_read_as(values: Seq<JsonTree>, read: Seq<JsonTree>) -> bool {
    &&& read.len() == values.len()
    &&& forall|i: int| 0 <= i < values.len() ==> reads_as(#[trigger] values[i], read[i])
}

/// The trees of a list of values.
pub open spec fn trees(values: Seq<Json>) -> Seq<JsonTree> {
    values.map_values(|v: Json| v@)
}

// ---- Facts about streams --------------------------------------------------

/// Encoding goes piece by piece.
pub proof fn lemma_encode_concat(a: Seq<char>, b: Seq<char>)
    ensures
        encode_utf8(a + b) == encode_utf8(a) + encode_utf8(b),
    decreases a.len(),
{
    if a.len() == 0 {
        assert(a + b =~= b);
        assert(encode_utf8(a) + encode_utf8(b) =~= encode_utf8(b));
    } else {
        assert((a + b).drop_first() =~= a.drop_first() + b);
        lemma_encode_concat(a.drop_first(), b);
        assert(encode_utf8(a + b) =~= encode_utf8(a) + encode_utf8(b));
    }
}

/// A line feed is one byte.
proof fn lemma_encode_newline()
    ensures
        encode_utf8(seq!['\n']) == seq![10u8],
{
    let s = seq!['\n'];
    assert(is_ascii_chars(s));
    is_ascii_chars_encode_utf8(s);
    assert(encode_utf8(s) =~= seq![10u8]) by {
        assert(s[0] as u8 == encode_utf8(s)[0]);
    }
}

/// What a line adds to the bytes of a stream.
proof fn lemma_encode_line(text: Seq<char>, line: Seq<char>)
    ensures
        encode_utf8(text + line + seq!['\n']) == encode_utf8(text) + encode_utf8(line).push(10u8),
{
    lemma_encode_concat(text + line, seq!['\n']);
    lemma_encode_concat(text, line);
    lemma_encode_newline();
    assert(encode_utf8(text) + encode_utf8(line) + seq![10u8] =~= encode_utf8(text) + encode_utf8(
        line,
    ).push(10u8));
}

/// A joined text holds each of its parts.
pub proof fn lemma_joined_holds(parts: Seq<Seq<char>>, sep: Seq<char>, i: int)
    requires
        0 <= i < parts.len(),
    ensures
        contains_text(joined(parts, sep), parts[i]),
    decreases parts.len(),
{
    if parts.len() == 1 {
        assert(joined(parts, sep).subrange(0, parts[0].len() as int) =~= parts[0]);
        assert(stands_at(joined(parts, sep), parts[0], 0));
    } else {
        let rest = joined(parts.drop_last(), sep);
        let last = parts.last();
        if i == parts.len() - 1 {
            let at = (rest + sep).len() as int;
            assert(joined(parts, sep).subrange(at, at + last.len()) =~= last);
            assert(stands_at(joined(parts, sep), last, at));
        } else {
            lemma_joined_holds(parts.drop_last(), sep, i);
            lemma_contains_within(Seq::empty(), rest, sep + last, parts[i]);
            assert(Seq::<char>::empty() + rest + (sep + last) =~= joined(parts, sep));
        }
    }
}

/// What a text holds, every text around it holds.
pub proof fn lemma_contains_within(
    before: Seq<char>,
    s: Seq<char>,
    after: Seq<char>,
    needle: Seq<char>,
)
    requires
        contains_text(s, needle),
    ensures
        contains_text(before + s + after, needle),
{
    let i = choose|i: int| #[trigger] stands_at(s, needle, i);
    let at = before.len() + i;
    assert((before + s + after).subrange(at, at + needle.len()) =~= s.subrange(
        i,
        i + needle.len(),
    ));
    assert(stands_at(before + s + after, needle, at));
}

/// What is held by something held is held.
pub proof fn lemma_contains_through(outer: Seq<char>, inner: Seq<char>, needle: Seq<char>)
    requires
        contains_text(outer, inner),
        contains_text(inner, needle),
    ensures
        contains_text(outer, needle),
{
    let i = choose|i: int| #[trigger] stands_at(outer, inner, i);
    let before = outer.subrange(0, i);
    let after = outer.subrange(i + inner.len(), outer.len() as int);
    assert(before + inner + after =~= outer);
    lemma_contains_within(before, inner, after, needle);
}

/// The JSON header holds the tag.
proof fn lemma_json_header_holds_tag()
    ensures
        contains_text(json_header(), SMC_TAG@),
{
    let tag = SMC_TAG@;
    reveal_strlit("<smc-cc-cli>");
    lemma_quoted_plain(tag);
    let f = header_value()->Object_0;
    lemma_member_texts(f, f.len());
    let f = member_texts(f, f.len());
    assert(json_header() == object_text(f));
    assert(f[2] == field_text("tag"@, quoted(tag)));
    lemma_joined_holds(f, seq![','], 2);
    lemma_contains_within(seq!['{'], joined(f, seq![',']), seq!['}'], f[2]);
    assert(tag.subrange(0, tag.len() as int) =~= tag);
    assert(stands_at(tag, tag, 0));
    lemma_contains_within(quoted("tag"@) + seq![':'] + seq!['"'], tag, seq!['"'], tag);
    assert(f[2] =~= (quoted("tag"@) + seq![':'] + seq!['"']) + tag + seq!['"']);
    lemma_contains_through(json_header(), f[2], tag);
}

/// The markdown header holds the tag.
proof fn lemma_markdown_header_holds_tag()
    ensures
        contains_text(markdown_header(), SMC_TAG@),
{
    let tag = SMC_TAG@;
    assert(tag.subrange(0, tag.len() as int) =~= tag);
    assert(stands_at(tag, tag, 0));
    lemma_contains_within("<!-- smc "@, tag, " v"@ + VERSION@ + " -->"@, tag);
    assert("<!-- smc "@ + tag + (" v"@ + VERSION@ + " -->"@) =~= markdown_header());
}

/// A header holds the tag.
pub proof fn law_header_holds_tag(markdown: bool)
    ensures
        contains_text(header(markdown), SMC_TAG@),
{
    lemma_json_header_holds_tag();
    lemma_markdown_header_holds_tag();
}

/// Once its header is written, a stream holds the tag, and so does every text that quotes the
/// whole of it.
pub proof fn law_stream_holds_tag(s: Stream, before: Seq<char>, after: Seq<char>)
    requires
        opened(s),
        s.header_written,
    ensures
        contains_text(before + s.text + after, SMC_TAG@),
{
    let markdown = choose|markdown: bool| #[trigger]
        opens_with(s.text, header(markdown) + seq!['\n']) && contains_text(
            header(markdown),
            SMC_TAG@,
        );
    let h = header(markdown);
    let rest = s.text.skip(h.len() as int);
    assert(s.text =~= Seq::empty() + h + rest) by {
        assert(s.text.take((h + seq!['\n']).len() as int).take(h.len() as int) =~= h);
    }
    lemma_contains_within(Seq::empty(), h, rest, SMC_TAG@);
    lemma_contains_within(before, s.text, after, SMC_TAG@);
}

/// Adding a line keeps the opening.
proof fn lemma_written_opened(s: Stream, line: Seq<char>)
    requires
        opened(s),
        s.header_written,
    ensures
        opened(written(s, line)),
{
    let markdown = choose|markdown: bool| #[trigger]
        opens_with(s.text, header(markdown) + seq!['\n']) && contains_text(
            header(markdown),
            SMC_TAG@,
        );
    let start = header(markdown) + seq!['\n'];
    assert(written(s, line).text.take(start.len() as int) =~= s.text.take(start.len() as int));
    assert(opens_with(written(s, line).text, start));
}

/// The budget law: a stream within its budget stays within it when a record is offered, unless
/// the header itself is beyond it.
pub proof fn law_budget_holds(s: Stream, line: Seq<char>, markdown: bool)
    requires
        s.budget > 0,
        headed(s, markdown).used <= s.budget,
    ensures
        offered(s, line, markdown).used <= s.budget,
{
}

/// A stream within its budget stays within it however many records are offered.
pub proof fn law_budget_holds_for_all(s: Stream, lines: Seq<Seq<char>>)
    requires
        s.budget > 0,
        headed(s, false).used <= s.budget,
    ensures
        offered_all(s, lines).used <= s.budget,
    decreases lines.len(),
{
    if lines.len() > 0 && taken(s, lines[0], false) {
        law_budget_holds_for_all(offered(s, lines[0], false), lines.drop_first());
    }
}

/// A stream without a budget takes every record.
pub proof fn law_no_budget_takes_all(s: Stream, lines: Seq<Seq<char>>)
    requires
        s.budget == 0,
    ensures
        taken_count(s, lines) == lines.len(),
        offered_all(s, lines).truncated == s.truncated,
        offered_all(s, lines).budget == 0,
    decreases lines.len(),
{
    if lines.len() > 0 {
        law_no_budget_takes_all(offered(s, lines[0], false), lines.drop_first());
    }
}

/// A refused record leaves the stream as it is but for the header and the mark, and a taken
/// one adds its line and nothing else.
pub proof fn law_offer_adds_one_line_or_none(s: Stream, line: Seq<char>, markdown: bool)
    ensures
        taken(s, line, markdown) ==> offered(s, line, markdown).text == headed(s, markdown).text
            + line + seq!['\n'],
        !taken(s, line, markdown) ==> offered(s, line, markdown).text == headed(s, markdown).text
            && offered(s, line, markdown).truncated,
{
}

/// The stream is cut short exactly where fewer records are taken than were offered.
pub proof fn law_truncated_iff_refused(s: Stream, lines: Seq<Seq<char>>)
    requires
        !s.truncated,
    ensures
        taken_count(s, lines) <= lines.len(),
        offered_all(s, lines).truncated <==> taken_count(s, lines) < lines.len(),
    decreases lines.len(),
{
    if lines.len() > 0 && taken(s, lines[0], false) {
        law_truncated_iff_refused(offered(s, lines[0], false), lines.drop_first());
    }
}

/// Whether a text is empty or ends with a line feed.
pub open spec fn ends_line(text: Seq<char>) -> bool {
    text.len() == 0 || text.last() == '\n'
}

/// A text that goes on behind a line feed, on one line, has that as its last part.
proof fn lemma_split_last_line(text: Seq<char>, line: Seq<char>)
    requires
        ends_line(text),
        one_line(line),
    ensures
        split(text + line, '\n') == split(text, '\n').drop_last().push(line),
    decreases line.len(),
{
    lemma_split_some(text);
    if line.len() == 0 {
        assert(text + line =~= text);
        assert(split(text, '\n').last() =~= line);
        assert(split(text, '\n') =~= split(text, '\n').drop_last().push(line));
    } else {
        let rest = line.drop_last();
        assert(one_line(rest)) by {
            assert forall|i: int| 0 <= i < rest.len() implies rest[i] != '\n' by {
                assert(rest[i] == line[i]);
            }
        }
        lemma_split_last_line(text, rest);
        assert((text + line).drop_last() =~= text + rest);
        assert(line.last() == line[line.len() - 1]);
        let before = split(text, '\n').drop_last();
        assert(before.push(rest).drop_last() =~= before);
        assert(rest.push(line.last()) =~= line);
    }
}

/// There is always a last part.
proof fn lemma_split_some(s: Seq<char>)
    ensures
        split(s, '\n').len() > 0,
    decreases s.len(),
{
    if s.len() > 0 {
        lemma_split_some(s.drop_last());
    }
}

/// One record is one line: a stream cut at its line feeds gives what it gave before, then the
/// record, and then the empty rest behind the last line feed.
pub proof fn law_each_record_is_one_line(s: Stream, line: Seq<char>)
    requires
        ends_line(s.text),
        one_line(line),
    ensures
        ends_line(written(s, line).text),
        split(written(s, line).text, '\n') == split(s.text, '\n').drop_last().push(line).push(
            Seq::empty(),
        ),
{
    let t = written(s, line).text;
    lemma_split_last_line(s.text, line);
    assert(t.drop_last() =~= s.text + line);
}

/// A character other than a line feed has no byte that is one.
proof fn lemma_encode_char(c: char)
    requires
        c != '\n',
    ensures
        !encode_scalar(c as u32).contains(10u8),
{
    let u = c as u32;
    char_is_scalar(c);
    assert(u != 10);
    assert(u <= 0x7f && u != 10 ==> (u & 0x7f) as u8 != 10u8) by (bit_vector);
    assert((0xC0u8 | ((u >> 6) & 0x1f) as u8) != 10u8) by (bit_vector);
    assert((0xE0u8 | ((u >> 12) & 0x0f) as u8) != 10u8) by (bit_vector);
    assert((0xF0u8 | ((u >> 18) & 0x07) as u8) != 10u8) by (bit_vector);
    assert((0x80u8 | (u & 0x3f) as u8) != 10u8) by (bit_vector);
    assert((0x80u8 | ((u >> 6) & 0x3f) as u8) != 10u8) by (bit_vector);
    assert((0x80u8 | ((u >> 12) & 0x3f) as u8) != 10u8) by (bit_vector);
    let b = encode_scalar(u);
    assert forall|i: int| 0 <= i < b.len() implies b[i] != 10u8 by {}
}

/// A text on one line has no byte that is a line feed.
proof fn lemma_encode_one_line(line: Seq<char>)
    requires
        one_line(line),
    ensures
        !encode_utf8(line).contains(10u8),
    decreases line.len(),
{
    if line.len() > 0 {
        let rest = line.drop_first();
        assert(one_line(rest)) by {
            assert forall|i: int| 0 <= i < rest.len() implies rest[i] != '\n' by {
                assert(rest[i] == line[i + 1]);
            }
        }
        lemma_encode_one_line(rest);
        assert(line[0] != '\n');
        lemma_encode_char(line[0]);
        let a = encode_scalar(line[0] as u32);
        let b = encode_utf8(rest);
        assert forall|i: int| 0 <= i < (a + b).len() implies (a + b)[i] != 10u8 by {
            if i < a.len() {
                assert(a.contains(a[i]));
            } else {
                assert(b.contains(b[i - a.len()]));
            }
        }
    }
}

/// There is always a last line.
proof fn lemma_split_lines_some(bytes: Seq<u8>)
    ensures
        split_lines(bytes).len() > 0,
    decreases bytes.len(),
{
    if bytes.len() > 0 {
        lemma_split_lines_some(bytes.drop_last());
    }
}

/// Bytes that go on behind a line feed, without another, have that as their last line.
proof fn lemma_split_lines_last(bytes: Seq<u8>, line: Seq<u8>)
    requires
        bytes.len() == 0 || bytes.last() == 10,
        !line.contains(10u8),
    ensures
        split_lines(bytes + line) == split_lines(bytes).drop_last().push(line),
        split_lines(bytes).last() == Seq::<u8>::empty(),
        split_lines(bytes).len() > 0,
    decreases line.len(),
{
    lemma_split_lines_some(bytes);
    assert(split_lines(bytes).last() =~= Seq::<u8>::empty());
    if line.len() == 0 {
        assert(bytes + line =~= bytes);
        assert(line =~= Seq::<u8>::empty());
        assert(split_lines(bytes) =~= split_lines(bytes).drop_last().push(line));
    } else {
        let rest = line.drop_last();
        assert(!rest.contains(10u8)) by {
            assert forall|i: int| 0 <= i < rest.len() implies rest[i] != 10u8 by {
                assert(line.contains(line[i]));
            }
        }
        lemma_split_lines_last(bytes, rest);
        assert((bytes + line).drop_last() =~= bytes + rest);
        assert(line.contains(line.last()));
        let before = split_lines(bytes).drop_last();
        assert(before.push(rest).drop_last() =~= before);
        assert(rest.push(line.last()) =~= line);
    }
}

/// A complete text is complete as bytes.
proof fn lemma_encode_ends_line(text: Seq<char>)
    requires
        ends_line(text),
    ensures
        encode_utf8(text).len() == 0 || encode_utf8(text).last() == 10,
{
    if text.len() > 0 {
        let rest = text.drop_last();
        assert(text =~= rest + Seq::empty() + seq!['\n']);
        lemma_encode_line(rest, Seq::empty());
        assert(encode_utf8(Seq::<char>::empty()) =~= Seq::<u8>::empty());
    }
}

/// What is written is read back: a record whose line is the JSON text of a value comes back as
/// that value, behind the records that were there before. Every value that was read from JSON
/// text has such a line: its own text.
pub proof fn law_written_records_are_read_back(s: Stream, line: Seq<char>, t: JsonTree)
    requires
        ends_line(s.text),
        one_line(line),
        line.len() > 0,
        json_parsed(encode_utf8(line)) == Some(t),
    ensures
        parsed_lines(split_lines(encode_utf8(written(s, line).text))) == parsed_lines(
            split_lines(encode_utf8(s.text)),
        ).push(t),
{
    let a = encode_utf8(s.text);
    let b = encode_utf8(line);
    let whole = encode_utf8(written(s, line).text);
    lemma_encode_line(s.text, line);
    lemma_encode_one_line(line);
    lemma_encode_ends_line(s.text);
    lemma_split_lines_last(a, b);
    assert(whole =~= (a + b).push(10u8));
    assert(whole.drop_last() =~= a + b);
    let before = split_lines(a).drop_last();
    let none = Seq::<u8>::empty();
    assert(split_lines(whole) == before.push(b).push(none));
    assert(split_lines(a) =~= before.push(none));
    assert(b.len() > 0) by {
        assert(encode_scalar(line[0] as u32).len() > 0);
    }
    lemma_parsed_line(before.push(b), none);
    lemma_parsed_line(before, b);
    lemma_parsed_line(before, none);
}

/// Whether each of the values is read from its own text, which stays on one line. Every value
/// that was read from JSON text is.
pub open spec fn all_reread(values: Seq<JsonTree>) -> bool {
    forall|i: int|
        0 <= i < values.len() ==> {
            let line = json_text(#[trigger] values[i]);
            line.len() > 0 && one_line(line) && json_parsed(encode_utf8(line)) == Some(values[i])
        }
}

/// Values that were read, whatever their numbers, come back in the order in which they are
/// written, behind the records that were there before.
pub proof fn law_written_lists_are_read_back(s: Stream, values: Seq<JsonTree>)
    requires
        ends_line(s.text),
        all_reread(values),
    ensures
        ends_line(s.text + block(value_lines(values))),
        parsed_lines(split_lines(encode_utf8(s.text + block(value_lines(values)))))
            == parsed_lines(split_lines(encode_utf8(s.text))) + values,
    decreases values.len(),
{
    let text = s.text + block(value_lines(values));
    if values.len() == 0 {
        assert(text =~= s.text);
    } else {
        let rest = values.drop_last();
        let t = values[values.len() - 1];
        assert(all_reread(rest)) by {
            assert forall|i: int| 0 <= i < rest.len() implies {
                let line = json_text(#[trigger] rest[i]);
                line.len() > 0 && one_line(line) && json_parsed(encode_utf8(line)) == Some(rest[i])
            } by {
                assert(rest[i] == values[i]);
            }
        }
        law_written_lists_are_read_back(s, rest);
        assert(value_lines(values).drop_last() =~= value_lines(rest));
        let before = Stream { text: s.text + block(value_lines(rest)), ..s };
        law_written_records_are_read_back(before, json_text(t), t);
        assert(text =~= written(before, json_text(t)).text);
        let had = parsed_lines(split_lines(encode_utf8(s.text)));
        assert((had + rest).push(t) =~= had + values);
    }
}

/// Whether each line gives back the value that it is the text of.
pub open spec fn all_read_back(lines: Seq<Seq<u8>>) -> bool {
    forall|i: int|
        0 <= i < lines.len() ==> reads_back(#[trigger] lines[i], json_parsed(lines[i]))
}

/// The bytes of the texts of a list of values.
spec fn value_bytes(values: Seq<JsonTree>) -> Seq<Seq<u8>> {
    values.map_values(|t: JsonTree| encode_utf8(json_text(t)))
}

/// Values that are written line by line are what the lines hold.
proof fn lemma_split_values(values: Seq<JsonTree>)
    requires
        all_readable(values),
    ensures
        ends_line(block(value_lines(values))),
        split_lines(encode_utf8(block(value_lines(values)))) == value_bytes(values).push(
            Seq::empty(),
        ),
    decreases values.len(),
{
    let text = block(value_lines(values));
    if values.len() == 0 {
        assert(encode_utf8(text) =~= Seq::<u8>::empty());
        assert(value_bytes(values).push(Seq::empty()) =~= seq![Seq::<u8>::empty()]);
    } else {
        let rest = values.drop_last();
        let t = values[values.len() - 1];
        assert forall|i: int| 0 <= i < rest.len() implies readable(
            #[trigger] rest[i],
            depth_limit(),
        ) by {
            assert(rest[i] == values[i]);
        }
        lemma_split_values(rest);
        assert(value_lines(values).drop_last() =~= value_lines(rest));
        let before = block(value_lines(rest));
        let line = json_text(t);
        lemma_readable_text(t, depth_limit());
        let a = encode_utf8(before);
        let b = encode_utf8(line);
        lemma_encode_line(before, line);
        lemma_encode_one_line(line);
        lemma_encode_ends_line(before);
        lemma_split_lines_last(a, b);
        let whole = encode_utf8(text);
        assert(whole =~= (a + b).push(10u8));
        assert(whole.drop_last() =~= a + b);
        assert(value_bytes(rest).push(Seq::empty()).drop_last() =~= value_bytes(rest));
        assert(value_bytes(rest).push(b) =~= value_bytes(values));
    }
}

/// Lines that give back their values hold those values.
proof fn lemma_values_read_back(values: Seq<JsonTree>)
    requires
        all_readable(values),
        all_read_back(value_bytes(values)),
    ensures
        all_read_as(values, parsed_lines(value_bytes(values))),
    decreases values.len(),
{
    if values.len() > 0 {
        let rest = values.drop_last();
        let n = values.len() - 1;
        let t = values[n];
        let lines = value_bytes(values);
        assert(lines.drop_last() =~= value_bytes(rest));
        assert forall|i: int| 0 <= i < rest.len() implies readable(
            #[trigger] rest[i],
            depth_limit(),
        ) by {
            assert(rest[i] == values[i]);
        }
        assert forall|i: int| 0 <= i < value_bytes(rest).len() implies reads_back(
            #[trigger] value_bytes(rest)[i],
            json_parsed(value_bytes(rest)[i]),
        ) by {
            assert(value_bytes(rest)[i] == lines[i]);
        }
        lemma_values_read_back(rest);
        assert(reads_back(lines[n], json_parsed(lines[n])));
        let line = json_text(t);
        lemma_readable_text(t, depth_limit());
        assert(lines[n].len() > 0) by {
            assert(encode_scalar(line[0] as u32).len() > 0);
        }
        let u = json_parsed(lines[n])->0;
        assert(json_parsed(lines[n]) is Some && reads_as(t, u));
        let before = parsed_lines(value_bytes(rest));
        let read = parsed_lines(lines);
        assert(read == before.push(u));
        assert forall|i: int| 0 <= i < values.len() implies reads_as(
            #[trigger] values[i],
            read[i],
        ) by {
            if i < n {
                assert(rest[i] == values[i]);
            }
        }
    }
}

/// What one line more adds to the records.
proof fn lemma_parsed_line(lines: Seq<Seq<u8>>, line: Seq<u8>)
    ensures
        parsed_lines(lines.push(line)) == match json_parsed(line) {
            Some(t) => if line.len() > 0 {
                parsed_lines(lines).push(t)
            } else {
                parsed_lines(lines)
            },
            None => parsed_lines(lines),
        },
{
    assert(lines.push(line).drop_last() =~= lines);
}

/// Lines that are all taken may be offered ahead of the rest.
pub proof fn lemma_offered_split(s: Stream, a: Seq<Seq<char>>, b: Seq<Seq<char>>)
    requires
        taken_count(s, a) == a.len(),
    ensures
        offered_all(s, a + b) == offered_all(offered_all(s, a), b),
        taken_count(s, a + b) == a.len() + taken_count(offered_all(s, a), b),
    decreases a.len(),
{
    if a.len() == 0 {
        assert(a + b =~= b);
    } else {
        assert((a + b).drop_first() =~= a.drop_first() + b);
        lemma_offered_split(offered(s, a[0], false), a.drop_first(), b);
    }
}

// ---- The emitter ----------------------------------------------------------

/// Writes records to a stream.
pub struct Emitter {
    out: Vec<u8>,
    flushed: usize,
    budget: usize,
    used: usize,
    /// Set when the budget was exhausted and output was cut short. Proofs cannot name the field
    /// of a struct with private ones: `is_truncated` ties it to the stream.
    pub truncated: bool,
    header_written: bool,
    text: Ghost<Seq<char>>,
}

impl View for Emitter {
    type V = Stream;

    closed spec fn view(&self) -> Stream {
        Stream {
            text: self.text@,
            flushed: self.flushed as nat,
            budget: self.budget as nat,
            used: self.used as nat,
            truncated: self.truncated,
            header_written: self.header_written,
        }
    }
}

impl Emitter {
    /// The bytes kept are those of the stream's text, no token was counted that the bytes do
    /// not account for, the stream opens as it must, and its last line is complete.
    pub closed spec fn wf(&self) -> bool {
        &&& self.out@ == encode_utf8(self.text@)
        &&& self.flushed <= self.out.len()
        &&& self.used <= self.out.len()
        &&& opened(self@)
        &&& ends_line(self.text@)
    }

    /// Whatever was written, the stream opens with its header, tag and all, and its last line is
    /// complete.
    pub proof fn law_stream_is_whole(&self)
        requires
            self.wf(),
        ensures
            opened(self@),
            ends_line(self@.text),
            self@.flushed <= encode_utf8(self@.text).len(),
    {
    }

    /// An empty stream with a token budget, 0 for none.
    pub fn new(budget: usize) -> (r: Self)
        ensures
            r.wf(),
            r@ == new_stream(budget as nat),
    {
        let r = Emitter {
            out: Vec::new(),
            flushed: 0,
            budget,
            used: 0,
            truncated: false,
            header_written: false,
            text: Ghost(Seq::empty()),
        };
        assert(r.out@ =~= encode_utf8(r.text@));
        r
    }

    /// An empty stream that is read back with `into_bytes` or `into_records`.
    pub fn capturing(budget: usize) -> (r: Self)
        ensures
            r.wf(),
            r@ == new_stream(budget as nat),
    {
        Emitter::new(budget)
    }

    /// Adds a line, whatever the budget.
    fn write_line(&mut self, line: &str)
        requires
            old(self).out@ == encode_utf8(old(self).text@),
            old(self).flushed <= old(self).out.len(),
            old(self).used <= old(self).out.len(),
        ensures
            final(self)@ == written(old(self)@, line@),
            final(self).out@ == encode_utf8(final(self).text@),
            final(self).flushed <= final(self).out.len(),
            final(self).used <= final(self).out.len(),
    {
        let bytes = line.as_bytes();
        let c: usize = approx_line(bytes.len());
        proof {
            lemma_encode_line(self.text@, line@);
        }
        self.out.extend_from_slice(bytes);
        self.out.push(10);
        assert(self.out@ =~= encode_utf8(old(self).text@) + encode_utf8(line@).push(10u8));
        let total: usize = self.out.len();
        assert(self.used + c <= total);
        self.used = self.used + c;
        self.text = Ghost(self.text@ + line@ + seq!['\n']);
    }

    /// Writes the header, unless it is there. No budget holds it back.
    fn ensure_header(&mut self, markdown: bool)
        requires
            old(self).wf(),
        ensures
            final(self).wf(),
            final(self)@ == headed(old(self)@, markdown),
            final(self)@.header_written,
    {
        if self.header_written {
            return ;
        }
        let line = if markdown {
            let mut s = "<!-- smc ".to_owned();
            s.append(SMC_TAG);
            s.append(" v");
            s.append(VERSION);
            s.append(" -->");
            s
        } else {
            MetaRecord::current().to_line()
        };
        proof {
            law_header_holds_tag(markdown);
        }
        assert(line@ == header(markdown));
        self.write_line(line.as_str());
        self.header_written = true;
        proof {
            let start = header(markdown) + seq!['\n'];
            assert(self.text@ =~= start);
            assert(start.take(start.len() as int) =~= start);
            assert(opens_with(self@.text, header(markdown) + seq!['\n']));
        }
        assert(self@ =~= headed(old(self)@, markdown));
    }

    /// Offers a line: adds it where the budget has room, else marks the stream as truncated.
    fn offer(&mut self, line: &str, markdown: bool) -> (r: bool)
        requires
            old(self).wf(),
        ensures
            final(self).wf(),
            final(self)@ == offered(old(self)@, line@, markdown),
            r == taken(old(self)@, line@, markdown),
    {
        self.ensure_header(markdown);
        let c: usize = approx_line(line.as_bytes().len());
        if self.budget > 0 && (self.used > self.budget || c > self.budget - self.used) {
            self.truncated = true;
            assert(self@ =~= offered(old(self)@, line@, markdown));
            return false;
        }
        let ghost before = self@;
        self.write_line(line);
        proof {
            lemma_written_opened(before, line@);
        }
        true
    }

    /// Writes a record as one line, or reports that the budget is exhausted: then the record
    /// was not written, and the caller should stop.
    pub fn emit<T: JsonLine>(&mut self, rec: &T) -> (r: bool)
        requires
            old(self).wf(),
        ensures
            final(self).wf(),
            final(self)@ == offered(old(self)@, json_text(rec.value()), false),
            r == taken(old(self)@, json_text(rec.value()), false),
    {
        let line = rec.to_line();
        self.offer(line.as_str(), false)
    }

    /// Writes records in turn until the budget is exhausted, and says how many were written.
    pub fn emit_all<T: JsonLine>(&mut self, recs: &Vec<T>) -> (r: usize)
        requires
            old(self).wf(),
        ensures
            final(self).wf(),
            final(self)@ == offered_all(old(self)@, lines_of(recs@)),
            r == taken_count(old(self)@, lines_of(recs@)),
    {
        let ghost lines = lines_of(recs@);
        let mut i: usize = 0;
        while i < recs.len()
            invariant
                i <= recs.len(),
                self.wf(),
                lines == lines_of(recs@),
                taken_count(old(self)@, lines.take(i as int)) == i,
                self@ == offered_all(old(self)@, lines.take(i as int)),
            decreases recs.len() - i,
        {
            let ghost before = self@;
            let ghost one = lines.subrange(i as int, i + 1);
            proof {
                assert(one[0] == json_text(recs[i as int].value()));
                assert(lines.take(i + 1) =~= lines.take(i as int) + one);
                assert(lines =~= lines.take(i as int) + lines.skip(i as int));
                assert(lines.skip(i as int)[0] == json_text(recs[i as int].value()));
                lemma_offered_split(old(self)@, lines.take(i as int), one);
                lemma_offered_split(old(self)@, lines.take(i as int), lines.skip(i as int));
                reveal_with_fuel(offered_all, 2);
                reveal_with_fuel(taken_count, 2);
                assert(one.drop_first() =~= Seq::<Seq<char>>::empty());
            }
            if !self.emit(&recs[i]) {
                return i;
            }
            i = i + 1;
        }
        assert(lines.take(i as int) =~= lines);
        i
    }

    /// Writes a record whatever the budget: for a trailer that must reach its reader.
    pub fn emit_always<T: JsonLine>(&mut self, rec: &T)
        requires
            old(self).wf(),
        ensures
            final(self).wf(),
            final(self)@ == forced(old(self)@, json_text(rec.value())),
    {
        let line = rec.to_line();
        self.ensure_header(false);
        let ghost before = self@;
        self.write_line(line.as_str());
        proof {
            lemma_written_opened(before, line@);
        }
    }

    /// Writes a warning, as far as the budget has room.
    pub fn warn(&mut self, file: Option<&str>, msg: &str)
        requires
            old(self).wf(),
        ensures
            final(self).wf(),
            final(self)@ == offered(
                old(self)@,
                error_text("warning"@, opt_slice(file), msg@),
                false,
            ),
    {
        let rec = ErrorRecord::warn(file, msg);
        let _ = self.emit(&rec);
    }

    /// Writes a line as it is, in a markdown stream.
    pub fn raw(&mut self, line: &str) -> (r: bool)
        requires
            old(self).wf(),
        ensures
            final(self).wf(),
            final(self)@ == offered(old(self)@, line@, true),
            r == taken(old(self)@, line@, true),
    {
        self.offer(line, true)
    }

    /// Hands over what was written since the last flush.
    pub fn flush(&mut self) -> (r: Vec<u8>)
        requires
            old(self).wf(),
        ensures
            final(self).wf(),
            r@ == encode_utf8(old(self)@.text).skip(old(self)@.flushed as int),
            final(self)@ == (Stream {
                flushed: encode_utf8(old(self)@.text).len(),
                ..old(self)@
            }),
    {
        let mut r: Vec<u8> = Vec::new();
        let mut i: usize = self.flushed;
        while i < self.out.len()
            invariant
                self == old(self),
                self.wf(),
                self.flushed <= i <= self.out.len(),
                r@ == self.out@.subrange(self.flushed as int, i as int),
            decreases self.out.len() - i,
        {
            r.push(self.out[i]);
            assert(r@ =~= self.out@.subrange(self.flushed as int, i + 1));
            i = i + 1;
        }
        self.flushed = self.out.len();
        assert(r@ =~= encode_utf8(old(self)@.text).skip(old(self)@.flushed as int));
        r
    }

    /// Whether the budget was exhausted and output was cut short.
    pub fn is_truncated(&self) -> (r: bool)
        ensures
            r == self@.truncated,
    {
        self.truncated
    }

    /// How many tokens were counted so far.
    pub fn tokens_used(&self) -> (r: usize)
        ensures
            r == self@.used,
    {
        self.used
    }

    /// The bytes of the whole stream.
    pub fn into_bytes(self) -> (r: Vec<u8>)
        requires
            self.wf(),
        ensures
            r@ == encode_utf8(self@.text),
    {
        self.out
    }

    /// The records of the whole stream, read back: of a stream that holds the texts of values
    /// which can be read back, those values.
    pub fn into_records(self) -> (r: Vec<Json>)
        requires
            self.wf(),
        ensures
            trees(r@) == parsed_lines(split_lines(encode_utf8(self@.text))),
            forall|values: Seq<JsonTree>|
                all_readable(values) && self@.text == block(#[trigger] value_lines(values))
                    ==> all_read_as(values, trees(r@)),
    {
        let ghost text = self@.text;
        let bytes = self.into_bytes();
        let mut r: Vec<Json> = Vec::new();
        let mut cur: Vec<u8> = Vec::new();
        let ghost mut done: Seq<Seq<u8>> = Seq::empty();
        let mut i: usize = 0;
        assert(bytes@.take(0) =~= Seq::<u8>::empty());
        assert(split_lines(bytes@.take(0)) =~= done.push(cur@));
        assert(trees(r@) =~= parsed_lines(done));
        while i < bytes.len()
            invariant
                i <= bytes.len(),
                split_lines(bytes@.take(i as int)) == done.push(cur@),
                trees(r@) == parsed_lines(done),
                all_read_back(done),
            decreases bytes.len() - i,
        {
            let b: u8 = bytes[i];
            let ghost next = bytes@.take(i + 1);
            assert(next.drop_last() =~= bytes@.take(i as int));
            assert(done.push(cur@).drop_last() =~= done);
            if b == 10 {
                push_record(&mut r, &cur, Ghost(done));
                proof {
                    done = done.push(cur@);
                }
                cur = Vec::new();
                assert(split_lines(next) =~= done.push(cur@));
            } else {
                cur.push(b);
                assert(split_lines(next) =~= done.push(cur@));
            }
            i = i + 1;
        }
        assert(bytes@.take(i as int) =~= bytes@);
        push_record(&mut r, &cur, Ghost(done));
        proof {
            let lines = done.push(cur@);
            assert forall|values: Seq<JsonTree>|
                all_readable(values) && text == block(
                    #[trigger] value_lines(values),
                ) implies all_read_as(values, trees(r@)) by {
                lemma_split_values(values);
                assert(value_bytes(values) =~= done) by {
                    assert(value_bytes(values).push(Seq::empty()).drop_last() =~= value_bytes(
                        values,
                    ));
                    assert(lines.drop_last() =~= done);
                }
                assert(lines.last() == Seq::<u8>::empty());
                lemma_parsed_line(done, cur@);
                lemma_values_read_back(values);
            }
        }
        r
    }
}

/// Adds what a line holds, if it holds anything.
fn push_record(r: &mut Vec<Json>, line: &Vec<u8>, Ghost(done): Ghost<Seq<Seq<u8>>>)
    requires
        trees(old(r)@) == parsed_lines(done),
    ensures
        trees(final(r)@) == parsed_lines(done.push(line@)),
        reads_back(line@, json_parsed(line@)),
{
    assert(done.push(line@).drop_last() =~= done);
    if line.len() > 0 {
        match Json::parse(line.as_slice()) {
            Some(v) => {
                r.push(v);
                assert(trees(r@) =~= parsed_lines(done).push(v@));
            },
            None => {},
        }
    } else {
        assert forall|t: JsonTree|
            readable(t, depth_limit()) && encode_utf8(#[trigger] json_text(t))
                == line@ implies false by {
            lemma_readable_text(t, depth_limit());
            assert(encode_scalar(json_text(t)[0] as u32).len() > 0);
        }
    }
}

} // verus!
