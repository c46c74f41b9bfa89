//! What a stream holds after a run of calls.
use vstd::prelude::*;
use vstd::string::*;
use vstd::utf8::*;

use super::emit::{
    all_read_as, all_readable, block, forced, headed, header, header_value, law_header_holds_tag,
    law_no_budget_takes_all, new_stream, offered, offered_all, taken, taken_count, value_lines,
    Stream,
};
use super::records::{law_headers_are_readable, SMC_TAG, VERSION};
use crate::json::{
    depth_limit, json_text, law_members_are_read_back, member, readable, reads_as, JsonTree,
};
use crate::text::contains_text;

verus! {

broadcast use {vstd::seq::group_seq_axioms, vstd::string::group_string_axioms};

/// A call that adds to a stream.
pub enum Call {
    /// A record that is emitted, of this text. A warning is one.
    Emit(Seq<char>),
    /// A record that is emitted whatever the budget.
    Always(Seq<char>),
    /// A line that is written as it is.
    Raw(Seq<char>),
}

/// The line that a call is to add.
pub open spec fn line_of(c: Call) -> Seq<char> {
    match c {
        Call::Emit(line) => line,
        Call::Always(line) => line,
        Call::Raw(line) => line,
    }
}

/// The stream after a call.
pub open spec fn called(s: Stream, c: Call) -> Stream {
    match c {
        Call::Emit(line) => offered(s, line, false),
        Call::Always(line) => forced(s, line),
        Call::Raw(line) => offered(s, line, true),
    }
}

/// Whether a call adds its line.
pub open spec fn accepted(s: Stream, c: Call) -> bool {
    match c {
        Call::Emit(line) => taken(s, line, false),
        Call::Always(_) => true,
        Call::Raw(line) => taken(s, line, true),
    }
}

/// The stream after a run of calls.
pub open spec fn called_all(s: Stream, calls: Seq<Call>) -> Stream
    decreases calls.len(),
{
    if calls.len() == 0 {
        s
    } else {
        called(called_all(s, calls.drop_last()), calls.last())
    }
}

/// The lines that a run of calls adds.
pub open spec fn accepted_lines(s: Stream, calls: Seq<Call>) -> Seq<Seq<char>>
    decreases calls.len(),
{
    if calls.len() == 0 {
        Seq::empty()
    } else {
        let before = accepted_lines(s, calls.drop_last());
        if accepted(called_all(s, calls.drop_last()), calls.last()) {
            before.push(line_of(calls.last()))
        } else {
            before
        }
    }
}

/// Of the values that a run of calls writes, those whose lines it adds.
pub open spec fn accepted_values(s: Stream, calls: Seq<Call>, values: Seq<JsonTree>) -> Seq<
    JsonTree,
>
    decreases calls.len(),
{
    if calls.len() == 0 {
        Seq::empty()
    } else {
        let before = accepted_values(s, calls.drop_last(), values.drop_last());
        if accepted(called_all(s, calls.drop_last()), calls.last()) {
            before.push(values.last())
        } else {
            before
        }
    }
}

/// Whether each of the calls writes the value at its place as a record.
pub open spec fn write_values(calls: Seq<Call>, values: Seq<JsonTree>) -> bool {
    &&& calls.len() == values.len()
    &&& forall|i: int|
        0 <= i < calls.len() ==> !(#[trigger] calls[i] is Raw) && line_of(calls[i]) == json_text(
            values[i],
        )
}

/// What one line more adds to a block.
proof fn lemma_block_push(lines: Seq<Seq<char>>, line: Seq<char>)
    ensures
        block(lines.push(line)) == block(lines) + line + seq!['\n'],
{
    assert(lines.push(line).drop_last() =~= lines);
}

/// Whatever is written, in whatever order and within whatever budget, the stream is one header,
/// with the tag, and behind it the lines that were not refused, each whole. The header is there
/// even if everything else was refused. It is a comment where the first line was written as it
/// is, else a record.
pub proof fn law_header_comes_first_and_once(budget: nat, calls: Seq<Call>)
    requires
        calls.len() > 0,
    ensures
        ({
            let s = called_all(new_stream(budget), calls);
            let markdown = calls[0] is Raw;
            &&& s.header_written
            &&& s.text == block(
                seq![header(markdown)] + accepted_lines(new_stream(budget), calls),
            )
            &&& contains_text(header(markdown), SMC_TAG@)
        }),
    decreases calls.len(),
{
    let new = new_stream(budget);
    let rest = calls.drop_last();
    let h = header(calls[0] is Raw);
    let lines = accepted_lines(new, rest);
    let line = line_of(calls.last());
    law_header_holds_tag(calls[0] is Raw);
    lemma_block_push(seq![h] + lines, line);
    assert((seq![h] + lines).push(line) =~= seq![h] + lines.push(line));
    if rest.len() > 0 {
        law_header_comes_first_and_once(budget, rest);
        assert(rest[0] == calls[0]);
    } else {
        assert(calls.last() == calls[0]);
        lemma_block_push(Seq::empty(), h);
        assert(Seq::<Seq<char>>::empty().push(h) =~= seq![h] + lines);
        assert(Seq::<char>::empty() + h =~= h);
        assert(block(Seq::empty()) =~= Seq::<char>::empty());
    }
}

/// A stream that values are written to as records holds the texts of a header and of the values
/// that were not refused, so that these are what is read back from it. Without a budget none is
/// refused.
pub proof fn law_written_values_make_the_stream(
    budget: nat,
    calls: Seq<Call>,
    values: Seq<JsonTree>,
)
    requires
        calls.len() > 0,
        write_values(calls, values),
        all_readable(values),
    ensures
        ({
            let kept = accepted_values(new_stream(budget), calls, values);
            let all = seq![header_value()] + kept;
            &&& called_all(new_stream(budget), calls).text == block(value_lines(all))
            &&& all_readable(all)
            &&& budget == 0 ==> kept == values
        }),
{
    let new = new_stream(budget);
    let kept = accepted_values(new, calls, values);
    let all = seq![header_value()] + kept;
    law_header_comes_first_and_once(budget, calls);
    lemma_accepted_values(budget, calls, values);
    assert(!(calls[0] is Raw));
    assert(value_lines(all) =~= seq![header(false)] + accepted_lines(new, calls));
    law_headers_are_readable("meta"@, "smc"@, SMC_TAG@, VERSION@);
    assert forall|i: int| 0 <= i < all.len() implies readable(
        #[trigger] all[i],
        depth_limit(),
    ) by {
        if i > 0 {
            assert(all[i] == kept[i - 1]);
        }
    }
}

/// The values that are not refused have the lines that are not refused.
proof fn lemma_accepted_values(budget: nat, calls: Seq<Call>, values: Seq<JsonTree>)
    requires
        write_values(calls, values),
        all_readable(values),
    ensures
        ({
            let new = new_stream(budget);
            let kept = accepted_values(new, calls, values);
            &&& value_lines(kept) == accepted_lines(new, calls)
            &&& all_readable(kept)
            &&& called_all(new, calls).budget == budget
            &&& budget == 0 ==> kept == values
        }),
    decreases calls.len(),
{
    let new = new_stream(budget);
    let kept = accepted_values(new, calls, values);
    if calls.len() == 0 {
        assert(value_lines(kept) =~= accepted_lines(new, calls));
        assert(kept =~= values);
    } else {
        let (cs, vs) = (calls.drop_last(), values.drop_last());
        let n = calls.len() - 1;
        assert(write_values(cs, vs)) by {
            assert forall|i: int| 0 <= i < cs.len() implies !(#[trigger] cs[i] is Raw) && line_of(
                cs[i],
            ) == json_text(vs[i]) by {
                assert(cs[i] == calls[i]);
            }
        }
        assert forall|i: int| 0 <= i < vs.len() implies readable(
            #[trigger] vs[i],
            depth_limit(),
        ) by {
            assert(vs[i] == values[i]);
        }
        lemma_accepted_values(budget, cs, vs);
        let before = accepted_values(new, cs, vs);
        assert(!(calls[n] is Raw) && line_of(calls[n]) == json_text(values[n]));
        assert(readable(values[n], depth_limit()));
        assert(value_lines(before.push(values[n])) =~= value_lines(before).push(
            json_text(values[n]),
        ));
        assert(vs.push(values[n]) =~= values);
    }
}

/// What is read back from such a stream: first the header, which says what it is and holds the
/// tag, and then the values that were written, one by one.
pub proof fn law_values_are_read_back_behind_the_header(
    values: Seq<JsonTree>,
    read: Seq<JsonTree>,
)
    requires
        all_read_as(seq![header_value()] + values, read),
    ensures
        read.len() == values.len() + 1,
        member(read[0], "type"@) == Some(JsonTree::Str("meta"@)),
        member(read[0], "tag"@) == Some(JsonTree::Str(SMC_TAG@)),
        forall|i: int| 0 <= i < values.len() ==> reads_as(#[trigger] values[i], read[i + 1]),
{
    let all = seq![header_value()] + values;
    let h = header_value();
    assert(reads_as(all[0], read[0]));
    law_headers_are_readable("meta"@, "smc"@, SMC_TAG@, VERSION@);
    law_members_are_read_back(h, read[0], "type"@);
    law_members_are_read_back(h, read[0], "tag"@);
    assert(member(h, "type"@) == Some(JsonTree::Str("meta"@)) && member(h, "tag"@) == Some(
        JsonTree::Str(SMC_TAG@),
    )) by {
        reveal_strlit("type");
        reveal_strlit("tool");
        reveal_strlit("tag");
        let m = h->Object_0;
        assert(m[0].0 == "type"@ && m[1].0 == "tool"@ && m[2].0 == "tag"@);
        assert(m.drop_first()[0] == m[1]);
        assert(m.drop_first().drop_first()[0] == m[2]);
        reveal_with_fuel(crate::json::entry_named, 4);
    }
    assert forall|i: int| 0 <= i < values.len() implies reads_as(
        #[trigger] values[i],
        read[i + 1],
    ) by {
        assert(all[i + 1] == values[i]);
    }
}

/// The lines of a list that are offered: up to the first that is refused.
pub open spec fn offers(s: Stream, lines: Seq<Seq<char>>) -> Seq<Seq<char>> {
    let n = taken_count(s, lines);
    if n < lines.len() {
        lines.take((n + 1) as int)
    } else {
        lines
    }
}

/// Lines that are emitted as records.
pub open spec fn emits(lines: Seq<Seq<char>>) -> Seq<Call> {
    lines.map_values(|line: Seq<char>| Call::Emit(line))
}

/// A run of calls may be cut in two.
proof fn lemma_called_in_parts(s: Stream, a: Seq<Call>, b: Seq<Call>)
    ensures
        called_all(s, a + b) == called_all(called_all(s, a), b),
    decreases b.len(),
{
    if b.len() == 0 {
        assert(a + b =~= a);
    } else {
        assert((a + b).drop_last() =~= a + b.drop_last());
        lemma_called_in_parts(s, a, b.drop_last());
    }
}

/// To write a list of records is to emit each of them in turn, up to the first that is refused.
pub proof fn law_lists_are_emitted_in_turn(s: Stream, lines: Seq<Seq<char>>)
    ensures
        offered_all(s, lines) == called_all(s, emits(offers(s, lines))),
    decreases lines.len(),
{
    let calls = emits(offers(s, lines));
    if lines.len() == 0 {
        assert(calls =~= Seq::empty());
    } else {
        let first = seq![Call::Emit(lines[0])];
        let next = offered(s, lines[0], false);
        let rest = lines.drop_first();
        assert(called_all(s, first) == next) by {
            assert(first.drop_last() =~= Seq::empty());
            reveal_with_fuel(called_all, 2);
        }
        if taken(s, lines[0], false) {
            law_lists_are_emitted_in_turn(next, rest);
            assert(calls =~= first + emits(offers(next, rest)));
            lemma_called_in_parts(s, first, emits(offers(next, rest)));
        } else {
            assert(calls =~= first);
        }
    }
}

/// A block begins with its first line.
proof fn lemma_block_front(line: Seq<char>, lines: Seq<Seq<char>>)
    ensures
        block(seq![line] + lines) == line + seq!['\n'] + block(lines),
    decreases lines.len(),
{
    let all = seq![line] + lines;
    if lines.len() == 0 {
        assert(all.drop_last() =~= Seq::empty());
        assert(all.last() == line);
        assert(block(all.drop_last()) =~= Seq::empty());
        assert(block(all) =~= line + seq!['\n'] + block(lines));
    } else {
        let rest = lines.drop_last();
        lemma_block_front(line, rest);
        assert(all.drop_last() =~= seq![line] + rest);
        assert(block(all) =~= line + seq!['\n'] + block(lines));
    }
}

/// What is written of a list behind the header: the lines up to the first that is refused.
proof fn lemma_offered_text(s: Stream, lines: Seq<Seq<char>>)
    requires
        s.header_written,
    ensures
        taken_count(s, lines) <= lines.len(),
        offered_all(s, lines).header_written,
        offered_all(s, lines).text == s.text + block(lines.take(taken_count(s, lines) as int)),
    decreases lines.len(),
{
    let n = taken_count(s, lines);
    if lines.len() == 0 || !taken(s, lines[0], false) {
        assert(lines.take(0) =~= Seq::empty());
        assert(s.text + block(lines.take(0)) =~= s.text);
    } else {
        let next = offered(s, lines[0], false);
        let rest = lines.drop_first();
        lemma_offered_text(next, rest);
        assert(lines.take(n as int) =~= seq![lines[0]] + rest.take(n - 1));
        lemma_block_front(lines[0], rest.take(n - 1));
        assert(next.text + block(rest.take(n - 1)) =~= s.text + block(lines.take(n as int)));
    }
}

/// What a command writes that lists records and ends with another, whatever the budget: a
/// header, the records up to the first that is refused, and the last one.
pub proof fn law_listings_are_written_in_order(
    budget: nat,
    values: Seq<JsonTree>,
    last: JsonTree,
)
    ensures
        ({
            let new = new_stream(budget);
            let lines = value_lines(values);
            let n = taken_count(new, lines) as int;
            let all = seq![header_value()] + values.take(n) + seq![last];
            &&& n <= values.len()
            &&& budget == 0 ==> n == values.len()
            &&& forced(offered_all(new, lines), json_text(last)).text == block(value_lines(all))
        }),
{
    let new = new_stream(budget);
    let lines = value_lines(values);
    let n = taken_count(new, lines) as int;
    let s = headed(new, false);
    if lines.len() > 0 {
        assert(offered_all(new, lines) == offered_all(s, lines));
        assert(taken_count(new, lines) == taken_count(s, lines));
    }
    lemma_offered_text(s, lines);
    if budget == 0 {
        law_no_budget_takes_all(new, lines);
    }
    let kept = values.take(n);
    let h = header(false);
    let shown = lines.take(n);
    assert(value_lines(kept) =~= shown);
    lemma_block_front(h, shown);
    lemma_block_push(seq![h] + shown, json_text(last));
    let all = seq![header_value()] + kept + seq![last];
    assert(value_lines(all) =~= (seq![h] + shown).push(json_text(last)));
    assert(s.text =~= h + seq!['\n']);
    if lines.len() == 0 {
        assert(block(shown) =~= Seq::empty());
        assert(s.text + block(shown) =~= s.text);
    }
}

/// Where the records can be read back, so can all that such a command writes.
pub proof fn law_listings_can_be_read_back(
    budget: nat,
    values: Seq<JsonTree>,
    last: JsonTree,
)
    requires
        all_readable(values),
        readable(last, depth_limit()),
    ensures
        ({
            let new = new_stream(budget);
            let lines = value_lines(values);
            let n = taken_count(new, lines) as int;
            let all = seq![header_value()] + values.take(n) + seq![last];
            &&& n <= values.len()
            &&& budget == 0 ==> n == values.len()
            &&& forced(offered_all(new, lines), json_text(last)).text == block(value_lines(all))
            &&& all_readable(all)
        }),
{
    law_listings_are_written_in_order(budget, values, last);
    let n = taken_count(new_stream(budget), value_lines(values)) as int;
    let all = seq![header_value()] + values.take(n) + seq![last];
    law_headers_are_readable("meta"@, "smc"@, SMC_TAG@, VERSION@);
    assert forall|i: int| 0 <= i < all.len() implies readable(
        #[trigger] all[i],
        depth_limit(),
    ) by {
        if 0 < i < all.len() - 1 {
            assert(all[i] == values[i - 1]);
        }
    }
}

/// What lines cost together: for each of them four bytes to the token, and one more.
pub open spec fn total_cost(lines: Seq<Seq<char>>) -> nat
    decreases lines.len(),
{
    if lines.len() == 0 {
        0
    } else {
        total_cost(lines.drop_last()) + encode_utf8(lines.last()).len() / 4 + 1
    }
}

/// The tokens counted are those of the lines that the stream holds, the header as well, and
/// those refused do not count.
pub proof fn law_tokens_are_those_of_the_lines(budget: nat, calls: Seq<Call>)
    requires
        calls.len() > 0,
    ensures
        called_all(new_stream(budget), calls).used == total_cost(
            seq![header(calls[0] is Raw)] + accepted_lines(new_stream(budget), calls),
        ),
        called_all(new_stream(budget), calls).budget == budget,
    decreases calls.len(),
{
    let new = new_stream(budget);
    let rest = calls.drop_last();
    let h = header(calls[0] is Raw);
    let lines = accepted_lines(new, rest);
    let line = line_of(calls.last());
    assert((seq![h] + lines).push(line) =~= seq![h] + lines.push(line));
    let all = seq![h] + lines;
    assert(all.push(line).drop_last() =~= all);
    assert(total_cost(all.push(line)) == total_cost(all) + encode_utf8(line).len() / 4 + 1);
    if rest.len() > 0 {
        law_tokens_are_those_of_the_lines(budget, rest);
        law_header_comes_first_and_once(budget, rest);
        assert(rest[0] == calls[0]);
    } else {
        assert(calls.last() == calls[0]);
        assert(lines =~= Seq::empty());
        assert(all =~= seq![h]);
        assert(all.drop_last() =~= Seq::empty());
        assert(all.last() == h);
        assert(total_cost(all.drop_last()) == 0);
        assert(total_cost(all) == encode_utf8(h).len() / 4 + 1);
        assert(called_all(new, rest) == new);
    }
}

/// A record is taken exactly where the budget has room for it behind what was counted, the
/// header first of all; without a budget always. What is taken leaves the mark as it was, and
/// what is refused sets it.
pub proof fn law_records_are_taken_where_there_is_room(s: Stream, line: Seq<char>, markdown: bool)
    ensures
        ({
            let cost = encode_utf8(line).len() / 4 + 1;
            let before = if s.header_written {
                s.used
            } else {
                s.used + encode_utf8(header(markdown)).len() / 4 + 1
            };
            let after = offered(s, line, markdown);
            &&& taken(s, line, markdown) <==> s.budget == 0 || before + cost <= s.budget
            &&& taken(s, line, markdown) ==> after.used == before + cost && after.truncated
                == s.truncated
            &&& !taken(s, line, markdown) ==> after.used == before && after.truncated
            &&& after.header_written && after.budget == s.budget && after.flushed == s.flushed
        }),
        ({
            let cost = encode_utf8(line).len() / 4 + 1;
            let before = if s.header_written {
                s.used
            } else {
                s.used + encode_utf8(header(false)).len() / 4 + 1
            };
            forced(s, line).used == before + cost && forced(s, line).truncated == s.truncated
        }),
{
}

} // verus!
