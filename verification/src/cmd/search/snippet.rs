//! Snippets: the part of a message around a match.
use vstd::prelude::*;
use vstd::string::*;

use crate::text::{contains_text, push_chars, stands_at};

verus! {

broadcast use {vstd::seq::group_seq_axioms, vstd::string::group_string_axioms};

/// Stands for what a snippet leaves out.
pub const ELLIPSIS: char = '…';

/// Where a window of `max` characters begins that is centred on position `at` of a longer text,
/// as far as the text reaches.
pub open spec fn window_start(len: int, at: int, max: int) -> int {
    let centred = if at > max / 2 {
        at - max / 2
    } else {
        0
    };
    if centred + max > len {
        len - max
    } else {
        centred
    }
}

/// The mark where something is left out, else nothing.
pub open spec fn mark(left_out: bool) -> Seq<char> {
    if left_out {
        seq![ELLIPSIS]
    } else {
        Seq::empty()
    }
}

/// The snippet of at most `max` characters around position `at`, with marks where the text goes
/// on. The whole text where it is no longer than that, or where `max` is 0.
pub open spec fn snippet(text: Seq<char>, at: int, max: int) -> Seq<char> {
    if max == 0 || text.len() <= max {
        text
    } else {
        let start = window_start(text.len() as int, at, max);
        let end = start + max;
        mark(start > 0) + text.subrange(start, end) + mark(end < text.len())
    }
}

/// Cuts the snippet of at most `max_chars` characters around `match_pos`. It counts
/// characters, so it never splits one.
pub fn make_snippet(chars: &[char], match_pos: usize, max_chars: usize) -> (r: String)
    ensures
        r@ == snippet(chars@, match_pos as int, max_chars as int),
{
    let mut s = String::new();
    if max_chars == 0 || chars.len() <= max_chars {
        push_chars(&mut s, chars, 0, chars.len());
        assert(s@ =~= chars@);
        return s;
    }
    let half: usize = max_chars / 2;
    let mut start: usize = match_pos.saturating_sub(half);
    if start > chars.len() - max_chars {
        start = chars.len() - max_chars;
    }
    let end: usize = start + max_chars;
    if start > 0 {
        s.push(ELLIPSIS);
    }
    assert(s@ =~= mark(start > 0));
    push_chars(&mut s, chars, start, end);
    if end < chars.len() {
        s.push(ELLIPSIS);
    }
    assert(s@ =~= snippet(chars@, match_pos as int, max_chars as int));
    s
}

/// A snippet is the whole text, or holds as many of its characters as asked for and two marks
/// at most.
pub proof fn law_snippet_is_bounded(text: Seq<char>, at: int, max: int)
    requires
        0 <= at,
        0 < max,
    ensures
        snippet(text, at, max) == text || max <= snippet(text, at, max).len() <= max + 2,
        snippet(text, at, max).len() <= max + 2,
{
}

/// A snippet shows what it is centred on: a stretch of the text that begins at `at` stands in
/// it whole, as long as it takes up no more than the latter half of the window.
pub proof fn law_snippet_shows_the_match(text: Seq<char>, at: int, len: int, max: int)
    requires
        0 <= at,
        0 <= len,
        at + len <= text.len(),
        max == 0 || len <= max - max / 2,
        0 <= max,
    ensures
        contains_text(snippet(text, at, max), text.subrange(at, at + len)),
{
    let needle = text.subrange(at, at + len);
    let s = snippet(text, at, max);
    if max == 0 || text.len() <= max {
        assert(stands_at(s, needle, at));
    } else {
        let start = window_start(text.len() as int, at, max);
        let p = mark(start > 0).len() + (at - start);
        assert(start <= at && at + len <= start + max);
        assert(s.subrange(p, p + len) =~= needle);
        assert(stands_at(s, needle, p));
    }
}

/// A snippet without its marks is a stretch of the text: nothing is made up, and a mark says
/// exactly that something was left out on its side.
pub proof fn law_snippet_is_a_stretch(text: Seq<char>, at: int, max: int)
    requires
        0 <= at,
        0 < max < text.len(),
    ensures
        ({
            let start = window_start(text.len() as int, at, max);
            &&& 0 <= start
            &&& start + max <= text.len()
            &&& snippet(text, at, max) == mark(start > 0) + text.subrange(start, start + max) + mark(
                start + max < text.len(),
            )
        }),
{
}

/// A snippet is centred on the match: half of it stands before, as far as the text reaches on
/// both sides. A text that is short enough is shown whole.
pub proof fn law_snippet_is_centred(text: Seq<char>, at: int, max: int, start: int)
    requires
        0 <= at,
        0 <= max,
        0 < max < text.len() ==> start == if at - max / 2 < 0 {
            0
        } else if at - max / 2 > text.len() - max {
            text.len() - max
        } else {
            at - max / 2
        },
    ensures
        max == 0 || text.len() <= max ==> snippet(text, at, max) == text,
        0 < max < text.len() ==> snippet(text, at, max) == (if start > 0 {
            seq!['…']
        } else {
            Seq::empty()
        }) + text.subrange(start, start + max) + (if start + max < text.len() {
            seq!['…']
        } else {
            Seq::empty()
        }),
{
}

} // verus!
