//! Bounds on ISO-8601 timestamps, which sort as text.
use vstd::prelude::*;
use vstd::string::*;
use vstd::utf8::*;

use crate::order::lex_lt;
use crate::output::emit::lemma_encode_concat;
use crate::text::{codes, lemma_char_codes, text_lt};

verus! {

broadcast use {vstd::seq::group_seq_axioms, vstd::string::group_string_axioms};

/// Whether a bound names a day only: ten bytes, with hyphens where a date has them.
pub open spec fn is_bare_day(b: Seq<char>) -> bool {
    let bytes = encode_utf8(b);
    bytes.len() == 10 && bytes[4] == 45 && bytes[7] == 45
}

/// The upper bound that a text stands for: a bare day stands for its end.
pub open spec fn upper_bound(b: Seq<char>) -> Seq<char> {
    if is_bare_day(b) {
        b + "T~"@
    } else {
        b
    }
}

/// Makes an upper bound that names a day cover that whole day. A bare date sorts before every
/// timestamp of its day; with `T~` behind it, it sorts after, since `~` comes after every
/// character of a timestamp.
pub fn normalize_before(b: String) -> (r: String)
    ensures
        r@ == upper_bound(b@),
{
    let bytes = b.as_str().as_bytes();
    if bytes.len() == 10 && bytes[4] == 45 && bytes[7] == 45 {
        let mut r = b.clone();
        r.append("T~");
        r
    } else {
        b
    }
}

/// A common start does not change the order.
proof fn lemma_common_prefix(p: Seq<u64>, a: Seq<u64>, b: Seq<u64>)
    ensures
        lex_lt(p + a, p + b) == lex_lt(a, b),
    decreases p.len(),
{
    if p.len() == 0 {
        assert(p + a =~= a);
        assert(p + b =~= b);
    } else {
        assert((p + a).drop_first() =~= p.drop_first() + a);
        assert((p + b).drop_first() =~= p.drop_first() + b);
        lemma_common_prefix(p.drop_first(), a, b);
    }
}

/// What sorts after a text that it does not begin with sorts after every longer one too.
proof fn lemma_beyond(d: Seq<u64>, rest: Seq<u64>, t: Seq<u64>)
    requires
        lex_lt(d, t),
        d.len() > t.len() || t.take(d.len() as int) != d,
    ensures
        lex_lt(d + rest, t),
    decreases d.len(),
{
    if d.len() == 0 {
        assert(t.take(0) =~= d);
    } else if d[0] == t[0] {
        assert((d + rest).drop_first() =~= d.drop_first() + rest);
        if d.len() <= t.len() && t.drop_first().take(d.len() - 1) == d.drop_first() {
            assert(t.take(d.len() as int) =~= seq![t[0]] + t.drop_first().take(d.len() - 1));
            assert(d =~= seq![d[0]] + d.drop_first());
        }
        lemma_beyond(d.drop_first(), rest, t.drop_first());
    }
}

/// A bare day as an upper bound lets through every timestamp of that day: one that goes on
/// with `T` and then a character that sorts before `~`, or nothing.
pub proof fn law_before_covers_the_day(day: Seq<char>, rest: Seq<char>)
    requires
        is_bare_day(day),
        rest.len() > 0 ==> rest[0] < '~',
    ensures
        text_lt(day + "T"@ + rest, upper_bound(day)),
        !text_lt(upper_bound(day), day + "T"@ + rest),
{
    reveal_strlit("T");
    reveal_strlit("T~");
    let p = codes(day + "T"@);
    let r = codes(rest);
    let e = codes(seq!['~']);
    assert(codes(day + "T"@ + rest) =~= p + r);
    assert(upper_bound(day) =~= day + "T"@ + seq!['~']);
    assert(codes(upper_bound(day)) =~= p + e);
    lemma_common_prefix(p, r, e);
    lemma_common_prefix(p, e, r);
    assert(e[0] == '~' as u64);
    if rest.len() > 0 {
        assert(r[0] == rest[0] as u64);
        lemma_char_codes(rest[0], '~');
    }
}

/// A bare day as an upper bound keeps out every timestamp of a later day: one that sorts after
/// the day and does not begin with it.
pub proof fn law_before_keeps_later_days_out(day: Seq<char>, ts: Seq<char>)
    requires
        is_bare_day(day),
        text_lt(day, ts),
        !(day.len() <= ts.len() && ts.take(day.len() as int) == day),
    ensures
        text_lt(upper_bound(day), ts),
{
    let rest = codes("T~"@);
    assert(codes(upper_bound(day)) =~= codes(day) + rest);
    if day.len() <= ts.len() && codes(ts).take(day.len() as int) == codes(day) {
        assert forall|i: int| 0 <= i < day.len() implies ts[i] == day[i] by {
            assert(codes(ts).take(day.len() as int)[i] == codes(day)[i]);
            lemma_char_codes(ts[i], day[i]);
        }
        assert(ts.take(day.len() as int) =~= day);
    }
    lemma_beyond(codes(day), rest, codes(ts));
}

/// An upper bound stands for itself: making it cover its day a second time changes nothing.
pub proof fn law_bound_is_settled(b: Seq<char>)
    ensures
        upper_bound(upper_bound(b)) == upper_bound(b),
{
    if is_bare_day(b) {
        reveal_strlit("T~");
        let t = "T~"@;
        assert(is_ascii_chars(t));
        is_ascii_chars_encode_utf8(t);
        lemma_encode_concat(b, t);
    }
}

/// A bound in ASCII names a day only exactly where it has ten characters and hyphens where a
/// date has them; any other bound stands for itself.
pub proof fn law_days_have_ten_characters(b: Seq<char>)
    requires
        is_ascii_chars(b),
    ensures
        is_bare_day(b) <==> b.len() == 10 && b[4] == '-' && b[7] == '-',
        !is_bare_day(b) ==> upper_bound(b) == b,
{
    is_ascii_chars_encode_utf8(b);
    if b.len() == 10 {
        assert(encode_utf8(b)[4] == b[4] as u8 && encode_utf8(b)[7] == b[7] as u8);
        assert(b[4] as u32 <= 127 && b[7] as u32 <= 127);
    }
}

} // verus!
