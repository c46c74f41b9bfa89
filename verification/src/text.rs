//! Text primitives: character access, joining, searching, counting and ordering.
use vstd::prelude::*;
use vstd::string::*;

use crate::order::{lex_less, lex_lt};

verus! {

broadcast use {vstd::seq::group_seq_axioms, vstd::string::group_string_axioms};

// ---- Outside functions ----------------------------------------------------

/// `String::push`: appends one character.
pub assume_specification[ String::push ](s: &mut String, c: char)
    ensures
        final(s)@ == old(s)@.push(c),
;

/// What `char::to_lowercase` yields: its first character, and those behind it.
pub uninterp spec fn lower_parts(c: char) -> (char, Seq<char>);

/// Collects what `char::to_lowercase` yields: one character or more, by the character alone.
/// How `str::to_lowercase` goes together with it is not said here.
#[verifier::external_body]
fn lower_chars(c: char) -> (r: Vec<char>)
    ensures
        r@ == seq![lower_parts(c).0] + lower_parts(c).1,
{
    c.to_lowercase().collect()
}

/// What `str::to_lowercase` makes of a text.
pub uninterp spec fn lowercase(s: Seq<char>) -> Seq<char>;

/// Calls `str::to_lowercase`, whose result depends on the text alone (Unicode's default
/// lower-casing, the same in every locale).
#[verifier::external_body]
pub(crate) fn to_lowercase(s: &str) -> (r: String)
    ensures
        r@ == lowercase(s@),
{
    s.to_lowercase()
}

/// Whether a character is whitespace: the Unicode property White_Space.
pub open spec fn whitespace(c: char) -> bool {
    ||| '\u{9}' <= c <= '\u{d}'
    ||| c == ' '
    ||| c == '\u{85}'
    ||| c == '\u{a0}'
    ||| c == '\u{1680}'
    ||| '\u{2000}' <= c <= '\u{200a}'
    ||| c == '\u{2028}'
    ||| c == '\u{2029}'
    ||| c == '\u{202f}'
    ||| c == '\u{205f}'
    ||| c == '\u{3000}'
}

/// Calls `char::is_whitespace`: the Unicode property White_Space, which the character alone
/// decides.
#[verifier::external_body]
pub(crate) fn is_whitespace(c: char) -> (r: bool)
    ensures
        r == whitespace(c),
{
    c.is_whitespace()
}

// ---- Views of lists -------------------------------------------------------

/// The texts of a list of strings.
pub open spec fn texts(parts: Seq<String>) -> Seq<Seq<char>> {
    parts.map_values(|s: String| s@)
}

/// The text of an optional string.
pub open spec fn opt_text(o: Option<String>) -> Option<Seq<char>> {
    match o {
        Some(s) => Some(s@),
        None => None,
    }
}

// ---- Characters -----------------------------------------------------------

/// The characters of `s`.
pub fn to_chars(s: &str) -> (r: Vec<char>)
    ensures
        r@ == s@,
{
    let mut r: Vec<char> = Vec::new();
    for c in it: s.chars()
        invariant
            it.seq() == s@,
            r@ == s@.take(it.index() as int),
    {
        r.push(c);
    }
    assert(s@.take(s@.len() as int) =~= s@);
    r
}

/// Appends `chars[from..to]` to `out`.
pub fn push_chars(out: &mut String, chars: &[char], from: usize, to: usize)
    requires
        from <= to <= chars.len(),
    ensures
        final(out)@ == old(out)@ + chars@.subrange(from as int, to as int),
{
    let mut i: usize = from;
    assert(out@ =~= old(out)@ + chars@.subrange(from as int, from as int));
    while i < to
        invariant
            from <= i <= to <= chars.len(),
            out@ == old(out)@ + chars@.subrange(from as int, i as int),
        decreases to - i,
    {
        out.push(chars[i]);
        assert(chars@.subrange(from as int, i as int).push(chars[i as int]) =~= chars@.subrange(
            from as int,
            i + 1,
        ));
        assert(old(out)@ + chars@.subrange(from as int, i + 1) =~= (old(out)@ + chars@.subrange(
            from as int,
            i as int,
        )).push(chars[i as int]));
        i = i + 1;
    }
}

/// The first `n` characters of `s`, or all of it where it is shorter.
pub open spec fn head(s: Seq<char>, n: int) -> Seq<char> {
    if s.len() <= n {
        s
    } else {
        s.take(n)
    }
}

/// Cuts `s` to its first `n` characters.
pub fn take_chars(s: &str, n: usize) -> (r: String)
    ensures
        r@ == head(s@, n as int),
{
    let len: usize = s.unicode_len();
    if len <= n {
        s.to_owned()
    } else {
        s.substring_char(0, n).to_owned()
    }
}

// ---- Lower case -----------------------------------------------------------

/// The lower case of a character by itself.
pub open spec fn char_lower(c: char) -> Seq<char> {
    seq![lower_parts(c).0] + lower_parts(c).1
}

/// A text with each of its characters in lower case by itself. `lowercase` may heed what stands
/// around a character, as it does with a capital sigma that ends a word.
pub open spec fn each_lower(text: Seq<char>) -> Seq<char>
    decreases text.len(),
{
    if text.len() == 0 {
        Seq::empty()
    } else {
        char_lower(text[0]) + each_lower(text.drop_first())
    }
}

/// The character of a text whose lower case covers place `q` of the text in lower case; the
/// last one where the text has no more.
pub open spec fn origin(text: Seq<char>, q: int) -> int
    decreases text.len(),
{
    if text.len() <= 1 || q < char_lower(text[0]).len() {
        0
    } else {
        1 + origin(text.drop_first(), q - char_lower(text[0]).len())
    }
}

/// Whether each character of a text takes up one place in lower case.
pub open spec fn keeps_places(text: Seq<char>) -> bool {
    forall|i: int| 0 <= i < text.len() ==> char_lower(#[trigger] text[i]).len() == 1
}

/// Finds the character of a text whose lower case covers place `q`.
pub fn original_place(chars: &Vec<char>, q: usize) -> (r: usize)
    ensures
        r == origin(chars@, q as int),
        r < chars.len() || r == 0,
{
    let mut i: usize = 0;
    let mut left: usize = q;
    assert(chars@.skip(0) =~= chars@);
    while i < chars.len() && i + 1 < chars.len()
        invariant
            i < chars.len() || i == 0,
            origin(chars@, q as int) == i + origin(chars@.skip(i as int), left as int),
        decreases chars.len() - i,
    {
        let width: usize = lower_chars(chars[i]).len();
        if left < width {
            return i;
        }
        assert(chars@.skip(i as int).drop_first() =~= chars@.skip(i + 1));
        left = left - width;
        i = i + 1;
    }
    i
}

/// Places in a text and in its lower case go together: a later place is that of the same or a
/// later character, and no further on.
pub proof fn law_origin_follows_the_places(text: Seq<char>, p: int, q: int)
    requires
        0 <= p <= q,
        text.len() > 0,
    ensures
        0 <= origin(text, p) <= origin(text, q) < text.len(),
        origin(text, q) - origin(text, p) <= q - p,
        origin(text, q) <= q,
    decreases text.len(),
{
    let width = char_lower(text[0]).len() as int;
    if text.len() > 1 && q >= width {
        if p >= width {
            law_origin_follows_the_places(text.drop_first(), p - width, q - width);
        } else {
            law_origin_follows_the_places(text.drop_first(), 0, q - width);
        }
    }
}

/// Where no character takes up more than one place in lower case, each stands at its own.
pub proof fn law_origin_is_the_place(text: Seq<char>, q: int)
    requires
        keeps_places(text),
        0 <= q < text.len(),
    ensures
        origin(text, q) == q,
    decreases text.len(),
{
    assert(char_lower(text[0]).len() == 1);
    if q > 0 {
        let rest = text.drop_first();
        assert forall|i: int| 0 <= i < rest.len() implies char_lower(#[trigger] rest[i]).len()
            == 1 by {
            assert(rest[i] == text[i + 1]);
        }
        law_origin_is_the_place(rest, q - 1);
    }
}

/// Lower case goes piece by piece.
proof fn lemma_each_lower_concat(a: Seq<char>, b: Seq<char>)
    ensures
        each_lower(a + b) == each_lower(a) + each_lower(b),
    decreases a.len(),
{
    if a.len() == 0 {
        assert(a + b =~= b);
        assert(each_lower(a) + each_lower(b) =~= each_lower(b));
    } else {
        assert((a + b).drop_first() =~= a.drop_first() + b);
        lemma_each_lower_concat(a.drop_first(), b);
        assert(each_lower(a + b) =~= each_lower(a) + each_lower(b));
    }
}

/// A place lies within the lower case of its character.
proof fn lemma_origin_covers(text: Seq<char>, q: int)
    requires
        0 <= q < each_lower(text).len(),
    ensures
        0 <= origin(text, q) < text.len(),
        each_lower(text.take(origin(text, q))).len() <= q,
        q < each_lower(text.take(origin(text, q) + 1)).len(),
    decreases text.len(),
{
    let width = char_lower(text[0]).len() as int;
    let rest = text.drop_first();
    if text.len() > 1 && q >= width {
        lemma_origin_covers(rest, q - width);
        let i = origin(rest, q - width);
        assert(text.take(i + 1).drop_first() =~= rest.take(i));
        assert(text.take(i + 2).drop_first() =~= rest.take(i + 1));
    } else {
        assert(text.take(1).drop_first() =~= Seq::empty());
        assert(text.take(0) =~= Seq::empty());
        if text.len() == 1 {
            assert(text.take(1) =~= text);
        }
    }
}

/// What stands in a text whose characters are in lower case is covered by the characters that
/// its places lead back to: in lower case, these hold it.
pub proof fn law_origin_covers_the_places(text: Seq<char>, p: int, len: int)
    requires
        0 <= p,
        0 < len,
        p + len <= each_lower(text).len(),
    ensures
        ({
            let (from, to) = (origin(text, p), origin(text, p + len - 1) + 1);
            &&& 0 <= from < to <= text.len()
            &&& contains_text(
                each_lower(text.subrange(from, to)),
                each_lower(text).subrange(p, p + len),
            )
        }),
{
    let (from, to) = (origin(text, p), origin(text, p + len - 1) + 1);
    lemma_origin_covers(text, p);
    lemma_origin_covers(text, p + len - 1);
    law_origin_follows_the_places(text, p, p + len - 1);
    let (a, s, b) = (text.take(from), text.subrange(from, to), text.skip(to));
    assert(text.take(to) =~= a + s);
    assert(text =~= a + s + b);
    lemma_each_lower_concat(a, s);
    lemma_each_lower_concat(a + s, b);
    let at = p - each_lower(a).len();
    let needle = each_lower(text).subrange(p, p + len);
    assert(each_lower(s).subrange(at, at + len) =~= needle);
    assert(stands_at(each_lower(s), needle, at));
}

// ---- Joining --------------------------------------------------------------

/// The parts one after the other, with `sep` between each two.
pub open spec fn joined(parts: Seq<Seq<char>>, sep: Seq<char>) -> Seq<char>
    decreases parts.len(),
{
    if parts.len() == 0 {
        Seq::empty()
    } else if parts.len() == 1 {
        parts[0]
    } else {
        joined(parts.drop_last(), sep) + sep + parts.last()
    }
}

/// Joins `parts` with `sep`.
pub fn join(parts: &Vec<String>, sep: &str) -> (r: String)
    ensures
        r@ == joined(texts(parts@), sep@),
{
    let mut r = String::new();
    let mut i: usize = 0;
    while i < parts.len()
        invariant
            i <= parts.len(),
            r@ == joined(texts(parts@).take(i as int), sep@),
        decreases parts.len() - i,
    {
        if i > 0 {
            r.append(sep);
        }
        r.append(parts[i].as_str());
        assert(texts(parts@).take(i + 1).drop_last() =~= texts(parts@).take(i as int));
        assert(texts(parts@).take(i + 1).last() == parts[i as int]@);
        if i == 0 {
            assert(r@ =~= parts[0]@);
        }
        i = i + 1;
    }
    assert(texts(parts@).take(parts@.len() as int) =~= texts(parts@));
    r
}

// ---- Splitting ------------------------------------------------------------

/// The text cut at each `sep`.
pub open spec fn split(s: Seq<char>, sep: char) -> Seq<Seq<char>>
    decreases s.len(),
{
    if s.len() == 0 {
        seq![Seq::empty()]
    } else {
        let parts = split(s.drop_last(), sep);
        if s.last() == sep {
            parts.push(Seq::empty())
        } else {
            parts.drop_last().push(parts.last().push(s.last()))
        }
    }
}

/// Cuts `s` at each `sep`.
pub fn split_text(s: &str, sep: char) -> (r: Vec<String>)
    ensures
        texts(r@) == split(s@, sep),
        r.len() > 0,
{
    let chars = to_chars(s);
    let mut done: Vec<String> = Vec::new();
    let mut cur = String::new();
    let mut i: usize = 0;
    assert(s@.take(0) =~= Seq::<char>::empty());
    assert(split(s@.take(0), sep) =~= texts(done@).push(cur@));
    while i < chars.len()
        invariant
            i <= chars.len(),
            chars@ == s@,
            split(s@.take(i as int), sep) == texts(done@).push(cur@),
        decreases chars.len() - i,
    {
        let c: char = chars[i];
        let ghost next = s@.take(i + 1);
        let ghost before = texts(done@);
        let ghost last = cur@;
        assert(next.drop_last() =~= s@.take(i as int));
        assert(before.push(last).drop_last() =~= before);
        if c == sep {
            done.push(cur);
            cur = String::new();
            assert(texts(done@) =~= before.push(last));
            assert(split(next, sep) =~= texts(done@).push(cur@));
        } else {
            cur.push(c);
            assert(split(next, sep) =~= texts(done@).push(cur@));
        }
        i = i + 1;
    }
    assert(s@.take(i as int) =~= s@);
    let ghost before = done@;
    done.push(cur);
    assert(texts(done@) =~= texts(before).push(cur@));
    done
}

// ---- Equality and prefixes ------------------------------------------------

/// Whether two texts are the same.
pub fn same_text(a: &str, b: &str) -> (r: bool)
    ensures
        r == (a@ == b@),
{
    let x = to_chars(a);
    let y = to_chars(b);
    assert(x@.subrange(0, x.len() as int) =~= x@);
    x.len() == y.len() && occurs_at(&x, &y, 0)
}

/// Whether `prefix` begins `s`.
pub open spec fn begins_with(s: Seq<char>, prefix: Seq<char>) -> bool {
    prefix.len() <= s.len() && s.take(prefix.len() as int) == prefix
}

/// Whether `s` begins with `prefix`.
pub fn starts_with(s: &str, prefix: &str) -> (r: bool)
    ensures
        r == begins_with(s@, prefix@),
{
    let x = to_chars(s);
    let y = to_chars(prefix);
    assert(y.len() <= x.len() ==> x@.subrange(0, y.len() as int) =~= x@.take(y.len() as int));
    y.len() <= x.len() && occurs_at(&x, &y, 0)
}

// ---- Searching ------------------------------------------------------------

/// Whether `needle` stands in `hay` at position `i`.
pub open spec fn stands_at(hay: Seq<char>, needle: Seq<char>, i: int) -> bool {
    0 <= i && i + needle.len() <= hay.len() && hay.subrange(i, i + needle.len()) == needle
}

/// Whether `needle` stands anywhere in `hay`.
pub open spec fn contains_text(hay: Seq<char>, needle: Seq<char>) -> bool {
    exists|i: int| #[trigger] stands_at(hay, needle, i)
}

/// The first position from `from` on at which `needle` stands in `hay`.
pub open spec fn find_from(hay: Seq<char>, needle: Seq<char>, from: int) -> Option<int>
    decreases hay.len() - from + 1,
{
    if from + needle.len() > hay.len() {
        None
    } else if stands_at(hay, needle, from) {
        Some(from)
    } else {
        find_from(hay, needle, from + 1)
    }
}

/// The first position at which `needle` stands in `hay`.
pub open spec fn first_position(hay: Seq<char>, needle: Seq<char>) -> Option<int> {
    find_from(hay, needle, 0)
}

/// A search finds the earliest position at or after its start, and nothing only where there
/// is none.
pub proof fn lemma_find_from(hay: Seq<char>, needle: Seq<char>, from: int)
    requires
        0 <= from,
    ensures
        match find_from(hay, needle, from) {
            Some(p) => from <= p && stands_at(hay, needle, p) && forall|q: int|
                from <= q < p ==> !#[trigger] stands_at(hay, needle, q),
            None => forall|q: int| from <= q ==> !#[trigger] stands_at(hay, needle, q),
        },
    decreases hay.len() - from + 1,
{
    if from + needle.len() <= hay.len() && !stands_at(hay, needle, from) {
        lemma_find_from(hay, needle, from + 1);
    }
}

/// A text holds another exactly where a search from its start finds it.
pub proof fn lemma_contains_iff_found(hay: Seq<char>, needle: Seq<char>)
    ensures
        contains_text(hay, needle) <==> first_position(hay, needle) is Some,
{
    lemma_find_from(hay, needle, 0);
}

/// Whether `needle` stands in `hay` at position `i`.
pub fn occurs_at(hay: &Vec<char>, needle: &Vec<char>, i: usize) -> (r: bool)
    requires
        i + needle.len() <= hay.len(),
    ensures
        r == stands_at(hay@, needle@, i as int),
{
    let mut k: usize = 0;
    while k < needle.len()
        invariant
            k <= needle.len(),
            i + needle.len() <= hay.len(),
            forall|m: int| 0 <= m < k ==> hay[i + m] == #[trigger] needle[m],
        decreases needle.len() - k,
    {
        if hay[i + k] != needle[k] {
            assert(hay@.subrange(i as int, i + needle.len())[k as int] != needle[k as int]);
            return false;
        }
        k = k + 1;
    }
    assert(hay@.subrange(i as int, i + needle.len()) =~= needle@);
    true
}

/// Searches `hay` for `needle`, from position `from` on.
pub fn find_chars(hay: &Vec<char>, needle: &Vec<char>, from: usize) -> (r: Option<usize>)
    requires
        from <= hay.len(),
    ensures
        match (r, find_from(hay@, needle@, from as int)) {
            (Some(p), Some(q)) => p == q,
            (None, None) => true,
            _ => false,
        },
{
    let mut i: usize = from;
    while i <= hay.len() && needle.len() <= hay.len() - i
        invariant
            from <= i <= hay.len() + 1,
            hay.len() < usize::MAX || i <= hay.len(),
            find_from(hay@, needle@, from as int) == find_from(hay@, needle@, i as int),
        decreases hay.len() + 1 - i,
    {
        if occurs_at(hay, needle, i) {
            return Some(i);
        }
        if i == hay.len() {
            assert(find_from(hay@, needle@, i + 1) is None);
            return None;
        }
        i = i + 1;
    }
    None
}

/// Whether `hay` holds `needle`.
pub fn contains(hay: &str, needle: &str) -> (r: bool)
    ensures
        r == contains_text(hay@, needle@),
{
    let h = to_chars(hay);
    let n = to_chars(needle);
    proof {
        lemma_contains_iff_found(hay@, needle@);
    }
    find_chars(&h, &n, 0).is_some()
}

/// How often `needle` stands in `hay` from `from` on, counted from left to right without
/// overlap. The empty text stands at each of the positions, the end included.
pub open spec fn occurrences_from(hay: Seq<char>, needle: Seq<char>, from: int) -> nat
    decreases hay.len() - from,
{
    if needle.len() == 0 {
        if from <= hay.len() {
            (hay.len() - from + 1) as nat
        } else {
            0
        }
    } else if from < 0 {
        0
    } else {
        match find_from(hay, needle, from) {
            Some(p) => if from <= p && p + needle.len() <= hay.len() {
                1 + occurrences_from(hay, needle, p + needle.len())
            } else {
                0
            },
            None => 0,
        }
    }
}

/// How often `needle` stands in `hay`.
pub open spec fn occurrences(hay: Seq<char>, needle: Seq<char>) -> nat {
    occurrences_from(hay, needle, 0)
}

/// No text stands in another more often than that has positions.
pub proof fn lemma_occurrences_bound(hay: Seq<char>, needle: Seq<char>, from: int)
    requires
        0 <= from <= hay.len(),
    ensures
        occurrences_from(hay, needle, from) <= hay.len() - from + 1,
        needle.len() > 0 ==> occurrences_from(hay, needle, from) <= hay.len() - from,
    decreases hay.len() - from,
{
    if needle.len() > 0 {
        lemma_find_from(hay, needle, from);
        match find_from(hay, needle, from) {
            Some(p) => {
                lemma_occurrences_bound(hay, needle, p + needle.len());
            },
            None => {},
        }
    }
}

/// A text stands in another at least once exactly where the other holds it.
pub proof fn lemma_occurrences_positive(hay: Seq<char>, needle: Seq<char>)
    ensures
        occurrences(hay, needle) > 0 <==> contains_text(hay, needle),
{
    lemma_contains_iff_found(hay, needle);
    lemma_find_from(hay, needle, 0);
    if needle.len() == 0 {
        assert(stands_at(hay, needle, 0)) by {
            assert(hay.subrange(0, 0) =~= needle);
        }
    }
}

/// The number `n`, or the greatest machine number where `n` is beyond it.
pub open spec fn saturated(n: int) -> usize {
    if n <= usize::MAX {
        n as usize
    } else {
        usize::MAX
    }
}

/// Counts how often `needle` stands in `hay`.
pub fn count_chars(hay: &Vec<char>, needle: &Vec<char>) -> (r: usize)
    ensures
        r == saturated(occurrences(hay@, needle@) as int),
{
    if needle.len() == 0 {
        return hay.len().saturating_add(1);
    }
    let mut n: usize = 0;
    let mut from: usize = 0;
    proof {
        lemma_occurrences_bound(hay@, needle@, 0);
    }
    loop
        invariant
            needle.len() > 0,
            from <= hay.len(),
            n + occurrences_from(hay@, needle@, from as int) == occurrences(hay@, needle@),
            occurrences(hay@, needle@) <= hay.len(),
        decreases hay.len() - from,
    {
        proof {
            lemma_find_from(hay@, needle@, from as int);
        }
        match find_chars(hay, needle, from) {
            Some(p) => {
                n = n + 1;
                from = p + needle.len();
            },
            None => {
                return n;
            },
        }
    }
}

// ---- Whitespace -----------------------------------------------------------

/// Whether `s` holds nothing but whitespace.
pub open spec fn is_blank(s: Seq<char>) -> bool {
    forall|i: int| 0 <= i < s.len() ==> whitespace(#[trigger] s[i])
}

/// Whether trimming `s` leaves nothing.
pub fn blank(s: &str) -> (r: bool)
    ensures
        r == is_blank(s@),
{
    let chars = to_chars(s);
    let mut i: usize = 0;
    while i < chars.len()
        invariant
            chars@ == s@,
            i <= chars.len(),
            forall|k: int| 0 <= k < i ==> whitespace(#[trigger] s@[k]),
        decreases chars.len() - i,
    {
        if !is_whitespace(chars[i]) {
            return false;
        }
        i = i + 1;
    }
    true
}

/// Whether `s` holds whitespace.
pub open spec fn has_whitespace(s: Seq<char>) -> bool {
    exists|i: int| 0 <= i < s.len() && whitespace(#[trigger] s[i])
}

/// Whether any character of `s` is whitespace.
pub fn holds_whitespace(s: &str) -> (r: bool)
    ensures
        r == has_whitespace(s@),
{
    let chars = to_chars(s);
    let mut i: usize = 0;
    while i < chars.len()
        invariant
            chars@ == s@,
            i <= chars.len(),
            forall|k: int| 0 <= k < i ==> !whitespace(#[trigger] s@[k]),
        decreases chars.len() - i,
    {
        if is_whitespace(chars[i]) {
            return true;
        }
        i = i + 1;
    }
    false
}

/// Whether a word begins at position `i`: no whitespace there, and none of the word before.
pub open spec fn word_starts(s: Seq<char>, i: int) -> bool {
    !whitespace(s[i]) && (i == 0 || whitespace(s[i - 1]))
}

/// How many words the text holds: the stretches free of whitespace.
pub open spec fn words(s: Seq<char>) -> nat
    decreases s.len(),
{
    if s.len() == 0 {
        0
    } else {
        words(s.drop_last()) + if word_starts(s, s.len() - 1) {
            1nat
        } else {
            0nat
        }
    }
}

/// Counts the words of a text.
pub fn word_count(chars: &Vec<char>) -> (r: usize)
    ensures
        r == words(chars@),
        r <= chars.len(),
{
    let mut n: usize = 0;
    let mut i: usize = 0;
    while i < chars.len()
        invariant
            i <= chars.len(),
            n <= i,
            n == words(chars@.take(i as int)),
        decreases chars.len() - i,
    {
        let ghost next = chars@.take(i + 1);
        assert(next.drop_last() =~= chars@.take(i as int));
        if !is_whitespace(chars[i]) && (i == 0 || is_whitespace(chars[i - 1])) {
            n = n + 1;
        }
        i = i + 1;
    }
    assert(chars@.take(chars@.len() as int) =~= chars@);
    n
}

// ---- Order ----------------------------------------------------------------

/// The code points of a text.
pub open spec fn codes(s: Seq<char>) -> Seq<u64> {
    s.map_values(|c: char| c as u64)
}

/// Characters are ordered and told apart by their code points.
pub proof fn lemma_char_codes(a: char, b: char)
    ensures
        ((a as u64) < (b as u64)) == (a < b),
        (a as u64 == b as u64) == (a == b),
{
}

/// The order of texts, which is that of their UTF-8 bytes: by the first code point in which
/// they differ.
pub open spec fn text_lt(a: Seq<char>, b: Seq<char>) -> bool {
    lex_lt(codes(a), codes(b))
}

/// The code points of `s`.
pub fn codes_of(s: &str) -> (r: Vec<u64>)
    ensures
        r@ == codes(s@),
{
    let mut r: Vec<u64> = Vec::new();
    push_codes(&mut r, s);
    assert(r@ =~= codes(s@));
    r
}

/// Appends the code points of `s` to `r`.
pub fn push_codes(r: &mut Vec<u64>, s: &str)
    ensures
        final(r)@ == old(r)@ + codes(s@),
{
    let chars = to_chars(s);
    let mut i: usize = 0;
    assert(r@ =~= old(r)@ + codes(s@).take(0));
    while i < chars.len()
        invariant
            chars@ == s@,
            i <= chars.len(),
            r@ == old(r)@ + codes(s@).take(i as int),
        decreases chars.len() - i,
    {
        r.push(chars[i] as u64);
        assert(r@ =~= old(r)@ + codes(s@).take(i + 1));
        i = i + 1;
    }
    assert(codes(s@).take(i as int) =~= codes(s@));
}

/// Whether `a` sorts before `b`.
pub fn text_less(a: &str, b: &str) -> (r: bool)
    ensures
        r == text_lt(a@, b@),
{
    let x = codes_of(a);
    let y = codes_of(b);
    lex_less(&x, &y)
}

// ---- Numbers --------------------------------------------------------------

/// The digit `d`, from 0 to 9.
pub open spec fn digit(d: int) -> char {
    (48 + d) as char
}

/// The decimal text of a number.
pub open spec fn decimal(n: nat) -> Seq<char>
    decreases n,
{
    if n < 10 {
        seq![digit(n as int)]
    } else {
        decimal(n / 10).push(digit((n % 10) as int))
    }
}

/// Writes a number in decimal.
pub fn decimal_text(n: u128) -> (r: String)
    ensures
        r@ == decimal(n as nat),
        !r@.contains('\n'),
    decreases n,
{
    let d: u8 = (n % 10) as u8;
    let c: char = (48 + d) as char;
    assert(c == digit((n % 10) as int));
    let mut r = if n < 10 {
        String::new()
    } else {
        decimal_text(n / 10)
    };
    let ghost before = r@;
    r.push(c);
    assert(n < 10 ==> r@ =~= seq![digit(n as int)]);
    assert(!r@.contains('\n')) by {
        assert forall|i: int| 0 <= i < r@.len() implies r@[i] != '\n' by {
            if i < before.len() {
                assert(r@[i] == before[i]);
            }
        }
    }
    r
}

// ---- Laws of texts --------------------------------------------------------

/// What is cut to `n` characters keeps as many of the first as there are, each in its place.
pub proof fn law_cutting_keeps_the_first_characters(s: Seq<char>, n: int)
    requires
        0 <= n,
    ensures
        head(s, n).len() == if s.len() < n {
            s.len() as int
        } else {
            n
        },
        forall|i: int| 0 <= i < head(s, n).len() ==> #[trigger] head(s, n)[i] == s[i],
{
}

/// Parts are joined one after the other, with the separator between any two and nowhere else.
pub proof fn law_joining_goes_part_by_part(a: Seq<Seq<char>>, b: Seq<Seq<char>>, sep: Seq<char>)
    ensures
        joined(Seq::empty(), sep) == Seq::<char>::empty(),
        a.len() == 1 ==> joined(a, sep) == a[0],
        a.len() > 0 && b.len() > 0 ==> joined(a + b, sep) == joined(a, sep) + sep + joined(b, sep),
    decreases b.len(),
{
    if a.len() > 0 && b.len() > 0 {
        let rest = b.drop_last();
        assert((a + b).drop_last() =~= a + rest);
        assert((a + b).last() == b.last());
        if rest.len() > 0 {
            law_joining_goes_part_by_part(a, rest, sep);
            assert(joined(a + b, sep) =~= joined(a, sep) + sep + joined(b, sep));
        } else {
            assert(a + rest =~= a);
            assert(joined(b, sep) == b[0]);
        }
    }
}

/// What is cut at each separator is whole once it is joined again, and no part holds the
/// separator.
pub proof fn law_splitting_undoes_joining(s: Seq<char>, sep: char)
    ensures
        split(s, sep).len() > 0,
        joined(split(s, sep), seq![sep]) == s,
        forall|i: int| 0 <= i < split(s, sep).len() ==> !(#[trigger] split(s, sep)[i]).contains(sep),
    decreases s.len(),
{
    let parts = split(s, sep);
    if s.len() == 0 {
        assert(joined(parts, seq![sep]) =~= s);
        assert(parts[0] =~= Seq::<char>::empty());
    } else {
        let before = split(s.drop_last(), sep);
        law_splitting_undoes_joining(s.drop_last(), sep);
        assert(s.drop_last().push(s.last()) =~= s);
        if s.last() == sep {
            assert(parts.drop_last() =~= before);
            assert(joined(parts, seq![sep]) =~= s);
            assert forall|i: int| 0 <= i < parts.len() implies !(#[trigger] parts[i]).contains(
                sep,
            ) by {
                if i < before.len() {
                    assert(parts[i] == before[i]);
                }
            }
        } else {
            assert(parts.drop_last() =~= before.drop_last());
            if parts.len() > 1 {
                assert(joined(parts, seq![sep]) =~= joined(before, seq![sep]).push(s.last()));
            }
            assert forall|i: int| 0 <= i < parts.len() implies !(#[trigger] parts[i]).contains(
                sep,
            ) by {
                if i < before.len() - 1 {
                    assert(parts[i] == before[i]);
                } else {
                    let p = before[before.len() - 1];
                    assert(!p.contains(sep));
                    assert(parts[i] == p.push(s.last()));
                    assert forall|k: int| 0 <= k < parts[i].len() implies parts[i][k] != sep by {
                        if k < p.len() {
                            assert(parts[i][k] == p[k]);
                        }
                    }
                }
            }
        }
    }
}

/// A text begins with another exactly where it is that text and something behind it.
pub proof fn law_prefix_is_what_stands_first(s: Seq<char>, prefix: Seq<char>, rest: Seq<char>)
    ensures
        begins_with(prefix + rest, prefix),
        begins_with(s, prefix) ==> prefix.len() <= s.len() && s == prefix + s.skip(
            prefix.len() as int,
        ),
{
    assert((prefix + rest).take(prefix.len() as int) =~= prefix);
    if begins_with(s, prefix) {
        assert(s =~= prefix + s.skip(prefix.len() as int));
    }
}

/// A text holds another exactly where it is that text with something before and behind it.
pub proof fn law_held_text_stands_inside(
    hay: Seq<char>,
    needle: Seq<char>,
    before: Seq<char>,
    after: Seq<char>,
)
    ensures
        contains_text(before + needle + after, needle),
        contains_text(hay, needle) ==> exists|a: Seq<char>, b: Seq<char>|
            hay == #[trigger] (a + needle + b),
{
    let whole = before + needle + after;
    let at = before.len() as int;
    assert(whole.subrange(at, at + needle.len()) =~= needle);
    assert(stands_at(whole, needle, at));
    if contains_text(hay, needle) {
        let i = choose|i: int| #[trigger] stands_at(hay, needle, i);
        let a = hay.take(i);
        let b = hay.skip(i + needle.len());
        assert(hay =~= a + needle + b);
    }
}

/// Occurrences are counted from left to right without overlap: one for the first, and then
/// those behind it. The empty text occurs before each character and at the end.
pub proof fn law_occurrences_do_not_overlap(hay: Seq<char>, needle: Seq<char>)
    ensures
        needle.len() == 0 ==> occurrences(hay, needle) == hay.len() + 1,
        needle.len() > 0 ==> match first_position(hay, needle) {
            Some(p) => p + needle.len() <= hay.len() && occurrences(hay, needle) == 1
                + occurrences(hay.skip(p + needle.len()), needle),
            None => occurrences(hay, needle) == 0,
        },
{
    lemma_find_from(hay, needle, 0);
    if needle.len() > 0 && first_position(hay, needle) is Some {
        let p = first_position(hay, needle)->0;
        lemma_occurrences_shift(hay, needle, p + needle.len(), 0);
    }
}

/// A search behind a position is a search in what stands behind it.
proof fn lemma_find_shift(hay: Seq<char>, needle: Seq<char>, n: int, from: int)
    requires
        0 <= n <= hay.len(),
        0 <= from,
    ensures
        match (find_from(hay, needle, n + from), find_from(hay.skip(n), needle, from)) {
            (Some(p), Some(q)) => p == n + q,
            (None, None) => true,
            _ => false,
        },
    decreases hay.len() - from + 1,
{
    let rest = hay.skip(n);
    if n + from + needle.len() <= hay.len() {
        assert(hay.subrange(n + from, n + from + needle.len()) =~= rest.subrange(
            from,
            from + needle.len(),
        ));
        assert(stands_at(hay, needle, n + from) == stands_at(rest, needle, from));
        if !stands_at(rest, needle, from) {
            lemma_find_shift(hay, needle, n, from + 1);
        }
    }
}

/// Counting behind a position is counting in what stands behind it.
proof fn lemma_occurrences_shift(hay: Seq<char>, needle: Seq<char>, n: int, from: int)
    requires
        0 <= n <= hay.len(),
        0 <= from,
        n + from <= hay.len(),
        needle.len() > 0,
    ensures
        occurrences_from(hay, needle, n + from) == occurrences_from(hay.skip(n), needle, from),
    decreases hay.len() - from,
{
    lemma_find_shift(hay, needle, n, from);
    lemma_find_from(hay, needle, n + from);
    lemma_find_from(hay.skip(n), needle, from);
    match find_from(hay.skip(n), needle, from) {
        Some(q) => {
            lemma_occurrences_shift(hay, needle, n, q + needle.len());
        },
        None => {},
    }
}

/// A text is blank exactly where it has no character other than whitespace, and holds
/// whitespace exactly where one of its characters is.
pub proof fn law_blank_texts_show_nothing(s: Seq<char>, c: char)
    ensures
        is_blank(Seq::empty()),
        is_blank(s.push(c)) <==> is_blank(s) && whitespace(c),
        !has_whitespace(Seq::empty()),
        has_whitespace(s.push(c)) <==> has_whitespace(s) || whitespace(c),
{
    let t = s.push(c);
    assert(t[s.len() as int] == c);
    assert forall|i: int| 0 <= i < s.len() implies #[trigger] s[i] == t[i] by {}
    if is_blank(t) {
        assert forall|i: int| 0 <= i < s.len() implies whitespace(#[trigger] s[i]) by {
            assert(whitespace(t[i]));
        }
    }
    if has_whitespace(s) {
        let i = choose|i: int| 0 <= i < s.len() && whitespace(#[trigger] s[i]);
        assert(whitespace(t[i]));
    }
    if has_whitespace(t) && !whitespace(c) {
        let i = choose|i: int| 0 <= i < t.len() && whitespace(#[trigger] t[i]);
        assert(whitespace(s[i]));
    }
}

/// Words are told apart by whitespace alone: a text free of it is one word, and whitespace
/// between two texts makes their words those of both.
pub proof fn law_words_are_parted_by_whitespace(a: Seq<char>, c: char, b: Seq<char>)
    requires
        whitespace(c),
    ensures
        words(a + seq![c] + b) == words(a) + words(b),
        !has_whitespace(a) ==> words(a) == if a.len() > 0 {
            1nat
        } else {
            0nat
        },
        is_blank(a) ==> words(a) == 0,
    decreases b.len() + a.len(),
{
    let whole = a + seq![c] + b;
    if b.len() == 0 {
        assert(whole.drop_last() =~= a);
    } else {
        law_words_are_parted_by_whitespace(a, c, b.drop_last());
        assert(whole.drop_last() =~= a + seq![c] + b.drop_last());
        let n = whole.len() - 1;
        if b.len() > 1 {
            assert(whole[n - 1] == b[b.len() - 2]);
        } else {
            assert(whole[n - 1] == c);
        }
        assert(word_starts(whole, n) == word_starts(b, b.len() - 1));
    }
    if b.len() == 0 && a.len() > 0 {
        let rest = a.drop_last();
        law_words_are_parted_by_whitespace(rest, c, b);
        if !has_whitespace(a) {
            assert(!whitespace(a[a.len() - 1]));
            assert(!has_whitespace(rest)) by {
                if has_whitespace(rest) {
                    let i = choose|i: int| 0 <= i < rest.len() && whitespace(#[trigger] rest[i]);
                    assert(whitespace(a[i]));
                }
            }
            if a.len() > 1 {
                assert(!whitespace(a[a.len() - 2]));
            }
        }
        if is_blank(a) {
            assert(whitespace(a[a.len() - 1]));
            assert forall|i: int| 0 <= i < rest.len() implies whitespace(#[trigger] rest[i]) by {
                assert(whitespace(a[i]));
            }
        }
    } else if b.len() > 0 {
        law_words_are_parted_by_whitespace(a, c, Seq::empty());
    }
}

/// Texts are ordered by the first character in which they differ; where one is the beginning of
/// the other, it comes first.
pub proof fn law_texts_are_ordered_by_their_first_difference(
    common: Seq<char>,
    a: Seq<char>,
    b: Seq<char>,
)
    ensures
        a.len() > 0 && b.len() > 0 && a[0] != b[0] ==> text_lt(common + a, common + b) == (a[0]
            < b[0]),
        a.len() == 0 ==> text_lt(common + a, common + b) == (b.len() > 0),
        b.len() == 0 ==> !text_lt(common + a, common + b),
    decreases common.len(),
{
    let (x, y) = (common + a, common + b);
    if common.len() == 0 {
        assert(x =~= a);
        assert(y =~= b);
        if a.len() > 0 && b.len() > 0 {
            lemma_char_codes(a[0], b[0]);
            assert(codes(a)[0] == a[0] as u64 && codes(b)[0] == b[0] as u64);
        }
    } else {
        let rest = common.drop_first();
        law_texts_are_ordered_by_their_first_difference(rest, a, b);
        assert(codes(x).drop_first() =~= codes(rest + a));
        assert(codes(y).drop_first() =~= codes(rest + b));
        assert(codes(x)[0] == codes(y)[0]);
    }
}

/// The number that decimal digits stand for.
pub open spec fn digits_value(s: Seq<char>) -> int
    decreases s.len(),
{
    if s.len() == 0 {
        0
    } else {
        10 * digits_value(s.drop_last()) + (s.last() as int - '0' as int)
    }
}

/// What is written in decimal stands for the number, with digits only, and begins with 0 for 0
/// alone.
pub proof fn law_decimals_stand_for_their_number(n: nat)
    ensures
        digits_value(decimal(n)) == n,
        decimal(n).len() > 0,
        forall|i: int| 0 <= i < decimal(n).len() ==> '0' <= #[trigger] decimal(n)[i] <= '9',
        n > 0 ==> decimal(n)[0] != '0',
    decreases n,
{
    let last = digit((n % 10) as int);
    assert(last as int == 48 + n % 10);
    if n >= 10 {
        let rest = decimal(n / 10);
        law_decimals_stand_for_their_number(n / 10);
        assert(decimal(n).drop_last() =~= rest);
        assert(decimal(n).last() == last);
        assert forall|i: int| 0 <= i < decimal(n).len() implies '0' <= #[trigger] decimal(n)[i]
            <= '9' by {
            if i < rest.len() {
                assert(decimal(n)[i] == rest[i]);
            }
        }
    } else {
        assert(decimal(n).drop_last() =~= Seq::<char>::empty());
        assert(digits_value(decimal(n).drop_last()) == 0);
    }
}

} // verus!
