//! Finding the queries of a search in a text.
//!
//! A query is a plain text, found in any case, or a regular expression. Several queries match
//! where one of them is found, or where all are.
use regex::Regex;
use vstd::prelude::*;
use vstd::string::*;

use super::SearchError;
use crate::text::{
    contains_text, count_chars, find_chars, first_position, join, joined,
    lemma_contains_iff_found, lemma_find_from, lemma_occurrences_positive, lowercase,
    occurrences, origin, original_place, saturated, stands_at, texts, to_chars, to_lowercase,
};

verus! {

broadcast use {vstd::seq::group_seq_axioms, vstd::string::group_string_axioms};

// ---- Regular expressions --------------------------------------------------

/// A compiled regular expression.
#[verifier::external_type_specification]
#[verifier::external_body]
pub struct ExRegex(regex::Regex);

/// Why a pattern is no regular expression.
#[verifier::external_type_specification]
#[verifier::external_body]
pub struct ExRegexError(regex::Error);

/// The pattern that `Regex::new` made a regular expression from; nothing where it was made in
/// another way, with settings of its own.
pub uninterp spec fn compiled_from(re: regex::Regex) -> Option<Seq<char>>;

/// What an error of the regex crate says.
pub uninterp spec fn fault_text(e: regex::Error) -> Seq<char>;

/// Whether `Regex::new` may refuse a pattern with an error that says this.
pub uninterp spec fn may_refuse(pattern: Seq<char>, message: Seq<char>) -> bool;

/// Where the first match of a pattern stands in a text: its first character, and the one
/// behind its last.
pub uninterp spec fn regex_first(pattern: Seq<char>, text: Seq<char>) -> Option<(int, int)>;

/// How many matches of a pattern follow one another in a text without overlap.
pub uninterp spec fn regex_total(pattern: Seq<char>, text: Seq<char>) -> nat;

/// Calls `Regex::new`. What it makes is made from this pattern, and what it refuses it refuses
/// with an error about this pattern. Which patterns it takes is not said here: a pattern can be
/// refused for the size of what it compiles to, which differs between machines.
#[verifier::external_body]
fn compile(pattern: &str) -> (r: Result<Regex, regex::Error>)
    ensures
        r matches Ok(re) ==> compiled_from(re) == Some(pattern@),
        r matches Err(e) ==> may_refuse(pattern@, fault_text(e)),
{
    Regex::new(pattern)
}

/// Calls the `Display` of `regex::Error`, whose text the error alone decides.
#[verifier::external_body]
fn describe(e: &regex::Error) -> (r: String)
    ensures
        r@ == fault_text(*e),
{
    e.to_string()
}

/// Calls `Regex::find` and gives the text before the match, and the match. Of a regular
/// expression that `Regex::new` made, the pattern and the text decide the match.
#[verifier::external_body]
fn find(re: &Regex, text: &str) -> (r: Option<(String, String)>)
    ensures
        match r {
            Some((before, hit)) => {
                &&& before@.len() + hit@.len() <= text@.len()
                &&& text@.subrange(0, before@.len() as int) == before@
                &&& text@.subrange(before@.len() as int, (before@.len() + hit@.len()) as int)
                    == hit@
            },
            None => true,
        },
        compiled_from(*re) matches Some(pattern) ==> regex_first(pattern, text@) == match r {
            Some((before, hit)) => Some(
                (before@.len() as int, (before@.len() + hit@.len()) as int),
            ),
            None => None,
        },
{
    re.find(text).map(|m| (text[..m.start()].to_string(), m.as_str().to_string()))
}

/// Calls `Regex::find_iter` and counts what it yields. Of a regular expression that
/// `Regex::new` made, the pattern and the text decide the count, and there is something to
/// count exactly where `Regex::find` finds a match: the iterator yields that one first.
#[verifier::external_body]
fn count(re: &Regex, text: &str) -> (r: usize)
    ensures
        compiled_from(*re) matches Some(pattern) ==> r == regex_total(pattern, text@) && (r > 0
            <==> regex_first(pattern, text@) is Some),
{
    re.find_iter(text).count()
}

// ---- What matches ---------------------------------------------------------

/// The queries of a search.
#[verifier::ext_equal]
pub struct Terms {
    /// The patterns of regular expressions, or plain texts in lower case.
    pub list: Seq<Seq<char>>,
    /// Whether the terms are patterns.
    pub regex: bool,
    /// Whether all of them must be found.
    pub all: bool,
}

/// What was found.
#[verifier::ext_equal]
pub struct Find {
    /// The text to report.
    pub text: Seq<char>,
    /// The position of its first character.
    pub at: int,
}

/// Where a term is found first. A plain text is searched for in the lower-cased text, and its
/// position counts there.
pub open spec fn term_find(t: Terms, i: int, text: Seq<char>) -> Option<Find> {
    if t.regex {
        match regex_first(t.list[i], text) {
            Some((from, to)) => Some(Find { text: text.subrange(from, to), at: from }),
            None => None,
        }
    } else {
        match first_position(lowercase(text), t.list[i]) {
            Some(p) => Some(Find { text: t.list[i], at: p }),
            None => None,
        }
    }
}

/// The text in which terms are found.
pub open spec fn matched_in(t: Terms, text: Seq<char>) -> Seq<char> {
    if t.regex {
        text
    } else {
        lowercase(text)
    }
}

/// Where each of the terms is found first.
pub open spec fn term_finds(t: Terms, text: Seq<char>) -> Seq<Option<Find>> {
    Seq::new(t.list.len(), |i: int| term_find(t, i, text))
}

/// The earliest of the finds; of two at one position, that of the earlier term.
pub open spec fn earliest(finds: Seq<Option<Find>>) -> Option<Find>
    decreases finds.len(),
{
    if finds.len() == 0 {
        None
    } else {
        let best = earliest(finds.drop_last());
        match (finds.last(), best) {
            (Some(f), Some(b)) => if f.at < b.at {
                Some(f)
            } else {
                Some(b)
            },
            (Some(f), None) => Some(f),
            (None, _) => best,
        }
    }
}

/// Whether every term was found.
pub open spec fn all_found(finds: Seq<Option<Find>>) -> bool {
    forall|i: int| 0 <= i < finds.len() ==> #[trigger] finds[i] is Some
}

/// What the finds report, one after the other.
pub open spec fn reported(finds: Seq<Option<Find>>) -> Seq<Seq<char>> {
    finds.map_values(|f: Option<Find>| f->0.text)
}

/// The finds together: nothing unless every term was found.
pub open spec fn together(finds: Seq<Option<Find>>) -> Option<Find> {
    if all_found(finds) {
        Some(
            Find {
                text: joined(reported(finds), " + "@),
                at: match earliest(finds) {
                    Some(f) => f.at,
                    None => 0,
                },
            },
        )
    } else {
        None
    }
}

/// What a list of finds comes to.
pub open spec fn outcome(finds: Seq<Option<Find>>, all: bool) -> Option<Find> {
    if all {
        together(finds)
    } else {
        earliest(finds)
    }
}

/// What the terms match in a text. The position of a plain text counts in the lower-cased text.
pub open spec fn match_of(t: Terms, text: Seq<char>) -> Option<Find> {
    outcome(term_finds(t, text), t.all)
}

/// The position in a text of what stands at `at` in the text in which terms are found.
pub open spec fn place(t: Terms, text: Seq<char>, at: int) -> int {
    if t.regex {
        at
    } else {
        origin(text, at)
    }
}

/// What the terms match in a text, with the position in the text itself.
pub open spec fn located(t: Terms, text: Seq<char>) -> Option<Find> {
    match match_of(t, text) {
        Some(f) => Some(Find { text: f.text, at: place(t, text, f.at) }),
        None => None,
    }
}

/// How often a term occurs in a text.
pub open spec fn term_count_in(t: Terms, i: int, text: Seq<char>) -> usize {
    if t.regex {
        regex_total(t.list[i], text) as usize
    } else {
        saturated(occurrences(lowercase(text), t.list[i]) as int)
    }
}

/// How often each of the terms occurs in a text.
pub open spec fn counts(t: Terms, text: Seq<char>) -> Seq<usize> {
    Seq::new(t.list.len(), |i: int| term_count_in(t, i, text))
}

// ---- The matcher ----------------------------------------------------------

/// A match: what is reported as matched, and the position in the text of its first character,
/// on which the snippet is centred.
#[derive(Debug)]
pub struct MatchInfo {
    pub matched: String,
    pub char_pos: usize,
}

/// The find that a match stands for.
pub open spec fn found(m: Option<MatchInfo>) -> Option<Find> {
    match m {
        Some(i) => Some(Find { text: i.matched@, at: i.char_pos as int }),
        None => None,
    }
}

/// The finds of a list of matches.
pub open spec fn all_finds(hits: Seq<Option<MatchInfo>>) -> Seq<Option<Find>> {
    hits.map_values(|m: Option<MatchInfo>| found(m))
}

/// The earliest of the hits; of two at one position, that of the earlier term.
fn first_of(hits: Vec<Option<MatchInfo>>) -> (r: Option<MatchInfo>)
    ensures
        found(r) == earliest(all_finds(hits@)),
{
    let ghost finds = all_finds(hits@);
    let ghost given = hits@;
    let mut best: Option<MatchInfo> = None;
    for h in it: hits
        invariant
            it.seq() == given,
            finds == all_finds(given),
            found(best) == earliest(finds.take(it.index() as int)),
    {
        let ghost i = it.index() as int;
        assert(finds.take(i + 1).drop_last() =~= finds.take(i));
        assert(finds[i] == found(given[i]));
        match h {
            Some(m) => {
                let nearer = match &best {
                    Some(b) => m.char_pos < b.char_pos,
                    None => true,
                };
                if nearer {
                    best = Some(m);
                }
            },
            None => {},
        }
    }
    assert(finds.take(finds.len() as int) =~= finds);
    best
}

/// The hits of all terms together, unless one of them is missing.
fn all_of(hits: Vec<Option<MatchInfo>>) -> (r: Option<MatchInfo>)
    ensures
        found(r) == together(all_finds(hits@)),
{
    let ghost finds = all_finds(hits@);
    let mut parts: Vec<String> = Vec::new();
    let mut nearest: Option<usize> = None;
    let mut i: usize = 0;
    while i < hits.len()
        invariant
            i <= hits.len(),
            finds == all_finds(hits@),
            texts(parts@) == reported(finds.take(i as int)),
            forall|k: int| 0 <= k < i ==> #[trigger] finds[k] is Some,
            match (nearest, earliest(finds.take(i as int))) {
                (Some(p), Some(f)) => p == f.at,
                (None, None) => true,
                _ => false,
            },
        decreases hits.len() - i,
    {
        let ghost before = parts@;
        assert(finds.take(i + 1).drop_last() =~= finds.take(i as int));
        assert(finds[i as int] == found(hits@[i as int]));
        match &hits[i] {
            Some(m) => {
                parts.push(m.matched.clone());
                assert(texts(parts@) =~= texts(before).push(m.matched@));
                assert(texts(parts@) =~= reported(finds.take(i + 1)));
                nearest = match nearest {
                    Some(p) => if m.char_pos < p {
                        Some(m.char_pos)
                    } else {
                        Some(p)
                    },
                    None => Some(m.char_pos),
                };
            },
            None => {
                assert(!all_found(finds));
                return None;
            },
        }
        i = i + 1;
    }
    assert(finds.take(i as int) =~= finds);
    let char_pos: usize = match nearest {
        Some(p) => p,
        None => 0,
    };
    Some(MatchInfo { matched: join(&parts, " + "), char_pos })
}

/// What the hits of the terms come to: the earliest, or all of them together.
pub fn combine(hits: Vec<Option<MatchInfo>>, and_mode: bool) -> (r: Option<MatchInfo>)
    ensures
        found(r) == outcome(all_finds(hits@), and_mode),
{
    if and_mode {
        all_of(hits)
    } else {
        first_of(hits)
    }
}

/// Whether each find stands in the text where it says.
spec fn all_stand(finds: Seq<Option<Find>>, text: Seq<char>) -> bool {
    forall|i: int|
        0 <= i < finds.len() ==> (#[trigger] finds[i] matches Some(f) ==> stands_at(
            text,
            f.text,
            f.at,
        ))
}

/// The earliest of finds that stand in the text stands there.
proof fn lemma_earliest_stands(finds: Seq<Option<Find>>, text: Seq<char>)
    requires
        all_stand(finds, text),
    ensures
        earliest(finds) matches Some(f) ==> stands_at(text, f.text, f.at),
{
    law_earliest_is_first_and_nearest(finds);
}

/// The patterns of a list of regular expressions.
pub open spec fn patterns(regexes: Seq<Regex>) -> Seq<Seq<char>> {
    regexes.map_values(|re: Regex| compiled_from(re)->0)
}

/// A list of queries, ready to be searched for.
pub struct Matcher {
    pub regexes: Vec<Regex>,
    pub plains: Vec<String>,
    pub and_mode: bool,
}

impl View for Matcher {
    type V = Terms;

    open spec fn view(&self) -> Terms {
        Terms {
            list: if self.regexes@.len() > 0 {
                patterns(self.regexes@)
            } else {
                texts(self.plains@)
            },
            regex: self.regexes@.len() > 0,
            all: self.and_mode,
        }
    }
}

/// What the first of the patterns that did not compile is at fault for.
pub open spec fn first_fault(compiled: Seq<Result<Regex, regex::Error>>) -> Option<Seq<char>>
    decreases compiled.len(),
{
    if compiled.len() == 0 {
        None
    } else {
        match first_fault(compiled.drop_last()) {
            Some(t) => Some(t),
            None => match compiled.last() {
                Ok(_) => None,
                Err(e) => Some(fault_text(e)),
            },
        }
    }
}

/// Whether `compiled` holds what each of the patterns compiled to, or the error with which it
/// was refused.
pub open spec fn compiled_by(
    compiled: Seq<Result<Regex, regex::Error>>,
    queries: Seq<Seq<char>>,
) -> bool {
    &&& compiled.len() == queries.len()
    &&& forall|k: int|
        0 <= k < queries.len() ==> match #[trigger] compiled[k] {
            Ok(re) => compiled_from(re) == Some(queries[k]),
            Err(e) => may_refuse(queries[k], fault_text(e)),
        }
}

/// Whether `message` says what the first of the patterns that did not compile is at fault for.
pub open spec fn refused(queries: Seq<Seq<char>>, message: Seq<char>) -> bool {
    exists|compiled: Seq<Result<Regex, regex::Error>>| #[trigger]
        compiled_by(compiled, queries) && first_fault(compiled) == Some(message)
}

/// The queries in lower case.
pub open spec fn lowered(queries: Seq<Seq<char>>) -> Seq<Seq<char>> {
    queries.map_values(|q: Seq<char>| lowercase(q))
}

/// The terms that a list of queries stands for.
pub open spec fn terms(queries: Seq<Seq<char>>, is_regex: bool, and_mode: bool) -> Terms {
    Terms {
        list: if is_regex {
            queries
        } else {
            lowered(queries)
        },
        regex: is_regex && queries.len() > 0,
        all: and_mode,
    }
}

/// A fault stays the first one, whatever follows.
proof fn lemma_first_fault_stays(compiled: Seq<Result<Regex, regex::Error>>, n: int)
    requires
        0 <= n <= compiled.len(),
        first_fault(compiled.take(n)) is Some,
    ensures
        first_fault(compiled) == first_fault(compiled.take(n)),
    decreases compiled.len() - n,
{
    if n < compiled.len() {
        assert(compiled.take(n + 1).drop_last() =~= compiled.take(n));
        lemma_first_fault_stays(compiled, n + 1);
    } else {
        assert(compiled.take(n) =~= compiled);
    }
}

/// Puts compiled patterns together, or reports the first that did not compile.
pub fn assemble(compiled: Vec<Result<Regex, regex::Error>>, and_mode: bool) -> (r: Result<
    Matcher,
    SearchError,
>)
    ensures
        match r {
            Ok(m) => {
                &&& first_fault(compiled@) is None
                &&& m.regexes@.len() == compiled@.len()
                &&& forall|i: int|
                    0 <= i < compiled@.len() ==> Ok::<Regex, regex::Error>(
                        #[trigger] m.regexes@[i],
                    ) == compiled@[i]
                &&& m.plains@.len() == 0
                &&& m.and_mode == and_mode
            },
            Err(SearchError::InvalidRegex { message }) => first_fault(compiled@) == Some(message@),
            Err(SearchError::EmptyQuery) => false,
        },
{
    let ghost given = compiled@;
    let mut regexes: Vec<Regex> = Vec::new();
    for c in it: compiled
        invariant
            it.seq() == given,
            regexes.len() == it.index(),
            first_fault(given.take(it.index() as int)) is None,
            forall|i: int|
                0 <= i < regexes.len() ==> Ok::<Regex, regex::Error>(#[trigger] regexes@[i])
                    == given[i],
    {
        let ghost i = it.index() as int;
        assert(given.take(i + 1).drop_last() =~= given.take(i));
        match c {
            Ok(re) => {
                regexes.push(re);
            },
            Err(e) => {
                proof {
                    lemma_first_fault_stays(given, i + 1);
                }
                return Err(SearchError::InvalidRegex { message: describe(&e) });
            },
        }
    }
    assert(given.take(given.len() as int) =~= given);
    Ok(Matcher { regexes, plains: Vec::new(), and_mode })
}

impl Matcher {
    /// Every regular expression was compiled from a pattern.
    pub open spec fn wf(&self) -> bool {
        forall|i: int| 0 <= i < self.regexes@.len() ==> compiled_from(
            #[trigger] self.regexes@[i],
        ) is Some
    }

    /// Makes a matcher of the queries. Plain texts always make one. Of patterns, the first that
    /// the regex crate refuses is reported.
    pub fn new(queries: &[String], is_regex: bool, and_mode: bool) -> (r: Result<
        Self,
        SearchError,
    >)
        ensures
            match r {
                Ok(m) => m.wf() && m@ == terms(texts(queries@), is_regex, and_mode),
                Err(SearchError::InvalidRegex { message }) => is_regex && queries@.len() > 0
                    && refused(texts(queries@), message@),
                Err(SearchError::EmptyQuery) => false,
            },
    {
        if is_regex {
            let mut compiled: Vec<Result<Regex, regex::Error>> = Vec::new();
            let mut i: usize = 0;
            while i < queries.len()
                invariant
                    i <= queries.len(),
                    compiled.len() == i,
                    forall|k: int|
                        0 <= k < i ==> match #[trigger] compiled@[k] {
                            Ok(re) => compiled_from(re) == Some(queries@[k]@),
                            Err(e) => may_refuse(queries@[k]@, fault_text(e)),
                        },
                decreases queries.len() - i,
            {
                compiled.push(compile(queries[i].as_str()));
                i = i + 1;
            }
            let ghost given = compiled@;
            let r = assemble(compiled, and_mode);
            proof {
                assert(compiled_by(given, texts(queries@)));
                if r is Ok {
                    let m = r->Ok_0;
                    assert forall|k: int| 0 <= k < m.regexes@.len() implies compiled_from(
                        #[trigger] m.regexes@[k],
                    ) == Some(queries@[k]@) by {
                        assert(given[k] == Ok::<Regex, regex::Error>(m.regexes@[k]));
                    }
                    if queries@.len() > 0 {
                        assert(patterns(m.regexes@) =~= texts(queries@));
                    } else {
                        assert(texts(m.plains@) =~= texts(queries@));
                    }
                    assert(m@ =~= terms(texts(queries@), is_regex, and_mode));
                }
            }
            r
        } else {
            let mut plains: Vec<String> = Vec::new();
            let mut i: usize = 0;
            while i < queries.len()
                invariant
                    i <= queries.len(),
                    texts(plains@) == lowered(texts(queries@)).take(i as int),
                decreases queries.len() - i,
            {
                let ghost before = plains@;
                plains.push(to_lowercase(queries[i].as_str()));
                assert(texts(plains@) =~= texts(before).push(lowercase(queries@[i as int]@)));
                assert(texts(plains@) =~= lowered(texts(queries@)).take(i + 1));
                i = i + 1;
            }
            assert(texts(plains@) =~= lowered(texts(queries@)));
            Ok(Matcher { regexes: Vec::new(), plains, and_mode })
        }
    }

    /// Matches a text, and counts each term in it where `scoring` asks for that. What is
    /// reported as matched stands where the match was found, a plain text in the lower-cased
    /// text, unless several finds are reported together. The position given is that in the text
    /// itself. A term is counted at least once exactly where it is found.
    pub fn scan(&self, text: &str, scoring: bool) -> (r: (Option<MatchInfo>, Vec<usize>))
        requires
            self.wf(),
        ensures
            found(r.0) == located(self@, text@),
            r.1@ == if scoring {
                counts(self@, text@)
            } else {
                Seq::empty()
            },
            r.0 matches Some(i) ==> self@.all || stands_at(
                matched_in(self@, text@),
                i.matched@,
                match_of(self@, text@)->0.at,
            ),
            scoring ==> forall|i: int|
                0 <= i < self@.list.len() ==> (#[trigger] r.1@[i] > 0 <==> term_find(
                    self@,
                    i,
                    text@,
                ) is Some),
    {
        let mut tfs: Vec<usize> = Vec::new();
        if self.regexes.is_empty() {
            let lower = to_lowercase(text);
            let info = self.plain_match(lower.as_str());
            if scoring {
                let chars = to_chars(lower.as_str());
                let mut i: usize = 0;
                while i < self.plains.len()
                    invariant
                        i <= self.plains.len(),
                        !self@.regex,
                        self@.list == texts(self.plains@),
                        chars@ == lowercase(text@),
                        tfs@ == counts(self@, text@).take(i as int),
                        forall|k: int|
                            0 <= k < i ==> (#[trigger] tfs@[k] > 0 <==> term_find(self@, k, text@)
                                is Some),
                    decreases self.plains.len() - i,
                {
                    let q = to_chars(self.plains[i].as_str());
                    tfs.push(count_chars(&chars, &q));
                    assert(tfs@ =~= counts(self@, text@).take(i + 1));
                    proof {
                        lemma_occurrences_positive(chars@, q@);
                        lemma_contains_iff_found(chars@, q@);
                    }
                    i = i + 1;
                }
                assert(tfs@ =~= counts(self@, text@));
            }
            assert(term_finds(self@, text@) =~= self.plain_finds(lower@));
            let info = match info {
                Some(i) => {
                    let chars = to_chars(text);
                    Some(
                        MatchInfo {
                            matched: i.matched,
                            char_pos: original_place(&chars, i.char_pos),
                        },
                    )
                },
                None => None,
            };
            (info, tfs)
        } else {
            let info = self.regex_match(text);
            if scoring {
                let mut i: usize = 0;
                while i < self.regexes.len()
                    invariant
                        i <= self.regexes.len(),
                        self.wf(),
                        self@.regex,
                        self@.list == patterns(self.regexes@),
                        tfs@ == counts(self@, text@).take(i as int),
                        forall|k: int|
                            0 <= k < i ==> (#[trigger] tfs@[k] > 0 <==> term_find(self@, k, text@)
                                is Some),
                    decreases self.regexes.len() - i,
                {
                    assert(compiled_from(self.regexes@[i as int]) is Some);
                    tfs.push(count(&self.regexes[i], text));
                    assert(tfs@ =~= counts(self@, text@).take(i + 1));
                    i = i + 1;
                }
                assert(tfs@ =~= counts(self@, text@));
            }
            (info, tfs)
        }
    }

    /// How many terms there are.
    pub fn term_count(&self) -> (r: usize)
        ensures
            r == self@.list.len(),
    {
        if self.regexes.is_empty() {
            self.plains.len()
        } else {
            self.regexes.len()
        }
    }

    /// Where each plain text is found in a text that is in lower case already.
    pub open spec fn plain_finds(&self, lower: Seq<char>) -> Seq<Option<Find>> {
        Seq::new(
            self.plains@.len(),
            |i: int|
                match first_position(lower, self.plains@[i]@) {
                    Some(p) => Some(Find { text: self.plains@[i]@, at: p }),
                    None => None,
                },
        )
    }

    /// Matches the plain texts in a text that is in lower case already.
    fn plain_match(&self, lower: &str) -> (r: Option<MatchInfo>)
        ensures
            found(r) == outcome(self.plain_finds(lower@), self.and_mode),
            r matches Some(i) ==> self.and_mode || stands_at(
                lower@,
                i.matched@,
                i.char_pos as int,
            ),
    {
        let chars = to_chars(lower);
        let mut hits: Vec<Option<MatchInfo>> = Vec::new();
        let mut i: usize = 0;
        while i < self.plains.len()
            invariant
                i <= self.plains.len(),
                chars@ == lower@,
                hits.len() == i,
                all_finds(hits@) == self.plain_finds(lower@).take(i as int),
                all_stand(all_finds(hits@), lower@),
            decreases self.plains.len() - i,
        {
            let q = to_chars(self.plains[i].as_str());
            match find_chars(&chars, &q, 0) {
                Some(p) => {
                    hits.push(Some(MatchInfo { matched: self.plains[i].clone(), char_pos: p }));
                },
                None => {
                    hits.push(None);
                },
            }
            assert(found(hits@[i as int]) == self.plain_finds(lower@)[i as int]);
            assert(all_finds(hits@) =~= self.plain_finds(lower@).take(i + 1));
            proof {
                lemma_find_from(lower@, q@, 0);
            }
            i = i + 1;
        }
        assert(all_finds(hits@) =~= self.plain_finds(lower@));
        proof {
            lemma_earliest_stands(all_finds(hits@), lower@);
        }
        combine(hits, self.and_mode)
    }

    /// Matches the regular expressions in a text.
    fn regex_match(&self, text: &str) -> (r: Option<MatchInfo>)
        requires
            self.wf(),
            self.regexes@.len() > 0,
        ensures
            found(r) == match_of(self@, text@),
            r matches Some(i) ==> self.and_mode || stands_at(
                text@,
                i.matched@,
                i.char_pos as int,
            ),
    {
        let mut hits: Vec<Option<MatchInfo>> = Vec::new();
        let mut i: usize = 0;
        while i < self.regexes.len()
            invariant
                i <= self.regexes.len(),
                self.wf(),
                self@.regex,
                self@.list == patterns(self.regexes@),
                hits.len() == i,
                all_finds(hits@) == term_finds(self@, text@).take(i as int),
                all_stand(all_finds(hits@), text@),
            decreases self.regexes.len() - i,
        {
            assert(compiled_from(self.regexes@[i as int]) is Some);
            match find(&self.regexes[i], text) {
                Some((ahead, hit)) => {
                    let char_pos: usize = ahead.as_str().unicode_len();
                    hits.push(Some(MatchInfo { matched: hit, char_pos }));
                },
                None => {
                    hits.push(None);
                },
            }
            assert(found(hits@[i as int]) == term_finds(self@, text@)[i as int]);
            assert(all_finds(hits@) =~= term_finds(self@, text@).take(i + 1));
            i = i + 1;
        }
        assert(all_finds(hits@) =~= term_finds(self@, text@));
        proof {
            lemma_earliest_stands(all_finds(hits@), text@);
        }
        combine(hits, self.and_mode)
    }
}

// ---- Laws of matching -----------------------------------------------------

/// Where the earliest of a list of finds stands: nothing exactly where nothing was found, else
/// a find that no other stands before, and that of the first term of those at its position.
pub proof fn law_earliest_is_first_and_nearest(finds: Seq<Option<Find>>)
    ensures
        match earliest(finds) {
            Some(f) => exists|i: int|
                {
                    &&& 0 <= i < finds.len()
                    &&& #[trigger] finds[i] == Some(f)
                    &&& forall|j: int|
                        0 <= j < finds.len() ==> (#[trigger] finds[j] matches Some(g) ==> f.at
                            <= g.at && (j < i ==> f.at < g.at))
                },
            None => forall|j: int| 0 <= j < finds.len() ==> #[trigger] finds[j] is None,
        },
    decreases finds.len(),
{
    if finds.len() > 0 {
        let rest = finds.drop_last();
        law_earliest_is_first_and_nearest(rest);
        let n = finds.len() - 1;
        match earliest(finds) {
            Some(f) => {
                if earliest(rest) == Some(f) {
                    let i = choose|i: int|
                        {
                            &&& 0 <= i < rest.len()
                            &&& #[trigger] rest[i] == Some(f)
                            &&& forall|j: int|
                                0 <= j < rest.len() ==> (#[trigger] rest[j] matches Some(g)
                                    ==> f.at <= g.at && (j < i ==> f.at < g.at))
                        };
                    assert(finds[i] == Some(f));
                    assert forall|j: int| 0 <= j < finds.len() implies (
                    #[trigger] finds[j] matches Some(g) ==> f.at <= g.at && (j < i ==> f.at
                        < g.at)) by {
                        if j < n {
                            assert(rest[j] == finds[j]);
                        }
                    }
                } else {
                    assert(finds[n] == Some(f));
                    assert forall|j: int| 0 <= j < finds.len() implies (
                    #[trigger] finds[j] matches Some(g) ==> f.at <= g.at && (j < n ==> f.at
                        < g.at)) by {
                        if j < n {
                            assert(rest[j] == finds[j]);
                        }
                    }
                }
            },
            None => {
                assert forall|j: int| 0 <= j < finds.len() implies #[trigger] finds[j] is None by {
                    if j < n {
                        assert(rest[j] == finds[j]);
                    }
                }
            },
        }
    }
}

/// Queries of which one must be found match exactly where one is found.
pub proof fn law_any_matches_iff_one_is_found(t: Terms, text: Seq<char>)
    requires
        !t.all,
    ensures
        match_of(t, text) is Some <==> exists|i: int|
            0 <= i < t.list.len() && #[trigger] term_find(t, i, text) is Some,
{
    let finds = term_finds(t, text);
    law_earliest_is_first_and_nearest(finds);
    if match_of(t, text) is Some {
        let f = match_of(t, text)->0;
        let i = choose|i: int| 0 <= i < finds.len() && #[trigger] finds[i] == Some(f);
        assert(term_find(t, i, text) is Some);
    } else {
        assert forall|i: int| 0 <= i < t.list.len() implies #[trigger] term_find(t, i, text)
            is None by {
            assert(finds[i] is None);
        }
    }
}

/// Queries that must all be found match exactly where each is found.
pub proof fn law_all_match_iff_each_is_found(t: Terms, text: Seq<char>)
    requires
        t.all,
    ensures
        match_of(t, text) is Some <==> forall|i: int|
            0 <= i < t.list.len() ==> #[trigger] term_find(t, i, text) is Some,
{
    let finds = term_finds(t, text);
    if match_of(t, text) is Some {
        assert forall|i: int| 0 <= i < t.list.len() implies #[trigger] term_find(t, i, text)
            is Some by {
            assert(finds[i] is Some);
        }
    }
}

/// What matches where all queries must be found, also matches where one must, and at the same
/// position.
pub proof fn law_all_implies_any(t: Terms, text: Seq<char>)
    requires
        t.all,
        t.list.len() > 0,
        match_of(t, text) is Some,
    ensures
        match_of(Terms { all: false, ..t }, text) matches Some(f) && f.at == match_of(
            t,
            text,
        )->0.at,
{
    let any = Terms { all: false, ..t };
    let finds = term_finds(t, text);
    assert(term_finds(any, text) =~= finds);
    law_earliest_is_first_and_nearest(finds);
    assert(finds[0] is Some);
}

/// Plain queries are found in any case: two texts that are the same in lower case match alike,
/// and at the same place there.
pub proof fn law_plain_queries_ignore_case(t: Terms, a: Seq<char>, b: Seq<char>)
    requires
        !t.regex,
        lowercase(a) == lowercase(b),
    ensures
        match_of(t, a) == match_of(t, b),
        counts(t, a) == counts(t, b),
{
    assert(term_finds(t, a) =~= term_finds(t, b));
    assert(counts(t, a) =~= counts(t, b));
}

/// A plain query is found exactly where the text holds it, both in lower case.
pub proof fn law_plain_query_is_a_substring(queries: Seq<Seq<char>>, i: int, text: Seq<char>)
    requires
        0 <= i < queries.len(),
    ensures
        term_find(terms(queries, false, false), i, text) is Some <==> contains_text(
            lowercase(text),
            lowercase(queries[i]),
        ),
{
    lemma_contains_iff_found(lowercase(text), lowercase(queries[i]));
}

/// What is reported of patterns is the fault of the first that did not compile.
pub proof fn law_first_fault_is_reported(compiled: Seq<Result<Regex, regex::Error>>)
    ensures
        match first_fault(compiled) {
            Some(t) => exists|i: int|
                0 <= i < compiled.len() && (#[trigger] compiled[i] matches Err(e) && fault_text(e)
                    == t) && forall|j: int| 0 <= j < i ==> #[trigger] compiled[j] is Ok,
            None => forall|j: int| 0 <= j < compiled.len() ==> #[trigger] compiled[j] is Ok,
        },
    decreases compiled.len(),
{
    if compiled.len() > 0 {
        let rest = compiled.drop_last();
        let n = compiled.len() - 1;
        law_first_fault_is_reported(rest);
        if first_fault(rest) is Some {
            let t = first_fault(rest)->0;
            let i = choose|i: int|
                0 <= i < rest.len() && (#[trigger] rest[i] matches Err(e) && fault_text(e) == t)
                    && forall|j: int| 0 <= j < i ==> #[trigger] rest[j] is Ok;
            assert(compiled[i] == rest[i]);
            assert forall|j: int| 0 <= j < i implies #[trigger] compiled[j] is Ok by {
                assert(rest[j] is Ok);
            }
        } else {
            assert forall|j: int| 0 <= j < n implies #[trigger] compiled[j] is Ok by {
                assert(rest[j] is Ok);
            }
            assert(compiled[n] == compiled.last());
        }
    }
}

/// Where all patterns must match, what each matches first is named, in the order of the
/// patterns.
pub proof fn law_all_pattern_matches_are_named(t: Terms, text: Seq<char>)
    requires
        t.regex,
        t.all,
        match_of(t, text) is Some,
    ensures
        match_of(t, text)->0.text == joined(
            Seq::new(
                t.list.len(),
                |i: int|
                    text.subrange(
                        (regex_first(t.list[i], text)->0).0,
                        (regex_first(t.list[i], text)->0).1,
                    ),
            ),
            " + "@,
        ),
{
    let finds = term_finds(t, text);
    assert forall|i: int| 0 <= i < finds.len() implies #[trigger] finds[i] is Some by {}
    assert(reported(finds) =~= Seq::new(
        t.list.len(),
        |i: int|
            text.subrange((regex_first(t.list[i], text)->0).0, (regex_first(t.list[i], text)->0).1),
    )) by {
        assert forall|i: int| 0 <= i < finds.len() implies (#[trigger] finds[i])->0.text
            == text.subrange(
            (regex_first(t.list[i], text)->0).0,
            (regex_first(t.list[i], text)->0).1,
        ) by {
            assert(finds[i] == term_find(t, i, text));
        }
    }
}

} // verus!
