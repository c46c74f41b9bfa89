//! What a search promises of its results, in terms of the log and of what was asked for.
use vstd::prelude::*;
use vstd::string::*;

use super::corpus::{
    merged, one_doc, Corpus, CorpusStats,
};
use super::groups::{groups, law_no_more_groups_than_matches};
use super::matcher::{
    counts, law_all_implies_any, law_all_match_iff_each_is_found, law_any_matches_iff_one_is_found,
    law_earliest_is_first_and_nearest, located, match_of, regex_first, regex_total, term_find,
    term_finds, Terms,
};
use super::records::{group_value, hit_value, search_summary_value, Hit};
use super::results::{
    distinct, law_each_snippet_is_kept_once, law_sorting_is_a_stable_permutation,
    law_sorting_moves_each_match_once, sorted,
};
use super::scan::{
    ancestry, calls, corpus_among, ctx_of, hit_at, hits_among, in_time,
    law_every_matching_message_is_listed, law_only_matching_messages_are_listed,
    law_session_counts_are_consistent, matches_at, messages, msg, queries_of, scoring, searchable,
    searched, searched_text, session_hits, terms_of,
};
use super::snippet::snippet;
use super::threads::root_of;
use super::{
    all_hits, concluded, hint_due, kept, ran, rated, result_lines, result_values, scored,
    summary_of, wanted, wanted_sessions, whole_corpus, with_hint, GroupMode, HINT, SearchOpts,
    SortMode,
};
use crate::cmd::Session;
use crate::models::{message_of, parent_of, reading_of, role_of, tools_of, touches, Reading, Record};
use crate::output::emit::{
    block, header_value, new_stream, offered_all, taken_count, value_lines, Stream,
};
use crate::output::history::law_listings_are_written_in_order;
use crate::output::records::{error_text, error_value};
use crate::output::SMC_TAG;
use crate::text::{
    begins_with, contains_text, joined, lemma_contains_iff_found, lemma_find_from,
    lemma_occurrences_positive, lowercase, occurrences, opt_text, origin, stands_at, text_lt,
    texts, whitespace, words,
};
use crate::util::dates::upper_bound;
use crate::util::discover::SessionFile;

verus! {

broadcast use {
    vstd::seq::group_seq_axioms,
    vstd::string::group_string_axioms,
    vstd::map::group_map_axioms,
};

// ---- The messages of a log ------------------------------------------------

/// The messages of a log are those of its parts one after the other: every record of the user,
/// the assistant or the system is one, and no other.
pub proof fn law_messages_are_the_records_that_carry_one(
    a: Seq<(usize, Record)>,
    b: Seq<(usize, Record)>,
    r: (usize, Record),
)
    ensures
        messages(Seq::empty()) == Seq::<(usize, Record)>::empty(),
        messages(a + b) == messages(a) + messages(b),
        messages(seq![r]) == if r.1 is User || r.1 is Assistant || r.1 is System {
            seq![r]
        } else {
            Seq::empty()
        },
    decreases b.len(),
{
    reveal_with_fuel(messages, 2);
    assert(seq![r].drop_last() =~= Seq::empty());
    assert(messages(seq![r]) =~= if r.1 is User || r.1 is Assistant || r.1 is System {
        seq![r]
    } else {
        Seq::empty()
    });
    if b.len() == 0 {
        assert(a + b =~= a);
        assert(messages(a) + messages(b) =~= messages(a));
    } else {
        assert((a + b).drop_last() =~= a + b.drop_last());
        law_messages_are_the_records_that_carry_one(a, b.drop_last(), r);
        assert(messages(a + b) =~= messages(a) + messages(b));
    }
}

/// A message stands in the log.
proof fn lemma_message_is_a_record(records: Seq<(usize, Record)>, k: int) -> (i: int)
    requires
        0 <= k < messages(records).len(),
    ensures
        0 <= i < records.len(),
        messages(records)[k] == records[i],
        message_of(records[i].1) is Some,
    decreases records.len(),
{
    let rest = records.drop_last();
    if k < messages(rest).len() {
        lemma_message_is_a_record(rest, k)
    } else {
        records.len() - 1
    }
}

/// A record that carries a message is one of the messages.
proof fn lemma_record_is_a_message(records: Seq<(usize, Record)>, i: int) -> (k: int)
    requires
        0 <= i < records.len(),
        message_of(records[i].1) is Some,
    ensures
        0 <= k < messages(records).len(),
        messages(records)[k] == records[i],
    decreases records.len(),
{
    let rest = records.drop_last();
    if i < rest.len() {
        lemma_record_is_a_message(rest, i)
    } else {
        messages(rest).len() as int
    }
}

// ---- What is found --------------------------------------------------------

/// Whether a text matches: one of the queries is found in it, or all of them where all must be.
proof fn lemma_text_matches(opts: SearchOpts, qs: Seq<Seq<char>>, text: Seq<char>)
    requires
        opts.phrase ==> qs == seq![joined(texts(opts.queries@), " "@)],
        !opts.phrase ==> qs == texts(opts.queries@),
    ensures
        ({
            match_of(terms_of(opts), text) is Some <==> if opts.and_mode {
                forall|i: int|
                    0 <= i < qs.len() ==> if opts.is_regex {
                        regex_first(#[trigger] qs[i], text) is Some
                    } else {
                        contains_text(lowercase(text), lowercase(qs[i]))
                    }
            } else {
                exists|i: int|
                    0 <= i < qs.len() && if opts.is_regex {
                        regex_first(#[trigger] qs[i], text) is Some
                    } else {
                        contains_text(lowercase(text), lowercase(qs[i]))
                    }
            }
        }),
{
    let t = terms_of(opts);
    assert(qs == queries_of(opts));
    assert(t.list.len() == qs.len());
    assert forall|i: int| 0 <= i < qs.len() implies (term_find(t, i, text) is Some
        <==> if opts.is_regex {
        regex_first(#[trigger] qs[i], text) is Some
    } else {
        contains_text(lowercase(text), lowercase(qs[i]))
    }) by {
        lemma_contains_iff_found(lowercase(text), lowercase(qs[i]));
    }
    if opts.and_mode {
        law_all_match_iff_each_is_found(t, text);
        if forall|i: int|
            0 <= i < qs.len() ==> if opts.is_regex {
                regex_first(#[trigger] qs[i], text) is Some
            } else {
                contains_text(lowercase(text), lowercase(qs[i]))
            } {
            assert forall|i: int| 0 <= i < t.list.len() implies #[trigger] term_find(t, i, text)
                is Some by {
                assert(qs[i] == qs[i]);
            }
        }
        if match_of(t, text) is Some {
            assert forall|i: int| 0 <= i < qs.len() implies if opts.is_regex {
                regex_first(#[trigger] qs[i], text) is Some
            } else {
                contains_text(lowercase(text), lowercase(qs[i]))
            } by {
                assert(term_find(t, i, text) is Some);
            }
        }
    } else {
        law_any_matches_iff_one_is_found(t, text);
        if match_of(t, text) is Some {
            let i = choose|i: int| 0 <= i < t.list.len() && #[trigger] term_find(t, i, text) is Some;
            assert(0 <= i < qs.len() && if opts.is_regex {
                regex_first(qs[i], text) is Some
            } else {
                contains_text(lowercase(text), lowercase(qs[i]))
            });
        }
        if exists|i: int|
            0 <= i < qs.len() && if opts.is_regex {
                regex_first(#[trigger] qs[i], text) is Some
            } else {
                contains_text(lowercase(text), lowercase(qs[i]))
            } {
            let i = choose|i: int|
                0 <= i < qs.len() && if opts.is_regex {
                    regex_first(#[trigger] qs[i], text) is Some
                } else {
                    contains_text(lowercase(text), lowercase(qs[i]))
                };
            assert(term_find(t, i, text) is Some);
        }
    }
}

/// Every match that is listed is a message of the log, record `i`, that was asked for in every
/// respect: it is of the role, calls a tool of the name, lies on the branch, touches the file,
/// and lies within each of the dates by itself; it has text, which quotes no earlier output
/// unless that is asked for, and in which the queries are found. The match tells of that
/// message.
pub proof fn law_listed_matches_were_asked_for(
    file: SessionFile,
    opts: SearchOpts,
    qs: Seq<Seq<char>>,
    records: Seq<(usize, Record)>,
    j: int,
) -> (i: int)
    requires
        opts.phrase ==> qs == seq![joined(texts(opts.queries@), " "@)],
        !opts.phrase ==> qs == texts(opts.queries@),
        0 <= j < session_hits(file, opts, records).len(),
    ensures
        0 <= i < records.len(),
        message_of(records[i].1) is Some,
        ({
            let h = session_hits(file, opts, records)[j];
            let (line, r) = records[i];
            let m = message_of(r)->0;
            let text = if opts.tool_input {
                reading_of(m, Reading::ToolInput)
            } else {
                reading_of(m, Reading::Full)
            };
            &&& h.record_type == "match"@
            &&& h.score is None
            &&& located(terms_of(opts), text) matches Some(f) && h.matched_query == f.text
                && h.match_offset == f.at as usize && h.text == snippet(
                text,
                f.at,
                opts.snippet_len as int,
            )
            &&& opts.score || opts.sort == SortMode::Relevance ==> h.doc_len == words(text) as usize
                && h.tfs == counts(terms_of(opts), text)
            &&& h.line == line
            &&& h.role == role_of(r)
            &&& h.uuid == opt_text(m.uuid)
            &&& h.timestamp == opt_text(m.timestamp)
            &&& h.git_branch == opt_text(m.git_branch)
            &&& h.tool_names == tools_of(m)
            &&& h.project == file.project_name@
            &&& h.session_id == file.session_id@
            &&& h.msg_chars == text.len() as usize
            &&& text.len() > 0
            &&& opts.include_smc || !contains_text(text, SMC_TAG@)
        }),
        ({
            let h = session_hits(file, opts, records)[j];
            &&& opts.role matches Some(role) ==> h.role == role@
            &&& opts.tool matches Some(tool) ==> exists|k: int|
                0 <= k < h.tool_names.len() && contains_text(
                    lowercase(#[trigger] h.tool_names[k]),
                    lowercase(tool@),
                )
            &&& opts.branch matches Some(branch) ==> (h.git_branch matches Some(b)
                && contains_text(lowercase(b), lowercase(branch@)))
            &&& opts.file matches Some(path) ==> touches(message_of(records[i].1)->0, path@)
        }),
        ({
            let h = session_hits(file, opts, records)[j];
            &&& opts.after matches Some(a) ==> (h.timestamp matches Some(ts) && !text_lt(ts, a@))
            &&& opts.before matches Some(b) ==> (h.timestamp matches Some(ts) && !text_lt(
                upper_bound(b@),
                ts,
            ))
        }),
        ({
            let m = message_of(records[i].1)->0;
            let text = if opts.tool_input {
                reading_of(m, Reading::ToolInput)
            } else {
                reading_of(m, Reading::Full)
            };
            if opts.and_mode {
                forall|k: int|
                    0 <= k < qs.len() ==> if opts.is_regex {
                        regex_first(#[trigger] qs[k], text) is Some
                    } else {
                        contains_text(lowercase(text), lowercase(qs[k]))
                    }
            } else {
                exists|k: int|
                    0 <= k < qs.len() && if opts.is_regex {
                        regex_first(#[trigger] qs[k], text) is Some
                    } else {
                        contains_text(lowercase(text), lowercase(qs[k]))
                    }
            }
        }),
{
    let ms = messages(records);
    let n = ms.len() as int;
    law_only_matching_messages_are_listed(file, opts, ms, n, j);
    let k = choose|k: int|
        0 <= k < n && #[trigger] matches_at(opts, ms, k) && hits_among(file, opts, ms, n)[j]
            == hit_at(file, opts, ms, k);
    let i = lemma_message_is_a_record(records, k);
    let m = msg(ms[k]);
    lemma_text_matches(opts, qs, searched_text(opts, m));
    assert(searchable(opts, records[i].1, m));
    let h = session_hits(file, opts, records)[j];
    if let Some(tool) = opts.tool {
        assert(calls(m, tool@));
        let c = choose|c: int|
            0 <= c < tools_of(m).len() && contains_text(
                lowercase(#[trigger] tools_of(m)[c]),
                lowercase(tool@),
            );
        assert(contains_text(lowercase(h.tool_names[c]), lowercase(tool@)));
    }
    i
}

/// No message is missed that was asked for: one of the role, that calls a tool of the name, lies
/// on the branch, touches the file and lies within the dates, whose text quotes no earlier
/// output unless that is asked for, and in which the queries are found, is listed.
pub proof fn law_no_match_is_missed(
    file: SessionFile,
    opts: SearchOpts,
    qs: Seq<Seq<char>>,
    records: Seq<(usize, Record)>,
    i: int,
)
    requires
        opts.phrase ==> qs == seq![joined(texts(opts.queries@), " "@)],
        !opts.phrase ==> qs == texts(opts.queries@),
        0 <= i < records.len(),
        message_of(records[i].1) is Some,
        ({
            let r = records[i].1;
            let m = message_of(r)->0;
            let text = if opts.tool_input {
                reading_of(m, Reading::ToolInput)
            } else {
                reading_of(m, Reading::Full)
            };
            &&& text.len() > 0
            &&& opts.include_smc || !contains_text(text, SMC_TAG@)
            &&& opts.role matches Some(role) ==> role_of(r) == role@
            &&& opts.tool matches Some(tool) ==> exists|k: int|
                0 <= k < tools_of(m).len() && contains_text(
                    lowercase(#[trigger] tools_of(m)[k]),
                    lowercase(tool@),
                )
            &&& opts.branch matches Some(branch) ==> (m.git_branch matches Some(b)
                && contains_text(lowercase(b@), lowercase(branch@)))
            &&& opts.file matches Some(path) ==> touches(m, path@)
            &&& opts.after matches Some(a) ==> (m.timestamp matches Some(ts) && !text_lt(
                ts@,
                a@,
            ))
            &&& opts.before matches Some(b) ==> (m.timestamp matches Some(ts) && !text_lt(
                upper_bound(b@),
                ts@,
            ))
            &&& if opts.and_mode {
                forall|k: int|
                    0 <= k < qs.len() ==> if opts.is_regex {
                        regex_first(#[trigger] qs[k], text) is Some
                    } else {
                        contains_text(lowercase(text), lowercase(qs[k]))
                    }
            } else {
                exists|k: int|
                    0 <= k < qs.len() && if opts.is_regex {
                        regex_first(#[trigger] qs[k], text) is Some
                    } else {
                        contains_text(lowercase(text), lowercase(qs[k]))
                    }
            }
        }),
    ensures
        exists|j: int|
            0 <= j < session_hits(file, opts, records).len() && {
                let h = #[trigger] session_hits(file, opts, records)[j];
                let m = message_of(records[i].1)->0;
                h.line == records[i].0 && h.uuid == opt_text(m.uuid) && h.role == role_of(
                    records[i].1,
                ) && h.timestamp == opt_text(m.timestamp)
            },
{
    let ms = messages(records);
    let k = lemma_record_is_a_message(records, i);
    let m = msg(ms[k]);
    lemma_text_matches(opts, qs, searched_text(opts, m));
    assert(in_time(opts, m));
    assert(searchable(opts, ms[k].1, m));
    assert(matches_at(opts, ms, k));
    law_every_matching_message_is_listed(file, opts, ms, ms.len() as int, k);
    let j = hits_among(file, opts, ms, k).len() as int;
    assert(session_hits(file, opts, records)[j] == hit_at(file, opts, ms, k));
}

// ---- What a match tells ---------------------------------------------------

/// The messages shown around a match are told of as they stand in the log: with their line,
/// role and timestamp, and with the first 200 characters of all that they hold, tool calls and
/// results as well.
pub proof fn law_neighbours_are_shown_with_all_they_hold(
    file: SessionFile,
    opts: SearchOpts,
    ms: Seq<(usize, Record)>,
    k: int,
    j: int,
)
    requires
        0 <= k < ms.len(),
        0 <= j,
    ensures
        ({
            let shown = hit_at(file, opts, ms, k).context_before;
            j < shown.len() ==> {
                let r = ms[k - shown.len() + j];
                let full = reading_of(message_of(r.1)->0, Reading::Full);
                &&& shown[j].line == r.0
                &&& shown[j].role == role_of(r.1)
                &&& shown[j].timestamp == opt_text((message_of(r.1)->0).timestamp)
                &&& shown[j].text.len() == if full.len() < 200 {
                    full.len() as int
                } else {
                    200
                }
                &&& forall|c: int|
                    0 <= c < shown[j].text.len() ==> #[trigger] shown[j].text[c] == full[c]
            }
        }),
        ({
            let shown = hit_at(file, opts, ms, k).context_after;
            j < shown.len() ==> {
                let r = ms[k + 1 + j];
                let full = reading_of(message_of(r.1)->0, Reading::Full);
                &&& shown[j].line == r.0
                &&& shown[j].role == role_of(r.1)
                &&& shown[j].timestamp == opt_text((message_of(r.1)->0).timestamp)
                &&& shown[j].text.len() == if full.len() < 200 {
                    full.len() as int
                } else {
                    200
                }
                &&& forall|c: int|
                    0 <= c < shown[j].text.len() ==> #[trigger] shown[j].text[c] == full[c]
            }
        }),
{
    let n = opts.context as int;
    let h = hit_at(file, opts, ms, k);
    if j < h.context_before.len() {
        assert(h.context_before[j] == ctx_of(ms[k - h.context_before.len() + j]));
    }
    if j < h.context_after.len() {
        assert(h.context_after[j] == ctx_of(ms[k + 1 + j]));
    }
}

/// Where one query must be found, the match of plain queries names query `i`, in lower case: it
/// stands at place `p` of the lower-cased text, no query stands before that place, and no query
/// given before it stands there. The position given is that of the character at that place.
pub proof fn law_plain_match_names_the_earliest_query(
    opts: SearchOpts,
    qs: Seq<Seq<char>>,
    text: Seq<char>,
) -> (found: (int, int))
    requires
        opts.phrase ==> qs == seq![joined(texts(opts.queries@), " "@)],
        !opts.phrase ==> qs == texts(opts.queries@),
        !opts.is_regex,
        !opts.and_mode,
        located(terms_of(opts), text) is Some,
    ensures
        ({
            let f = located(terms_of(opts), text)->0;
            let (i, p) = found;
            &&& 0 <= i < qs.len()
            &&& f.text == lowercase(qs[i])
            &&& f.at == origin(text, p)
            &&& stands_at(lowercase(text), lowercase(qs[i]), p)
            &&& forall|k: int, q: int|
                0 <= k < qs.len() && 0 <= q && (q < p || (q == p && k < i))
                    ==> !#[trigger] stands_at(lowercase(text), lowercase(qs[k]), q)
        }),
{
    let t = terms_of(opts);
    let finds = term_finds(t, text);
    law_earliest_is_first_and_nearest(finds);
    let f = match_of(t, text)->0;
    let i = choose|i: int|
        {
            &&& 0 <= i < finds.len()
            &&& #[trigger] finds[i] == Some(f)
            &&& forall|j: int|
                0 <= j < finds.len() ==> (#[trigger] finds[j] matches Some(g) ==> f.at <= g.at && (j
                    < i ==> f.at < g.at))
        };
    assert(finds[i] == term_find(t, i, text));
    lemma_find_from(lowercase(text), lowercase(qs[i]), 0);
    assert forall|k: int, q: int|
        0 <= k < qs.len() && 0 <= q && (q < f.at || (q == f.at && k < i)) implies !#[trigger] stands_at(
        lowercase(text),
        lowercase(qs[k]),
        q,
    ) by {
        assert(finds[k] == term_find(t, k, text));
        lemma_find_from(lowercase(text), lowercase(qs[k]), 0);
    }
    (i, f.at)
}

/// Where all queries must be found, the match names each of the plain queries, in lower case
/// and in their order, and its position is that of the earliest.
pub proof fn law_all_plain_queries_are_named(
    opts: SearchOpts,
    qs: Seq<Seq<char>>,
    text: Seq<char>,
)
    requires
        opts.phrase ==> qs == seq![joined(texts(opts.queries@), " "@)],
        !opts.phrase ==> qs == texts(opts.queries@),
        !opts.is_regex,
        opts.and_mode,
        located(terms_of(opts), text) is Some,
    ensures
        ({
            let f = located(terms_of(opts), text)->0;
            let any = SearchOpts { and_mode: false, ..opts };
            &&& f.text == joined(qs.map_values(|q: Seq<char>| lowercase(q)), " + "@)
            &&& qs.len() > 0 ==> located(terms_of(any), text) is Some && f.at == located(
                terms_of(any),
                text,
            )->0.at
        }),
{
    let t = terms_of(opts);
    let any = SearchOpts { and_mode: false, ..opts };
    let finds = term_finds(t, text);
    assert forall|i: int| 0 <= i < finds.len() implies #[trigger] finds[i] is Some by {}
    assert(super::matcher::reported(finds) =~= qs.map_values(|q: Seq<char>| lowercase(q))) by {
        assert forall|i: int| 0 <= i < finds.len() implies (#[trigger] finds[i])->0.text
            == lowercase(qs[i]) by {
            assert(finds[i] == term_find(t, i, text));
        }
    }
    if qs.len() > 0 {
        law_all_implies_any(t, text);
        assert(terms_of(any) == (Terms { all: false, ..t }));
    }
}

/// Where one query must be found, the match of regular expressions names what pattern `i`
/// matches first, and stands where that does; no pattern matches before it, and none given
/// before it there.
pub proof fn law_pattern_match_names_the_earliest(
    opts: SearchOpts,
    qs: Seq<Seq<char>>,
    text: Seq<char>,
) -> (i: int)
    requires
        opts.phrase ==> qs == seq![joined(texts(opts.queries@), " "@)],
        !opts.phrase ==> qs == texts(opts.queries@),
        opts.is_regex,
        !opts.and_mode,
        located(terms_of(opts), text) is Some,
    ensures
        0 <= i < qs.len(),
        ({
            let f = located(terms_of(opts), text)->0;
            &&& regex_first(qs[i], text) matches Some((from, to)) && f.at == from && f.text
                == text.subrange(from, to)
            &&& forall|k: int|
                0 <= k < qs.len() ==> (regex_first(#[trigger] qs[k], text) matches Some((from, _))
                    ==> f.at <= from && (k < i ==> f.at < from))
        }),
{
    let t = terms_of(opts);
    let finds = term_finds(t, text);
    law_earliest_is_first_and_nearest(finds);
    let f = match_of(t, text)->0;
    let i = choose|i: int|
        {
            &&& 0 <= i < finds.len()
            &&& #[trigger] finds[i] == Some(f)
            &&& forall|j: int|
                0 <= j < finds.len() ==> (#[trigger] finds[j] matches Some(g) ==> f.at <= g.at && (j
                    < i ==> f.at < g.at))
        };
    assert(finds[i] == term_find(t, i, text));
    assert forall|k: int| 0 <= k < qs.len() implies (regex_first(#[trigger] qs[k], text) matches
        Some((from, _)) ==> f.at <= from && (k < i ==> f.at < from)) by {
        assert(finds[k] == term_find(t, k, text));
    }
    i
}

/// How often each query is counted in a message: as often as it stands there, in any case and
/// without overlap, or as often as its pattern matches.
pub proof fn law_queries_are_counted_by_themselves(
    opts: SearchOpts,
    qs: Seq<Seq<char>>,
    text: Seq<char>,
    i: int,
)
    requires
        opts.phrase ==> qs == seq![joined(texts(opts.queries@), " "@)],
        !opts.phrase ==> qs == texts(opts.queries@),
        0 <= i < qs.len(),
    ensures
        counts(terms_of(opts), text).len() == qs.len(),
        opts.is_regex ==> counts(terms_of(opts), text)[i] == regex_total(qs[i], text) as usize,
        !opts.is_regex && occurrences(lowercase(text), lowercase(qs[i])) <= usize::MAX ==> counts(
            terms_of(opts),
            text,
        )[i] == occurrences(lowercase(text), lowercase(qs[i])),
{
}

/// The thread of a match is named where matches are grouped by thread and the message has an
/// id: it is the root of the walk along the parents that the log names.
pub proof fn law_threads_are_named_by_their_root(
    file: SessionFile,
    opts: SearchOpts,
    ms: Seq<(usize, Record)>,
    k: int,
)
    requires
        0 <= k < ms.len(),
    ensures
        hit_at(file, opts, ms, k).thread_root == match (message_of(ms[k].1)->0).uuid {
            Some(id) => if opts.group_by == Some(GroupMode::Thread) {
                Some(root_of(ancestry(ms), id@))
            } else {
                None
            },
            None => None,
        },
{
}

/// The log names the parent of each message that has an id; where an id repeats, the later
/// message counts.
pub proof fn law_later_messages_name_the_parent(
    a: Seq<(usize, Record)>,
    b: Seq<(usize, Record)>,
    r: (usize, Record),
)
    ensures
        ancestry(Seq::empty()) == Map::<Seq<char>, Option<Seq<char>>>::empty(),
        ancestry(a + b) == ancestry(a).union_prefer_right(ancestry(b)),
        ancestry(seq![r]) == match (message_of(r.1)->0).uuid {
            Some(id) => Map::empty().insert(id@, parent_of(message_of(r.1)->0)),
            None => Map::empty(),
        },
    decreases b.len(),
{
    reveal_with_fuel(ancestry, 2);
    assert(seq![r].drop_last() =~= Seq::empty());
    if b.len() == 0 {
        assert(a + b =~= a);
        assert(ancestry(a).union_prefer_right(ancestry(b)) =~= ancestry(a));
    } else {
        assert((a + b).drop_last() =~= a + b.drop_last());
        law_later_messages_name_the_parent(a, b.drop_last(), r);
        assert(ancestry(a + b) =~= ancestry(a).union_prefer_right(ancestry(b)));
    }
}

// ---- What is counted ------------------------------------------------------

/// As many terms are counted as there are.
proof fn lemma_terms_are_counted(opts: SearchOpts, ms: Seq<(usize, Record)>, n: int)
    ensures
        corpus_among(opts, ms, n).df.len() == terms_of(opts).list.len(),
    decreases n,
{
    if n > 0 {
        lemma_terms_are_counted(opts, ms, n - 1);
    }
}

/// Where relevance is scored, every message that is searched counts once, whether it matches or
/// not: one message, with all its words, and once for each query that it holds, a plain text or
/// a pattern that matches. Other messages do not count, and without scores none does.
pub proof fn law_every_searched_message_counts_once(
    opts: SearchOpts,
    qs: Seq<Seq<char>>,
    ms: Seq<(usize, Record)>,
    n: int,
    i: int,
)
    requires
        opts.phrase ==> qs == seq![joined(texts(opts.queries@), " "@)],
        !opts.phrase ==> qs == texts(opts.queries@),
        0 <= n < ms.len(),
        0 <= i < qs.len(),
        n < usize::MAX,
    ensures
        corpus_among(opts, ms, 0).docs == 0,
        corpus_among(opts, ms, 0).total_len == 0,
        corpus_among(opts, ms, 0).df[i] == 0,
        ({
            let (a, b) = (corpus_among(opts, ms, n), corpus_among(opts, ms, n + 1));
            let text = if opts.tool_input {
                reading_of(message_of(ms[n].1)->0, Reading::ToolInput)
            } else {
                reading_of(message_of(ms[n].1)->0, Reading::Full)
            };
            let counted = (opts.score || opts.sort == SortMode::Relevance) && searchable(
                opts,
                ms[n].1,
                message_of(ms[n].1)->0,
            );
            &&& counted ==> b.docs == a.docs + 1
            &&& counted && a.total_len + words(text) <= usize::MAX ==> b.total_len == a.total_len
                + words(text)
            &&& counted ==> b.df[i] == a.df[i] + if (if opts.is_regex {
                regex_total(qs[i], text) as usize > 0
            } else {
                contains_text(lowercase(text), lowercase(qs[i]))
            }) {
                1int
            } else {
                0int
            }
            &&& !counted ==> b == a
        }),
{
    let (a, b) = (corpus_among(opts, ms, n), corpus_among(opts, ms, n + 1));
    let text = searched_text(opts, msg(ms[n]));
    lemma_terms_are_counted(opts, ms, n);
    lemma_terms_are_counted(opts, ms, n + 1);
    lemma_terms_are_counted(opts, ms, 0);
    lemma_few_docs(opts, ms, n);
    law_session_counts_are_consistent(opts, ms, n);
    lemma_occurrences_positive(lowercase(text), lowercase(qs[i]));
    law_queries_are_counted_by_themselves(opts, qs, text, i);
    let held = if opts.is_regex {
        regex_total(qs[i], text) as usize > 0
    } else {
        contains_text(lowercase(text), lowercase(qs[i]))
    };
    if scoring(opts) && searched(opts, ms, n) {
        let doc = one_doc(words(text) as usize, counts(terms_of(opts), text));
        assert(b == merged(a, doc));
        assert(counts(terms_of(opts), text)[i] > 0 <==> held);
        assert(doc.df[i] == if held {
            1usize
        } else {
            0usize
        });
        assert(a.df[i] <= a.docs);
    }
}

/// No more messages are counted than there are.
proof fn lemma_few_docs(opts: SearchOpts, ms: Seq<(usize, Record)>, n: int)
    requires
        0 <= n <= usize::MAX,
    ensures
        corpus_among(opts, ms, n).docs <= n,
    decreases n,
{
    if n > 0 {
        lemma_few_docs(opts, ms, n - 1);
    }
}

/// A search counts what its sessions count, put together, and begins with nothing.
pub proof fn law_sessions_are_counted_together(opts: SearchOpts, ss: Seq<Session>, s: Session)
    ensures
        whole_corpus(opts, Seq::empty()).docs == 0,
        whole_corpus(opts, Seq::empty()).total_len == 0,
        whole_corpus(opts, ss.push(s)) == merged(
            whole_corpus(opts, ss),
            corpus_among(opts, messages(s.log()), messages(s.log()).len() as int),
        ),
{
    assert(ss.push(s).drop_last() =~= ss);
}

// ---- Which sessions are searched ------------------------------------------

/// A session is searched exactly where its project's name holds the one asked for, in any case,
/// its id does not begin as one that is left out, and, where live sessions are left out, it is
/// known to have been written as many seconds ago or more.
pub proof fn law_sessions_are_chosen_by_name_id_and_age(
    opts: SearchOpts,
    f: SessionFile,
    now: i128,
)
    ensures
        wanted(opts, f, now) <==> {
            &&& opts.project matches Some(p) ==> contains_text(
                lowercase(f.project_name@),
                lowercase(p@),
            )
            &&& opts.exclude_session matches Some(id) ==> !begins_with(f.session_id@, id@)
            &&& opts.exclude_live matches Some(window) ==> (f.modified matches Some(m) && m <= now
                && now - m >= window * 1_000_000_000)
        },
{
    if let Some(window) = opts.exclude_live {
        if let Some(m) = f.modified {
            if m <= now {
                let age = now - m;
                assert((age / 1_000_000_000 < window) <==> (age < window * 1_000_000_000))
                    by (nonlinear_arith)
                    requires
                        age >= 0,
                ;
            }
        }
    }
}

/// The sessions that are searched are those that are wanted, in their order, and the matches of
/// a search are those of its sessions, one after the other.
pub proof fn law_sessions_are_searched_in_order(
    opts: SearchOpts,
    a: Seq<Session>,
    b: Seq<Session>,
    s: Session,
    now: i128,
)
    ensures
        wanted_sessions(opts, Seq::empty(), now) == Seq::<Session>::empty(),
        wanted_sessions(opts, a + b, now) == wanted_sessions(opts, a, now) + wanted_sessions(
            opts,
            b,
            now,
        ),
        wanted_sessions(opts, seq![s], now) == if wanted(opts, s.file, now) {
            seq![s]
        } else {
            Seq::empty()
        },
        all_hits(opts, Seq::empty()) == Seq::<Hit>::empty(),
        all_hits(opts, a + b) == all_hits(opts, a) + all_hits(opts, b),
        all_hits(opts, seq![s]) == session_hits(s.file, opts, s.log()),
    decreases b.len(),
{
    reveal_with_fuel(wanted_sessions, 2);
    reveal_with_fuel(all_hits, 2);
    assert(seq![s].drop_last() =~= Seq::empty());
    assert(seq![s].last() == s);
    assert(wanted_sessions(opts, seq![s], now) =~= if wanted(opts, s.file, now) {
        seq![s]
    } else {
        Seq::empty()
    });
    assert(all_hits(opts, seq![s]) =~= session_hits(s.file, opts, s.log()));
    if b.len() == 0 {
        assert(a + b =~= a);
        assert(wanted_sessions(opts, a, now) + wanted_sessions(opts, b, now) =~= wanted_sessions(
            opts,
            a,
            now,
        ));
        assert(all_hits(opts, a) + all_hits(opts, b) =~= all_hits(opts, a));
    } else {
        assert((a + b).drop_last() =~= a + b.drop_last());
        law_sessions_are_searched_in_order(opts, a, b.drop_last(), s, now);
        assert(wanted_sessions(opts, a + b, now) =~= wanted_sessions(opts, a, now)
            + wanted_sessions(opts, b, now));
        assert(all_hits(opts, a + b) =~= all_hits(opts, a) + all_hits(opts, b));
    }
}

// ---- What is said at the end ----------------------------------------------

/// The hint is given exactly where nothing matched and a single query, meant as plain words and
/// not as a phrase, holds whitespace.
pub proof fn law_hint_is_for_words_that_match_nothing(opts: SearchOpts, total: nat)
    ensures
        hint_due(opts, total) <==> {
            &&& total == 0
            &&& !opts.is_regex
            &&& !opts.phrase
            &&& opts.queries@.len() == 1
            &&& exists|i: int|
                0 <= i < opts.queries@[0]@.len() && whitespace(#[trigger] opts.queries@[0]@[i])
        },
{
    assert(texts(opts.queries@).len() == opts.queries@.len());
    if opts.queries@.len() == 1 {
        assert(texts(opts.queries@)[0] == opts.queries@[0]@);
    }
}

/// The summary tells the truth: the queries, how many results were written and how many matches
/// there are in all, how many sessions were scanned, whether the budget or the limit left
/// anything out, and how many repeats were.
pub proof fn law_summary_tells_the_truth(
    opts: SearchOpts,
    qs: Seq<Seq<char>>,
    hits: Seq<Hit>,
    files_scanned: nat,
    elapsed_ms: nat,
    s: Stream,
)
    requires
        opts.phrase ==> qs == seq![joined(texts(opts.queries@), " "@)],
        !opts.phrase ==> qs == texts(opts.queries@),
        hits.len() <= usize::MAX,
    ensures
        ({
            let sum = summary_of(opts, hits, files_scanned, elapsed_ms, s);
            let lines = result_lines(opts, kept(opts, hits));
            &&& sum.record_type == "summary"@
            &&& sum.query == joined(qs, ", "@)
            &&& sum.count == taken_count(s, lines)
            &&& sum.total_matched == hits.len()
            &&& sum.files_scanned == files_scanned
            &&& sum.elapsed_ms == elapsed_ms
            &&& sum.truncated <==> sum.count < lines.len()
            &&& sum.deduped is Some <==> opts.dedupe
            &&& sum.deduped matches Some(d) ==> d + kept(opts, hits).len() == hits.len()
            &&& opts.group_by is None ==> {
                &&& lines.len() == if 0 < opts.max_results < kept(opts, hits).len() {
                    opts.max_results as int
                } else {
                    kept(opts, hits).len() as int
                }
                &&& sum.capped <==> lines.len() < kept(opts, hits).len()
            }
            &&& opts.group_by matches Some(mode) ==> {
                let gs = groups(kept(opts, hits), mode, opts.group_samples as int);
                &&& lines.len() == if 0 < opts.max_results < gs.len() {
                    opts.max_results as int
                } else {
                    gs.len() as int
                }
                &&& sum.capped <==> lines.len() < gs.len()
            }
        }),
{
    if opts.sort != SortMode::Document {
        law_sorting_is_a_stable_permutation(hits, opts.sort);
    }
    law_each_snippet_is_kept_once(sorted(hits, opts.sort));
}

/// Relevance is scored where that is asked for, or where matches are sorted by it.
pub proof fn law_scores_are_given_where_asked_for(opts: SearchOpts)
    ensures
        scoring(opts) <==> opts.score || opts.sort == SortMode::Relevance,
{
}

// ---- What is written ------------------------------------------------------

/// Every message that matches is listed once, in the order of the log, and nothing else is:
/// match `i` of the list is that of message `ks[i]`.
pub proof fn law_each_match_is_listed_once(
    file: SessionFile,
    opts: SearchOpts,
    ms: Seq<(usize, Record)>,
    n: int,
) -> (ks: Seq<int>)
    requires
        0 <= n <= ms.len(),
    ensures
        ks.len() == hits_among(file, opts, ms, n).len(),
        forall|i: int|
            0 <= i < ks.len() ==> 0 <= #[trigger] ks[i] < n && matches_at(opts, ms, ks[i])
                && hits_among(file, opts, ms, n)[i] == hit_at(file, opts, ms, ks[i]),
        forall|i: int, j: int| 0 <= i < j < ks.len() ==> #[trigger] ks[i] < #[trigger] ks[j],
        forall|k: int| 0 <= k < n && #[trigger] matches_at(opts, ms, k) ==> ks.contains(k),
    decreases n,
{
    if n <= 0 {
        Seq::empty()
    } else {
        let before = law_each_match_is_listed_once(file, opts, ms, n - 1);
        if matches_at(opts, ms, n - 1) {
            let ks = before.push(n - 1);
            assert forall|k: int| 0 <= k < n && #[trigger] matches_at(opts, ms, k) implies ks.contains(
                k,
            ) by {
                if k < n - 1 {
                    assert(before.contains(k));
                    let i = choose|i: int| 0 <= i < before.len() && before[i] == k;
                    assert(ks[i] == k);
                } else {
                    assert(ks[before.len() as int] == k);
                }
            }
            ks
        } else {
            before
        }
    }
}

/// To score matches adds their scores and changes nothing else: as many matches, in their order,
/// each as it was. Where no scores are asked for, none is given.
pub proof fn law_scoring_adds_scores_only<F: Fn(&CorpusStats, &Vec<usize>, usize) -> u64>(
    opts: SearchOpts,
    score: F,
    corpus: Corpus,
    hits: Seq<Hit>,
    out: Seq<Hit>,
    i: int,
)
    requires
        rated(opts, score, corpus, hits, out),
        0 <= i < hits.len(),
    ensures
        out.len() == hits.len(),
        (Hit { score: hits[i].score, ..out[i] }) == hits[i],
        opts.score || opts.sort == SortMode::Relevance ==> out[i].score is Some && exists|
            c: CorpusStats,
            t: Vec<usize>,
        |
            c@ == corpus && t@ == hits[i].tfs && #[trigger] score.ensures(
                (&c, &t, hits[i].doc_len),
                out[i].score->0,
            ),
        !(opts.score || opts.sort == SortMode::Relevance) ==> out[i] == hits[i],
{
    if opts.score || opts.sort == SortMode::Relevance {
        assert(scored(score, corpus, hits[i], out[i]));
    }
}

/// What is written are the first results: matches sorted, without repeats where that is asked
/// for, or their groups, as many as asked for.
pub proof fn law_first_results_are_written(opts: SearchOpts, hits: Seq<Hit>, i: int)
    ensures
        !opts.dedupe ==> kept(opts, hits) == sorted(hits, opts.sort),
        opts.dedupe ==> kept(opts, hits) == distinct(sorted(hits, opts.sort)),
        0 <= i < result_values(opts, kept(opts, hits)).len() ==> match opts.group_by {
            None => result_values(opts, kept(opts, hits))[i] == hit_value(kept(opts, hits)[i]),
            Some(mode) => result_values(opts, kept(opts, hits))[i] == group_value(
                groups(kept(opts, hits), mode, opts.group_samples as int)[i],
            ),
        },
{
}

/// What a search writes, scored or not and whatever the budget: a header, the results as far as
/// there is room, or the hint where it is due, and the summary.
pub proof fn law_search_writes_results_and_a_summary(
    opts: SearchOpts,
    hits: Seq<Hit>,
    files_scanned: nat,
    elapsed_ms: nat,
    budget: nat,
)
    requires
        hits.len() <= usize::MAX,
    ensures
        ({
            let new = new_stream(budget);
            let values = if hint_due(opts, hits.len()) {
                seq![error_value("warning"@, None, HINT@)]
            } else {
                result_values(opts, kept(opts, hits))
            };
            let n = taken_count(new, value_lines(values)) as int;
            let summary = search_summary_value(
                summary_of(opts, hits, files_scanned, elapsed_ms, new),
            );
            &&& n <= values.len()
            &&& budget == 0 ==> n == values.len()
            &&& concluded(opts, hits, files_scanned, elapsed_ms, new).text == block(
                value_lines(seq![header_value()] + values.take(n) + seq![summary]),
            )
        }),
{
    let new = new_stream(budget);
    let results = result_values(opts, kept(opts, hits));
    let due = hint_due(opts, hits.len());
    let values = if due {
        seq![error_value("warning"@, None, HINT@)]
    } else {
        results
    };
    let sum = summary_of(opts, hits, files_scanned, elapsed_ms, new);
    law_listings_are_written_in_order(budget, values, search_summary_value(sum));
    if due {
        if kept(opts, hits).len() > 0 {
            let _ = law_sorting_moves_each_match_once(hits, opts.sort);
            law_each_snippet_is_kept_once(sorted(hits, opts.sort));
        }
        if let Some(mode) = opts.group_by {
            law_no_more_groups_than_matches(kept(opts, hits), mode, opts.group_samples as int);
        }
        assert(value_lines(results) =~= Seq::empty());
        assert(value_lines(values)[0] == error_text("warning"@, None, HINT@));
        assert(value_lines(values).drop_first() =~= Seq::empty());
        reveal_with_fuel(offered_all, 2);
        assert(with_hint(opts, hits, new) == offered_all(new, value_lines(values)));
    }
}

/// A session that is not wanted changes nothing, and is not counted either; where all are
/// wanted, all of them are searched and counted, what was found of them is written, and the
/// search says whether that is anything.
pub proof fn law_unwanted_sessions_change_nothing<
    F: Fn(&CorpusStats, &Vec<usize>, usize) -> u64,
>(
    opts: SearchOpts,
    a: Seq<Session>,
    other: Session,
    b: Seq<Session>,
    now: i128,
    elapsed_ms: nat,
    score: F,
    before: Stream,
    any: bool,
    after: Stream,
)
    ensures
        !wanted(opts, other.file, now) ==> ran(
            opts,
            a + seq![other] + b,
            now,
            elapsed_ms,
            score,
            before,
            any,
            after,
        ) == ran(opts, a + b, now, elapsed_ms, score, before, any, after),
        ran(opts, a, now, elapsed_ms, score, before, any, after) && (forall|i: int|
            0 <= i < a.len() ==> wanted(opts, (#[trigger] a[i]).file, now)) ==> {
            &&& any <==> exists|d: int|
                0 <= d < a.len() && session_hits((#[trigger] a[d]).file, opts, a[d].log()).len()
                    > 0
            &&& exists|out: Seq<Hit>| #[trigger]
                rated(opts, score, whole_corpus(opts, a), all_hits(opts, a), out) && after
                    == concluded(opts, out, a.len(), elapsed_ms, before)
        },
{
    let one = seq![other];
    law_sessions_are_searched_in_order(opts, a + one, b, other, now);
    law_sessions_are_searched_in_order(opts, a, one, other, now);
    law_sessions_are_searched_in_order(opts, a, b, other, now);
    let wa = wanted_sessions(opts, a, now);
    assert(wa + Seq::empty() =~= wa);
    if forall|i: int| 0 <= i < a.len() ==> wanted(opts, (#[trigger] a[i]).file, now) {
        lemma_all_are_wanted(opts, a, now);
        lemma_some_session_matches(opts, a);
    }
}

/// Where all sessions are wanted, all are searched.
proof fn lemma_all_are_wanted(opts: SearchOpts, ss: Seq<Session>, now: i128)
    requires
        forall|i: int| 0 <= i < ss.len() ==> wanted(opts, (#[trigger] ss[i]).file, now),
    ensures
        wanted_sessions(opts, ss, now) == ss,
    decreases ss.len(),
{
    if ss.len() > 0 {
        let rest = ss.drop_last();
        assert forall|i: int| 0 <= i < rest.len() implies wanted(
            opts,
            (#[trigger] rest[i]).file,
            now,
        ) by {
            assert(rest[i] == ss[i]);
        }
        assert(ss[ss.len() - 1] == ss.last());
        lemma_all_are_wanted(opts, rest, now);
        assert(rest.push(ss.last()) =~= ss);
    } else {
        assert(wanted_sessions(opts, ss, now) =~= ss);
    }
}

/// There is a match exactly where one of the sessions has one.
proof fn lemma_some_session_matches(opts: SearchOpts, ss: Seq<Session>)
    ensures
        all_hits(opts, ss).len() > 0 <==> exists|d: int|
            0 <= d < ss.len() && session_hits((#[trigger] ss[d]).file, opts, ss[d].log()).len() > 0,
    decreases ss.len(),
{
    if ss.len() > 0 {
        let rest = ss.drop_last();
        let n = ss.len() - 1;
        lemma_some_session_matches(opts, rest);
        assert(ss[n] == ss.last());
        if all_hits(opts, rest).len() > 0 {
            let d = choose|d: int|
                0 <= d < rest.len() && session_hits(
                    (#[trigger] rest[d]).file,
                    opts,
                    rest[d].log(),
                ).len() > 0;
            assert(ss[d] == rest[d]);
        }
        if exists|d: int|
            0 <= d < ss.len() && session_hits((#[trigger] ss[d]).file, opts, ss[d].log()).len()
                > 0 {
            let d = choose|d: int|
                0 <= d < ss.len() && session_hits((#[trigger] ss[d]).file, opts, ss[d].log()).len()
                    > 0;
            if d < n {
                assert(rest[d] == ss[d]);
            }
        }
    }
}

} // verus!
