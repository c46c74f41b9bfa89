//! The commands. Each takes what was read from the logs and writes to a stream.
use vstd::prelude::*;
use vstd::string::*;

use crate::models::Record;
use crate::order::lex_lt;
use crate::text::{
    codes, contains, contains_text, lowercase, opt_text, push_codes, text_lt, to_lowercase,
};
use crate::util::discover::SessionFile;

pub mod recent;
pub mod search;
pub mod sessions;
pub mod tools;

verus! {

broadcast use {vstd::seq::group_seq_axioms, vstd::string::group_string_axioms};

/// A session and the records of its log, with their lines.
pub struct Session {
    pub file: SessionFile,
    /// Nothing where the log could not be opened.
    pub records: Option<Vec<(usize, Record)>>,
}

impl Session {
    /// The records of the log: none where it could not be opened.
    pub open spec fn log(&self) -> Seq<(usize, Record)> {
        match self.records {
            Some(r) => r@,
            None => Seq::empty(),
        }
    }
}

/// Whether a session belongs to a project whose name holds `project`, in any case.
pub open spec fn in_project(f: SessionFile, project: Option<String>) -> bool {
    project matches Some(p) ==> contains_text(lowercase(f.project_name@), lowercase(p@))
}

/// Whether a session belongs to the project asked for.
pub fn of_project(file: &SessionFile, project: &Option<String>) -> (r: bool)
    ensures
        r == in_project(*file, *project),
{
    match project {
        Some(p) => {
            let name = to_lowercase(file.project_name.as_str());
            let wanted = to_lowercase(p.as_str());
            contains(name.as_str(), wanted.as_str())
        },
        None => true,
    }
}

/// The records of a log with their line numbers, from 1 on: `parsed` holds what each line
/// gave, nothing for a line that is blank or no record.
pub open spec fn numbered(parsed: Seq<Option<Record>>) -> Seq<(usize, Record)>
    decreases parsed.len(),
{
    if parsed.len() == 0 {
        Seq::empty()
    } else {
        let before = numbered(parsed.drop_last());
        match parsed.last() {
            Some(r) => before.push((parsed.len() as usize, r)),
            None => before,
        }
    }
}

/// Numbers the records of a log by the lines that they stand on. Lines that gave no record
/// count, so that the numbers lead back to the log.
pub fn parse_records(parsed: Vec<Option<Record>>) -> (r: Vec<(usize, Record)>)
    ensures
        r@ == numbered(parsed@),
{
    let ghost all = parsed@;
    let mut r: Vec<(usize, Record)> = Vec::new();
    let mut line: usize = 0;
    let n: usize = parsed.len();
    for p in it: parsed
        invariant
            it.seq() == all,
            line == it.index(),
            n == all.len(),
            r@ == numbered(all.take(it.index() as int)),
    {
        line = line + 1;
        assert(all.take(line as int).drop_last() =~= all.take(line - 1));
        match p {
            Some(rec) => {
                r.push((line, rec));
            },
            None => {},
        }
    }
    assert(all.take(all.len() as int) =~= all);
    r
}

/// The sessions of the project asked for.
pub open spec fn chosen(project: Option<String>, ss: Seq<Session>) -> Seq<Session>
    decreases ss.len(),
{
    if ss.len() == 0 {
        Seq::empty()
    } else {
        let before = chosen(project, ss.drop_last());
        if in_project(ss.last().file, project) {
            before.push(ss.last())
        } else {
            before
        }
    }
}

/// The exit code of a command: 0 where it gave results, 1 where it ran but gave none, and 2
/// where it failed.
pub fn exit_code<E>(outcome: &Result<bool, E>) -> (r: u8)
    ensures
        r == match outcome {
            Ok(true) => 0u8,
            Ok(false) => 1u8,
            Err(_) => 2u8,
        },
{
    match outcome {
        Ok(true) => 0,
        Ok(false) => 1,
        Err(_) => 2,
    }
}

/// Of a list, the first `max` items; all of them where `max` is 0.
pub open spec fn capped<T>(list: Seq<T>, max: int) -> Seq<T> {
    if 0 < max < list.len() {
        list.take(max)
    } else {
        list
    }
}

/// What a timestamp is ordered by: a missing one comes before all others.
pub open spec fn ts_key(ts: Option<Seq<char>>) -> Seq<u64> {
    match ts {
        Some(s) => seq![1u64] + codes(s),
        None => Seq::empty(),
    }
}

/// The key of a timestamp.
pub fn timestamp_key(ts: &Option<String>) -> (r: Vec<u64>)
    ensures
        r@ == ts_key(opt_text(*ts)),
{
    let mut r: Vec<u64> = Vec::new();
    match ts {
        Some(s) => {
            r.push(1);
            push_codes(&mut r, s.as_str());
            assert(r@ =~= ts_key(Some(s@)));
        },
        None => {},
    }
    r
}

/// Two timestamps are ordered as their texts are.
pub proof fn lemma_ts_keys(a: Seq<char>, b: Seq<char>)
    ensures
        lex_lt(ts_key(Some(a)), ts_key(Some(b))) <==> text_lt(a, b),
{
    assert(ts_key(Some(a)).drop_first() =~= codes(a));
    assert(ts_key(Some(b)).drop_first() =~= codes(b));
}

/// The records of a log have the lines that they stand on, from 1 on and in their order: each
/// record that was read is there with its line, and nothing else is.
pub proof fn law_lines_lead_back_to_the_log(parsed: Seq<Option<Record>>)
    requires
        parsed.len() <= usize::MAX,
    ensures
        forall|k: int|
            0 <= k < numbered(parsed).len() ==> {
                let (line, r) = #[trigger] numbered(parsed)[k];
                1 <= line <= parsed.len() && parsed[line - 1] == Some(r)
            },
        forall|k: int, l: int|
            0 <= k < l < numbered(parsed).len() ==> (#[trigger] numbered(parsed)[k]).0 < (
            #[trigger] numbered(parsed)[l]).0,
        forall|i: int|
            0 <= i < parsed.len() && #[trigger] parsed[i] is Some ==> numbered(parsed).contains(
                ((i + 1) as usize, parsed[i]->0),
            ),
    decreases parsed.len(),
{
    if parsed.len() > 0 {
        let rest = parsed.drop_last();
        let (before, all) = (numbered(rest), numbered(parsed));
        law_lines_lead_back_to_the_log(rest);
        assert forall|k: int| 0 <= k < all.len() implies {
            let (line, r) = #[trigger] all[k];
            1 <= line <= parsed.len() && parsed[line - 1] == Some(r)
        } by {
            if k < before.len() {
                assert(all[k] == before[k]);
                assert(rest[before[k].0 - 1] == parsed[before[k].0 - 1]);
            }
        }
        assert forall|k: int, l: int| 0 <= k < l < all.len() implies (#[trigger] all[k]).0 < (
        #[trigger] all[l]).0 by {
            assert(all[k] == before[k]);
            if l < before.len() {
                assert(all[l] == before[l]);
            }
        }
        assert forall|i: int| 0 <= i < parsed.len() && #[trigger] parsed[i] is Some implies all.contains(
            ((i + 1) as usize, parsed[i]->0),
        ) by {
            let x = ((i + 1) as usize, parsed[i]->0);
            if i < rest.len() {
                assert(rest[i] == parsed[i]);
                assert(before.contains(x));
                let k = choose|k: int| 0 <= k < before.len() && before[k] == x;
                assert(all[k] == x);
            } else {
                assert(all[before.len() as int] == x);
            }
        }
    }
}

/// The sessions of a project are those whose project's name holds the one asked for, in any
/// case, in their order; without a project all of them are.
pub proof fn law_projects_are_chosen_by_name(
    project: Option<String>,
    a: Seq<Session>,
    b: Seq<Session>,
    s: Session,
)
    ensures
        chosen(project, Seq::empty()) == Seq::<Session>::empty(),
        chosen(project, a + b) == chosen(project, a) + chosen(project, b),
        chosen(project, seq![s]) == match project {
            Some(p) => if contains_text(lowercase(s.file.project_name@), lowercase(p@)) {
                seq![s]
            } else {
                Seq::empty()
            },
            None => seq![s],
        },
    decreases b.len(),
{
    reveal_with_fuel(chosen, 2);
    assert(seq![s].drop_last() =~= Seq::empty());
    assert(seq![s].last() == s);
    assert(chosen(project, seq![s]) =~= match project {
        Some(p) => if contains_text(lowercase(s.file.project_name@), lowercase(p@)) {
            seq![s]
        } else {
            Seq::empty()
        },
        None => seq![s],
    });
    if b.len() == 0 {
        assert(a + b =~= a);
        assert(chosen(project, a) + chosen(project, b) =~= chosen(project, a));
    } else {
        assert((a + b).drop_last() =~= a + b.drop_last());
        assert((a + b).last() == b.last());
        law_projects_are_chosen_by_name(project, a, b.drop_last(), s);
        assert(chosen(project, a + b) =~= chosen(project, a) + chosen(project, b));
    }
}

/// A limit keeps the first items of a list, as many as it says; 0 keeps all.
pub proof fn law_limits_keep_the_first(list: Seq<int>, max: int, i: int)
    requires
        0 <= max,
    ensures
        capped(list, max).len() == if max == 0 || list.len() <= max {
            list.len() as int
        } else {
            max
        },
        0 <= i < capped(list, max).len() ==> capped(list, max)[i] == list[i],
{
}

/// A log that could not be opened has no records, and one that could has those that were read.
pub proof fn law_logs_hold_what_was_read(s: Session)
    ensures
        s.records matches Some(r) ==> s.log() == r@,
        s.records is None ==> s.log().len() == 0,
{
}

/// Where all sessions are of the project, all are chosen.
pub proof fn lemma_all_are_chosen(project: Option<String>, ss: Seq<Session>)
    requires
        project matches Some(p) ==> forall|i: int|
            0 <= i < ss.len() ==> contains_text(
                lowercase((#[trigger] ss[i]).file.project_name@),
                lowercase(p@),
            ),
    ensures
        chosen(project, ss) == ss,
    decreases ss.len(),
{
    if ss.len() > 0 {
        let rest = ss.drop_last();
        if project is Some {
            assert forall|i: int| 0 <= i < rest.len() implies contains_text(
                lowercase((#[trigger] rest[i]).file.project_name@),
                lowercase(project->0@),
            ) by {
                assert(rest[i] == ss[i]);
            }
            assert(ss[ss.len() - 1] == ss.last());
        }
        lemma_all_are_chosen(project, rest);
        assert(rest.push(ss.last()) =~= ss);
    } else {
        assert(chosen(project, ss) =~= ss);
    }
}

} // verus!
