//! Session files: their sizes, their projects, and how one is found by its id.
use vstd::prelude::*;
use vstd::string::*;
use vstd::utf8::*;

use crate::json::{json_parsed, member, string_of, Json, JsonTree};
use crate::order::{
    arrange, key_views, lemma_lex_irreflexive, lemma_ranking_distinct, listed_before, rank,
    ranking,
};
use crate::text::{
    begins_with, decimal, decimal_text, digit, join, joined, same_text, split, split_text,
    starts_with, texts, to_chars,
};

verus! {

broadcast use {vstd::seq::group_seq_axioms, vstd::string::group_string_axioms};

/// `std::path::PathBuf`, which is carried through and never read.
#[verifier::external_type_specification]
#[verifier::external_body]
pub struct ExPathBuf(std::path::PathBuf);

/// A log file: one session.
#[derive(Debug)]
pub struct SessionFile {
    pub path: std::path::PathBuf,
    pub session_id: String,
    pub project_name: String,
    pub size_bytes: u64,
    /// When the file was last written, in nanoseconds since the Unix epoch.
    pub modified: Option<i128>,
}

// ---- Sizes ----------------------------------------------------------------

/// The whole number nearest to `n / d`, and of two equally near the even one.
pub open spec fn half_even(n: nat, d: nat) -> nat {
    let q = n / d;
    let r = n % d;
    if 2 * r < d || (2 * r == d && q % 2 == 0) {
        q
    } else {
        q + 1
    }
}

/// The distance between the whole numbers that double precision tells apart around `b`: the
/// first of `u`, `2 * u`, `4 * u` and so on that leaves 53 bits of `b`.
pub open spec fn spacing(b: nat, u: nat) -> nat
    decreases b - u,
{
    if u == 0 || b < u * 0x20_0000_0000_0000 {
        u
    } else {
        spacing(b, 2 * u)
    }
}

/// The whole number that stands for `b` in double precision.
pub open spec fn nearest_double(b: nat) -> nat {
    half_even(b, spacing(b, 1)) * spacing(b, 1)
}

/// A size as people read it: bytes below a kilobyte, then kilobytes and megabytes with one
/// decimal, and gigabytes with two.
pub open spec fn human_size(b: nat) -> Seq<char> {
    if b < 1024 {
        decimal(b) + "B"@
    } else if b < 1024 * 1024 {
        tenths(half_even(10 * b, 1024)) + "KB"@
    } else if b < 1024 * 1024 * 1024 {
        tenths(half_even(10 * b, 1024 * 1024)) + "MB"@
    } else {
        let c = half_even(100 * nearest_double(b), 1024 * 1024 * 1024);
        tenths(c / 10).push(digit((c % 10) as int)) + "GB"@
    }
}

/// A number of tenths, with the decimal point.
pub open spec fn tenths(n: nat) -> Seq<char> {
    decimal(n / 10).push('.').push(digit((n % 10) as int))
}

/// Rounds `n / d` to the nearest whole number, and to the even one of two equally near.
fn round_half_even(n: u128, d: u128) -> (r: u128)
    requires
        0 < d,
        n < 0x100_0000_0000_0000_0000_0000_0000,
        d < 0x100_0000_0000_0000_0000_0000_0000,
    ensures
        r == half_even(n as nat, d as nat),
        r <= n / d + 1,
{
    let q: u128 = n / d;
    let rest: u128 = n % d;
    assert(q <= n) by (nonlinear_arith)
        requires
            q == n / d,
            0 < d,
    ;
    if 2 * rest < d || (2 * rest == d && q % 2 == 0) {
        q
    } else {
        q + 1
    }
}

/// The number that stands for `b` in double precision.
fn round_to_double(b: u64) -> (r: u128)
    ensures
        r == nearest_double(b as nat),
        r <= 0x1_0000_0000_0000_0000_0000,
{
    let mut u: u128 = 1;
    while b as u128 >= u * 0x20_0000_0000_0000
        invariant
            1 <= u <= 0x1000,
            spacing(b as nat, 1) == spacing(b as nat, u as nat),
        decreases 0x2000 - u,
    {
        u = 2 * u;
    }
    let q: u128 = round_half_even(b as u128, u);
    assert(q * u <= 0x1_0000_0000_0000_0000_0000) by (nonlinear_arith)
        requires
            q <= b as u128 / u + 1,
            b as u128 <= 0xffff_ffff_ffff_ffff,
            1 <= u <= 0x1000,
    ;
    q * u
}

/// Writes a number of tenths with its decimal point.
fn tenths_text(n: u128) -> (r: String)
    ensures
        r@ == tenths(n as nat),
{
    let mut r = decimal_text(n / 10);
    r.push('.');
    let d: u8 = (n % 10) as u8;
    r.push((48 + d) as char);
    r
}

impl SessionFile {
    /// The file's size as people read it.
    pub fn size_human(&self) -> (r: String)
        ensures
            r@ == human_size(self.size_bytes as nat),
    {
        let b: u128 = self.size_bytes as u128;
        if b < 1024 {
            let mut r = decimal_text(b);
            r.append("B");
            r
        } else if b < 1024 * 1024 {
            let mut r = tenths_text(round_half_even(10 * b, 1024));
            r.append("KB");
            r
        } else if b < 1024 * 1024 * 1024 {
            let mut r = tenths_text(round_half_even(10 * b, 1024 * 1024));
            r.append("MB");
            r
        } else {
            let c: u128 = round_half_even(
                100 * round_to_double(self.size_bytes),
                1024 * 1024 * 1024,
            );
            let mut r = tenths_text(c / 10);
            let d: u8 = (c % 10) as u8;
            r.push((48 + d) as char);
            r.append("GB");
            r
        }
    }
}

// ---- Finding a session ----------------------------------------------------

/// Why no session was found.
#[derive(Debug)]
pub enum FindError {
    /// No id is the query or begins with it.
    NotFound { query: String },
    /// Several ids begin with the query.
    Ambiguous { query: String, matches: usize },
}

impl FindError {
    /// What is told to the user.
    pub fn message(&self) -> (r: String)
        ensures
            r@ == match *self {
                FindError::NotFound { query } => "no session found matching '"@ + query@ + "'"@,
                FindError::Ambiguous { query, matches } => "ambiguous session ID '"@ + query@
                    + "' ("@ + decimal(matches as nat) + " matches) — provide more characters"@,
            },
    {
        match self {
            FindError::NotFound { query } => {
                let mut r = "no session found matching '".to_owned();
                r.append(query.as_str());
                r.append("'");
                r
            },
            FindError::Ambiguous { query, matches } => {
                let mut r = "ambiguous session ID '".to_owned();
                r.append(query.as_str());
                r.append("' (");
                let n = decimal_text(*matches as u128);
                r.append(n.as_str());
                r.append(" matches) — provide more characters");
                r
            },
        }
    }
}

/// The first file whose id is the query.
pub open spec fn exact_match(files: Seq<SessionFile>, query: Seq<char>) -> Option<int>
    decreases files.len(),
{
    if files.len() == 0 {
        None
    } else {
        match exact_match(files.drop_last(), query) {
            Some(i) => Some(i),
            None => if files.last().session_id@ == query {
                Some(files.len() - 1)
            } else {
                None
            },
        }
    }
}

/// The files whose ids begin with the query.
pub open spec fn prefix_matches(files: Seq<SessionFile>, query: Seq<char>) -> Seq<int>
    decreases files.len(),
{
    if files.len() == 0 {
        Seq::empty()
    } else {
        let before = prefix_matches(files.drop_last(), query);
        if begins_with(files.last().session_id@, query) {
            before.push(files.len() - 1)
        } else {
            before
        }
    }
}

/// The file that a query names: the one of that id, else the only one whose id begins with it.
pub open spec fn named_file(files: Seq<SessionFile>, query: Seq<char>) -> Option<int> {
    match exact_match(files, query) {
        Some(i) => Some(i),
        None => if prefix_matches(files, query).len() == 1 {
            Some(prefix_matches(files, query)[0])
        } else {
            None
        },
    }
}

/// Finds a session by its id, or by a beginning of it that no other session shares.
pub fn find_session<'a>(files: &'a [SessionFile], query: &str) -> (r: Result<
    &'a SessionFile,
    FindError,
>)
    ensures
        match r {
            Ok(f) => named_file(files@, query@) matches Some(i) && 0 <= i < files.len() && *f
                == files@[i],
            Err(FindError::NotFound { query: q }) => q@ == query@ && exact_match(files@, query@)
                is None && prefix_matches(files@, query@).len() == 0,
            Err(FindError::Ambiguous { query: q, matches }) => q@ == query@ && exact_match(
                files@,
                query@,
            ) is None && matches == prefix_matches(files@, query@).len() && matches > 1,
        },
{
    let mut i: usize = 0;
    while i < files.len()
        invariant
            i <= files.len(),
            exact_match(files@.take(i as int), query@) is None,
        decreases files.len() - i,
    {
        assert(files@.take(i + 1).drop_last() =~= files@.take(i as int));
        if same_text(files[i].session_id.as_str(), query) {
            proof {
                assert(exact_match(files@.take(i + 1), query@) == Some(i as int));
                lemma_exact_match_stays(files@, query@, i + 1);
            }
            return Ok(&files[i]);
        }
        i = i + 1;
    }
    assert(files@.take(i as int) =~= files@);
    let mut count: usize = 0;
    let mut last: usize = 0;
    let mut j: usize = 0;
    while j < files.len()
        invariant
            j <= files.len(),
            count <= j,
            count == prefix_matches(files@.take(j as int), query@).len(),
            count > 0 ==> last < j && prefix_matches(files@.take(j as int), query@).last() == last,
        decreases files.len() - j,
    {
        assert(files@.take(j + 1).drop_last() =~= files@.take(j as int));
        if starts_with(files[j].session_id.as_str(), query) {
            count = count + 1;
            last = j;
        }
        j = j + 1;
    }
    assert(files@.take(j as int) =~= files@);
    if count == 0 {
        Err(FindError::NotFound { query: query.to_owned() })
    } else if count == 1 {
        Ok(&files[last])
    } else {
        Err(FindError::Ambiguous { query: query.to_owned(), matches: count })
    }
}

/// A match among the first files is the match among all.
proof fn lemma_exact_match_stays(files: Seq<SessionFile>, query: Seq<char>, n: int)
    requires
        0 <= n <= files.len(),
        exact_match(files.take(n), query) is Some,
    ensures
        exact_match(files, query) == exact_match(files.take(n), query),
    decreases files.len(),
{
    if n == files.len() {
        assert(files.take(n) =~= files);
    } else {
        assert(files.drop_last().take(n) =~= files.take(n));
        lemma_exact_match_stays(files.drop_last(), query, n);
    }
}

/// An exact id wins over any number of longer ids that begin with it.
pub proof fn law_exact_id_wins(files: Seq<SessionFile>, query: Seq<char>, i: int)
    requires
        0 <= i < files.len(),
        files[i].session_id@ == query,
    ensures
        named_file(files, query) matches Some(k) && 0 <= k <= i && files[k].session_id@ == query,
    decreases files.len(),
{
    if i == files.len() - 1 {
        lemma_exact_match_sound(files.drop_last(), query);
    } else {
        law_exact_id_wins(files.drop_last(), query, i);
        if exact_match(files.drop_last(), query) is None {
            lemma_exact_match_none(files.drop_last(), query, i);
        }
        lemma_exact_match_sound(files.drop_last(), query);
    }
}

/// A match has the id asked for.
proof fn lemma_exact_match_sound(files: Seq<SessionFile>, query: Seq<char>)
    ensures
        exact_match(files, query) matches Some(k) ==> 0 <= k < files.len()
            && files[k].session_id@ == query,
    decreases files.len(),
{
    if files.len() > 0 {
        lemma_exact_match_sound(files.drop_last(), query);
    }
}

/// Without a match no file has the id asked for.
proof fn lemma_exact_match_none(files: Seq<SessionFile>, query: Seq<char>, i: int)
    requires
        0 <= i < files.len(),
        exact_match(files, query) is None,
    ensures
        files[i].session_id@ != query,
    decreases files.len(),
{
    if i < files.len() - 1 {
        lemma_exact_match_none(files.drop_last(), query, i);
    }
}

/// The files whose ids begin with the query are listed, in their order, and no others.
proof fn lemma_prefix_matches(files: Seq<SessionFile>, query: Seq<char>)
    ensures
        forall|p: int|
            0 <= p < prefix_matches(files, query).len() ==> {
                &&& 0 <= #[trigger] prefix_matches(files, query)[p] < files.len()
                &&& begins_with(files[prefix_matches(files, query)[p]].session_id@, query)
            },
        forall|p: int, q: int|
            0 <= p < q < prefix_matches(files, query).len() ==> prefix_matches(files, query)[p]
                < prefix_matches(files, query)[q],
        forall|i: int|
            0 <= i < files.len() && begins_with((#[trigger] files[i]).session_id@, query)
                ==> prefix_matches(files, query).contains(i),
    decreases files.len(),
{
    if files.len() > 0 {
        let rest = files.drop_last();
        lemma_prefix_matches(rest, query);
        let before = prefix_matches(rest, query);
        let all = prefix_matches(files, query);
        assert forall|p: int| 0 <= p < all.len() implies 0 <= #[trigger] all[p] < files.len()
            && begins_with(files[all[p]].session_id@, query) by {
            if p < before.len() {
                assert(before[p] == all[p]);
            }
        }
        assert forall|i: int|
            0 <= i < files.len() && begins_with(
                (#[trigger] files[i]).session_id@,
                query,
            ) implies all.contains(i) by {
            if i < rest.len() {
                assert(rest[i] == files[i]);
                assert(before.contains(i));
                let p = choose|p: int| 0 <= p < before.len() && before[p] == i;
                assert(all[p] == i);
            } else {
                assert(all[before.len() as int] == i);
            }
        }
    }
}

/// A beginning that only one session has names it.
pub proof fn law_unique_prefix_names_its_session(
    files: Seq<SessionFile>,
    query: Seq<char>,
    i: int,
)
    requires
        0 <= i < files.len(),
        begins_with(files[i].session_id@, query),
        forall|j: int|
            0 <= j < files.len() && j != i ==> !begins_with(
                (#[trigger] files[j]).session_id@,
                query,
            ),
    ensures
        named_file(files, query) == Some(i),
{
    lemma_prefix_matches(files, query);
    lemma_exact_match_sound(files, query);
    let all = prefix_matches(files, query);
    assert(all.contains(i));
    let p = choose|p: int| 0 <= p < all.len() && all[p] == i;
    if all.len() > 1 {
        let q = if p == 0 {
            1int
        } else {
            0int
        };
        assert(all[q] != all[p]);
        assert(begins_with(files[all[q]].session_id@, query));
    }
    if exact_match(files, query) is Some {
        let k = exact_match(files, query)->0;
        assert(query.take(query.len() as int) =~= query);
        assert(begins_with(files[k].session_id@, query));
    }
}

/// A beginning that several sessions share, and that is the id of none, names none.
pub proof fn law_shared_prefix_names_none(
    files: Seq<SessionFile>,
    query: Seq<char>,
    i: int,
    j: int,
)
    requires
        0 <= i < j < files.len(),
        begins_with(files[i].session_id@, query),
        begins_with(files[j].session_id@, query),
        forall|k: int| 0 <= k < files.len() ==> (#[trigger] files[k]).session_id@ != query,
    ensures
        named_file(files, query) is None,
{
    lemma_prefix_matches(files, query);
    lemma_exact_match_sound(files, query);
    let all = prefix_matches(files, query);
    assert(all.contains(i) && all.contains(j));
}

// ---- Projects -------------------------------------------------------------

/// A letter of ASCII in lower case; any other character as it is.
pub open spec fn ascii_lower(c: char) -> char {
    if 'A' <= c && c <= 'Z' {
        ((c as u32) + 32) as char
    } else {
        c
    }
}

/// Whether two texts differ at most in the case of ASCII letters.
pub open spec fn same_ignoring_case(a: Seq<char>, b: Seq<char>) -> bool {
    a.len() == b.len() && forall|i: int|
        0 <= i < a.len() ==> ascii_lower(#[trigger] a[i]) == ascii_lower(b[i])
}

/// The first part that is `github` in any case.
pub open spec fn github_part(parts: Seq<Seq<char>>) -> Option<int>
    decreases parts.len(),
{
    if parts.len() == 0 {
        None
    } else {
        match github_part(parts.drop_last()) {
            Some(i) => Some(i),
            None => if same_ignoring_case(parts.last(), "github"@) {
                Some(parts.len() - 1)
            } else {
                None
            },
        }
    }
}

/// The last part that is neither empty nor `Users`.
pub open spec fn last_telling_part(parts: Seq<Seq<char>>) -> Option<Seq<char>>
    decreases parts.len(),
{
    if parts.len() == 0 {
        None
    } else if parts.last().len() > 0 && parts.last() != "Users"@ {
        Some(parts.last())
    } else {
        last_telling_part(parts.drop_last())
    }
}

/// The project that the name of a log directory suggests: what follows a part `github`, else
/// the last part that tells anything, else the whole name.
pub open spec fn suggested_project(dir_name: Seq<char>) -> Seq<char> {
    let parts = split(dir_name, '-');
    match github_part(parts) {
        Some(i) => if i + 1 >= parts.len() {
            dir_name
        } else {
            joined(parts.skip(i + 1), "-"@)
        },
        None => match last_telling_part(parts) {
            Some(p) => p,
            None => dir_name,
        },
    }
}

/// The last component of a path: the last part between slashes that is neither empty nor `.`,
/// unless that is `..`.
pub open spec fn last_component(path: Seq<char>) -> Option<Seq<char>> {
    last_name(split(path, '/'))
}

/// The last of the parts of a path that is neither empty nor `.`, unless that is `..`.
pub open spec fn last_name(parts: Seq<Seq<char>>) -> Option<Seq<char>>
    decreases parts.len(),
{
    if parts.len() == 0 {
        None
    } else if parts.last().len() == 0 || parts.last() == "."@ {
        last_name(parts.drop_last())
    } else if parts.last() == ".."@ {
        None
    } else {
        Some(parts.last())
    }
}

/// The project that a line of a log names: the last component of its `cwd`.
pub open spec fn line_project(line: Seq<char>) -> Option<Seq<char>> {
    match json_parsed(encode_utf8(line)) {
        Some(v) => match member(v, "cwd"@) {
            Some(c) => match string_of(c) {
                Some(cwd) => last_component(cwd),
                None => None,
            },
            None => None,
        },
        None => None,
    }
}

/// The project that the first `n` lines name first.
pub open spec fn lines_project(lines: Seq<String>, n: int) -> Option<Seq<char>>
    decreases n,
{
    if n <= 0 {
        None
    } else {
        match lines_project(lines, n - 1) {
            Some(p) => Some(p),
            None => if n <= lines.len() {
                line_project(lines[n - 1]@)
            } else {
                None
            },
        }
    }
}

/// How many lines of a log are asked for the project.
pub const CWD_LINES: usize = 20;

/// How many logs of a directory are asked for the project.
pub const CWD_FILES: usize = 3;

/// The project that the first `n` logs name first, each asked for its first lines.
pub open spec fn heads_project(heads: Seq<Vec<String>>, n: int) -> Option<Seq<char>>
    decreases n,
{
    if n <= 0 {
        None
    } else {
        match heads_project(heads, n - 1) {
            Some(p) => Some(p),
            None => if n <= heads.len() {
                lines_project(heads[n - 1]@, CWD_LINES as int)
            } else {
                None
            },
        }
    }
}

/// Whether two characters differ at most in the case of an ASCII letter.
fn same_char_ignoring_case(a: char, b: char) -> (r: bool)
    ensures
        r == (ascii_lower(a) == ascii_lower(b)),
{
    let x: u32 = if 'A' <= a && a <= 'Z' {
        a as u32 + 32
    } else {
        a as u32
    };
    let y: u32 = if 'A' <= b && b <= 'Z' {
        b as u32 + 32
    } else {
        b as u32
    };
    x == y
}

/// Whether `a` is `b` but for the case of ASCII letters.
fn eq_ignoring_case(a: &str, b: &str) -> (r: bool)
    ensures
        r == same_ignoring_case(a@, b@),
{
    let x = to_chars(a);
    let y = to_chars(b);
    if x.len() != y.len() {
        return false;
    }
    let mut i: usize = 0;
    while i < x.len()
        invariant
            i <= x.len(),
            x.len() == y.len(),
            x@ == a@,
            y@ == b@,
            forall|k: int| 0 <= k < i ==> ascii_lower(#[trigger] a@[k]) == ascii_lower(b@[k]),
        decreases x.len() - i,
    {
        if !same_char_ignoring_case(x[i], y[i]) {
            assert(ascii_lower(a@[i as int]) != ascii_lower(b@[i as int]));
            return false;
        }
        i = i + 1;
    }
    true
}

/// What the name of a log directory suggests as the project's name. The name encodes a path
/// with hyphens for slashes, which loses the difference between the two.
pub fn extract_project_name(dir_name: &str) -> (r: String)
    ensures
        r@ == suggested_project(dir_name@),
{
    let parts = split_text(dir_name, '-');
    let ghost ps = texts(parts@);
    let mut i: usize = 0;
    while i < parts.len()
        invariant
            i <= parts.len(),
            ps == texts(parts@),
            ps == split(dir_name@, '-'),
            github_part(ps.take(i as int)) is None,
        decreases parts.len() - i,
    {
        assert(ps.take(i + 1).drop_last() =~= ps.take(i as int));
        if eq_ignoring_case(parts[i].as_str(), "github") {
            proof {
                assert(github_part(ps.take(i + 1)) == Some(i as int));
                lemma_github_part_stays(ps, i + 1);
            }
            if i + 1 == parts.len() {
                return dir_name.to_owned();
            }
            let mut rest: Vec<String> = Vec::new();
            let mut k: usize = i + 1;
            while k < parts.len()
                invariant
                    i + 1 <= k <= parts.len(),
                    ps == texts(parts@),
                    texts(rest@) == ps.subrange(i + 1, k as int),
                decreases parts.len() - k,
            {
                let ghost before = texts(rest@);
                rest.push(parts[k].clone());
                assert(texts(rest@) =~= before.push(ps[k as int]));
                assert(texts(rest@) =~= ps.subrange(i + 1, k + 1));
                k = k + 1;
            }
            assert(texts(rest@) =~= ps.skip(i + 1));
            return join(&rest, "-");
        }
        i = i + 1;
    }
    assert(ps.take(i as int) =~= ps);
    let mut j: usize = parts.len();
    assert(ps.take(j as int) =~= ps);
    while j > 0
        invariant
            j <= parts.len(),
            ps == texts(parts@),
            ps == split(dir_name@, '-'),
            github_part(ps) is None,
            last_telling_part(ps) == last_telling_part(ps.take(j as int)),
        decreases j,
    {
        assert(ps.take(j as int).drop_last() =~= ps.take(j - 1));
        let p = parts[j - 1].as_str();
        assert(p@ == ps.take(j as int).last());
        if !p.is_empty() && !same_text(p, "Users") {
            return p.to_owned();
        }
        j = j - 1;
    }
    dir_name.to_owned()
}

/// A part found among the first is the part found among all.
proof fn lemma_github_part_stays(parts: Seq<Seq<char>>, n: int)
    requires
        0 <= n <= parts.len(),
        github_part(parts.take(n)) is Some,
    ensures
        github_part(parts) == github_part(parts.take(n)),
    decreases parts.len(),
{
    if n == parts.len() {
        assert(parts.take(n) =~= parts);
    } else {
        assert(parts.drop_last().take(n) =~= parts.take(n));
        lemma_github_part_stays(parts.drop_last(), n);
    }
}

/// The last component of a path.
pub fn file_name(path: &str) -> (r: Option<String>)
    ensures
        match r {
            Some(s) => last_component(path@) == Some(s@) && s@.len() > 0,
            None => last_component(path@) is None,
        },
{
    let parts = split_text(path, '/');
    let ghost ps = texts(parts@);
    let mut j: usize = parts.len();
    assert(ps.take(j as int) =~= ps);
    while j > 0
        invariant
            j <= parts.len(),
            ps == texts(parts@),
            ps == split(path@, '/'),
            last_name(ps) == last_name(ps.take(j as int)),
        decreases j,
    {
        assert(ps.take(j as int).drop_last() =~= ps.take(j - 1));
        let p = parts[j - 1].as_str();
        assert(p@ == ps.take(j as int).last());
        if !p.is_empty() && !same_text(p, ".") {
            if same_text(p, "..") {
                return None;
            }
            return Some(p.to_owned());
        }
        j = j - 1;
    }
    None
}

/// The project that a line of a log names.
fn project_of_line(line: &str) -> (r: Option<String>)
    ensures
        match r {
            Some(s) => line_project(line@) == Some(s@),
            None => line_project(line@) is None,
        },
{
    match Json::parse(line.as_bytes()) {
        Some(v) => match v.get("cwd") {
            Some(c) => match c.as_str() {
                Some(cwd) => file_name(cwd),
                None => None,
            },
            None => None,
        },
        None => None,
    }
}

/// The project that the lines name first, of those that are asked.
fn project_of_lines(lines: &Vec<String>) -> (r: Option<String>)
    ensures
        match r {
            Some(s) => lines_project(lines@, CWD_LINES as int) == Some(s@),
            None => lines_project(lines@, CWD_LINES as int) is None,
        },
{
    let mut i: usize = 0;
    while i < lines.len() && i < CWD_LINES
        invariant
            i <= lines.len(),
            i <= CWD_LINES,
            lines_project(lines@, i as int) is None,
        decreases lines.len() - i,
    {
        match project_of_line(lines[i].as_str()) {
            Some(s) => {
                proof {
                    lemma_lines_project_stays(lines@, i + 1, CWD_LINES as int);
                }
                return Some(s);
            },
            None => {},
        }
        i = i + 1;
    }
    proof {
        lemma_lines_project_ends(lines@, i as int, CWD_LINES as int);
    }
    None
}

proof fn lemma_lines_project_stays(lines: Seq<String>, n: int, m: int)
    requires
        0 <= n <= m,
        lines_project(lines, n) is Some,
    ensures
        lines_project(lines, m) == lines_project(lines, n),
    decreases m,
{
    if n < m {
        lemma_lines_project_stays(lines, n, m - 1);
    }
}

proof fn lemma_lines_project_ends(lines: Seq<String>, n: int, m: int)
    requires
        0 <= n <= m,
        n == m || n >= lines.len(),
        lines_project(lines, n) is None,
    ensures
        lines_project(lines, m) is None,
    decreases m,
{
    if n < m {
        lemma_lines_project_ends(lines, n, m - 1);
    }
}

/// The exact name of a project, from the `cwd` of the first lines of its first logs. `heads`
/// holds the first lines of each log, as far as they could be read.
pub fn project_name_from_cwd(heads: &Vec<Vec<String>>) -> (r: Option<String>)
    ensures
        match r {
            Some(s) => heads_project(heads@, CWD_FILES as int) == Some(s@),
            None => heads_project(heads@, CWD_FILES as int) is None,
        },
{
    let mut i: usize = 0;
    while i < heads.len() && i < CWD_FILES
        invariant
            i <= heads.len(),
            i <= CWD_FILES,
            heads_project(heads@, i as int) is None,
        decreases heads.len() - i,
    {
        match project_of_lines(&heads[i]) {
            Some(s) => {
                proof {
                    lemma_heads_project_stays(heads@, i + 1, CWD_FILES as int);
                }
                return Some(s);
            },
            None => {},
        }
        i = i + 1;
    }
    proof {
        lemma_heads_project_ends(heads@, i as int, CWD_FILES as int);
    }
    None
}

proof fn lemma_heads_project_stays(heads: Seq<Vec<String>>, n: int, m: int)
    requires
        0 <= n <= m,
        heads_project(heads, n) is Some,
    ensures
        heads_project(heads, m) == heads_project(heads, n),
    decreases m,
{
    if n < m {
        lemma_heads_project_stays(heads, n, m - 1);
    }
}

proof fn lemma_heads_project_ends(heads: Seq<Vec<String>>, n: int, m: int)
    requires
        0 <= n <= m,
        n == m || n >= heads.len(),
        heads_project(heads, n) is None,
    ensures
        heads_project(heads, m) is None,
    decreases m,
{
    if n < m {
        lemma_heads_project_ends(heads, n, m - 1);
    }
}

// ---- Listing the sessions -------------------------------------------------

/// A log file as the directory lists it.
#[derive(Debug)]
pub struct LogFile {
    pub path: std::path::PathBuf,
    /// The file's name without its extension.
    pub stem: String,
    pub size_bytes: u64,
    pub modified: Option<i128>,
}

/// A directory of logs, with the first lines of its first logs.
#[derive(Debug)]
pub struct ProjectDir {
    pub dir_name: String,
    pub heads: Vec<Vec<String>>,
    pub logs: Vec<LogFile>,
}

/// The stem of a name that ends in `.jsonl` and has something before that.
pub open spec fn stem_of(name: Seq<char>) -> Option<Seq<char>> {
    let n = name.len() - ".jsonl"@.len();
    if n > 0 && name.skip(n) == ".jsonl"@ {
        Some(name.take(n))
    } else {
        None
    }
}

/// The name of a directory's project: what its logs say, else what its name suggests.
pub open spec fn project_of(d: ProjectDir) -> Seq<char> {
    match heads_project(d.heads@, CWD_FILES as int) {
        Some(p) => p,
        None => suggested_project(d.dir_name@),
    }
}

/// Whether a session file stands for a log of a directory.
pub open spec fn stands_for(f: SessionFile, d: ProjectDir, l: LogFile) -> bool {
    &&& f.path == l.path
    &&& f.session_id@ == l.stem@
    &&& f.project_name@ == project_of(d)
    &&& f.size_bytes == l.size_bytes
    &&& f.modified == l.modified
}

/// Every log as the numbers of its directory and of its place there, directory by directory.
pub open spec fn all_logs(dirs: Seq<ProjectDir>) -> Seq<(int, int)>
    decreases dirs.len(),
{
    if dirs.len() == 0 {
        Seq::empty()
    } else {
        all_logs(dirs.drop_last()) + Seq::new(
            dirs.last().logs@.len(),
            |i: int| (dirs.len() - 1, i),
        )
    }
}

/// The sizes of the logs.
pub open spec fn log_sizes(dirs: Seq<ProjectDir>) -> Seq<Seq<u64>> {
    all_logs(dirs).map_values(|at: (int, int)| seq![dirs[at.0].logs@[at.1].size_bytes])
}

/// The stem of a log's name; nothing where the name is none of a log.
pub fn log_stem(name: &str) -> (r: Option<String>)
    ensures
        match r {
            Some(s) => stem_of(name@) == Some(s@),
            None => stem_of(name@) is None,
        },
{
    let len: usize = name.unicode_len();
    proof {
        reveal_strlit(".jsonl");
    }
    if len <= 6 {
        return None;
    }
    let tail = name.substring_char(len - 6, len);
    assert(tail@ =~= name@.skip(len - 6));
    if same_text(tail, ".jsonl") {
        let stem = name.substring_char(0, len - 6);
        assert(stem@ =~= name@.take(len - 6));
        Some(stem.to_owned())
    } else {
        None
    }
}

/// Lists every log as a session file, the largest first and equally large ones in the order
/// in which they were found.
pub fn list_sessions(dirs: Vec<ProjectDir>) -> (r: Vec<SessionFile>)
    ensures
        r.len() == all_logs(dirs@).len(),
        forall|k: int|
            #![trigger r[k]]
            0 <= k < r.len() ==> {
                let order = ranking(log_sizes(dirs@), true);
                let at = all_logs(dirs@)[order[k] as int];
                &&& order[k] < r.len()
                &&& stands_for(r[k], dirs@[at.0], dirs@[at.0].logs@[at.1])
            },
        forall|i: int, j: int|
            0 <= i < j < r.len() ==> #[trigger] r[i].size_bytes >= #[trigger] r[j].size_bytes,
{
    let ghost ds = dirs@;
    let mut files: Vec<SessionFile> = Vec::new();
    let mut sizes: Vec<Vec<u64>> = Vec::new();
    for d in it: dirs
        invariant
            it.seq() == ds,
            files.len() == all_logs(ds.take(it.index() as int)).len(),
            sizes.len() == files.len(),
            forall|k: int|
                #![trigger files[k]]
                0 <= k < files.len() ==> {
                    let at = all_logs(ds.take(it.index() as int))[k];
                    &&& stands_for(files[k], ds[at.0], ds[at.0].logs@[at.1])
                    &&& sizes[k]@ == seq![files[k].size_bytes]
                },
    {
        let name = match project_name_from_cwd(&d.heads) {
            Some(n) => n,
            None => extract_project_name(d.dir_name.as_str()),
        };
        let ghost n = it.index() as int;
        let ghost logs = d.logs@;
        let ghost done = all_logs(ds.take(n));
        assert(ds.take(n + 1).drop_last() =~= ds.take(n));
        for l in jt: d.logs
            invariant
                jt.seq() == logs,
                d == ds[n],
                logs == d.logs@,
                name@ == project_of(d),
                files.len() == done.len() + jt.index(),
                sizes.len() == files.len(),
                forall|k: int|
                    #![trigger files[k]]
                    0 <= k < done.len() ==> {
                        let at = done[k];
                        &&& stands_for(files[k], ds[at.0], ds[at.0].logs@[at.1])
                        &&& sizes[k]@ == seq![files[k].size_bytes]
                    },
                forall|k: int|
                    #![trigger files[k]]
                    done.len() <= k < files.len() ==> {
                        &&& stands_for(files[k], ds[n], logs[k - done.len()])
                        &&& sizes[k]@ == seq![files[k].size_bytes]
                    },
        {
            let mut key: Vec<u64> = Vec::new();
            key.push(l.size_bytes);
            assert(key@ =~= seq![l.size_bytes]);
            sizes.push(key);
            files.push(
                SessionFile {
                    path: l.path,
                    session_id: l.stem,
                    project_name: name.clone(),
                    size_bytes: l.size_bytes,
                    modified: l.modified,
                },
            );
        }
    }
    assert(ds.take(ds.len() as int) =~= ds);
    let order = rank(&sizes, true);
    assert(key_views(sizes@) =~= log_sizes(ds)) by {
        assert forall|k: int| 0 <= k < sizes.len() implies key_views(sizes@)[k] == log_sizes(
            ds,
        )[k] by {
            let f = files[k];
        }
    }
    assert forall|p: int| 0 <= p < order.len() implies #[trigger] order[p] < files.len() by {
        assert(order@.contains(order[p]));
    }
    proof {
        lemma_ranking_distinct(key_views(sizes@), true, order@);
    }
    let ghost keys = key_views(sizes@);
    assert forall|i: int, j: int| 0 <= i < j < order.len() implies #[trigger] files[order[i] as int].size_bytes
        >= #[trigger] files[order[j] as int].size_bytes by {
        let (a, b) = (order[i], order[j]);
        assert(listed_before(keys, true, a, b));
        let (x, y) = (files[a as int], files[b as int]);
        assert(keys[a as int] == seq![x.size_bytes] && keys[b as int] == seq![y.size_bytes]);
        lemma_lex_irreflexive(keys[a as int].drop_first());
    }
    arrange(files, &order)
}

// ---- Laws of sizes --------------------------------------------------------

/// Rounding is to the nearest whole number, and to the even one where two are as near.
pub proof fn law_rounding_is_to_the_nearest(n: nat, d: nat)
    requires
        d > 0,
    ensures
        ({
            let r = half_even(n, d);
            &&& 2 * (n - r * d) <= d
            &&& 2 * (r * d - n) <= d
            &&& (2 * (n - r * d) == d || 2 * (r * d - n) == d) ==> r % 2 == 0
        }),
{
    let (q, rest) = (n / d, n % d);
    assert(n == q * d + rest && rest < d) by (nonlinear_arith)
        requires
            d > 0,
            q == n / d,
            rest == n % d,
    ;
    assert((q + 1) * d == q * d + d) by (nonlinear_arith);
}

/// A size is written in bytes below a kilobyte, and else as the nearest tenth of a kilobyte or
/// megabyte: `t` is the number of tenths.
pub proof fn law_sizes_are_to_the_nearest_tenth(b: nat) -> (t: nat)
    ensures
        b < 1024 ==> human_size(b) == decimal(b) + "B"@,
        1024 <= b < 1024 * 1024 ==> {
            &&& human_size(b) == decimal(t / 10) + seq!['.', digit((t % 10) as int)] + "KB"@
            &&& 2 * (10 * b - t * 1024) <= 1024
            &&& 2 * (t * 1024 - 10 * b) <= 1024
        },
        1024 * 1024 <= b < 1024 * 1024 * 1024 ==> {
            &&& human_size(b) == decimal(t / 10) + seq!['.', digit((t % 10) as int)] + "MB"@
            &&& 2 * (10 * b - t * (1024 * 1024)) <= 1024 * 1024
            &&& 2 * (t * (1024 * 1024) - 10 * b) <= 1024 * 1024
        },
{
    let d: nat = if b < 1024 * 1024 {
        1024
    } else {
        1024 * 1024
    };
    let t = half_even(10 * b, d);
    law_rounding_is_to_the_nearest(10 * b, d);
    assert(tenths(t) =~= decimal(t / 10) + seq!['.', digit((t % 10) as int)]);
    t
}

/// Gigabytes are written to the nearest hundredth of what double precision holds of the size:
/// `c` is the number of hundredths. Up to 53 bits the size is held as it is.
pub proof fn law_gigabytes_are_to_the_nearest_hundredth(b: nat) -> (c: nat)
    requires
        b >= 1024 * 1024 * 1024,
    ensures
        human_size(b) == decimal(c / 100) + seq![
            '.',
            digit((c / 10 % 10) as int),
            digit((c % 10) as int),
        ] + "GB"@,
        2 * (100 * nearest_double(b) - c * (1024 * 1024 * 1024)) <= 1024 * 1024 * 1024,
        2 * (c * (1024 * 1024 * 1024) - 100 * nearest_double(b)) <= 1024 * 1024 * 1024,
        b < 0x20_0000_0000_0000 ==> nearest_double(b) == b,
{
    let d: nat = 1024 * 1024 * 1024;
    let c = half_even(100 * nearest_double(b), d);
    law_rounding_is_to_the_nearest(100 * nearest_double(b), d);
    assert(c / 10 / 10 == c / 100);
    assert(tenths(c / 10).push(digit((c % 10) as int)) =~= decimal(c / 100) + seq![
        '.',
        digit((c / 10 % 10) as int),
        digit((c % 10) as int),
    ]);
    if b < 0x20_0000_0000_0000 {
        let u = spacing(b, 1);
        assert(u == 1);
        assert(half_even(b, u) == b);
        assert(half_even(b, u) * u == b) by (nonlinear_arith)
            requires
                u == 1,
                half_even(b, u) == b,
        ;
    }
    c
}

// ---- Laws of names --------------------------------------------------------

/// The part named `github` is the first of that name, in any case of ASCII letters.
pub proof fn law_github_part_is_the_first(parts: Seq<Seq<char>>)
    ensures
        match github_part(parts) {
            Some(i) => 0 <= i < parts.len() && same_ignoring_case(parts[i], "github"@)
                && forall|j: int|
                0 <= j < i ==> !same_ignoring_case(#[trigger] parts[j], "github"@),
            None => forall|j: int|
                0 <= j < parts.len() ==> !same_ignoring_case(#[trigger] parts[j], "github"@),
        },
    decreases parts.len(),
{
    if parts.len() > 0 {
        let rest = parts.drop_last();
        law_github_part_is_the_first(rest);
        assert forall|j: int| 0 <= j < rest.len() implies #[trigger] parts[j] == rest[j] by {}
    }
}

/// Letters of ASCII are the same in both cases, and every other character only itself.
pub proof fn law_only_ascii_letters_have_cases(a: char, b: char)
    ensures
        ascii_lower(a) == ascii_lower(b) <==> {
            ||| a == b
            ||| 'A' <= a && a <= 'Z' && b as u32 == a as u32 + 32
            ||| 'A' <= b && b <= 'Z' && a as u32 == b as u32 + 32
        },
{
}

/// The project that a directory's name suggests: all that follows the first part `github`; where
/// there is none, the last part that is neither empty nor `Users`; and the whole name where
/// nothing follows, or no part is such.
pub proof fn law_directories_suggest_their_project(dir_name: Seq<char>, i: int)
    requires
        0 <= i < split(dir_name, '-').len(),
    ensures
        ({
            let parts = split(dir_name, '-');
            let github = |p: Seq<char>| same_ignoring_case(p, "github"@);
            let first = github(parts[i]) && forall|j: int|
                0 <= j < i ==> !github(#[trigger] parts[j]);
            let none = forall|j: int| 0 <= j < parts.len() ==> !github(#[trigger] parts[j]);
            let telling = |p: Seq<char>| p.len() > 0 && p != "Users"@;
            let last = telling(parts[i]) && forall|j: int|
                i < j < parts.len() ==> !telling(#[trigger] parts[j]);
            &&& first && i + 1 < parts.len() ==> suggested_project(dir_name) == joined(
                parts.skip(i + 1),
                "-"@,
            )
            &&& first && i + 1 == parts.len() ==> suggested_project(dir_name) == dir_name
            &&& none && last ==> suggested_project(dir_name) == parts[i]
            &&& none && (forall|j: int| 0 <= j < parts.len() ==> !telling(#[trigger] parts[j]))
                ==> suggested_project(dir_name) == dir_name
        }),
{
    let parts = split(dir_name, '-');
    law_github_part_is_the_first(parts);
    lemma_last_telling_part(parts);
}

/// The last part that tells anything is the last that is neither empty nor `Users`.
proof fn lemma_last_telling_part(parts: Seq<Seq<char>>)
    ensures
        match last_telling_part(parts) {
            Some(p) => exists|i: int|
                0 <= i < parts.len() && #[trigger] parts[i] == p && p.len() > 0 && p != "Users"@
                    && forall|j: int|
                    i < j < parts.len() ==> !((#[trigger] parts[j]).len() > 0 && parts[j]
                        != "Users"@),
            None => forall|j: int|
                0 <= j < parts.len() ==> !((#[trigger] parts[j]).len() > 0 && parts[j]
                    != "Users"@),
        },
    decreases parts.len(),
{
    if parts.len() > 0 {
        let rest = parts.drop_last();
        let n = parts.len() - 1;
        assert(parts[n] == parts.last());
        if !(parts.last().len() > 0 && parts.last() != "Users"@) {
            lemma_last_telling_part(rest);
            assert forall|j: int| 0 <= j < n implies #[trigger] parts[j] == rest[j] by {}
            if last_telling_part(rest) is Some {
                let p = last_telling_part(rest)->0;
                let i = choose|i: int|
                    0 <= i < rest.len() && #[trigger] rest[i] == p && p.len() > 0 && p != "Users"@
                        && forall|j: int|
                        i < j < rest.len() ==> !((#[trigger] rest[j]).len() > 0 && rest[j]
                            != "Users"@);
                assert(parts[i] == p);
                assert forall|j: int| i < j < parts.len() implies !((#[trigger] parts[j]).len() > 0
                    && parts[j] != "Users"@) by {
                    if j < n {
                        assert(rest[j] == parts[j]);
                    }
                }
            }
        }
    }
}

/// What follows the last separator is the last part.
proof fn lemma_split_behind(a: Seq<char>, sep: char, b: Seq<char>)
    requires
        !b.contains(sep),
    ensures
        split(a + seq![sep] + b, sep) == split(a, sep).push(b),
    decreases b.len(),
{
    let whole = a + seq![sep] + b;
    if b.len() == 0 {
        assert(whole.drop_last() =~= a);
        assert(b =~= Seq::empty());
    } else {
        let rest = b.drop_last();
        assert(!rest.contains(sep)) by {
            assert forall|i: int| 0 <= i < rest.len() implies rest[i] != sep by {
                assert(b.contains(b[i]));
            }
        }
        lemma_split_behind(a, sep, rest);
        assert(whole.drop_last() =~= a + seq![sep] + rest);
        assert(b.contains(b.last()));
        assert(split(a, sep).push(rest).drop_last() =~= split(a, sep));
        assert(rest.push(b.last()) =~= b);
    }
}

/// The last component of a path is what stands behind its last slash; a slash at the end, or
/// behind it a single dot, changes nothing, and behind two dots there is none.
pub proof fn law_paths_end_with_their_name(dir: Seq<char>, name: Seq<char>)
    requires
        !name.contains('/'),
    ensures
        name.len() > 0 && name != "."@ && name != ".."@ ==> last_component(
            dir + seq!['/'] + name,
        ) == Some(name),
        name.len() == 0 || name == "."@ ==> last_component(dir + seq!['/'] + name)
            == last_component(dir),
        name == ".."@ ==> last_component(dir + seq!['/'] + name) is None,
{
    lemma_split_behind(dir, '/', name);
    let parts = split(dir, '/');
    assert(parts.push(name).drop_last() =~= parts);
    assert(parts.push(name).last() == name);
    reveal_strlit(".");
    reveal_strlit("..");
    assert("."@.len() == 1 && ".."@.len() == 2);
}

/// A path without a slash is its own last component, unless it is empty or made of dots.
pub proof fn law_bare_names_are_their_own(name: Seq<char>)
    requires
        !name.contains('/'),
    ensures
        name.len() > 0 && name != "."@ && name != ".."@ ==> last_component(name) == Some(name),
        name.len() == 0 || name == "."@ || name == ".."@ ==> last_component(name) is None,
{
    lemma_split_whole(name, '/');
    let parts = split(name, '/');
    assert(parts.drop_last() =~= Seq::empty());
    reveal_with_fuel(last_name, 2);
}

/// A text without the separator is one part.
proof fn lemma_split_whole(s: Seq<char>, sep: char)
    requires
        !s.contains(sep),
    ensures
        split(s, sep) == seq![s],
    decreases s.len(),
{
    if s.len() == 0 {
        assert(s =~= Seq::empty());
    } else {
        let rest = s.drop_last();
        assert(!rest.contains(sep)) by {
            assert forall|i: int| 0 <= i < rest.len() implies rest[i] != sep by {
                assert(s.contains(s[i]));
            }
        }
        lemma_split_whole(rest, sep);
        assert(s.contains(s.last()));
        assert(rest.push(s.last()) =~= s);
        assert(split(s, sep) =~= seq![s]);
    }
}

/// The project that a line names is the last component of the string that its object holds
/// under `cwd`.
pub proof fn law_lines_name_their_project(line: Seq<char>)
    ensures
        line_project(line) == match json_parsed(encode_utf8(line)) {
            Some(v) => match member(v, "cwd"@) {
                Some(JsonTree::Str(cwd)) => last_component(cwd),
                _ => None,
            },
            None => None,
        },
{
}

/// Of the first `n` lines, the first that names a project decides.
pub proof fn law_first_line_decides(lines: Seq<String>, n: int)
    requires
        0 <= n,
    ensures
        match lines_project(lines, n) {
            Some(p) => exists|i: int|
                0 <= i < lines.len() && i < n && line_project((#[trigger] lines[i])@) == Some(p)
                    && forall|j: int|
                    0 <= j < i ==> line_project((#[trigger] lines[j])@) is None,
            None => forall|j: int|
                0 <= j < lines.len() && j < n ==> line_project((#[trigger] lines[j])@) is None,
        },
    decreases n,
{
    if n > 0 {
        law_first_line_decides(lines, n - 1);
        if lines_project(lines, n - 1) is None && n <= lines.len() {
            assert(lines[n - 1] == lines[n - 1]);
        }
    }
}

/// A directory's project is the one that its logs name first, of which the first 20 lines of
/// the first three are asked; where they name none, what its name suggests.
pub proof fn law_first_logs_decide(d: ProjectDir)
    ensures
        (exists|i: int|
            0 <= i < d.heads@.len() && i < 3 && lines_project((#[trigger] d.heads@[i])@, 20)
                is Some) ==> exists|i: int|
            0 <= i < d.heads@.len() && i < 3 && lines_project((#[trigger] d.heads@[i])@, 20)
                == Some(project_of(d)) && forall|j: int|
                0 <= j < i ==> lines_project((#[trigger] d.heads@[j])@, 20) is None,
        !(exists|i: int|
            0 <= i < d.heads@.len() && i < 3 && lines_project((#[trigger] d.heads@[i])@, 20)
                is Some) ==> project_of(d) == suggested_project(d.dir_name@),
{
    lemma_first_head_decides(d.heads@, 3);
}

/// Of the first `n` logs, the first that names a project decides.
proof fn lemma_first_head_decides(heads: Seq<Vec<String>>, n: int)
    requires
        0 <= n,
    ensures
        match heads_project(heads, n) {
            Some(p) => exists|i: int|
                0 <= i < heads.len() && i < n && lines_project((#[trigger] heads[i])@, 20) == Some(
                    p,
                ) && forall|j: int|
                    0 <= j < i ==> lines_project((#[trigger] heads[j])@, 20) is None,
            None => forall|j: int|
                0 <= j < heads.len() && j < n ==> lines_project((#[trigger] heads[j])@, 20)
                    is None,
        },
    decreases n,
{
    if n > 0 {
        lemma_first_head_decides(heads, n - 1);
        if heads_project(heads, n - 1) is None && n <= heads.len() {
            assert(heads[n - 1] == heads[n - 1]);
        }
    }
}

/// The stem of a log's name is the name without `.jsonl`, and only such names have one.
pub proof fn law_stems_are_without_the_ending(name: Seq<char>, stem: Seq<char>)
    ensures
        stem_of(name) == Some(stem) <==> stem.len() > 0 && name == stem + ".jsonl"@,
{
    reveal_strlit(".jsonl");
    let end = ".jsonl"@;
    if stem.len() > 0 && name == stem + end {
        let n = name.len() - end.len();
        assert(name.skip(n) =~= end);
        assert(name.take(n) =~= stem);
    }
    if stem_of(name) == Some(stem) {
        let n = name.len() - end.len();
        assert(name =~= name.take(n) + name.skip(n));
    }
}

/// Every log of every directory is among those that are listed, once, directory by directory
/// and in its order there, and nothing else is.
pub proof fn law_every_log_is_listed(dirs: Seq<ProjectDir>)
    ensures
        forall|k: int|
            0 <= k < all_logs(dirs).len() ==> {
                let at = #[trigger] all_logs(dirs)[k];
                0 <= at.0 < dirs.len() && 0 <= at.1 < dirs[at.0].logs@.len()
            },
        forall|k: int, l: int|
            0 <= k < l < all_logs(dirs).len() ==> {
                let (a, b) = (#[trigger] all_logs(dirs)[k], #[trigger] all_logs(dirs)[l]);
                a.0 < b.0 || (a.0 == b.0 && a.1 < b.1)
            },
        forall|d: int, i: int|
            0 <= d < dirs.len() && 0 <= i < dirs[d].logs@.len() ==> #[trigger] all_logs(
                dirs,
            ).contains((d, i)),
    decreases dirs.len(),
{
    if dirs.len() > 0 {
        let rest = dirs.drop_last();
        let (before, all) = (all_logs(rest), all_logs(dirs));
        let n = dirs.len() - 1;
        let more = Seq::new(dirs.last().logs@.len(), |i: int| (n, i));
        law_every_log_is_listed(rest);
        assert(all == before + more);
        assert forall|k: int| 0 <= k < all.len() implies {
            let at = #[trigger] all[k];
            0 <= at.0 < dirs.len() && 0 <= at.1 < dirs[at.0].logs@.len()
        } by {
            if k < before.len() {
                assert(all[k] == before[k]);
                assert(rest[before[k].0] == dirs[before[k].0]);
            } else {
                assert(all[k] == more[k - before.len()]);
            }
        }
        assert forall|k: int, l: int| 0 <= k < l < all.len() implies {
            let (a, b) = (#[trigger] all[k], #[trigger] all[l]);
            a.0 < b.0 || (a.0 == b.0 && a.1 < b.1)
        } by {
            if l < before.len() {
                assert(all[k] == before[k] && all[l] == before[l]);
            } else if k < before.len() {
                assert(all[k] == before[k]);
                assert(all[l] == more[l - before.len()]);
            } else {
                assert(all[k] == more[k - before.len()] && all[l] == more[l - before.len()]);
            }
        }
        assert forall|d: int, i: int|
            0 <= d < dirs.len() && 0 <= i < dirs[d].logs@.len() implies #[trigger] all.contains(
            (d, i),
        ) by {
            if d < n {
                assert(rest[d] == dirs[d]);
                assert(before.contains((d, i)));
                let k = choose|k: int| 0 <= k < before.len() && before[k] == (d, i);
                assert(all[k] == (d, i));
            } else {
                assert(more[i] == (d, i));
                assert(all[before.len() + i] == (d, i));
            }
        }
    }
}

/// A session file tells of its log: where it is, its id, its project, its size, and when it was
/// written.
pub proof fn law_session_files_tell_of_their_log(f: SessionFile, d: ProjectDir, l: LogFile)
    ensures
        stands_for(f, d, l) <==> f.path == l.path && f.session_id@ == l.stem@ && f.project_name@
            == project_of(d) && f.size_bytes == l.size_bytes && f.modified == l.modified,
{
}

/// What double precision holds of a whole number: the nearest multiple of `u`, the least power
/// of two that leaves no more than 53 bits.
pub proof fn law_doubles_hold_53_bits(b: nat) -> (u: nat)
    ensures
        u > 0,
        b < u * 0x20_0000_0000_0000,
        u == 1 || (u % 2 == 0 && u / 2 * 0x20_0000_0000_0000 <= b),
        exists|k: nat| nearest_double(b) == #[trigger] (k * u),
        2 * (b - nearest_double(b)) <= u,
        2 * (nearest_double(b) - b) <= u,
{
    let u = spacing(b, 1);
    lemma_spacing(b, 1);
    law_rounding_is_to_the_nearest(b, u);
    let k = half_even(b, u);
    assert(nearest_double(b) == k * u);
    u
}

/// The spacing leaves 53 bits, and half of it does not.
proof fn lemma_spacing(b: nat, u: nat)
    requires
        u > 0,
    ensures
        spacing(b, u) >= u,
        b < spacing(b, u) * 0x20_0000_0000_0000,
        spacing(b, u) == u || (spacing(b, u) % 2 == 0 && spacing(b, u) / 2
            * 0x20_0000_0000_0000 <= b),
    decreases b - u,
{
    if b >= u * 0x20_0000_0000_0000 {
        lemma_spacing(b, 2 * u);
    }
}

} // verus!
