//! Conversation threads: which messages hang on one root.
use vstd::hash_map::StringHashMap;
use vstd::hash_set::StringHashSet;
use vstd::prelude::*;
use vstd::string::*;

use crate::text::opt_text;

verus! {

broadcast use {
    vstd::seq::group_seq_axioms,
    vstd::string::group_string_axioms,
    vstd::set::group_set_axioms,
    vstd::map::group_map_axioms,
};

/// The parent of each known message, by their ids.
pub type Ancestry = Map<Seq<char>, Option<Seq<char>>>;

/// The parents of the messages of a session.
pub struct Parents {
    map: StringHashMap<Option<String>>,
}

impl View for Parents {
    type V = Ancestry;

    closed spec fn view(&self) -> Ancestry {
        self.map@.map_values(|p: Option<String>| opt_text(p))
    }
}

/// The parent of a message, where it is known itself.
pub open spec fn known_parent(m: Ancestry, id: Seq<char>) -> Option<Seq<char>> {
    if m.dom().contains(id) {
        match m[id] {
            Some(p) => if m.dom().contains(p) {
                Some(p)
            } else {
                None
            },
            None => None,
        }
    } else {
        None
    }
}

/// Where the walk from `id` to its parents ends: at a message without a known parent, or at
/// the first that was visited before.
pub open spec fn walk(m: Ancestry, id: Seq<char>, visited: Set<Seq<char>>) -> Seq<char>
    decreases m.dom().difference(visited).len(),
    when m.dom().finite()
{
    if visited.contains(id) {
        id
    } else {
        match known_parent(m, id) {
            Some(p) => {
                proof {
                    lemma_visit(m, id, visited);
                }
                walk(m, p, visited.insert(id))
            },
            None => id,
        }
    }
}

/// The root of a message's thread.
pub open spec fn root_of(m: Ancestry, id: Seq<char>) -> Seq<char> {
    walk(m, id, Set::empty())
}

/// Visiting a message leaves fewer to visit.
pub proof fn lemma_visit(m: Ancestry, id: Seq<char>, visited: Set<Seq<char>>)
    requires
        m.dom().finite(),
        m.dom().contains(id),
        !visited.contains(id),
    ensures
        m.dom().difference(visited.insert(id)).len() < m.dom().difference(visited).len(),
{
    let left = m.dom().difference(visited);
    assert(left.contains(id));
    assert(m.dom().difference(visited.insert(id)) =~= left.remove(id));
}

impl Parents {
    /// Only finitely many messages are known.
    pub open spec fn wf(&self) -> bool {
        self@.dom().finite()
    }

    /// No message is known yet.
    pub fn new() -> (r: Self)
        ensures
            r.wf(),
            r@ == Ancestry::empty(),
    {
        let r = Parents { map: StringHashMap::new() };
        assert(r@ =~= Ancestry::empty());
        r
    }

    /// Records a message and its parent.
    pub fn insert(&mut self, id: String, parent: Option<String>)
        requires
            old(self).wf(),
        ensures
            final(self).wf(),
            final(self)@ == old(self)@.insert(id@, opt_text(parent)),
    {
        self.map.insert(id, parent);
        assert(self@ =~= old(self)@.insert(id@, opt_text(parent)));
    }

    /// The parent of a message, where both are known.
    fn known_parent(&self, id: &str) -> (r: Option<String>)
        ensures
            opt_text(r) == known_parent(self@, id@),
    {
        match self.map.get(id) {
            Some(Some(p)) => if self.map.contains_key(p.as_str()) {
                Some(p.clone())
            } else {
                None
            },
            _ => None,
        }
    }
}

/// Walks from `start` to its topmost known ancestor. A chain that runs in a circle ends where
/// it closes.
pub fn resolve_thread_root(start: &str, map: &Parents) -> (r: String)
    requires
        map.wf(),
    ensures
        r@ == root_of(map@, start@),
{
    let mut cur = start.to_owned();
    let mut seen = StringHashSet::new();
    loop
        invariant
            map.wf(),
            walk(map@, cur@, seen@) == root_of(map@, start@),
        decreases map@.dom().difference(seen@).len(),
    {
        let ghost visited = seen@;
        if !seen.insert(cur.clone()) {
            return cur;
        }
        match map.known_parent(cur.as_str()) {
            Some(p) => {
                proof {
                    lemma_visit(map@, cur@, visited);
                }
                cur = p;
            },
            None => {
                return cur;
            },
        }
    }
}

// ---- Laws of threads ------------------------------------------------------

/// The ancestor `n` steps up from `id`; the topmost where there are not so many.
pub open spec fn ancestor(m: Ancestry, id: Seq<char>, n: nat) -> Seq<char>
    decreases n,
{
    if n == 0 {
        id
    } else {
        match known_parent(m, id) {
            Some(p) => ancestor(m, p, (n - 1) as nat),
            None => id,
        }
    }
}

/// Whether the chain from `id` ends after exactly `n` steps, at a message without a known
/// parent.
pub open spec fn ends_after(m: Ancestry, id: Seq<char>, n: nat) -> bool
    decreases n,
{
    match known_parent(m, id) {
        Some(p) => n > 0 && ends_after(m, p, (n - 1) as nat),
        None => n == 0,
    }
}

/// A chain ends after one number of steps only.
proof fn lemma_ends_once(m: Ancestry, id: Seq<char>, n: nat, k: nat)
    requires
        ends_after(m, id, n),
        ends_after(m, id, k),
    ensures
        n == k,
    decreases n,
{
    match known_parent(m, id) {
        Some(p) => {
            lemma_ends_once(m, p, (n - 1) as nat, (k - 1) as nat);
        },
        None => {},
    }
}

/// A walk along a chain that ends goes to its end.
proof fn lemma_walk_to_end(m: Ancestry, id: Seq<char>, n: nat, visited: Set<Seq<char>>)
    requires
        m.dom().finite(),
        ends_after(m, id, n),
        forall|v: Seq<char>| #[trigger]
            visited.contains(v) ==> exists|k: nat| k > n && #[trigger] ends_after(m, v, k),
    ensures
        walk(m, id, visited) == ancestor(m, id, n),
    decreases n,
{
    if visited.contains(id) {
        let k = choose|k: nat| k > n && #[trigger] ends_after(m, id, k);
        lemma_ends_once(m, id, n, k);
    }
    match known_parent(m, id) {
        Some(p) => {
            let more = visited.insert(id);
            assert forall|v: Seq<char>| #[trigger] more.contains(v) implies exists|k: nat|
                k > n - 1 && #[trigger] ends_after(m, v, k) by {
                if v == id {
                    assert(ends_after(m, v, n));
                } else {
                    let k = choose|k: nat| k > n && #[trigger] ends_after(m, v, k);
                    assert(ends_after(m, v, k));
                }
            }
            lemma_walk_to_end(m, p, (n - 1) as nat, more);
        },
        None => {},
    }
}

/// Where the chain of parents ends, the root is its end: a message without a known parent.
pub proof fn law_root_is_the_topmost_ancestor(m: Ancestry, id: Seq<char>, n: nat)
    requires
        m.dom().finite(),
        ends_after(m, id, n),
    ensures
        root_of(m, id) == ancestor(m, id, n),
        known_parent(m, root_of(m, id)) is None,
    decreases n,
{
    lemma_walk_to_end(m, id, n, Set::empty());
    lemma_end_is_top(m, id, n);
}

proof fn lemma_end_is_top(m: Ancestry, id: Seq<char>, n: nat)
    requires
        ends_after(m, id, n),
    ensures
        known_parent(m, ancestor(m, id, n)) is None,
    decreases n,
{
    match known_parent(m, id) {
        Some(p) => {
            lemma_end_is_top(m, p, (n - 1) as nat);
        },
        None => {},
    }
}

/// A message and its parent belong to one thread: they have the same root.
pub proof fn law_parent_shares_the_root(m: Ancestry, id: Seq<char>, parent: Seq<char>, n: nat)
    requires
        m.dom().finite(),
        known_parent(m, id) == Some(parent),
        ends_after(m, id, n),
    ensures
        root_of(m, id) == root_of(m, parent),
{
    law_root_is_the_topmost_ancestor(m, id, n);
    law_root_is_the_topmost_ancestor(m, parent, (n - 1) as nat);
}

/// A message without a known parent is the root of its thread.
pub proof fn law_topmost_message_is_its_own_root(m: Ancestry, id: Seq<char>)
    requires
        m.dom().finite(),
        known_parent(m, id) is None,
    ensures
        root_of(m, id) == id,
{
}

/// Whatever the chain looks like, the root is the message itself or one of its ancestors, and
/// where the root has a known parent, the walk came by it before: the chain runs in a circle.
pub proof fn law_root_is_an_ancestor(m: Ancestry, id: Seq<char>)
    requires
        m.dom().finite(),
    ensures
        exists|n: nat|
            root_of(m, id) == #[trigger] ancestor(m, id, n) && (known_parent(m, root_of(m, id))
                is Some ==> exists|k: nat| k < n && ancestor(m, id, n) == #[trigger] ancestor(
                m,
                id,
                k,
            )),
{
    lemma_walk_is_ancestor(m, id, 0, id, Set::empty());
}

/// The state of a walk after `n` steps from `start`.
proof fn lemma_walk_is_ancestor(
    m: Ancestry,
    start: Seq<char>,
    n: nat,
    id: Seq<char>,
    visited: Set<Seq<char>>,
)
    requires
        m.dom().finite(),
        id == ancestor(m, start, n),
        forall|v: Seq<char>| #[trigger]
            visited.contains(v) ==> exists|k: nat| k < n && v == #[trigger] ancestor(m, start, k),
    ensures
        exists|e: nat|
            walk(m, id, visited) == #[trigger] ancestor(m, start, e) && (known_parent(
                m,
                walk(m, id, visited),
            ) is Some ==> exists|k: nat| k < e && ancestor(m, start, e) == #[trigger] ancestor(
                m,
                start,
                k,
            )),
    decreases m.dom().difference(visited).len(),
{
    if !visited.contains(id) && known_parent(m, id) is Some {
        let p = known_parent(m, id)->0;
        lemma_next_ancestor(m, start, n);
        lemma_visit(m, id, visited);
        let more = visited.insert(id);
        assert forall|v: Seq<char>| #[trigger] more.contains(v) implies exists|k: nat|
            k < n + 1 && v == #[trigger] ancestor(m, start, k) by {
            if v == id {
                assert(v == ancestor(m, start, n));
            } else {
                let k = choose|k: nat| k < n && v == #[trigger] ancestor(m, start, k);
                assert(v == ancestor(m, start, k));
            }
        }
        lemma_walk_is_ancestor(m, start, n + 1, p, more);
    } else {
        assert(walk(m, id, visited) == ancestor(m, start, n));
    }
}

proof fn lemma_next_ancestor(m: Ancestry, id: Seq<char>, n: nat)
    requires
        known_parent(m, ancestor(m, id, n)) is Some,
    ensures
        known_parent(m, ancestor(m, id, n)) == Some(ancestor(m, id, n + 1)),
    decreases n,
{
    if n > 0 && known_parent(m, id) is Some {
        lemma_next_ancestor(m, known_parent(m, id)->0, (n - 1) as nat);
    } else {
        reveal_with_fuel(ancestor, 2);
    }
}

/// A message has a known parent exactly where the log knows both and names the one as parent of
/// the other.
pub proof fn law_parents_are_known_where_both_are(m: Ancestry, id: Seq<char>, p: Seq<char>)
    ensures
        known_parent(m, id) == Some(p) <==> m.dom().contains(id) && m[id] == Some(p)
            && m.dom().contains(p),
{
}

/// The root is where the walk along the parents first ends or comes back to a message it came
/// by: `n` steps up, with no message twice on the way, it has no known parent, or it is one of
/// those before.
pub proof fn law_root_ends_the_walk(m: Ancestry, id: Seq<char>) -> (n: nat)
    requires
        m.dom().finite(),
    ensures
        root_of(m, id) == ancestor(m, id, n),
        forall|a: nat, b: nat|
            a < b < n ==> #[trigger] ancestor(m, id, a) != #[trigger] ancestor(m, id, b),
        forall|a: nat| a < n ==> known_parent(m, #[trigger] ancestor(m, id, a)) is Some,
        known_parent(m, root_of(m, id)) is None || exists|k: nat|
            k < n && root_of(m, id) == #[trigger] ancestor(m, id, k),
{
    lemma_walk_ends(m, id, 0, id, Set::empty())
}

/// Where the walk ends that is at `id` after `n` steps from `start`.
proof fn lemma_walk_ends(
    m: Ancestry,
    start: Seq<char>,
    n: nat,
    id: Seq<char>,
    visited: Set<Seq<char>>,
) -> (e: nat)
    requires
        m.dom().finite(),
        id == ancestor(m, start, n),
        forall|v: Seq<char>| #[trigger]
            visited.contains(v) <==> exists|k: nat| k < n && v == #[trigger] ancestor(m, start, k),
        forall|a: nat, b: nat|
            a < b < n ==> #[trigger] ancestor(m, start, a) != #[trigger] ancestor(m, start, b),
        forall|a: nat| a < n ==> known_parent(m, #[trigger] ancestor(m, start, a)) is Some,
    ensures
        walk(m, id, visited) == ancestor(m, start, e),
        forall|a: nat, b: nat|
            a < b < e ==> #[trigger] ancestor(m, start, a) != #[trigger] ancestor(m, start, b),
        forall|a: nat| a < e ==> known_parent(m, #[trigger] ancestor(m, start, a)) is Some,
        known_parent(m, walk(m, id, visited)) is None || exists|k: nat|
            k < e && walk(m, id, visited) == #[trigger] ancestor(m, start, k),
    decreases m.dom().difference(visited).len(),
{
    if !visited.contains(id) && known_parent(m, id) is Some {
        let p = known_parent(m, id)->0;
        lemma_next_ancestor(m, start, n);
        lemma_visit(m, id, visited);
        let more = visited.insert(id);
        assert forall|v: Seq<char>| #[trigger]
            more.contains(v) <==> exists|k: nat|
                k < n + 1 && v == #[trigger] ancestor(m, start, k) by {
            if more.contains(v) {
                if v == id {
                    assert(v == ancestor(m, start, n));
                } else {
                    let k = choose|k: nat| k < n && v == #[trigger] ancestor(m, start, k);
                    assert(v == ancestor(m, start, k));
                }
            }
            if exists|k: nat| k < n + 1 && v == #[trigger] ancestor(m, start, k) {
                let k = choose|k: nat| k < n + 1 && v == #[trigger] ancestor(m, start, k);
                if k < n {
                    assert(visited.contains(v));
                }
            }
        }
        assert forall|a: nat, b: nat| a < b < n + 1 implies #[trigger] ancestor(m, start, a)
            != #[trigger] ancestor(m, start, b) by {
            if b == n {
                assert(!visited.contains(id));
            }
        }
        lemma_walk_ends(m, start, n + 1, p, more)
    } else {
        n
    }
}

} // verus!
