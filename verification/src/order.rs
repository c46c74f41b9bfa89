//! Dictionary order on key sequences, and stable ranking by it.
use vstd::prelude::*;

verus! {

/// Dictionary order: `a` is a proper prefix of `b`, or holds the smaller number at the
/// first place where the two differ.
pub open spec fn lex_lt(a: Seq<u64>, b: Seq<u64>) -> bool
    decreases a.len(),
{
    b.len() > 0 && (a.len() == 0 || a[0] < b[0] || (a[0] == b[0] && lex_lt(
        a.drop_first(),
        b.drop_first(),
    )))
}

/// The views of a list of keys.
pub open spec fn key_views(keys: Seq<Vec<u64>>) -> Seq<Seq<u64>> {
    keys.map_values(|k: Vec<u64>| k@)
}

/// Whether key `a` ranks ahead of key `b`.
pub open spec fn ahead(a: Seq<u64>, b: Seq<u64>, descending: bool) -> bool {
    if descending {
        lex_lt(b, a)
    } else {
        lex_lt(a, b)
    }
}

/// Whether entry `i` is listed before entry `j`: by key, and by position where the keys tie.
pub open spec fn listed_before(keys: Seq<Seq<u64>>, descending: bool, i: usize, j: usize) -> bool {
    ahead(keys[i as int], keys[j as int], descending) || (!ahead(
        keys[j as int],
        keys[i as int],
        descending,
    ) && i < j)
}

/// Every entry of `s` is listed before the entries that follow it.
pub open spec fn in_order(keys: Seq<Seq<u64>>, descending: bool, s: Seq<usize>) -> bool {
    forall|p: int, q: int|
        0 <= p < q < s.len() ==> listed_before(keys, descending, #[trigger] s[p], #[trigger] s[q])
}

/// `s` lists each position of `keys` once, stably sorted by key.
pub open spec fn is_ranking(keys: Seq<Seq<u64>>, descending: bool, s: Seq<usize>) -> bool {
    &&& s.len() == keys.len()
    &&& in_order(keys, descending, s)
    &&& forall|k: usize| #[trigger] s.contains(k) <==> k < keys.len()
}

/// The stable ranking of `keys`.
pub open spec fn ranking(keys: Seq<Seq<u64>>, descending: bool) -> Seq<usize> {
    choose|s: Seq<usize>| is_ranking(keys, descending, s)
}

/// Nothing precedes itself.
pub proof fn lemma_lex_irreflexive(a: Seq<u64>)
    ensures
        !lex_lt(a, a),
    decreases a.len(),
{
    if a.len() > 0 {
        lemma_lex_irreflexive(a.drop_first());
    }
}

/// Dictionary order is transitive.
pub proof fn lemma_lex_transitive(a: Seq<u64>, b: Seq<u64>, c: Seq<u64>)
    requires
        lex_lt(a, b),
        lex_lt(b, c),
    ensures
        lex_lt(a, c),
    decreases a.len(),
{
    if a.len() > 0 && a[0] == b[0] && b[0] == c[0] {
        lemma_lex_transitive(a.drop_first(), b.drop_first(), c.drop_first());
    }
}

/// Two different keys are ordered one way or the other.
pub proof fn lemma_lex_total(a: Seq<u64>, b: Seq<u64>)
    ensures
        lex_lt(a, b) || lex_lt(b, a) || a == b,
    decreases a.len(),
{
    if a.len() > 0 && b.len() > 0 && a[0] == b[0] {
        lemma_lex_total(a.drop_first(), b.drop_first());
        if a.drop_first() == b.drop_first() {
            assert(a =~= seq![a[0]] + a.drop_first());
            assert(b =~= seq![b[0]] + b.drop_first());
        }
    } else if a.len() == 0 && b.len() == 0 {
        assert(a =~= b);
    }
}

/// No entry is listed before itself.
proof fn lemma_listed_irreflexive(keys: Seq<Seq<u64>>, descending: bool, i: usize)
    ensures
        !listed_before(keys, descending, i, i),
{
    lemma_lex_irreflexive(keys[i as int]);
}

/// Listing is transitive.
proof fn lemma_listed_transitive(
    keys: Seq<Seq<u64>>,
    descending: bool,
    i: usize,
    j: usize,
    k: usize,
)
    requires
        listed_before(keys, descending, i, j),
        listed_before(keys, descending, j, k),
    ensures
        listed_before(keys, descending, i, k),
{
    let (a, b, c) = (keys[i as int], keys[j as int], keys[k as int]);
    lemma_lex_total(a, b);
    lemma_lex_total(b, c);
    lemma_lex_irreflexive(a);
    if lex_lt(a, b) && lex_lt(b, c) {
        lemma_lex_transitive(a, b, c);
    }
    if lex_lt(c, b) && lex_lt(b, a) {
        lemma_lex_transitive(c, b, a);
    }
    if lex_lt(a, c) && lex_lt(c, a) {
        lemma_lex_transitive(a, c, a);
    }
}

/// Two different entries are listed one way or the other.
proof fn lemma_listed_total(keys: Seq<Seq<u64>>, descending: bool, i: usize, j: usize)
    requires
        i != j,
    ensures
        listed_before(keys, descending, i, j) || listed_before(keys, descending, j, i),
{
    lemma_lex_total(keys[i as int], keys[j as int]);
    lemma_lex_irreflexive(keys[i as int]);
}

/// Two ordered lists of the same entries are the same list.
proof fn lemma_in_order_unique(
    keys: Seq<Seq<u64>>,
    descending: bool,
    s: Seq<usize>,
    t: Seq<usize>,
)
    requires
        in_order(keys, descending, s),
        in_order(keys, descending, t),
        forall|k: usize| #[trigger] s.contains(k) <==> t.contains(k),
    ensures
        s == t,
    decreases s.len(),
{
    if s.len() == 0 {
        if t.len() > 0 {
            assert(t.contains(t[0]));
            assert(s.contains(t[0]));
        }
        assert(s =~= t);
    } else {
        assert(s.contains(s[0]));
        assert(t.contains(s[0]));
        assert(t.contains(t[0]));
        assert(s.contains(t[0]));
        if s[0] != t[0] {
            let q = choose|q: int| 0 <= q < t.len() && t[q] == s[0];
            let p = choose|p: int| 0 <= p < s.len() && s[p] == t[0];
            assert(listed_before(keys, descending, t[0], t[q]));
            assert(listed_before(keys, descending, s[0], s[p]));
            lemma_listed_transitive(keys, descending, s[0], t[0], s[0]);
            lemma_listed_irreflexive(keys, descending, s[0]);
        }
        let s1 = s.drop_first();
        let t1 = t.drop_first();
        assert forall|k: usize| #[trigger] s1.contains(k) <==> t1.contains(k) by {
            if s1.contains(k) {
                let p = choose|p: int| 0 <= p < s1.len() && s1[p] == k;
                assert(s[p + 1] == k);
                lemma_listed_irreflexive(keys, descending, k);
                assert(listed_before(keys, descending, s[0], s[p + 1]));
                assert(s.contains(k));
                assert(t.contains(k));
                let q = choose|q: int| 0 <= q < t.len() && t[q] == k;
                assert(t1[q - 1] == k);
            }
            if t1.contains(k) {
                let p = choose|p: int| 0 <= p < t1.len() && t1[p] == k;
                assert(t[p + 1] == k);
                lemma_listed_irreflexive(keys, descending, k);
                assert(listed_before(keys, descending, t[0], t[p + 1]));
                assert(s.contains(k));
                let q = choose|q: int| 0 <= q < s.len() && s[q] == k;
                assert(s1[q - 1] == k);
            }
        }
        lemma_in_order_unique(keys, descending, s1, t1);
        assert(s =~= seq![s[0]] + s1);
        assert(t =~= seq![t[0]] + t1);
    }
}

/// An entry put in its place keeps a list ordered.
proof fn lemma_insertion_in_order(
    keys: Seq<Seq<u64>>,
    descending: bool,
    s: Seq<usize>,
    x: usize,
    p: int,
)
    requires
        in_order(keys, descending, s),
        !s.contains(x),
        0 <= p <= s.len(),
        forall|a: int| 0 <= a < p ==> !listed_before(keys, descending, x, #[trigger] s[a]),
        p < s.len() ==> listed_before(keys, descending, x, s[p]),
    ensures
        in_order(keys, descending, s.insert(p, x)),
{
    let t = s.insert(p, x);
    assert forall|a: int, b: int| 0 <= a < b < t.len() implies listed_before(
        keys,
        descending,
        #[trigger] t[a],
        #[trigger] t[b],
    ) by {
        if b == p {
            assert(s.contains(s[a]));
            assert(!listed_before(keys, descending, x, s[a]));
            lemma_listed_total(keys, descending, x, s[a]);
        } else if a == p {
            if b > p + 1 {
                assert(listed_before(keys, descending, s[p], s[b - 1]));
                lemma_listed_transitive(keys, descending, x, s[p], s[b - 1]);
            }
        } else if b < p {
            assert(listed_before(keys, descending, s[a], s[b]));
        } else if a < p {
            assert(listed_before(keys, descending, s[a], s[b - 1]));
        } else {
            assert(listed_before(keys, descending, s[a - 1], s[b - 1]));
        }
    }
}

/// A list with an entry put in holds that entry and those it held before.
proof fn lemma_insertion_holds(s: Seq<usize>, x: usize, p: int, k: usize)
    requires
        0 <= p <= s.len(),
    ensures
        s.insert(p, x).contains(k) <==> k == x || s.contains(k),
{
    let t = s.insert(p, x);
    if t.contains(k) {
        let a = choose|a: int| 0 <= a < t.len() && t[a] == k;
        if a < p {
            assert(s[a] == k);
        } else if a > p {
            assert(s[a - 1] == k);
        }
    }
    if s.contains(k) {
        let a = choose|a: int| 0 <= a < s.len() && s[a] == k;
        if a < p {
            assert(t[a] == k);
        } else {
            assert(t[a + 1] == k);
        }
    }
    assert(t[p] == x);
}

/// Every list of keys has a ranking.
pub proof fn lemma_ranking_exists(keys: Seq<Seq<u64>>, descending: bool)
    requires
        keys.len() <= usize::MAX,
    ensures
        is_ranking(keys, descending, ranking(keys, descending)),
    decreases keys.len(),
{
    if keys.len() == 0 {
        assert(is_ranking(keys, descending, Seq::empty()));
    } else {
        let rest = keys.drop_last();
        let x = (keys.len() - 1) as usize;
        lemma_ranking_exists(rest, descending);
        let s = ranking(rest, descending);
        assert(in_order(keys, descending, s)) by {
            assert forall|p: int, q: int| 0 <= p < q < s.len() implies listed_before(
                keys,
                descending,
                #[trigger] s[p],
                #[trigger] s[q],
            ) by {
                assert(s.contains(s[p]) && s.contains(s[q]));
                assert(listed_before(rest, descending, s[p], s[q]));
            }
        }
        let p = insertion_place(keys, descending, s, x, 0);
        lemma_insertion_place(keys, descending, s, x, 0);
        assert(!s.contains(x));
        lemma_insertion_in_order(keys, descending, s, x, p);
        let t = s.insert(p, x);
        assert forall|k: usize| #[trigger] t.contains(k) <==> k < keys.len() by {
            lemma_insertion_holds(s, x, p, k);
        }
        assert(is_ranking(keys, descending, t));
    }
}

/// The first place from `from` on whose entry is listed after `x`.
spec fn insertion_place(
    keys: Seq<Seq<u64>>,
    descending: bool,
    s: Seq<usize>,
    x: usize,
    from: int,
) -> int
    decreases s.len() - from,
{
    if from >= s.len() || listed_before(keys, descending, x, s[from]) {
        from
    } else {
        insertion_place(keys, descending, s, x, from + 1)
    }
}

proof fn lemma_insertion_place(
    keys: Seq<Seq<u64>>,
    descending: bool,
    s: Seq<usize>,
    x: usize,
    from: int,
)
    requires
        0 <= from <= s.len(),
    ensures
        ({
            let p = insertion_place(keys, descending, s, x, from);
            &&& from <= p <= s.len()
            &&& forall|a: int| from <= a < p ==> !listed_before(keys, descending, x, #[trigger] s[a])
            &&& p < s.len() ==> listed_before(keys, descending, x, s[p])
        }),
    decreases s.len() - from,
{
    if from < s.len() && !listed_before(keys, descending, x, s[from]) {
        lemma_insertion_place(keys, descending, s, x, from + 1);
    }
}

/// A list of keys has one ranking only.
pub proof fn lemma_ranking_unique(keys: Seq<Seq<u64>>, descending: bool, s: Seq<usize>)
    requires
        is_ranking(keys, descending, s),
    ensures
        ranking(keys, descending) == s,
{
    let r = ranking(keys, descending);
    assert(is_ranking(keys, descending, r));
    lemma_in_order_unique(keys, descending, r, s);
}

/// A ranking names no position twice.
pub proof fn lemma_ranking_distinct(keys: Seq<Seq<u64>>, descending: bool, s: Seq<usize>)
    requires
        in_order(keys, descending, s),
    ensures
        forall|p: int, q: int| 0 <= p < q < s.len() ==> s[p] != s[q],
{
    assert forall|p: int, q: int| 0 <= p < q < s.len() implies s[p] != s[q] by {
        assert(listed_before(keys, descending, s[p], s[q]));
        lemma_listed_irreflexive(keys, descending, s[p]);
    }
}

/// Whether `a` comes before `b` in dictionary order.
pub fn lex_less(a: &Vec<u64>, b: &Vec<u64>) -> (r: bool)
    ensures
        r == lex_lt(a@, b@),
{
    let mut i: usize = 0;
    assert(a@.skip(0) =~= a@);
    assert(b@.skip(0) =~= b@);
    while i < a.len() && i < b.len()
        invariant
            i <= a.len(),
            i <= b.len(),
            lex_lt(a@, b@) == lex_lt(a@.skip(i as int), b@.skip(i as int)),
        decreases a.len() - i,
    {
        if a[i] < b[i] {
            return true;
        }
        if b[i] < a[i] {
            return false;
        }
        assert(a@.skip(i as int).drop_first() =~= a@.skip(i + 1));
        assert(b@.skip(i as int).drop_first() =~= b@.skip(i + 1));
        i = i + 1;
    }
    i < b.len()
}

fn listed_before_exec(keys: &Vec<Vec<u64>>, descending: bool, i: usize, j: usize) -> (r: bool)
    requires
        i < keys.len(),
        j < keys.len(),
    ensures
        r == listed_before(key_views(keys@), descending, i, j),
{
    if descending {
        lex_less(&keys[j], &keys[i]) || (!lex_less(&keys[i], &keys[j]) && i < j)
    } else {
        lex_less(&keys[i], &keys[j]) || (!lex_less(&keys[j], &keys[i]) && i < j)
    }
}

/// Merges two ordered lists that share no entry.
fn merge(keys: &Vec<Vec<u64>>, descending: bool, a: &Vec<usize>, b: &Vec<usize>) -> (out: Vec<
    usize,
>)
    requires
        in_order(key_views(keys@), descending, a@),
        in_order(key_views(keys@), descending, b@),
        forall|p: int| 0 <= p < a.len() ==> #[trigger] a[p] < keys.len(),
        forall|p: int| 0 <= p < b.len() ==> #[trigger] b[p] < keys.len(),
        forall|p: int, q: int| 0 <= p < a.len() && 0 <= q < b.len() ==> a[p] != b[q],
        a.len() + b.len() <= usize::MAX,
    ensures
        out.len() == a.len() + b.len(),
        in_order(key_views(keys@), descending, out@),
        forall|k: usize| #[trigger] out@.contains(k) <==> a@.contains(k) || b@.contains(k),
{
    let ghost ks = key_views(keys@);
    let mut out: Vec<usize> = Vec::new();
    let mut i: usize = 0;
    let mut j: usize = 0;
    while i < a.len() || j < b.len()
        invariant
            i <= a.len(),
            j <= b.len(),
            ks == key_views(keys@),
            in_order(ks, descending, a@),
            in_order(ks, descending, b@),
            forall|p: int| 0 <= p < a.len() ==> #[trigger] a[p] < keys.len(),
            forall|p: int| 0 <= p < b.len() ==> #[trigger] b[p] < keys.len(),
            forall|p: int, q: int| 0 <= p < a.len() && 0 <= q < b.len() ==> a[p] != b[q],
            out.len() == i + j,
            in_order(ks, descending, out@),
            forall|p: int, q: int|
                0 <= p < out.len() && i <= q < a.len() ==> listed_before(
                    ks,
                    descending,
                    #[trigger] out[p],
                    #[trigger] a[q],
                ),
            forall|p: int, q: int|
                0 <= p < out.len() && j <= q < b.len() ==> listed_before(
                    ks,
                    descending,
                    #[trigger] out[p],
                    #[trigger] b[q],
                ),
            forall|p: int|
                0 <= p < out.len() ==> a@.contains(#[trigger] out[p]) || b@.contains(out[p]),
            forall|p: int| 0 <= p < i ==> out@.contains(#[trigger] a[p]),
            forall|p: int| 0 <= p < j ==> out@.contains(#[trigger] b[p]),
        decreases a.len() + b.len() - i - j,
    {
        let ghost before = out@;
        if j >= b.len() || (i < a.len() && listed_before_exec(keys, descending, a[i], b[j])) {
            let x: usize = a[i];
            out.push(x);
            assert(a@.contains(x));
            assert forall|q: int| j <= q < b.len() implies listed_before(
                ks,
                descending,
                x,
                #[trigger] b[q],
            ) by {
                if q > j {
                    lemma_listed_transitive(ks, descending, x, b[j as int], b[q]);
                }
            }
            i = i + 1;
        } else {
            let x: usize = b[j];
            out.push(x);
            assert(b@.contains(x));
            assert forall|q: int| i <= q < a.len() implies listed_before(
                ks,
                descending,
                x,
                #[trigger] a[q],
            ) by {
                lemma_listed_total(ks, descending, x, a[i as int]);
                if q > i {
                    lemma_listed_transitive(ks, descending, x, a[i as int], a[q]);
                }
            }
            j = j + 1;
        }
        assert(out@.last() == out@[before.len() as int]);
        assert forall|p: int| 0 <= p < i implies out@.contains(#[trigger] a[p]) by {
            if before.contains(a[p]) {
                let w = choose|w: int| 0 <= w < before.len() && before[w] == a[p];
                assert(out@[w] == a[p]);
            }
        }
        assert forall|p: int| 0 <= p < j implies out@.contains(#[trigger] b[p]) by {
            if before.contains(b[p]) {
                let w = choose|w: int| 0 <= w < before.len() && before[w] == b[p];
                assert(out@[w] == b[p]);
            }
        }
    }
    assert forall|k: usize| #[trigger] out@.contains(k) <==> a@.contains(k) || b@.contains(k) by {
        if a@.contains(k) {
            let p = choose|p: int| 0 <= p < a.len() && a@[p] == k;
            assert(out@.contains(a[p]));
        }
        if b@.contains(k) {
            let p = choose|p: int| 0 <= p < b.len() && b@[p] == k;
            assert(out@.contains(b[p]));
        }
    }
    out
}

/// The positions `lo..hi` of `keys`, stably sorted by key.
fn rank_range(keys: &Vec<Vec<u64>>, descending: bool, lo: usize, hi: usize) -> (out: Vec<usize>)
    requires
        lo <= hi <= keys.len(),
    ensures
        out.len() == hi - lo,
        in_order(key_views(keys@), descending, out@),
        forall|k: usize| #[trigger] out@.contains(k) <==> lo <= k < hi,
    decreases hi - lo,
{
    let n: usize = hi - lo;
    if n == 0 {
        return Vec::new();
    }
    if n == 1 {
        let mut out: Vec<usize> = Vec::new();
        out.push(lo);
        assert(out@[0] == lo);
        return out;
    }
    let mid: usize = lo + n / 2;
    let a = rank_range(keys, descending, lo, mid);
    let b = rank_range(keys, descending, mid, hi);
    assert forall|p: int| 0 <= p < a.len() implies lo <= #[trigger] a[p] < mid by {
        assert(a@.contains(a[p]));
    }
    assert forall|p: int| 0 <= p < b.len() implies mid <= #[trigger] b[p] < hi by {
        assert(b@.contains(b[p]));
    }
    merge(keys, descending, &a, &b)
}

/// Ranks `keys` by dictionary order, ties kept in their first order.
pub fn rank(keys: &Vec<Vec<u64>>, descending: bool) -> (out: Vec<usize>)
    ensures
        is_ranking(key_views(keys@), descending, out@),
        out@ == ranking(key_views(keys@), descending),
{
    let out = rank_range(keys, descending, 0, keys.len());
    proof {
        lemma_ranking_unique(key_views(keys@), descending, out@);
    }
    out
}

/// Puts `items` in the given order, which names each position once.
pub fn arrange<T>(items: Vec<T>, order: &Vec<usize>) -> (r: Vec<T>)
    requires
        forall|p: int| 0 <= p < order.len() ==> #[trigger] order[p] < items.len(),
        forall|p: int, q: int| 0 <= p < q < order.len() ==> order[p] != order[q],
    ensures
        r.len() == order.len(),
        forall|p: int| 0 <= p < r.len() ==> #[trigger] r[p] == items[order[p] as int],
{
    let ghost all = items@;
    let mut slots: Vec<Option<T>> = Vec::new();
    for x in it: items
        invariant
            it.seq() == all,
            slots.len() == it.index(),
            forall|k: int| 0 <= k < slots.len() ==> #[trigger] slots[k] == Some(all[k]),
    {
        slots.push(Some(x));
    }
    let mut r: Vec<T> = Vec::new();
    let mut i: usize = 0;
    while i < order.len()
        invariant
            i <= order.len(),
            slots.len() == all.len(),
            forall|p: int| 0 <= p < order.len() ==> #[trigger] order[p] < all.len(),
            forall|p: int, q: int| 0 <= p < q < order.len() ==> order[p] != order[q],
            r.len() == i,
            forall|p: int| 0 <= p < r.len() ==> #[trigger] r[p] == all[order[p] as int],
            forall|p: int|
                i <= p < order.len() ==> slots[#[trigger] order[p] as int] == Some(
                    all[order[p] as int],
                ),
        decreases order.len() - i,
    {
        let at: usize = order[i];
        match slots[at].take() {
            Some(x) => {
                r.push(x);
            },
            None => {},
        }
        i = i + 1;
    }
    r
}

/// Puts `items` in the order of their keys, ties kept in their first order.
pub fn sort_by_keys<T>(items: Vec<T>, keys: &Vec<Vec<u64>>, descending: bool) -> (r: Vec<T>)
    requires
        keys.len() == items.len(),
    ensures
        r.len() == items.len(),
        r@ == ranking(key_views(keys@), descending).map_values(|i: usize| items@[i as int]),
{
    let order = rank(keys, descending);
    proof {
        lemma_ranking_distinct(key_views(keys@), descending, order@);
        assert forall|p: int| 0 <= p < order.len() implies #[trigger] order[p] < items.len() by {
            assert(order@.contains(order[p]));
        }
    }
    let ghost all = items@;
    let r = arrange(items, &order);
    assert(r@ =~= order@.map_values(|i: usize| all[i as int]));
    r
}

} // verus!
