//! Statistics of the messages that a search went through, from which relevance is scored.
use vstd::prelude::*;

use crate::text::saturated;

verus! {

/// Counts over the searched messages. A count that would exceed the greatest machine number
/// stays there.
#[derive(Debug)]
pub struct CorpusStats {
    /// How many messages were searched.
    pub docs: usize,
    /// How many words they hold together.
    pub total_len: usize,
    /// How many of them hold each query term.
    pub df: Vec<usize>,
}

/// The counts as a value.
#[verifier::ext_equal]
pub struct Corpus {
    pub docs: usize,
    pub total_len: usize,
    pub df: Seq<usize>,
}

impl View for CorpusStats {
    type V = Corpus;

    open spec fn view(&self) -> Corpus {
        Corpus { docs: self.docs, total_len: self.total_len, df: self.df@ }
    }
}

/// The sum of two counts.
pub open spec fn sum(a: usize, b: usize) -> usize {
    saturated(a + b)
}

/// The count of a term, 0 for a term that was not counted.
pub open spec fn df_of(df: Seq<usize>, i: int) -> usize {
    if 0 <= i < df.len() {
        df[i]
    } else {
        0
    }
}

/// The counts of two lists of terms, term by term.
pub open spec fn df_sum(a: Seq<usize>, b: Seq<usize>) -> Seq<usize> {
    Seq::new(
        if a.len() < b.len() {
            b.len()
        } else {
            a.len()
        },
        |i: int| sum(df_of(a, i), df_of(b, i)),
    )
}

/// The counts of two corpora together.
pub open spec fn merged(a: Corpus, b: Corpus) -> Corpus {
    Corpus {
        docs: sum(a.docs, b.docs),
        total_len: sum(a.total_len, b.total_len),
        df: df_sum(a.df, b.df),
    }
}

/// Nothing counted yet, for a number of terms.
pub open spec fn no_docs(terms: nat) -> Corpus {
    Corpus { docs: 0, total_len: 0, df: Seq::new(terms, |i: int| 0usize) }
}

/// One message: its words, and 1 for each term that it holds.
pub open spec fn one_doc(words: usize, tfs: Seq<usize>) -> Corpus {
    Corpus {
        docs: 1,
        total_len: words,
        df: tfs.map_values(
            |tf: usize|
                if tf > 0 {
                    1usize
                } else {
                    0usize
                },
        ),
    }
}

impl CorpusStats {
    /// Nothing counted yet.
    pub fn new(terms: usize) -> (r: Self)
        ensures
            r@ == no_docs(terms as nat),
    {
        let mut df: Vec<usize> = Vec::new();
        let mut i: usize = 0;
        while i < terms
            invariant
                i <= terms,
                df@ == Seq::new(i as nat, |k: int| 0usize),
            decreases terms - i,
        {
            df.push(0);
            i = i + 1;
            assert(df@ =~= Seq::new(i as nat, |k: int| 0usize));
        }
        CorpusStats { docs: 0, total_len: 0, df }
    }

    /// Adds the counts of another corpus.
    pub fn merge(&mut self, other: &CorpusStats)
        ensures
            final(self)@ == merged(old(self)@, other@),
    {
        self.docs = self.docs.saturating_add(other.docs);
        self.total_len = self.total_len.saturating_add(other.total_len);
        let ghost a = old(self).df@;
        let ghost b = other.df@;
        while self.df.len() < other.df.len()
            invariant
                self.docs == merged(old(self)@, other@).docs,
                self.total_len == merged(old(self)@, other@).total_len,
                a == old(self).df@,
                b == other.df@,
                a.len() <= self.df.len(),
                self.df.len() <= a.len() || self.df.len() <= b.len(),
                forall|k: int| 0 <= k < self.df.len() ==> #[trigger] self.df@[k] == df_of(a, k),
            decreases other.df.len() - self.df.len(),
        {
            self.df.push(0);
        }
        let mut i: usize = 0;
        while i < other.df.len()
            invariant
                i <= other.df.len() <= self.df.len(),
                self.docs == merged(old(self)@, other@).docs,
                self.total_len == merged(old(self)@, other@).total_len,
                a == old(self).df@,
                b == other.df@,
                self.df.len() == df_sum(a, b).len(),
                forall|k: int| 0 <= k < i ==> #[trigger] self.df@[k] == sum(df_of(a, k), df_of(b, k)),
                forall|k: int| i <= k < self.df.len() ==> #[trigger] self.df@[k] == df_of(a, k),
            decreases other.df.len() - i,
        {
            let n: usize = self.df[i].saturating_add(other.df[i]);
            self.df.set(i, n);
            i = i + 1;
        }
        assert(self.df@ =~= df_sum(a, b));
        assert(self@ =~= merged(old(self)@, other@));
    }

    /// Counts one message: its words, and which of the terms it holds.
    pub fn add_doc(&mut self, words: usize, tfs: &Vec<usize>)
        ensures
            final(self)@ == merged(old(self)@, one_doc(words, tfs@)),
    {
        let mut df: Vec<usize> = Vec::new();
        let ghost doc = one_doc(words, tfs@);
        let mut i: usize = 0;
        while i < tfs.len()
            invariant
                i <= tfs.len(),
                doc == one_doc(words, tfs@),
                df@ == doc.df.take(i as int),
            decreases tfs.len() - i,
        {
            df.push(
                if tfs[i] > 0 {
                    1
                } else {
                    0
                },
            );
            assert(df@ =~= doc.df.take(i + 1));
            i = i + 1;
        }
        assert(df@ =~= doc.df);
        let one = CorpusStats { docs: 1, total_len: words, df };
        self.merge(&one);
    }
}

/// The counts do not depend on the order in which corpora are put together.
pub proof fn law_merging_is_order_free(a: Corpus, b: Corpus, c: Corpus)
    ensures
        merged(a, b) == merged(b, a),
        merged(merged(a, b), c) == merged(a, merged(b, c)),
{
    assert(merged(a, b) =~= merged(b, a));
    assert(merged(merged(a, b), c) =~= merged(a, merged(b, c)));
}

/// Adding nothing changes nothing.
pub proof fn law_merging_nothing(a: Corpus, terms: nat)
    requires
        terms <= a.df.len(),
    ensures
        merged(a, no_docs(terms)) == a,
{
    assert(merged(a, no_docs(terms)) =~= a);
}

/// Whether no term is counted in more messages than there are.
pub open spec fn consistent(c: Corpus) -> bool {
    forall|i: int| 0 <= i < c.df.len() ==> #[trigger] c.df[i] <= c.docs
}

/// No term is found in more messages than were searched: that holds of nothing, of one
/// message, and of two corpora together where it holds of each.
pub proof fn law_no_term_exceeds_the_messages(
    a: Corpus,
    b: Corpus,
    terms: nat,
    words: usize,
    tfs: Seq<usize>,
)
    requires
        consistent(a),
        consistent(b),
    ensures
        consistent(no_docs(terms)),
        consistent(one_doc(words, tfs)),
        consistent(merged(a, b)),
{
}

/// Two corpora together count what both do, as far as machine numbers reach: messages, words,
/// and for each term the messages that hold it.
pub proof fn law_merging_adds_the_counts(a: Corpus, b: Corpus, i: int)
    requires
        a.df.len() == b.df.len(),
        0 <= i < a.df.len(),
    ensures
        merged(a, b).df.len() == a.df.len(),
        a.docs + b.docs <= usize::MAX ==> merged(a, b).docs == a.docs + b.docs,
        a.docs + b.docs > usize::MAX ==> merged(a, b).docs == usize::MAX,
        a.total_len + b.total_len <= usize::MAX ==> merged(a, b).total_len == a.total_len
            + b.total_len,
        a.total_len + b.total_len > usize::MAX ==> merged(a, b).total_len == usize::MAX,
        a.df[i] + b.df[i] <= usize::MAX ==> merged(a, b).df[i] == a.df[i] + b.df[i],
        a.df[i] + b.df[i] > usize::MAX ==> merged(a, b).df[i] == usize::MAX,
{
}

/// One message counts once, with its words, and once for each term that it holds, however
/// often.
pub proof fn law_one_message_counts_once(words: usize, tfs: Seq<usize>, i: int)
    requires
        0 <= i < tfs.len(),
    ensures
        one_doc(words, tfs).docs == 1,
        one_doc(words, tfs).total_len == words,
        one_doc(words, tfs).df.len() == tfs.len(),
        one_doc(words, tfs).df[i] == if tfs[i] == 0 {
            0usize
        } else {
            1usize
        },
{
}

} // verus!
