//! AprioriHybrid: runs Apriori passes while the candidate sets grow, and
//! switches once, for good, to AprioriTID when they start to shrink while
//! small enough to hold in the transformed database.
use vstd::prelude::*;
use crate::apriori::{
    apriori_pass_three_counter, distinct, emit, first_two_levels, frequent_any, frequent_of,
    lemma_ascending_len, lemma_level_step, lemma_no_longer, listed,
};
use crate::storage::candidate;
use crate::tid::{frequent_in, lemma_same_but_counts, tid_levels, Candidates, TransformedDatabase};
use crate::transaction_set::TransactionSet;

verus! {

/// The candidate count below which the transformed database is small enough
/// to build.
pub const SWITCH_LIMIT: usize = 100000;

/// Whether to switch from Apriori to AprioriTID: the candidate set has
/// started to shrink, and the previous one was small.
pub fn should_switch(curr: usize, prev: usize) -> (r: bool)
    ensures
        r == (curr < prev && prev < SWITCH_LIMIT),
{
    curr < prev && prev < SWITCH_LIMIT
}

/// The AprioriHybrid miner.
pub struct AprioriHybridRunner<'a> {
    data: &'a TransactionSet,
    sup: u64,
}

impl<'a> AprioriHybridRunner<'a> {
    /// A miner of `data` at minimum support `sup`.
    pub fn new(data: &'a TransactionSet, sup: u64) -> (r: Self)
        ensures
            r.data() == *data,
            r.sup() == sup,
    {
        AprioriHybridRunner { data, sup }
    }

    /// The database mined.
    pub closed spec fn data(&self) -> TransactionSet {
        *self.data
    }

    /// The minimum support.
    pub closed spec fn sup(&self) -> u64 {
        self.sup
    }

    /// Every frequent itemset, level after level: exactly the ascending
    /// itemsets over the database's items with support at least `sup`,
    /// whichever level the switch happens at, if any.
    pub fn run(self) -> (r: Vec<Vec<usize>>)
        requires
            self.data().wf(),
            self.data().num_items < usize::MAX,
        ensures
            forall|q: Seq<usize>| #[trigger] listed(r@, q) <==> frequent_any(
                self.data()@,
                q,
                self.sup() as nat,
                self.data().num_items as nat,
            ),
            distinct(r@),
    {
        let data = self.data;
        let sup = self.sup;
        let ghost db = data@;
        let m = data.num_items;
        let (prev, out) = first_two_levels(data, sup);
        let mut prev = prev;
        let mut out = out;
        let mut k: usize = 3;
        let mut prev_len: usize = 0;
        loop
            invariant_except_break
                data.wf(),
                *data == self.data(),
                sup == self.sup(),
                db == data@,
                m == data.num_items,
                m < usize::MAX,
                3 <= k,
                prev.wf(),
                forall|q: Seq<usize>| #[trigger] prev@.contains(q) <==> frequent_of(db, q, (k - 1) as nat, sup as nat, m as nat),
                forall|q: Seq<usize>| #[trigger] listed(out@, q) <==> (frequent_any(db, q, sup as nat, m as nat) && q.len() < k),
                distinct(out@),
            ensures
                forall|q: Seq<usize>| #[trigger] listed(out@, q) <==> frequent_any(db, q, sup as nat, m as nat),
                distinct(out@),
            decreases m + 1 - k,
        {
            if k > m {
                proof {
                    assert forall|q: Seq<usize>| #[trigger] listed(out@, q) <==> frequent_any(db, q, sup as nat, m as nat) by {
                        if frequent_any(db, q, sup as nat, m as nat) {
                            lemma_ascending_len(q, m as nat);
                        }
                    }
                }
                break;
            }
            proof {
                assert forall|q: Seq<usize>| #[trigger] prev@.contains(q) implies q.len() == k - 1 && crate::itemset::ascending(q) by {
                }
            }
            let mut counter = prev.join(k);
            let level = counter.for_each(k);
            if should_switch(level.len(), prev_len) {
                let mut list: Vec<Vec<usize>> = Vec::new();
                let mut i: usize = 0;
                while i < level.len()
                    invariant
                        i <= level.len(),
                        forall|a: int| 0 <= a < level.len() ==> (#[trigger] level@[a]).0@.len() == k && counter@.contains_key(level@[a].0@),
                        forall|q: Seq<usize>| q.len() == k ==> (#[trigger] counter@.contains_key(q) <==> candidate(prev@, q, k as nat)),
                        list.len() == i,
                        forall|a: int| 0 <= a < i ==> (#[trigger] list@[a])@ == level@[a].0@,
                    decreases level.len() - i,
                {
                    list.push(level[i].0.clone());
                    i = i + 1;
                }
                proof {
                    assert forall|a: int| 0 <= a < list.len() implies (#[trigger] list@[a])@.len() == k && crate::itemset::ascending(list@[a]@) by {
                        assert(candidate(prev@, level@[a].0@, k as nat));
                    }
                }
                let mut c = Candidates::from_level(sup, &list, prev, k);
                let ghost c_before = c;
                let td = TransformedDatabase::transition(data, &mut c);
                proof {
                    lemma_same_but_counts(c, c_before);
                    assert forall|x: int| c.start() <= x < c.end() implies (#[trigger] c.cands()[x]).items_spec().len() == k && crate::itemset::ascending(c.cands()[x].items_spec())
                        && forall|i: int| 0 <= i < k ==> #[trigger] c.cands()[x].items_spec()[i] < (usize::MAX as nat) + 1 by {
                        assert(c.cands()[x].items_spec() == c_before.cands()[x].items_spec());
                    }
                    assert forall|q: Seq<usize>| #[trigger] frequent_in(c.cands(), c.start(), c.end(), q, sup) <==> frequent_of(db, q, k as nat, sup as nat, m as nat) by {
                        lemma_level_step(c.tree_spec(), db, k as nat, sup as nat, m as nat, q);
                        if frequent_in(c.cands(), c.start(), c.end(), q, sup) {
                            let x = choose|x: int| c.start() <= x < c.end() && (#[trigger] c.cands()[x]).items_spec() == q && c.cands()[x].count_spec() >= sup;
                            assert(list@[x]@ == q);
                            assert(candidate(prev@, level@[x].0@, k as nat));
                        }
                        if frequent_of(db, q, k as nat, sup as nat, m as nat) {
                            assert(counter@.contains_key(q));
                            let a = choose|a: int| 0 <= a < level.len() && level@[a].0@ == q;
                            assert(list@[a]@ == q);
                            assert(c.cands()[a].items_spec() == q);
                        }
                    }
                }
                let r = tid_levels(data, sup, c, td, k, out);
                assert(forall|q: Seq<usize>| #[trigger] listed(r@, q) <==> frequent_any(db, q, sup as nat, m as nat));
                assert(distinct(r@));
                return r;
            }
            proof {
                crate::apriori::lemma_fresh_bound(data, counter@, k);
            }
            apriori_pass_three_counter(data, &mut counter, k);
            let next = counter.to_frequent(k, sup);
            proof {
                assert forall|q: Seq<usize>| #[trigger] next@.contains(q) <==> frequent_of(db, q, k as nat, sup as nat, m as nat) by {
                    lemma_level_step(prev@, db, k as nat, sup as nat, m as nat, q);
                }
            }
            let found = next.for_each(k);
            if found.len() == 0 {
                proof {
                    assert forall|q: Seq<usize>| #[trigger] listed(out@, q) <==> frequent_any(db, q, sup as nat, m as nat) by {
                        if frequent_any(db, q, sup as nat, m as nat) && q.len() >= k {
                            lemma_no_longer(db, q, k as nat, sup as nat, m as nat);
                            assert(next@.contains(q.take(k as int)));
                        }
                    }
                }
                break;
            }
            proof {
                assert forall|q: Seq<usize>| #[trigger] listed(found@, q) implies !listed(out@, q) by {
                    let a = choose|a: int| 0 <= a < found@.len() && #[trigger] found@[a]@ == q;
                    if listed(out@, q) {
                        let b = choose|b: int| 0 <= b < out@.len() && #[trigger] out@[b]@ == q;
                    }
                }
            }
            emit(&mut out, &found);
            proof {
                assert forall|q: Seq<usize>| #[trigger] listed(out@, q) <==> (frequent_any(db, q, sup as nat, m as nat) && q.len() < k + 1) by {
                    if listed(found@, q) {
                        let a = choose|a: int| 0 <= a < found@.len() && #[trigger] found@[a]@ == q;
                    }
                    if frequent_any(db, q, sup as nat, m as nat) && q.len() == k {
                        assert(next@.contains(q));
                    }
                }
            }
            prev = next;
            prev_len = level.len();
            k = k + 1;
        }
        out
    }
}

} // verus!
