//! Count Distribution: the decisions of the coordinator and the counting of
//! the workers, with the message passing left to the caller. The database is
//! split evenly over the ranks; each rank counts the level's candidates on
//! its part; the coordinator sums the partial counts and keeps the frequent
//! candidates.
use vstd::prelude::*;
use crate::apriori::{
    apriori_pass_three_counter, apriori_pass_two_counter, distinct, emit, frequent_any, frequent_of,
    lemma_ascending_len, lemma_level_step, lemma_no_longer, listed,
};
use crate::array2d::{pair_cell, tri, AprioriP2Counter2};
use crate::itemset::{ascending, contains_all, lemma_support_anti_monotone, support};
use crate::storage::{candidate, TrieCounter, TrieSet};
use crate::hybrid::should_switch;
use crate::tid::{counts_ok, lemma_same_but_counts, Candidates, TransformedDatabase};
use crate::dat::db_bound;
use crate::transaction_set::{lemma_partition_support, part, parts_support, total_len, TransactionSet};

verus! {

/// Why a distributed run cannot start.
#[derive(Debug, PartialEq, Eq, Structural)]
pub enum DistributionError {
    /// Fewer than two ranks: the coordinator needs at least one worker.
    TooFewRanks,
}

/// The coordinator's settings for a Count Distribution run.
pub struct CountDistribution {
    sup: u64,
    ranks: usize,
}

/// The summed count of candidate `i` over the first `n` partial counts.
pub open spec fn summed(partials: Seq<Seq<u64>>, n: nat, i: int) -> nat
    decreases n,
{
    if n == 0 {
        0
    } else {
        summed(partials, (n - 1) as nat, i) + partials[n - 1][i] as nat
    }
}

/// The workers' partial counts over an even partition of the database,
/// summed, are the candidates' supports in the whole database: distributed
/// and single-process counting agree, whatever the number of ranks.
pub proof fn lemma_distributed_counts(
    db: Seq<Seq<usize>>,
    ranks: nat,
    partials: Seq<Seq<u64>>,
    cands: Seq<Seq<usize>>,
    i: int,
)
    requires
        ranks > 0,
        partials.len() == ranks,
        0 <= i < cands.len(),
        forall|r: int, j: int| 0 <= r < ranks && 0 <= j < cands.len() ==> #[trigger] partials[r][j] == support(part(db, ranks, r as nat), cands[j]),
    ensures
        summed(partials, ranks, i) == support(db, cands[i]),
{
    lemma_summed_parts(db, ranks, partials, cands, i, ranks);
    lemma_partition_support(db, ranks, cands[i]);
}

proof fn lemma_summed_parts(
    db: Seq<Seq<usize>>,
    ranks: nat,
    partials: Seq<Seq<u64>>,
    cands: Seq<Seq<usize>>,
    i: int,
    n: nat,
)
    requires
        ranks > 0,
        n <= ranks,
        partials.len() == ranks,
        0 <= i < cands.len(),
        forall|r: int, j: int| 0 <= r < ranks && 0 <= j < cands.len() ==> #[trigger] partials[r][j] == support(part(db, ranks, r as nat), cands[j]),
    ensures
        summed(partials, n, i) == parts_support(db, ranks, n, cands[i]),
    decreases n,
{
    if n > 0 {
        lemma_summed_parts(db, ranks, partials, cands, i, (n - 1) as nat);
        assert(partials[n - 1][i] == support(part(db, ranks, (n - 1) as nat), cands[i]));
    }
}

impl CountDistribution {
    /// The minimum support.
    pub closed spec fn sup(&self) -> u64 {
        self.sup
    }

    /// The number of ranks, the coordinator included.
    pub closed spec fn ranks(&self) -> nat {
        self.ranks as nat
    }

    /// The same settings again.
    pub fn copy(&self) -> (r: CountDistribution)
        ensures
            r.sup() == self.sup(),
            r.ranks() == self.ranks(),
    {
        CountDistribution { sup: self.sup, ranks: self.ranks }
    }

    /// A run over `ranks` ranks at minimum support `sup`; fewer than two
    /// ranks is refused.
    pub fn new(sup: u64, ranks: usize) -> (r: Result<CountDistribution, DistributionError>)
        ensures
            ranks < 2 <==> r == Err::<CountDistribution, DistributionError>(DistributionError::TooFewRanks),
            r matches Ok(d) ==> d.sup() == sup && d.ranks() == ranks,
    {
        if ranks < 2 {
            Err(DistributionError::TooFewRanks)
        } else {
            Ok(CountDistribution { sup, ranks })
        }
    }

    /// The parts of the database, one per rank, in rank order; the last part
    /// takes the remainder.
    pub fn split(&self, data: &TransactionSet) -> (r: Vec<TransactionSet>)
        requires
            self.ranks() >= 2,
            data.size == total_len(data@),
        ensures
            r.len() == self.ranks(),
            forall|i: int| 0 <= i < r.len() ==> (#[trigger] r@[i])@ == part(data@, self.ranks(), i as nat)
                && r@[i].num_items == data.num_items,
    {
        let mut parts = data.partition(self.ranks);
        let mut r: Vec<TransactionSet> = Vec::new();
        let mut i: usize = 0;
        while i < self.ranks
            invariant
                parts.wf(),
                parts.ranks() == self.ranks(),
                parts.source() == *data,
                parts.done() == i,
                r.len() == i,
                i <= self.ranks(),
                forall|a: int| 0 <= a < r.len() ==> (#[trigger] r@[a])@ == part(data@, self.ranks(), a as nat)
                    && r@[a].num_items == data.num_items,
            decreases self.ranks() - i,
        {
            let t = parts.next();
            match t {
                Some(t) => r.push(t),
                None => {},
            }
            i = i + 1;
        }
        r
    }

    /// The next level's candidates: the joins of the frequent
    /// (k-1)-itemsets `prev` that survive pruning.
    pub fn candidates(prev: &Vec<Vec<usize>>, k: usize) -> (r: Vec<Vec<usize>>)
        requires
            k >= 2,
            forall|i: int| 0 <= i < prev.len() ==> (#[trigger] prev@[i])@.len() == k - 1 && ascending(prev@[i]@),
        ensures
            forall|q: Seq<usize>| #[trigger] listed(r@, q) <==> candidate(listed_set(prev@), q, k as nat),
            distinct(r@),
            forall|i: int| 0 <= i < r.len() ==> (#[trigger] r@[i])@.len() == k && ascending(r@[i]@),
    {
        let mut f = TrieSet::new();
        let mut i: usize = 0;
        while i < prev.len()
            invariant
                f.wf(),
                i <= prev.len(),
                forall|q: Seq<usize>| #[trigger] f@.contains(q) <==> listed(prev@.take(i as int), q),
            decreases prev.len() - i,
        {
            f.insert(&prev[i]);
            assert forall|q: Seq<usize>| #[trigger] f@.contains(q) <==> listed(prev@.take(i + 1), q) by {
                if listed(prev@.take(i + 1), q) {
                    let a = choose|a: int| 0 <= a < i + 1 && #[trigger] prev@.take(i + 1)[a]@ == q;
                    if a < i {
                        assert(prev@.take(i as int)[a]@ == q);
                    }
                }
                if listed(prev@.take(i as int), q) {
                    let a = choose|a: int| 0 <= a < i && #[trigger] prev@.take(i as int)[a]@ == q;
                    assert(prev@.take(i + 1)[a]@ == q);
                }
                if q == prev@[i as int]@ {
                    assert(prev@.take(i + 1)[i as int]@ == q);
                }
            }
            i = i + 1;
        }
        assert(prev@.take(prev.len() as int) =~= prev@);
        assert forall|q: Seq<usize>| #[trigger] f@.contains(q) implies q.len() == k - 1 && ascending(q) by {
            let a = choose|a: int| 0 <= a < prev@.len() && #[trigger] prev@[a]@ == q;
        }
        assert(f@ =~= listed_set(prev@));
        let counter = f.join(k);
        let all = counter.for_each(k);
        let mut r: Vec<Vec<usize>> = Vec::new();
        let mut j: usize = 0;
        while j < all.len()
            invariant
                j <= all.len(),
                forall|a: int| 0 <= a < all.len() ==> (#[trigger] all@[a]).0@.len() == k && counter@.contains_key(all@[a].0@),
                forall|q: Seq<usize>| q.len() == k ==> (#[trigger] counter@.contains_key(q) <==> candidate(f@, q, k as nat)),
                r.len() == j,
                forall|a: int| 0 <= a < j ==> (#[trigger] r@[a])@ == all@[a].0@,
            decreases all.len() - j,
        {
            r.push(all[j].0.clone());
            j = j + 1;
        }
        assert forall|q: Seq<usize>| #[trigger] listed(r@, q) <==> candidate(listed_set(prev@), q, k as nat) by {
            if listed(r@, q) {
                let a = choose|a: int| 0 <= a < r@.len() && #[trigger] r@[a]@ == q;
                assert(all@[a].0@ == q);
            }
            if candidate(listed_set(prev@), q, k as nat) {
                assert(counter@.contains_key(q));
                let a = choose|a: int| 0 <= a < all.len() && all@[a].0@ == q;
                assert(r@[a]@ == q);
            }
        }
        assert forall|a: int, b: int| 0 <= a < b < r.len() implies (#[trigger] r@[a])@ != (#[trigger] r@[b])@ by {
            assert(all@[a].0@ != all@[b].0@);
        }
        assert forall|i: int| 0 <= i < r.len() implies (#[trigger] r@[i])@.len() == k && ascending(r@[i]@) by {
            assert(listed(r@, r@[i]@));
        }
        r
    }

    /// A worker's count: for each candidate, the transactions of `part` that
    /// hold it, counted with the prefix-tree kernel.
    pub fn count_candidates(part: &TransactionSet, cands: &Vec<Vec<usize>>, k: usize) -> (r: Vec<u64>)
        requires
            part.wf(),
            k >= 1,
            forall|i: int| 0 <= i < cands.len() ==> (#[trigger] cands@[i])@.len() == k && ascending(cands@[i]@),
        ensures
            r.len() == cands.len(),
            forall|i: int| 0 <= i < r.len() ==> #[trigger] r@[i] == support(part@, cands@[i]@),
    {
        let mut counter = TrieCounter::new();
        let mut i: usize = 0;
        while i < cands.len()
            invariant
                counter.wf(),
                i <= cands.len(),
                forall|q: Seq<usize>| #[trigger] counter@.contains_key(q) && q.len() == k ==> counter@[q] == 0 && ascending(q),
                forall|a: int| 0 <= a < i ==> counter@.contains_key(#[trigger] cands@[a]@),
                forall|q: Seq<usize>| #[trigger] counter@.contains_key(q) ==> q.len() <= k && (q.len() == k ==> listed(cands@, q)),
                forall|i: int| 0 <= i < cands.len() ==> (#[trigger] cands@[i])@.len() == k && ascending(cands@[i]@),
            decreases cands.len() - i,
        {
            let ghost c0 = counter@;
            counter.insert(&cands[i]);
            proof {
                assert forall|q: Seq<usize>| #[trigger] counter@.contains_key(q) implies q.len() <= k && (q.len() == k ==> listed(cands@, q)) by {
                    if !c0.contains_key(q) {
                        assert(q.len() <= cands@[i as int]@.len());
                        if q.len() == k {
                            assert(cands@[i as int]@.take(q.len() as int) =~= cands@[i as int]@);
                        }
                    }
                }
                assert forall|q: Seq<usize>| #[trigger] counter@.contains_key(q) && q.len() == k implies counter@[q] == 0 && ascending(q) by {
                    if !c0.contains_key(q) {
                        assert(cands@[i as int]@.take(q.len() as int) =~= cands@[i as int]@);
                    }
                    let a = choose|a: int| 0 <= a < cands@.len() && #[trigger] cands@[a]@ == q;
                }
            }
            i = i + 1;
        }
        proof {
            assert(part@.len() == part.transactions.len());
            assert(usize::MAX <= u64::MAX);
        }
        apriori_pass_three_counter(part, &mut counter, k);
        let mut r: Vec<u64> = Vec::new();
        let mut j: usize = 0;
        while j < cands.len()
            invariant
                counter.wf(),
                j <= cands.len(),
                r.len() == j,
                forall|a: int| 0 <= a < cands.len() ==> counter@.contains_key(#[trigger] cands@[a]@),
                forall|q: Seq<usize>| #[trigger] counter@.contains_key(q) && q.len() == k ==> counter@[q] == support(part@, q),
                forall|a: int| 0 <= a < cands.len() ==> (#[trigger] cands@[a])@.len() == k,
                forall|a: int| 0 <= a < j ==> #[trigger] r@[a] == support(part@, cands@[a]@),
            decreases cands.len() - j,
        {
            let c = counter.get_count(&cands[j]);
            match c {
                Some(v) => r.push(v),
                None => {
                    assert(false);
                    r.push(0);
                },
            }
            j = j + 1;
        }
        r
    }

    /// The coordinator's sum: adds a worker's partial counts into `acc`,
    /// candidate by candidate (saturating at `u64::MAX`).
    pub fn add_counts(acc: &mut Vec<u64>, partial: &Vec<u64>)
        requires
            old(acc).len() == partial.len(),
        ensures
            final(acc).len() == old(acc).len(),
            forall|i: int| 0 <= i < partial.len() ==> #[trigger] final(acc)@[i] == if old(acc)@[i] + partial@[i] <= u64::MAX {
                (old(acc)@[i] + partial@[i]) as u64
            } else {
                u64::MAX
            },
    {
        let mut i: usize = 0;
        while i < partial.len()
            invariant
                acc.len() == partial.len(),
                old(acc).len() == partial.len(),
                i <= partial.len(),
                forall|a: int| 0 <= a < i ==> #[trigger] acc@[a] == if old(acc)@[a] + partial@[a] <= u64::MAX {
                    (old(acc)@[a] + partial@[a]) as u64
                } else {
                    u64::MAX
                },
                forall|a: int| i <= a < partial.len() ==> #[trigger] acc@[a] == old(acc)@[a],
            decreases partial.len() - i,
        {
            let v = acc[i].saturating_add(partial[i]);
            acc.set(i, v);
            i = i + 1;
        }
    }

    /// The candidates whose summed count is at least the minimum support.
    pub fn frequent(&self, cands: &Vec<Vec<usize>>, counts: &Vec<u64>) -> (r: Vec<Vec<usize>>)
        requires
            cands.len() == counts.len(),
        ensures
            forall|q: Seq<usize>| #[trigger] listed(r@, q) <==> exists|i: int|
                0 <= i < cands.len() && cands@[i]@ == q && counts@[i] >= self.sup(),
            distinct(cands@) ==> distinct(r@),
    {
        let mut r: Vec<Vec<usize>> = Vec::new();
        let ghost mut idx: Seq<int> = Seq::empty();
        let mut i: usize = 0;
        while i < cands.len()
            invariant
                cands.len() == counts.len(),
                i <= cands.len(),
                forall|q: Seq<usize>| #[trigger] listed(r@, q) <==> exists|a: int|
                    0 <= a < i && cands@[a]@ == q && counts@[a] >= self.sup(),
                idx.len() == r.len(),
                forall|m: int| 0 <= m < r.len() ==> 0 <= #[trigger] idx[m] < i && r@[m]@ == cands@[idx[m]]@,
                forall|a: int, b: int| 0 <= a < b < idx.len() ==> idx[a] < idx[b],
            decreases cands.len() - i,
        {
            let ghost r0 = r@;
            let ghost i0 = idx;
            if counts[i] >= self.sup {
                r.push(cands[i].clone());
                proof {
                    idx = idx.push(i as int);
                    assert forall|m: int| 0 <= m < r.len() implies 0 <= #[trigger] idx[m] < i + 1 && r@[m]@ == cands@[idx[m]]@ by {
                        if m < r0.len() {
                            assert(r@[m] == r0[m]);
                            assert(idx[m] == i0[m]);
                        }
                    }
                }
            }
            assert forall|q: Seq<usize>| #[trigger] listed(r@, q) <==> exists|a: int|
                0 <= a < i + 1 && cands@[a]@ == q && counts@[a] >= self.sup() by {
                if listed(r@, q) {
                    let b = choose|b: int| 0 <= b < r@.len() && #[trigger] r@[b]@ == q;
                    if b < r0.len() {
                        assert(r0[b]@ == q);
                        assert(listed(r0, q));
                    }
                }
                if exists|a: int| 0 <= a < i + 1 && cands@[a]@ == q && counts@[a] >= self.sup() {
                    let a = choose|a: int| 0 <= a < i + 1 && cands@[a]@ == q && counts@[a] >= self.sup();
                    if a < i {
                        assert(listed(r0, q));
                        let b = choose|b: int| 0 <= b < r0.len() && #[trigger] r0[b]@ == q;
                        assert(r@[b] == r0[b]);
                    } else {
                        assert(r@[r0.len() as int]@ == q);
                    }
                }
            }
            i = i + 1;
        }
        proof {
            if distinct(cands@) {
                assert forall|a: int, b: int| 0 <= a < b < r@.len() implies (#[trigger] r@[a])@ != (#[trigger] r@[b])@ by {
                    assert(idx[a] < idx[b]);
                    assert(cands@[idx[a]]@ != cands@[idx[b]]@);
                }
            }
        }
        r
    }
}

/// The itemsets of a list, as a set.
pub open spec fn listed_set(l: Seq<Vec<usize>>) -> Set<Seq<usize>> {
    Set::new(|q: Seq<usize>| listed(l, q))
}

/// The hybrid variant of Count Distribution: the same coordination, with
/// each rank free to count its part through either engine.
pub struct CountDistributionHybrid {
    inner: CountDistribution,
}

impl CountDistributionHybrid {
    /// The settings the hybrid run shares with the plain one.
    pub closed spec fn inner(&self) -> CountDistribution {
        self.inner
    }

    /// A hybrid run over `ranks` ranks at minimum support `sup`; fewer than
    /// two ranks is refused.
    pub fn new(sup: u64, ranks: usize) -> (r: Result<CountDistributionHybrid, DistributionError>)
        ensures
            ranks < 2 <==> r == Err::<CountDistributionHybrid, DistributionError>(DistributionError::TooFewRanks),
            r matches Ok(d) ==> d.inner().sup() == sup && d.inner().ranks() == ranks,
    {
        match CountDistribution::new(sup, ranks) {
            Ok(inner) => Ok(CountDistributionHybrid { inner }),
            Err(e) => Err(e),
        }
    }

    /// The coordination settings.
    pub fn coordinator(&self) -> (r: &CountDistribution)
        ensures
            *r == self.inner(),
    {
        &self.inner
    }

    /// A rank's count of one level in the hybrid variant: while the
    /// candidate sets grow, the candidates are counted with the prefix-tree
    /// kernel; once they shrink while small (the AprioriHybrid switch), each
    /// transaction is rewritten as the candidates it holds, as AprioriTID
    /// does. Either way each candidate's count is its support in `part`.
    pub fn count_level(part: &TransactionSet, cands: &Vec<Vec<usize>>, k: usize, prev_len: usize) -> (r: Vec<u64>)
        requires
            part.wf(),
            k >= 1,
            forall|i: int| 0 <= i < cands.len() ==> (#[trigger] cands@[i])@.len() == k && ascending(cands@[i]@),
        ensures
            r.len() == cands.len(),
            forall|i: int| 0 <= i < r.len() ==> #[trigger] r@[i] == support(part@, cands@[i]@),
    {
        if !should_switch(cands.len(), prev_len) {
            return CountDistribution::count_candidates(part, cands, k);
        }
        let mut c = Candidates::from_level(0, cands, TrieSet::new(), k);
        let ghost c0 = c;
        let _td = TransformedDatabase::transition(part, &mut c);
        proof {
            lemma_same_but_counts(c, c0);
        }
        let all = c.candidates();
        let mut r: Vec<u64> = Vec::new();
        let mut j: usize = 0;
        while j < cands.len()
            invariant
                j <= cands.len(),
                all@ == c.cands(),
                c.start() == 0,
                c.end() == cands.len(),
                c.cands().len() == cands.len(),
                counts_ok(c.cands(), 0, cands.len() as int, part@),
                forall|x: int| 0 <= x < cands.len() ==> (#[trigger] c.cands()[x]).items_spec() == cands@[x]@,
                r.len() == j,
                forall|a: int| 0 <= a < j ==> #[trigger] r@[a] == support(part@, cands@[a]@),
            decreases cands.len() - j,
        {
            let v = all[j].count();
            proof {
                assert(c.cands()[j as int].count_spec() == support(part@, c.cands()[j as int].items_spec()));
            }
            r.push(v);
            j = j + 1;
        }
        r
    }
}


/// The words of a message that carries a list of itemsets: the items of
/// each, as `u64`, the itemsets separated by `u64::MAX`.
pub open spec fn joined_words(sets: Seq<Seq<usize>>) -> Seq<u64>
    decreases sets.len(),
{
    if sets.len() == 0 {
        Seq::empty()
    } else if sets.len() == 1 {
        Seq::new(sets[0].len(), |i: int| sets[0][i] as u64)
    } else {
        joined_words(sets.drop_last()) + seq![u64::MAX] + Seq::new(sets.last().len(), |i: int| sets.last()[i] as u64)
    }
}

/// The stretches of `w` read so far between separators, and the stretch
/// being read.
pub open spec fn split_upto(w: Seq<u64>) -> (Seq<Seq<u64>>, Seq<u64>)
    decreases w.len(),
{
    if w.len() == 0 {
        (Seq::empty(), Seq::empty())
    } else {
        let (d, c) = split_upto(w.drop_last());
        if w.last() == u64::MAX {
            (d.push(c), Seq::empty())
        } else {
            (d, c.push(w.last()))
        }
    }
}

/// The stretches of `w` between separators: one more than there are
/// separators, except that an empty message carries no itemset.
pub open spec fn split_words(w: Seq<u64>) -> Seq<Seq<u64>> {
    if w.len() == 0 {
        Seq::empty()
    } else {
        split_upto(w).0.push(split_upto(w).1)
    }
}

/// Writes a list of itemsets as one message of words.
pub fn encode_sets(sets: &Vec<Vec<usize>>) -> (r: Vec<u64>)
    ensures
        r@ == joined_words(Seq::new(sets.len() as nat, |j: int| sets@[j]@)),
{
    let ghost all = Seq::new(sets.len() as nat, |j: int| sets@[j]@);
    let mut r: Vec<u64> = Vec::new();
    let mut j: usize = 0;
    while j < sets.len()
        invariant
            j <= sets.len(),
            all == Seq::new(sets.len() as nat, |j: int| sets@[j]@),
            r@ == joined_words(all.take(j as int)),
        decreases sets.len() - j,
    {
        let ghost r0 = r@;
        if j > 0 {
            r.push(u64::MAX);
        }
        let t = &sets[j];
        let mut i: usize = 0;
        while i < t.len()
            invariant
                i <= t.len(),
                r@ == r0 + (if j > 0 { seq![u64::MAX] } else { Seq::<u64>::empty() }) + Seq::new(i as nat, |a: int| t@[a] as u64),
            decreases t.len() - i,
        {
            r.push(t[i] as u64);
            assert(Seq::new((i + 1) as nat, |a: int| t@[a] as u64) =~= Seq::new(i as nat, |a: int| t@[a] as u64).push(t@[i as int] as u64));
            i = i + 1;
        }
        proof {
            let tk = all.take(j + 1);
            assert(tk.last() == t@);
            assert(tk.drop_last() =~= all.take(j as int));
            if j == 0 {
                assert(r@ =~= Seq::new(t@.len(), |a: int| t@[a] as u64));
                assert(tk.len() == 1);
                assert(tk[0] == t@);
            } else {
                assert(r@ =~= joined_words(tk.drop_last()) + seq![u64::MAX] + Seq::new(tk.last().len(), |a: int| tk.last()[a] as u64));
            }
        }
        j = j + 1;
    }
    assert(all.take(j as int) =~= all);
    r
}

/// Reads a message of words back into its list of itemsets.
pub fn decode_sets(w: &Vec<u64>) -> (r: Vec<Vec<usize>>)
    ensures
        r.len() == split_words(w@).len(),
        forall|j: int| 0 <= j < r.len() ==> (#[trigger] r@[j])@ == Seq::new(split_words(w@)[j].len(), |i: int| split_words(w@)[j][i] as usize),
{
    let mut r: Vec<Vec<usize>> = Vec::new();
    let mut cur: Vec<usize> = Vec::new();
    if w.len() == 0 {
        return r;
    }
    let mut i: usize = 0;
    while i < w.len()
        invariant
            i <= w.len(),
            w.len() > 0,
            r.len() == split_upto(w@.take(i as int)).0.len(),
            forall|j: int| 0 <= j < r.len() ==> (#[trigger] r@[j])@ == Seq::new(split_upto(w@.take(i as int)).0[j].len(), |a: int| split_upto(w@.take(i as int)).0[j][a] as usize),
            cur@ == Seq::new(split_upto(w@.take(i as int)).1.len(), |a: int| split_upto(w@.take(i as int)).1[a] as usize),
        decreases w.len() - i,
    {
        let x = w[i];
        let ghost (d, c) = split_upto(w@.take(i as int));
        assert(w@.take(i + 1).drop_last() =~= w@.take(i as int));
        assert(w@.take(i + 1).last() == x);
        if x == u64::MAX {
            let ghost r0 = r@;
            r.push(cur);
            cur = Vec::new();
            proof {
                let d2 = d.push(c);
                assert forall|j: int| 0 <= j < r.len() implies (#[trigger] r@[j])@ == Seq::new(d2[j].len(), |a: int| d2[j][a] as usize) by {
                    if j < r0.len() {
                        assert(r@[j] == r0[j]);
                        assert(d2[j] == d[j]);
                    }
                }
                assert(cur@ =~= Seq::new(Seq::<u64>::empty().len(), |a: int| Seq::<u64>::empty()[a] as usize));
            }
        } else {
            cur.push(x as usize);
            proof {
                assert(cur@ =~= Seq::new(c.push(x).len(), |a: int| c.push(x)[a] as usize));
            }
        }
        i = i + 1;
    }
    assert(w@.take(i as int) =~= w@);
    let ghost (d, c) = split_upto(w@);
    let ghost r0 = r@;
    r.push(cur);
    proof {
        let d2 = d.push(c);
        assert(split_words(w@) == d2);
        assert forall|j: int| 0 <= j < r.len() implies (#[trigger] r@[j])@ == Seq::new(d2[j].len(), |a: int| d2[j][a] as usize) by {
            if j < r0.len() {
                assert(r@[j] == r0[j]);
                assert(d2[j] == d[j]);
            }
        }
    }
    r
}


/// The words of one itemset.
pub open spec fn words_of(t: Seq<usize>) -> Seq<u64> {
    Seq::new(t.len(), |i: int| t[i] as u64)
}

proof fn lemma_split_no_separator(a: Seq<u64>, b: Seq<u64>)
    requires
        forall|i: int| 0 <= i < b.len() ==> b[i] != u64::MAX,
    ensures
        split_upto(a + b) == (split_upto(a).0, split_upto(a).1 + b),
    decreases b.len(),
{
    if b.len() == 0 {
        assert(a + b =~= a);
        assert(split_upto(a).1 + b =~= split_upto(a).1);
    } else {
        lemma_split_no_separator(a, b.drop_last());
        assert((a + b).drop_last() =~= a + b.drop_last());
        assert((a + b).last() == b.last());
        assert((split_upto(a).1 + b.drop_last()).push(b.last()) =~= split_upto(a).1 + b);
    }
}

proof fn lemma_split_joined(sets: Seq<Seq<usize>>)
    requires
        sets.len() >= 1,
        forall|j: int, i: int| 0 <= j < sets.len() && 0 <= i < sets[j].len() ==> #[trigger] sets[j][i] as u64 != u64::MAX,
    ensures
        split_upto(joined_words(sets)).1 == words_of(sets.last()),
        split_upto(joined_words(sets)).0 == Seq::new((sets.len() - 1) as nat, |j: int| words_of(sets[j])),
    decreases sets.len(),
{
    let w = words_of(sets.last());
    assert forall|i: int| 0 <= i < w.len() implies w[i] != u64::MAX by {
        assert(sets[sets.len() - 1][i] as u64 != u64::MAX);
    }
    if sets.len() == 1 {
        lemma_split_no_separator(Seq::empty(), w);
        assert(Seq::<u64>::empty() + w =~= w);
        assert(joined_words(sets) =~= w);
        assert(Seq::<u64>::empty() + w =~= w);
        assert(Seq::new((sets.len() - 1) as nat, |j: int| words_of(sets[j])) =~= Seq::<Seq<u64>>::empty());
    } else {
        let init = sets.drop_last();
        assert forall|j: int, i: int| 0 <= j < init.len() && 0 <= i < init[j].len() implies #[trigger] init[j][i] as u64 != u64::MAX by {
            assert(init[j] == sets[j]);
        }
        lemma_split_joined(init);
        let a = joined_words(init).push(u64::MAX);
        assert(joined_words(sets) =~= a + w);
        lemma_split_no_separator(a, w);
        assert(a.drop_last() =~= joined_words(init));
        assert(Seq::<u64>::empty() + w =~= w);
        assert(Seq::new((sets.len() - 1) as nat, |j: int| words_of(sets[j])) =~= Seq::new((init.len() - 1) as nat, |j: int| words_of(init[j])).push(words_of(init.last())));
    }
}

/// A message of non-empty itemsets, none holding the separator, reads back
/// as the itemsets it was written from.
pub proof fn lemma_message_round_trip(sets: Seq<Seq<usize>>)
    requires
        forall|j: int| 0 <= j < sets.len() ==> #[trigger] sets[j].len() > 0,
        forall|j: int, i: int| 0 <= j < sets.len() && 0 <= i < sets[j].len() ==> #[trigger] sets[j][i] as u64 != u64::MAX,
    ensures
        split_words(joined_words(sets)).len() == sets.len(),
        forall|j: int| 0 <= j < sets.len() ==> Seq::new(
            split_words(joined_words(sets))[j].len(),
            |i: int| split_words(joined_words(sets))[j][i] as usize,
        ) == #[trigger] sets[j],
{
    if sets.len() > 0 {
        lemma_split_joined(sets);
        assert(joined_words(sets).len() > 0) by {
            lemma_joined_len(sets);
        }
        let sp = split_words(joined_words(sets));
        assert forall|j: int| 0 <= j < sets.len() implies Seq::new(sp[j].len(), |i: int| sp[j][i] as usize) == #[trigger] sets[j] by {
            assert(sp[j] == words_of(sets[j]));
            assert(Seq::new(sp[j].len(), |i: int| sp[j][i] as usize) =~= sets[j]);
        }
    } else {
        assert(joined_words(sets).len() == 0);
    }
}

proof fn lemma_joined_len(sets: Seq<Seq<usize>>)
    requires
        sets.len() > 0,
        sets.last().len() > 0,
    ensures
        joined_words(sets).len() > 0,
{
}


/// A stretch of words read back as items.
pub open spec fn items_of(w: Seq<u64>) -> Seq<usize> {
    Seq::new(w.len(), |i: int| w[i] as usize)
}

/// The non-empty stretches among `d`, read back as transactions.
pub open spec fn kept_chunks(d: Seq<Seq<u64>>) -> Seq<Seq<usize>>
    decreases d.len(),
{
    if d.len() == 0 {
        Seq::empty()
    } else if d.last().len() > 0 {
        kept_chunks(d.drop_last()).push(items_of(d.last()))
    } else {
        kept_chunks(d.drop_last())
    }
}

/// Neighbouring items of a message (no separator between them) ascend.
pub open spec fn words_ascending(v: Seq<u64>) -> bool {
    forall|i: int| 0 <= i < v.len() - 1 && v[i] != u64::MAX && #[trigger] v[i + 1] != u64::MAX ==> v[i] < v[i + 1]
}

impl TransactionSet {
    /// The transactions as one message of words.
    pub fn to_vec(&self) -> (r: Vec<u64>)
        ensures
            r@ == joined_words(self@),
    {
        let r = encode_sets(&self.transactions);
        assert(Seq::new(self.transactions.len() as nat, |j: int| self.transactions@[j]@) =~= self@);
        r
    }

    /// Appends the transactions of a message, as `to_vec` writes them;
    /// empty stretches are skipped.
    pub fn add_from_vec(&mut self, v: &Vec<u64>)
        requires
            old(self).wf(),
            old(self).size + v.len() <= usize::MAX,
            forall|i: int| 0 <= i < v.len() ==> v@[i] == u64::MAX || #[trigger] v@[i] < usize::MAX,
            words_ascending(v@),
        ensures
            final(self).wf(),
            final(self)@ == old(self)@ + kept_chunks(split_words(v@)),
            final(self).num_items == if db_bound(kept_chunks(split_words(v@))) > old(self).num_items {
                db_bound(kept_chunks(split_words(v@)))
            } else {
                old(self).num_items as nat
            },
    {
        let ghost o = old(self)@;
        let ghost n0 = old(self).num_items;
        let ghost size0 = old(self).size;
        let mut cur: Vec<usize> = Vec::new();
        let mut i: usize = 0;
        while i < v.len()
            invariant
                i <= v.len(),
                self.wf(),
                size0 + v.len() <= usize::MAX,
                forall|a: int| 0 <= a < v.len() ==> v@[a] == u64::MAX || #[trigger] v@[a] < usize::MAX,
                words_ascending(v@),
                self@ == o + kept_chunks(split_upto(v@.take(i as int)).0),
                self.num_items == if db_bound(kept_chunks(split_upto(v@.take(i as int)).0)) > n0 {
                    db_bound(kept_chunks(split_upto(v@.take(i as int)).0))
                } else {
                    n0 as nat
                },
                cur@ == items_of(split_upto(v@.take(i as int)).1),
                ascending(cur@),
                cur.len() > 0 ==> i > 0 && v@[i - 1] != u64::MAX && cur@[cur.len() - 1] == v@[i - 1] as usize,
                forall|a: int| 0 <= a < cur.len() ==> #[trigger] cur@[a] < usize::MAX,
                self.size + cur.len() <= size0 + i,
            decreases v.len() - i,
        {
            let x = v[i];
            let ghost (d, c) = split_upto(v@.take(i as int));
            assert(v@.take(i + 1).drop_last() =~= v@.take(i as int));
            assert(v@.take(i + 1).last() == x);
            if x == u64::MAX {
                let ghost s0 = self@;
                let ghost cv = cur@;
                self.add_transaction(cur);
                cur = Vec::new();
                proof {
                    let d2 = d.push(c);
                    assert(d2.drop_last() =~= d);
                    assert(d2.last() == c);
                    assert(items_of(c).len() == c.len());
                    assert(cur@ =~= items_of(Seq::<u64>::empty()));
                    assert(split_upto(v@.take(i + 1)).0 == d2);
                    if c.len() > 0 {
                        assert(s0.push(cv) =~= o + kept_chunks(d).push(items_of(c)));
                        assert(kept_chunks(d2) == kept_chunks(d).push(items_of(c)));
                        assert(kept_chunks(d).push(items_of(c)).drop_last() =~= kept_chunks(d));
                    } else {
                        assert(cv.len() == 0);
                    }
                }
            } else {
                let ghost cv = cur@;
                proof {
                    if cur.len() > 0 {
                        let j = i - 1;
                        assert(v@[j + 1] == v@[i as int]);
                        assert(v@[j] < v@[j + 1]);
                    }
                }
                cur.push(x as usize);
                proof {
                    assert(cur@ =~= items_of(c.push(x)));
                    assert forall|a: int, b: int| 0 <= a < b < cur@.len() implies cur@[a] < cur@[b] by {
                        if b == cv.len() && a < cv.len() {
                            if a < cv.len() - 1 {
                                assert(cv[a] < cv[cv.len() - 1]);
                            }
                        }
                    }
                }
            }
            i = i + 1;
        }
        assert(v@.take(i as int) =~= v@);
        let ghost (d, c) = split_upto(v@);
        let ghost s0 = self@;
        let ghost cv = cur@;
        if v.len() > 0 {
            self.add_transaction(cur);
            proof {
                let d2 = d.push(c);
                assert(split_words(v@) == d2);
                assert(d2.drop_last() =~= d);
                assert(d2.last() == c);
                if c.len() > 0 {
                    assert(s0.push(cv) =~= o + kept_chunks(d).push(items_of(c)));
                    assert(kept_chunks(d2) == kept_chunks(d).push(items_of(c)));
                    assert(kept_chunks(d).push(items_of(c)).drop_last() =~= kept_chunks(d));
                }
            }
        } else {
            proof {
                assert(split_words(v@) == Seq::<Seq<u64>>::empty());
                assert(o + kept_chunks(Seq::<Seq<u64>>::empty()) =~= o);
                assert(kept_chunks(split_upto(v@).0) == kept_chunks(Seq::<Seq<u64>>::empty()));
            }
        }
    }
}


proof fn lemma_kept_all(sp: Seq<Seq<u64>>, db: Seq<Seq<usize>>, n: int)
    requires
        sp.len() == db.len(),
        0 <= n <= sp.len(),
        forall|j: int| 0 <= j < sp.len() ==> (#[trigger] sp[j]).len() > 0 && items_of(sp[j]) == db[j],
    ensures
        kept_chunks(sp.take(n)) == db.take(n),
    decreases n,
{
    if n > 0 {
        lemma_kept_all(sp, db, n - 1);
        assert(sp.take(n).drop_last() =~= sp.take(n - 1));
        assert(db.take(n) =~= db.take(n - 1).push(db[n - 1]));
    } else {
        assert(db.take(0) =~= Seq::<Seq<usize>>::empty());
    }
}

/// A database of non-empty transactions, none holding the separator, is
/// read back by `add_from_vec` from what `to_vec` writes of it.
pub proof fn lemma_transactions_round_trip(db: Seq<Seq<usize>>)
    requires
        forall|j: int| 0 <= j < db.len() ==> #[trigger] db[j].len() > 0,
        forall|j: int, i: int| 0 <= j < db.len() && 0 <= i < db[j].len() ==> #[trigger] db[j][i] as u64 != u64::MAX,
    ensures
        kept_chunks(split_words(joined_words(db))) == db,
{
    lemma_message_round_trip(db);
    let sp = split_words(joined_words(db));
    assert forall|j: int| 0 <= j < sp.len() implies (#[trigger] sp[j]).len() > 0 && items_of(sp[j]) == db[j] by {
        assert(Seq::new(sp[j].len(), |i: int| sp[j][i] as usize) == db[j]);
        assert(items_of(sp[j]) =~= Seq::new(sp[j].len(), |i: int| sp[j][i] as usize));
    }
    lemma_kept_all(sp, db, sp.len() as int);
    assert(sp.take(sp.len() as int) =~= sp);
    assert(db.take(db.len() as int) =~= db);
}


impl CountDistribution {
    /// A rank's count of the second level with the dense pair counter: for
    /// every pair of the ascending frequent items `freq`, at the pair's
    /// cell, the transactions of `part` holding both.
    pub fn count_pairs(part: &TransactionSet, freq: &[usize]) -> (r: Vec<u64>)
        requires
            part.wf(),
            ascending(freq@),
            freq.len() * freq.len() <= usize::MAX,
        ensures
            r.len() == tri(freq@.len()),
            forall|a: usize, b: usize| #![trigger freq@.contains(a), freq@.contains(b)] freq@.contains(a) && freq@.contains(b) && a < b ==> r@[pair_cell(freq@, a, b) as int] == support(part@, seq![a, b]),
    {
        let mut counter = AprioriP2Counter2::new(freq);
        apriori_pass_two_counter(part, &mut counter);
        let r = counter.to_vec();
        assert forall|a: usize, b: usize| #![trigger freq@.contains(a), freq@.contains(b)] freq@.contains(a) && freq@.contains(b) && a < b
            implies r@[pair_cell(freq@, a, b) as int] == support(part@, seq![a, b]) by {
            assert(counter.pair_count(a, b) == support(part@, seq![a, b]));
            assert(r@[pair_cell(counter.items(), a, b) as int] == counter.pair_count(a, b));
        }
        r
    }

    /// The frequent pairs of the summed pair counts, as `count_pairs`
    /// lays them out.
    pub fn frequent_pairs(&self, freq: &[usize], counts: &Vec<u64>) -> (r: Vec<Vec<usize>>)
        requires
            ascending(freq@),
            freq.len() * freq.len() <= usize::MAX,
            counts.len() == tri(freq@.len()),
        ensures
            forall|q: Seq<usize>| #[trigger] listed(r@, q) <==> (q.len() == 2 && q[0] < q[1] && freq@.contains(q[0])
                && freq@.contains(q[1]) && counts@[pair_cell(freq@, q[0], q[1]) as int] >= self.sup()),
            forall|a: int, b: int| 0 <= a < b < r.len() ==> (#[trigger] r@[a])@ != (#[trigger] r@[b])@,
    {
        let mut counter = AprioriP2Counter2::new(freq);
        proof {
            assert forall|a: usize, b: usize|
                counter.items().contains(a) && counter.items().contains(b) && a != b implies #[trigger] counter.pair_count(a, b) + counts@[pair_cell(counter.items(), a, b) as int] <= u64::MAX by {
                assert(counter.pair_count(a, b) == 0);
            }
        }
        let ghost c0 = counter;
        counter.add_from_vec(counts);
        let f = counter.to_frequent(self.sup);
        let r = f.for_each(2);
        assert forall|q: Seq<usize>| #[trigger] listed(r@, q) <==> (q.len() == 2 && q[0] < q[1] && freq@.contains(q[0])
            && freq@.contains(q[1]) && counts@[pair_cell(freq@, q[0], q[1]) as int] >= self.sup()) by {
            if q.len() == 2 && q[0] < q[1] && freq@.contains(q[0]) && freq@.contains(q[1]) {
                assert(counter.pair_count(q[0], q[1]) == c0.pair_count(q[0], q[1]) + counts@[pair_cell(freq@, q[0], q[1]) as int]);
                assert(c0.pair_count(q[0], q[1]) == 0);
                if counts@[pair_cell(freq@, q[0], q[1]) as int] >= self.sup() {
                    assert(f@.contains(q));
                }
            }
            if listed(r@, q) {
                let a = choose|a: int| 0 <= a < r@.len() && #[trigger] r@[a]@ == q;
                assert(f@.contains(q));
                assert(counter.pair_count(q[0], q[1]) == c0.pair_count(q[0], q[1]) + counts@[pair_cell(freq@, q[0], q[1]) as int]);
            }
        }
        r
    }
}


/// The frequent itemsets of length `k` over items below `m`, as a set.
pub open spec fn frequent_set(db: Seq<Seq<usize>>, k: nat, sup: nat, m: nat) -> Set<Seq<usize>> {
    Set::new(|p: Seq<usize>| frequent_of(db, p, k, sup, m))
}

/// The itemsets counted at level `k`: the single items below `m` at the
/// first level, and after it the k-candidates of the frequent
/// (k-1)-itemsets.
pub open spec fn level_candidate(db: Seq<Seq<usize>>, q: Seq<usize>, k: nat, sup: nat, m: nat) -> bool {
    if k <= 1 {
        q.len() == 1 && q[0] < m
    } else {
        candidate(frequent_set(db, (k - 1) as nat, sup, m), q, k)
    }
}

/// What the coordinator asks the ranks for next.
pub enum CoordinatorStep {
    /// Count these candidates of level `k` on every part, and sum.
    Count { k: usize, cands: Vec<Vec<usize>> },
    /// Count every pair of these frequent items with the dense pair
    /// counter (`count_pairs`) on every part, and sum.
    CountPairs { freq: Vec<usize> },
    /// The run is over: the ranks may stop.
    Done,
}

/// The coordinator of a Count Distribution run: level by level it decides
/// what the ranks count, takes back the summed counts, keeps the frequent
/// itemsets, and decides when the run is over. It holds no transactions;
/// the database is a ghost that the counts it is handed must agree with.
pub struct Coordinator {
    plan: CountDistribution,
    m: usize,
    k: usize,
    pairs: bool,
    asked: Vec<Vec<usize>>,
    freq: Vec<usize>,
    found: Vec<Vec<usize>>,
    prev_len: usize,
    finished: bool,
    db: Ghost<Seq<Seq<usize>>>,
}

/// A copy of a list of itemsets.
fn copy_sets(v: &Vec<Vec<usize>>) -> (r: Vec<Vec<usize>>)
    ensures
        r.len() == v.len(),
        forall|i: int| 0 <= i < v.len() ==> (#[trigger] r@[i])@ == v@[i]@,
{
    let mut r: Vec<Vec<usize>> = Vec::new();
    let mut i: usize = 0;
    while i < v.len()
        invariant
            i <= v.len(),
            r.len() == i,
            forall|a: int| 0 <= a < i ==> (#[trigger] r@[a])@ == v@[a]@,
        decreases v.len() - i,
    {
        r.push(v[i].clone());
        i = i + 1;
    }
    r
}

impl Coordinator {
    /// The database the counts must come from.
    pub closed spec fn db(&self) -> Seq<Seq<usize>> {
        self.db@
    }

    /// The minimum support.
    pub closed spec fn sup(&self) -> nat {
        self.plan.sup() as nat
    }

    /// The item cardinality.
    pub closed spec fn m(&self) -> nat {
        self.m as nat
    }

    /// The level of the pending request.
    pub closed spec fn level(&self) -> nat {
        self.k as nat
    }

    /// The pending request is for pair counts.
    pub closed spec fn is_pairs(&self) -> bool {
        self.pairs
    }

    /// The candidates of the pending `Count` request.
    pub closed spec fn asked(&self) -> Seq<Seq<usize>> {
        Seq::new(self.asked@.len(), |i: int| self.asked@[i]@)
    }

    /// The items of the pending `CountPairs` request.
    pub closed spec fn pair_items(&self) -> Seq<usize> {
        self.freq@
    }

    /// The frequent itemsets found so far.
    pub closed spec fn found(&self) -> Seq<Vec<usize>> {
        self.found@
    }

    /// The run is over.
    pub closed spec fn finished(&self) -> bool {
        self.finished
    }

    /// A bound on the requests still to come: the run never goes past level
    /// `m`, and each request is at a higher level than the one before.
    pub closed spec fn remaining(&self) -> nat {
        if self.finished { 0 } else { (self.m + 1 - self.k) as nat }
    }

    /// `step` is the request the coordinator is waiting on.
    pub open spec fn requests(&self, step: CoordinatorStep) -> bool {
        match step {
            CoordinatorStep::Count { k, cands } => !self.finished() && !self.is_pairs() && k == self.level()
                && cands.len() == self.asked().len()
                && forall|i: int| 0 <= i < cands.len() ==> (#[trigger] cands@[i])@ == self.asked()[i],
            CoordinatorStep::CountPairs { freq } => !self.finished() && self.is_pairs() && freq@ == self.pair_items(),
            CoordinatorStep::Done => self.finished(),
        }
    }

    /// The state is consistent: what was found is exactly the frequent
    /// itemsets of the levels done, once each, and the pending request asks
    /// for the next level's candidates.
    pub closed spec fn wf(&self) -> bool {
        let db = self.db@;
        let sup = self.plan.sup() as nat;
        let m = self.m as nat;
        &&& self.m < usize::MAX
        &&& distinct(self.found@)
        &&& self.finished ==> forall|q: Seq<usize>| #[trigger] listed(self.found@, q) <==> frequent_any(db, q, sup, m)
        &&& !self.finished ==> forall|q: Seq<usize>| #[trigger] listed(self.found@, q) <==> (frequent_any(db, q, sup, m) && q.len() < self.k)
        &&& !self.finished && self.pairs ==> self.k == 2 && ascending(self.freq@) && self.freq.len() * self.freq.len() <= usize::MAX
            && forall|x: usize| #[trigger] self.freq@.contains(x) <==> (x < m && support(db, seq![x]) >= sup)
        &&& !self.finished && !self.pairs ==> 1 <= self.k <= self.m
            && (forall|q: Seq<usize>| #[trigger] listed(self.asked@, q) <==> level_candidate(db, q, self.k as nat, sup, m))
            && distinct(self.asked@)
            && (forall|i: int| 0 <= i < self.asked.len() ==> (#[trigger] self.asked@[i])@.len() == self.k && ascending(self.asked@[i]@))
            && (self.k == 1 ==> self.asked.len() == self.m && forall|i: int| 0 <= i < self.asked.len() ==> (#[trigger] self.asked@[i])@ == seq![i as usize])
    }

    /// The number of candidates counted at the last level, for the switch of
    /// the hybrid variant.
    pub fn prev_len(&self) -> usize {
        self.prev_len
    }

    /// The frequent itemsets found so far.
    pub fn found_sets(&self) -> (r: &Vec<Vec<usize>>)
        ensures
            r@ == self.found(),
    {
        &self.found
    }

    /// Starts a run over `data`: the first request counts every single item.
    pub fn start(plan: CountDistribution, data: &TransactionSet) -> (r: (Coordinator, CoordinatorStep))
        requires
            data.wf(),
            data.num_items < usize::MAX,
        ensures
            r.0.wf(),
            r.0.db() == data@,
            r.0.sup() == plan.sup(),
            r.0.m() == data.num_items,
            r.0.found().len() == 0 || r.0.finished(),
            r.0.requests(r.1),
            r.1 matches CoordinatorStep::Count { k, cands } ==> k == 1 && forall|q: Seq<usize>| #[trigger] listed(cands@, q)
                <==> (q.len() == 1 && q[0] < data.num_items),
            r.1 matches CoordinatorStep::Done ==> forall|q: Seq<usize>| #[trigger] listed(r.0.found(), q) <==> frequent_any(data@, q, plan.sup() as nat, data.num_items as nat),
    {
        let m = data.num_items;
        let mut singles: Vec<Vec<usize>> = Vec::new();
        let mut i: usize = 0;
        while i < m
            invariant
                i <= m,
                singles.len() == i,
                forall|a: int| 0 <= a < i ==> (#[trigger] singles@[a])@ == seq![a as usize],
            decreases m - i,
        {
            let v: Vec<usize> = vec![i];
            assert(v@ == seq![i]);
            singles.push(v);
            i = i + 1;
        }
        let finished = m == 0;
        let c = Coordinator {
            plan,
            m,
            k: 1,
            pairs: false,
            asked: copy_sets(&singles),
            freq: Vec::new(),
            found: Vec::new(),
            prev_len: 0,
            finished,
            db: Ghost(data@),
        };
        proof {
            assert forall|q: Seq<usize>| #[trigger] listed(singles@, q) <==> (q.len() == 1 && q[0] < m) by {
                if listed(singles@, q) {
                    let a = choose|a: int| 0 <= a < singles@.len() && #[trigger] singles@[a]@ == q;
                }
                if q.len() == 1 && q[0] < m {
                    let a = q[0] as int;
                    assert(singles@[a]@ == seq![q[0]]);
                    assert(q =~= seq![q[0]]);
                }
            }
            assert forall|q: Seq<usize>| #[trigger] listed(c.asked@, q) <==> listed(singles@, q) by {
                if listed(c.asked@, q) {
                    let a = choose|a: int| 0 <= a < c.asked@.len() && #[trigger] c.asked@[a]@ == q;
                    assert(singles@[a]@ == q);
                }
                if listed(singles@, q) {
                    let a = choose|a: int| 0 <= a < singles@.len() && #[trigger] singles@[a]@ == q;
                    assert(c.asked@[a]@ == q);
                }
            }
            assert forall|a: int, b: int| 0 <= a < b < c.asked@.len() implies (#[trigger] c.asked@[a])@ != (#[trigger] c.asked@[b])@ by {
                assert(c.asked@[a]@[0] == a);
                assert(c.asked@[b]@[0] == b);
            }
            assert forall|i: int| 0 <= i < c.asked.len() implies (#[trigger] c.asked@[i])@.len() == 1 && ascending(c.asked@[i]@) by {
                assert(c.asked@[i]@ == seq![i as usize]);
            }
            assert forall|q: Seq<usize>| #[trigger] listed(c.found@, q) <==> (frequent_any(data@, q, c.plan.sup() as nat, m as nat) && q.len() < 1) by {}
            if finished {
                assert forall|q: Seq<usize>| #[trigger] listed(c.found@, q) <==> frequent_any(data@, q, c.plan.sup() as nat, m as nat) by {
                    if frequent_any(data@, q, c.plan.sup() as nat, m as nat) {
                        assert(q[0] < 0);
                    }
                }
            }
        }
        if finished {
            (c, CoordinatorStep::Done)
        } else {
            (c, CoordinatorStep::Count { k: 1, cands: singles })
        }
    }
}


impl Coordinator {
    /// Takes the summed counts of the pending request and decides the next
    /// one. The run ends once a level has no frequent itemset, or no
    /// candidate, or the itemsets could not get longer; it then holds
    /// exactly the frequent itemsets, each once.
    pub fn step(&mut self, counts: &Vec<u64>) -> (r: CoordinatorStep)
        requires
            old(self).wf(),
            !old(self).finished(),
            old(self).is_pairs() ==> counts.len() == tri(old(self).pair_items().len()) && forall|a: usize, b: usize|
                #![trigger old(self).pair_items().contains(a), old(self).pair_items().contains(b)]
                old(self).pair_items().contains(a) && old(self).pair_items().contains(b) && a < b
                ==> counts@[pair_cell(old(self).pair_items(), a, b) as int] == support(old(self).db(), seq![a, b]),
            !old(self).is_pairs() ==> counts.len() == old(self).asked().len() && forall|i: int| 0 <= i < counts.len()
                ==> #[trigger] counts@[i] == support(old(self).db(), old(self).asked()[i]),
        ensures
            final(self).wf(),
            final(self).db() == old(self).db(),
            final(self).sup() == old(self).sup(),
            final(self).m() == old(self).m(),
            final(self).requests(r),
            r matches CoordinatorStep::Done ==> (forall|q: Seq<usize>| #[trigger] listed(final(self).found(), q)
                <==> frequent_any(old(self).db(), q, old(self).sup(), old(self).m())) && distinct(final(self).found()),
            r matches CoordinatorStep::Count { k, cands } ==> forall|q: Seq<usize>| #[trigger] listed(cands@, q)
                <==> level_candidate(old(self).db(), q, k as nat, old(self).sup(), old(self).m()),
            r matches CoordinatorStep::CountPairs { freq } ==> forall|x: usize| #[trigger] freq@.contains(x)
                <==> (x < old(self).m() && support(old(self).db(), seq![x]) >= old(self).sup()),
            !(r matches CoordinatorStep::Done) ==> final(self).remaining() < old(self).remaining(),
    {
        let ghost db = self.db@;
        let ghost sup = self.plan.sup() as nat;
        let ghost mm = self.m as nat;
        if self.pairs {
            let f2 = self.plan.frequent_pairs(self.freq.as_slice(), counts);
            proof {
                assert forall|q: Seq<usize>| #[trigger] listed(f2@, q) <==> frequent_of(db, q, 2, sup, mm) by {
                    if q.len() == 2 && q[0] < q[1] {
                        assert(contains_all(q, seq![q[0]])) by {
                            assert(q.contains(seq![q[0]][0]));
                        }
                        assert(contains_all(q, seq![q[1]])) by {
                            assert(q[1] == seq![q[1]][0]);
                            assert(q.contains(q[1]));
                        }
                        lemma_support_anti_monotone(db, seq![q[0]], q);
                        lemma_support_anti_monotone(db, seq![q[1]], q);
                        assert(seq![q[0], q[1]] =~= q);
                        if self.freq@.contains(q[0]) && self.freq@.contains(q[1]) {
                            assert(counts@[pair_cell(self.freq@, q[0], q[1]) as int] == support(db, seq![q[0], q[1]]));
                        }
                    }
                }
            }
            self.prev_len = counts.len();
            if f2.len() == 0 {
                self.finished = true;
                proof {
                    assert forall|q: Seq<usize>| #[trigger] listed(self.found@, q) <==> frequent_any(db, q, sup, mm) by {
                        if frequent_any(db, q, sup, mm) && q.len() >= 2 {
                            lemma_no_longer(db, q, 2, sup, mm);
                            assert(listed(f2@, q.take(2)));
                        }
                    }
                }
                return CoordinatorStep::Done;
            }
            proof {
                assert forall|q: Seq<usize>| #[trigger] listed(f2@, q) implies !listed(self.found@, q) by {}
            }
            emit(&mut self.found, &f2);
            proof {
                assert forall|q: Seq<usize>| #[trigger] listed(self.found@, q) <==> (frequent_any(db, q, sup, mm) && q.len() < 3) by {}
            }
            if self.m <= 2 {
                self.finished = true;
                proof {
                    assert forall|q: Seq<usize>| #[trigger] listed(self.found@, q) <==> frequent_any(db, q, sup, mm) by {
                        if frequent_any(db, q, sup, mm) {
                            lemma_ascending_len(q, mm);
                        }
                    }
                }
                return CoordinatorStep::Done;
            }
            proof {
                assert forall|i: int| 0 <= i < f2.len() implies (#[trigger] f2@[i])@.len() == 2 && ascending(f2@[i]@) by {
                    assert(listed(f2@, f2@[i]@));
                }
            }
            let c = CountDistribution::candidates(&f2, 3);
            proof {
                assert(listed_set(f2@) =~= frequent_set(db, 2, sup, mm));
            }
            return self.next_level(c, 3);
        }
        let k = self.k;
        let f = self.plan.frequent(&self.asked, counts);
        proof {
            assert forall|q: Seq<usize>| #[trigger] listed(f@, q) <==> frequent_of(db, q, k as nat, sup, mm) by {
                if k >= 2 {
                    lemma_level_step(frequent_set(db, (k - 1) as nat, sup, mm), db, k as nat, sup, mm, q);
                }
                if listed(f@, q) {
                    let i = choose|i: int| 0 <= i < self.asked@.len() && self.asked@[i]@ == q && counts@[i] >= sup;
                    assert(self.asked()[i] == q);
                    assert(listed(self.asked@, q));
                }
                if frequent_of(db, q, k as nat, sup, mm) {
                    if k == 1 {
                        assert(q =~= seq![q[0]]);
                    }
                    assert(level_candidate(db, q, k as nat, sup, mm));
                    assert(listed(self.asked@, q));
                    let i = choose|i: int| 0 <= i < self.asked@.len() && #[trigger] self.asked@[i]@ == q;
                    assert(self.asked()[i] == q);
                    assert(counts@[i] == support(db, q));
                }
            }
        }
        self.prev_len = self.asked.len();
        if f.len() == 0 {
            self.finished = true;
            proof {
                assert forall|q: Seq<usize>| #[trigger] listed(self.found@, q) <==> frequent_any(db, q, sup, mm) by {
                    if frequent_any(db, q, sup, mm) && q.len() >= k {
                        lemma_no_longer(db, q, k as nat, sup, mm);
                        assert(listed(f@, q.take(k as int)));
                    }
                }
            }
            return CoordinatorStep::Done;
        }
        proof {
            assert forall|q: Seq<usize>| #[trigger] listed(f@, q) implies !listed(self.found@, q) by {}
        }
        emit(&mut self.found, &f);
        proof {
            assert forall|q: Seq<usize>| #[trigger] listed(self.found@, q) <==> (frequent_any(db, q, sup, mm) && q.len() < k + 1) by {}
        }
        if k >= self.m {
            self.finished = true;
            proof {
                assert forall|q: Seq<usize>| #[trigger] listed(self.found@, q) <==> frequent_any(db, q, sup, mm) by {
                    if frequent_any(db, q, sup, mm) {
                        lemma_ascending_len(q, mm);
                    }
                }
            }
            return CoordinatorStep::Done;
        }
        if k == 1 {
            let mut freq: Vec<usize> = Vec::new();
            let mut x: usize = 0;
            while x < self.m
                invariant
                    x <= self.m,
                    counts.len() == self.m,
                    self.asked.len() == self.m,
                    forall|i: int| 0 <= i < counts.len() ==> #[trigger] counts@[i] == support(db, self.asked()[i]),
                    forall|i: int| 0 <= i < self.asked.len() ==> (#[trigger] self.asked@[i])@ == seq![i as usize],
                    ascending(freq@),
                    forall|i: int| 0 <= i < freq.len() ==> #[trigger] freq@[i] < x,
                    forall|y: usize| #[trigger] freq@.contains(y) <==> (y < x && support(db, seq![y]) >= sup),
                    sup == self.plan.sup() as nat,
                decreases self.m - x,
            {
                let ghost f0 = freq@;
                assert(self.asked()[x as int] == seq![x]);
                if counts[x] >= self.plan.sup {
                    freq.push(x);
                    proof {
                        assert forall|y: usize| #[trigger] freq@.contains(y) <==> (y < x + 1 && support(db, seq![y]) >= sup) by {
                            if freq@.contains(y) && y != x {
                                let i = choose|i: int| 0 <= i < freq@.len() && freq@[i] == y;
                                assert(f0[i] == y);
                            }
                            if f0.contains(y) {
                                let i = choose|i: int| 0 <= i < f0.len() && f0[i] == y;
                                assert(freq@[i] == y);
                            }
                            if y == x {
                                assert(freq@[f0.len() as int] == x);
                            }
                        }
                    }
                } else {
                    proof {
                        assert forall|y: usize| #[trigger] freq@.contains(y) <==> (y < x + 1 && support(db, seq![y]) >= sup) by {
                            if y == x && freq@.contains(y) {
                                let i = choose|i: int| 0 <= i < freq@.len() && freq@[i] == y;
                            }
                        }
                    }
                }
                x = x + 1;
            }
            if freq.len().checked_mul(freq.len()).is_some() {
                self.pairs = true;
                self.k = 2;
                let out = CoordinatorStep::CountPairs { freq: freq.clone() };
                self.freq = freq;
                return out;
            }
        }
        proof {
            assert forall|i: int| 0 <= i < f.len() implies (#[trigger] f@[i])@.len() == k && ascending(f@[i]@) by {
                assert(listed(f@, f@[i]@));
            }
        }
        let c = CountDistribution::candidates(&f, k + 1);
        proof {
            assert(listed_set(f@) =~= frequent_set(db, k as nat, sup, mm));
        }
        self.next_level(c, k + 1)
    }

    /// Moves to level `k` with candidates `c`, or ends the run if there are
    /// none.
    fn next_level(&mut self, c: Vec<Vec<usize>>, k: usize) -> (r: CoordinatorStep)
        requires
            !old(self).finished,
            old(self).m < usize::MAX,
            distinct(old(self).found@),
            2 <= k <= old(self).m,
            k > old(self).k,
            forall|q: Seq<usize>| #[trigger] listed(old(self).found@, q) <==> (frequent_any(old(self).db@, q, old(self).plan.sup() as nat, old(self).m as nat) && q.len() < k),
            forall|q: Seq<usize>| #[trigger] listed(c@, q) <==> candidate(frequent_set(old(self).db@, (k - 1) as nat, old(self).plan.sup() as nat, old(self).m as nat), q, k as nat),
            distinct(c@),
            forall|i: int| 0 <= i < c.len() ==> (#[trigger] c@[i])@.len() == k && ascending(c@[i]@),
        ensures
            final(self).wf(),
            final(self).db() == old(self).db(),
            final(self).sup() == old(self).sup(),
            final(self).m() == old(self).m(),
            final(self).found() == old(self).found(),
            final(self).requests(r),
            r matches CoordinatorStep::Done ==> (forall|q: Seq<usize>| #[trigger] listed(final(self).found(), q)
                <==> frequent_any(old(self).db(), q, old(self).sup(), old(self).m())),
            r matches CoordinatorStep::Count { k: kk, cands } ==> kk == k && forall|q: Seq<usize>| #[trigger] listed(cands@, q)
                <==> level_candidate(old(self).db(), q, kk as nat, old(self).sup(), old(self).m()),
            !(r matches CoordinatorStep::CountPairs { .. }),
            !(r matches CoordinatorStep::Done) ==> final(self).remaining() < old(self).remaining(),
    {
        let ghost db = self.db@;
        let ghost sup = self.plan.sup() as nat;
        let ghost mm = self.m as nat;
        if c.len() == 0 {
            self.finished = true;
            proof {
                assert forall|q: Seq<usize>| #[trigger] listed(self.found@, q) <==> frequent_any(db, q, sup, mm) by {
                    if frequent_any(db, q, sup, mm) && q.len() >= k {
                        lemma_no_longer(db, q, k as nat, sup, mm);
                        lemma_level_step(frequent_set(db, (k - 1) as nat, sup, mm), db, k as nat, sup, mm, q.take(k as int));
                        assert(listed(c@, q.take(k as int)));
                    }
                }
            }
            return CoordinatorStep::Done;
        }
        self.pairs = false;
        self.k = k;
        self.asked = copy_sets(&c);
        proof {
            assert forall|q: Seq<usize>| #[trigger] listed(self.asked@, q) <==> listed(c@, q) by {
                if listed(self.asked@, q) {
                    let a = choose|a: int| 0 <= a < self.asked@.len() && #[trigger] self.asked@[a]@ == q;
                    assert(c@[a]@ == q);
                }
                if listed(c@, q) {
                    let a = choose|a: int| 0 <= a < c@.len() && #[trigger] c@[a]@ == q;
                    assert(self.asked@[a]@ == q);
                }
            }
            assert forall|a: int, b: int| 0 <= a < b < self.asked@.len() implies (#[trigger] self.asked@[a])@ != (#[trigger] self.asked@[b])@ by {
                assert(c@[a]@ != c@[b]@);
            }
            assert forall|i: int| 0 <= i < self.asked.len() implies (#[trigger] self.asked@[i])@.len() == k && ascending(self.asked@[i]@) by {
                assert(self.asked@[i]@ == c@[i]@);
            }
        }
        CoordinatorStep::Count { k, cands: c }
    }
}

} // verus!
