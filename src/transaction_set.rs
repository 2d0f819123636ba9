//! The transactional database: transactions of ascending item ids, their
//! item cardinality and total size, and its even partition over ranks.
use vstd::prelude::*;
use crate::itemset::{ascending, db_ascending, lemma_support_append, support};

verus! {

/// The transactions as item sequences.
pub open spec fn db_of(ts: Seq<Vec<usize>>) -> Seq<Seq<usize>> {
    Seq::new(ts.len(), |j: int| ts[j]@)
}

/// The sum of the transactions' lengths.
pub open spec fn total_len(db: Seq<Seq<usize>>) -> nat
    decreases db.len(),
{
    if db.len() == 0 {
        0
    } else {
        total_len(db.drop_last()) + db.last().len()
    }
}

/// Every item of every transaction is below `m`.
pub open spec fn items_below(db: Seq<Seq<usize>>, m: nat) -> bool {
    forall|j: int, i: int| 0 <= j < db.len() && 0 <= i < db[j].len() ==> #[trigger] db[j][i] < m
}

/// One more than the largest item of `t`, or 0 for an empty `t`.
pub open spec fn item_bound(t: Seq<usize>) -> nat
    decreases t.len(),
{
    if t.len() == 0 {
        0
    } else {
        let b = item_bound(t.drop_last());
        if t.last() + 1 > b {
            (t.last() + 1) as nat
        } else {
            b
        }
    }
}

/// Where part `i` of `n` transactions split over `ranks` parts begins: every
/// part holds `n / ranks` transactions, and the last one the remainder too.
pub open spec fn part_begin(n: nat, ranks: nat, i: nat) -> nat {
    i * (n / ranks)
}

/// Where part `i` ends.
pub open spec fn part_end(n: nat, ranks: nat, i: nat) -> nat {
    if i + 1 >= ranks {
        n
    } else {
        (i + 1) * (n / ranks)
    }
}

/// Part `i` of `db` split over `ranks` parts.
pub open spec fn part(db: Seq<Seq<usize>>, ranks: nat, i: nat) -> Seq<Seq<usize>> {
    db.subrange(
        part_begin(db.len(), ranks, i) as int,
        part_end(db.len(), ranks, i) as int,
    )
}

/// The summed support of `s` over the first `m` parts.
pub open spec fn parts_support(db: Seq<Seq<usize>>, ranks: nat, m: nat, s: Seq<usize>) -> nat
    decreases m,
{
    if m == 0 {
        0
    } else {
        parts_support(db, ranks, (m - 1) as nat, s) + support(part(db, ranks, (m - 1) as nat), s)
    }
}

proof fn lemma_part_bounds(n: nat, ranks: nat, i: nat)
    requires
        ranks > 0,
        i < ranks,
    ensures
        part_begin(n, ranks, i) <= part_end(n, ranks, i) <= n,
        i + 1 < ranks ==> part_end(n, ranks, i) == part_begin(n, ranks, i + 1),
{
    let size = n / ranks;
    assert(ranks * size <= n) by (nonlinear_arith)
        requires
            size == n / ranks,
            ranks > 0,
    ;
    assert(i * size <= (i + 1) * size) by (nonlinear_arith);
    assert(i * size <= ranks * size) by (nonlinear_arith)
        requires
            i < ranks,
    ;
    if i + 1 < ranks {
        assert((i + 1) * size <= ranks * size) by (nonlinear_arith)
            requires
                i + 1 < ranks,
        ;
    }
}

/// The parts of an even partition, summed, give back the support in the
/// whole database: the partial counts of the workers add up to the count a
/// single process would make.
pub proof fn lemma_partition_support(db: Seq<Seq<usize>>, ranks: nat, s: Seq<usize>)
    requires
        ranks > 0,
    ensures
        parts_support(db, ranks, ranks, s) == support(db, s),
{
    lemma_parts_prefix(db, ranks, ranks, s);
    assert(db.take(db.len() as int) =~= db);
}

proof fn lemma_parts_prefix(db: Seq<Seq<usize>>, ranks: nat, m: nat, s: Seq<usize>)
    requires
        ranks > 0,
        m <= ranks,
    ensures
        m > 0 ==> parts_support(db, ranks, m, s) == support(
            db.take(part_end(db.len(), ranks, (m - 1) as nat) as int),
            s,
        ),
    decreases m,
{
    if m > 0 {
        let n = db.len();
        let i = (m - 1) as nat;
        lemma_part_bounds(n, ranks, i);
        if m == 1 {
            assert(part_begin(n, ranks, 0) == 0);
            assert(db.take(part_end(n, ranks, 0) as int) =~= part(db, ranks, 0));
            assert(parts_support(db, ranks, 0, s) == 0);
        } else {
            lemma_parts_prefix(db, ranks, i, s);
            lemma_part_bounds(n, ranks, (i - 1) as nat);
            let a = db.take(part_end(n, ranks, (i - 1) as nat) as int);
            let b = part(db, ranks, i);
            assert(a + b =~= db.take(part_end(n, ranks, i) as int));
            lemma_support_append(a, b, s);
        }
    }
}

/// A transactional database: its transactions, its item cardinality (items
/// are below it) and its total size (the sum of the transactions' lengths).
#[derive(Debug)]
pub struct TransactionSet {
    pub transactions: Vec<Vec<usize>>,
    pub num_items: usize,
    pub size: usize,
}

impl View for TransactionSet {
    type V = Seq<Seq<usize>>;

    open spec fn view(&self) -> Seq<Seq<usize>> {
        db_of(self.transactions@)
    }
}

impl TransactionSet {
    /// Transactions are strictly ascending, items are below the cardinality,
    /// and the size is the total length.
    pub open spec fn wf(&self) -> bool {
        &&& db_ascending(self@)
        &&& items_below(self@, self.num_items as nat)
        &&& self.size == total_len(self@)
    }

    /// A database of the given transactions and item cardinality; its size is
    /// computed.
    pub fn new(transactions: Vec<Vec<usize>>, num_items: usize) -> (r: TransactionSet)
        requires
            total_len(db_of(transactions@)) <= usize::MAX,
        ensures
            r.transactions == transactions,
            r.num_items == num_items,
            r.size == total_len(r@),
    {
        let ghost db = db_of(transactions@);
        let mut size: usize = 0;
        let mut j: usize = 0;
        while j < transactions.len()
            invariant
                j <= transactions.len(),
                db == db_of(transactions@),
                total_len(db) <= usize::MAX,
                size == total_len(db.take(j as int)),
            decreases transactions.len() - j,
        {
            proof {
                assert(db.take(j + 1).drop_last() =~= db.take(j as int));
                lemma_total_len_prefix(db, j + 1);
            }
            size = size + transactions[j].len();
            j = j + 1;
        }
        assert(db.take(j as int) =~= db);
        TransactionSet { transactions, num_items, size }
    }

    /// Appends a transaction, unless it is empty, and raises the item
    /// cardinality to cover its items.
    pub fn add_transaction(&mut self, transaction: Vec<usize>)
        requires
            old(self).size + transaction.len() <= usize::MAX,
            forall|i: int| 0 <= i < transaction.len() ==> transaction@[i] < usize::MAX,
        ensures
            transaction.len() == 0 ==> *final(self) == *old(self),
            transaction.len() > 0 ==> final(self).transactions@ == old(self).transactions@.push(
                transaction,
            ) && final(self).size == old(self).size + transaction.len() && final(self).num_items
                == if item_bound(transaction@) > old(self).num_items {
                item_bound(transaction@)
            } else {
                old(self).num_items as nat
            },
            old(self).wf() && ascending(transaction@) ==> final(self).wf(),
    {
        if transaction.len() == 0 {
            return;
        }
        let bound = bound_of(&transaction);
        let ghost t = transaction@;
        self.size = self.size + transaction.len();
        self.transactions.push(transaction);
        if bound > self.num_items {
            self.num_items = bound;
        }
        proof {
            let db = self@;
            let odb = old(self)@;
            assert(db =~= odb.push(t));
            assert(db.drop_last() =~= odb);
            if old(self).wf() && ascending(t) {
                lemma_item_bound(t);
                assert forall|j: int, i: int|
                    0 <= j < db.len() && 0 <= i < db[j].len() implies #[trigger] db[j][i]
                    < self.num_items by {
                    if j < odb.len() {
                        assert(db[j] == odb[j]);
                    }
                }
            }
        }
    }

    /// Splits the database into `ranks` parts of equal size, the last part
    /// taking the remainder.
    pub fn partition(&self, ranks: usize) -> (r: TransactionSetPartitioner)
        requires
            ranks > 0,
            self.size == total_len(self@),
        ensures
            r.wf(),
            r.ranks() == ranks,
            r.done() == 0,
            r.source() == *self,
    {
        TransactionSetPartitioner::new(ranks, self)
    }

    /// The transactions.
    pub fn iter(&self) -> (r: &Vec<Vec<usize>>)
        ensures
            r == &self.transactions,
    {
        &self.transactions
    }
}

/// Total length of a prefix, one transaction at a time.
proof fn lemma_total_len_prefix(db: Seq<Seq<usize>>, j: int)
    requires
        0 < j <= db.len(),
    ensures
        total_len(db.take(j)) == total_len(db.take(j - 1)) + db[j - 1].len(),
        total_len(db.take(j)) <= total_len(db),
    decreases db.len() - j,
{
    assert(db.take(j).drop_last() =~= db.take(j - 1));
    if j < db.len() {
        lemma_total_len_prefix(db, j + 1);
    } else {
        assert(db.take(j) =~= db);
    }
}

/// Total length adds up over concatenation.
proof fn lemma_total_len_append(a: Seq<Seq<usize>>, b: Seq<Seq<usize>>)
    ensures
        total_len(a + b) == total_len(a) + total_len(b),
    decreases b.len(),
{
    if b.len() == 0 {
        assert(a + b =~= a);
    } else {
        assert((a + b).drop_last() =~= a + b.drop_last());
        lemma_total_len_append(a, b.drop_last());
    }
}

/// A stretch of the database is no longer in total than the whole.
proof fn lemma_total_len_sub(db: Seq<Seq<usize>>, b: int, e: int)
    requires
        0 <= b <= e <= db.len(),
    ensures
        total_len(db.subrange(b, e)) <= total_len(db),
{
    lemma_total_len_append(db.take(b), db.subrange(b, e));
    lemma_total_len_append(db.take(b) + db.subrange(b, e), db.skip(e));
    assert(db.take(b) + db.subrange(b, e) + db.skip(e) =~= db);
}

/// `item_bound` exceeds every item.
proof fn lemma_item_bound(t: Seq<usize>)
    ensures
        forall|i: int| 0 <= i < t.len() ==> t[i] < item_bound(t),
    decreases t.len(),
{
    if t.len() > 0 {
        lemma_item_bound(t.drop_last());
        assert forall|i: int| 0 <= i < t.len() implies t[i] < item_bound(t) by {
            if i < t.len() - 1 {
                assert(t[i] == t.drop_last()[i]);
            }
        }
    }
}

/// One more than the largest item of `t`, or 0.
fn bound_of(t: &Vec<usize>) -> (r: usize)
    requires
        forall|i: int| 0 <= i < t.len() ==> t@[i] < usize::MAX,
    ensures
        r == item_bound(t@),
{
    let mut b: usize = 0;
    let mut i: usize = 0;
    while i < t.len()
        invariant
            i <= t.len(),
            forall|m: int| 0 <= m < t.len() ==> t@[m] < usize::MAX,
            b == item_bound(t@.take(i as int)),
        decreases t.len() - i,
    {
        assert(t@.take(i + 1).drop_last() =~= t@.take(i as int));
        if t[i] + 1 > b {
            b = t[i] + 1;
        }
        i = i + 1;
    }
    assert(t@.take(i as int) =~= t@);
    b
}

/// Hands out the parts of a database one at a time.
pub struct TransactionSetPartitioner<'a> {
    size: usize,
    original: &'a TransactionSet,
    curr: usize,
}

impl<'a> TransactionSetPartitioner<'a> {
    /// No more parts are handed out than asked for.
    pub closed spec fn wf(&self) -> bool {
        &&& self.size > 0
        &&& self.curr <= self.size
        &&& self.original.size == total_len(self.original@)
    }

    /// The number of parts.
    pub closed spec fn ranks(&self) -> nat {
        self.size as nat
    }

    /// The number of parts handed out so far.
    pub closed spec fn done(&self) -> nat {
        self.curr as nat
    }

    /// The database being split.
    pub closed spec fn source(&self) -> TransactionSet {
        *self.original
    }

    /// A partitioner of `original` into `ranks` parts.
    pub fn new(ranks: usize, original: &'a TransactionSet) -> (r: Self)
        requires
            ranks > 0,
            original.size == total_len(original@),
        ensures
            r.wf(),
            r.ranks() == ranks,
            r.done() == 0,
            r.source() == *original,
    {
        TransactionSetPartitioner { size: ranks, original, curr: 0 }
    }

    /// The next part, with the item cardinality of the whole, or `None` once
    /// all parts were handed out.
    pub fn next(&mut self) -> (r: Option<TransactionSet>)
        requires
            old(self).wf(),
        ensures
            final(self).wf(),
            final(self).ranks() == old(self).ranks(),
            final(self).source() == old(self).source(),
            old(self).done() >= old(self).ranks() ==> r.is_none() && final(self).done()
                == old(self).done(),
            old(self).done() < old(self).ranks() ==> final(self).done() == old(self).done() + 1
                && (r matches Some(t) && t@ == part(
                old(self).source()@,
                old(self).ranks(),
                old(self).done(),
            ) && t.num_items == old(self).source().num_items && t.size == total_len(t@)),
    {
        if self.curr >= self.size {
            return None;
        }
        let n = self.original.transactions.len();
        let size = n / self.size;
        proof {
            lemma_part_bounds(n as nat, self.size as nat, self.curr as nat);
        }
        let begin = self.curr * size;
        let end = if self.curr + 1 >= self.size {
            n
        } else {
            (self.curr + 1) * size
        };
        let mut v: Vec<Vec<usize>> = Vec::new();
        let mut j: usize = begin;
        let ghost db = self.original@;
        let mut total: usize = 0;
        while j < end
            invariant
                begin <= j <= end <= n,
                n == self.original.transactions.len(),
                db == self.original@,
                db_of(v@) == db.subrange(begin as int, j as int),
                total == total_len(db_of(v@)),
                total_len(db) <= usize::MAX,
            decreases end - j,
        {
            proof {
                lemma_total_len_sub(db, begin as int, j + 1);
                assert(db.subrange(begin as int, j + 1).drop_last() =~= db.subrange(begin as int, j as int));
            }
            let t = self.original.transactions[j].clone();
            let ghost v0 = v@;
            total = total + t.len();
            v.push(t);
            proof {
                assert(db_of(v@) =~= db.subrange(begin as int, j + 1));
                assert(db_of(v@).drop_last() =~= db_of(v0));
            }
            j = j + 1;
        }
        self.curr = self.curr + 1;
        let num_items = self.original.num_items;
        let r = TransactionSet { transactions: v, num_items, size: total };
        Some(r)
    }
}

} // verus!
