//! AprioriTID: candidates are kept in one growing vector with links to the
//! two candidates they were joined from and to those joined from them, and
//! each transaction is rewritten as the indices of the candidates it holds.
use vstd::prelude::*;
use crate::apriori::{
    distinct,
    apriori_pass_one_counter, emit, frequent_any, frequent_of, lemma_ascending_len,
    lemma_level_step, lemma_no_longer, listed, lemma_contains_single,
};
use crate::itemset::{
    contains_sorted, ascending, contains_all, lemma_support_bound, lemma_support_step, support,
    without,
};
use crate::storage::{candidate, joinable, joined, join_pair, lemma_joined, lemma_joined_parts, lemma_split, same_prefix, TrieSet};
use crate::transaction_set::TransactionSet;

verus! {

/// A candidate itemset with its count, the indices of the two candidates it
/// was joined from, and the indices of the candidates joined from it (as
/// first generator).
#[derive(Debug)]
pub struct CandidateID {
    generators: (usize, usize),
    extensions: Vec<usize>,
    count: u64,
    items: Vec<usize>,
}

impl CandidateID {
    /// The itemset.
    pub closed spec fn items_spec(&self) -> Seq<usize> {
        self.items@
    }

    /// The generators' indices.
    pub closed spec fn generators_spec(&self) -> (usize, usize) {
        self.generators
    }

    /// The extensions' indices.
    pub closed spec fn extensions_spec(&self) -> Seq<usize> {
        self.extensions@
    }

    /// The count.
    pub closed spec fn count_spec(&self) -> u64 {
        self.count
    }

    /// A candidate for `items` joined from `generators`, with count 0 and no
    /// extensions yet.
    pub fn new(items: Vec<usize>, generators: (usize, usize)) -> (r: CandidateID)
        ensures
            r.items_spec() == items@,
            r.generators_spec() == generators,
            r.count_spec() == 0,
            r.extensions_spec() == Seq::<usize>::empty(),
    {
        CandidateID { items, generators, extensions: Vec::new(), count: 0 }
    }

    /// The indices of the two candidates this one was joined from.
    pub fn generators(&self) -> (r: (usize, usize))
        ensures
            r == self.generators_spec(),
    {
        self.generators
    }

    /// The indices of the candidates joined from this one.
    pub fn extensions(&self) -> (r: &Vec<usize>)
        ensures
            r@ == self.extensions_spec(),
    {
        &self.extensions
    }

    /// The number of transactions counted as holding this candidate.
    pub fn count(&self) -> (r: u64)
        ensures
            r == self.count_spec(),
    {
        self.count
    }

    /// The itemset.
    pub fn items(&self) -> (r: &[usize])
        ensures
            r@ == self.items_spec(),
    {
        self.items.as_slice()
    }

    /// Sets the count.
    pub fn set_count(&mut self, count: u64)
        ensures
            final(self).count_spec() == count,
            final(self).items_spec() == old(self).items_spec(),
            final(self).generators_spec() == old(self).generators_spec(),
            final(self).extensions_spec() == old(self).extensions_spec(),
    {
        self.count = count;
    }
}

/// Every candidate of the window `[s, e)` of `c` has an ascending itemset of
/// length `k` over items below `m`.
pub open spec fn window_shape(c: Seq<CandidateID>, s: int, e: int, k: nat, m: nat) -> bool {
    &&& 0 <= s <= e <= c.len()
    &&& forall|x: int|
        s <= x < e ==> (#[trigger] c[x]).items_spec().len() == k && ascending(c[x].items_spec())
            && forall|i: int| 0 <= i < k ==> #[trigger] c[x].items_spec()[i] < m
}

/// Entry `S` of the transformed database stands for transaction `t`: it
/// lists, once each, exactly the window candidates that `t` holds.
pub open spec fn entry_ok(c: Seq<CandidateID>, s: int, e: int, entry: Seq<usize>, t: Seq<usize>) -> bool {
    &&& entry.no_duplicates()
    &&& forall|x: usize| #[trigger]
        entry.contains(x) <==> (s <= x < e && contains_all(t, c[x as int].items_spec()))
}

/// The transformed database `v`, whose entry `j` stands for transaction
/// `tids[j]`, lists exactly the window candidates held by each transaction;
/// the transactions left out hold none.
pub open spec fn transformed_ok(
    c: Seq<CandidateID>,
    s: int,
    e: int,
    v: Seq<Seq<usize>>,
    tids: Seq<int>,
    db: Seq<Seq<usize>>,
) -> bool {
    &&& tids.len() == v.len()
    &&& forall|a: int, b: int| 0 <= a < b < tids.len() ==> tids[a] < tids[b]
    &&& forall|j: int| 0 <= j < tids.len() ==> 0 <= #[trigger] tids[j] < db.len()
    &&& forall|j: int| 0 <= j < v.len() ==> entry_ok(c, s, e, #[trigger] v[j], db[tids[j]])
    &&& forall|t: int|
        0 <= t < db.len() && !tids.contains(t) ==> forall|x: int|
            s <= x < e ==> !contains_all(#[trigger] db[t], c[x].items_spec())
}

/// What a change of counts alone leaves as it was.
pub proof fn lemma_same_but_counts(a: Candidates, b: Candidates)
    requires
        a.same_but_counts(b),
    ensures
        a.tree_wf() == b.tree_wf(),
        a.tree_spec() == b.tree_spec(),
        a.sup_spec() == b.sup_spec(),
        a.level() == b.level(),
        a.start() == b.start(),
        a.end() == b.end(),
        a.prev() == b.prev(),
        a.cands().len() == b.cands().len(),
        forall|x: int| 0 <= x < a.cands().len() ==> (#[trigger] a.cands()[x]).items_spec() == b.cands()[x].items_spec()
            && a.cands()[x].generators_spec() == b.cands()[x].generators_spec()
            && a.cands()[x].extensions_spec() == b.cands()[x].extensions_spec(),
{
}

/// The count of every window candidate is its support.
pub open spec fn counts_ok(c: Seq<CandidateID>, s: int, e: int, db: Seq<Seq<usize>>) -> bool {
    forall|x: int| s <= x < e ==> (#[trigger] c[x]).count_spec() == support(db, c[x].items_spec())
}

/// The window `[s, e)` was joined from the window `[ps, s)`: each candidate's
/// itemset is the join of its generators', both in the earlier window, and
/// each earlier candidate lists as extensions exactly the new candidates it
/// is a generator of.
pub open spec fn links_ok(c: Seq<CandidateID>, ps: int, s: int, e: int, k: nat) -> bool {
    &&& forall|y: int|
        s <= y < e ==> ps <= (#[trigger] c[y]).generators_spec().0 < s && ps <= c[y].generators_spec().1 < s
            && joinable(c[c[y].generators_spec().0 as int].items_spec(), c[c[y].generators_spec().1 as int].items_spec(), k)
            && c[y].items_spec() == joined(
            c[c[y].generators_spec().0 as int].items_spec(),
            c[c[y].generators_spec().1 as int].items_spec(),
            k,
        )
    &&& forall|x: int|
        ps <= x < s ==> (#[trigger] c[x]).extensions_spec().no_duplicates() && forall|y: usize|
            #[trigger] c[x].extensions_spec().contains(y) <==> (s <= y < e && (c[y as int].generators_spec().0 == x
                || c[y as int].generators_spec().1 == x))
}

/// The generator pair `g` comes before position (`x`, `x2`) in the join's
/// pairwise sweep.
pub open spec fn gen_before(g: (usize, usize), x: int, x2: int) -> bool {
    g.0 < x || (g.0 == x && g.1 < x2)
}

/// No two candidates of the window `[s, e)` hold the same itemset.
pub open spec fn window_distinct(c: Seq<CandidateID>, s: int, e: int) -> bool {
    forall|a: int, b: int| s <= a < b < e ==> (#[trigger] c[a]).items_spec() != (#[trigger] c[b]).items_spec()
}

/// An itemset joined from two generators is held by a transaction exactly
/// when both generators are.
proof fn lemma_joined_contained(a: Seq<usize>, b: Seq<usize>, k: nat, t: Seq<usize>)
    requires
        k >= 2,
        joinable(a, b, k),
    ensures
        contains_all(t, joined(a, b, k)) <==> (contains_all(t, a) && contains_all(t, b)),
{
    let c = joined(a, b, k);
    if contains_all(t, c) {
        assert forall|i: int| 0 <= i < a.len() implies t.contains(#[trigger] a[i]) by {
            if i < k - 2 {
                assert(c[i] == a[i]);
            } else if a[k - 2] < b[k - 2] {
                assert(c[k - 2] == a[i]);
            } else {
                assert(c[k - 1] == a[i]);
            }
        }
        assert forall|i: int| 0 <= i < b.len() implies t.contains(#[trigger] b[i]) by {
            if i < k - 2 {
                assert(b.take(k - 2)[i] == a.take(k - 2)[i]);
                assert(c[i] == b[i]);
            } else if a[k - 2] < b[k - 2] {
                assert(c[k - 1] == b[i]);
            } else {
                assert(c[k - 2] == b[i]);
            }
        }
    }
    if contains_all(t, a) && contains_all(t, b) {
        assert forall|i: int| 0 <= i < c.len() implies t.contains(#[trigger] c[i]) by {
            if i < k - 2 {
                assert(c[i] == a[i]);
            } else if (i == k - 2) == (a[k - 2] < b[k - 2]) {
                assert(c[i] == a[k - 2]);
            } else {
                assert(c[i] == b[k - 2]);
            }
        }
    }
}

/// Support does not change over transactions that do not hold the itemset.
proof fn lemma_support_gap(db: Seq<Seq<usize>>, a: int, b: int, s: Seq<usize>)
    requires
        0 <= a <= b <= db.len(),
        forall|t: int| a <= t < b ==> !contains_all(#[trigger] db[t], s),
    ensures
        support(db.take(b), s) == support(db.take(a), s),
    decreases b - a,
{
    if a < b {
        lemma_support_gap(db, a, b - 1, s);
        lemma_support_step(db, b - 1, s);
    }
}


/// A sequence with one more item holds what it held and that item.
proof fn lemma_push_contains(q: Seq<usize>, y: usize, z: usize)
    ensures
        q.push(y).contains(z) <==> (q.contains(z) || z == y),
{
    if q.push(y).contains(z) {
        let a = choose|a: int| 0 <= a < q.len() + 1 && #[trigger] q.push(y)[a] == z;
        if a < q.len() {
            assert(q[a] == z);
        }
    }
    if q.contains(z) {
        let a = choose|a: int| 0 <= a < q.len() && #[trigger] q[a] == z;
        assert(q.push(y)[a] == z);
    }
    if z == y {
        assert(q.push(y)[q.len() as int] == z);
    }
}

/// Whether `x` occurs in `v`.
fn vec_contains(v: &Vec<usize>, x: usize) -> (r: bool)
    ensures
        r == v@.contains(x),
{
    let mut i: usize = 0;
    while i < v.len()
        invariant
            i <= v.len(),
            forall|m: int| 0 <= m < i ==> v@[m] != x,
        decreases v.len() - i,
    {
        if v[i] == x {
            return true;
        }
        i = i + 1;
    }
    false
}

/// The next-level entry of one transaction: the extensions of its candidates
/// whose two generators it holds both, each listed once.
fn step_entry(
    cands: &Vec<CandidateID>,
    set: &Vec<usize>,
    Ghost(ps): Ghost<int>,
    Ghost(s): Ghost<int>,
    Ghost(e): Ghost<int>,
    Ghost(k): Ghost<nat>,
) -> (r: Vec<usize>)
    requires
        0 <= ps <= s <= e <= cands.len(),
        links_ok(cands@, ps, s, e, k),
        set@.no_duplicates(),
        forall|i: int| 0 <= i < set.len() ==> ps <= #[trigger] set@[i] < s,
    ensures
        r@.no_duplicates(),
        forall|y: usize| #[trigger] r@.contains(y) <==> (s <= y < e
            && set@.contains(cands@[y as int].generators_spec().0)
            && set@.contains(cands@[y as int].generators_spec().1)),
{
    let mut r: Vec<usize> = Vec::new();
    let mut i: usize = 0;
    while i < set.len()
        invariant
            0 <= ps <= s <= e <= cands.len(),
            links_ok(cands@, ps, s, e, k),
            set@.no_duplicates(),
            forall|i: int| 0 <= i < set.len() ==> ps <= #[trigger] set@[i] < s,
            i <= set.len(),
            r@.no_duplicates(),
            forall|y: usize| #[trigger] r@.contains(y) <==> (s <= y < e
                && set@.take(i as int).contains(cands@[y as int].generators_spec().0)
                && set@.contains(cands@[y as int].generators_spec().1)),
        decreases set.len() - i,
    {
        let x = set[i];
        let ext = cands[x].extensions();
        let mut m: usize = 0;
        proof {
            assert(ps <= x < s);
            assert(cands@[x as int].extensions_spec().no_duplicates());
        }
        while m < ext.len()
            invariant
                0 <= ps <= s <= e <= cands.len(),
                links_ok(cands@, ps, s, e, k),
                set@.no_duplicates(),
                forall|i: int| 0 <= i < set.len() ==> ps <= #[trigger] set@[i] < s,
                i < set.len(),
                x == set@[i as int],
                ps <= x < s,
                ext@ == cands@[x as int].extensions_spec(),
                m <= ext.len(),
                r@.no_duplicates(),
                forall|y: usize| #[trigger] r@.contains(y) <==> (s <= y < e
                    && set@.contains(cands@[y as int].generators_spec().1)
                    && (set@.take(i as int).contains(cands@[y as int].generators_spec().0)
                        || (ext@.take(m as int).contains(y) && cands@[y as int].generators_spec().0 == x))),
            decreases ext.len() - m,
        {
            let y = ext[m];
            proof {
                assert(ext@.contains(y));
                assert(s <= y < e);
            }
            let g = cands[y].generators();
            let other = g.1;
            let ghost r0 = r@;
            if g.0 == x && vec_contains(set, other) {
                proof {
                    if r0.contains(y) {
                        if set@.take(i as int).contains(x) {
                            let a = choose|a: int| 0 <= a < i && #[trigger] set@.take(i as int)[a] == x;
                            assert(set@[a] == set@[i as int]);
                        } else {
                            let a = choose|a: int| 0 <= a < m && #[trigger] ext@.take(m as int)[a] == y;
                            assert(ext@[a] == ext@[m as int]);
                        }
                    }
                }
                r.push(y);
            }
            proof {
                assert forall|z: usize| #[trigger] r@.contains(z) <==> (s <= z < e
                    && set@.contains(cands@[z as int].generators_spec().1)
                    && (set@.take(i as int).contains(cands@[z as int].generators_spec().0)
                        || (ext@.take(m + 1).contains(z) && cands@[z as int].generators_spec().0 == x))) by {
                    assert(ext@.take(m + 1) =~= ext@.take(m as int).push(y));
                    lemma_push_contains(ext@.take(m as int), y, z);
                    lemma_push_contains(r0, y, z);
                }
                if r@ != r0 {
                    assert(r@ == r0.push(y));
                    assert(r@.no_duplicates()) by {
                        assert forall|a: int, b: int| 0 <= a < b < r@.len() implies r@[a] != r@[b] by {
                            if b == r0.len() {
                                assert(r0.contains(r0[a]));
                            }
                        }
                    }
                }
            }
            m = m + 1;
        }
        proof {
            assert(ext@.take(ext.len() as int) =~= ext@);
            assert(set@.take(i + 1) =~= set@.take(i as int).push(x));
            assert forall|y: usize| #[trigger] r@.contains(y) <==> (s <= y < e
                && set@.take(i + 1).contains(cands@[y as int].generators_spec().0)
                && set@.contains(cands@[y as int].generators_spec().1)) by {
                lemma_push_contains(set@.take(i as int), x, cands@[y as int].generators_spec().0);
                if s <= y < e && cands@[y as int].generators_spec().0 == x {
                    assert(ext@.contains(y));
                }
            }
        }
        i = i + 1;
    }
    assert(set@.take(set.len() as int) =~= set@);
    r
}


/// Where no candidate of the window `[ps, s)` is held by `t`, neither is any
/// candidate joined from them.
proof fn lemma_none_held(c: Seq<CandidateID>, ps: int, s: int, e: int, k: nat, t: Seq<usize>)
    requires
        k >= 2,
        links_ok(c, ps, s, e, k),
        forall|x: int| ps <= x < s ==> !contains_all(t, #[trigger] c[x].items_spec()),
    ensures
        forall|y: int| s <= y < e ==> !contains_all(t, #[trigger] c[y].items_spec()),
{
    assert forall|y: int| s <= y < e implies !contains_all(t, #[trigger] c[y].items_spec()) by {
        let g = c[y].generators_spec();
        lemma_joined_contained(c[g.0 as int].items_spec(), c[g.1 as int].items_spec(), k, t);
        assert(!contains_all(t, c[g.0 as int].items_spec()));
    }
}

/// The transformed database: for each transaction that holds at least one
/// candidate of the current level, the indices of those candidates.
pub struct TransformedDatabase {
    v: Vec<Vec<usize>>,
    tids: Ghost<Seq<int>>,
    db: Ghost<Seq<Seq<usize>>>,
}

impl TransformedDatabase {
    /// The entries.
    pub closed spec fn entries(&self) -> Seq<Seq<usize>> {
        Seq::new(self.v@.len(), |j: int| self.v@[j]@)
    }

    /// The transaction each entry stands for.
    pub closed spec fn tids(&self) -> Seq<int> {
        self.tids@
    }

    /// The database the entries were built from.
    pub closed spec fn db(&self) -> Seq<Seq<usize>> {
        self.db@
    }

    /// One transaction per entry, and a database whose size fits `usize`.
    pub closed spec fn wf(&self) -> bool {
        &&& self.tids@.len() == self.v.len()
        &&& self.db@.len() <= usize::MAX
    }

    /// An empty transformed database.
    pub fn new() -> (r: TransformedDatabase)
        ensures
            r.wf(),
            r.entries() == Seq::<Seq<usize>>::empty(),
            r.tids() == Seq::<int>::empty(),
            r.db() == Seq::<Seq<usize>>::empty(),
    {
        let r = TransformedDatabase { v: Vec::new(), tids: Ghost(Seq::empty()), db: Ghost(Seq::empty()) };
        assert(r.entries() =~= Seq::<Seq<usize>>::empty());
        r
    }

    /// The first level's transformed database: each transaction, as the
    /// indices of the single-item candidates, which are its items.
    pub fn from(data: &TransactionSet) -> (r: TransformedDatabase)
        ensures
            r.wf(),
            r.db() == data@,
            r.tids().len() == r.entries().len(),
            forall|a: int, b: int| 0 <= a < b < r.tids().len() ==> r.tids()[a] < r.tids()[b],
            forall|j: int| 0 <= j < r.tids().len() ==> 0 <= #[trigger] r.tids()[j] < data@.len()
                && r.entries()[j] == data@[r.tids()[j]] && r.entries()[j].len() > 0,
            forall|t: int| 0 <= t < data@.len() && !r.tids().contains(t) ==> (#[trigger] data@[t]).len() == 0,
    {
        let ghost db = data@;
        let mut v: Vec<Vec<usize>> = Vec::new();
        let ghost mut tids: Seq<int> = Seq::empty();
        let mut j: usize = 0;
        while j < data.transactions.len()
            invariant
                db == data@,
                j <= data.transactions.len(),
                v.len() == tids.len(),
                forall|a: int, b: int| 0 <= a < b < tids.len() ==> tids[a] < tids[b],
                forall|a: int| 0 <= a < tids.len() ==> 0 <= #[trigger] tids[a] < j
                    && v@[a]@ == db[tids[a]] && v@[a]@.len() > 0,
                forall|t: int| 0 <= t < j && !tids.contains(t) ==> (#[trigger] db[t]).len() == 0,
            decreases data.transactions.len() - j,
        {
            let ghost t0 = tids;
            let ghost v0 = v@;
            if data.transactions[j].len() > 0 {
                v.push(data.transactions[j].clone());
                proof {
                    tids = tids.push(j as int);
                }
            }
            proof {
                assert forall|a: int| 0 <= a < tids.len() implies 0 <= #[trigger] tids[a] < j + 1
                    && v@[a]@ == db[tids[a]] && v@[a]@.len() > 0 by {
                    if a < t0.len() {
                        assert(v@[a] == v0[a]);
                        assert(tids[a] == t0[a]);
                    }
                }
                assert forall|t: int| 0 <= t < j + 1 && !tids.contains(t) implies (#[trigger] db[t]).len() == 0 by {
                    if t < j {
                        if t0.contains(t) {
                            let a = choose|a: int| 0 <= a < t0.len() && t0[a] == t;
                            assert(tids[a] == t);
                        }
                    } else if tids.len() > t0.len() {
                        assert(tids[t0.len() as int] == t);
                    }
                }
            }
            j = j + 1;
        }
        let r = TransformedDatabase { v, tids: Ghost(tids), db: Ghost(db) };
        r
    }

    /// The number of entries.
    pub fn len(&self) -> (r: usize)
        ensures
            r == self.entries().len(),
    {
        self.v.len()
    }

    /// The counting step of one level: every entry becomes the next-level
    /// candidates held by its transaction (entries left empty are dropped),
    /// and every next-level candidate's count becomes the number of
    /// transactions that hold it.
    pub fn count(&self, c: &mut Candidates) -> (r: TransformedDatabase)
        requires
            self.wf(),
            old(c).level() >= 2,
            old(c).links(),
            old(c).fresh(),
            transformed_ok(old(c).cands(), old(c).prev(), old(c).start(), self.entries(), self.tids(), self.db()),
        ensures
            r.wf(),
            r.db() == self.db(),
            final(c).same_but_counts(*old(c)),
            counts_ok(final(c).cands(), final(c).start(), final(c).end(), self.db()),
            transformed_ok(final(c).cands(), final(c).start(), final(c).end(), r.entries(), r.tids(), self.db()),
            forall|x: int| 0 <= x < final(c).start() ==> (#[trigger] final(c).cands()[x]).count_spec() == old(c).cands()[x].count_spec(),
            forall|j: int| 0 <= j < r.entries().len() ==> (#[trigger] r.entries()[j]).len() > 0,
    {
        let ghost db = self.db@;
        let ghost tids = self.tids@;
        let ghost c0 = *c;
        let ghost cs = c.candidates@;
        let ghost ps = c.prev@;
        let ghost s = c.start as int;
        let ghost e = c.end as int;
        let ghost k = c.level@;
        let n = self.v.len();
        let mut out: Vec<Vec<usize>> = Vec::new();
        let ghost mut out_tids: Seq<int> = Seq::empty();
        let mut j: usize = 0;
        proof {
            let t0 = if 0 < n { tids[0] } else { db.len() as int };
            assert forall|t: int| 0 <= t < t0 implies !tids.contains(t) by {
                if tids.contains(t) {
                    let a = choose|a: int| 0 <= a < tids.len() && tids[a] == t;
                    if a > 0 {
                        assert(tids[0] < tids[a]);
                    }
                }
            }
            assert forall|y: int| s <= y < e implies (#[trigger] c.candidates@[y]).count_spec() == support(db.take(t0), c.candidates@[y].items_spec()) by {
                assert forall|t: int| 0 <= t < t0 implies !contains_all(#[trigger] db[t], cs[y].items_spec()) by {
                    assert(!tids.contains(t));
                    lemma_none_held(cs, ps, s, e, k, db[t]);
                }
                lemma_support_gap(db, 0, t0, cs[y].items_spec());
            }
            assert forall|t: int|
                0 <= t < t0 && !out_tids.contains(t) implies forall|y: int|
                    s <= y < e ==> !contains_all(#[trigger] db[t], cs[y].items_spec()) by {
                assert(!tids.contains(t));
                lemma_none_held(cs, ps, s, e, k, db[t]);
            }
        }
        while j < n
            invariant
                j <= n,
                n == self.v.len(),
                self.wf(),
                db == self.db@,
                tids == self.tids@,
                k >= 2,
                0 <= ps <= s <= e,
                e == c.candidates.len(),
                cs.len() == e,
                c.start == s,
                c.end == e,
                c.prev@ == ps,
                c.level@ == k,
                links_ok(cs, ps, s, e, k),
                transformed_ok(cs, ps, s, self.entries(), tids, db),
                c.same_but_counts(c0),
                c0.cands() == cs,
                forall|x: int| 0 <= x < e && !(s <= x < e) ==> (#[trigger] c.candidates@[x]).count_spec() == cs[x].count_spec(),
                forall|y: int| s <= y < e ==> (#[trigger] c.candidates@[y]).count_spec() == support(
                    db.take(if j < n { tids[j as int] } else { db.len() as int }),
                    cs[y].items_spec(),
                ),
                out_tids.len() == out.len(),
                forall|a: int, b: int| 0 <= a < b < out_tids.len() ==> out_tids[a] < out_tids[b],
                forall|a: int| 0 <= a < out_tids.len() ==> 0 <= #[trigger] out_tids[a] < (if j < n { tids[j as int] } else { db.len() as int }),
                forall|a: int| 0 <= a < out.len() ==> (#[trigger] out@[a])@.len() > 0,
                forall|a: int| 0 <= a < out.len() ==> entry_ok(cs, s, e, #[trigger] out@[a]@, db[out_tids[a]]),
                forall|t: int|
                    0 <= t < (if j < n { tids[j as int] } else { db.len() as int }) && !out_tids.contains(t) ==> forall|y: int|
                        s <= y < e ==> !contains_all(#[trigger] db[t], cs[y].items_spec()),
            decreases n - j,
        {
            let ghost t = tids[j as int];
            let ghost tn = if j + 1 < n { tids[j + 1] } else { db.len() as int };
            let set = &self.v[j];
            proof {
                assert(self.entries()[j as int] == set@);
                assert(entry_ok(cs, ps, s, set@, db[t]));
                assert forall|i: int| 0 <= i < set.len() implies ps <= #[trigger] set@[i] < s by {
                    assert(set@.contains(set@[i]));
                }
            }
            let next = step_entry(&c.candidates, set, Ghost(ps), Ghost(s), Ghost(e), Ghost(k));
            proof {
                assert forall|y: usize| #[trigger] next@.contains(y) <==> (s <= y < e && contains_all(db[t], cs[y as int].items_spec())) by {
                    if s <= y < e {
                        let g = cs[y as int].generators_spec();
                        lemma_joined_contained(cs[g.0 as int].items_spec(), cs[g.1 as int].items_spec(), k, db[t]);
                        assert(set@.contains(g.0) <==> contains_all(db[t], cs[g.0 as int].items_spec()));
                        assert(set@.contains(g.1) <==> contains_all(db[t], cs[g.1 as int].items_spec()));
                    }
                }
            }
            let mut m: usize = 0;
            while m < next.len()
                invariant
                    m <= next.len(),
                    next@.no_duplicates(),
                    forall|y: usize| #[trigger] next@.contains(y) <==> (s <= y < e && contains_all(db[t], cs[y as int].items_spec())),
                    0 <= t < db.len(),
                    db.len() <= usize::MAX,
                    e == c.candidates.len(),
                    cs.len() == e,
                    c.start == s,
                    c.end == e,
                    c.prev@ == ps,
                    c.level@ == k,
                    c.same_but_counts(c0),
                    c0.cands() == cs,
                    forall|x: int| 0 <= x < e && !(s <= x < e) ==> (#[trigger] c.candidates@[x]).count_spec() == cs[x].count_spec(),
                    forall|y: int| s <= y < e ==> (#[trigger] c.candidates@[y]).count_spec() == support(db.take(t), cs[y].items_spec())
                        + if next@.take(m as int).contains(y as usize) { 1nat } else { 0nat },
                decreases next.len() - m,
            {
                let y = next[m];
                proof {
                    assert(next@.contains(y));
                    lemma_support_bound(db.take(t), cs[y as int].items_spec());
                    if next@.take(m as int).contains(y) {
                        let a = choose|a: int| 0 <= a < m && #[trigger] next@.take(m as int)[a] == y;
                        assert(next@[a] == next@[m as int]);
                    }
                    assert(usize::MAX <= u64::MAX);
                }
                let ghost before = c.candidates@;
                let cnt = c.candidates[y].count;
                c.candidates[y].count = cnt + 1;
                proof {
                    assert(next@.take(m + 1) =~= next@.take(m as int).push(y));
                    assert forall|z: int| s <= z < e implies (#[trigger] c.candidates@[z]).count_spec() == support(db.take(t), cs[z].items_spec())
                        + if next@.take(m + 1).contains(z as usize) { 1nat } else { 0nat } by {
                        lemma_push_contains(next@.take(m as int), y, z as usize);
                        if z != y {
                            assert(c.candidates@[z] == before[z]);
                        }
                    }
                    assert forall|x: int| 0 <= x < e && !(s <= x < e) implies (#[trigger] c.candidates@[x]).count_spec() == cs[x].count_spec() by {
                        assert(c.candidates@[x] == before[x]);
                    }
                    assert(c.same_but_counts(c0)) by {
                        assert forall|x: int| 0 <= x < e implies (#[trigger] c.candidates@[x]).items_spec() == cs[x].items_spec() by {
                            if x != y {
                                assert(c.candidates@[x] == before[x]);
                            }
                        }
                    }
                }
                m = m + 1;
            }
            proof {
                assert(next@.take(next.len() as int) =~= next@);
                assert forall|tt: int| t < tt < tn implies !tids.contains(tt) by {
                    if tids.contains(tt) {
                        let a = choose|a: int| 0 <= a < tids.len() && tids[a] == tt;
                        if a <= j {
                            if a < j {
                                assert(tids[a] < tids[j as int]);
                            }
                        } else if a > j + 1 {
                            assert(tids[j + 1] < tids[a]);
                        }
                    }
                }
                assert forall|y: int| s <= y < e implies (#[trigger] c.candidates@[y]).count_spec() == support(db.take(tn), cs[y].items_spec()) by {
                    lemma_support_step(db, t, cs[y].items_spec());
                    assert forall|tt: int| t + 1 <= tt < tn implies !contains_all(#[trigger] db[tt], cs[y].items_spec()) by {
                        assert(!tids.contains(tt));
                        lemma_none_held(cs, ps, s, e, k, db[tt]);
                    }
                    lemma_support_gap(db, t + 1, tn, cs[y].items_spec());
                }
            }
            let ghost out0 = out@;
            let ghost ot0 = out_tids;
            if next.len() > 0 {
                out.push(next);
                proof {
                    out_tids = out_tids.push(t);
                }
            }
            proof {
                assert forall|a: int| 0 <= a < out.len() implies entry_ok(cs, s, e, #[trigger] out@[a]@, db[out_tids[a]]) by {
                    if a < out0.len() {
                        assert(out@[a] == out0[a]);
                    }
                }
                assert forall|tt: int|
                    0 <= tt < tn && !out_tids.contains(tt) implies forall|y: int|
                        s <= y < e ==> !contains_all(#[trigger] db[tt], cs[y].items_spec()) by {
                    if tt < t {
                        if ot0.contains(tt) {
                            let a = choose|a: int| 0 <= a < ot0.len() && ot0[a] == tt;
                            assert(out_tids[a] == tt);
                        }
                    } else if tt == t {
                        if next@.len() > 0 {
                            assert(out_tids[ot0.len() as int] == tt);
                        } else {
                            assert forall|y: int| s <= y < e implies !contains_all(#[trigger] db[tt], cs[y].items_spec()) by {
                                if contains_all(db[tt], cs[y].items_spec()) {
                                    assert(next@.contains(y as usize));
                                }
                            }
                        }
                    } else {
                        assert(!tids.contains(tt));
                        lemma_none_held(cs, ps, s, e, k, db[tt]);
                    }
                }
            }
            j = j + 1;
        }
        let r = TransformedDatabase { v: out, tids: Ghost(out_tids), db: Ghost(db) };
        proof {
            assert forall|j: int| 0 <= j < r.entries().len() implies (#[trigger] r.entries()[j]).len() > 0 by {
                assert(r.entries()[j] == out@[j]@);
            }
            assert forall|a: int| 0 <= a < r.v.len() implies entry_ok(cs, s, e, #[trigger] r.entries()[a], db[out_tids[a]]) by {
                assert(r.entries()[a] == out@[a]@);
            }
            assert forall|t: int|
                0 <= t < db.len() && !out_tids.contains(t) implies forall|x: int|
                    s <= x < e ==> !contains_all(#[trigger] db[t], c.candidates@[x].items_spec()) by {
                assert forall|x: int| s <= x < e implies !contains_all(#[trigger] db[t], c.candidates@[x].items_spec()) by {
                    assert(c.candidates@[x].items_spec() == cs[x].items_spec());
                }
            }
            assert(db.take(db.len() as int) =~= db);
        }
        r
    }
}

/// The candidates of all levels so far, the current level being the window
/// `[start, end)`, and the tree of itemsets found frequent so far.
pub struct Candidates {
    candidates: Vec<CandidateID>,
    tree: TrieSet,
    start: usize,
    end: usize,
    sup: u64,
    prev: Ghost<int>,
    level: Ghost<nat>,
}

impl Candidates {
    /// All candidates, by index.
    pub closed spec fn cands(&self) -> Seq<CandidateID> {
        self.candidates@
    }

    /// Where the current level begins.
    pub closed spec fn start(&self) -> int {
        self.start as int
    }

    /// Where the current level ends: at the end of the vector.
    pub closed spec fn end(&self) -> int {
        self.end as int
    }

    /// Where the previous level begins.
    pub closed spec fn prev(&self) -> int {
        self.prev@
    }

    /// The length of the current level's itemsets.
    pub closed spec fn level(&self) -> nat {
        self.level@
    }

    /// The current level was joined from the previous one.
    pub closed spec fn links(&self) -> bool {
        &&& 0 <= self.prev@ <= self.start <= self.end == self.candidates.len()
        &&& links_ok(self.candidates@, self.prev@, self.start as int, self.end as int, self.level@)
    }

    /// The current level is not counted yet.
    pub closed spec fn fresh(&self) -> bool {
        forall|y: int| self.start <= y < self.end ==> (#[trigger] self.candidates@[y]).count_spec() == 0
    }

    /// `self` differs from `o` in candidate counts at most.
    pub closed spec fn same_but_counts(&self, o: Candidates) -> bool {
        &&& self.candidates.len() == o.candidates.len()
        &&& self.start == o.start
        &&& self.end == o.end
        &&& self.prev@ == o.prev@
        &&& self.level@ == o.level@
        &&& self.tree == o.tree
        &&& self.sup == o.sup
        &&& forall|x: int|
            0 <= x < self.candidates.len() ==> (#[trigger] self.candidates@[x]).items_spec() == o.candidates@[x].items_spec()
                && self.candidates@[x].generators_spec() == o.candidates@[x].generators_spec()
                && self.candidates@[x].extensions_spec() == o.candidates@[x].extensions_spec()
    }
}


/// The itemset `q` is that of a window candidate counted at least `sup`.
pub open spec fn frequent_in(c: Seq<CandidateID>, s: int, e: int, q: Seq<usize>, sup: u64) -> bool {
    exists|x: int| s <= x < e && (#[trigger] c[x]).items_spec() == q && c[x].count_spec() >= sup
}

/// The itemset `q` is that of a window candidate.
pub open spec fn in_window(c: Seq<CandidateID>, s: int, e: int, q: Seq<usize>) -> bool {
    exists|x: int| s <= x < e && (#[trigger] c[x]).items_spec() == q
}

impl Candidates {
    /// The minimum support.
    pub closed spec fn sup_spec(&self) -> u64 {
        self.sup
    }

    /// The itemsets found frequent so far.
    pub closed spec fn tree_spec(&self) -> Set<Seq<usize>> {
        self.tree@
    }

    /// The tree is well formed.
    pub closed spec fn tree_wf(&self) -> bool {
        self.tree.wf()
    }

    /// The first level: one candidate per item below `m`, each counted as
    /// `counts` says.
    pub fn new_first(sup: u64, counts: &Vec<u64>) -> (r: Candidates)
        ensures
            r.tree_wf(),
            r.tree_spec() == Set::<Seq<usize>>::empty(),
            r.sup_spec() == sup,
            r.start() == 0,
            r.end() == counts.len(),
            r.cands().len() == counts.len(),
            r.level() == 1,
            forall|x: int| 0 <= x < counts.len() ==> (#[trigger] r.cands()[x]).items_spec() == seq![x as usize]
                && r.cands()[x].count_spec() == counts@[x]
                && r.cands()[x].extensions_spec() == Seq::<usize>::empty(),
    {
        let mut candidates: Vec<CandidateID> = Vec::new();
        let mut i: usize = 0;
        while i < counts.len()
            invariant
                i <= counts.len(),
                candidates.len() == i,
                forall|x: int| 0 <= x < i ==> (#[trigger] candidates@[x]).items_spec() == seq![x as usize]
                    && candidates@[x].count_spec() == counts@[x]
                    && candidates@[x].extensions_spec() == Seq::<usize>::empty(),
            decreases counts.len() - i,
        {
            let items: Vec<usize> = vec![i];
            let mut cand = CandidateID::new(items, (usize::MAX, usize::MAX));
            cand.set_count(counts[i]);
            candidates.push(cand);
            i = i + 1;
        }
        let end = candidates.len();
        Candidates {
            candidates,
            tree: TrieSet::new(),
            start: 0,
            end,
            sup,
            prev: Ghost(0),
            level: Ghost(1),
        }
    }

    /// All candidates, by index.
    pub fn candidates(&self) -> (r: &Vec<CandidateID>)
        ensures
            r@ == self.cands(),
    {
        &self.candidates
    }

    /// The number of candidates of the current level.
    pub fn curr_len(&self) -> (r: usize)
        requires
            self.start() <= self.end(),
        ensures
            r == self.end() - self.start(),
    {
        self.end - self.start
    }

    /// The itemsets of the current level counted at least `sup`.
    pub fn frequent(&self) -> (r: Vec<Vec<usize>>)
        requires
            0 <= self.start() <= self.end() <= self.cands().len(),
        ensures
            forall|q: Seq<usize>| #[trigger] listed(r@, q) <==> frequent_in(self.cands(), self.start(), self.end(), q, self.sup_spec()),
            window_distinct(self.cands(), self.start(), self.end()) ==> distinct(r@),
    {
        let mut r: Vec<Vec<usize>> = Vec::new();
        let mut x: usize = self.start;
        while x < self.end
            invariant
                0 <= self.start() <= x <= self.end() <= self.cands().len(),
                forall|q: Seq<usize>| #[trigger] listed(r@, q) <==> frequent_in(self.cands(), self.start(), x as int, q, self.sup_spec()),
                forall|m: int| 0 <= m < r.len() ==> exists|w: int| self.start() <= w < x && (#[trigger] r@[m])@ == self.cands()[w].items_spec(),
                window_distinct(self.cands(), self.start(), self.end()) ==> distinct(r@),
            decreases self.end - x,
        {
            let ghost r0 = r@;
            if self.candidates[x].count >= self.sup {
                r.push(self.candidates[x].items.clone());
                proof {
                    assert(r@[r0.len() as int]@ == self.cands()[x as int].items_spec());
                    assert forall|m: int| 0 <= m < r.len() implies exists|w: int| self.start() <= w < x + 1 && (#[trigger] r@[m])@ == self.cands()[w].items_spec() by {
                        if m < r0.len() {
                            assert(r@[m] == r0[m]);
                            let w = choose|w: int| self.start() <= w < x && (#[trigger] r0[m])@ == self.cands()[w].items_spec();
                        }
                    }
                    if window_distinct(self.cands(), self.start(), self.end()) {
                        assert forall|a: int, b: int| 0 <= a < b < r@.len() implies (#[trigger] r@[a])@ != (#[trigger] r@[b])@ by {
                            assert(r@[a] == r0[a]);
                            if b < r0.len() {
                                assert(r@[b] == r0[b]);
                            } else {
                                let w = choose|w: int| self.start() <= w < x && (#[trigger] r0[a])@ == self.cands()[w].items_spec();
                                assert(self.cands()[w].items_spec() != self.cands()[x as int].items_spec());
                            }
                        }
                    }
                }
            }
            assert forall|q: Seq<usize>| #[trigger] listed(r@, q) <==> frequent_in(self.cands(), self.start(), x + 1, q, self.sup_spec()) by {
                if listed(r@, q) {
                    let a = choose|a: int| 0 <= a < r@.len() && #[trigger] r@[a]@ == q;
                    if a < r0.len() {
                        assert(r0[a]@ == q);
                        assert(listed(r0, q));
                        let w = choose|w: int| self.start() <= w < x && (#[trigger] self.cands()[w]).items_spec() == q && self.cands()[w].count_spec() >= self.sup_spec();
                    } else {
                        assert(self.cands()[x as int].items_spec() == q);
                    }
                }
                if frequent_in(self.cands(), self.start(), x + 1, q, self.sup_spec()) {
                    let w = choose|w: int| self.start() <= w < x + 1 && (#[trigger] self.cands()[w]).items_spec() == q && self.cands()[w].count_spec() >= self.sup_spec();
                    if w < x {
                        assert(frequent_in(self.cands(), self.start(), x as int, q, self.sup_spec()));
                        assert(listed(r0, q));
                        let a = choose|a: int| 0 <= a < r0.len() && #[trigger] r0[a]@ == q;
                        assert(r@[a] == r0[a]);
                        assert(r@[a]@ == q);
                    } else {
                        assert(r@[r0.len() as int]@ == q);
                    }
                }
            }
            x = x + 1;
        }
        r
    }

    /// Adds the current level's frequent itemsets to the tree.
    pub fn update_tree(&mut self)
        requires
            old(self).tree_wf(),
            0 <= old(self).start() <= old(self).end() <= old(self).cands().len(),
        ensures
            final(self).tree_wf(),
            final(self).same_but_tree(*old(self)),
            forall|q: Seq<usize>| #[trigger] final(self).tree_spec().contains(q) <==> (old(self).tree_spec().contains(q)
                || frequent_in(old(self).cands(), old(self).start(), old(self).end(), q, old(self).sup_spec())),
    {
        let f = self.frequent();
        let mut i: usize = 0;
        let ghost t0 = self.tree@;
        while i < f.len()
            invariant
                self.tree.wf(),
                self.same_but_tree(*old(self)),
                i <= f.len(),
                forall|q: Seq<usize>| #[trigger] listed(f@, q) <==> frequent_in(old(self).cands(), old(self).start(), old(self).end(), q, old(self).sup_spec()),
                forall|q: Seq<usize>| #[trigger] self.tree@.contains(q) <==> (t0.contains(q) || listed(f@.take(i as int), q)),
            decreases f.len() - i,
        {
            let ghost tr = self.tree@;
            self.tree.insert(&f[i]);
            assert forall|q: Seq<usize>| #[trigger] self.tree@.contains(q) <==> (t0.contains(q) || listed(f@.take(i + 1), q)) by {
                if listed(f@.take(i + 1), q) {
                    let a = choose|a: int| 0 <= a < i + 1 && #[trigger] f@.take(i + 1)[a]@ == q;
                    if a < i {
                        assert(f@.take(i as int)[a]@ == q);
                    }
                }
                if listed(f@.take(i as int), q) {
                    let a = choose|a: int| 0 <= a < i && #[trigger] f@.take(i as int)[a]@ == q;
                    assert(f@.take(i + 1)[a]@ == q);
                }
                if q == f@[i as int]@ {
                    assert(f@.take(i + 1)[i as int]@ == q);
                }
            }
            i = i + 1;
        }
        assert(f@.take(f.len() as int) =~= f@);
    }

    /// `self` differs from `o` in the tree at most.
    pub closed spec fn same_but_tree(&self, o: Candidates) -> bool {
        &&& self.candidates == o.candidates
        &&& self.start == o.start
        &&& self.end == o.end
        &&& self.prev@ == o.prev@
        &&& self.level@ == o.level@
        &&& self.sup == o.sup
    }

    /// Joins the current level's frequent candidates pairwise on their shared
    /// prefix and appends, as the next level, those whose every subset one
    /// item shorter is in the tree, linked to their generators.
    pub fn join(&mut self)
        requires
            old(self).tree_wf(),
            old(self).level() >= 1,
            old(self).level() < usize::MAX,
            old(self).start() <= old(self).end(),
            old(self).end() == old(self).cands().len(),
            window_shape(old(self).cands(), old(self).start(), old(self).end(), old(self).level(), (usize::MAX as nat) + 1),
            forall|x: int| old(self).start() <= x < old(self).end() ==> (#[trigger] old(self).cands()[x]).extensions_spec() == Seq::<usize>::empty(),
        ensures
            final(self).tree_wf(),
            final(self).tree_spec() == old(self).tree_spec(),
            final(self).sup_spec() == old(self).sup_spec(),
            final(self).prev() == old(self).start(),
            final(self).start() == old(self).end(),
            final(self).end() == final(self).cands().len(),
            final(self).level() == old(self).level() + 1,
            final(self).links(),
            final(self).fresh(),
            links_ok(final(self).cands(), final(self).prev(), final(self).start(), final(self).end(), final(self).level()),
            forall|y: int| final(self).start() <= y < final(self).end() ==> (#[trigger] final(self).cands()[y]).count_spec() == 0,
            forall|x: int| 0 <= x < old(self).end() ==> (#[trigger] final(self).cands()[x]).items_spec() == old(self).cands()[x].items_spec()
                && final(self).cands()[x].count_spec() == old(self).cands()[x].count_spec(),
            window_shape(final(self).cands(), final(self).start(), final(self).end(), final(self).level(), (usize::MAX as nat) + 1),
            forall|y: int| final(self).start() <= y < final(self).end() ==> (#[trigger] final(self).cands()[y]).extensions_spec() == Seq::<usize>::empty(),
            forall|q: Seq<usize>| #[trigger] in_window(final(self).cands(), final(self).start(), final(self).end(), q) ==> candidate(old(self).tree_spec(), q, final(self).level()),
            forall|y: int| final(self).start() <= y < final(self).end() ==> old(self).cands()[(#[trigger] final(self).cands()[y]).generators_spec().0 as int].count_spec() >= old(self).sup_spec()
                && old(self).cands()[final(self).cands()[y].generators_spec().1 as int].count_spec() >= old(self).sup_spec(),
            window_distinct(old(self).cands(), old(self).start(), old(self).end()) ==> window_distinct(final(self).cands(), final(self).start(), final(self).end()),
            forall|q: Seq<usize>| candidate(old(self).tree_spec(), q, final(self).level())
                && frequent_in(old(self).cands(), old(self).start(), old(self).end(), without(q, old(self).level() as int), old(self).sup_spec())
                && frequent_in(old(self).cands(), old(self).start(), old(self).end(), without(q, old(self).level() - 1), old(self).sup_spec())
                ==> #[trigger] in_window(final(self).cands(), final(self).start(), final(self).end(), q),
    {
        let ghost o = *self;
        let ghost oc = self.candidates@;
        let s = self.start;
        let e = self.end;
        let ghost k = self.level@;
        let ghost k1: nat = k + 1;
        let mut x: usize = s;
        while x < e
            invariant
                o == *old(self),
                oc == o.candidates@,
                s == o.start, e == o.end, k == o.level@, k1 == k + 1, k >= 1, k < usize::MAX,
                s <= x <= e,
                e <= self.candidates.len(),
                e == oc.len(),
                self.tree == o.tree,
                self.sup == o.sup,
                self.tree.wf(),
                window_shape(oc, s as int, e as int, k, (usize::MAX as nat) + 1),
                forall|z: int| 0 <= z < e ==> (#[trigger] self.candidates@[z]).items_spec() == oc[z].items_spec()
                    && self.candidates@[z].count_spec() == oc[z].count_spec()
                    && self.candidates@[z].generators_spec() == oc[z].generators_spec(),
                forall|z: int| 0 <= z < s ==> (#[trigger] self.candidates@[z]).extensions_spec() == oc[z].extensions_spec(),
                forall|y: int| e <= y < self.candidates.len() ==> s <= (#[trigger] self.candidates@[y]).generators_spec().0 < e
                    && s <= self.candidates@[y].generators_spec().1 < e
                    && joinable(oc[self.candidates@[y].generators_spec().0 as int].items_spec(), oc[self.candidates@[y].generators_spec().1 as int].items_spec(), k1)
                    && self.candidates@[y].items_spec() == joined(oc[self.candidates@[y].generators_spec().0 as int].items_spec(), oc[self.candidates@[y].generators_spec().1 as int].items_spec(), k1)
                    && candidate(o.tree@, self.candidates@[y].items_spec(), k1)
                    && self.candidates@[y].count_spec() == 0
                    && self.candidates@[y].extensions_spec() == Seq::<usize>::empty(),
                forall|z: int| s <= z < e ==> (#[trigger] self.candidates@[z]).extensions_spec().no_duplicates() && forall|y: usize|
                    #[trigger] self.candidates@[z].extensions_spec().contains(y) <==> (e <= y < self.candidates.len() && (self.candidates@[y as int].generators_spec().0 == z || self.candidates@[y as int].generators_spec().1 == z)),
                forall|y: int| e <= y < self.candidates.len() ==> oc[(#[trigger] self.candidates@[y]).generators_spec().0 as int].count_spec() >= o.sup
                    && oc[self.candidates@[y].generators_spec().1 as int].count_spec() >= o.sup
                    && self.candidates@[y].generators_spec().0 < self.candidates@[y].generators_spec().1
                    && gen_before(self.candidates@[y].generators_spec(), x as int, 0),
                forall|y1: int, y2: int| e <= y1 < y2 < self.candidates.len() ==> gen_before((#[trigger] self.candidates@[y1]).generators_spec(),
                    (#[trigger] self.candidates@[y2]).generators_spec().0 as int, self.candidates@[y2].generators_spec().1 as int),
                forall|a: int, b: int| s <= a < x && a < b < e && oc[a].count_spec() >= o.sup && oc[b].count_spec() >= o.sup
                    && joinable(oc[a].items_spec(), oc[b].items_spec(), k1) && candidate(o.tree@, joined(oc[a].items_spec(), oc[b].items_spec(), k1), k1)
                    ==> #[trigger] in_window(self.candidates@, e as int, self.candidates@.len() as int, joined(oc[a].items_spec(), oc[b].items_spec(), k1)),
            decreases e - x,
        {
            let mut x2: usize = x + 1;
            while x2 < e
                invariant
                    o == *old(self),
                    oc == o.candidates@,
                    s == o.start, e == o.end, k == o.level@, k1 == k + 1, k >= 1, k < usize::MAX, k < usize::MAX,
                    s <= x < e,
                    x + 1 <= x2 <= e,
                    e <= self.candidates.len(),
                    e == oc.len(),
                    self.tree == o.tree,
                    self.sup == o.sup,
                    self.tree.wf(),
                    window_shape(oc, s as int, e as int, k, (usize::MAX as nat) + 1),
                    forall|z: int| 0 <= z < e ==> (#[trigger] self.candidates@[z]).items_spec() == oc[z].items_spec()
                        && self.candidates@[z].count_spec() == oc[z].count_spec()
                        && self.candidates@[z].generators_spec() == oc[z].generators_spec(),
                    forall|z: int| 0 <= z < s ==> (#[trigger] self.candidates@[z]).extensions_spec() == oc[z].extensions_spec(),
                    forall|y: int| e <= y < self.candidates.len() ==> s <= (#[trigger] self.candidates@[y]).generators_spec().0 < e
                        && s <= self.candidates@[y].generators_spec().1 < e
                        && joinable(oc[self.candidates@[y].generators_spec().0 as int].items_spec(), oc[self.candidates@[y].generators_spec().1 as int].items_spec(), k1)
                        && self.candidates@[y].items_spec() == joined(oc[self.candidates@[y].generators_spec().0 as int].items_spec(), oc[self.candidates@[y].generators_spec().1 as int].items_spec(), k1)
                        && candidate(o.tree@, self.candidates@[y].items_spec(), k1)
                        && self.candidates@[y].count_spec() == 0
                        && self.candidates@[y].extensions_spec() == Seq::<usize>::empty(),
                    forall|z: int| s <= z < e ==> (#[trigger] self.candidates@[z]).extensions_spec().no_duplicates() && forall|y: usize|
                        #[trigger] self.candidates@[z].extensions_spec().contains(y) <==> (e <= y < self.candidates.len() && (self.candidates@[y as int].generators_spec().0 == z || self.candidates@[y as int].generators_spec().1 == z)),
                    forall|y: int| e <= y < self.candidates.len() ==> oc[(#[trigger] self.candidates@[y]).generators_spec().0 as int].count_spec() >= o.sup
                        && oc[self.candidates@[y].generators_spec().1 as int].count_spec() >= o.sup
                        && self.candidates@[y].generators_spec().0 < self.candidates@[y].generators_spec().1
                        && gen_before(self.candidates@[y].generators_spec(), x as int, x2 as int),
                    forall|y1: int, y2: int| e <= y1 < y2 < self.candidates.len() ==> gen_before((#[trigger] self.candidates@[y1]).generators_spec(),
                        (#[trigger] self.candidates@[y2]).generators_spec().0 as int, self.candidates@[y2].generators_spec().1 as int),
                    forall|a: int, b: int| s <= a <= x && a < b < e && (a < x || b < x2) && oc[a].count_spec() >= o.sup && oc[b].count_spec() >= o.sup
                        && joinable(oc[a].items_spec(), oc[b].items_spec(), k1) && candidate(o.tree@, joined(oc[a].items_spec(), oc[b].items_spec(), k1), k1)
                        ==> #[trigger] in_window(self.candidates@, e as int, self.candidates@.len() as int, joined(oc[a].items_spec(), oc[b].items_spec(), k1)),
                decreases e - x2,
            {
                let ghost before = self.candidates@;
                let kx = self.candidates[x].items.len();
                assert(kx == k);
                proof {
                    assert(oc[x as int].items_spec().len() == k);
                    assert(oc[x2 as int].items_spec().len() == k);
                }
                let both = self.candidates[x].count >= self.sup && self.candidates[x2].count >= self.sup;
                let mut ok = false;
                if both && kx >= 1 && kx < usize::MAX {
                    let sp = same_prefix(&self.candidates[x].items, &self.candidates[x2].items, kx - 1);
                    ok = sp && self.candidates[x].items[kx - 1] != self.candidates[x2].items[kx - 1];
                    proof {
                        assert(sp == (oc[x as int].items_spec().take(k - 1) == oc[x2 as int].items_spec().take(k - 1)));
                        assert(ok == (sp && oc[x as int].items_spec()[k - 1] != oc[x2 as int].items_spec()[k - 1]));
                    }
                }
                proof {
                    assert(both == (oc[x as int].count_spec() >= o.sup && oc[x2 as int].count_spec() >= o.sup));
                    assert(k1 - 2 == k - 1);
                    assert(kx >= 1 && kx < usize::MAX);
                    if both {
                        assert(ok == (oc[x as int].items_spec().take(k - 1) == oc[x2 as int].items_spec().take(k - 1)
                            && oc[x as int].items_spec()[k - 1] != oc[x2 as int].items_spec()[k - 1]));
                    }
                    assert(oc[x as int].items_spec().len() == k1 - 1);
                    assert(oc[x2 as int].items_spec().len() == k1 - 1);
                    assert(ok == (oc[x as int].count_spec() >= o.sup && oc[x2 as int].count_spec() >= o.sup
                        && joinable(oc[x as int].items_spec(), oc[x2 as int].items_spec(), k1)));
                }
                if ok {
                    let c = join_pair(&self.candidates[x].items, &self.candidates[x2].items, kx + 1);
                    proof {
                        lemma_joined(oc[x as int].items_spec(), oc[x2 as int].items_spec(), k1);
                    }
                    if self.tree.prune(&c) {
                        let id = self.candidates.len();
                        let ghost cv = c@;
                        let cand = CandidateID::new(c, (x, x2));
                        self.candidates.push(cand);
                        self.candidates[x].extensions.push(id);
                        self.candidates[x2].extensions.push(id);
                        proof {
                            let now = self.candidates@;
                            assert(now[id as int].items_spec() == cv);
                            assert forall|z: int| 0 <= z < e implies (#[trigger] now[z]).items_spec() == oc[z].items_spec()
                                && now[z].count_spec() == oc[z].count_spec()
                                && now[z].generators_spec() == oc[z].generators_spec() by {
                                assert(before[z].items_spec() == oc[z].items_spec());
                                if z != x && z != x2 {
                                    assert(now[z] == before[z]);
                                }
                            }
                            assert forall|z: int| 0 <= z < s implies (#[trigger] now[z]).extensions_spec() == oc[z].extensions_spec() by {
                                assert(now[z] == before[z]);
                            }
                            assert forall|y: int| e <= y < now.len() implies s <= (#[trigger] now[y]).generators_spec().0 < e
                                && s <= now[y].generators_spec().1 < e
                                && joinable(oc[now[y].generators_spec().0 as int].items_spec(), oc[now[y].generators_spec().1 as int].items_spec(), k1)
                                && now[y].items_spec() == joined(oc[now[y].generators_spec().0 as int].items_spec(), oc[now[y].generators_spec().1 as int].items_spec(), k1)
                                && candidate(o.tree@, now[y].items_spec(), k1)
                                && now[y].count_spec() == 0
                                && now[y].extensions_spec() == Seq::<usize>::empty() by {
                                if y < id {
                                    assert(now[y] == before[y]);
                                }
                            }
                            assert forall|z: int| s <= z < e implies (#[trigger] now[z]).extensions_spec().no_duplicates() && forall|y: usize|
                                #[trigger] now[z].extensions_spec().contains(y) <==> (e <= y < now.len() && (now[y as int].generators_spec().0 == z || now[y as int].generators_spec().1 == z)) by {
                                if z != x && z != x2 {
                                    assert(now[z] == before[z]);
                                    assert forall|y: usize| #[trigger] now[z].extensions_spec().contains(y) <==> (e <= y < now.len() && (now[y as int].generators_spec().0 == z || now[y as int].generators_spec().1 == z)) by {
                                        if e <= y < id {
                                            assert(now[y as int] == before[y as int]);
                                        }
                                    }
                                } else {
                                    let ex0 = before[z].extensions_spec();
                                    assert(now[z].extensions_spec() == ex0.push(id));
                                    assert(!ex0.contains(id));
                                    assert forall|y: usize| #[trigger] now[z].extensions_spec().contains(y) <==> (e <= y < now.len() && (now[y as int].generators_spec().0 == z || now[y as int].generators_spec().1 == z)) by {
                                        lemma_push_contains(ex0, id, y);
                                        if e <= y < id {
                                            assert(now[y as int] == before[y as int]);
                                        }
                                    }
                                    assert forall|p: int, q: int| 0 <= p < q < ex0.len() + 1 implies now[z].extensions_spec()[p] != now[z].extensions_spec()[q] by {
                                        if q == ex0.len() {
                                            assert(ex0.contains(ex0[p]));
                                        }
                                    }
                                }
                            }
                            assert forall|a: int, b: int| s <= a <= x && a < b < e && (a < x || b < x2 + 1) && oc[a].count_spec() >= o.sup && oc[b].count_spec() >= o.sup
                                && joinable(oc[a].items_spec(), oc[b].items_spec(), k1) && candidate(o.tree@, joined(oc[a].items_spec(), oc[b].items_spec(), k1), k1)
                                implies #[trigger] in_window(now, e as int, now.len() as int, joined(oc[a].items_spec(), oc[b].items_spec(), k1)) by {
                                if a < x || b < x2 {
                                    let j = joined(oc[a].items_spec(), oc[b].items_spec(), k1);
                                    assert(in_window(before, e as int, before.len() as int, j));
                                    let w = choose|w: int| e <= w < before.len() && (#[trigger] before[w]).items_spec() == j;
                                    assert(now[w] == before[w]);
                                } else {
                                    assert(now[id as int].items_spec() == joined(oc[a].items_spec(), oc[b].items_spec(), k1));
                                }
                            }
                        }
                    } else {
                        proof {
                            assert forall|a: int, b: int| s <= a <= x && a < b < e && (a < x || b < x2 + 1) && oc[a].count_spec() >= o.sup && oc[b].count_spec() >= o.sup
                                && joinable(oc[a].items_spec(), oc[b].items_spec(), k1) && candidate(o.tree@, joined(oc[a].items_spec(), oc[b].items_spec(), k1), k1)
                                implies #[trigger] in_window(self.candidates@, e as int, self.candidates@.len() as int, joined(oc[a].items_spec(), oc[b].items_spec(), k1)) by {
                                if a == x && b == x2 {
                                    assert(c@ == joined(oc[a].items_spec(), oc[b].items_spec(), k1));
                                    let i = choose|i: int| 0 <= i < c@.len() && !o.tree@.contains(#[trigger] without(c@, i));
                                }
                            }
                        }
                    }
                } else {
                    proof {
                        assert forall|a: int, b: int| s <= a <= x && a < b < e && (a < x || b < x2 + 1) && oc[a].count_spec() >= o.sup && oc[b].count_spec() >= o.sup
                            && joinable(oc[a].items_spec(), oc[b].items_spec(), k1) && candidate(o.tree@, joined(oc[a].items_spec(), oc[b].items_spec(), k1), k1)
                            implies #[trigger] in_window(self.candidates@, e as int, self.candidates@.len() as int, joined(oc[a].items_spec(), oc[b].items_spec(), k1)) by {
                            if a == x && b == x2 {
                                assert(kx == k);
                                assert(self.candidates@[a].items_spec() == oc[a].items_spec());
                                assert(self.candidates@[b].items_spec() == oc[b].items_spec());
                                assert(oc[a].items_spec().take(k - 1) == oc[b].items_spec().take(k - 1));
                                assert(oc[a].items_spec()[k - 1] != oc[b].items_spec()[k - 1]);
                            }
                        }
                    }
                }
                x2 = x2 + 1;
            }
            x = x + 1;
        }
        let ghost end_len = self.candidates@.len();
        self.prev = Ghost(s as int);
        self.start = e;
        self.end = self.candidates.len();
        self.level = Ghost(k + 1);
        proof {
            let now = self.candidates@;
            assert(links_ok(now, s as int, e as int, now.len() as int, k1)) by {
                assert forall|y: int| e <= y < now.len() implies s <= (#[trigger] now[y]).generators_spec().0 < e
                    && s <= now[y].generators_spec().1 < e
                    && joinable(now[now[y].generators_spec().0 as int].items_spec(), now[now[y].generators_spec().1 as int].items_spec(), k1)
                    && now[y].items_spec() == joined(now[now[y].generators_spec().0 as int].items_spec(), now[now[y].generators_spec().1 as int].items_spec(), k1) by {
                    let g = now[y].generators_spec();
                    assert(now[g.0 as int].items_spec() == oc[g.0 as int].items_spec());
                    assert(now[g.1 as int].items_spec() == oc[g.1 as int].items_spec());
                }
            }
            assert forall|y: int| e <= y < now.len() implies (#[trigger] now[y]).items_spec().len() == k1 && ascending(now[y].items_spec())
                && forall|i: int| 0 <= i < k1 ==> #[trigger] now[y].items_spec()[i] < (usize::MAX as nat) + 1 by {
                let g = now[y].generators_spec();
                lemma_joined(oc[g.0 as int].items_spec(), oc[g.1 as int].items_spec(), k1);
            }
            assert forall|q: Seq<usize>| #[trigger] in_window(now, e as int, now.len() as int, q) implies candidate(o.tree@, q, k1) by {
                let w = choose|w: int| e <= w < now.len() && (#[trigger] now[w]).items_spec() == q;
            }
            if window_distinct(oc, s as int, e as int) {
                assert forall|y1: int, y2: int| e <= y1 < y2 < now.len() implies (#[trigger] now[y1]).items_spec() != (#[trigger] now[y2]).items_spec() by {
                    let g = now[y1].generators_spec();
                    let h = now[y2].generators_spec();
                    if now[y1].items_spec() == now[y2].items_spec() {
                        lemma_joined_parts(oc[g.0 as int].items_spec(), oc[g.1 as int].items_spec(), k1);
                        lemma_joined_parts(oc[h.0 as int].items_spec(), oc[h.1 as int].items_spec(), k1);
                        assert(gen_before(g, h.0 as int, h.1 as int));
                        if g.0 != h.0 && g.0 != h.1 {
                            assert(oc[g.0 as int].items_spec() != oc[h.0 as int].items_spec());
                            assert(oc[g.0 as int].items_spec() != oc[h.1 as int].items_spec());
                        } else if g.0 == h.1 {
                            assert(oc[g.1 as int].items_spec() != oc[h.1 as int].items_spec());
                            assert(oc[g.1 as int].items_spec() != oc[g.0 as int].items_spec());
                        } else {
                            assert(oc[g.1 as int].items_spec() != oc[h.1 as int].items_spec());
                        }
                    }
                }
            }
            assert forall|q: Seq<usize>| candidate(o.tree@, q, k1)
                && frequent_in(oc, s as int, e as int, without(q, k as int), o.sup)
                && frequent_in(oc, s as int, e as int, without(q, k - 1), o.sup)
                implies #[trigger] in_window(now, e as int, now.len() as int, q) by {
                lemma_split(q, k1);
                let a = choose|a: int| s <= a < e && (#[trigger] oc[a]).items_spec() == without(q, k as int) && oc[a].count_spec() >= o.sup;
                let b = choose|b: int| s <= b < e && (#[trigger] oc[b]).items_spec() == without(q, k - 1) && oc[b].count_spec() >= o.sup;
                assert(a != b) by {
                    assert(without(q, k as int)[k - 1] != without(q, k - 1)[k - 1]);
                }
                lemma_joined(oc[a].items_spec(), oc[b].items_spec(), k1);
                if b < a {
                    assert(joinable(oc[b].items_spec(), oc[a].items_spec(), k1));
                }
            }
        }
    }
}


/// The AprioriTID miner: counts the first level directly, then each later
/// level over the transformed database.
pub struct AprioriTIDRunner2<'a> {
    data: &'a TransactionSet,
    sup: u64,
}

impl<'a> AprioriTIDRunner2<'a> {
    /// A miner of `data` at minimum support `sup`.
    pub fn new(data: &'a TransactionSet, sup: u64) -> (r: Self)
        ensures
            r.data() == *data,
            r.sup() == sup,
    {
        AprioriTIDRunner2 { data, sup }
    }

    /// The database mined.
    pub closed spec fn data(&self) -> TransactionSet {
        *self.data
    }

    /// The minimum support.
    pub closed spec fn sup(&self) -> u64 {
        self.sup
    }

    /// Every frequent itemset, level after level: exactly the ascending
    /// itemsets over the database's items with support at least `sup`.
    pub fn run(self) -> (r: Vec<Vec<usize>>)
        requires
            self.data().wf(),
            self.data().num_items < usize::MAX,
        ensures
            forall|q: Seq<usize>| #[trigger] listed(r@, q) <==> frequent_any(
                self.data()@,
                q,
                self.sup() as nat,
                self.data().num_items as nat,
            ),
            distinct(r@),
    {
        let data = self.data;
        let sup = self.sup;
        let ghost db = data@;
        let m = data.num_items;
        let counts = apriori_pass_one_counter(data);
        let mut c = Candidates::new_first(sup, &counts);
        let mut td = TransformedDatabase::from(data);
        let mut out: Vec<Vec<usize>> = Vec::new();
        let mut k: usize = 1;
        proof {
            let cs = c.cands();
            assert forall|x: int| 0 <= x < m implies (#[trigger] cs[x]).items_spec().len() == 1 && ascending(cs[x].items_spec())
                && forall|i: int| 0 <= i < 1 ==> #[trigger] cs[x].items_spec()[i] < (usize::MAX as nat) + 1 by {
                assert(cs[x].items_spec() == seq![x as usize]);
            }
            assert forall|x: int| 0 <= x < m implies (#[trigger] cs[x]).count_spec() == support(db, cs[x].items_spec()) by {
                assert(cs[x].items_spec() == seq![x as usize]);
            }
            let tids = td.tids();
            assert forall|j: int| 0 <= j < td.entries().len() implies entry_ok(cs, 0, m as int, #[trigger] td.entries()[j], db[tids[j]]) by {
                let t = db[tids[j]];
                assert(td.entries()[j] == t);
                assert(crate::itemset::ascending(db[tids[j]]));
                assert(t.no_duplicates()) by {
                    assert forall|a: int, b: int| 0 <= a < t.len() && 0 <= b < t.len() && a != b implies t[a] != t[b] by {
                        if a < b { assert(t[a] < t[b]); } else { assert(t[b] < t[a]); }
                    }
                }
                assert forall|x: usize| #[trigger] t.contains(x) <==> (0 <= x < m && contains_all(t, cs[x as int].items_spec())) by {
                    lemma_contains_single(t, x);
                    if t.contains(x) {
                        let i = choose|i: int| 0 <= i < t.len() && t[i] == x;
                        assert(db[tids[j]][i] < m);
                    }
                    if 0 <= x < m {
                        assert(cs[x as int].items_spec() == seq![x]);
                    }
                }
            }
            assert forall|t: int| 0 <= t < db.len() && !tids.contains(t) implies forall|x: int|
                0 <= x < m ==> !contains_all(#[trigger] db[t], cs[x].items_spec()) by {
                assert(db[t].len() == 0);
                assert forall|x: int| 0 <= x < m implies !contains_all(#[trigger] db[t], cs[x].items_spec()) by {
                    assert(cs[x].items_spec() == seq![x as usize]);
                    assert(!db[t].contains(cs[x].items_spec()[0]));
                }
            }
            assert forall|q: Seq<usize>| #[trigger] frequent_in(cs, 0, m as int, q, sup) <==> frequent_of(db, q, 1, sup as nat, m as nat) by {
                if frequent_in(cs, 0, m as int, q, sup) {
                    let x = choose|x: int| 0 <= x < m && (#[trigger] cs[x]).items_spec() == q && cs[x].count_spec() >= sup;
                    assert(q == seq![x as usize]);
                    assert(q[0] == x);
                }
                if frequent_of(db, q, 1, sup as nat, m as nat) {
                    let x = q[0] as int;
                    assert(q =~= seq![q[0]]);
                    assert(cs[x].items_spec() == q);
                }
            }
        }
        proof {
            let cs = c.cands();
            assert forall|a: int, b: int| 0 <= a < b < m implies (#[trigger] cs[a]).items_spec() != (#[trigger] cs[b]).items_spec() by {
                assert(cs[a].items_spec()[0] == a);
                assert(cs[b].items_spec()[0] == b);
            }
        }
        tid_levels(data, sup, c, td, k, out)
    }
}


/// Runs the AprioriTID levels from level `k` on: the current level's
/// candidates are counted, the transformed database stands for them, and
/// `out` lists the frequent itemsets of the shorter levels.
pub(crate) fn tid_levels(data: &TransactionSet, sup: u64, c: Candidates, td: TransformedDatabase, k: usize, out: Vec<Vec<usize>>) -> (r: Vec<Vec<usize>>)
    requires
        data.wf(),
        data.num_items < usize::MAX,
        1 <= k <= data.num_items || (k == 1 && data.num_items == 0),
        c.tree_wf(),
        c.sup_spec() == sup,
        c.level() == k,
        0 <= c.start() <= c.end(),
        c.end() == c.cands().len(),
        window_shape(c.cands(), c.start(), c.end(), k as nat, (usize::MAX as nat) + 1),
        forall|x: int| c.start() <= x < c.end() ==> (#[trigger] c.cands()[x]).extensions_spec() == Seq::<usize>::empty(),
        counts_ok(c.cands(), c.start(), c.end(), data@),
        td.wf(),
        td.db() == data@,
        transformed_ok(c.cands(), c.start(), c.end(), td.entries(), td.tids(), data@),
        forall|q: Seq<usize>| #[trigger] frequent_in(c.cands(), c.start(), c.end(), q, sup) <==> frequent_of(data@, q, k as nat, sup as nat, data.num_items as nat),
        forall|q: Seq<usize>| #[trigger] c.tree_spec().contains(q) ==> q.len() < k,
        k >= 2 ==> forall|q: Seq<usize>| q.len() + 1 == k ==> (#[trigger] c.tree_spec().contains(q) <==> frequent_of(data@, q, (k - 1) as nat, sup as nat, data.num_items as nat)),
        forall|q: Seq<usize>| #[trigger] listed(out@, q) <==> (frequent_any(data@, q, sup as nat, data.num_items as nat) && q.len() < k),
        window_distinct(c.cands(), c.start(), c.end()),
        distinct(out@),
    ensures
        forall|q: Seq<usize>| #[trigger] listed(r@, q) <==> frequent_any(data@, q, sup as nat, data.num_items as nat),
        distinct(r@),
{
    let ghost db = data@;
    let m = data.num_items;
    let mut c = c;
    let mut td = td;
    let mut k = k;
    let mut out = out;
    loop
        invariant_except_break
            data.wf(),
            db == data@,
            m == data.num_items,
            m < usize::MAX,
            1 <= k <= m || (k == 1 && m == 0),
            c.tree_wf(),
            c.sup_spec() == sup,
            c.level() == k,
            0 <= c.start() <= c.end(),
            c.end() == c.cands().len(),
            window_shape(c.cands(), c.start(), c.end(), k as nat, (usize::MAX as nat) + 1),
            forall|x: int| c.start() <= x < c.end() ==> (#[trigger] c.cands()[x]).extensions_spec() == Seq::<usize>::empty(),
            counts_ok(c.cands(), c.start(), c.end(), db),
            td.wf(),
            td.db() == db,
            transformed_ok(c.cands(), c.start(), c.end(), td.entries(), td.tids(), db),
            forall|q: Seq<usize>| #[trigger] frequent_in(c.cands(), c.start(), c.end(), q, sup) <==> frequent_of(db, q, k as nat, sup as nat, m as nat),
            forall|q: Seq<usize>| #[trigger] c.tree_spec().contains(q) ==> q.len() < k,
            k >= 2 ==> forall|q: Seq<usize>| q.len() + 1 == k ==> (#[trigger] c.tree_spec().contains(q) <==> frequent_of(db, q, (k - 1) as nat, sup as nat, m as nat)),
            forall|q: Seq<usize>| #[trigger] listed(out@, q) <==> (frequent_any(db, q, sup as nat, m as nat) && q.len() < k),
            window_distinct(c.cands(), c.start(), c.end()),
            distinct(out@),
        ensures
            forall|q: Seq<usize>| #[trigger] listed(out@, q) <==> frequent_any(db, q, sup as nat, m as nat),
            distinct(out@),
        decreases m + 1 - k,
    {
        let f = c.frequent();
        proof {
            assert forall|q: Seq<usize>| #[trigger] listed(f@, q) implies !listed(out@, q) by {
                assert(frequent_in(c.cands(), c.start(), c.end(), q, sup));
            }
        }
        emit(&mut out, &f);
        let ghost c0 = c;
        c.update_tree();
        proof {
            assert forall|q: Seq<usize>| #[trigger] listed(out@, q) <==> (frequent_any(db, q, sup as nat, m as nat) && q.len() < k + 1) by {
                if listed(f@, q) {
                    assert(frequent_in(c0.cands(), c0.start(), c0.end(), q, sup));
                }
                if frequent_any(db, q, sup as nat, m as nat) && q.len() == k {
                    assert(frequent_in(c0.cands(), c0.start(), c0.end(), q, sup));
                }
            }
            assert forall|q: Seq<usize>| #[trigger] c.tree_spec().contains(q) implies q.len() < k + 1 by {
                if frequent_in(c0.cands(), c0.start(), c0.end(), q, sup) {
                    assert(frequent_of(db, q, k as nat, sup as nat, m as nat));
                }
            }
            assert forall|q: Seq<usize>| q.len() == k implies (#[trigger] c.tree_spec().contains(q) <==> frequent_of(db, q, k as nat, sup as nat, m as nat)) by {
                if frequent_of(db, q, k as nat, sup as nat, m as nat) {
                    assert(frequent_in(c0.cands(), c0.start(), c0.end(), q, sup));
                }
            }
        }
        if k >= m {
            proof {
                assert forall|q: Seq<usize>| #[trigger] listed(out@, q) <==> frequent_any(db, q, sup as nat, m as nat) by {
                    if frequent_any(db, q, sup as nat, m as nat) {
                        lemma_ascending_len(q, m as nat);
                    }
                }
            }
            break;
        }
        let ghost c1 = c;
        c.join();
        proof {
            assert forall|q: Seq<usize>| #[trigger] frequent_of(db, q, (k + 1) as nat, sup as nat, m as nat) implies in_window(c.cands(), c.start(), c.end(), q) by {
                lemma_level_step(c1.tree_spec(), db, (k + 1) as nat, sup as nat, m as nat, q);
                assert(candidate(c1.tree_spec(), q, (k + 1) as nat));
                assert(c1.tree_spec().contains(without(q, k as int)));
                assert(c1.tree_spec().contains(without(q, k - 1)));
                assert(frequent_in(c1.cands(), c1.start(), c1.end(), without(q, k as int), sup));
                assert(frequent_in(c1.cands(), c1.start(), c1.end(), without(q, k - 1), sup));
            }
        }
        if c.curr_len() == 0 {
            proof {
                assert forall|q: Seq<usize>| #[trigger] listed(out@, q) <==> frequent_any(db, q, sup as nat, m as nat) by {
                    if frequent_any(db, q, sup as nat, m as nat) && q.len() >= k + 1 {
                        lemma_no_longer(db, q, (k + 1) as nat, sup as nat, m as nat);
                        assert(in_window(c.cands(), c.start(), c.end(), q.take(k + 1)));
                    }
                }
            }
            break;
        }
        let ghost c2 = c;
        proof {
            assert(transformed_ok(c.cands(), c.prev(), c.start(), td.entries(), td.tids(), db)) by {
                assert forall|j: int| 0 <= j < td.entries().len() implies entry_ok(c.cands(), c.prev(), c.start(), #[trigger] td.entries()[j], db[td.tids()[j]]) by {
                    assert(entry_ok(c1.cands(), c1.start(), c1.end(), td.entries()[j], db[td.tids()[j]]));
                    assert forall|x: usize| #[trigger] td.entries()[j].contains(x) <==> (c.prev() <= x < c.start() && contains_all(db[td.tids()[j]], c.cands()[x as int].items_spec())) by {
                        if c.prev() <= x < c.start() {
                            assert(c.cands()[x as int].items_spec() == c1.cands()[x as int].items_spec());
                        }
                    }
                }
                assert forall|t: int| 0 <= t < db.len() && !td.tids().contains(t) implies forall|x: int|
                    c.prev() <= x < c.start() ==> !contains_all(#[trigger] db[t], c.cands()[x].items_spec()) by {
                    assert forall|x: int| c.prev() <= x < c.start() implies !contains_all(#[trigger] db[t], c.cands()[x].items_spec()) by {
                        assert(c.cands()[x].items_spec() == c1.cands()[x].items_spec());
                    }
                }
            }
        }
        td = td.count(&mut c);
        proof {
            assert forall|q: Seq<usize>| #[trigger] frequent_in(c.cands(), c.start(), c.end(), q, sup) <==> frequent_of(db, q, (k + 1) as nat, sup as nat, m as nat) by {
                if frequent_in(c.cands(), c.start(), c.end(), q, sup) {
                    let x = choose|x: int| c.start() <= x < c.end() && (#[trigger] c.cands()[x]).items_spec() == q && c.cands()[x].count_spec() >= sup;
                    assert(c2.cands()[x].items_spec() == q);
                    assert(in_window(c2.cands(), c2.start(), c2.end(), q));
                    lemma_level_step(c1.tree_spec(), db, (k + 1) as nat, sup as nat, m as nat, q);
                }
                if frequent_of(db, q, (k + 1) as nat, sup as nat, m as nat) {
                    assert(in_window(c2.cands(), c2.start(), c2.end(), q));
                    let x = choose|x: int| c2.start() <= x < c2.end() && (#[trigger] c2.cands()[x]).items_spec() == q;
                    assert(c.cands()[x].items_spec() == q);
                }
            }
            assert forall|x: int| c.start() <= x < c.end() implies (#[trigger] c.cands()[x]).extensions_spec() == Seq::<usize>::empty() by {
                assert(c2.cands()[x].extensions_spec() == Seq::<usize>::empty());
            }
            assert forall|x: int| c.start() <= x < c.end() implies (#[trigger] c.cands()[x]).items_spec().len() == k + 1 && ascending(c.cands()[x].items_spec())
                && forall|i: int| 0 <= i < k + 1 ==> #[trigger] c.cands()[x].items_spec()[i] < (usize::MAX as nat) + 1 by {
                assert(c.cands()[x].items_spec() == c2.cands()[x].items_spec());
            }
        }
        k = k + 1;
    }
    out
}


impl Candidates {
    /// A first window of `level`'s itemsets, each ascending of length `k`,
    /// with count 0, no links, and `tree` as the itemsets found frequent so
    /// far.
    pub fn from_level(sup: u64, level: &Vec<Vec<usize>>, tree: TrieSet, k: usize) -> (r: Candidates)
        requires
            tree.wf(),
            forall|i: int| 0 <= i < level.len() ==> (#[trigger] level@[i])@.len() == k && ascending(level@[i]@),
        ensures
            r.tree_wf(),
            r.tree_spec() == tree@,
            r.sup_spec() == sup,
            r.start() == 0,
            r.end() == level.len(),
            r.cands().len() == level.len(),
            r.level() == k,
            r.fresh(),
            window_shape(r.cands(), 0, level.len() as int, k as nat, (usize::MAX as nat) + 1),
            forall|x: int| 0 <= x < level.len() ==> (#[trigger] r.cands()[x]).items_spec() == level@[x]@
                && r.cands()[x].count_spec() == 0
                && r.cands()[x].extensions_spec() == Seq::<usize>::empty(),
    {
        let mut candidates: Vec<CandidateID> = Vec::new();
        let mut i: usize = 0;
        while i < level.len()
            invariant
                i <= level.len(),
                candidates.len() == i,
                forall|x: int| 0 <= x < i ==> (#[trigger] candidates@[x]).items_spec() == level@[x]@
                    && candidates@[x].count_spec() == 0
                    && candidates@[x].extensions_spec() == Seq::<usize>::empty(),
            decreases level.len() - i,
        {
            let cand = CandidateID::new(level[i].clone(), (usize::MAX, usize::MAX));
            candidates.push(cand);
            i = i + 1;
        }
        let end = candidates.len();
        Candidates { candidates, tree, start: 0, end, sup, prev: Ghost(0), level: Ghost(k as nat) }
    }
}

impl TransformedDatabase {
    /// Builds the transformed database of the current window from the
    /// original transactions, testing each candidate for containment, and
    /// sets every window candidate's count to its support.
    pub fn transition(data: &TransactionSet, c: &mut Candidates) -> (r: TransformedDatabase)
        requires
            data.wf(),
            0 <= old(c).start() <= old(c).end() == old(c).cands().len(),
            old(c).fresh(),
            window_shape(old(c).cands(), old(c).start(), old(c).end(), old(c).level(), (usize::MAX as nat) + 1),
        ensures
            r.wf(),
            r.db() == data@,
            final(c).same_but_counts(*old(c)),
            counts_ok(final(c).cands(), final(c).start(), final(c).end(), data@),
            transformed_ok(final(c).cands(), final(c).start(), final(c).end(), r.entries(), r.tids(), data@),
            forall|x: int| 0 <= x < final(c).start() ==> (#[trigger] final(c).cands()[x]).count_spec() == old(c).cands()[x].count_spec(),
            forall|j: int| 0 <= j < r.entries().len() ==> (#[trigger] r.entries()[j]).len() > 0,
    {
        let ghost db = data@;
        let ghost c0 = *c;
        let ghost cs = c.candidates@;
        let s = c.start;
        let e = c.end;
        let mut out: Vec<Vec<usize>> = Vec::new();
        let ghost mut out_tids: Seq<int> = Seq::empty();
        let mut j: usize = 0;
        proof {
            assert forall|y: int| s <= y < e implies (#[trigger] c.candidates@[y]).count_spec() == support(db.take(0), cs[y].items_spec()) by {
                assert(db.take(0).len() == 0);
            }
        }
        while j < data.transactions.len()
            invariant
                data.wf(),
                db == data@,
                db.len() == data.transactions.len(),
                j <= db.len(),
                0 <= s <= e,
                e == c.candidates.len(),
                cs.len() == e,
                c.start == s,
                c.end == e,
                window_shape(cs, s as int, e as int, c0.level(), (usize::MAX as nat) + 1),
                c.same_but_counts(c0),
                c0.cands() == cs,
                forall|x: int| 0 <= x < e && !(s <= x < e) ==> (#[trigger] c.candidates@[x]).count_spec() == cs[x].count_spec(),
                forall|y: int| s <= y < e ==> (#[trigger] c.candidates@[y]).count_spec() == support(db.take(j as int), cs[y].items_spec()),
                out_tids.len() == out.len(),
                forall|a: int, b: int| 0 <= a < b < out_tids.len() ==> out_tids[a] < out_tids[b],
                forall|a: int| 0 <= a < out_tids.len() ==> 0 <= #[trigger] out_tids[a] < j,
                forall|a: int| 0 <= a < out.len() ==> (#[trigger] out@[a])@.len() > 0,
                forall|a: int| 0 <= a < out.len() ==> entry_ok(cs, s as int, e as int, #[trigger] out@[a]@, db[out_tids[a]]),
                forall|t: int|
                    0 <= t < j && !out_tids.contains(t) ==> forall|y: int|
                        s <= y < e ==> !contains_all(#[trigger] db[t], cs[y].items_spec()),
            decreases db.len() - j,
        {
            let t = &data.transactions[j];
            let ghost tv = t@;
            assert(tv == db[j as int]);
            let mut entry: Vec<usize> = Vec::new();
            let mut x: usize = s;
            while x < e
                invariant
                    data.wf(),
                    db == data@,
                    db.len() == data.transactions.len(),
                    j < db.len(),
                    tv == db[j as int],
                    tv == t@,
                    ascending(tv),
                    s <= x <= e,
                    e == c.candidates.len(),
                    cs.len() == e,
                    c.start == s,
                    c.end == e,
                    window_shape(cs, s as int, e as int, c0.level(), (usize::MAX as nat) + 1),
                    c.same_but_counts(c0),
                    c0.cands() == cs,
                    forall|z: int| 0 <= z < e && !(s <= z < e) ==> (#[trigger] c.candidates@[z]).count_spec() == cs[z].count_spec(),
                    forall|y: int| s <= y < e ==> (#[trigger] c.candidates@[y]).count_spec() == support(db.take(j as int), cs[y].items_spec())
                        + if s <= y < x && contains_all(tv, cs[y].items_spec()) { 1nat } else { 0nat },
                    entry@.no_duplicates(),
                    forall|y: usize| #[trigger] entry@.contains(y) <==> (s <= y < x && contains_all(tv, cs[y as int].items_spec())),
                decreases e - x,
            {
                let ghost before = c.candidates@;
                proof {
                    assert(before[x as int].items_spec() == cs[x as int].items_spec());
                }
                let held = contains_sorted(t, &c.candidates[x].items);
                if held {
                    proof {
                        lemma_support_bound(db.take(j as int), cs[x as int].items_spec());
                        assert(usize::MAX <= u64::MAX);
                    }
                    let cnt = c.candidates[x].count;
                    c.candidates[x].count = cnt + 1;
                    let ghost e0 = entry@;
                    entry.push(x);
                    proof {
                        assert forall|a: int, b: int| 0 <= a < b < entry@.len() implies entry@[a] != entry@[b] by {
                            if b == e0.len() {
                                assert(e0.contains(e0[a]));
                            }
                        }
                        assert forall|y: usize| #[trigger] entry@.contains(y) <==> (s <= y < x + 1 && contains_all(tv, cs[y as int].items_spec())) by {
                            lemma_push_contains(e0, x, y);
                        }
                    }
                }
                proof {
                    assert forall|y: int| s <= y < e implies (#[trigger] c.candidates@[y]).count_spec() == support(db.take(j as int), cs[y].items_spec())
                        + if s <= y < x + 1 && contains_all(tv, cs[y].items_spec()) { 1nat } else { 0nat } by {
                        if y != x {
                            assert(c.candidates@[y] == before[y]);
                        }
                    }
                    assert forall|z: int| 0 <= z < e && !(s <= z < e) implies (#[trigger] c.candidates@[z]).count_spec() == cs[z].count_spec() by {
                        assert(c.candidates@[z] == before[z]);
                    }
                    assert(c.same_but_counts(c0)) by {
                        assert forall|z: int| 0 <= z < e implies (#[trigger] c.candidates@[z]).items_spec() == cs[z].items_spec() by {
                            if z != x {
                                assert(c.candidates@[z] == before[z]);
                            }
                        }
                    }
                    if !held {
                        assert forall|y: usize| #[trigger] entry@.contains(y) <==> (s <= y < x + 1 && contains_all(tv, cs[y as int].items_spec())) by {
                        }
                    }
                }
                x = x + 1;
            }
            proof {
                assert forall|y: int| s <= y < e implies (#[trigger] c.candidates@[y]).count_spec() == support(db.take(j + 1), cs[y].items_spec()) by {
                    lemma_support_step(db, j as int, cs[y].items_spec());
                }
            }
            let ghost out0 = out@;
            let ghost ot0 = out_tids;
            let ghost ev = entry@;
            if entry.len() > 0 {
                out.push(entry);
                proof {
                    out_tids = out_tids.push(j as int);
                }
            }
            proof {
                assert forall|a: int| 0 <= a < out.len() implies entry_ok(cs, s as int, e as int, #[trigger] out@[a]@, db[out_tids[a]]) by {
                    if a < out0.len() {
                        assert(out@[a] == out0[a]);
                    }
                }
                assert forall|tt: int|
                    0 <= tt < j + 1 && !out_tids.contains(tt) implies forall|y: int|
                        s <= y < e ==> !contains_all(#[trigger] db[tt], cs[y].items_spec()) by {
                    if tt < j {
                        if ot0.contains(tt) {
                            let a = choose|a: int| 0 <= a < ot0.len() && ot0[a] == tt;
                            assert(out_tids[a] == tt);
                        }
                    } else {
                        if out_tids.len() > ot0.len() {
                            assert(out_tids[ot0.len() as int] == tt);
                        } else {
                            assert forall|y: int| s <= y < e implies !contains_all(#[trigger] db[tt], cs[y].items_spec()) by {
                                if contains_all(db[tt], cs[y].items_spec()) {
                                    assert(ev.contains(y as usize));
                                }
                            }
                        }
                    }
                }
            }
            j = j + 1;
        }
        let r = TransformedDatabase { v: out, tids: Ghost(out_tids), db: Ghost(db) };
        proof {
            assert forall|j: int| 0 <= j < r.entries().len() implies (#[trigger] r.entries()[j]).len() > 0 by {
                assert(r.entries()[j] == out@[j]@);
            }
            assert forall|a: int| 0 <= a < r.v.len() implies entry_ok(cs, s as int, e as int, #[trigger] r.entries()[a], db[out_tids[a]]) by {
                assert(r.entries()[a] == out@[a]@);
            }
            assert forall|tt: int|
                0 <= tt < db.len() && !out_tids.contains(tt) implies forall|x: int|
                    s <= x < e ==> !contains_all(#[trigger] db[tt], c.candidates@[x].items_spec()) by {
                assert forall|x: int| s <= x < e implies !contains_all(#[trigger] db[tt], c.candidates@[x].items_spec()) by {
                    assert(c.candidates@[x].items_spec() == cs[x].items_spec());
                }
            }
            assert(db.take(db.len() as int) =~= db);
        }
        r
    }
}

} // verus!
