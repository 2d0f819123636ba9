//! The two specialisations of the prefix tree: a set of itemsets, and a
//! counter from candidate itemsets to their occurrence counts.
use vstd::prelude::*;
use crate::itemset::{ascending, without};
use crate::trie::{counted, inserted, Trie};

verus! {

/// `n`, or `usize::MAX` where `n` would not fit.
pub open spec fn saturate(n: nat) -> nat {
    if n < usize::MAX {
        n
    } else {
        usize::MAX as nat
    }
}

/// A set of itemsets, held as a prefix tree whose members carry the value 1
/// and whose other nodes carry 0.
pub struct TrieSet {
    trie: Trie,
    len: usize,
    members: Ghost<Set<Seq<usize>>>,
}

impl View for TrieSet {
    type V = Set<Seq<usize>>;

    closed spec fn view(&self) -> Set<Seq<usize>> {
        self.members@
    }
}

impl TrieSet {
    /// The members are exactly the nodes with a non-zero value.
    pub closed spec fn wf(&self) -> bool {
        &&& self.trie.wf()
        &&& self.trie.blank() == 0
        &&& self.members@.finite()
        &&& self.len as nat == saturate(self.members@.len())
        &&& forall|p: Seq<usize>|
            #[trigger] self.members@.contains(p) <==> (self.trie@.contains_key(p) && self.trie@[p]
                != 0)
    }

    /// The empty set.
    pub fn new() -> (r: TrieSet)
        ensures
            r.wf(),
            r@ == Set::<Seq<usize>>::empty(),
    {
        TrieSet { trie: Trie::new(0), len: 0, members: Ghost(Set::empty()) }
    }

    /// Adds the itemset `v`.
    pub fn insert(&mut self, v: &[usize])
        requires
            old(self).wf(),
        ensures
            final(self).wf(),
            final(self)@ == old(self)@.insert(v@),
    {
        let had = self.trie.get(v);
        let was_member = match had {
            Some(x) => x != 0,
            None => false,
        };
        self.trie.insert(v, 1);
        self.members = Ghost(self.members@.insert(v@));
        if !was_member && self.len < usize::MAX {
            self.len = self.len + 1;
        }
        assert(old(self)@.contains(v@) == was_member);
        assert forall|p: Seq<usize>| #[trigger] self.members@.contains(p) <==> (
        self.trie@.contains_key(p) && self.trie@[p] != 0) by {
            let m = old(self).trie@;
            assert(old(self).members@.contains(p) <==> (m.contains_key(p) && m[p] != 0));
            assert(self.trie@ == crate::trie::inserted(m, v@, 1, 0));
            if p == v@ {
                assert(self.trie@.contains_key(p));
                assert(self.trie@[p] == 1);
            } else if m.contains_key(p) {
                assert(self.trie@.contains_key(p));
                assert(self.trie@[p] == m[p]);
            } else if self.trie@.contains_key(p) {
                assert(self.trie@[p] == 0);
            }
        }
    }

    /// Whether `v` is a member.
    pub fn contains(&self, v: &[usize]) -> (r: bool)
        requires
            self.wf(),
        ensures
            r == self@.contains(v@),
    {
        match self.trie.get(v) {
            Some(x) => x != 0,
            None => false,
        }
    }

    /// The number of members (saturating at `usize::MAX`).
    pub fn len(&self) -> (r: usize)
        requires
            self.wf(),
        ensures
            r as nat == saturate(self@.len()),
    {
        self.len
    }

    /// Whether the set has no member.
    pub fn is_empty(&self) -> (r: bool)
        requires
            self.wf(),
        ensures
            r == (self@.len() == 0),
    {
        self.len == 0
    }

    /// The itemsets of `all` whose count is at least `sup`.
    pub fn from_counts(all: &Vec<(Vec<usize>, u64)>, sup: u64) -> (r: TrieSet)
        ensures
            r.wf(),
            forall|q: Seq<usize>|
                #[trigger] r@.contains(q) <==> exists|j: int|
                    0 <= j < all.len() && all@[j].0@ == q && all@[j].1 >= sup,
    {
        let mut r = TrieSet::new();
        let mut i: usize = 0;
        while i < all.len()
            invariant
                r.wf(),
                i <= all.len(),
                forall|q: Seq<usize>|
                    #[trigger] r@.contains(q) <==> exists|j: int|
                        0 <= j < i && all@[j].0@ == q && all@[j].1 >= sup,
            decreases all.len() - i,
        {
            let ghost r0 = r@;
            if all[i].1 >= sup {
                r.insert(&all[i].0);
            }
            assert forall|q: Seq<usize>| #[trigger] r@.contains(q) <==> exists|j: int|
                0 <= j < i + 1 && all@[j].0@ == q && all@[j].1 >= sup by {
                if r@.contains(q) && !r0.contains(q) {
                    assert(all@[i as int].0@ == q);
                }
                if exists|j: int| 0 <= j < i + 1 && all@[j].0@ == q && all@[j].1 >= sup {
                    let j = choose|j: int| 0 <= j < i + 1 && all@[j].0@ == q && all@[j].1 >= sup;
                    if j < i {
                        assert(r0.contains(q));
                    }
                }
            }
            i = i + 1;
        }
        r
    }

    /// Every member of length `k`.
    pub fn for_each(&self, k: usize) -> (r: Vec<Vec<usize>>)
        requires
            self.wf(),
        ensures
            forall|i: int|
                0 <= i < r.len() ==> (#[trigger] r@[i])@.len() == k && self@.contains(r@[i]@),
            forall|q: Seq<usize>|
                q.len() == k && #[trigger] self@.contains(q) ==> exists|i: int|
                    0 <= i < r.len() && r@[i]@ == q,
            forall|a: int, b: int| 0 <= a < b < r.len() ==> (#[trigger] r@[a])@ != (#[trigger] r@[b])@,
    {
        let all = self.trie.for_each(k);
        let mut r: Vec<Vec<usize>> = Vec::new();
        let mut i: usize = 0;
        while i < all.len()
            invariant
                self.wf(),
                i <= all.len(),
                forall|j: int|
                    0 <= j < all.len() ==> (#[trigger] all@[j]).0@.len() == k
                        && self.trie@.contains_key(all@[j].0@) && self.trie@[all@[j].0@]
                        == all@[j].1,
                forall|q: Seq<usize>|
                    q.len() == k && #[trigger] self.trie@.contains_key(q) ==> exists|j: int|
                        0 <= j < all.len() && all@[j].0@ == q,
                forall|j: int|
                    0 <= j < r.len() ==> (#[trigger] r@[j])@.len() == k && self@.contains(r@[j]@),
                forall|j: int|
                    0 <= j < i && all@[j].1 != 0 ==> exists|m: int|
                        0 <= m < r.len() && r@[m]@ == (#[trigger] all@[j]).0@,
                forall|a: int, b: int| 0 <= a < b < all.len() ==> (#[trigger] all@[a]).0@ != (#[trigger] all@[b]).0@,
                forall|a: int, b: int| 0 <= a < b < r.len() ==> (#[trigger] r@[a])@ != (#[trigger] r@[b])@,
                forall|m: int| 0 <= m < r.len() ==> exists|j: int| 0 <= j < i && (#[trigger] r@[m])@ == all@[j].0@,
            decreases all.len() - i,
        {
            if all[i].1 != 0 {
                let ghost r0 = r@;
                r.push(all[i].0.clone());
                assert(r@[r0.len() as int]@ == all@[i as int].0@);
                assert forall|j: int|
                    0 <= j < i + 1 && all@[j].1 != 0 implies exists|m: int|
                        0 <= m < r.len() && r@[m]@ == (#[trigger] all@[j]).0@ by {
                    if j < i {
                        let m = choose|m: int| 0 <= m < r0.len() && r0[m]@ == all@[j].0@;
                        assert(r@[m] == r0[m]);
                    }
                }
                assert forall|m: int| 0 <= m < r.len() implies exists|j: int| 0 <= j < i + 1 && (#[trigger] r@[m])@ == all@[j].0@ by {
                    if m < r0.len() {
                        assert(r@[m] == r0[m]);
                        let j = choose|j: int| 0 <= j < i && (#[trigger] r0[m])@ == all@[j].0@;
                    }
                }
                assert forall|a: int, b: int| 0 <= a < b < r.len() implies (#[trigger] r@[a])@ != (#[trigger] r@[b])@ by {
                    assert(r@[a] == r0[a]);
                    if b < r0.len() {
                        assert(r@[b] == r0[b]);
                    } else {
                        let j = choose|j: int| 0 <= j < i && (#[trigger] r0[a])@ == all@[j].0@;
                        assert(all@[j].0@ != all@[i as int].0@);
                    }
                }
            }
            i = i + 1;
        }
        assert forall|q: Seq<usize>| q.len() == k && #[trigger] self@.contains(q) implies exists|
            i: int,
        | 0 <= i < r.len() && r@[i]@ == q by {
            let j = choose|j: int| 0 <= j < all.len() && all@[j].0@ == q;
            assert(all@[j].1 != 0);
        }
        r
    }
}

/// A counter from itemsets to occurrence counts, held as a prefix tree whose
/// nodes start at 0. Its view maps every node's path to its count.
pub struct TrieCounter {
    trie: Trie,
}

impl View for TrieCounter {
    type V = Map<Seq<usize>, u64>;

    closed spec fn view(&self) -> Map<Seq<usize>, u64> {
        self.trie@
    }
}

impl TrieCounter {
    /// The underlying tree is well formed and starts new nodes at 0.
    pub closed spec fn wf(&self) -> bool {
        &&& self.trie.wf()
        &&& self.trie.blank() == 0
    }

    /// An empty counter: the root alone, at 0.
    pub fn new() -> (r: TrieCounter)
        ensures
            r.wf(),
            r@ == map![Seq::<usize>::empty() => 0u64],
    {
        TrieCounter { trie: Trie::new(0) }
    }

    /// Sets the count of `v` to `c`, creating it (and its missing prefixes,
    /// at 0) if needed. Returns whether a node was created.
    pub fn add(&mut self, v: &[usize], c: u64) -> (created: bool)
        requires
            old(self).wf(),
        ensures
            final(self).wf(),
            created == !old(self)@.contains_key(v@),
            final(self)@ == crate::trie::inserted(old(self)@, v@, c, 0),
            final(self)@.contains_key(v@),
            final(self)@[v@] == c,
    {
        self.trie.insert(v, c)
    }

    /// Puts `v` in with count 0.
    pub fn insert(&mut self, v: &[usize])
        requires
            old(self).wf(),
        ensures
            final(self).wf(),
            final(self)@ == crate::trie::inserted(old(self)@, v@, 0, 0),
            final(self)@.contains_key(v@),
            final(self)@[v@] == 0,
    {
        self.add(v, 0);
    }

    /// The count at `v`, if the counter has a node there.
    pub fn get_count(&self, v: &[usize]) -> (r: Option<u64>)
        requires
            self.wf(),
        ensures
            r == if self@.contains_key(v@) {
                Some(self@[v@])
            } else {
                None::<u64>
            },
    {
        self.trie.get(v)
    }

    /// Adds one to the count at `v` if there is a node there.
    pub fn increment(&mut self, v: &[usize]) -> (r: bool)
        requires
            old(self).wf(),
            old(self)@.contains_key(v@) ==> old(self)@[v@] < u64::MAX,
        ensures
            final(self).wf(),
            r == old(self)@.contains_key(v@),
            final(self)@ == if r {
                old(self)@.insert(v@, (old(self)@[v@] + 1) as u64)
            } else {
                old(self)@
            },
    {
        self.trie.increment(v)
    }

    /// Counts one ascending transaction against every node at depth `k`.
    pub fn count(&mut self, t: &[usize], k: usize)
        requires
            old(self).wf(),
            ascending(t@),
            forall|q: Seq<usize>|
                #[trigger] old(self)@.contains_key(q) && q.len() == k ==> old(self)@[q] < u64::MAX,
        ensures
            final(self).wf(),
            final(self)@ == counted(old(self)@, t@, k as nat),
    {
        self.trie.count(t, k);
    }

    /// Every node at depth `k`, with its count.
    pub fn for_each(&self, k: usize) -> (r: Vec<(Vec<usize>, u64)>)
        requires
            self.wf(),
        ensures
            forall|i: int|
                0 <= i < r.len() ==> (#[trigger] r@[i]).0@.len() == k && self@.contains_key(r@[i].0@)
                    && self@[r@[i].0@] == r@[i].1,
            forall|q: Seq<usize>|
                q.len() == k && #[trigger] self@.contains_key(q) ==> exists|i: int|
                    0 <= i < r.len() && r@[i].0@ == q,
            forall|a: int, b: int| 0 <= a < b < r.len() ==> (#[trigger] r@[a]).0@ != (#[trigger] r@[b]).0@,
    {
        self.trie.for_each(k)
    }

    /// The itemsets at depth `k` whose count is at least `sup`.
    pub fn to_frequent(&self, k: usize, sup: u64) -> (r: TrieSet)
        requires
            self.wf(),
        ensures
            r.wf(),
            forall|q: Seq<usize>|
                #[trigger] r@.contains(q) <==> (q.len() == k && self@.contains_key(q) && self@[q]
                    >= sup),
    {
        let all = self.trie.for_each(k);
        let r = TrieSet::from_counts(&all, sup);
        assert forall|q: Seq<usize>| #[trigger] r@.contains(q) <==> (q.len() == k
            && self@.contains_key(q) && self@[q] >= sup) by {
            if q.len() == k && self@.contains_key(q) && self@[q] >= sup {
                let j = choose|j: int| 0 <= j < all.len() && all@[j].0@ == q;
                assert(all@[j].1 >= sup);
            }
        }
        r
    }
}


/// `q` is a `k`-candidate of the family `f` of (k-1)-itemsets: ascending, with
/// every (k-1)-subset (`q` with one item left out) in `f`.
pub open spec fn candidate(f: Set<Seq<usize>>, q: Seq<usize>, k: nat) -> bool {
    &&& q.len() == k
    &&& ascending(q)
    &&& forall|i: int| 0 <= i < k ==> f.contains(#[trigger] without(q, i))
}

/// The two itemsets share all but their last item, where they differ.
pub open spec fn joinable(a: Seq<usize>, b: Seq<usize>, k: nat) -> bool {
    &&& a.len() == k - 1
    &&& b.len() == k - 1
    &&& a.take(k - 2) == b.take(k - 2)
    &&& a[k - 2] != b[k - 2]
}

/// The join of two joinable itemsets: their shared prefix, then their two
/// last items in ascending order.
pub open spec fn joined(a: Seq<usize>, b: Seq<usize>, k: nat) -> Seq<usize> {
    let (x, y) = (a[k - 2], b[k - 2]);
    a.take(k - 2) + if x < y {
        seq![x, y]
    } else {
        seq![y, x]
    }
}

/// Pruning keeps only candidates all of whose (k-1)-subsets are frequent.
pub proof fn lemma_pruned_subsets(f: Set<Seq<usize>>, q: Seq<usize>, k: nat, i: int)
    requires
        candidate(f, q, k),
        0 <= i < k,
    ensures
        f.contains(without(q, i)),
        without(q, i).len() == k - 1,
{
}

/// `c` with its `i`-th item left out.
fn remove_at(c: &Vec<usize>, i: usize) -> (r: Vec<usize>)
    requires
        i < c.len(),
    ensures
        r@ == without(c@, i as int),
{
    let mut r: Vec<usize> = Vec::new();
    let mut j: usize = 0;
    while j < c.len()
        invariant
            i < c.len(),
            j <= c.len(),
            r@ == if j <= i {
                c@.take(j as int)
            } else {
                c@.take(i as int) + c@.subrange(i + 1, j as int)
            },
        decreases c.len() - j,
    {
        if j != i {
            r.push(c[j]);
        }
        proof {
            if j < i {
                assert(c@.take(j + 1) =~= c@.take(j as int).push(c@[j as int]));
            } else if j == i {
                assert(c@.take(i as int) + c@.subrange(i + 1, j + 1) =~= c@.take(i as int));
            } else {
                assert(c@.subrange(i + 1, j + 1) =~= c@.subrange(i + 1, j as int).push(c@[j as int]));
            }
        }
        j = j + 1;
    }
    assert(c@.subrange(i + 1, c.len() as int) =~= c@.skip(i + 1));
    r
}

/// The joined candidate built from `a` and `b`.
pub(crate) fn join_pair(a: &Vec<usize>, b: &Vec<usize>, k: usize) -> (r: Vec<usize>)
    requires
        k >= 2,
        joinable(a@, b@, k as nat),
    ensures
        r@ == joined(a@, b@, k as nat),
{
    let mut r: Vec<usize> = Vec::new();
    let mut j: usize = 0;
    while j < k - 2
        invariant
            k >= 2,
            a.len() == k - 1,
            j <= k - 2,
            r@ == a@.take(j as int),
        decreases k - 2 - j,
    {
        r.push(a[j]);
        assert(a@.take(j + 1) =~= a@.take(j as int).push(a@[j as int]));
        j = j + 1;
    }
    let x = a[k - 2];
    let y = b[k - 2];
    if x < y {
        r.push(x);
        r.push(y);
    } else {
        r.push(y);
        r.push(x);
    }
    assert(r@ =~= joined(a@, b@, k as nat));
    r
}

/// Whether the first `m` items of `a` and `b` agree.
pub(crate) fn same_prefix(a: &Vec<usize>, b: &Vec<usize>, m: usize) -> (r: bool)
    requires
        m <= a.len(),
        m <= b.len(),
    ensures
        r == (a@.take(m as int) == b@.take(m as int)),
{
    let mut j: usize = 0;
    while j < m
        invariant
            m <= a.len(),
            m <= b.len(),
            j <= m,
            a@.take(j as int) == b@.take(j as int),
        decreases m - j,
    {
        if a[j] != b[j] {
            assert(a@.take(m as int)[j as int] != b@.take(m as int)[j as int]);
            return false;
        }
        assert(a@.take(j + 1) =~= a@.take(j as int).push(a@[j as int]));
        assert(b@.take(j + 1) =~= b@.take(j as int).push(b@[j as int]));
        j = j + 1;
    }
    true
}

/// The join of two joinable ascending itemsets is ascending, and leaving out
/// either of its last two items gives back `a` or `b`.
pub(crate) proof fn lemma_joined(a: Seq<usize>, b: Seq<usize>, k: nat)
    requires
        k >= 2,
        joinable(a, b, k),
        ascending(a),
        ascending(b),
    ensures
        ascending(joined(a, b, k)),
        joined(a, b, k).len() == k,
        joined(a, b, k) == joined(b, a, k),
{
    let c = joined(a, b, k);
    assert forall|i: int, j: int| 0 <= i < j < c.len() implies c[i] < c[j] by {
        if j < k - 2 {
            assert(c[i] == a[i] && c[j] == a[j]);
        } else if i < k - 2 {
            assert(c[i] == a[i]);
            assert(a[i] < a[k - 2]);
            assert(b.take(k - 2)[i] == a.take(k - 2)[i]);
            assert(b[i] < b[k - 2]);
        }
    }
    assert(joined(a, b, k) =~= joined(b, a, k));
}

/// Leaving out one of the last two items of a join gives back its two
/// generators, the one with the smaller last item first.
pub(crate) proof fn lemma_joined_parts(a: Seq<usize>, b: Seq<usize>, k: nat)
    requires
        k >= 2,
        joinable(a, b, k),
    ensures
        without(joined(a, b, k), k - 1) == (if a[k - 2] < b[k - 2] { a } else { b }),
        without(joined(a, b, k), k - 2) == (if a[k - 2] < b[k - 2] { b } else { a }),
{
    let c = joined(a, b, k);
    assert(a =~= a.take(k - 2).push(a[k - 2]));
    assert(b =~= b.take(k - 2).push(b[k - 2]));
    assert(without(c, k - 1) =~= (if a[k - 2] < b[k - 2] { a } else { b }));
    assert(without(c, k - 2) =~= (if a[k - 2] < b[k - 2] { b } else { a }));
}

/// An ascending itemset of length `k` is the join of its two subsets that
/// leave out one of the last two items.
pub(crate) proof fn lemma_split(q: Seq<usize>, k: nat)
    requires
        k >= 2,
        q.len() == k,
        ascending(q),
    ensures
        joinable(without(q, k - 1), without(q, k - 2), k),
        joined(without(q, k - 1), without(q, k - 2), k) == q,
{
    let a = without(q, k - 1);
    let b = without(q, k - 2);
    assert(a.take(k - 2) =~= q.take(k - 2));
    assert(b.take(k - 2) =~= q.take(k - 2));
    assert(a[k - 2] == q[k - 2]);
    assert(b[k - 2] == q[k - 1]);
    assert(joined(a, b, k) =~= q);
}

impl TrieSet {
    /// Whether every (k-1)-subset of `c` (one item left out) is a member.
    pub fn prune(&self, c: &Vec<usize>) -> (r: bool)
        requires
            self.wf(),
        ensures
            r == forall|i: int| 0 <= i < c.len() ==> self@.contains(#[trigger] without(c@, i)),
    {
        let mut i: usize = 0;
        while i < c.len()
            invariant
                self.wf(),
                i <= c.len(),
                forall|m: int| 0 <= m < i ==> self@.contains(#[trigger] without(c@, m)),
            decreases c.len() - i,
        {
            let w = remove_at(c, i);
            if !self.contains(&w) {
                return false;
            }
            i = i + 1;
        }
        true
    }

    /// Pairs are found by comparing their prefixes directly, so no
    /// grouping table is built.
    /// Joins the members, all ascending (k-1)-itemsets, pairwise on their
    /// shared (k-2)-prefix, and keeps the joins that survive pruning: the
    /// result counts, at 0, exactly the k-candidates of this family.
    pub fn join(&self, k: usize) -> (r: TrieCounter)
        requires
            self.wf(),
            k >= 2,
            forall|q: Seq<usize>| #[trigger] self@.contains(q) ==> q.len() == k - 1 && ascending(q),
        ensures
            r.wf(),
            forall|q: Seq<usize>| #[trigger] r@.contains_key(q) ==> q.len() <= k && r@[q] == 0,
            forall|q: Seq<usize>|
                q.len() == k ==> (#[trigger] r@.contains_key(q) <==> candidate(self@, q, k as nat)),
    {
        let list = self.for_each(k - 1);
        let n = list.len();
        let mut out = TrieCounter::new();
        let mut i: usize = 0;
        while i < n
            invariant
                self.wf(),
                k >= 2,
                n == list.len(),
                i <= n,
                out.wf(),
                forall|q: Seq<usize>| #[trigger] self@.contains(q) ==> q.len() == k - 1 && ascending(q),
                forall|m: int| 0 <= m < n ==> (#[trigger] list@[m])@.len() == k - 1 && self@.contains(list@[m]@),
                forall|q: Seq<usize>| #[trigger] out@.contains_key(q) ==> q.len() <= k && out@[q] == 0,
                forall|q: Seq<usize>|
                    q.len() == k && #[trigger] out@.contains_key(q) ==> candidate(self@, q, k as nat),
                forall|x: int, y: int|
                    0 <= x < i && x < y < n && joinable(list@[x]@, list@[y]@, k as nat) && candidate(
                        self@,
                        joined(list@[x]@, list@[y]@, k as nat),
                        k as nat,
                    ) ==> #[trigger] out@.contains_key(joined(list@[x]@, list@[y]@, k as nat)),
            decreases n - i,
        {
            let mut j: usize = i + 1;
            while j < n
                invariant
                    self.wf(),
                    k >= 2,
                    n == list.len(),
                    i < n,
                    i + 1 <= j <= n,
                    out.wf(),
                    forall|q: Seq<usize>| #[trigger] self@.contains(q) ==> q.len() == k - 1 && ascending(q),
                    forall|m: int| 0 <= m < n ==> (#[trigger] list@[m])@.len() == k - 1 && self@.contains(list@[m]@),
                    forall|q: Seq<usize>| #[trigger] out@.contains_key(q) ==> q.len() <= k && out@[q] == 0,
                    forall|q: Seq<usize>|
                        q.len() == k && #[trigger] out@.contains_key(q) ==> candidate(self@, q, k as nat),
                    forall|x: int, y: int|
                        0 <= x <= i && x < y < n && (x < i || y < j) && joinable(list@[x]@, list@[y]@, k as nat) && candidate(
                            self@,
                            joined(list@[x]@, list@[y]@, k as nat),
                            k as nat,
                        ) ==> #[trigger] out@.contains_key(joined(list@[x]@, list@[y]@, k as nat)),
                decreases n - j,
            {
                let a = &list[i];
                let b = &list[j];
                let ghost o = out@;
                if same_prefix(a, b, k - 2) && a[k - 2] != b[k - 2] {
                    let c = join_pair(a, b, k);
                    proof {
                        lemma_joined(a@, b@, k as nat);
                    }
                    if self.prune(&c) {
                        out.insert(&c);
                        proof {
                            assert(out@ == inserted(o, c@, 0, 0));
                            assert forall|q: Seq<usize>| #[trigger] out@.contains_key(q) implies q.len() <= k && out@[q] == 0 by {
                                if !o.contains_key(q) {
                                    assert(q.len() <= c@.len());
                                }
                            }
                            assert forall|q: Seq<usize>|
                                q.len() == k && #[trigger] out@.contains_key(q) implies candidate(self@, q, k as nat) by {
                                if !o.contains_key(q) {
                                    assert(c@.take(q.len() as int) == q);
                                    assert(c@.take(k as int) =~= c@);
                                }
                            }
                        }
                    }
                }
                proof {
                    assert forall|x: int, y: int|
                        0 <= x <= i && x < y < n && (x < i || y < j + 1) && joinable(list@[x]@, list@[y]@, k as nat) && candidate(
                            self@,
                            joined(list@[x]@, list@[y]@, k as nat),
                            k as nat,
                        ) implies #[trigger] out@.contains_key(joined(list@[x]@, list@[y]@, k as nat)) by {
                        if !(x < i || y < j) {
                            assert(x == i && y == j);
                            assert(list@[x]@.take(k - 2) == list@[y]@.take(k - 2));
                        } else {
                            assert(o.contains_key(joined(list@[x]@, list@[y]@, k as nat)));
                        }
                    }
                }
                j = j + 1;
            }
            i = i + 1;
        }
        assert forall|q: Seq<usize>|
            q.len() == k implies (#[trigger] out@.contains_key(q) <==> candidate(self@, q, k as nat)) by {
            if candidate(self@, q, k as nat) {
                lemma_split(q, k as nat);
                let a = without(q, k - 1);
                let b = without(q, k - 2);
                assert(self@.contains(a));
                assert(self@.contains(b));
                let x = choose|x: int| 0 <= x < n && list@[x]@ == a;
                let y = choose|y: int| 0 <= y < n && list@[y]@ == b;
                assert(x != y) by {
                    assert(a[k - 2] != b[k - 2]);
                }
                lemma_joined(a, b, k as nat);
                if x < y {
                    assert(out@.contains_key(joined(list@[x]@, list@[y]@, k as nat)));
                } else {
                    assert(joinable(b, a, k as nat));
                    assert(out@.contains_key(joined(list@[y]@, list@[x]@, k as nat)));
                }
            }
        }
        out
    }
}

} // verus!
