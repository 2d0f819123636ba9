//! The level-wise Apriori engine: dense counting for the first two passes,
//! join-and-count on the prefix tree for the later ones, and the driver that
//! runs levels until one comes out empty.
use vstd::prelude::*;
use vstd::slice::slice_to_vec;
use crate::array2d::{same_pair, AprioriP2Counter2};
use crate::itemset::{
    ascending, contains_all, contains_sorted, lemma_subseq_iff_contains,
    lemma_support_anti_monotone, lemma_support_bound, lemma_support_step, lemma_without, support,
    without,
};
use crate::storage::{candidate, TrieCounter, TrieSet};
use crate::transaction_set::TransactionSet;
use crate::trie::counted;

verus! {

/// `q` is a frequent itemset of length `k` over items below `m`: ascending,
/// made of items below `m`, with support at least `sup` in `db`.
pub open spec fn frequent_of(db: Seq<Seq<usize>>, q: Seq<usize>, k: nat, sup: nat, m: nat) -> bool {
    &&& q.len() == k
    &&& ascending(q)
    &&& forall|i: int| 0 <= i < q.len() ==> #[trigger] q[i] < m
    &&& support(db, q) >= sup
}

/// The set `f` holds exactly the frequent itemsets of length `k`.
pub open spec fn is_level(f: Set<Seq<usize>>, db: Seq<Seq<usize>>, k: nat, sup: nat, m: nat) -> bool {
    forall|q: Seq<usize>| #[trigger] f.contains(q) <==> frequent_of(db, q, k, sup, m)
}

/// Candidate generation is complete and counting exact: from the frequent
/// (k-1)-itemsets, the k-candidates with support at least `sup` are exactly
/// the frequent k-itemsets.
pub proof fn lemma_level_step(f: Set<Seq<usize>>, db: Seq<Seq<usize>>, k: nat, sup: nat, m: nat, q: Seq<usize>)
    requires
        k >= 2,
        forall|p: Seq<usize>| p.len() == k - 1 ==> (#[trigger] f.contains(p) <==> frequent_of(db, p, (k - 1) as nat, sup, m)),
    ensures
        (candidate(f, q, k) && support(db, q) >= sup) <==> frequent_of(db, q, k, sup, m),
{
    if candidate(f, q, k) && support(db, q) >= sup {
        assert forall|i: int| 0 <= i < q.len() implies #[trigger] q[i] < m by {
            let w = if i == 0 { without(q, 1) } else { without(q, 0) };
            lemma_without(q, if i == 0 { 1 } else { 0 });
            assert(f.contains(w));
            if i == 0 {
                assert(w[0] == q[0]);
            } else {
                assert(w[i - 1] == q[i]);
            }
        }
    }
    if frequent_of(db, q, k, sup, m) {
        assert forall|i: int| 0 <= i < k implies f.contains(#[trigger] without(q, i)) by {
            lemma_without(q, i);
            let w = without(q, i);
            lemma_support_anti_monotone(db, w, q);
            assert forall|j: int| 0 <= j < w.len() implies #[trigger] w[j] < m by {
                if j < i {
                    assert(w[j] == q[j]);
                } else {
                    assert(w[j] == q[j + 1]);
                }
            }
        }
    }
}

/// An ascending itemset over items below `m` has at most `m` items.
pub proof fn lemma_ascending_len(q: Seq<usize>, m: nat)
    requires
        ascending(q),
        forall|i: int| 0 <= i < q.len() ==> #[trigger] q[i] < m,
    ensures
        q.len() <= m,
{
    assert forall|i: int| 0 <= i < q.len() implies q[i] >= i by {
        lemma_ascending_index(q, i);
    }
    if q.len() > 0 {
        assert(q[q.len() - 1] >= q.len() - 1);
    }
}

proof fn lemma_ascending_index(q: Seq<usize>, i: int)
    requires
        ascending(q),
        0 <= i < q.len(),
    ensures
        q[i] >= i,
    decreases i,
{
    if i > 0 {
        lemma_ascending_index(q, i - 1);
    }
}

/// A transaction's prefix holds `x` exactly when the one item shorter prefix
/// does or `x` is the item added.
proof fn lemma_take_contains(t: Seq<usize>, i: int, x: usize)
    requires
        0 <= i < t.len(),
    ensures
        t.take(i + 1).contains(x) <==> (t.take(i).contains(x) || t[i] == x),
{
    if t.take(i + 1).contains(x) {
        let j = choose|j: int| 0 <= j < i + 1 && #[trigger] t.take(i + 1)[j] == x;
        if j < i {
            assert(t.take(i)[j] == x);
        }
    }
    if t.take(i).contains(x) {
        let j = choose|j: int| 0 <= j < i && #[trigger] t.take(i)[j] == x;
        assert(t.take(i + 1)[j] == x);
    }
    if t[i] == x {
        assert(t.take(i + 1)[i] == x);
    }
}

/// In an ascending transaction, the items before position `i` are below `t[i]`.
proof fn lemma_take_below(t: Seq<usize>, i: int, x: usize)
    requires
        ascending(t),
        0 <= i < t.len(),
        t.take(i).contains(x),
    ensures
        x < t[i],
{
    let j = choose|j: int| 0 <= j < i && #[trigger] t.take(i)[j] == x;
    assert(t[j] == x);
}

pub(crate) proof fn lemma_contains_single(t: Seq<usize>, x: usize)
    ensures
        contains_all(t, seq![x]) <==> t.contains(x),
{
    if t.contains(x) {
        assert forall|i: int| 0 <= i < 1 implies t.contains(#[trigger] seq![x][i]) by {
            assert(seq![x][i] == x);
        }
    }
    if contains_all(t, seq![x]) {
        assert(t.contains(seq![x][0]));
    }
}

proof fn lemma_contains_pair(t: Seq<usize>, a: usize, b: usize)
    ensures
        contains_all(t, seq![a, b]) <==> (t.contains(a) && t.contains(b)),
{
    let p = seq![a, b];
    if t.contains(a) && t.contains(b) {
        assert forall|i: int| 0 <= i < 2 implies t.contains(#[trigger] p[i]) by {
            if i == 0 {
                assert(p[0] == a);
            } else {
                assert(p[1] == b);
            }
        }
    }
    if contains_all(t, p) {
        assert(t.contains(p[0]));
        assert(t.contains(p[1]));
    }
}

/// Counts, for every item below the cardinality, the transactions holding it.
pub fn apriori_pass_one_counter(data: &TransactionSet) -> (r: Vec<u64>)
    requires
        data.wf(),
    ensures
        r.len() == data.num_items,
        forall|x: int| 0 <= x < r.len() ==> #[trigger] r@[x] == support(data@, seq![x as usize]),
{
    let ghost db = data@;
    let m = data.num_items;
    let mut counter: Vec<u64> = Vec::new();
    let mut x: usize = 0;
    while x < m
        invariant
            x <= m,
            counter.len() == x,
            forall|y: int| 0 <= y < x ==> counter@[y] == 0,
        decreases m - x,
    {
        counter.push(0);
        x = x + 1;
    }
    assert forall|y: int| 0 <= y < m implies #[trigger] counter@[y] == support(db.take(0), seq![y as usize]) by {
        assert(db.take(0).len() == 0);
    }
    let mut j: usize = 0;
    while j < data.transactions.len()
        invariant
            data.wf(),
            db == data@,
            j <= db.len(),
            counter.len() == m,
            m == data.num_items,
            forall|y: int| 0 <= y < m ==> #[trigger] counter@[y] == support(db.take(j as int), seq![y as usize]),
        decreases db.len() - j,
    {
        let t = &data.transactions[j];
        let ghost tv = t@;
        assert(tv == db[j as int]);
        let mut i: usize = 0;
        while i < t.len()
            invariant
                data.wf(),
                db == data@,
                j < db.len(),
                tv == db[j as int],
                tv == t@,
                i <= t.len(),
                counter.len() == m,
                m == data.num_items,
                forall|y: int| 0 <= y < m ==> #[trigger] counter@[y] == support(db.take(j as int), seq![y as usize])
                    + if tv.take(i as int).contains(y as usize) { 1nat } else { 0nat },
            decreases t.len() - i,
        {
            let y = t[i];
            proof {
                assert(y < m);
                lemma_support_bound(db.take(j as int), seq![y]);
                if tv.take(i as int).contains(y) {
                    lemma_take_below(tv, i as int, y);
                }
                assert(counter@[y as int] <= j);
                assert(usize::MAX <= u64::MAX);
                assert(j < db.len());
                assert(db.len() == data.transactions.len());
                assert(counter@[y as int] < u64::MAX);
            }
            let ghost c0 = counter@;
            counter.set(y, counter[y] + 1);
            proof {
                assert forall|z: int| 0 <= z < m implies #[trigger] counter@[z] == support(db.take(j as int), seq![z as usize])
                    + if tv.take(i + 1).contains(z as usize) { 1nat } else { 0nat } by {
                    lemma_take_contains(tv, i as int, z as usize);
                    if z != y {
                        assert(counter@[z] == c0[z]);
                    }
                }
            }
            i = i + 1;
        }
        proof {
            assert(tv.take(tv.len() as int) =~= tv);
            assert forall|y: int| 0 <= y < m implies #[trigger] counter@[y] == support(db.take(j + 1), seq![y as usize]) by {
                lemma_support_step(db, j as int, seq![y as usize]);
                lemma_contains_single(tv, y as usize);
            }
        }
        j = j + 1;
    }
    assert(db.take(db.len() as int) =~= db);
    counter
}


/// The frequent items, ascending: those below the cardinality held by at
/// least `sup` transactions.
pub fn apriori_pass_one(data: &TransactionSet, sup: u64) -> (r: Vec<usize>)
    requires
        data.wf(),
    ensures
        ascending(r@),
        forall|x: usize| #[trigger] r@.contains(x) <==> (x < data.num_items && support(data@, seq![x]) >= sup),
{
    let counter = apriori_pass_one_counter(data);
    let mut r: Vec<usize> = Vec::new();
    let mut x: usize = 0;
    while x < counter.len()
        invariant
            counter.len() == data.num_items,
            forall|y: int| 0 <= y < counter.len() ==> #[trigger] counter@[y] == support(data@, seq![y as usize]),
            x <= counter.len(),
            ascending(r@),
            forall|i: int| 0 <= i < r.len() ==> #[trigger] r@[i] < x,
            forall|y: usize| #[trigger] r@.contains(y) <==> (y < x && support(data@, seq![y]) >= sup),
        decreases counter.len() - x,
    {
        let ghost r0 = r@;
        assert(counter@[x as int] == support(data@, seq![x]));
        if counter[x] >= sup {
            r.push(x);
            assert(r@ == r0.push(x));
            assert forall|y: usize| #[trigger] r@.contains(y) implies (y < x + 1 && support(data@, seq![y]) >= sup) by {
                let i = choose|i: int| 0 <= i < r@.len() && r@[i] == y;
                if i < r0.len() {
                    assert(r0[i] == y);
                    assert(r0.contains(y));
                }
            }
            assert forall|y: usize| (y < x + 1 && support(data@, seq![y]) >= sup) implies #[trigger] r@.contains(y) by {
                if y == x {
                    assert(r@[r0.len() as int] == x);
                } else {
                    assert(r0.contains(y));
                    let i = choose|i: int| 0 <= i < r0.len() && r0[i] == y;
                    assert(r@[i] == y);
                }
            }
        } else {
            assert(!r@.contains(x)) by {
                if r@.contains(x) {
                    let i = choose|i: int| 0 <= i < r@.len() && r@[i] == x;
                }
            }
        }
        x = x + 1;
    }
    r
}

/// Whether the transaction's first `i` items include `a` and it holds `b`,
/// or its item at `i` is `a` and `b` comes before position `i2`: the pairs
/// counted so far for this transaction.
pub open spec fn pair_seen(t: Seq<usize>, i: int, i2: int, a: usize, b: usize) -> bool {
    (t.take(i).contains(a) && t.contains(b)) || (i < t.len() && t[i] == a && t.take(i2).contains(b))
}

/// Counts into a fresh pair counter, for every pair of its items, the
/// transactions holding both.
pub fn apriori_pass_two_counter(data: &TransactionSet, counter: &mut AprioriP2Counter2)
    requires
        data.wf(),
        old(counter).wf(),
        forall|a: usize, b: usize|
            old(counter).items().contains(a) && old(counter).items().contains(b) && a != b ==> #[trigger] old(counter).pair_count(a, b) == 0,
    ensures
        final(counter).wf(),
        final(counter).items() == old(counter).items(),
        forall|a: usize, b: usize|
            final(counter).items().contains(a) && final(counter).items().contains(b) && a < b ==> #[trigger] final(counter).pair_count(a, b) == support(data@, seq![a, b]),
{
    let ghost db = data@;
    let ghost items = counter.items();
    let mut j: usize = 0;
    while j < data.transactions.len()
        invariant
            data.wf(),
            db == data@,
            j <= db.len(),
            counter.wf(),
            counter.items() == items,
            forall|a: usize, b: usize|
                items.contains(a) && items.contains(b) && a < b ==> #[trigger] counter.pair_count(a, b) == support(db.take(j as int), seq![a, b]),
        decreases db.len() - j,
    {
        let t = &data.transactions[j];
        let ghost tv = t@;
        assert(tv == db[j as int]);
        let mut i: usize = 0;
        while i < t.len()
            invariant
                data.wf(),
                db == data@,
                j < db.len(),
                db.len() == data.transactions.len(),
                tv == db[j as int],
                tv == t@,
                ascending(tv),
                i <= t.len(),
                counter.wf(),
                counter.items() == items,
                forall|a: usize, b: usize|
                    items.contains(a) && items.contains(b) && a < b ==> #[trigger] counter.pair_count(a, b) == support(db.take(j as int), seq![a, b])
                        + if pair_seen(tv, i as int, i + 1, a, b) { 1nat } else { 0nat },
            decreases t.len() - i,
        {
            let mut i2: usize = i + 1;
            while i2 < t.len()
                invariant
                    data.wf(),
                    db == data@,
                    j < db.len(),
                    db.len() == data.transactions.len(),
                    tv == db[j as int],
                    tv == t@,
                    ascending(tv),
                    i < t.len(),
                    i + 1 <= i2 <= t.len(),
                    counter.wf(),
                    counter.items() == items,
                    forall|a: usize, b: usize|
                        items.contains(a) && items.contains(b) && a < b ==> #[trigger] counter.pair_count(a, b) == support(db.take(j as int), seq![a, b])
                            + if pair_seen(tv, i as int, i2 as int, a, b) { 1nat } else { 0nat },
                decreases t.len() - i2,
            {
                let pair = [t[i], t[i2]];
                let ghost c0 = *counter;
                proof {
                    let (a, b) = (tv[i as int], tv[i2 as int]);
                    assert(a < b);
                    lemma_take_contains(tv, i2 as int, b);
                    if tv.take(i as int).contains(a) {
                        lemma_take_below(tv, i as int, a);
                    }
                    if tv.take(i2 as int).contains(b) {
                        lemma_take_below(tv, i2 as int, b);
                    }
                    if items.contains(a) && items.contains(b) {
                        lemma_support_bound(db.take(j as int), seq![a, b]);
                        assert(usize::MAX <= u64::MAX);
                        assert(counter.pair_count(a, b) < u64::MAX);
                    }
                }
                counter.increment(pair.as_slice());
                proof {
                    assert forall|a: usize, b: usize|
                        items.contains(a) && items.contains(b) && a < b implies #[trigger] counter.pair_count(a, b) == support(db.take(j as int), seq![a, b])
                            + if pair_seen(tv, i as int, i2 + 1, a, b) { 1nat } else { 0nat } by {
                        lemma_take_contains(tv, i2 as int, b);
                        if same_pair(a as nat, b as nat, tv[i as int] as nat, tv[i2 as int] as nat) {
                            assert(a == tv[i as int] && b == tv[i2 as int]);
                            if tv.take(i as int).contains(a) {
                                lemma_take_below(tv, i as int, a);
                            }
                            if tv.take(i2 as int).contains(b) {
                                lemma_take_below(tv, i2 as int, b);
                            }
                        }
                    }
                }
                i2 = i2 + 1;
            }
            proof {
                assert(tv.take(tv.len() as int) =~= tv);
                assert forall|a: usize, b: usize|
                    items.contains(a) && items.contains(b) && a < b implies #[trigger] counter.pair_count(a, b) == support(db.take(j as int), seq![a, b])
                        + if pair_seen(tv, i + 1, i + 2, a, b) { 1nat } else { 0nat } by {
                    lemma_take_contains(tv, i as int, a);
                    if i + 1 < tv.len() && tv[i + 1] == a && tv.take(i + 2).contains(b) {
                        lemma_take_contains(tv, i + 1, b);
                        if tv.take(i + 1).contains(b) {
                            lemma_take_below(tv, i + 1, b);
                        }
                    }
                }
            }
            i = i + 1;
        }
        proof {
            assert(tv.take(tv.len() as int) =~= tv);
            assert forall|a: usize, b: usize|
                items.contains(a) && items.contains(b) && a < b implies #[trigger] counter.pair_count(a, b) == support(db.take(j + 1), seq![a, b]) by {
                lemma_support_step(db, j as int, seq![a, b]);
                lemma_contains_pair(tv, a, b);
            }
        }
        j = j + 1;
    }
    assert(db.take(db.len() as int) =~= db);
}

/// The frequent pairs over the ascending items `freq`: pairs of its items
/// held by at least `sup` transactions.
pub fn apriori_pass_two(data: &TransactionSet, sup: u64, freq: &[usize]) -> (r: TrieSet)
    requires
        data.wf(),
        ascending(freq@),
        freq.len() * freq.len() <= usize::MAX,
    ensures
        r.wf(),
        forall|q: Seq<usize>| #[trigger] r@.contains(q) <==> (q.len() == 2 && q[0] < q[1]
            && freq@.contains(q[0]) && freq@.contains(q[1]) && support(data@, q) >= sup),
{
    let mut counter = AprioriP2Counter2::new(freq);
    apriori_pass_two_counter(data, &mut counter);
    let r = counter.to_frequent(sup);
    assert forall|q: Seq<usize>| #[trigger] r@.contains(q) <==> (q.len() == 2 && q[0] < q[1]
        && freq@.contains(q[0]) && freq@.contains(q[1]) && support(data@, q) >= sup) by {
        if q.len() == 2 {
            assert(seq![q[0], q[1]] =~= q);
        }
    }
    r
}

/// Counts every transaction against the candidates at depth `n` of the
/// counter: each goes up by its support; no node is added or removed, and
/// nodes at other depths keep their values.
pub fn apriori_pass_three_counter(data: &TransactionSet, counter: &mut TrieCounter, n: usize)
    requires
        data.wf(),
        old(counter).wf(),
        forall|q: Seq<usize>| #[trigger] old(counter)@.contains_key(q) && q.len() == n ==> ascending(q)
            && old(counter)@[q] + data@.len() <= u64::MAX,
    ensures
        final(counter).wf(),
        forall|q: Seq<usize>| #[trigger] final(counter)@.contains_key(q) <==> old(counter)@.contains_key(q),
        forall|q: Seq<usize>| #[trigger] final(counter)@.contains_key(q) && q.len() == n ==> final(counter)@[q] == old(counter)@[q] + support(data@, q),
        forall|q: Seq<usize>| #[trigger] final(counter)@.contains_key(q) && q.len() != n ==> final(counter)@[q] == old(counter)@[q],
{
    let ghost db = data@;
    let ghost c0 = counter@;
    let all = counter.for_each(n);
    let mut cands: Vec<Vec<usize>> = Vec::new();
    let mut x: usize = 0;
    while x < all.len()
        invariant
            x <= all.len(),
            cands.len() == x,
            forall|a: int| 0 <= a < x ==> (#[trigger] cands@[a])@ == all@[a].0@,
        decreases all.len() - x,
    {
        cands.push(all[x].0.clone());
        x = x + 1;
    }
    assert forall|a: int, b: int| 0 <= a < b < cands.len() implies (#[trigger] cands@[a])@ != (#[trigger] cands@[b])@ by {
        assert(all@[a].0@ != all@[b].0@);
    }
    assert forall|a: int| 0 <= a < cands.len() implies (#[trigger] cands@[a])@.len() == n && ascending(cands@[a]@) by {
        assert(all@[a].0@.len() == n && counter@.contains_key(all@[a].0@));
    }
    assert forall|q: Seq<usize>| q.len() == n implies (#[trigger] c0.contains_key(q) <==> listed(cands@, q)) by {
        if c0.contains_key(q) {
            let a = choose|a: int| 0 <= a < all.len() && all@[a].0@ == q;
            assert(cands@[a]@ == q);
        }
        if listed(cands@, q) {
            let a = choose|a: int| 0 <= a < cands.len() && #[trigger] cands@[a]@ == q;
            assert(all@[a].0@ == q);
        }
    }
    let mut j: usize = 0;
    assert forall|q: Seq<usize>| #[trigger] counter@.contains_key(q) implies counter@[q] == c0[q] + if q.len() == n {
        support(db.take(0), q) } else { 0 } by {
        assert(db.take(0).len() == 0);
    }
    while j < data.transactions.len()
        invariant
            data.wf(),
            db == data@,
            db.len() == data.transactions.len(),
            j <= db.len(),
            counter.wf(),
            forall|q: Seq<usize>| #[trigger] counter@.contains_key(q) <==> c0.contains_key(q),
            forall|q: Seq<usize>| #[trigger] c0.contains_key(q) && q.len() == n ==> ascending(q) && c0[q] + db.len() <= u64::MAX,
            forall|q: Seq<usize>| #[trigger] counter@.contains_key(q) ==> counter@[q] == c0[q] + if q.len() == n {
                support(db.take(j as int), q) } else { 0 },
            forall|a: int, b: int| 0 <= a < b < cands.len() ==> (#[trigger] cands@[a])@ != (#[trigger] cands@[b])@,
            forall|a: int| 0 <= a < cands.len() ==> (#[trigger] cands@[a])@.len() == n && ascending(cands@[a]@),
            forall|q: Seq<usize>| q.len() == n ==> (#[trigger] c0.contains_key(q) <==> listed(cands@, q)),
        decreases db.len() - j,
    {
        let t = &data.transactions[j];
        let ghost tv = t@;
        assert(tv == db[j as int]);
        let ghost m = counter@;
        proof {
            assert forall|q: Seq<usize>| #[trigger] counter@.contains_key(q) && q.len() == n implies counter@[q] < u64::MAX by {
                lemma_support_bound(db.take(j as int), q);
                assert(db.take(j as int).len() == j);
            }
        }
        count_fn(counter, &cands, t.as_slice(), n);
        proof {
            assert forall|q: Seq<usize>| #[trigger] counter@.contains_key(q) implies counter@[q] == c0[q] + if q.len() == n {
                support(db.take(j + 1), q) } else { 0 } by {
                lemma_support_step(db, j as int, q);
                if q.len() == n {
                    lemma_subseq_iff_contains(q, tv);
                    lemma_support_bound(db.take(j as int), q);
                }
            }
        }
        j = j + 1;
    }
    assert(db.take(db.len() as int) =~= db);
}

/// A fresh counter's candidates at depth `n` start at 0, so the bound the
/// counting asks for holds.
pub(crate) proof fn lemma_fresh_bound(data: &TransactionSet, m: Map<Seq<usize>, u64>, n: usize)
    requires
        forall|q: Seq<usize>| #[trigger] m.contains_key(q) && q.len() == n ==> m[q] == 0,
    ensures
        forall|q: Seq<usize>| #[trigger] m.contains_key(q) && q.len() == n ==> m[q] + data@.len() <= u64::MAX,
{
    assert(data@.len() == data.transactions.len());
    assert(usize::MAX <= u64::MAX);
}

/// One later level: joins the frequent (n-1)-itemsets `prev` into
/// n-candidates, counts them over the database, and keeps those held by at
/// least `sup` transactions.
pub fn apriori_pass_three(data: &TransactionSet, prev: &TrieSet, n: usize, sup: u64) -> (r: TrieSet)
    requires
        data.wf(),
        prev.wf(),
        n >= 2,
        forall|q: Seq<usize>| #[trigger] prev@.contains(q) ==> q.len() == n - 1 && ascending(q),
    ensures
        r.wf(),
        forall|q: Seq<usize>| #[trigger] r@.contains(q) <==> (candidate(prev@, q, n as nat) && support(data@, q) >= sup),
{
    let mut counter = prev.join(n);
    proof {
        lemma_fresh_bound(data, counter@, n);
    }
    apriori_pass_three_counter(data, &mut counter, n);
    counter.to_frequent(n, sup)
}


/// No itemset is listed twice.
pub open spec fn distinct(out: Seq<Vec<usize>>) -> bool {
    forall|a: int, b: int| 0 <= a < b < out.len() ==> (#[trigger] out[a])@ != (#[trigger] out[b])@
}

/// `q` is among the itemsets of `out`.
pub open spec fn listed(out: Seq<Vec<usize>>, q: Seq<usize>) -> bool {
    exists|i: int| 0 <= i < out.len() && #[trigger] out[i]@ == q
}

/// `q` is a frequent itemset of any length, over items below `m`.
pub open spec fn frequent_any(db: Seq<Seq<usize>>, q: Seq<usize>, sup: nat, m: nat) -> bool {
    q.len() >= 1 && frequent_of(db, q, q.len(), sup, m)
}

/// Appends the itemsets of `level` to `out`.
pub(crate) fn emit(out: &mut Vec<Vec<usize>>, level: &Vec<Vec<usize>>)
    ensures
        forall|q: Seq<usize>| #[trigger] listed(final(out)@, q) <==> (listed(old(out)@, q) || listed(level@, q)),
        (distinct(old(out)@) && distinct(level@) && (forall|q: Seq<usize>| #[trigger] listed(level@, q) ==> !listed(old(out)@, q)))
            ==> distinct(final(out)@),
{
    let ghost o = out@;
    let mut i: usize = 0;
    while i < level.len()
        invariant
            i <= level.len(),
            out@.len() == o.len() + i,
            forall|m: int| 0 <= m < o.len() ==> #[trigger] out@[m]@ == o[m]@,
            forall|m: int| 0 <= m < i ==> #[trigger] out@[o.len() + m]@ == level@[m]@,
        decreases level.len() - i,
    {
        out.push(level[i].clone());
        i = i + 1;
    }
    assert forall|q: Seq<usize>| #[trigger] listed(out@, q) <==> (listed(o, q) || listed(level@, q)) by {
        if listed(out@, q) {
            let m = choose|m: int| 0 <= m < out@.len() && #[trigger] out@[m]@ == q;
            if m < o.len() {
                assert(o[m]@ == q);
            } else {
                let m2 = m - o.len();
                assert(o.len() + m2 == m);
                assert(out@[o.len() + m2]@ == level@[m2]@);
                assert(level@[m2]@ == q);
            }
        }
        if listed(o, q) {
            let m = choose|m: int| 0 <= m < o.len() && #[trigger] o[m]@ == q;
            assert(out@[m]@ == q);
        }
        if listed(level@, q) {
            let m = choose|m: int| 0 <= m < level@.len() && #[trigger] level@[m]@ == q;
            assert(out@[o.len() + m]@ == q);
        }
    }
    proof {
    if distinct(o) && distinct(level@) && (forall|q: Seq<usize>| #[trigger] listed(level@, q) ==> !listed(o, q)) {
        assert forall|a: int, b: int| 0 <= a < b < out@.len() implies (#[trigger] out@[a])@ != (#[trigger] out@[b])@ by {
            if b < o.len() {
                assert(o[a]@ != o[b]@);
            } else if a >= o.len() {
                let (a2, b2) = (a - o.len(), b - o.len());
                assert(out@[o.len() + a2]@ == level@[a2]@);
                assert(out@[o.len() + b2]@ == level@[b2]@);
                assert(level@[a2]@ != level@[b2]@);
            } else {
                let b2 = b - o.len();
                assert(out@[o.len() + b2]@ == level@[b2]@);
                assert(out@[a]@ == o[a]@);
                if out@[a]@ == out@[b]@ {
                    assert(listed(level@, level@[b2]@));
                    assert(listed(o, o[a]@));
                }
            }
        }
    }
    }
}

/// Once a level is empty, so is every longer one: a frequent itemset's
/// prefixes are frequent.
pub proof fn lemma_no_longer(db: Seq<Seq<usize>>, q: Seq<usize>, k: nat, sup: nat, m: nat)
    requires
        frequent_any(db, q, sup, m),
        1 <= k <= q.len(),
    ensures
        frequent_of(db, q.take(k as int), k, sup, m),
{
    let p = q.take(k as int);
    assert forall|i: int| 0 <= i < p.len() implies q.contains(#[trigger] p[i]) by {
        assert(q[i] == p[i]);
    }
    lemma_support_anti_monotone(db, p, q);
    assert forall|i: int| 0 <= i < p.len() implies #[trigger] p[i] < m by {
        assert(q[i] == p[i]);
    }
}

/// The level-wise Apriori miner over a database, with dense counters for
/// the first two passes.
pub struct AprioriRunner<'a> {
    data: &'a TransactionSet,
    sup: u64,
}

impl<'a> AprioriRunner<'a> {
    /// A miner of `data` at minimum support `sup`.
    pub fn new(data: &'a TransactionSet, sup: u64) -> (r: Self)
        ensures
            r.data() == *data,
            r.sup() == sup,
    {
        AprioriRunner { data, sup }
    }

    /// The database mined.
    pub closed spec fn data(&self) -> TransactionSet {
        *self.data
    }

    /// The minimum support.
    pub closed spec fn sup(&self) -> u64 {
        self.sup
    }

    /// Every frequent itemset, level after level: exactly the ascending
    /// itemsets over the database's items with support at least `sup`.
    pub fn run(self) -> (r: Vec<Vec<usize>>)
        requires
            self.data().wf(),
            self.data().num_items < usize::MAX,
        ensures
            forall|q: Seq<usize>| #[trigger] listed(r@, q) <==> frequent_any(
                self.data()@,
                q,
                self.sup() as nat,
                self.data().num_items as nat,
            ),
            distinct(r@),
    {
        let data = self.data;
        let (prev, out) = first_two_levels(data, self.sup);
        mine_levels(data, self.sup, prev, 3, out)
    }
}


/// Runs the levels from `k` on, given the frequent (k-1)-itemsets `prev` and
/// the output `out` of the shorter levels, until a level comes out empty.
fn mine_levels(data: &TransactionSet, sup: u64, prev: TrieSet, k: usize, out: Vec<Vec<usize>>) -> (r: Vec<Vec<usize>>)
    requires
        data.wf(),
        data.num_items < usize::MAX,
        2 <= k,
        prev.wf(),
        forall|q: Seq<usize>| #[trigger] prev@.contains(q) <==> frequent_of(data@, q, (k - 1) as nat, sup as nat, data.num_items as nat),
        forall|q: Seq<usize>| #[trigger] listed(out@, q) <==> (frequent_any(data@, q, sup as nat, data.num_items as nat) && q.len() < k),
        distinct(out@),
    ensures
        forall|q: Seq<usize>| #[trigger] listed(r@, q) <==> frequent_any(data@, q, sup as nat, data.num_items as nat),
        distinct(r@),
{
    let ghost db = data@;
    let m = data.num_items;
    let mut prev = prev;
    let mut k = k;
    let mut out = out;
        loop
            invariant
                data.wf(),
                db == data@,
                m == data.num_items,
                m < usize::MAX,
                2 <= k,
                prev.wf(),
                forall|q: Seq<usize>| #[trigger] prev@.contains(q) <==> frequent_of(db, q, (k - 1) as nat, sup as nat, m as nat),
                forall|q: Seq<usize>| #[trigger] listed(out@, q) <==> (frequent_any(db, q, sup as nat, m as nat) && q.len() < k),
                distinct(out@),
            ensures
                forall|q: Seq<usize>| #[trigger] listed(out@, q) <==> frequent_any(db, q, sup as nat, m as nat),
                distinct(out@),
            decreases m + 1 - k,
        {
            if k > m {
                proof {
                    assert forall|q: Seq<usize>| #[trigger] listed(out@, q) <==> frequent_any(db, q, sup as nat, m as nat) by {
                        if frequent_any(db, q, sup as nat, m as nat) {
                            lemma_ascending_len(q, m as nat);
                        }
                    }
                }
                break;
            }
            let next = apriori_pass_three(data, &prev, k, sup);
            proof {
                assert forall|q: Seq<usize>| #[trigger] next@.contains(q) <==> frequent_of(db, q, k as nat, sup as nat, m as nat) by {
                    lemma_level_step(prev@, db, k as nat, sup as nat, m as nat, q);
                }
            }
            let level = next.for_each(k);
            if level.len() == 0 {
                proof {
                    assert forall|q: Seq<usize>| #[trigger] listed(out@, q) <==> frequent_any(db, q, sup as nat, m as nat) by {
                        if frequent_any(db, q, sup as nat, m as nat) && q.len() >= k {
                            lemma_no_longer(db, q, k as nat, sup as nat, m as nat);
                            assert(next@.contains(q.take(k as int)));
                        }
                    }
                }
                break;
            }
            proof {
                assert forall|q: Seq<usize>| #[trigger] listed(level@, q) implies !listed(out@, q) by {
                    let a = choose|a: int| 0 <= a < level@.len() && #[trigger] level@[a]@ == q;
                    if listed(out@, q) {
                        let b = choose|b: int| 0 <= b < out@.len() && #[trigger] out@[b]@ == q;
                    }
                }
            }
            emit(&mut out, &level);
            proof {
                assert forall|q: Seq<usize>| #[trigger] listed(out@, q) <==> (frequent_any(db, q, sup as nat, m as nat) && q.len() < k + 1) by {
                    if listed(level@, q) {
                        let a = choose|a: int| 0 <= a < level@.len() && #[trigger] level@[a]@ == q;
                    }
                    if frequent_any(db, q, sup as nat, m as nat) && q.len() == k {
                        assert(next@.contains(q));
                    }
                }
            }
            prev = next;
            k = k + 1;
        }
    out
}


/// The Apriori miner that runs every level, the first included, on the
/// prefix tree.
pub struct AprioriTrie {
    data: TransactionSet,
    sup: u64,
}

impl AprioriTrie {
    /// A miner of `data` at minimum support `sup`.
    pub fn new(data: TransactionSet, sup: u64) -> (r: Self)
        ensures
            r.data() == data,
            r.sup() == sup,
    {
        AprioriTrie { data, sup }
    }

    /// The database mined.
    pub closed spec fn data(&self) -> TransactionSet {
        self.data
    }

    /// The minimum support.
    pub closed spec fn sup(&self) -> u64 {
        self.sup
    }

    /// Every frequent itemset, level after level: exactly the ascending
    /// itemsets over the database's items with support at least `sup`.
    pub fn run(self) -> (r: Vec<Vec<usize>>)
        requires
            self.data().wf(),
            self.data().num_items < usize::MAX,
        ensures
            forall|q: Seq<usize>| #[trigger] listed(r@, q) <==> frequent_any(
                self.data()@,
                q,
                self.sup() as nat,
                self.data().num_items as nat,
            ),
            distinct(r@),
    {
        let data = &self.data;
        let sup = self.sup;
        let ghost db = data@;
        let m = data.num_items;
        let mut counter = TrieCounter::new();
        let mut i: usize = 0;
        assert forall|q: Seq<usize>| #[trigger] counter@.contains_key(q) <==> (q.len() == 0 || (q.len() == 1 && q[0] < i)) by {
            if q.len() == 0 {
                assert(q =~= Seq::<usize>::empty());
            }
        }
        while i < m
            invariant
                i <= m,
                counter.wf(),
                forall|q: Seq<usize>| #[trigger] counter@.contains_key(q) <==> (q.len() == 0 || (q.len() == 1 && q[0] < i)),
                forall|q: Seq<usize>| #[trigger] counter@.contains_key(q) ==> counter@[q] == 0,
            decreases m - i,
        {
            let v: Vec<usize> = vec![i];
            let ghost c0 = counter@;
            counter.insert(v.as_slice());
            proof {
                assert(v@ == seq![i]);
                assert forall|q: Seq<usize>| #[trigger] counter@.contains_key(q) <==> (q.len() == 0 || (q.len() == 1 && q[0] < i + 1)) by {
                    if q.len() == 1 && q[0] == i {
                        assert(q =~= v@);
                    }
                    if crate::trie::is_prefix(q, v@) && q.len() == 1 {
                        assert(q[0] == v@.take(1)[0]);
                    }
                }
            }
            i = i + 1;
        }
        proof {
            lemma_fresh_bound(data, counter@, 1);
        }
        apriori_pass_three_counter(data, &mut counter, 1);
        let f1 = counter.to_frequent(1, sup);
        proof {
            assert forall|q: Seq<usize>| #[trigger] f1@.contains(q) <==> frequent_of(db, q, 1, sup as nat, m as nat) by {
            }
        }
        let level1 = f1.for_each(1);
        let mut out: Vec<Vec<usize>> = Vec::new();
        emit(&mut out, &level1);
        assert(distinct(out@));
        proof {
            assert forall|q: Seq<usize>| #[trigger] listed(out@, q) <==> (frequent_any(db, q, sup as nat, m as nat) && q.len() < 2) by {
                if listed(level1@, q) {
                    let a = choose|a: int| 0 <= a < level1@.len() && #[trigger] level1@[a]@ == q;
                }
                if frequent_any(db, q, sup as nat, m as nat) && q.len() == 1 {
                    assert(f1@.contains(q));
                }
            }
        }
        mine_levels(data, sup, f1, 2, out)
    }
}


/// The first two levels, by dense counting: the frequent pairs, and the
/// frequent itemsets of length one and two.
pub(crate) fn first_two_levels(data: &TransactionSet, sup: u64) -> (r: (TrieSet, Vec<Vec<usize>>))
    requires
        data.wf(),
    ensures
        r.0.wf(),
        forall|q: Seq<usize>| #[trigger] r.0@.contains(q) <==> frequent_of(data@, q, 2, sup as nat, data.num_items as nat),
        forall|q: Seq<usize>| #[trigger] listed(r.1@, q) <==> (frequent_any(data@, q, sup as nat, data.num_items as nat) && q.len() < 3),
        distinct(r.1@),
{
        let ghost db = data@;
        let m = data.num_items;
        let mut out: Vec<Vec<usize>> = Vec::new();
        let mut f1 = TrieSet::new();
        let p1 = apriori_pass_one(data, sup);
        let mut i: usize = 0;
        while i < p1.len()
            invariant
                i <= p1.len(),
                ascending(p1@),
                f1.wf(),
                forall|q: Seq<usize>| #[trigger] f1@.contains(q) <==> listed(out@, q),
                out.len() == i,
                forall|a: int| 0 <= a < i ==> (#[trigger] out@[a])@ == seq![p1@[a]],
                forall|x: usize| #[trigger] p1@.contains(x) <==> (x < m && support(db, seq![x]) >= sup),
                forall|q: Seq<usize>| #[trigger] listed(out@, q) <==> (q.len() == 1 && exists|a: int| 0 <= a < i && q == seq![p1@[a]]),
            decreases p1.len() - i,
        {
            let v: Vec<usize> = vec![p1[i]];
            assert(v@ == seq![p1@[i as int]]);
            let ghost o = out@;
            f1.insert(v.as_slice());
            out.push(v);
            assert forall|a: int| 0 <= a < i + 1 implies (#[trigger] out@[a])@ == seq![p1@[a]] by {
                if a < i {
                    assert(out@[a] == o[a]);
                }
            }
            assert forall|q: Seq<usize>| #[trigger] listed(out@, q) <==> (q.len() == 1 && exists|a: int| 0 <= a < i + 1 && q == seq![p1@[a]]) by {
                if listed(out@, q) {
                    let b = choose|b: int| 0 <= b < out@.len() && #[trigger] out@[b]@ == q;
                    if b < o.len() {
                        assert(o[b]@ == q);
                        assert(listed(o, q));
                    } else {
                        assert(q == seq![p1@[i as int]]);
                    }
                }
                if q.len() == 1 && exists|a: int| 0 <= a < i + 1 && q == seq![p1@[a]] {
                    let a = choose|a: int| 0 <= a < i + 1 && q == seq![p1@[a]];
                    if a < i {
                        assert(listed(o, q));
                        let b = choose|b: int| 0 <= b < o.len() && #[trigger] o[b]@ == q;
                        assert(out@[b]@ == q);
                    } else {
                        assert(out@[o.len() as int]@ == q);
                    }
                }
            }
            i = i + 1;
        }
        proof {
            assert forall|q: Seq<usize>| #[trigger] listed(out@, q) <==> (frequent_any(db, q, sup as nat, m as nat) && q.len() < 2) by {
                if listed(out@, q) {
                    let a = choose|a: int| 0 <= a < p1.len() && q == seq![p1@[a]];
                    assert(p1@.contains(p1@[a]));
                    assert(q[0] == p1@[a]);
                }
                if frequent_any(db, q, sup as nat, m as nat) && q.len() < 2 {
                    assert(q =~= seq![q[0]]);
                    assert(p1@.contains(q[0]));
                    let a = choose|a: int| 0 <= a < p1.len() && p1@[a] == q[0];
                    assert(q == seq![p1@[a]]);
                }
            }
            assert forall|a: int| 0 <= a < p1@.len() implies #[trigger] p1@[a] < m by {
                assert(p1@.contains(p1@[a]));
            }
        }
        proof {
            assert forall|q: Seq<usize>| #[trigger] f1@.contains(q) implies q.len() == 1 && ascending(q) by {
                assert(listed(out@, q));
            }
        }
        let prev = match p1.len().checked_mul(p1.len()) {
            Some(_) => apriori_pass_two(data, sup, p1.as_slice()),
            None => apriori_pass_three(data, &f1, 2, sup),
        };
        proof {
            assert forall|q: Seq<usize>| q.len() == 1 implies (#[trigger] f1@.contains(q) <==> frequent_of(db, q, 1, sup as nat, m as nat)) by {
                assert(f1@.contains(q) <==> listed(out@, q));
            }
            assert forall|q: Seq<usize>| #[trigger] prev@.contains(q) <==> frequent_of(db, q, 2, sup as nat, m as nat) by {
                lemma_level_step(f1@, db, 2, sup as nat, m as nat, q);
                if q.len() == 2 && ascending(q) {
                    assert(seq![q[0]].len() == 1);
                    assert(contains_all(q, seq![q[0]])) by {
                        assert(q.contains(seq![q[0]][0]));
                    }
                    assert(contains_all(q, seq![q[1]])) by {
                        assert(q[1] == seq![q[1]][0]);
                        assert(q.contains(q[1]));
                    }
                    lemma_support_anti_monotone(db, seq![q[0]], q);
                    lemma_support_anti_monotone(db, seq![q[1]], q);
                }
            }
        }
        let level2 = prev.for_each(2);
        proof {
            assert forall|a: int, b: int| 0 <= a < b < out@.len() implies (#[trigger] out@[a])@ != (#[trigger] out@[b])@ by {
                assert(out@[a]@[0] == p1@[a]);
                assert(out@[b]@[0] == p1@[b]);
            }
            assert forall|q: Seq<usize>| #[trigger] listed(level2@, q) implies !listed(out@, q) by {
                let a = choose|a: int| 0 <= a < level2@.len() && #[trigger] level2@[a]@ == q;
                if listed(out@, q) {
                    let b = choose|b: int| 0 <= b < out@.len() && #[trigger] out@[b]@ == q;
                }
            }
        }
        emit(&mut out, &level2);
        proof {
            assert forall|q: Seq<usize>| #[trigger] listed(out@, q) <==> (frequent_any(db, q, sup as nat, m as nat) && q.len() < 3) by {
                if listed(level2@, q) {
                    let a = choose|a: int| 0 <= a < level2@.len() && #[trigger] level2@[a]@ == q;
                }
                if frequent_any(db, q, sup as nat, m as nat) && q.len() == 2 {
                    assert(prev@.contains(q));
                }
            }
        }
        (prev, out)
}


/// Two results that each list exactly the frequent itemsets list the same
/// itemsets: every miner of this library (Apriori, the prefix-tree Apriori,
/// AprioriTID, AprioriHybrid) states that of its result, so all agree on
/// every database and support.
pub proof fn lemma_miners_agree(r1: Seq<Vec<usize>>, r2: Seq<Vec<usize>>, db: Seq<Seq<usize>>, sup: nat, m: nat)
    requires
        forall|q: Seq<usize>| #[trigger] listed(r1, q) <==> frequent_any(db, q, sup, m),
        forall|q: Seq<usize>| #[trigger] listed(r2, q) <==> frequent_any(db, q, sup, m),
    ensures
        forall|q: Seq<usize>| #[trigger] listed(r1, q) <==> listed(r2, q),
{
    assert forall|q: Seq<usize>| #[trigger] listed(r1, q) <==> listed(r2, q) by {
        assert(listed(r1, q) <==> frequent_any(db, q, sup, m));
        assert(listed(r2, q) <==> frequent_any(db, q, sup, m));
    }
}


/// An estimate of the number of `k`-subsets of `n` items, saturating at
/// `usize::MAX`: the product (n-k+1)...(n) over 1...k, built factor by
/// factor.
fn subsets_estimate(n: usize, k: usize) -> usize {
    if k > n {
        return 0;
    }
    let mut c: usize = 1;
    let mut j: usize = 0;
    while j < k
        invariant
            j <= k,
            k <= n,
        decreases k - j,
    {
        c = match c.checked_mul(n - j) {
            Some(x) => x / (j + 1),
            None => usize::MAX,
        };
        j = j + 1;
    }
    c
}

/// Counts one ascending transaction against the candidates of length `k`
/// held by `counter`, listed once each in `cands`. Where the candidates are
/// many compared with the transaction's k-subsets, the transaction's
/// subsets are looked up in the tree; otherwise each candidate is tested
/// for containment in one merge sweep. Either way every candidate the
/// transaction holds goes up by one.
pub fn count_fn(counter: &mut TrieCounter, cands: &Vec<Vec<usize>>, t: &[usize], k: usize)
    requires
        old(counter).wf(),
        ascending(t@),
        forall|a: int, b: int| 0 <= a < b < cands.len() ==> (#[trigger] cands@[a])@ != (#[trigger] cands@[b])@,
        forall|a: int| 0 <= a < cands.len() ==> (#[trigger] cands@[a])@.len() == k && ascending(cands@[a]@),
        forall|q: Seq<usize>| q.len() == k ==> (#[trigger] old(counter)@.contains_key(q) <==> listed(cands@, q)),
        forall|q: Seq<usize>|
            #[trigger] old(counter)@.contains_key(q) && q.len() == k ==> old(counter)@[q] < u64::MAX,
    ensures
        final(counter).wf(),
        final(counter)@ == counted(old(counter)@, t@, k as nat),
{
    let estimate = subsets_estimate(t.len(), k);
    if k > 0 && cands.len() > estimate / k {
        counter.count(t, k);
        return;
    }
    let ghost m0 = counter@;
    let tv = slice_to_vec(t);
    let mut i: usize = 0;
    while i < cands.len()
        invariant
            counter.wf(),
            tv@ == t@,
            ascending(t@),
            i <= cands.len(),
            forall|a: int, b: int| 0 <= a < b < cands.len() ==> (#[trigger] cands@[a])@ != (#[trigger] cands@[b])@,
            forall|a: int| 0 <= a < cands.len() ==> (#[trigger] cands@[a])@.len() == k && ascending(cands@[a]@),
            forall|q: Seq<usize>| q.len() == k ==> (#[trigger] m0.contains_key(q) <==> listed(cands@, q)),
            forall|q: Seq<usize>| #[trigger] m0.contains_key(q) && q.len() == k ==> m0[q] < u64::MAX,
            forall|q: Seq<usize>| #[trigger] counter@.contains_key(q) <==> m0.contains_key(q),
            forall|q: Seq<usize>| #[trigger] counter@.contains_key(q) ==> counter@[q] == if q.len() == k
                && listed(cands@.take(i as int), q) && contains_all(t@, q) {
                (m0[q] + 1) as u64
            } else {
                m0[q]
            },
        decreases cands.len() - i,
    {
        let c = &cands[i];
        let ghost cv = c@;
        proof {
            assert(listed(cands@, cv));
            assert(!listed(cands@.take(i as int), cv)) by {
                if listed(cands@.take(i as int), cv) {
                    let a = choose|a: int| 0 <= a < i && #[trigger] cands@.take(i as int)[a]@ == cv;
                    assert(cands@[a]@ == cands@[i as int]@);
                }
            }
        }
        if contains_sorted(&tv, c) {
            counter.increment(c.as_slice());
        }
        proof {
            assert forall|q: Seq<usize>| #[trigger] counter@.contains_key(q) implies counter@[q] == if q.len() == k
                && listed(cands@.take(i + 1), q) && contains_all(t@, q) {
                (m0[q] + 1) as u64
            } else {
                m0[q]
            } by {
                assert(listed(cands@.take(i + 1), q) <==> (listed(cands@.take(i as int), q) || q == cv)) by {
                    if listed(cands@.take(i + 1), q) {
                        let a = choose|a: int| 0 <= a < i + 1 && #[trigger] cands@.take(i + 1)[a]@ == q;
                        if a < i {
                            assert(cands@.take(i as int)[a]@ == q);
                        }
                    }
                    if listed(cands@.take(i as int), q) {
                        let a = choose|a: int| 0 <= a < i && #[trigger] cands@.take(i as int)[a]@ == q;
                        assert(cands@.take(i + 1)[a]@ == q);
                    }
                    if q == cv {
                        assert(cands@.take(i + 1)[i as int]@ == q);
                    }
                }
            }
        }
        i = i + 1;
    }
    proof {
        assert(cands@.take(cands.len() as int) =~= cands@);
        assert forall|q: Seq<usize>| #[trigger] counter@.contains_key(q) implies counter@[q] == counted(m0, t@, k as nat)[q] by {
            if q.len() == k {
                let a = choose|a: int| 0 <= a < cands.len() && #[trigger] cands@[a]@ == q;
                lemma_subseq_iff_contains(q, t@);
            }
        }
        assert(counter@ =~= counted(m0, t@, k as nat));
    }
}

} // verus!
