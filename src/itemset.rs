//! Itemsets, transactions and support: the mathematical vocabulary that the
//! rest of the library states its contracts in.
use vstd::prelude::*;

verus! {

/// A sequence of item ids is strictly ascending (and so free of duplicates).
pub open spec fn ascending(s: Seq<usize>) -> bool {
    forall|i: int, j: int| 0 <= i < j < s.len() ==> s[i] < s[j]
}

/// Every item of `s` occurs in the transaction `t` (containment as sets).
pub open spec fn contains_all(t: Seq<usize>, s: Seq<usize>) -> bool {
    forall|i: int| 0 <= i < s.len() ==> t.contains(#[trigger] s[i])
}

/// `p` can be read off `t` left to right, skipping items of `t`.
pub open spec fn is_subseq(p: Seq<usize>, t: Seq<usize>) -> bool
    decreases t.len(),
{
    if p.len() == 0 {
        true
    } else if t.len() == 0 {
        false
    } else if p[0] == t[0] {
        is_subseq(p.drop_first(), t.drop_first())
    } else {
        is_subseq(p, t.drop_first())
    }
}

/// The number of transactions of `db` that contain every item of `s`.
pub open spec fn support(db: Seq<Seq<usize>>, s: Seq<usize>) -> nat
    decreases db.len(),
{
    if db.len() == 0 {
        0
    } else {
        support(db.drop_last(), s) + if contains_all(db.last(), s) {
            1nat
        } else {
            0nat
        }
    }
}

/// `s` is a frequent itemset of length `k`: ascending, with support at least `sup`.
pub open spec fn frequent(db: Seq<Seq<usize>>, s: Seq<usize>, k: nat, sup: nat) -> bool {
    s.len() == k && ascending(s) && support(db, s) >= sup
}

/// Every transaction of `db` is strictly ascending.
pub open spec fn db_ascending(db: Seq<Seq<usize>>) -> bool {
    forall|j: int| 0 <= j < db.len() ==> ascending(#[trigger] db[j])
}

/// `s` with its `i`-th item left out.
pub open spec fn without(s: Seq<usize>, i: int) -> Seq<usize> {
    s.take(i) + s.skip(i + 1)
}

/// A subsequence is shorter than what it is read from.
pub proof fn lemma_subseq_len(p: Seq<usize>, t: Seq<usize>)
    requires
        is_subseq(p, t),
    ensures
        p.len() <= t.len(),
    decreases t.len(),
{
    if p.len() > 0 && t.len() > 0 {
        if p[0] == t[0] {
            lemma_subseq_len(p.drop_first(), t.drop_first());
        } else {
            lemma_subseq_len(p, t.drop_first());
        }
    }
}

/// Of an ascending transaction, the subsequences are exactly the ascending
/// itemsets that it contains.
pub proof fn lemma_subseq_iff_contains(p: Seq<usize>, t: Seq<usize>)
    requires
        ascending(p),
        ascending(t),
    ensures
        is_subseq(p, t) <==> contains_all(t, p),
    decreases t.len(),
{
    if p.len() == 0 {
    } else if t.len() == 0 {
        assert(!t.contains(p[0]));
    } else {
        let t1 = t.drop_first();
        if p[0] == t[0] {
            let p1 = p.drop_first();
            lemma_subseq_iff_contains(p1, t1);
            if contains_all(t, p) {
                assert forall|i: int| 0 <= i < p1.len() implies t1.contains(#[trigger] p1[i]) by {
                    assert(p1[i] == p[i + 1]);
                    assert(t.contains(p[i + 1]));
                    let j = choose|j: int| 0 <= j < t.len() && t[j] == p[i + 1];
                    assert(j != 0);
                    assert(t1[j - 1] == t[j]);
                }
            }
            if contains_all(t1, p1) {
                assert forall|i: int| 0 <= i < p.len() implies t.contains(#[trigger] p[i]) by {
                    if i == 0 {
                        assert(t[0] == p[0]);
                    } else {
                        assert(p[i] == p1[i - 1]);
                        assert(t1.contains(p1[i - 1]));
                        let j = choose|j: int| 0 <= j < t1.len() && t1[j] == p1[i - 1];
                        assert(t[j + 1] == t1[j]);
                    }
                }
            }
        } else {
            lemma_subseq_iff_contains(p, t1);
            if p[0] < t[0] {
                assert(!t.contains(p[0])) by {
                    if t.contains(p[0]) {
                        let j = choose|j: int| 0 <= j < t.len() && t[j] == p[0];
                        assert(j > 0 ==> t[0] < t[j]);
                    }
                }
                assert(!t1.contains(p[0])) by {
                    if t1.contains(p[0]) {
                        let j = choose|j: int| 0 <= j < t1.len() && t1[j] == p[0];
                        assert(t[0] < t[j + 1]);
                    }
                }
            } else {
                if contains_all(t, p) {
                    assert forall|i: int| 0 <= i < p.len() implies t1.contains(#[trigger] p[i]) by {
                        assert(t.contains(p[i]));
                        let j = choose|j: int| 0 <= j < t.len() && t[j] == p[i];
                        assert(i > 0 ==> p[0] < p[i]);
                        assert(j != 0);
                        assert(t1[j - 1] == t[j]);
                    }
                }
                if contains_all(t1, p) {
                    assert forall|i: int| 0 <= i < p.len() implies t.contains(#[trigger] p[i]) by {
                        assert(t1.contains(p[i]));
                        let j = choose|j: int| 0 <= j < t1.len() && t1[j] == p[i];
                        assert(t[j + 1] == t1[j]);
                    }
                }
            }
        }
    }
}

/// Support of a prefix of the database grows by one transaction at a time.
pub proof fn lemma_support_step(db: Seq<Seq<usize>>, j: int, s: Seq<usize>)
    requires
        0 <= j < db.len(),
    ensures
        support(db.take(j + 1), s) == support(db.take(j), s) + if contains_all(db[j], s) {
            1nat
        } else {
            0nat
        },
{
    assert(db.take(j + 1).drop_last() =~= db.take(j));
}

/// Support never exceeds the number of transactions.
pub proof fn lemma_support_bound(db: Seq<Seq<usize>>, s: Seq<usize>)
    ensures
        support(db, s) <= db.len(),
    decreases db.len(),
{
    if db.len() > 0 {
        lemma_support_bound(db.drop_last(), s);
    }
}

/// Support is anti-monotone: an itemset whose items all occur in `big` is
/// contained in every transaction that contains `big`.
pub proof fn lemma_support_anti_monotone(db: Seq<Seq<usize>>, small: Seq<usize>, big: Seq<usize>)
    requires
        contains_all(big, small),
    ensures
        support(db, big) <= support(db, small),
    decreases db.len(),
{
    if db.len() > 0 {
        lemma_support_anti_monotone(db.drop_last(), small, big);
        if contains_all(db.last(), big) {
            assert forall|i: int| 0 <= i < small.len() implies db.last().contains(
                #[trigger] small[i],
            ) by {
                assert(big.contains(small[i]));
                let j = choose|j: int| 0 <= j < big.len() && big[j] == small[i];
                assert(db.last().contains(big[j]));
            }
        }
    }
}

/// Support of a database split in two is the sum of the supports of the parts.
pub proof fn lemma_support_append(a: Seq<Seq<usize>>, b: Seq<Seq<usize>>, s: Seq<usize>)
    ensures
        support(a + b, s) == support(a, s) + support(b, s),
    decreases b.len(),
{
    if b.len() == 0 {
        assert(a + b =~= a);
    } else {
        assert((a + b).drop_last() =~= a + b.drop_last());
        lemma_support_append(a, b.drop_last(), s);
    }
}

/// Leaving an item out of an ascending itemset keeps it ascending and
/// contained in the original.
pub proof fn lemma_without(s: Seq<usize>, i: int)
    requires
        ascending(s),
        0 <= i < s.len(),
    ensures
        ascending(without(s, i)),
        contains_all(s, without(s, i)),
        without(s, i).len() == s.len() - 1,
        forall|m: int| 0 <= m < i ==> #[trigger] without(s, i)[m] == s[m],
        forall|m: int| i <= m < s.len() - 1 ==> #[trigger] without(s, i)[m] == s[m + 1],
{
    let w = without(s, i);
    assert forall|m: int| 0 <= m < w.len() implies s.contains(#[trigger] w[m]) by {
        if m < i {
            assert(w[m] == s[m]);
        } else {
            assert(w[m] == s[m + 1]);
        }
    }
}

/// Whether the ascending itemset `s` is contained in the ascending
/// transaction `t`, decided in one merge sweep over both.
pub fn contains_sorted(t: &Vec<usize>, s: &Vec<usize>) -> (r: bool)
    requires
        ascending(t@),
        ascending(s@),
    ensures
        r == contains_all(t@, s@),
{
    proof {
        lemma_subseq_iff_contains(s@, t@);
    }
    let mut i: usize = 0;
    let mut j: usize = 0;
    assert(s@.skip(0) =~= s@);
    assert(t@.skip(0) =~= t@);
    while i < s.len()
        invariant
            is_subseq(s@, t@) == contains_all(t@, s@),
            i <= s.len(),
            j <= t.len(),
            ascending(t@),
            ascending(s@),
            is_subseq(s@, t@) == is_subseq(s@.skip(i as int), t@.skip(j as int)),
        decreases s.len() - i + t.len() - j,
    {
        if j >= t.len() {
            assert(is_subseq(s@.skip(i as int), t@.skip(j as int)) == false) by {
                assert(t@.skip(j as int).len() == 0);
            }
            return false;
        }
        let a = s[i];
        let b = t[j];
        let ghost ss = s@.skip(i as int);
        let ghost tt = t@.skip(j as int);
        assert(ss.drop_first() =~= s@.skip(i + 1));
        assert(tt.drop_first() =~= t@.skip(j + 1));
        if a == b {
            i = i + 1;
            j = j + 1;
        } else if a < b {
            assert(!is_subseq(ss, tt)) by {
                assert(!contains_all(tt, ss)) by {
                    if tt.contains(ss[0]) {
                        let m = choose|m: int| 0 <= m < tt.len() && tt[m] == ss[0];
                        assert(tt[m] == t@[j + m]);
                        assert(m > 0 ==> t@[j as int] < t@[j + m]);
                    }
                }
                assert forall|x: int, y: int| 0 <= x < y < ss.len() implies ss[x] < ss[y] by {
                    assert(ss[x] == s@[i + x]);
                    assert(ss[y] == s@[i + y]);
                }
                assert forall|x: int, y: int| 0 <= x < y < tt.len() implies tt[x] < tt[y] by {
                    assert(tt[x] == t@[j + x]);
                    assert(tt[y] == t@[j + y]);
                }
                lemma_subseq_iff_contains(ss, tt);
            }
            return false;
        } else {
            j = j + 1;
        }
    }
    assert(s@.skip(i as int).len() == 0);
    true
}

} // verus!
