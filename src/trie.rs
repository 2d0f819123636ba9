//! An integer-keyed prefix tree. Each node keeps its children ordered by key;
//! a path of edges from the root spells an item sequence.
//!
//! The children sit in a vector sorted by key rather than in a hash map:
//! lookups are a binary search, every walk visits children in one fixed
//! order (which the set form on the wire relies on), and the tree has a
//! structural view, defined by recursion on the nodes, that a map whose
//! contents are hidden behind hashing would not give.
use vstd::prelude::*;
use crate::itemset::{ascending, contains_all, is_subseq, lemma_subseq_iff_contains, lemma_subseq_len};

verus! {

/// A node of the prefix tree: the key of the edge that leads to it, the value
/// stored at it, and its children in strictly ascending key order.
pub struct TrieNode {
    pub key: usize,
    pub value: u64,
    pub children: Vec<TrieNode>,
}

/// Children keys are strictly ascending, at every node.
pub closed spec fn node_wf(n: TrieNode) -> bool
    decreases n,
{
    &&& forall|i: int, j: int|
        0 <= i < j < n.children.len() ==> n.children@[i].key < n.children@[j].key
    &&& forall|i: int| 0 <= i < n.children.len() ==> node_wf(#[trigger] n.children@[i])
}

/// The child of `n` reached over the edge keyed `y`, if there is one.
pub closed spec fn child_of(n: TrieNode, y: usize) -> Option<TrieNode> {
    if exists|i: int| 0 <= i < n.children.len() && n.children@[i].key == y {
        Some(n.children@[choose|i: int| 0 <= i < n.children.len() && n.children@[i].key == y])
    } else {
        None
    }
}

/// The value at the node that path `p` leads to from `n`.
pub closed spec fn lookup(n: TrieNode, p: Seq<usize>) -> Option<u64>
    decreases p.len(),
{
    if p.len() == 0 {
        Some(n.value)
    } else {
        match child_of(n, p[0]) {
            Some(c) => lookup(c, p.drop_first()),
            None => None,
        }
    }
}

/// `q` is a prefix of `p` (possibly `p` itself or empty).
pub open spec fn is_prefix(q: Seq<usize>, p: Seq<usize>) -> bool {
    q.len() <= p.len() && p.take(q.len() as int) == q
}

proof fn lemma_child_at(n: TrieNode, i: int)
    requires
        node_wf(n),
        0 <= i < n.children.len(),
    ensures
        child_of(n, n.children@[i].key) == Some(n.children@[i]),
        node_wf(n.children@[i]),
{
    let y = n.children@[i].key;
    assert(exists|j: int| 0 <= j < n.children.len() && n.children@[j].key == y);
    let j = choose|j: int| 0 <= j < n.children.len() && n.children@[j].key == y;
    assert(j == i);
}

/// Two nodes with the same value and the same child under every key have the
/// same lookups.
proof fn lemma_lookup_same_children(a: TrieNode, b: TrieNode, p: Seq<usize>)
    requires
        a.value == b.value,
        p.len() > 0 ==> child_of(a, p[0]) == child_of(b, p[0]),
    ensures
        lookup(a, p) == lookup(b, p),
{
}

/// Nodes with equal children have the same child under every key.
proof fn lemma_child_of_same(a: TrieNode, b: TrieNode, y: usize)
    requires
        node_wf(a),
        a.children@ == b.children@,
    ensures
        node_wf(b),
        child_of(a, y) == child_of(b, y),
{
    assert(node_wf(b));
    if exists|i: int| 0 <= i < a.children.len() && a.children@[i].key == y {
        let i = choose|i: int| 0 <= i < a.children.len() && a.children@[i].key == y;
        lemma_child_at(a, i);
        lemma_child_at(b, i);
    }
}

/// Two non-empty sequences with the same head and the same tail are equal.
proof fn lemma_cons_eq(q: Seq<usize>, p: Seq<usize>)
    requires
        q.len() > 0,
        p.len() > 0,
        q[0] == p[0],
        q.drop_first() == p.drop_first(),
    ensures
        q == p,
{
    assert(q.drop_first().len() == q.len() - 1);
    assert(p.drop_first().len() == p.len() - 1);
    assert(q.len() == p.len());
    assert forall|m: int| 0 <= m < q.len() implies q[m] == p[m] by {
        if m > 0 {
            assert(q[m] == q.drop_first()[m - 1]);
            assert(p[m] == p.drop_first()[m - 1]);
        }
    }
    assert(q =~= p);
}

/// `q` extends the item `x` by `r`.
pub open spec fn cons(x: usize, r: Seq<usize>) -> Seq<usize> {
    seq![x] + r
}

/// The value at a node, raised by one where `hit` holds.
pub open spec fn bump(o: Option<u64>, hit: bool) -> Option<u64> {
    match o {
        Some(v) => Some(
            if hit {
                (v + 1) as u64
            } else {
                v
            },
        ),
        None => None,
    }
}

/// Replacing the child at position `c` by one with the same key changes the
/// lookups below that key only.
proof fn lemma_replace_child(o: TrieNode, n: TrieNode, c: int)
    requires
        node_wf(o),
        0 <= c < o.children.len(),
        n.value == o.value,
        n.children@ == o.children@.update(c, n.children@[c]),
        n.children@[c].key == o.children@[c].key,
        node_wf(n.children@[c]),
    ensures
        node_wf(n),
        lookup(n, Seq::empty()) == lookup(o, Seq::empty()),
        forall|q: Seq<usize>|
            q.len() > 0 && q[0] != o.children@[c].key ==> #[trigger] lookup(n, q) == lookup(o, q),
        forall|q: Seq<usize>|
            q.len() > 0 && q[0] == o.children@[c].key ==> #[trigger] lookup(n, q) == lookup(
                n.children@[c],
                q.drop_first(),
            ) && lookup(o, q) == lookup(o.children@[c], q.drop_first()),
{
    assert forall|a: int, b: int| 0 <= a < b < n.children.len() implies n.children@[a].key
        < n.children@[b].key by {
        assert(o.children@[a].key < o.children@[b].key);
    }
    assert forall|a: int| 0 <= a < n.children.len() implies node_wf(#[trigger] n.children@[a]) by {
        if a != c {
            lemma_child_at(o, a);
        }
    }
    assert(node_wf(n));
    lemma_child_at(n, c);
    lemma_child_at(o, c);
    assert forall|q: Seq<usize>| q.len() > 0 && q[0] != o.children@[c].key implies #[trigger] lookup(
        n,
        q,
    ) == lookup(o, q) by {
        if exists|a: int| 0 <= a < o.children.len() && o.children@[a].key == q[0] {
            let a = choose|a: int| 0 <= a < o.children.len() && o.children@[a].key == q[0];
            lemma_child_at(o, a);
            lemma_child_at(n, a);
        } else {
            assert(child_of(n, q[0]).is_none());
        }
        lemma_lookup_same_children(n, o, q);
    }
}

/// Of a sequence with a known head, being a prefix is decided on the tails.
proof fn lemma_prefix_cons(q: Seq<usize>, p: Seq<usize>)
    requires
        q.len() > 0,
        p.len() > 0,
    ensures
        is_prefix(q, p) <==> (q[0] == p[0] && is_prefix(q.drop_first(), p.drop_first())),
{
    if is_prefix(q, p) {
        assert(p.take(q.len() as int)[0] == p[0]);
        assert(p.drop_first().take(q.len() - 1) =~= q.drop_first());
    }
    if q[0] == p[0] && is_prefix(q.drop_first(), p.drop_first()) {
        assert(p.take(q.len() as int) =~= q) by {
            assert forall|m: int| 0 <= m < q.len() implies p.take(q.len() as int)[m] == q[m] by {
                if m > 0 {
                    assert(q[m] == q.drop_first()[m - 1]);
                    assert(p.drop_first().take(q.len() - 1)[m - 1] == p[m]);
                }
            }
        }
    }
}

/// `e` is the path `prefix ++ q` of a node at depth `d` below `n`, with its value.
pub open spec fn entry_at(n: TrieNode, prefix: Seq<usize>, d: nat, e: (Vec<usize>, u64)) -> bool {
    &&& e.0@.len() == prefix.len() + d
    &&& e.0@.take(prefix.len() as int) == prefix
    &&& lookup(n, e.0@.skip(prefix.len() as int)) == Some(e.1)
}

/// A path lookup that fails fails for every extension of the path too.
proof fn lemma_lookup_prefix(n: TrieNode, q: Seq<usize>, p: Seq<usize>)
    requires
        is_prefix(q, p),
        lookup(n, p).is_some(),
    ensures
        lookup(n, q).is_some(),
    decreases q.len(),
{
    if q.len() > 0 {
        let c = child_of(n, p[0]).unwrap();
        assert(q[0] == p[0]);
        assert(p.drop_first().take(q.len() - 1) =~= q.drop_first());
        lemma_lookup_prefix(c, q.drop_first(), p.drop_first());
    }
}

/// A subsequence's first item occurs in what it is read from.
proof fn lemma_subseq_head(q: Seq<usize>, t: Seq<usize>)
    requires
        q.len() > 0,
        is_subseq(q, t),
    ensures
        t.contains(q[0]),
    decreases t.len(),
{
    if q[0] == t[0] {
        assert(t[0] == q[0]);
    } else {
        lemma_subseq_head(q, t.drop_first());
        let j = choose|j: int| 0 <= j < t.len() - 1 && t.drop_first()[j] == q[0];
        assert(t[j + 1] == q[0]);
    }
}

impl TrieNode {
    fn leaf(key: usize, value: u64) -> (r: TrieNode)
        ensures
            node_wf(r),
            r.key == key,
            r.value == value,
            r.children@.len() == 0,
            forall|q: Seq<usize>| #[trigger]
                lookup(r, q) == if q.len() == 0 {
                    Some(value)
                } else {
                    None::<u64>
                },
    {
        let r = TrieNode { key, value, children: Vec::new() };
        assert forall|q: Seq<usize>| #[trigger]
            lookup(r, q) == if q.len() == 0 {
                Some(value)
            } else {
                None::<u64>
            } by {
            if q.len() > 0 {
                assert(child_of(r, q[0]).is_none());
            }
        }
        r
    }

    /// The first position whose key is not below `x`.
    fn search(&self, x: usize) -> (r: usize)
        requires
            node_wf(*self),
        ensures
            r <= self.children.len(),
            forall|i: int| 0 <= i < r ==> self.children@[i].key < x,
            r < self.children.len() ==> self.children@[r as int].key >= x,
            r < self.children.len() && self.children@[r as int].key == x ==> child_of(*self, x)
                == Some(self.children@[r as int]),
            !(r < self.children.len() && self.children@[r as int].key == x) ==> child_of(
                *self,
                x,
            ).is_none(),
    {
        let mut lo: usize = 0;
        let mut hi: usize = self.children.len();
        while lo < hi
            invariant
                node_wf(*self),
                lo <= hi <= self.children.len(),
                forall|i: int| 0 <= i < lo ==> self.children@[i].key < x,
                forall|i: int| hi <= i < self.children.len() ==> self.children@[i].key >= x,
            decreases hi - lo,
        {
            let mid = lo + (hi - lo) / 2;
            if self.children[mid].key < x {
                lo = mid + 1;
            } else {
                hi = mid;
            }
        }
        proof {
            if lo < self.children.len() && self.children@[lo as int].key == x {
                lemma_child_at(*self, lo as int);
            } else {
                if exists|i: int| 0 <= i < self.children.len() && self.children@[i].key == x {
                    let i = choose|i: int| 0 <= i < self.children.len() && self.children@[i].key == x;
                    if i > lo {
                        assert(self.children@[lo as int].key < self.children@[i].key);
                    }
                }
            }
        }
        lo
    }

    fn get_rec(&self, p: &[usize], i: usize) -> (r: Option<u64>)
        requires
            node_wf(*self),
            i <= p.len(),
        ensures
            r == lookup(*self, p@.skip(i as int)),
        decreases p.len() - i,
    {
        if i == p.len() {
            return Some(self.value);
        }
        let c = self.search(p[i]);
        assert(p@.skip(i as int).drop_first() =~= p@.skip(i + 1));
        if c < self.children.len() && self.children[c].key == p[i] {
            proof {
                lemma_child_at(*self, c as int);
            }
            self.children[c].get_rec(p, i + 1)
        } else {
            None
        }
    }

    fn increment_rec(&mut self, p: &[usize], i: usize) -> (r: bool)
        requires
            node_wf(*old(self)),
            i <= p.len(),
            lookup(*old(self), p@.skip(i as int)) matches Some(v) ==> v < u64::MAX,
        ensures
            node_wf(*final(self)),
            final(self).key == old(self).key,
            r == lookup(*old(self), p@.skip(i as int)).is_some(),
            forall|q: Seq<usize>| #[trigger]
                lookup(*final(self), q) == if r && q == p@.skip(i as int) {
                    Some((lookup(*old(self), q).unwrap() + 1) as u64)
                } else {
                    lookup(*old(self), q)
                },
        decreases p.len() - i,
    {
        let ghost o = *self;
        if i == p.len() {
            self.value = self.value + 1;
            assert forall|q: Seq<usize>| #[trigger]
                lookup(*self, q) == if q == p@.skip(i as int) {
                    Some((lookup(o, q).unwrap() + 1) as u64)
                } else {
                    lookup(o, q)
                } by {
                assert(p@.skip(i as int).len() == 0);
                if q.len() > 0 {
                    lemma_child_of_same(o, *self, q[0]);
                    assert(lookup(*self, q) == lookup(o, q));
                } else {
                    assert(q =~= p@.skip(i as int));
                }
            }
            proof {
                lemma_child_of_same(o, *self, 0);
            }
            return true;
        }
        let x = p[i];
        let c = self.search(x);
        let ghost ps = p@.skip(i as int);
        assert(ps.drop_first() =~= p@.skip(i + 1));
        if c < self.children.len() && self.children[c].key == x {
            proof {
                lemma_child_at(o, c as int);
            }
            let r = self.children[c].increment_rec(p, i + 1);
            proof {
                let n = *self;
                assert(n.children@ =~= o.children@.update(c as int, n.children@[c as int]));
                assert forall|a: int, b: int|
                    0 <= a < b < n.children.len() implies n.children@[a].key
                    < n.children@[b].key by {
                    assert(o.children@[a].key < o.children@[b].key);
                }
                assert forall|a: int| 0 <= a < n.children.len() implies node_wf(
                    #[trigger] n.children@[a],
                ) by {
                    if a != c {
                        lemma_child_at(o, a);
                    }
                }
                assert(node_wf(n));
                assert forall|q: Seq<usize>| #[trigger]
                    lookup(n, q) == if r && q == ps {
                        Some((lookup(o, q).unwrap() + 1) as u64)
                    } else {
                        lookup(o, q)
                    } by {
                    if q.len() > 0 {
                        if q[0] == x {
                            lemma_child_at(n, c as int);
                            assert(lookup(n, q) == lookup(n.children@[c as int], q.drop_first()));
                            assert(lookup(o, q) == lookup(o.children@[c as int], q.drop_first()));
                            if q == ps {
                                assert(q.drop_first() == p@.skip(i + 1));
                            }
                            if q.drop_first() == p@.skip(i + 1) {
                                lemma_cons_eq(q, ps);
                            }
                        } else {
                            if q == ps {
                                assert(q[0] == x);
                            }
                            if exists|a: int| 0 <= a < o.children.len() && o.children@[a].key == q[0] {
                                let a = choose|a: int|
                                    0 <= a < o.children.len() && o.children@[a].key == q[0];
                                lemma_child_at(o, a);
                                lemma_child_at(n, a);
                            } else {
                                assert(child_of(n, q[0]).is_none());
                            }
                            lemma_lookup_same_children(n, o, q);
                        }
                    } else {
                        assert(q != ps);
                    }
                }
            }
            r
        } else {
            false
        }
    }

    fn insert_rec(&mut self, p: &[usize], i: usize, value: u64, blank: u64) -> (created: bool)
        requires
            node_wf(*old(self)),
            i <= p.len(),
        ensures
            node_wf(*final(self)),
            final(self).key == old(self).key,
            created == lookup(*old(self), p@.skip(i as int)).is_none(),
            forall|q: Seq<usize>| #[trigger]
                lookup(*final(self), q) == if q == p@.skip(i as int) {
                    Some(value)
                } else if is_prefix(q, p@.skip(i as int)) && lookup(*old(self), q).is_none() {
                    Some(blank)
                } else {
                    lookup(*old(self), q)
                },
        decreases p.len() - i,
    {
        let ghost o = *self;
        let ghost ps = p@.skip(i as int);
        if i == p.len() {
            self.value = value;
            assert forall|q: Seq<usize>| #[trigger]
                lookup(*self, q) == if q == ps {
                    Some(value)
                } else if is_prefix(q, ps) && lookup(o, q).is_none() {
                    Some(blank)
                } else {
                    lookup(o, q)
                } by {
                assert(ps.len() == 0);
                if q.len() > 0 {
                    lemma_child_of_same(o, *self, q[0]);
                    assert(lookup(*self, q) == lookup(o, q));
                } else {
                    assert(q =~= ps);
                }
            }
            proof {
                lemma_child_of_same(o, *self, 0);
            }
            return false;
        }
        let x = p[i];
        let c = self.search(x);
        assert(ps.drop_first() =~= p@.skip(i + 1));
        if c < self.children.len() && self.children[c].key == x {
            proof {
                lemma_child_at(o, c as int);
            }
            let r = self.children[c].insert_rec(p, i + 1, value, blank);
            proof {
                let n = *self;
                assert(n.children@ =~= o.children@.update(c as int, n.children@[c as int]));
                lemma_replace_child(o, n, c as int);
                assert forall|q: Seq<usize>| #[trigger]
                    lookup(n, q) == if q == ps {
                        Some(value)
                    } else if is_prefix(q, ps) && lookup(o, q).is_none() {
                        Some(blank)
                    } else {
                        lookup(o, q)
                    } by {
                    if q.len() > 0 {
                        lemma_prefix_cons(q, ps);
                        if q[0] == x {
                            if q == ps {
                                assert(q.drop_first() == p@.skip(i + 1));
                            }
                            if q.drop_first() == p@.skip(i + 1) {
                                lemma_cons_eq(q, ps);
                            }
                        } else {
                            assert(q != ps);
                        }
                    } else {
                        assert(q != ps);
                        assert(ps.take(0) =~= q);
                    }
                }
            }
            r
        } else {
            let mut node = TrieNode::leaf(x, blank);
            let ghost leaf = node;
            node.insert_rec(p, i + 1, value, blank);
            self.children.insert(c, node);
            proof {
                let n = *self;
                assert(n.children@ =~= o.children@.insert(c as int, node));
                assert forall|a: int, b: int|
                    0 <= a < b < n.children.len() implies n.children@[a].key
                    < n.children@[b].key by {
                    if b < c {
                        assert(o.children@[a].key < o.children@[b].key);
                    } else if a > c {
                        assert(o.children@[a - 1].key < o.children@[b - 1].key);
                    } else if a < c && b > c {
                        assert(o.children@[a].key < x);
                        assert(o.children@[c as int].key <= o.children@[b - 1].key) by {
                            if b - 1 > c {
                                assert(o.children@[c as int].key < o.children@[b - 1].key);
                            }
                        }
                    } else if a == c {
                        assert(o.children@[c as int].key <= o.children@[b - 1].key) by {
                            if b - 1 > c {
                                assert(o.children@[c as int].key < o.children@[b - 1].key);
                            }
                        }
                    }
                }
                assert forall|a: int| 0 <= a < n.children.len() implies node_wf(
                    #[trigger] n.children@[a],
                ) by {
                    if a < c {
                        lemma_child_at(o, a);
                    } else if a > c {
                        lemma_child_at(o, a - 1);
                    }
                }
                assert(node_wf(n));
                lemma_child_at(n, c as int);
                assert forall|q: Seq<usize>| #[trigger]
                    lookup(n, q) == if q == ps {
                        Some(value)
                    } else if is_prefix(q, ps) && lookup(o, q).is_none() {
                        Some(blank)
                    } else {
                        lookup(o, q)
                    } by {
                    if q.len() > 0 {
                        lemma_prefix_cons(q, ps);
                        if q[0] == x {
                            assert(lookup(n, q) == lookup(node, q.drop_first()));
                            assert(lookup(o, q).is_none());
                            assert(p@.skip(i + 1).take(0) =~= Seq::<usize>::empty());
                            if q.drop_first().len() == 0 {
                                assert(q.drop_first() =~= Seq::<usize>::empty());
                                assert(is_prefix(q.drop_first(), p@.skip(i + 1)));
                            }
                            if q == ps {
                                assert(q.drop_first() == p@.skip(i + 1));
                            }
                            if q.drop_first() == p@.skip(i + 1) {
                                lemma_cons_eq(q, ps);
                            }
                        } else {
                            assert(q != ps);
                            if exists|a: int| 0 <= a < o.children.len() && o.children@[a].key == q[0] {
                                let a = choose|a: int|
                                    0 <= a < o.children.len() && o.children@[a].key == q[0];
                                lemma_child_at(o, a);
                                if a < c {
                                    lemma_child_at(n, a);
                                } else {
                                    lemma_child_at(n, a + 1);
                                }
                            } else {
                                if exists|a: int| 0 <= a < n.children.len() && n.children@[a].key == q[0] {
                                    let a = choose|a: int|
                                        0 <= a < n.children.len() && n.children@[a].key == q[0];
                                    if a < c {
                                        assert(o.children@[a].key == q[0]);
                                    } else if a > c {
                                        assert(o.children@[a - 1].key == q[0]);
                                    }
                                }
                                assert(child_of(n, q[0]).is_none());
                            }
                            lemma_lookup_same_children(n, o, q);
                        }
                    } else {
                        assert(q != ps);
                        assert(ps.take(0) =~= q);
                    }
                }
            }
            true
        }
    }

    /// The counting kernel: below this node, raise by one the value of every
    /// node at depth `d` whose path can be read off `t[start..]`.
    fn count_rec(&mut self, t: &[usize], start: usize, d: usize)
        requires
            node_wf(*old(self)),
            ascending(t@),
            start <= t.len(),
            forall|q: Seq<usize>|
                q.len() == d && is_subseq(q, t@.skip(start as int)) && #[trigger] lookup(
                    *old(self),
                    q,
                ).is_some() ==> lookup(*old(self), q).unwrap() < u64::MAX,
        ensures
            node_wf(*final(self)),
            final(self).key == old(self).key,
            forall|q: Seq<usize>| #[trigger]
                lookup(*final(self), q) == bump(
                    lookup(*old(self), q),
                    q.len() == d && is_subseq(q, t@.skip(start as int)),
                ),
        decreases t.len() - start,
    {
        let ghost o = *self;
        let ghost tt = t@.skip(start as int);
        if d == 0 {
            assert(lookup(o, Seq::empty()) == Some(o.value));
            self.value = self.value + 1;
            assert forall|q: Seq<usize>| #[trigger]
                lookup(*self, q) == bump(lookup(o, q), q.len() == d && is_subseq(q, tt)) by {
                if q.len() > 0 {
                    lemma_child_of_same(o, *self, q[0]);
                    assert(lookup(*self, q) == lookup(o, q));
                }
            }
            proof {
                lemma_child_of_same(o, *self, 0);
            }
            return;
        }
        if t.len() - start < d {
            assert forall|q: Seq<usize>| #[trigger]
                lookup(*self, q) == bump(lookup(o, q), q.len() == d && is_subseq(q, tt)) by {
                if q.len() == d && is_subseq(q, tt) {
                    lemma_subseq_len(q, tt);
                }
            }
            return;
        }
        let x = t[start];
        let c = self.search(x);
        let ghost t1 = t@.skip(start + 1);
        assert(tt.drop_first() =~= t1);
        assert(!t1.contains(x)) by {
            if t1.contains(x) {
                let j = choose|j: int| 0 <= j < t1.len() && t1[j] == x;
                assert(t@[start + 1 + j] == t1[j]);
            }
        }
        if c < self.children.len() && self.children[c].key == x {
            proof {
                lemma_child_at(o, c as int);
                assert forall|r: Seq<usize>|
                    r.len() == d - 1 && is_subseq(r, t1) && #[trigger] lookup(
                        o.children@[c as int],
                        r,
                    ).is_some() implies lookup(o.children@[c as int], r).unwrap() < u64::MAX by {
                    let q = cons(x, r);
                    assert(q.drop_first() =~= r);
                    assert(q[0] == x);
                    assert(lookup(o, q) == lookup(o.children@[c as int], r));
                }
            }
            self.children[c].count_rec(t, start + 1, d - 1);
            proof {
                let n = *self;
                assert(n.children@ =~= o.children@.update(c as int, n.children@[c as int]));
                lemma_replace_child(o, n, c as int);
            }
        }
        let ghost mid = *self;
        proof {
            assert forall|q: Seq<usize>|
                q.len() == d && is_subseq(q, t1) && #[trigger] lookup(mid, q).is_some() implies lookup(
                    mid,
                    q,
                ).unwrap() < u64::MAX by {
                lemma_subseq_head(q, t1);
                assert(q[0] != x);
                assert(lookup(mid, q) == lookup(o, q));
            }
        }
        self.count_rec(t, start + 1, d);
        proof {
            assert forall|q: Seq<usize>| #[trigger]
                lookup(*self, q) == bump(lookup(o, q), q.len() == d && is_subseq(q, tt)) by {
                if q.len() > 0 {
                    if q[0] == x {
                        if is_subseq(q, t1) {
                            lemma_subseq_head(q, t1);
                        }
                        if c < o.children.len() && o.children@[c as int].key == x {
                            let r = q.drop_first();
                            assert(is_subseq(q, tt) == is_subseq(r, t1));
                        } else {
                            assert(lookup(o, q).is_none());
                        }
                    } else {
                        assert(is_subseq(q, tt) == is_subseq(q, t1));
                        assert(lookup(mid, q) == lookup(o, q));
                    }
                } else {
                    assert(lookup(mid, q) == lookup(o, q));
                }
            }
        }
    }

    /// Appends to `out` every node at depth `d` below this one, with its value,
    /// each path written after `prefix`.
    fn collect_rec(&self, prefix: &mut Vec<usize>, d: usize, out: &mut Vec<(Vec<usize>, u64)>)
        requires
            node_wf(*self),
        ensures
            final(prefix)@ == old(prefix)@,
            final(out)@.len() >= old(out)@.len(),
            forall|k: int| 0 <= k < old(out)@.len() ==> #[trigger] final(out)@[k] == old(out)@[k],
            forall|k: int|
                old(out)@.len() <= k < final(out)@.len() ==> #[trigger] entry_at(
                    *self,
                    old(prefix)@,
                    d as nat,
                    final(out)@[k],
                ),
            forall|q: Seq<usize>|
                q.len() == d && #[trigger] lookup(*self, q).is_some() ==> exists|k: int|
                    old(out)@.len() <= k < final(out)@.len() && final(out)@[k].0@ == old(prefix)@ + q,
            forall|a: int, b: int|
                old(out)@.len() <= a < b < final(out)@.len() ==> (#[trigger] final(out)@[a]).0@ != (#[trigger] final(out)@[b]).0@,
        decreases d,
    {
        let ghost p0 = prefix@;
        let ghost out0 = out@;
        if d == 0 {
            let e = (prefix.clone(), self.value);
            out.push(e);
            proof {
                assert(e.0@ == p0);
                assert(e.0@.take(p0.len() as int) =~= p0);
                assert(e.0@.skip(p0.len() as int) =~= Seq::<usize>::empty());
                assert(entry_at(*self, p0, d as nat, e));
                assert forall|q: Seq<usize>|
                    q.len() == d && #[trigger] lookup(*self, q).is_some() implies exists|k: int|
                        out0.len() <= k < out@.len() && out@[k].0@ == p0 + q by {
                    assert(p0 + q =~= p0);
                    assert(out@[out0.len() as int] == e);
                }
            }
            return;
        }
        let mut i: usize = 0;
        while i < self.children.len()
            invariant
                node_wf(*self),
                d > 0,
                i <= self.children.len(),
                prefix@ == p0,
                out@.len() >= out0.len(),
                forall|k: int| 0 <= k < out0.len() ==> #[trigger] out@[k] == out0[k],
                forall|k: int|
                    out0.len() <= k < out@.len() ==> #[trigger] entry_at(*self, p0, d as nat, out@[k]),
                forall|q: Seq<usize>|
                    q.len() == d && #[trigger] lookup(*self, q).is_some() && (exists|a: int|
                        0 <= a < i && self.children@[a].key == q[0]) ==> exists|k: int|
                        out0.len() <= k < out@.len() && out@[k].0@ == p0 + q,
                forall|a: int, b: int|
                    out0.len() <= a < b < out@.len() ==> (#[trigger] out@[a]).0@ != (#[trigger] out@[b]).0@,
                forall|k: int|
                    out0.len() <= k < out@.len() ==> exists|j: int|
                        0 <= j < i && (#[trigger] out@[k]).0@[p0.len() as int] == self.children@[j].key,
            decreases self.children.len() - i,
        {
            let ghost out1 = out@;
            let key = self.children[i].key;
            proof {
                lemma_child_at(*self, i as int);
            }
            prefix.push(key);
            let ghost p1 = prefix@;
            self.children[i].collect_rec(prefix, d - 1, out);
            prefix.pop();
            proof {
                assert(prefix@ =~= p0);
                let ch = self.children@[i as int];
                assert forall|k: int| out0.len() <= k < out@.len() implies #[trigger] entry_at(
                    *self,
                    p0,
                    d as nat,
                    out@[k],
                ) by {
                    if k >= out1.len() {
                        let e = out@[k];
                        assert(entry_at(ch, p1, (d - 1) as nat, e));
                        let r = e.0@.skip(p1.len() as int);
                        let q = e.0@.skip(p0.len() as int);
                        assert(q.drop_first() =~= r);
                        assert(q[0] == key) by {
                            assert(e.0@.take(p1.len() as int) == p1);
                            assert(e.0@[p0.len() as int] == p1[p0.len() as int]);
                        }
                        assert(e.0@.take(p0.len() as int) =~= p0) by {
                            assert forall|m: int| 0 <= m < p0.len() implies e.0@.take(
                                p0.len() as int,
                            )[m] == p0[m] by {
                                assert(e.0@.take(p1.len() as int)[m] == p1[m]);
                            }
                        }
                        assert(lookup(*self, q) == lookup(ch, r));
                    } else {
                        assert(out@[k] == out1[k]);
                    }
                }
                assert forall|k: int|
                    out0.len() <= k < out@.len() implies exists|j: int|
                        0 <= j < i + 1 && (#[trigger] out@[k]).0@[p0.len() as int] == self.children@[j].key by {
                    if k >= out1.len() {
                        let e = out@[k];
                        assert(entry_at(ch, p1, (d - 1) as nat, e));
                        assert(e.0@.take(p1.len() as int) == p1);
                        assert(e.0@[p0.len() as int] == e.0@.take(p1.len() as int)[p0.len() as int]);
                        assert(e.0@[p0.len() as int] == key);
                    } else {
                        assert(out@[k] == out1[k]);
                        let j = choose|j: int| 0 <= j < i && (#[trigger] out1[k]).0@[p0.len() as int] == self.children@[j].key;
                    }
                }
                assert forall|a: int, b: int|
                    out0.len() <= a < b < out@.len() implies (#[trigger] out@[a]).0@ != (#[trigger] out@[b]).0@ by {
                    if b >= out1.len() && a < out1.len() {
                        assert(out@[a] == out1[a]);
                        let j = choose|j: int| 0 <= j < i && (#[trigger] out1[a]).0@[p0.len() as int] == self.children@[j].key;
                        assert(self.children@[j].key < key);
                        let e = out@[b];
                        assert(entry_at(ch, p1, (d - 1) as nat, e));
                        assert(e.0@.take(p1.len() as int) == p1);
                        assert(e.0@[p0.len() as int] == e.0@.take(p1.len() as int)[p0.len() as int]);
                    } else if b < out1.len() {
                        assert(out@[a] == out1[a]);
                        assert(out@[b] == out1[b]);
                    }
                }
                assert forall|q: Seq<usize>|
                    q.len() == d && #[trigger] lookup(*self, q).is_some() && (exists|a: int|
                        0 <= a < i + 1 && self.children@[a].key == q[0]) implies exists|k: int|
                        out0.len() <= k < out@.len() && out@[k].0@ == p0 + q by {
                    if q[0] == key {
                        let r = q.drop_first();
                        assert(lookup(*self, q) == lookup(ch, r));
                        assert(r.len() == d - 1);
                        let k = choose|k: int|
                            out1.len() <= k < out@.len() && out@[k].0@ == p1 + r;
                        assert(p1 + r =~= p0 + q) by {
                            assert(q =~= seq![key] + r);
                        }
                    } else {
                        let a = choose|a: int| 0 <= a < i + 1 && self.children@[a].key == q[0];
                        assert(a < i);
                        let k = choose|k: int|
                            out0.len() <= k < out1.len() && out1[k].0@ == p0 + q;
                        assert(out@[k] == out1[k]);
                    }
                }
            }
            i = i + 1;
        }
        proof {
            assert forall|q: Seq<usize>|
                q.len() == d && #[trigger] lookup(*self, q).is_some() implies exists|k: int|
                    out0.len() <= k < out@.len() && out@[k].0@ == p0 + q by {
                let c = child_of(*self, q[0]).unwrap();
                let a = choose|a: int|
                    0 <= a < self.children.len() && self.children@[a].key == q[0];
                assert(0 <= a < i && self.children@[a].key == q[0]);
            }
        }
    }

}


/// The map after `insert(p, value)`: `p` takes `value`, and every prefix of
/// `p` that was missing appears with `blank`.
pub open spec fn inserted(m: Map<Seq<usize>, u64>, p: Seq<usize>, value: u64, blank: u64) -> Map<
    Seq<usize>,
    u64,
> {
    Map::new(
        |q: Seq<usize>| m.contains_key(q) || is_prefix(q, p),
        |q: Seq<usize>|
            if q == p {
                value
            } else if m.contains_key(q) {
                m[q]
            } else {
                blank
            },
    )
}

/// The map after counting transaction `t` at depth `k`: every path of length
/// `k` that can be read off `t` is raised by one.
pub open spec fn counted(m: Map<Seq<usize>, u64>, t: Seq<usize>, k: nat) -> Map<Seq<usize>, u64> {
    Map::new(
        |q: Seq<usize>| m.contains_key(q),
        |q: Seq<usize>|
            if q.len() == k && is_subseq(q, t) {
                (m[q] + 1) as u64
            } else {
                m[q]
            },
    )
}

/// A prefix tree from item sequences to `u64` values. Its view maps the path
/// of every node, the root's empty path included, to the value there.
pub struct Trie {
    root: TrieNode,
    blank: u64,
}

impl View for Trie {
    type V = Map<Seq<usize>, u64>;

    closed spec fn view(&self) -> Map<Seq<usize>, u64> {
        Map::new(
            |p: Seq<usize>| lookup(self.root, p).is_some(),
            |p: Seq<usize>| lookup(self.root, p).unwrap(),
        )
    }
}

impl Trie {
    /// The tree is well formed: children are ordered by key at every node.
    pub closed spec fn wf(&self) -> bool {
        node_wf(self.root)
    }

    /// The value that nodes created on the way to an inserted path start with.
    pub closed spec fn blank(&self) -> u64 {
        self.blank
    }

    /// A tree holding the root alone, with value `blank`.
    pub fn new(blank: u64) -> (r: Trie)
        ensures
            r.wf(),
            r.blank() == blank,
            r@ == map![Seq::<usize>::empty() => blank],
            r.set_words() == seq![u64::MAX],
            r.ids_fit(),
            blank == 0 ==> r.normal_form(),
    {
        let r = Trie { root: TrieNode::leaf(0, blank), blank };
        assert forall|q: Seq<usize>| #[trigger] r@.contains_key(q) == (q == Seq::<usize>::empty()) by {
            assert(lookup(r.root, q).is_some() == (q.len() == 0));
            if q.len() == 0 {
                assert(q =~= Seq::<usize>::empty());
            }
        }
        assert(r@ =~= map![Seq::<usize>::empty() => blank]);
        r
    }

    /// Walks to `v`, creating missing nodes with the blank value, and sets the
    /// value there. Returns whether any node was created.
    pub fn insert(&mut self, v: &[usize], value: u64) -> (created: bool)
        requires
            old(self).wf(),
        ensures
            final(self).wf(),
            final(self).blank() == old(self).blank(),
            created == !old(self)@.contains_key(v@),
            final(self)@ == inserted(old(self)@, v@, value, old(self).blank()),
            final(self)@.contains_key(v@),
            final(self)@[v@] == value,
    {
        assert(v@.skip(0) =~= v@);
        let blank = self.blank;
        let created = self.root.insert_rec(v, 0, value, blank);
        assert(v@.take(v@.len() as int) =~= v@);
        assert(self@ =~= inserted(old(self)@, v@, value, blank)) by {
            assert forall|q: Seq<usize>| #[trigger] self@.contains_key(q) == inserted(old(self)@, v@, value, blank).contains_key(q) by {
                if q == v@ {
                    assert(v@.take(q.len() as int) =~= q);
                }
            }
        }
        created
    }

    /// The value at `v`, if the tree has a node there.
    pub fn get(&self, v: &[usize]) -> (r: Option<u64>)
        requires
            self.wf(),
        ensures
            r == if self@.contains_key(v@) {
                Some(self@[v@])
            } else {
                None::<u64>
            },
    {
        assert(v@.skip(0) =~= v@);
        self.root.get_rec(v, 0)
    }

    /// Whether the tree has a node at `v`.
    pub fn contains(&self, v: &[usize]) -> (r: bool)
        requires
            self.wf(),
        ensures
            r == self@.contains_key(v@),
    {
        self.get(v).is_some()
    }

    /// Adds one to the value at `v` if there is a node there; never creates one.
    pub fn increment(&mut self, v: &[usize]) -> (r: bool)
        requires
            old(self).wf(),
            old(self)@.contains_key(v@) ==> old(self)@[v@] < u64::MAX,
        ensures
            final(self).wf(),
            final(self).blank() == old(self).blank(),
            r == old(self)@.contains_key(v@),
            final(self)@ == if r {
                old(self)@.insert(v@, (old(self)@[v@] + 1) as u64)
            } else {
                old(self)@
            },
    {
        assert(v@.skip(0) =~= v@);
        let r = self.root.increment_rec(v, 0);
        if r {
            assert(self@ =~= old(self)@.insert(v@, (old(self)@[v@] + 1) as u64));
        } else {
            assert(self@ =~= old(self)@);
        }
        r
    }

    /// Counts the ascending transaction `t` at depth `k`: every node at depth
    /// `k` whose path is a subsequence of `t` goes up by one, each exactly once.
    pub fn count(&mut self, t: &[usize], k: usize)
        requires
            old(self).wf(),
            ascending(t@),
            forall|q: Seq<usize>|
                #[trigger] old(self)@.contains_key(q) && q.len() == k ==> old(self)@[q] < u64::MAX,
        ensures
            final(self).wf(),
            final(self).blank() == old(self).blank(),
            final(self)@ == counted(old(self)@, t@, k as nat),
    {
        assert(t@.skip(0) =~= t@);
        let ghost o = self.root;
        assert forall|q: Seq<usize>|
            q.len() == k && is_subseq(q, t@.skip(0)) && #[trigger] lookup(o, q).is_some() implies lookup(
                o,
                q,
            ).unwrap() < u64::MAX by {
            assert(old(self)@.contains_key(q));
        }
        self.root.count_rec(t, 0, k);
        assert(self@ =~= counted(old(self)@, t@, k as nat));
    }

    /// Every node at depth `k`, as its path and value.
    pub fn for_each(&self, k: usize) -> (r: Vec<(Vec<usize>, u64)>)
        requires
            self.wf(),
        ensures
            forall|i: int|
                0 <= i < r.len() ==> (#[trigger] r@[i]).0@.len() == k && self@.contains_key(r@[i].0@)
                    && self@[r@[i].0@] == r@[i].1,
            forall|q: Seq<usize>|
                q.len() == k && #[trigger] self@.contains_key(q) ==> exists|i: int|
                    0 <= i < r.len() && r@[i].0@ == q,
            forall|a: int, b: int| 0 <= a < b < r.len() ==> (#[trigger] r@[a]).0@ != (#[trigger] r@[b]).0@,
    {
        let mut prefix: Vec<usize> = Vec::new();
        let mut out: Vec<(Vec<usize>, u64)> = Vec::new();
        self.root.collect_rec(&mut prefix, k, &mut out);
        assert forall|i: int| 0 <= i < out.len() implies (#[trigger] out@[i]).0@.len() == k
            && self@.contains_key(out@[i].0@) && self@[out@[i].0@] == out@[i].1 by {
            assert(entry_at(self.root, Seq::empty(), k as nat, out@[i]));
            assert(out@[i].0@.skip(0) =~= out@[i].0@);
        }
        assert forall|q: Seq<usize>|
            q.len() == k && #[trigger] self@.contains_key(q) implies exists|i: int|
                0 <= i < out.len() && out@[i].0@ == q by {
            assert(lookup(self.root, q).is_some());
            assert(Seq::<usize>::empty() + q =~= q);
        }
        out
    }
}


/// Counting an ascending transaction at depth `k` raises the count of an
/// ascending itemset of length `k` in the tree by exactly one when the
/// transaction holds all its items, and leaves it otherwise.
pub proof fn lemma_counted_once(m: Map<Seq<usize>, u64>, t: Seq<usize>, k: nat, q: Seq<usize>)
    requires
        ascending(t),
        ascending(q),
        q.len() == k,
        m.contains_key(q),
    ensures
        counted(m, t, k).contains_key(q),
        counted(m, t, k)[q] == if contains_all(t, q) {
            (m[q] + 1) as u64
        } else {
            m[q]
        },
{
    lemma_subseq_iff_contains(q, t);
}


/// The bit that marks, on the key of the edge into it, a node without
/// children in the set form.
pub const LEAF_BIT: u64 = 0x8000_0000_0000_0000;

/// Every key below `n` leaves the leaf bit clear.
pub open spec fn keys_small(n: TrieNode) -> bool
    decreases n,
{
    forall|i: int| 0 <= i < n.children.len() ==> (#[trigger] n.children@[i]).key < LEAF_BIT && keys_small(n.children@[i])
}

/// The set-form words of the children of `n` from position `i` on: each
/// child's key, with the leaf bit set where it has no children, followed
/// by the child's own words where it has.
pub open spec fn enc_children(n: TrieNode, i: int) -> Seq<u64>
    decreases n, n.children.len() - i,
{
    if i < 0 || i >= n.children.len() {
        Seq::empty()
    } else {
        let c = n.children@[i];
        (if c.children.len() == 0 {
            seq![(c.key + LEAF_BIT) as u64]
        } else {
            seq![c.key as u64] + enc_node(c)
        }) + enc_children(n, i + 1)
    }
}

/// The set-form words of a node with children: their number, then each.
pub open spec fn enc_node(n: TrieNode) -> Seq<u64>
    decreases n, n.children.len() + 1,
{
    seq![n.children.len() as u64] + enc_children(n, 0)
}

impl TrieNode {
    /// Appends the set-form words of this node, which has children; fails
    /// on a key with the leaf bit set.
    fn enc_rec(&self, out: &mut Vec<u64>) -> (ok: bool)
        requires
            node_wf(*self),
            self.children.len() > 0,
        ensures
            ok == keys_small(*self),
            ok ==> final(out)@ == old(out)@ + enc_node(*self),
        decreases *self,
    {
        let ghost o = out@;
        out.push(self.children.len() as u64);
        let mut i: usize = 0;
        assert(o.push(self.children.len() as u64) + enc_children(*self, 0) =~= o + enc_node(*self));
        while i < self.children.len()
            invariant
                node_wf(*self),
                i <= self.children.len(),
                out@ + enc_children(*self, i as int) == o + enc_node(*self),
                forall|j: int| 0 <= j < i ==> (#[trigger] self.children@[j]).key < LEAF_BIT && keys_small(self.children@[j]),
            decreases self.children.len() - i,
        {
            let c = &self.children[i];
            proof {
                lemma_child_at(*self, i as int);
            }
            if c.key as u64 >= LEAF_BIT {
                return false;
            }
            let ghost before = out@;
            if c.children.len() == 0 {
                out.push(c.key as u64 + LEAF_BIT);
                proof {
                    assert(keys_small(*c));
                    assert(before + enc_children(*self, i as int) =~= out@ + enc_children(*self, i + 1));
                }
            } else {
                out.push(c.key as u64);
                let ok = c.enc_rec(out);
                if !ok {
                    return false;
                }
                proof {
                    assert(before + enc_children(*self, i as int) =~= out@ + enc_children(*self, i + 1));
                }
            }
            i = i + 1;
        }
        proof {
            assert(enc_children(*self, i as int) =~= Seq::<u64>::empty());
            assert(out@ =~= o + enc_node(*self));
        }
        true
    }
}

/// Why a tree could not be written in the set form.
#[derive(Debug, PartialEq, Eq, Structural)]
pub enum SerialiseError {
    /// An item id has the leaf bit set.
    Overflow,
}

impl Trie {
    /// Every item id on the tree's edges has bit 63 clear.
    pub open spec fn ids_fit(&self) -> bool {
        keys_small(self.root_node())
    }

    /// The set form of the tree: depth-first, each node with children as
    /// their number followed by each child's key (leaf bit set for a child
    /// without children) and that child's own words; `[u64::MAX]` for a tree
    /// without edges.
    pub open spec fn set_words(&self) -> Seq<u64> {
        if self.root_node().children.len() == 0 {
            seq![u64::MAX]
        } else {
            enc_node(self.root_node())
        }
    }

    /// The root node, whose subtree the view maps.
    pub closed spec fn root_node(&self) -> TrieNode {
        self.root
    }

    /// The tree in set form; fails on an item id with bit 63 set.
    pub fn to_vec(&self) -> (r: Result<Vec<u64>, SerialiseError>)
        requires
            self.wf(),
        ensures
            r.is_ok() == self.ids_fit(),
            r matches Ok(v) ==> v@ == self.set_words(),
    {
        let mut out: Vec<u64> = Vec::new();
        if self.root.children.len() == 0 {
            out.push(u64::MAX);
            assert(out@ =~= seq![u64::MAX]);
            return Ok(out);
        }
        if self.root.enc_rec(&mut out) {
            assert(out@ =~= Seq::<u64>::empty() + enc_node(self.root));
            Ok(out)
        } else {
            Err(SerialiseError::Overflow)
        }
    }
}


/// In the set form's normal shape: nodes without children carry 1, the
/// others 0, all the way down.
pub open spec fn normal(n: TrieNode) -> bool
    decreases n,
{
    &&& n.value == (if n.children.len() == 0 { 1u64 } else { 0u64 })
    &&& forall|i: int| 0 <= i < n.children.len() ==> normal(#[trigger] n.children@[i])
}

/// The words of the set form of `n`, a well-formed node with children in
/// normal shape keyed `key`, stand at `pos` in `w`.
spec fn enc_at(w: Seq<u64>, pos: int, n: TrieNode, key: usize) -> bool {
    &&& 0 <= pos
    &&& pos + enc_node(n).len() <= w.len()
    &&& w.subrange(pos, pos + enc_node(n).len()) == enc_node(n)
    &&& node_wf(n)
    &&& normal(n)
    &&& keys_small(n)
    &&& n.key == key
    &&& n.children.len() > 0
}

proof fn lemma_enc_children_step(n: TrieNode, j: int)
    requires
        0 <= j < n.children.len(),
    ensures
        enc_children(n, j) == (if n.children@[j].children.len() == 0 {
            seq![(n.children@[j].key + LEAF_BIT) as u64]
        } else {
            seq![n.children@[j].key as u64] + enc_node(n.children@[j])
        }) + enc_children(n, j + 1),
{
}

/// Reads the words of a node with children at `pos`, building a fresh node
/// keyed `key` (internal nodes carry 0, nodes without children 1), and the
/// position after its words; `None` where the words describe no tree.
/// Where they are the set form of a well-formed node in normal shape, the
/// node read has the same lookups.
fn dec_rec(words: &Vec<u64>, pos: usize, key: usize) -> (r: Option<(TrieNode, usize)>)
    ensures
        r matches Some(x) ==> node_wf(x.0) && x.0.key == key && pos < x.1 <= words.len(),
        forall|n: TrieNode| #[trigger] enc_at(words@, pos as int, n, key) ==> (r matches Some(x) && x.1 == pos + enc_node(n).len()
            && forall|q: Seq<usize>| #[trigger] lookup(x.0, q) == lookup(n, q)),
    decreases words.len() - pos,
{
    if pos >= words.len() {
        return None;
    }
    let count = words[pos];
    let mut p: usize = pos + 1;
    let mut children: Vec<TrieNode> = Vec::new();
    let mut j: u64 = 0;
    proof {
        assert forall|n: TrieNode| #[trigger] enc_at(words@, pos as int, n, key) implies count == n.children.len()
            && p <= pos + enc_node(n).len()
            && words@.subrange(p as int, pos + enc_node(n).len()) == enc_children(n, 0) by {
            let e = enc_node(n).len() as int;
            assert(words@[pos as int] == words@.subrange(pos as int, pos + e)[0]);
            assert(words@[pos as int] == enc_node(n)[0]);
            assert(words@.subrange(p as int, pos + e) =~= words@.subrange(pos as int, pos + e).subrange(1, e));
            assert(enc_node(n).subrange(1, e) =~= enc_children(n, 0));
        }
    }
    while j < count
        invariant
            pos < p <= words.len(),
            children.len() == j,
            j <= count,
            forall|a: int, b: int| 0 <= a < b < children.len() ==> children@[a].key < children@[b].key,
            forall|a: int| 0 <= a < children.len() ==> node_wf(#[trigger] children@[a]),
            forall|n: TrieNode| #[trigger] enc_at(words@, pos as int, n, key) ==> count == n.children.len()
                && p <= pos + enc_node(n).len()
                && words@.subrange(p as int, pos + enc_node(n).len()) == enc_children(n, j as int)
                && forall|a: int| 0 <= a < children.len() ==> (#[trigger] children@[a]).key == n.children@[a].key
                    && forall|q: Seq<usize>| #[trigger] lookup(children@[a], q) == lookup(n.children@[a], q),
        decreases count - j,
    {
        if p >= words.len() {
            proof {
                assert forall|n: TrieNode| #[trigger] enc_at(words@, pos as int, n, key) implies false by {
                    lemma_enc_children_step(n, j as int);
                    assert(enc_children(n, j as int).len() > 0);
                }
            }
            return None;
        }
        let w = words[p];
        let ghost p0 = p;
        let child: TrieNode;
        if w >= LEAF_BIT {
            child = TrieNode::leaf((w - LEAF_BIT) as usize, 1);
            p = p + 1;
            proof {
                assert forall|n: TrieNode| #[trigger] enc_at(words@, pos as int, n, key) implies
                    p <= pos + enc_node(n).len()
                    && words@.subrange(p as int, pos + enc_node(n).len()) == enc_children(n, j + 1)
                    && child.key == n.children@[j as int].key
                    && forall|q: Seq<usize>| #[trigger] lookup(child, q) == lookup(n.children@[j as int], q) by {
                    let c = n.children@[j as int];
                    let rest = words@.subrange(p0 as int, pos + enc_node(n).len());
                    lemma_enc_children_step(n, j as int);
                    lemma_child_at(n, j as int);
                    assert(enc_children(n, j as int).len() > 0);
                    assert(rest[0] == w);
                    assert(c.key < LEAF_BIT && keys_small(c));
                    assert(normal(c));
                    assert(c.children.len() == 0);
                    assert(c.value == 1);
                    assert forall|q: Seq<usize>| #[trigger] lookup(child, q) == lookup(c, q) by {
                        if q.len() > 0 {
                            assert(child_of(c, q[0]).is_none());
                        }
                    }
                    assert(words@.subrange(p as int, pos + enc_node(n).len()) =~= rest.subrange(1, rest.len() as int));
                    assert(rest.subrange(1, rest.len() as int) =~= enc_children(n, j + 1));
                }
            }
        } else {
            match dec_rec(words, p + 1, w as usize) {
                Some((node, p2)) => {
                    child = node;
                    p = p2;
                    proof {
                        assert forall|n: TrieNode| #[trigger] enc_at(words@, pos as int, n, key) implies
                            p <= pos + enc_node(n).len()
                            && words@.subrange(p as int, pos + enc_node(n).len()) == enc_children(n, j + 1)
                            && child.key == n.children@[j as int].key
                            && forall|q: Seq<usize>| #[trigger] lookup(child, q) == lookup(n.children@[j as int], q) by {
                            let c = n.children@[j as int];
                            let rest = words@.subrange(p0 as int, pos + enc_node(n).len());
                            lemma_enc_children_step(n, j as int);
                            lemma_child_at(n, j as int);
                            assert(enc_children(n, j as int).len() > 0);
                            assert(rest[0] == w);
                            assert(c.key < LEAF_BIT && keys_small(c));
                            assert(normal(c));
                            assert(c.children.len() > 0);
                            assert(c.children.len() > 0) by {
                                if c.children.len() == 0 {
                                    assert(rest[0] == (c.key + LEAF_BIT) as u64);
                                }
                            }
                            assert(rest == (seq![c.key as u64] + enc_node(c)) + enc_children(n, j + 1));
                            assert(rest.len() >= 1 + enc_node(c).len());
                            assert(rest[0] == c.key as u64);
                            assert(w as usize == c.key);
                            assert(enc_at(words@, p0 + 1, c, w as usize)) by {
                                assert(words@.subrange(p0 + 1, p0 + 1 + enc_node(c).len()) =~= rest.subrange(1, 1 + enc_node(c).len() as int));
                                assert(rest.subrange(1, 1 + enc_node(c).len() as int) =~= enc_node(c));
                            }
                            assert(words@.subrange(p as int, pos + enc_node(n).len()) =~= rest.subrange(1 + enc_node(c).len() as int, rest.len() as int));
                            assert(rest.subrange(1 + enc_node(c).len() as int, rest.len() as int) =~= enc_children(n, j + 1));
                        }
                    }
                },
                None => {
                    proof {
                        assert forall|n: TrieNode| #[trigger] enc_at(words@, pos as int, n, key) implies false by {
                            let c = n.children@[j as int];
                            let rest = words@.subrange(p0 as int, pos + enc_node(n).len());
                            lemma_enc_children_step(n, j as int);
                            lemma_child_at(n, j as int);
                            assert(enc_children(n, j as int).len() > 0);
                            assert(rest[0] == w);
                            assert(c.key < LEAF_BIT && keys_small(c));
                            assert(normal(c));
                            assert(c.children.len() > 0) by {
                                if c.children.len() == 0 {
                                    assert(rest[0] == (c.key + LEAF_BIT) as u64);
                                }
                            }
                            assert(rest == (seq![c.key as u64] + enc_node(c)) + enc_children(n, j + 1));
                            assert(rest.len() >= 1 + enc_node(c).len());
                            assert(rest[0] == c.key as u64);
                            assert(w as usize == c.key);
                            assert(enc_at(words@, p0 + 1, c, w as usize)) by {
                                assert(words@.subrange(p0 + 1, p0 + 1 + enc_node(c).len()) =~= rest.subrange(1, 1 + enc_node(c).len() as int));
                                assert(rest.subrange(1, 1 + enc_node(c).len() as int) =~= enc_node(c));
                            }
                        }
                    }
                    return None;
                },
            }
        }
        if children.len() > 0 && children[children.len() - 1].key >= child.key {
            proof {
                assert forall|n: TrieNode| #[trigger] enc_at(words@, pos as int, n, key) implies false by {
                    let a = children.len() - 1;
                    assert(n.children@[a].key < n.children@[j as int].key);
                }
            }
            return None;
        }
        let ghost ch0 = children@;
        children.push(child);
        proof {
            assert forall|n: TrieNode| #[trigger] enc_at(words@, pos as int, n, key) implies
                forall|a: int| 0 <= a < children.len() ==> (#[trigger] children@[a]).key == n.children@[a].key
                    && forall|q: Seq<usize>| #[trigger] lookup(children@[a], q) == lookup(n.children@[a], q) by {
                assert forall|a: int| 0 <= a < children.len() implies (#[trigger] children@[a]).key == n.children@[a].key
                    && forall|q: Seq<usize>| #[trigger] lookup(children@[a], q) == lookup(n.children@[a], q) by {
                    if a < ch0.len() {
                        assert(children@[a] == ch0[a]);
                    }
                }
            }
        }
        j = j + 1;
    }
    let r = TrieNode { key, value: 0, children };
    proof {
        assert(node_wf(r));
        assert forall|n: TrieNode| #[trigger] enc_at(words@, pos as int, n, key) implies p == pos + enc_node(n).len()
            && forall|q: Seq<usize>| #[trigger] lookup(r, q) == lookup(n, q) by {
            assert(enc_children(n, j as int) =~= Seq::<u64>::empty());
            assert(words@.subrange(p as int, pos + enc_node(n).len()).len() == 0);
            assert(n.value == 0);
            assert forall|q: Seq<usize>| #[trigger] lookup(r, q) == lookup(n, q) by {
                if q.len() > 0 {
                    if exists|a: int| 0 <= a < n.children.len() && n.children@[a].key == q[0] {
                        let a = choose|a: int| 0 <= a < n.children.len() && n.children@[a].key == q[0];
                        lemma_child_at(n, a);
                        lemma_child_at(r, a);
                        assert(lookup(r.children@[a], q.drop_first()) == lookup(n.children@[a], q.drop_first()));
                    } else {
                        if exists|a: int| 0 <= a < r.children.len() && r.children@[a].key == q[0] {
                            let a = choose|a: int| 0 <= a < r.children.len() && r.children@[a].key == q[0];
                            assert(n.children@[a].key == q[0]);
                        }
                        assert(child_of(r, q[0]).is_none());
                        assert(child_of(n, q[0]).is_none());
                    }
                }
            }
        }
    }
    Some((r, p))
}


impl Trie {
    /// The tree is in the set form's normal shape: the root carries 0, nodes
    /// without children 1 and other nodes 0.
    pub open spec fn normal_form(&self) -> bool {
        &&& self.root_node().value == 0
        &&& forall|i: int| 0 <= i < self.root_node().children.len() ==> normal(#[trigger] self.root_node().children@[i])
    }

    /// Reads a tree written in set form, with blank 0; `None` where the
    /// words describe no tree. Reading back what `to_vec` wrote of a
    /// well-formed tree in normal shape gives the same tree.
    pub fn from_vec(words: &Vec<u64>) -> (r: Option<Trie>)
        ensures
            r matches Some(t) ==> t.wf() && t.blank() == 0,
            forall|t: Trie| t.wf() && t.normal_form() && t.ids_fit() && #[trigger] t.set_words() == words@
                ==> (r matches Some(u) && u@ == t@),
    {
        if words.len() == 1 && words[0] == u64::MAX {
            let r = Trie::new(0);
            proof {
                assert forall|t: Trie| t.wf() && t.normal_form() && t.ids_fit() && #[trigger] t.set_words() == words@
                    implies r@ == t@ by {
                    if t.root.children.len() > 0 {
                        lemma_enc_children_step(t.root, 0);
                        assert(enc_node(t.root).len() >= 2);
                    }
                    assert forall|q: Seq<usize>| #[trigger] r@.contains_key(q) == t@.contains_key(q) by {
                        if q.len() > 0 {
                            assert(child_of(t.root, q[0]).is_none());
                        } else {
                            assert(q =~= Seq::<usize>::empty());
                        }
                    }
                    assert(r@ =~= t@);
                }
            }
            return Some(r);
        }
        match dec_rec(words, 0, 0) {
            Some((root, p)) => {
                if p != words.len() {
                    proof {
                        assert forall|t: Trie| t.wf() && t.normal_form() && t.ids_fit() && #[trigger] t.set_words() == words@
                            implies false by {
                            lemma_root_words(t, words@);
                        }
                    }
                    return None;
                }
                let r = Trie { root, blank: 0 };
                proof {
                    assert forall|t: Trie| t.wf() && t.normal_form() && t.ids_fit() && #[trigger] t.set_words() == words@
                        implies r@ == t@ by {
                        lemma_root_words(t, words@);
                        let n = TrieNode { key: 0, value: t.root.value, children: t.root.children };
                        assert forall|q: Seq<usize>| #[trigger] lookup(n, q) == lookup(t.root, q) by {
                            if q.len() > 0 {
                                lemma_child_of_same(t.root, n, q[0]);
                            }
                        }
                        assert(r@ =~= t@);
                    }
                }
                Some(r)
            },
            None => {
                proof {
                    assert forall|t: Trie| t.wf() && t.normal_form() && t.ids_fit() && #[trigger] t.set_words() == words@
                        implies false by {
                        lemma_root_words(t, words@);
                    }
                }
                None
            },
        }
    }
}

/// The set form of a tree with edges is its root's words, which stand at
/// position 0 for the root keyed 0.
proof fn lemma_root_words(t: Trie, w: Seq<u64>)
    requires
        t.wf(),
        t.normal_form(),
        t.ids_fit(),
        t.set_words() == w,
        !(w.len() == 1 && w[0] == u64::MAX),
    ensures
        t.root.children.len() > 0,
        enc_at(w, 0, TrieNode { key: 0, value: t.root.value, children: t.root.children }, 0),
        enc_node(TrieNode { key: 0, value: t.root.value, children: t.root.children }).len() == w.len(),
{
    let n = TrieNode { key: 0, value: t.root.value, children: t.root.children };
    assert(t.root.children.len() > 0);
    lemma_child_of_same(t.root, n, 0);
    assert(enc_children(n, 0) == enc_children(t.root, 0)) by {
        lemma_enc_children_same(t.root, n, 0);
    }
    assert(w.subrange(0, w.len() as int) =~= w);
}

proof fn lemma_enc_children_same(a: TrieNode, b: TrieNode, i: int)
    requires
        a.children == b.children,
    ensures
        enc_children(a, i) == enc_children(b, i),
    decreases a.children.len() - i,
{
    if 0 <= i < a.children.len() {
        lemma_enc_children_same(a, b, i + 1);
    }
}


/// Below a well-formed node, every key keeps the leaf bit clear exactly when
/// every path that leads somewhere does.
proof fn lemma_keys_small_paths(n: TrieNode)
    requires
        node_wf(n),
    ensures
        keys_small(n) <==> forall|p: Seq<usize>| #[trigger] lookup(n, p).is_some() ==> forall|i: int| 0 <= i < p.len() ==> #[trigger] p[i] < LEAF_BIT,
    decreases n,
{
    assert forall|j: int| 0 <= j < n.children.len() implies node_wf(#[trigger] n.children@[j]) by {
        lemma_child_at(n, j);
    }
    assert forall|j: int| 0 <= j < n.children.len() implies (keys_small(#[trigger] n.children@[j]) <==> forall|p: Seq<usize>| #[trigger] lookup(n.children@[j], p).is_some() ==> forall|i: int| 0 <= i < p.len() ==> #[trigger] p[i] < LEAF_BIT) by {
        lemma_keys_small_paths(n.children@[j]);
    }
    if keys_small(n) {
        assert forall|p: Seq<usize>| #[trigger] lookup(n, p).is_some() implies forall|i: int| 0 <= i < p.len() ==> #[trigger] p[i] < LEAF_BIT by {
            if p.len() > 0 {
                let j = choose|j: int| 0 <= j < n.children.len() && n.children@[j].key == p[0];
                lemma_child_at(n, j);
                let r = p.drop_first();
                assert(lookup(n.children@[j], r).is_some());
                assert forall|i: int| 0 <= i < p.len() implies #[trigger] p[i] < LEAF_BIT by {
                    if i > 0 {
                        assert(p[i] == r[i - 1]);
                    }
                }
            }
        }
    }
    if forall|p: Seq<usize>| #[trigger] lookup(n, p).is_some() ==> forall|i: int| 0 <= i < p.len() ==> #[trigger] p[i] < LEAF_BIT {
        assert forall|j: int| 0 <= j < n.children.len() implies (#[trigger] n.children@[j]).key < LEAF_BIT && keys_small(n.children@[j]) by {
            let c = n.children@[j];
            lemma_child_at(n, j);
            let p1 = seq![c.key];
            assert(p1.drop_first() =~= Seq::<usize>::empty());
            assert(lookup(c, Seq::<usize>::empty()) == Some(c.value));
            assert(p1[0] == c.key);
            assert(lookup(n, p1) == lookup(c, p1.drop_first()));
            assert(lookup(n, p1).is_some());
            assert(p1[0] < LEAF_BIT);
            assert forall|r: Seq<usize>| #[trigger] lookup(c, r).is_some() implies forall|i: int| 0 <= i < r.len() ==> #[trigger] r[i] < LEAF_BIT by {
                let p = seq![c.key] + r;
                assert(p.drop_first() =~= r);
                assert(p[0] == c.key);
                assert(lookup(n, p) == lookup(c, p.drop_first()));
                assert(lookup(n, p).is_some());
                assert forall|i: int| 0 <= i < r.len() implies #[trigger] r[i] < LEAF_BIT by {
                    assert(p[i + 1] == r[i]);
                }
            }
        }
    }
}

/// A path of a well-formed node leads on to a longer path exactly when the
/// node it reaches has children.
proof fn lemma_has_children(n: TrieNode, p: Seq<usize>)
    requires
        node_wf(n),
        lookup(n, p).is_some(),
    ensures
        node_at(n, p).children.len() > 0 <==> exists|x: usize| #[trigger] lookup(n, p.push(x)).is_some(),
        lookup(n, p) == Some(node_at(n, p).value),
        node_wf(node_at(n, p)),
        normal(n) ==> normal(node_at(n, p)),
    decreases p.len(),
{
    if p.len() == 0 {
        if n.children.len() > 0 {
            let x = n.children@[0].key;
            lemma_child_at(n, 0);
            let c = n.children@[0];
            assert(p.push(x) =~= seq![x]);
            assert(p.push(x).drop_first() =~= Seq::<usize>::empty());
            assert(lookup(c, Seq::<usize>::empty()) == Some(c.value));
            assert(lookup(n, p.push(x)) == lookup(c, p.push(x).drop_first()));
            assert(lookup(n, p.push(x)).is_some());
        }
        if exists|x: usize| #[trigger] lookup(n, p.push(x)).is_some() {
            let x = choose|x: usize| #[trigger] lookup(n, p.push(x)).is_some();
            assert(p.push(x) =~= seq![x]);
            assert(child_of(n, x).is_some());
        }
    } else {
        let j = choose|j: int| 0 <= j < n.children.len() && n.children@[j].key == p[0];
        lemma_child_at(n, j);
        let c = n.children@[j];
        lemma_has_children(c, p.drop_first());
        assert forall|x: usize| #[trigger] lookup(n, p.push(x)) == lookup(c, p.drop_first().push(x)) by {
            assert(p.push(x).drop_first() =~= p.drop_first().push(x));
            assert(p.push(x)[0] == p[0]);
        }
        if exists|x: usize| #[trigger] lookup(c, p.drop_first().push(x)).is_some() {
            let x = choose|x: usize| #[trigger] lookup(c, p.drop_first().push(x)).is_some();
            assert(lookup(n, p.push(x)).is_some());
        }
    }
}

/// The node that path `p` leads to below `n`.
pub closed spec fn node_at(n: TrieNode, p: Seq<usize>) -> TrieNode
    decreases p.len(),
{
    if p.len() == 0 {
        n
    } else {
        match child_of(n, p[0]) {
            Some(c) => node_at(c, p.drop_first()),
            None => n,
        }
    }
}

/// Normal shape, read off the view: nodes with no longer path carry 1, the
/// others (the root included) 0.
pub open spec fn normal_view(m: Map<Seq<usize>, u64>) -> bool {
    forall|p: Seq<usize>| #[trigger] m.contains_key(p) ==> m[p] == if p.len() > 0 && !(exists|x: usize| #[trigger] m.contains_key(p.push(x))) {
        1u64
    } else {
        0u64
    }
}

impl Trie {
    /// Item ids fit 63 bits exactly when every path of the view keeps bit
    /// 63 clear.
    pub proof fn lemma_ids_fit_view(&self)
        requires
            self.wf(),
        ensures
            self.ids_fit() <==> forall|p: Seq<usize>| #[trigger] self@.contains_key(p) ==> forall|i: int| 0 <= i < p.len() ==> #[trigger] p[i] < LEAF_BIT,
    {
        lemma_keys_small_paths(self.root);
        assert forall|p: Seq<usize>| #[trigger] self@.contains_key(p) == lookup(self.root, p).is_some() by {}
        if self.ids_fit() {
            assert forall|p: Seq<usize>| #[trigger] self@.contains_key(p) implies forall|i: int| 0 <= i < p.len() ==> #[trigger] p[i] < LEAF_BIT by {
                assert(lookup(self.root, p).is_some());
            }
        }
        if forall|p: Seq<usize>| #[trigger] self@.contains_key(p) ==> forall|i: int| 0 <= i < p.len() ==> #[trigger] p[i] < LEAF_BIT {
            assert forall|p: Seq<usize>| #[trigger] lookup(self.root, p).is_some() implies forall|i: int| 0 <= i < p.len() ==> #[trigger] p[i] < LEAF_BIT by {
                assert(self@.contains_key(p));
            }
        }
    }

    /// A tree in normal shape has the normal shape in its view.
    pub proof fn lemma_normal_view(&self)
        requires
            self.wf(),
            self.normal_form(),
        ensures
            normal_view(self@),
    {
        assert forall|p: Seq<usize>| #[trigger] self@.contains_key(p) implies self@[p] == if p.len() > 0 && !(exists|x: usize| #[trigger] self@.contains_key(p.push(x))) {
            1u64
        } else {
            0u64
        } by {
            lemma_has_children(self.root, p);
            assert forall|x: usize| #![trigger self@.contains_key(p.push(x))] #![trigger lookup(self.root, p.push(x))]
                self@.contains_key(p.push(x)) == lookup(self.root, p.push(x)).is_some() by {}
            assert(self@[p] == node_at(self.root, p).value);
            assert((exists|x: usize| #[trigger] self@.contains_key(p.push(x))) == (node_at(self.root, p).children.len() > 0));
            if p.len() > 0 {
                let j = choose|j: int| 0 <= j < self.root.children.len() && self.root.children@[j].key == p[0];
                lemma_child_at(self.root, j);
                let c = self.root.children@[j];
                assert(normal(c));
                lemma_has_children(c, p.drop_first());
                assert(node_at(self.root, p) == node_at(c, p.drop_first()));
                assert(normal(node_at(c, p.drop_first())));
            }
            assert forall|x: usize| #[trigger] self@.contains_key(p.push(x)) == lookup(self.root, p.push(x)).is_some() by {}
        }
    }
}


/// A well-formed node whose every path carries 1 when it leads no further
/// and 0 otherwise is in normal shape.
proof fn lemma_normal_of(n: TrieNode)
    requires
        node_wf(n),
        forall|q: Seq<usize>| #[trigger] lookup(n, q).is_some() ==> lookup(n, q).unwrap() == if !(exists|x: usize| #[trigger] lookup(n, q.push(x)).is_some()) {
            1u64
        } else {
            0u64
        },
    ensures
        normal(n),
    decreases n,
{
    lemma_has_children(n, Seq::empty());
    assert(lookup(n, Seq::<usize>::empty()).is_some());
    assert forall|j: int| 0 <= j < n.children.len() implies normal(#[trigger] n.children@[j]) by {
        lemma_child_at(n, j);
        let c = n.children@[j];
        assert forall|r: Seq<usize>| #[trigger] lookup(c, r).is_some() implies lookup(c, r).unwrap() == if !(exists|x: usize| #[trigger] lookup(c, r.push(x)).is_some()) {
            1u64
        } else {
            0u64
        } by {
            let q = seq![c.key] + r;
            assert(q.drop_first() =~= r);
            assert(q[0] == c.key);
            assert(lookup(n, q) == lookup(c, r));
            assert forall|x: usize| #![trigger lookup(n, q.push(x))] #![trigger lookup(c, r.push(x))] lookup(n, q.push(x)) == lookup(c, r.push(x)) by {
                assert(q.push(x).drop_first() =~= r.push(x));
                assert(q.push(x)[0] == c.key);
            }
        }
        lemma_normal_of(c);
    }
}

impl Trie {
    /// A tree whose view has the normal shape is in normal shape: a caller
    /// that knows the view can meet what `from_vec` asks of a tree.
    pub proof fn lemma_normal_from_view(&self)
        requires
            self.wf(),
            normal_view(self@),
        ensures
            self.normal_form(),
    {
        assert forall|p: Seq<usize>| #![trigger self@.contains_key(p)] #![trigger lookup(self.root, p)] self@.contains_key(p) == lookup(self.root, p).is_some() by {}
        assert(self@.contains_key(Seq::<usize>::empty()));
        assert(lookup(self.root, Seq::<usize>::empty()) == Some(self.root.value));
        assert forall|j: int| 0 <= j < self.root.children.len() implies normal(#[trigger] self.root.children@[j]) by {
            lemma_child_at(self.root, j);
            let c = self.root.children@[j];
            assert forall|r: Seq<usize>| #[trigger] lookup(c, r).is_some() implies lookup(c, r).unwrap() == if !(exists|x: usize| #[trigger] lookup(c, r.push(x)).is_some()) {
                1u64
            } else {
                0u64
            } by {
                let q = seq![c.key] + r;
                assert(q.drop_first() =~= r);
                assert(q[0] == c.key);
                assert(lookup(self.root, q) == lookup(c, r));
                assert(self@.contains_key(q));
                assert forall|x: usize| #![trigger self@.contains_key(q.push(x))] #![trigger lookup(c, r.push(x))] self@.contains_key(q.push(x)) == lookup(c, r.push(x)).is_some() by {
                    assert(q.push(x).drop_first() =~= r.push(x));
                    assert(q.push(x)[0] == c.key);
                    assert(lookup(self.root, q.push(x)) == lookup(c, r.push(x)));
                }
            }
            lemma_normal_of(c);
        }
    }
}


/// The counter form of a node: its value, then the counter form of each
/// child in key order (every node, pre-order).
pub open spec fn vals_node(n: TrieNode) -> Seq<u64>
    decreases n, n.children.len() + 1,
{
    seq![n.value] + vals_from(n, 0)
}

/// The counter forms of the children of `n` from position `i` on.
pub open spec fn vals_from(n: TrieNode, i: int) -> Seq<u64>
    decreases n, n.children.len() - i,
{
    if i < 0 || i >= n.children.len() {
        Seq::empty()
    } else {
        vals_node(n.children@[i]) + vals_from(n, i + 1)
    }
}

/// `a` and `b` have the same keys in the same places, values aside.
pub open spec fn same_shape(a: TrieNode, b: TrieNode) -> bool
    decreases a,
{
    &&& a.children.len() == b.children.len()
    &&& forall|i: int| 0 <= i < a.children.len() ==> (#[trigger] a.children@[i]).key == b.children@[i].key
        && same_shape(a.children@[i], b.children@[i])
}

/// Trees of one shape have counter forms of one length.
proof fn lemma_vals_len(a: TrieNode, b: TrieNode)
    requires
        same_shape(a, b),
    ensures
        vals_node(a).len() == vals_node(b).len(),
    decreases a,
{
    lemma_vals_from_len(a, b, 0);
}

proof fn lemma_vals_from_len(a: TrieNode, b: TrieNode, i: int)
    requires
        same_shape(a, b),
        0 <= i,
    ensures
        vals_from(a, i).len() == vals_from(b, i).len(),
    decreases a, a.children.len() - i,
{
    if i < a.children.len() {
        lemma_vals_len(a.children@[i], b.children@[i]);
        lemma_vals_from_len(a, b, i + 1);
    }
}

/// Trees of one shape with one counter form have the same lookups.
proof fn lemma_vals_lookup(a: TrieNode, b: TrieNode)
    requires
        node_wf(a),
        node_wf(b),
        same_shape(a, b),
        vals_node(a) == vals_node(b),
    ensures
        forall|q: Seq<usize>| #[trigger] lookup(a, q) == lookup(b, q),
    decreases a,
{
    assert(vals_node(a)[0] == a.value);
    assert(vals_node(b)[0] == b.value);
    assert(vals_from(a, 0) =~= vals_node(a).subrange(1, vals_node(a).len() as int));
    assert(vals_from(b, 0) =~= vals_node(b).subrange(1, vals_node(b).len() as int));
    lemma_vals_from_parts(a, b, 0);
    assert forall|q: Seq<usize>| #[trigger] lookup(a, q) == lookup(b, q) by {
        if q.len() > 0 {
            if exists|j: int| 0 <= j < a.children.len() && a.children@[j].key == q[0] {
                let j = choose|j: int| 0 <= j < a.children.len() && a.children@[j].key == q[0];
                lemma_child_at(a, j);
                lemma_child_at(b, j);
                lemma_vals_lookup(a.children@[j], b.children@[j]);
                assert(lookup(a.children@[j], q.drop_first()) == lookup(b.children@[j], q.drop_first()));
            } else {
                if exists|j: int| 0 <= j < b.children.len() && b.children@[j].key == q[0] {
                    let j = choose|j: int| 0 <= j < b.children.len() && b.children@[j].key == q[0];
                    assert(a.children@[j].key == q[0]);
                }
                assert(child_of(a, q[0]).is_none());
                assert(child_of(b, q[0]).is_none());
            }
        }
    }
}

/// Equal counter forms of children, from position `i` on, split into equal
/// counter forms of each child.
proof fn lemma_vals_from_parts(a: TrieNode, b: TrieNode, i: int)
    requires
        same_shape(a, b),
        0 <= i,
        vals_from(a, i) == vals_from(b, i),
    ensures
        forall|j: int| i <= j < a.children.len() ==> vals_node(#[trigger] a.children@[j]) == vals_node(b.children@[j]),
    decreases a.children.len() - i,
{
    if i < a.children.len() {
        lemma_vals_len(a.children@[i], b.children@[i]);
        let l = vals_node(a.children@[i]).len() as int;
        assert(vals_from(a, i).subrange(0, l) =~= vals_node(a.children@[i]));
        assert(vals_from(b, i).subrange(0, l) =~= vals_node(b.children@[i]));
        assert(vals_from(a, i).subrange(l, vals_from(a, i).len() as int) =~= vals_from(a, i + 1));
        assert(vals_from(b, i).subrange(l, vals_from(b, i).len() as int) =~= vals_from(b, i + 1));
        lemma_vals_from_parts(a, b, i + 1);
    }
}

impl TrieNode {
    /// Appends the counter form of this node.
    fn vals_rec(&self, out: &mut Vec<u64>)
        ensures
            final(out)@ == old(out)@ + vals_node(*self),
        decreases *self,
    {
        let ghost o = out@;
        out.push(self.value);
        let mut i: usize = 0;
        assert(o.push(self.value) + vals_from(*self, 0) =~= o + vals_node(*self));
        while i < self.children.len()
            invariant
                i <= self.children.len(),
                out@ + vals_from(*self, i as int) == o + vals_node(*self),
            decreases self.children.len() - i,
        {
            let ghost before = out@;
            self.children[i].vals_rec(out);
            assert(before + vals_from(*self, i as int) =~= out@ + vals_from(*self, i + 1));
            i = i + 1;
        }
        assert(vals_from(*self, i as int) =~= Seq::<u64>::empty());
        assert(out@ =~= o + vals_node(*self));
    }
}

impl Trie {
    /// The counter form of the tree: every node's value, depth-first, each
    /// node before its children and children in key order.
    pub fn to_counts(&self) -> (r: Vec<u64>)
        ensures
            r@ == vals_node(self.root_node()),
    {
        let mut out: Vec<u64> = Vec::new();
        self.root.vals_rec(&mut out);
        assert(out@ =~= Seq::<u64>::empty() + vals_node(self.root));
        out
    }

    /// `self` and `other` hold the same paths in the same order of keys.
    pub open spec fn same_shape_as(&self, other: Trie) -> bool {
        same_shape(self.root_node(), other.root_node())
    }

    /// Trees of one shape whose counter forms agree have the same view: the
    /// counter form read back into a tree of the shape it was written from
    /// gives that tree's counts.
    pub proof fn lemma_counts_determine(&self, other: Trie)
        requires
            self.wf(),
            other.wf(),
            self.same_shape_as(other),
            vals_node(self.root_node()) == vals_node(other.root_node()),
        ensures
            self@ == other@,
    {
        lemma_vals_lookup(self.root, other.root);
        assert(self@ =~= other@);
    }
}


/// The counter forms of a list of nodes, one after the other.
pub open spec fn vals_list(cs: Seq<TrieNode>) -> Seq<u64>
    decreases cs.len(),
{
    if cs.len() == 0 {
        Seq::empty()
    } else {
        vals_list(cs.drop_last()) + vals_node(cs.last())
    }
}

proof fn lemma_vals_list_single(c: TrieNode)
    ensures
        vals_list(seq![c]) == vals_node(c),
{
    assert(seq![c].drop_last() =~= Seq::<TrieNode>::empty());
    assert(vals_list(Seq::<TrieNode>::empty()) == Seq::<u64>::empty());
    assert(seq![c].last() == c);
    assert(vals_list(seq![c]) =~= Seq::<u64>::empty() + vals_node(c));
    assert(Seq::<u64>::empty() + vals_node(c) =~= vals_node(c));
}

proof fn lemma_vals_list_append(a: Seq<TrieNode>, b: Seq<TrieNode>)
    ensures
        vals_list(a + b) == vals_list(a) + vals_list(b),
    decreases b.len(),
{
    if b.len() == 0 {
        assert(a + b =~= a);
        assert(vals_list(a) + vals_list(b) =~= vals_list(a));
    } else {
        lemma_vals_list_append(a, b.drop_last());
        assert((a + b).drop_last() =~= a + b.drop_last());
        assert(vals_list(a) + vals_list(b.drop_last()) + vals_node(b.last()) =~= vals_list(a) + (vals_list(b.drop_last()) + vals_node(b.last())));
    }
}

proof fn lemma_vals_from_list(n: TrieNode, i: int)
    requires
        0 <= i <= n.children.len(),
    ensures
        vals_from(n, i) == vals_list(n.children@.skip(i)),
    decreases n.children.len() - i,
{
    if i < n.children.len() {
        lemma_vals_from_list(n, i + 1);
        let rest = n.children@.skip(i + 1);
        assert(n.children@.skip(i) =~= seq![n.children@[i]] + rest);
        lemma_vals_list_append(seq![n.children@[i]], rest);
        lemma_vals_list_single(n.children@[i]);
    } else {
        assert(n.children@.skip(i) =~= Seq::<TrieNode>::empty());
    }
}

impl TrieNode {
    /// A node of this node's shape whose counter form is the words of `w`
    /// from `pos` on.
    fn with_counts_rec(&self, w: &Vec<u64>, pos: usize) -> (r: (TrieNode, usize))
        requires
            node_wf(*self),
            pos + vals_node(*self).len() <= w.len(),
        ensures
            node_wf(r.0),
            r.0.key == self.key,
            same_shape(r.0, *self),
            r.1 == pos + vals_node(*self).len(),
            vals_node(r.0) == w@.subrange(pos as int, r.1 as int),
        decreases *self,
    {
        let ghost total = vals_node(*self).len();
        proof {
            lemma_vals_from_list(*self, 0);
            assert(self.children@.skip(0) =~= self.children@);
        }
        let value = w[pos];
        let mut p: usize = pos + 1;
        let mut built: Vec<TrieNode> = Vec::new();
        let mut i: usize = 0;
        while i < self.children.len()
            invariant
                node_wf(*self),
                i <= self.children.len(),
                built.len() == i,
                pos + total <= w.len(),
                total == 1 + vals_list(self.children@).len(),
                vals_list(self.children@) == vals_list(self.children@.take(i as int)) + vals_list(self.children@.skip(i as int)),
                p == pos + 1 + vals_list(self.children@.take(i as int)).len(),
                vals_list(built@) == w@.subrange(pos + 1, p as int),
                forall|a: int| 0 <= a < i ==> (#[trigger] built@[a]).key == self.children@[a].key
                    && same_shape(built@[a], self.children@[a]) && node_wf(built@[a]),
            decreases self.children.len() - i,
        {
            proof {
                lemma_child_at(*self, i as int);
                let c = self.children@[i as int];
                assert(self.children@.take(i + 1) =~= self.children@.take(i as int).push(c));
                assert(self.children@.take(i + 1).drop_last() =~= self.children@.take(i as int));
                assert(self.children@.skip(i as int) =~= seq![c] + self.children@.skip(i + 1));
                lemma_vals_list_append(seq![c], self.children@.skip(i + 1));
                lemma_vals_list_single(c);
                lemma_vals_list_append(self.children@.take(i + 1), self.children@.skip(i + 1));
                assert(self.children@.take(i + 1) + self.children@.skip(i + 1) =~= self.children@);
            }
            let ghost b0 = built@;
            let (child, p2) = self.children[i].with_counts_rec(w, p);
            built.push(child);
            proof {
                assert(built@.drop_last() =~= b0);
                assert(w@.subrange(pos + 1, p2 as int) =~= w@.subrange(pos + 1, p as int) + w@.subrange(p as int, p2 as int));
                assert forall|a: int| 0 <= a < i + 1 implies (#[trigger] built@[a]).key == self.children@[a].key
                    && same_shape(built@[a], self.children@[a]) && node_wf(built@[a]) by {
                    if a < i {
                        assert(built@[a] == b0[a]);
                    }
                }
            }
            p = p2;
            i = i + 1;
        }
        let r = TrieNode { key: self.key, value, children: built };
        proof {
            assert(self.children@.take(i as int) =~= self.children@);
            assert forall|a: int, b: int| 0 <= a < b < r.children.len() implies r.children@[a].key < r.children@[b].key by {
                assert(self.children@[a].key < self.children@[b].key);
            }
            assert(node_wf(r));
            assert(same_shape(r, *self));
            lemma_vals_from_list(r, 0);
            assert(r.children@.skip(0) =~= r.children@);
            assert(vals_node(r) =~= w@.subrange(pos as int, p as int));
        }
        (r, p)
    }
}

impl Trie {
    /// A tree of this tree's shape whose counter form is `w`: the counter
    /// form read back into the tree it was written from, or into any tree of
    /// that shape. `None` when `w` is not as long as the counter form.
    pub fn with_counts(&self, w: &Vec<u64>) -> (r: Option<Trie>)
        requires
            self.wf(),
        ensures
            r is Some <==> w.len() == vals_node(self.root_node()).len(),
            r matches Some(t) ==> t.wf() && t.blank() == self.blank() && t.same_shape_as(*self)
                && vals_node(t.root_node()) == w@,
    {
        let mut probe: Vec<u64> = Vec::new();
        self.root.vals_rec(&mut probe);
        assert(probe@ =~= Seq::<u64>::empty() + vals_node(self.root));
        if probe.len() != w.len() {
            return None;
        }
        let (root, p) = self.root.with_counts_rec(w, 0);
        assert(w@.subrange(0, p as int) =~= w@);
        Some(Trie { root, blank: self.blank })
    }

    /// Adds a counter form to this tree's counts, node by node: the
    /// counter-form merge of partial counts. `None` (and no change) when `w`
    /// is not as long as the counter form; counts saturate at `u64::MAX`.
    pub fn add_counts(&mut self, w: &Vec<u64>) -> (ok: bool)
        requires
            old(self).wf(),
        ensures
            final(self).wf(),
            final(self).blank() == old(self).blank(),
            ok <==> w.len() == vals_node(old(self).root_node()).len(),
            !ok ==> *final(self) == *old(self),
            ok ==> final(self).same_shape_as(*old(self)) && vals_node(final(self).root_node()).len() == w.len()
                && forall|i: int| 0 <= i < w.len() ==> #[trigger] vals_node(final(self).root_node())[i] == if vals_node(old(self).root_node())[i] + w@[i] <= u64::MAX {
                    (vals_node(old(self).root_node())[i] + w@[i]) as u64
                } else {
                    u64::MAX
                },
    {
        let mut cur = self.to_counts();
        if cur.len() != w.len() {
            return false;
        }
        let ghost c0 = cur@;
        let mut i: usize = 0;
        while i < cur.len()
            invariant
                cur.len() == w.len(),
                c0.len() == w.len(),
                i <= cur.len(),
                forall|a: int| 0 <= a < i ==> #[trigger] cur@[a] == if c0[a] + w@[a] <= u64::MAX {
                    (c0[a] + w@[a]) as u64
                } else {
                    u64::MAX
                },
                forall|a: int| i <= a < cur.len() ==> #[trigger] cur@[a] == c0[a],
            decreases cur.len() - i,
        {
            let v = cur[i].saturating_add(w[i]);
            cur.set(i, v);
            i = i + 1;
        }
        match self.with_counts(&cur) {
            Some(t) => {
                *self = t;
                true
            },
            None => false,
        }
    }
}

} // verus!
