//! The `.dat` input format: one transaction per line, items as
//! whitespace-separated decimal numbers. Each line's items are sorted and
//! deduplicated; blank lines and lines that do not parse are dropped.
use vstd::prelude::*;
use crate::itemset::ascending;
use crate::transaction_set::{item_bound, TransactionSet};

verus! {

/// Space, tab, line feed, vertical tab, form feed or carriage return.
pub open spec fn is_blank(b: u8) -> bool {
    b == 32 || (9 <= b && b <= 13)
}

/// The tokens of `s` read so far, and the token being read.
pub open spec fn tokens_upto(s: Seq<u8>) -> (Seq<Seq<u8>>, Seq<u8>)
    decreases s.len(),
{
    if s.len() == 0 {
        (Seq::empty(), Seq::empty())
    } else {
        let (d, c) = tokens_upto(s.drop_last());
        if is_blank(s.last()) {
            if c.len() > 0 {
                (d.push(c), Seq::empty())
            } else {
                (d, c)
            }
        } else {
            (d, c.push(s.last()))
        }
    }
}

/// The maximal runs of non-blank bytes of `s`, in order.
pub open spec fn tokens(s: Seq<u8>) -> Seq<Seq<u8>> {
    let (d, c) = tokens_upto(s);
    if c.len() > 0 {
        d.push(c)
    } else {
        d
    }
}

/// The value of a string of decimal digits.
pub open spec fn digits_value(s: Seq<u8>) -> nat
    decreases s.len(),
{
    if s.len() == 0 {
        0
    } else {
        digits_value(s.drop_last()) * 10 + (s.last() - 48) as nat
    }
}

/// A token's item: its value, when it is a non-empty string of decimal
/// digits whose value is below `usize::MAX` (so that the item cardinality,
/// one more than the largest item, fits `usize`).
pub open spec fn token_value(t: Seq<u8>) -> Option<usize> {
    if t.len() > 0 && (forall|i: int| 0 <= i < t.len() ==> 48 <= #[trigger] t[i] <= 57)
        && digits_value(t) < usize::MAX {
        Some(digits_value(t) as usize)
    } else {
        None
    }
}

/// Every token of the line is an item.
pub open spec fn line_parses(line: Seq<u8>) -> bool {
    forall|i: int| 0 <= i < tokens(line).len() ==> (#[trigger] token_value(tokens(line)[i])).is_some()
}

/// `x` is the item of some token of the line.
pub open spec fn line_has(line: Seq<u8>, x: usize) -> bool {
    exists|i: int| 0 <= i < tokens(line).len() && #[trigger] token_value(tokens(line)[i]) == Some(x)
}

/// The lines of `s` read so far (each ended by a line feed), and the line
/// being read.
pub open spec fn lines_upto(s: Seq<u8>) -> (Seq<Seq<u8>>, Seq<u8>)
    decreases s.len(),
{
    if s.len() == 0 {
        (Seq::empty(), Seq::empty())
    } else {
        let (d, c) = lines_upto(s.drop_last());
        if s.last() == 10 {
            (d.push(c), Seq::empty())
        } else {
            (d, c.push(s.last()))
        }
    }
}

/// The lines of `s`; a last line without a line feed counts too.
pub open spec fn lines(s: Seq<u8>) -> Seq<Seq<u8>> {
    let (d, c) = lines_upto(s);
    if c.len() > 0 {
        d.push(c)
    } else {
        d
    }
}

/// The lines that make transactions: those that parse and hold an item.
pub open spec fn kept(ls: Seq<Seq<u8>>) -> Seq<Seq<u8>>
    decreases ls.len(),
{
    if ls.len() == 0 {
        Seq::empty()
    } else if line_parses(ls.last()) && tokens(ls.last()).len() > 0 {
        kept(ls.drop_last()).push(ls.last())
    } else {
        kept(ls.drop_last())
    }
}

/// The item a complete token stands for, if any.
fn parse_token(tok: &Vec<u8>) -> (r: Option<usize>)
    ensures
        r == token_value(tok@),
{
    if tok.len() == 0 {
        return None;
    }
    let mut v: usize = 0;
    let mut i: usize = 0;
    while i < tok.len()
        invariant
            0 < tok.len(),
            i <= tok.len(),
            forall|j: int| 0 <= j < i ==> 48 <= #[trigger] tok@[j] <= 57,
            v == digits_value(tok@.take(i as int)),
        decreases tok.len() - i,
    {
        let b = tok[i];
        assert(tok@.take(i + 1).drop_last() =~= tok@.take(i as int));
        if b < 48 || b > 57 {
            assert(!(48 <= tok@[i as int] <= 57));
            return None;
        }
        let d = (b - 48) as usize;
        match v.checked_mul(10) {
            Some(m) => match m.checked_add(d) {
                Some(n) => {
                    v = n;
                },
                None => {
                    proof {
                        lemma_digits_grow(tok@, i as int + 1);
                    }
                    return None;
                },
            },
            None => {
                proof {
                    lemma_digits_grow(tok@, i as int + 1);
                }
                return None;
            },
        }
        i = i + 1;
    }
    assert(tok@.take(i as int) =~= tok@);
    if v == usize::MAX {
        return None;
    }
    Some(v)
}

/// A longer digit string is worth at least as much as its prefixes.
proof fn lemma_digits_grow(t: Seq<u8>, n: int)
    requires
        0 <= n <= t.len(),
    ensures
        digits_value(t.take(n)) <= digits_value(t),
    decreases t.len() - n,
{
    if n < t.len() {
        lemma_digits_grow(t, n + 1);
        assert(t.take(n + 1).drop_last() =~= t.take(n));
    } else {
        assert(t.take(n) =~= t);
    }
}

/// Puts `x` into the ascending `v`, unless it is there already.
fn insert_sorted(v: &mut Vec<usize>, x: usize)
    requires
        ascending(old(v)@),
    ensures
        ascending(final(v)@),
        forall|y: usize| #[trigger] final(v)@.contains(y) <==> (old(v)@.contains(y) || y == x),
        final(v)@.len() <= old(v)@.len() + 1,
{
    let mut i: usize = 0;
    while i < v.len() && v[i] < x
        invariant
            i <= v.len(),
            ascending(v@),
            forall|j: int| 0 <= j < i ==> v@[j] < x,
        decreases v.len() - i,
    {
        i = i + 1;
    }
    if i < v.len() && v[i] == x {
        return;
    }
    let ghost o = v@;
    v.insert(i, x);
    assert forall|a: int, b: int| 0 <= a < b < v@.len() implies v@[a] < v@[b] by {
        if b < i {
        } else if a > i {
            assert(o[a - 1] < o[b - 1]);
        } else if a < i && b > i {
            assert(o[a] < x);
            assert(x < o[b - 1]) by {
                assert(o[i as int] > x);
                if b - 1 > i {
                    assert(o[i as int] < o[b - 1]);
                }
            }
        } else if a == i {
            assert(x < o[b - 1]) by {
                assert(o[i as int] > x);
                if b - 1 > i {
                    assert(o[i as int] < o[b - 1]);
                }
            }
        }
    }
    assert forall|y: usize| #[trigger] v@.contains(y) <==> (o.contains(y) || y == x) by {
        if v@.contains(y) {
            let a = choose|a: int| 0 <= a < v@.len() && v@[a] == y;
            if a < i {
                assert(o[a] == y);
            } else if a > i {
                assert(o[a - 1] == y);
            }
        }
        if o.contains(y) {
            let a = choose|a: int| 0 <= a < o.len() && o[a] == y;
            if a < i {
                assert(v@[a] == y);
            } else {
                assert(v@[a + 1] == y);
            }
        }
        if y == x {
            assert(v@[i as int] == y);
        }
    }
}


/// The largest item cardinality the transactions of `db` call for.
pub open spec fn db_bound(db: Seq<Seq<usize>>) -> nat
    decreases db.len(),
{
    if db.len() == 0 {
        0
    } else if item_bound(db.last()) > db_bound(db.drop_last()) {
        item_bound(db.last())
    } else {
        db_bound(db.drop_last())
    }
}

/// The items of one line, sorted and deduplicated, or `None` if one of its
/// tokens is not an item.
pub fn parse_line(line: &Vec<u8>) -> (r: Option<Vec<usize>>)
    ensures
        r.is_some() == line_parses(line@),
        r matches Some(v) ==> ascending(v@) && v@.len() <= line@.len()
            && (v@.len() > 0 <==> tokens(line@).len() > 0)
            && forall|x: usize| #[trigger] v@.contains(x) <==> line_has(line@, x),
{
    let mut cur: Vec<u8> = Vec::new();
    let mut v: Vec<usize> = Vec::new();
    let mut ok = true;
    let mut i: usize = 0;
    while i < line.len()
        invariant
            i <= line.len(),
            cur@ == tokens_upto(line@.take(i as int)).1,
            ok == forall|j: int| 0 <= j < tokens_upto(line@.take(i as int)).0.len() ==> (#[trigger] token_value(tokens_upto(line@.take(i as int)).0[j])).is_some(),
            ok ==> ascending(v@),
            ok ==> forall|x: usize| #[trigger] v@.contains(x) <==> exists|j: int| 0 <= j < tokens_upto(line@.take(i as int)).0.len() && #[trigger] token_value(tokens_upto(line@.take(i as int)).0[j]) == Some(x),
            ok ==> (v@.len() > 0 <==> tokens_upto(line@.take(i as int)).0.len() > 0),
            v@.len() <= tokens_upto(line@.take(i as int)).0.len(),
            tokens_upto(line@.take(i as int)).0.len() + (if cur@.len() > 0 { 1int } else { 0int }) <= i,
        decreases line.len() - i,
    {
        let b = line[i];
        let ghost (d, c) = tokens_upto(line@.take(i as int));
        assert(line@.take(i + 1).drop_last() =~= line@.take(i as int));
        assert(line@.take(i + 1).last() == b);
        if b == 32 || (9 <= b && b <= 13) {
            if cur.len() > 0 {
                let t = parse_token(&cur);
                let ghost v0 = v@;
                match t {
                    Some(x) => {
                        if ok {
                            insert_sorted(&mut v, x);
                        }
                    },
                    None => {
                        ok = false;
                    },
                }
                proof {
                    let d2 = d.push(c);
                    assert(tokens_upto(line@.take(i + 1)).0 == d2);
                    assert(d2[d.len() as int] == c);
                    if ok {
                        assert forall|x: usize| #[trigger] v@.contains(x) <==> exists|j: int| 0 <= j < d2.len() && #[trigger] token_value(d2[j]) == Some(x) by {
                            if v@.contains(x) && !v0.contains(x) {
                                assert(token_value(d2[d.len() as int]) == Some(x));
                            }
                            if v0.contains(x) {
                                let j = choose|j: int| 0 <= j < d.len() && #[trigger] token_value(d[j]) == Some(x);
                                assert(d2[j] == d[j]);
                            }
                            if exists|j: int| 0 <= j < d2.len() && #[trigger] token_value(d2[j]) == Some(x) {
                                let j = choose|j: int| 0 <= j < d2.len() && #[trigger] token_value(d2[j]) == Some(x);
                                if j < d.len() {
                                    assert(d2[j] == d[j]);
                                    assert(v0.contains(x));
                                }
                            }
                        }
                        assert(v@.contains(t.unwrap()));
                    }
                    assert((forall|j: int| 0 <= j < d2.len() ==> (#[trigger] token_value(d2[j])).is_some())
                        == ((forall|j: int| 0 <= j < d.len() ==> (#[trigger] token_value(d[j])).is_some()) && token_value(c).is_some())) by {
                        if forall|j: int| 0 <= j < d.len() ==> (#[trigger] token_value(d[j])).is_some() {
                            if token_value(c).is_some() {
                                assert forall|j: int| 0 <= j < d2.len() implies (#[trigger] token_value(d2[j])).is_some() by {
                                    if j < d.len() {
                                        assert(d2[j] == d[j]);
                                    }
                                }
                            }
                        }
                        if forall|j: int| 0 <= j < d2.len() ==> (#[trigger] token_value(d2[j])).is_some() {
                            assert forall|j: int| 0 <= j < d.len() implies (#[trigger] token_value(d[j])).is_some() by {
                                assert(d2[j] == d[j]);
                                assert(token_value(d2[j]).is_some());
                            }
                            assert(token_value(d2[d.len() as int]).is_some());
                        }
                    }
                }
                cur = Vec::new();
            }
        } else {
            cur.push(b);
        }
        i = i + 1;
    }
    assert(line@.take(i as int) =~= line@);
    let ghost (d, c) = tokens_upto(line@);
    if cur.len() > 0 {
        let t = parse_token(&cur);
        let ghost v0 = v@;
        match t {
            Some(x) => {
                if ok {
                    insert_sorted(&mut v, x);
                }
            },
            None => {
                ok = false;
            },
        }
        proof {
            let d2 = d.push(c);
            assert(tokens(line@) == d2);
            assert(d2[d.len() as int] == c);
            if ok {
                assert forall|x: usize| #[trigger] v@.contains(x) <==> line_has(line@, x) by {
                    if v@.contains(x) && !v0.contains(x) {
                        assert(token_value(d2[d.len() as int]) == Some(x));
                    }
                    if v0.contains(x) {
                        let j = choose|j: int| 0 <= j < d.len() && #[trigger] token_value(d[j]) == Some(x);
                        assert(d2[j] == d[j]);
                    }
                    if line_has(line@, x) {
                        let j = choose|j: int| 0 <= j < d2.len() && #[trigger] token_value(d2[j]) == Some(x);
                        if j < d.len() {
                            assert(d2[j] == d[j]);
                            assert(v0.contains(x));
                        }
                    }
                }
                assert(v@.contains(t.unwrap()));
            }
            assert(line_parses(line@) == ((forall|j: int| 0 <= j < d.len() ==> (#[trigger] token_value(d[j])).is_some()) && token_value(c).is_some())) by {
                if forall|j: int| 0 <= j < d.len() ==> (#[trigger] token_value(d[j])).is_some() {
                    if token_value(c).is_some() {
                        assert forall|j: int| 0 <= j < d2.len() implies (#[trigger] token_value(d2[j])).is_some() by {
                            if j < d.len() {
                                assert(d2[j] == d[j]);
                            }
                        }
                    }
                }
                if line_parses(line@) {
                    assert forall|j: int| 0 <= j < d.len() implies (#[trigger] token_value(d[j])).is_some() by {
                        assert(d2[j] == d[j]);
                        assert(token_value(tokens(line@)[j]).is_some());
                    }
                    assert(token_value(tokens(line@)[d.len() as int]).is_some());
                }
            }
        }
    } else {
        assert(tokens(line@) == d);
    }
    if ok {
        Some(v)
    } else {
        None
    }
}


impl TransactionSet {
    /// Reads a database in the `.dat` format: one transaction per line
    /// that parses and holds an item, with its items sorted and deduplicated;
    /// the item cardinality is one more than the largest item.
    pub fn from_dat(bytes: &[u8]) -> (r: TransactionSet)
        ensures
            r.wf(),
            r.num_items == db_bound(r@),
            r@.len() == kept(lines(bytes@)).len(),
            forall|j: int, x: usize| 0 <= j < r@.len() ==> (#[trigger] r@[j].contains(x) <==> line_has(kept(lines(bytes@))[j], x)),
    {
        let mut r = TransactionSet::new(Vec::new(), 0);
        assert(r@ =~= Seq::<Seq<usize>>::empty());
        let mut line: Vec<u8> = Vec::new();
        let mut i: usize = 0;
        while i < bytes.len()
            invariant
                i <= bytes.len(),
                r.wf(),
                r.num_items == db_bound(r@),
                line@ == lines_upto(bytes@.take(i as int)).1,
                r@.len() == kept(lines_upto(bytes@.take(i as int)).0).len(),
                forall|j: int, x: usize| 0 <= j < r@.len() ==> (#[trigger] r@[j].contains(x) <==> line_has(kept(lines_upto(bytes@.take(i as int)).0)[j], x)),
                r.size + line@.len() <= i,
            decreases bytes.len() - i,
        {
            let b = bytes[i];
            let ghost (d, c) = lines_upto(bytes@.take(i as int));
            assert(bytes@.take(i + 1).drop_last() =~= bytes@.take(i as int));
            assert(bytes@.take(i + 1).last() == b);
            if b == 10 {
                let ghost r0 = r@;
                let ghost size0 = r.size;
                let parsed = parse_line(&line);
                proof {
                    let d2 = d.push(c);
                    assert(lines_upto(bytes@.take(i + 1)).0 == d2);
                    assert(d2.drop_last() =~= d);
                    assert(d2.last() == c);
                }
                self_add(&mut r, parsed, Ghost(line@));
                proof {
                    let d2 = d.push(c);
                    assert forall|j: int, x: usize| 0 <= j < r@.len() implies (#[trigger] r@[j].contains(x) <==> line_has(kept(d2)[j], x)) by {
                        if j < r0.len() {
                            assert(r@[j] == r0[j]);
                            assert(kept(d2)[j] == kept(d)[j]);
                        }
                    }
                }
                line = Vec::new();
            } else {
                line.push(b);
            }
            i = i + 1;
        }
        assert(bytes@.take(i as int) =~= bytes@);
        let ghost (d, c) = lines_upto(bytes@);
        if line.len() > 0 {
            let ghost r0 = r@;
            let parsed = parse_line(&line);
            proof {
                let d2 = d.push(c);
                assert(lines(bytes@) == d2);
                assert(d2.drop_last() =~= d);
                assert(d2.last() == c);
            }
            self_add(&mut r, parsed, Ghost(line@));
            proof {
                let d2 = d.push(c);
                assert forall|j: int, x: usize| 0 <= j < r@.len() implies (#[trigger] r@[j].contains(x) <==> line_has(kept(d2)[j], x)) by {
                    if j < r0.len() {
                        assert(r@[j] == r0[j]);
                        assert(kept(d2)[j] == kept(d)[j]);
                    }
                }
            }
        } else {
            assert(lines(bytes@) == d);
        }
        r
    }
}

/// Appends a parsed line to the database, if it parsed and holds an item.
fn self_add(r: &mut TransactionSet, parsed: Option<Vec<usize>>, Ghost(line): Ghost<Seq<u8>>)
    requires
        old(r).wf(),
        old(r).num_items == db_bound(old(r)@),
        old(r).size + line.len() <= usize::MAX,
        parsed.is_some() == line_parses(line),
        parsed matches Some(v) ==> ascending(v@) && v@.len() <= line.len()
            && (v@.len() > 0 <==> tokens(line).len() > 0)
            && forall|x: usize| #[trigger] v@.contains(x) <==> line_has(line, x),
    ensures
        final(r).wf(),
        final(r).num_items == db_bound(final(r)@),
        final(r).size <= old(r).size + line.len(),
        (line_parses(line) && tokens(line).len() > 0) ==> final(r)@ == old(r)@.push(
            parsed.unwrap()@,
        ),
        !(line_parses(line) && tokens(line).len() > 0) ==> final(r)@ == old(r)@,
        (line_parses(line) && tokens(line).len() > 0) ==> forall|x: usize| #[trigger] final(r)@.last().contains(x) <==> line_has(line, x),
{
    match parsed {
        Some(v) => {
            if v.len() > 0 {
                let ghost vv = v@;
                proof {
                    assert forall|i: int| 0 <= i < v.len() implies v@[i] < usize::MAX by {
                        assert(v@.contains(v@[i]));
                        assert(line_has(line, v@[i]));
                        let j = choose|j: int| 0 <= j < tokens(line).len() && #[trigger] token_value(tokens(line)[j]) == Some(v@[i]);
                    }
                }
                let ghost r0 = *r;
                r.add_transaction(v);
                proof {
                    assert(r@ =~= r0@.push(vv));
                    assert(r@.drop_last() =~= r0@);
                }
            }
        },
        None => {},
    }
}

} // verus!
