//! A dense lower-triangular matrix of counts, and the pass-two pair counters
//! built on it.
use vstd::prelude::*;
use vstd::slice::slice_to_vec;
use crate::itemset::ascending;
use crate::storage::TrieSet;

verus! {

/// The number of cells in the rows above row `r`: 0 + 1 + ... + (r - 1).
pub open spec fn tri(r: nat) -> nat
    decreases r,
{
    if r == 0 {
        0
    } else {
        tri((r - 1) as nat) + (r - 1) as nat
    }
}

/// The position of cell (`row`, `col`) in the flat array; the two orders of an
/// unordered pair share a cell.
pub open spec fn tri_index(row: nat, col: nat) -> nat {
    if row > col {
        tri(row) + col
    } else {
        tri(col) + row
    }
}

proof fn lemma_tri_closed(r: nat)
    ensures
        2 * tri(r) == r * (r - 1),
    decreases r,
{
    if r == 0 {
        assert(r * (r - 1) == 0) by (nonlinear_arith)
            requires
                r == 0,
        ;
    } else if r == 1 {
        assert(tri(1) == tri(0) + 0);
        assert(r * (r - 1) == 0) by (nonlinear_arith)
            requires
                r == 1,
        ;
    } else {
        let q = (r - 1) as nat;
        lemma_tri_closed(q);
        assert(tri(r) == tri(q) + q);
        assert(2 * tri(q) == q * (q - 1));
        assert(q * (q - 1) + 2 * q == r * (r - 1)) by (nonlinear_arith)
            requires
                q == r - 1,
        ;
    }
}

proof fn lemma_tri_mono(a: nat, b: nat)
    requires
        a < b,
    ensures
        tri(a) + a <= tri(b),
    decreases b,
{
    if a + 1 < b {
        lemma_tri_mono(a, (b - 1) as nat);
    }
}

/// Matrices with as many cells have as many rows, unless both have none.
proof fn lemma_tri_same(a: nat, b: nat)
    requires
        tri(a) == tri(b),
        a >= 2 || b >= 2,
    ensures
        a == b,
{
    assert(tri(1) == tri(0) + 0);
    assert(tri(2) == tri(1) + 1);
    if a < b {
        lemma_tri_mono(a, b);
        if b >= 2 && a < 2 {
            if b > 2 { lemma_tri_mono(2, b); }
        }
    } else if b < a {
        lemma_tri_mono(b, a);
        if a >= 2 && b < 2 {
            if a > 2 { lemma_tri_mono(2, a); }
        }
    }
}

/// Distinct unordered pairs of distinct indices have distinct cells, and
/// every cell below `tri(rows)`.
pub proof fn lemma_tri_index(r1: nat, c1: nat, r2: nat, c2: nat, rows: nat)
    requires
        r1 > c1,
        r2 > c2,
        r1 < rows,
    ensures
        tri_index(r1, c1) < tri(rows),
        tri_index(r1, c1) == tri_index(r2, c2) ==> r1 == r2 && c1 == c2,
{
    lemma_tri_mono(r1, rows);
    if r1 < r2 {
        lemma_tri_mono(r1, r2);
    } else if r2 < r1 {
        lemma_tri_mono(r2, r1);
    }
}

/// The cells (`a`, `b`) and (`i`, `j`) name the same unordered pair.
pub open spec fn same_pair(a: nat, b: nat, i: nat, j: nat) -> bool {
    (a == i && b == j) || (a == j && b == i)
}

/// A lower-triangular square matrix of counts with `rows` rows, one cell per
/// unordered pair of distinct indices, held in one flat vector.
pub struct Array2D {
    data: Vec<u64>,
    rows: usize,
}

impl Array2D {
    /// The flat vector has one cell per unordered pair.
    pub closed spec fn wf(&self) -> bool {
        &&& self.data.len() == tri(self.rows as nat)
        &&& self.rows * self.rows <= usize::MAX
    }

    /// The number of rows (and columns).
    pub closed spec fn rows(&self) -> nat {
        self.rows as nat
    }

    /// The count in cell (`row`, `col`).
    pub closed spec fn cell(&self, row: nat, col: nat) -> u64 {
        self.data@[tri_index(row, col) as int]
    }

    /// The flat contents, row after row.
    pub closed spec fn flat(&self) -> Seq<u64> {
        self.data@
    }

    /// A pair and its reverse read the same cell.
    pub proof fn lemma_cell_symmetric(&self, a: nat, b: nat)
        ensures
            self.cell(a, b) == self.cell(b, a),
    {
    }

    /// A well-formed matrix has one cell per unordered pair of its rows.
    pub proof fn lemma_len(&self)
        requires
            self.wf(),
        ensures
            self.flat().len() == tri(self.rows()),
    {
    }

    /// A matrix of `rows` rows, every cell 0.
    pub fn new(rows: usize) -> (r: Array2D)
        requires
            rows * rows <= usize::MAX,
        ensures
            r.wf(),
            r.rows() == rows,
            r.flat().len() == tri(rows as nat),
            forall|a: nat, b: nat| a < rows && b < rows && a != b ==> #[trigger] r.cell(a, b) == 0,
    {
        proof {
            lemma_tri_closed(rows as nat);
            if rows > 0 {
                assert(rows * (rows - 1) <= rows * rows) by (nonlinear_arith)
                    requires rows > 0;
            }
        }
        let n: usize = if rows == 0 {
            0
        } else {
            rows * (rows - 1) / 2
        };
        let mut data: Vec<u64> = Vec::new();
        let mut i: usize = 0;
        while i < n
            invariant
                i <= n,
                data.len() == i,
                forall|m: int| 0 <= m < i ==> data@[m] == 0,
            decreases n - i,
        {
            data.push(0);
            i = i + 1;
        }
        let r = Array2D { data, rows };
        assert forall|a: nat, b: nat| a < rows && b < rows && a != b implies #[trigger] r.cell(
            a,
            b,
        ) == 0 by {
            if a > b {
                lemma_tri_index(a, b, a, b, rows as nat);
            } else {
                lemma_tri_index(b, a, b, a, rows as nat);
            }
        }
        r
    }

    /// The index into the flat vector of cell (`row`, `col`).
    fn get_index(&self, row: usize, col: usize) -> (r: usize)
        requires
            self.wf(),
            row != col,
            row < self.rows(),
            col < self.rows(),
        ensures
            r == tri_index(row as nat, col as nat),
            r < self.data.len(),
    {
        let (hi, lo) = if row > col {
            (row, col)
        } else {
            (col, row)
        };
        proof {
            lemma_tri_closed(hi as nat);
            lemma_tri_index(hi as nat, lo as nat, hi as nat, lo as nat, self.rows as nat);
            assert(hi * (hi - 1) <= self.rows * self.rows) by (nonlinear_arith)
                requires
                    hi < self.rows,
            ;
        }
        hi * (hi - 1) / 2 + lo
    }

    /// The count in cell (`row`, `col`); the two indices must differ.
    pub fn get(&self, row: usize, col: usize) -> (r: u64)
        requires
            self.wf(),
            row != col,
            row < self.rows(),
            col < self.rows(),
        ensures
            r == self.cell(row as nat, col as nat),
    {
        let i = self.get_index(row, col);
        self.data[i]
    }

    /// Writes `value` into cell (`row`, `col`), leaving every other pair alone.
    pub fn set(&mut self, row: usize, col: usize, value: u64)
        requires
            old(self).wf(),
            row != col,
            row < old(self).rows(),
            col < old(self).rows(),
        ensures
            final(self).wf(),
            final(self).rows() == old(self).rows(),
            final(self).flat() == old(self).flat().update(
                tri_index(row as nat, col as nat) as int,
                value,
            ),
            forall|a: nat, b: nat|
                a < old(self).rows() && b < old(self).rows() && a != b ==> #[trigger] final(self).cell(a, b) == if same_pair(a, b, row as nat, col as nat) {
                    value
                } else {
                    old(self).cell(a, b)
                },
    {
        let i = self.get_index(row, col);
        self.data.set(i, value);
        proof {
            self.lemma_cells_apart(*old(self), row as nat, col as nat);
        }
    }

    /// Adds one to cell (`row`, `col`), leaving every other pair alone.
    pub fn increment(&mut self, row: usize, col: usize)
        requires
            old(self).wf(),
            row != col,
            row < old(self).rows(),
            col < old(self).rows(),
            old(self).cell(row as nat, col as nat) < u64::MAX,
        ensures
            final(self).wf(),
            final(self).rows() == old(self).rows(),
            final(self).flat().len() == old(self).flat().len(),
            forall|a: nat, b: nat|
                a < old(self).rows() && b < old(self).rows() && a != b ==> #[trigger] final(self).cell(a, b) == if same_pair(a, b, row as nat, col as nat) {
                    (old(self).cell(a, b) + 1) as u64
                } else {
                    old(self).cell(a, b)
                },
    {
        let i = self.get_index(row, col);
        let v = self.data[i];
        self.data.set(i, v + 1);
        proof {
            self.lemma_cells_apart(*old(self), row as nat, col as nat);
        }
    }

    /// After a write at the cell of (`row`, `col`) alone, every other pair
    /// reads as before.
    proof fn lemma_cells_apart(&self, o: Array2D, row: nat, col: nat)
        requires
            o.wf(),
            self.rows == o.rows,
            row != col,
            row < o.rows(),
            col < o.rows(),
            self.data@ == o.data@.update(tri_index(row, col) as int, self.data@[tri_index(row, col) as int]),
        ensures
            self.wf(),
            forall|a: nat, b: nat|
                a < o.rows() && b < o.rows() && a != b && !same_pair(a, b, row, col) ==> #[trigger] self.cell(a, b) == o.cell(a, b),
            forall|a: nat, b: nat|
                a < o.rows() && b < o.rows() && a != b && same_pair(a, b, row, col) ==> #[trigger] self.cell(a, b) == self.data@[tri_index(row, col) as int],
    {
        let (r2, c2) = if row > col { (row, col) } else { (col, row) };
        lemma_tri_index(r2, c2, r2, c2, o.rows());
        assert forall|a: nat, b: nat|
            a < o.rows() && b < o.rows() && a != b && !same_pair(a, b, row, col) implies #[trigger] self.cell(a, b) == o.cell(a, b) by {
            let (r1, c1) = if a > b { (a, b) } else { (b, a) };
            let (r2, c2) = if row > col { (row, col) } else { (col, row) };
            lemma_tri_index(r1, c1, r2, c2, o.rows());
            lemma_tri_index(r2, c2, r2, c2, o.rows());
        }
    }

    /// Adds `rhs` cell by cell; both must have the same shape.
    pub fn add_assign(&mut self, rhs: &Array2D)
        requires
            old(self).wf(),
            rhs.wf(),
            old(self).flat().len() == rhs.flat().len(),
            forall|i: int| 0 <= i < old(self).flat().len() ==> old(self).flat()[i] + rhs.flat()[i] <= u64::MAX,
        ensures
            final(self).wf(),
            final(self).rows() == old(self).rows(),
            final(self).flat().len() == old(self).flat().len(),
            forall|i: int| 0 <= i < old(self).flat().len() ==> #[trigger] final(self).flat()[i] == old(self).flat()[i] + rhs.flat()[i],
            forall|a: nat, b: nat|
                a < old(self).rows() && b < old(self).rows() && a != b ==> #[trigger] final(self).cell(a, b) == old(self).cell(a, b) + rhs.cell(a, b),
    {
        assert forall|i: int| 0 <= i < rhs.data.len() implies old(self).flat()[i] + rhs.data@[i] <= u64::MAX by {
            assert(rhs.data@[i] == rhs.flat()[i]);
        }
        self.add_from_vec(&rhs.data);
        proof {
            assert forall|a: nat, b: nat|
                a < old(self).rows() && b < old(self).rows() && a != b implies #[trigger] self.cell(a, b) == old(self).cell(a, b) + rhs.cell(a, b) by {
                lemma_tri_same(self.rows as nat, rhs.rows as nat);
                if a > b {
                    lemma_tri_index(a, b, a, b, self.rows as nat);
                } else {
                    lemma_tri_index(b, a, b, a, self.rows as nat);
                }
            }
        }
    }

    /// The flat contents, to send to another process.
    pub fn to_vec(&self) -> (r: Vec<u64>)
        ensures
            r@ == self.flat(),
    {
        self.data.clone()
    }

    /// Adds a flat vector of counts, as `to_vec` writes it, cell by cell.
    pub fn add_from_vec(&mut self, v: &Vec<u64>)
        requires
            old(self).flat().len() == v.len(),
            forall|i: int| 0 <= i < v.len() ==> old(self).flat()[i] + v@[i] <= u64::MAX,
        ensures
            final(self).rows() == old(self).rows(),
            final(self).flat().len() == old(self).flat().len(),
            forall|i: int| 0 <= i < v.len() ==> #[trigger] final(self).flat()[i] == old(self).flat()[i] + v@[i],
    {
        let mut i: usize = 0;
        while i < v.len()
            invariant
                self.rows == old(self).rows,
                self.data.len() == v.len(),
                old(self).data.len() == v.len(),
                i <= v.len(),
                forall|m: int| 0 <= m < v.len() ==> old(self).data@[m] + v@[m] <= u64::MAX,
                forall|m: int| 0 <= m < i ==> self.data@[m] == old(self).data@[m] + v@[m],
                forall|m: int| i <= m < v.len() ==> self.data@[m] == old(self).data@[m],
            decreases v.len() - i,
        {
            let x = self.data[i] + v[i];
            self.data.set(i, x);
            i = i + 1;
        }
    }

    /// Walks the cells row after row.
    pub fn iter(&self) -> (r: Array2DIterator)
        requires
            self.wf(),
        ensures
            r.wf(),
            r.position() == 0,
            r.cells() == self.flat(),
    {
        Array2DIterator::new(self)
    }

    /// The number of cells.
    pub fn len(&self) -> (r: usize)
        ensures
            r == self.flat().len(),
    {
        self.data.len()
    }

}

/// Walks an `Array2D` cell by cell, row after row, handing out
/// (row, column, count).
pub struct Array2DIterator {
    cells: Vec<u64>,
    row: usize,
    col: usize,
    idx: usize,
}

impl Array2DIterator {
    /// Row and column track the flat position.
    pub closed spec fn wf(&self) -> bool {
        &&& self.row >= 1
        &&& self.col < self.row
        &&& self.idx == tri(self.row as nat) + self.col
        &&& self.idx <= self.cells.len()
    }

    /// The flat position of the next cell.
    pub closed spec fn position(&self) -> nat {
        self.idx as nat
    }

    /// The cells walked over.
    pub closed spec fn cells(&self) -> Seq<u64> {
        self.cells@
    }

    fn new(data: &Array2D) -> (r: Array2DIterator)
        requires
            data.wf(),
        ensures
            r.wf(),
            r.position() == 0,
            r.cells() == data.flat(),
    {
        assert(tri(1) == tri(0) + 0);
        Array2DIterator { cells: data.data.clone(), row: 1, col: 0, idx: 0 }
    }

    /// The next cell as (row, column, count), row above column, or `None`
    /// once every cell has been handed out.
    pub fn next(&mut self) -> (r: Option<(usize, usize, u64)>)
        requires
            old(self).wf(),
        ensures
            final(self).wf(),
            final(self).cells() == old(self).cells(),
            old(self).position() >= old(self).cells().len() ==> r.is_none() && final(self).position() == old(self).position(),
            old(self).position() < old(self).cells().len() ==> final(self).position() == old(self).position() + 1 && (r matches Some(
                e,
            ) && e.0 > e.1 && tri_index(e.0 as nat, e.1 as nat) == old(self).position() && e.2 == old(self).cells()[old(self).position() as int]),
    {
        if self.idx >= self.cells.len() {
            return None;
        }
        let e = (self.row, self.col, self.cells[self.idx]);
        self.idx = self.idx + 1;
        self.col = self.col + 1;
        if self.col >= self.row {
            assert(tri(self.row as nat + 1) == tri(self.row as nat) + self.row);
            self.col = 0;
            self.row = self.row + 1;
        }
        Some(e)
    }
}


/// The position of `x` in the ascending `map`, if it occurs there.
pub open spec fn rank_of(map: Seq<usize>, x: usize) -> Option<nat> {
    if exists|i: int| 0 <= i < map.len() && map[i] == x {
        Some((choose|i: int| 0 <= i < map.len() && map[i] == x) as nat)
    } else {
        None
    }
}

proof fn lemma_rank_at(map: Seq<usize>, i: int)
    requires
        ascending(map),
        0 <= i < map.len(),
    ensures
        rank_of(map, map[i]) == Some(i as nat),
{
    let j = choose|j: int| 0 <= j < map.len() && map[j] == map[i];
    if j < i {
        assert(map[j] < map[i]);
    } else if j > i {
        assert(map[i] < map[j]);
    }
}

/// The flat position of the pair (`a`, `b`) of items of the ascending `map`.
pub open spec fn pair_cell(map: Seq<usize>, a: usize, b: usize) -> nat {
    tri_index(rank_of(map, a).unwrap(), rank_of(map, b).unwrap())
}

/// Every flat position below `tri(rows)` is the cell of some pair.
proof fn lemma_cell_of_index(i: nat) -> (rc: (nat, nat))
    ensures
        rc.0 > rc.1,
        tri_index(rc.0, rc.1) == i,
    decreases i,
{
    if i == 0 {
        assert(tri(1) == tri(0) + 0);
        (1, 0)
    } else {
        let (r, c) = lemma_cell_of_index((i - 1) as nat);
        if c + 1 < r {
            (r, c + 1)
        } else {
            assert(tri(r + 1) == tri(r) + r);
            (r + 1, 0)
        }
    }
}

/// A position inside the matrix lies in one of its rows.
proof fn lemma_tri_bound(r: nat, c: nat, rows: nat, i: nat)
    requires
        r > c,
        tri_index(r, c) == i,
        i < tri(rows),
    ensures
        r < rows,
{
    if r >= rows {
        if r > rows {
            lemma_tri_mono(rows, r);
        }
    }
}

/// The pass-two counter: one cell per unordered pair of the items in `map`
/// (the frequent items of pass one, ascending), indexed by their ranks.
pub struct AprioriP2Counter2 {
    arr: Array2D,
    map: Vec<usize>,
}

impl AprioriP2Counter2 {
    /// The matrix has one row per item of the ascending map.
    pub closed spec fn wf(&self) -> bool {
        &&& self.arr.wf()
        &&& self.arr.rows() == self.map.len()
        &&& ascending(self.map@)
    }

    /// The items counted.
    pub closed spec fn items(&self) -> Seq<usize> {
        self.map@
    }

    /// The count of the pair (`a`, `b`) of distinct items of the map.
    pub closed spec fn pair_count(&self, a: usize, b: usize) -> u64 {
        self.arr.cell(rank_of(self.map@, a).unwrap(), rank_of(self.map@, b).unwrap())
    }

    /// A counter over the ascending items `map`, every pair at 0.
    pub fn new(map: &[usize]) -> (r: AprioriP2Counter2)
        requires
            ascending(map@),
            map.len() * map.len() <= usize::MAX,
        ensures
            r.wf(),
            r.items() == map@,
            forall|a: usize, b: usize|
                map@.contains(a) && map@.contains(b) && a != b ==> #[trigger] r.pair_count(a, b) == 0,
    {
        let r = AprioriP2Counter2 { arr: Array2D::new(map.len()), map: slice_to_vec(map) };
        assert forall|a: usize, b: usize|
            map@.contains(a) && map@.contains(b) && a != b implies #[trigger] r.pair_count(a, b) == 0 by {
            let i = choose|i: int| 0 <= i < map@.len() && map@[i] == a;
            let j = choose|j: int| 0 <= j < map@.len() && map@[j] == b;
            lemma_rank_at(map@, i);
            lemma_rank_at(map@, j);
        }
        r
    }

    /// The rank of `x` among the items, found by binary search.
    fn rank(&self, x: usize) -> (r: Option<usize>)
        requires
            self.wf(),
        ensures
            r == match rank_of(self.map@, x) {
                Some(i) => Some(i as usize),
                None => None::<usize>,
            },
            r matches Some(i) ==> i < self.map.len() && self.map@[i as int] == x,
    {
        let mut lo: usize = 0;
        let mut hi: usize = self.map.len();
        while lo < hi
            invariant
                self.wf(),
                lo <= hi <= self.map.len(),
                forall|i: int| 0 <= i < lo ==> self.map@[i] < x,
                forall|i: int| hi <= i < self.map.len() ==> self.map@[i] > x,
            decreases hi - lo,
        {
            let mid = lo + (hi - lo) / 2;
            if self.map[mid] < x {
                lo = mid + 1;
            } else if self.map[mid] > x {
                hi = mid;
            } else {
                proof {
                    lemma_rank_at(self.map@, mid as int);
                }
                return Some(mid);
            }
        }
        assert(!exists|i: int| 0 <= i < self.map.len() && self.map@[i] == x);
        None
    }

    /// Counts the pair `v` (two distinct items) if both are among the items.
    pub fn increment(&mut self, v: &[usize]) -> (r: bool)
        requires
            old(self).wf(),
            v.len() == 2,
            v[0] != v[1],
            old(self).items().contains(v[0]) && old(self).items().contains(v[1]) ==> old(self).pair_count(v[0], v[1]) < u64::MAX,
        ensures
            final(self).wf(),
            final(self).items() == old(self).items(),
            r == (old(self).items().contains(v[0]) && old(self).items().contains(v[1])),
            forall|a: usize, b: usize|
                old(self).items().contains(a) && old(self).items().contains(b) && a != b ==> #[trigger] final(self).pair_count(a, b) == if r && same_pair(a as nat, b as nat, v[0] as nat, v[1] as nat) {
                    (old(self).pair_count(a, b) + 1) as u64
                } else {
                    old(self).pair_count(a, b)
                },
    {
        let ra = self.rank(v[0]);
        let rb = self.rank(v[1]);
        match (ra, rb) {
            (Some(a), Some(b)) => {
                self.arr.increment(a, b);
                proof {
                    assert forall|x: usize, y: usize|
                        old(self).items().contains(x) && old(self).items().contains(y) && x != y implies #[trigger] self.pair_count(x, y) == if same_pair(x as nat, y as nat, v[0] as nat, v[1] as nat) {
                            (old(self).pair_count(x, y) + 1) as u64
                        } else {
                            old(self).pair_count(x, y)
                        } by {
                        let i = choose|i: int| 0 <= i < self.map@.len() && self.map@[i] == x;
                        let j = choose|j: int| 0 <= j < self.map@.len() && self.map@[j] == y;
                        lemma_rank_at(self.map@, i);
                        lemma_rank_at(self.map@, j);
                    }
                }
                true
            },
            _ => {
                proof {
                    if old(self).items().contains(v[0]) {
                        let i = choose|i: int| 0 <= i < self.map@.len() && self.map@[i] == v[0];
                        lemma_rank_at(self.map@, i);
                    }
                    if old(self).items().contains(v[1]) {
                        let i = choose|i: int| 0 <= i < self.map@.len() && self.map@[i] == v[1];
                        lemma_rank_at(self.map@, i);
                    }
                }
                false
            },
        }
    }

    /// The count of the pair `v`, if both items are among the items.
    pub fn get_count(&self, v: &[usize]) -> (r: Option<u64>)
        requires
            self.wf(),
            v.len() == 2,
            v[0] != v[1],
        ensures
            r == if self.items().contains(v[0]) && self.items().contains(v[1]) {
                Some(self.pair_count(v[0], v[1]))
            } else {
                None::<u64>
            },
    {
        let ra = self.rank(v[0]);
        let rb = self.rank(v[1]);
        proof {
            if self.items().contains(v[0]) {
                let i = choose|i: int| 0 <= i < self.map@.len() && self.map@[i] == v[0];
                lemma_rank_at(self.map@, i);
            }
            if self.items().contains(v[1]) {
                let i = choose|i: int| 0 <= i < self.map@.len() && self.map@[i] == v[1];
                lemma_rank_at(self.map@, i);
            }
        }
        match (ra, rb) {
            (Some(a), Some(b)) => Some(self.arr.get(a, b)),
            _ => None,
        }
    }

    /// Every pair of distinct items, ascending, with its count: the pair of
    /// the items of ranks `c < d` stands at position `tri(d) + c`.
    pub fn for_each(&self) -> (r: Vec<(Vec<usize>, u64)>)
        requires
            self.wf(),
        ensures
            r.len() == tri(self.items().len()),
            forall|c: int, d: int|
                0 <= c < d < self.items().len() ==> (#[trigger] r@[tri(d as nat) + c]).0@ == seq![
                    self.items()[c],
                    self.items()[d],
                ] && r@[tri(d as nat) + c].1 == self.pair_count(self.items()[c], self.items()[d]),
    {
        let mut r: Vec<(Vec<usize>, u64)> = Vec::new();
        let n = self.map.len();
        let mut row: usize = 1;
        assert(tri(1) == tri(0) + 0);
        while row < n
            invariant
                self.wf(),
                n == self.map.len(),
                1 <= row,
                n > 0 ==> row <= n,
                r.len() == tri(row as nat) || n == 0,
                n == 0 ==> r.len() == 0,
                forall|c: int, d: int|
                    0 <= c < d < row && d < n ==> (#[trigger] r@[tri(d as nat) + c]).0@ == seq![self.map@[c], self.map@[d]]
                        && r@[tri(d as nat) + c].1 == self.pair_count(self.map@[c], self.map@[d]),
            decreases n - row,
        {
            let mut col: usize = 0;
            while col < row
                invariant
                    self.wf(),
                    n == self.map.len(),
                    1 <= row < n,
                    col <= row,
                    r.len() == tri(row as nat) + col,
                    forall|c: int, d: int|
                        0 <= c < d && (d < row || (d == row && c < col)) ==> (#[trigger] r@[tri(d as nat) + c]).0@ == seq![self.map@[c], self.map@[d]]
                            && r@[tri(d as nat) + c].1 == self.pair_count(self.map@[c], self.map@[d]),
                decreases row - col,
            {
                let count = self.arr.get(row, col);
                let a = self.map[col];
                let b = self.map[row];
                let pair: Vec<usize> = vec![a, b];
                let ghost r0 = r@;
                proof {
                    lemma_rank_at(self.map@, col as int);
                    lemma_rank_at(self.map@, row as int);
                    assert(pair@ == seq![a, b]);
                }
                r.push((pair, count));
                proof {
                    assert forall|c: int, d: int|
                        0 <= c < d && (d < row || (d == row && c < col + 1)) implies (#[trigger] r@[tri(d as nat) + c]).0@ == seq![self.map@[c], self.map@[d]]
                            && r@[tri(d as nat) + c].1 == self.pair_count(self.map@[c], self.map@[d]) by {
                        if d < row {
                            lemma_tri_mono(d as nat, row as nat);
                            assert(r@[tri(d as nat) + c] == r0[tri(d as nat) + c]);
                        } else if c < col {
                            assert(r@[tri(d as nat) + c] == r0[tri(d as nat) + c]);
                        }
                    }
                }
                col = col + 1;
            }
            assert(tri(row as nat + 1) == tri(row as nat) + row);
            row = row + 1;
        }
        r
    }

    /// The pairs whose count is at least `sup`.
    pub fn to_frequent(&self, sup: u64) -> (r: TrieSet)
        requires
            self.wf(),
        ensures
            r.wf(),
            forall|q: Seq<usize>|
                #[trigger] r@.contains(q) <==> (q.len() == 2 && q[0] < q[1] && self.items().contains(q[0])
                    && self.items().contains(q[1]) && self.pair_count(q[0], q[1]) >= sup),
    {
        let all = self.for_each();
        let r = TrieSet::from_counts(&all, sup);
        let ghost m = self.map@;
        assert forall|q: Seq<usize>| #[trigger] r@.contains(q) implies (q.len() == 2 && q[0] < q[1] && self.items().contains(q[0])
            && self.items().contains(q[1]) && self.pair_count(q[0], q[1]) >= sup) by {
            let j = choose|j: int| 0 <= j < all.len() && all@[j].0@ == q && all@[j].1 >= sup;
            let (d, c) = lemma_cell_of_index(j as nat);
            lemma_tri_bound(d, c, m.len(), j as nat);
            let ci = c as int;
            let di = d as int;
            assert(all@[tri(di as nat) + ci].0@ == seq![m[ci], m[di]]);
            assert(m[c as int] < m[d as int]);
            assert(m.contains(q[0]) && m.contains(q[1])) by {
                assert(q[0] == m[c as int]);
                assert(q[1] == m[d as int]);
            }
        }
        assert forall|q: Seq<usize>| (q.len() == 2 && q[0] < q[1] && self.items().contains(q[0])
            && self.items().contains(q[1]) && self.pair_count(q[0], q[1]) >= sup) implies #[trigger] r@.contains(q) by {
            let c = choose|i: int| 0 <= i < m.len() && m[i] == q[0];
            let d = choose|i: int| 0 <= i < m.len() && m[i] == q[1];
            if d < c {
                assert(m[d] < m[c]);
            }
            assert(c != d);
            lemma_tri_mono(d as nat, m.len());
            let j = tri(d as nat) + c;
            assert(all@[j].0@ == seq![m[c], m[d]]);
            assert(seq![m[c], m[d]] =~= q);
            assert(all@[j].0@ == q && all@[j].1 >= sup);
        }
        r
    }

    /// The flat counts, to send to another process: one per pair, at the
    /// pair's cell.
    pub fn to_vec(&self) -> (r: Vec<u64>)
        requires
            self.wf(),
        ensures
            r@.len() == tri(self.items().len()),
            forall|a: usize, b: usize|
                self.items().contains(a) && self.items().contains(b) && a != b ==> r@[pair_cell(self.items(), a, b) as int] == #[trigger] self.pair_count(a, b),
    {
        let r = self.arr.to_vec();
        proof {
            assert forall|a: usize, b: usize|
                self.items().contains(a) && self.items().contains(b) && a != b implies r@[pair_cell(self.items(), a, b) as int] == #[trigger] self.pair_count(a, b) by {
                let i = choose|i: int| 0 <= i < self.map@.len() && self.map@[i] == a;
                let j = choose|j: int| 0 <= j < self.map@.len() && self.map@[j] == b;
                lemma_rank_at(self.map@, i);
                lemma_rank_at(self.map@, j);
            }
        }
        r
    }

    /// Adds flat counts as `to_vec` writes them, pair by pair.
    pub fn add_from_vec(&mut self, v: &Vec<u64>)
        requires
            old(self).wf(),
            v.len() == tri(old(self).items().len()),
            forall|a: usize, b: usize|
                old(self).items().contains(a) && old(self).items().contains(b) && a != b ==> #[trigger] old(self).pair_count(a, b) + v@[pair_cell(old(self).items(), a, b) as int] <= u64::MAX,
        ensures
            final(self).wf(),
            final(self).items() == old(self).items(),
            forall|a: usize, b: usize|
                old(self).items().contains(a) && old(self).items().contains(b) && a != b ==> #[trigger] final(self).pair_count(a, b) == old(self).pair_count(a, b) + v@[pair_cell(old(self).items(), a, b) as int],
    {
        proof {
            assert forall|i: int| 0 <= i < v.len() implies self.arr.flat()[i] + v@[i] <= u64::MAX by {
                let (r, c) = lemma_cell_of_index(i as nat);
                lemma_tri_bound(r, c, self.arr.rows(), i as nat);
                lemma_tri_index(r, c, r, c, self.arr.rows());
                let a = self.map@[r as int];
                let b = self.map@[c as int];
                lemma_rank_at(self.map@, r as int);
                lemma_rank_at(self.map@, c as int);
                assert(self.map@[c as int] < self.map@[r as int]);
                assert(old(self).pair_count(a, b) + v@[pair_cell(old(self).items(), a, b) as int] <= u64::MAX);
            }
        }
        self.arr.add_from_vec(v);
        proof {
            assert forall|a: usize, b: usize|
                old(self).items().contains(a) && old(self).items().contains(b) && a != b implies #[trigger] self.pair_count(a, b) == old(self).pair_count(a, b) + v@[pair_cell(old(self).items(), a, b) as int] by {
                let i = choose|i: int| 0 <= i < self.map@.len() && self.map@[i] == a;
                let j = choose|j: int| 0 <= j < self.map@.len() && self.map@[j] == b;
                lemma_rank_at(self.map@, i);
                lemma_rank_at(self.map@, j);
                if i > j {
                    lemma_tri_index(i as nat, j as nat, i as nat, j as nat, self.arr.rows());
                } else {
                    lemma_tri_index(j as nat, i as nat, j as nat, i as nat, self.arr.rows());
                }
            }
        }
    }
}


/// The pass-two counter indexed by the items themselves: one cell per
/// unordered pair of items below `size`.
pub struct AprioriP2Counter {
    arr: Array2D,
}

impl AprioriP2Counter {
    /// The number of items counted.
    pub closed spec fn size(&self) -> nat {
        self.arr.rows()
    }

    /// The count of the pair (`a`, `b`) of distinct items.
    pub closed spec fn pair_count(&self, a: nat, b: nat) -> u64 {
        self.arr.cell(a, b)
    }

    /// The matrix is well formed.
    pub closed spec fn wf(&self) -> bool {
        self.arr.wf()
    }

    /// A counter over the items below `size`, every pair at 0.
    pub fn new(size: usize) -> (r: AprioriP2Counter)
        requires
            size * size <= usize::MAX,
        ensures
            r.wf(),
            r.size() == size,
            forall|a: nat, b: nat| a < size && b < size && a != b ==> #[trigger] r.pair_count(a, b) == 0,
    {
        AprioriP2Counter { arr: Array2D::new(size) }
    }

    /// Counts the pair `v` of two distinct items below the size.
    pub fn increment(&mut self, v: &[usize]) -> (r: bool)
        requires
            old(self).wf(),
            v.len() == 2,
            v[0] != v[1],
            v[0] < old(self).size(),
            v[1] < old(self).size(),
            old(self).pair_count(v[0] as nat, v[1] as nat) < u64::MAX,
        ensures
            r,
            final(self).wf(),
            final(self).size() == old(self).size(),
            forall|a: nat, b: nat|
                a < old(self).size() && b < old(self).size() && a != b ==> #[trigger] final(self).pair_count(a, b) == if same_pair(a, b, v[0] as nat, v[1] as nat) {
                    (old(self).pair_count(a, b) + 1) as u64
                } else {
                    old(self).pair_count(a, b)
                },
    {
        self.arr.increment(v[0], v[1]);
        true
    }

    /// The count of the pair `v` of two distinct items below the size.
    pub fn get_count(&self, v: &[usize]) -> (r: Option<u64>)
        requires
            self.wf(),
            v.len() == 2,
            v[0] != v[1],
            v[0] < self.size(),
            v[1] < self.size(),
        ensures
            r == Some(self.pair_count(v[0] as nat, v[1] as nat)),
    {
        Some(self.arr.get(v[0], v[1]))
    }

    /// The number of cells: one per unordered pair of items.
    pub fn len(&self) -> (r: usize)
        requires
            self.wf(),
        ensures
            r == tri(self.size()),
    {
        self.arr.len()
    }
}


/// A pair and its reverse share one cell.
pub proof fn lemma_pair_symmetric(a: nat, b: nat)
    ensures
        tri_index(a, b) == tri_index(b, a),
{
}

} // verus!
