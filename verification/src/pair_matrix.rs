//! A symmetric pairwise matrix stored as its flattened upper triangle.
//!
//! The collision tracker keeps one cell per unordered pair of placed items (the diagonal included);
//! `(row, col)` and `(col, row)` address the same cell. Storage is the upper triangle flattened row
//! by row, so a matrix of `size` items holds `size * (size + 1) / 2` cells.
use vstd::prelude::*;

verus! {

/// The triangular number `0 + 1 + ... + r`.
pub open spec fn tri(r: nat) -> nat
    decreases r,
{
    if r == 0 {
        0
    } else {
        tri((r - 1) as nat) + r
    }
}

/// Number of cells of the upper triangle (diagonal included) of a `size × size` matrix.
pub open spec fn triangle_len(size: nat) -> nat {
    tri(size)
}

/// The flattened offset of the cell `(row, col)`: row `r` starts at `r * size - tri(r) + r` and the
/// cell sits `col - row` further along (indices are first ordered so that `row <= col`).
pub open spec fn cell_offset(row: nat, col: nat, size: nat) -> int {
    if row <= col {
        row * size + col - tri(row)
    } else {
        col * size + row - tri(col)
    }
}

/// Offset of the first cell (the diagonal one) of row `r`.
pub open spec fn row_start(r: nat, size: nat) -> int {
    r * size + r - tri(r)
}

/// `2 * tri(r) == r * (r + 1)`.
pub proof fn lemma_tri_closed_form(r: nat)
    ensures
        2 * tri(r) == r * (r + 1),
    decreases r,
{
    if r > 0 {
        lemma_tri_closed_form((r - 1) as nat);
        assert(r * (r + 1) == (r - 1) * r + 2 * r) by (nonlinear_arith);
    }
}

/// Rows are laid out back to back: row `r + 1` starts `size - r` cells after row `r`.
pub proof fn lemma_row_start_step(r: nat, size: nat)
    ensures
        row_start(r + 1, size) == row_start(r, size) + size - r,
{
    assert(tri(r + 1) == tri(r) + r + 1);
    assert((r + 1) * size == r * size + size) by (nonlinear_arith);
}

/// Row starts grow with the row while `r < size`, and row `size` starts at the end of storage.
pub proof fn lemma_row_start_bounds(r: nat, size: nat)
    requires
        r <= size,
    ensures
        0 <= row_start(r, size) <= triangle_len(size),
        row_start(size, size) == triangle_len(size),
    decreases size - r,
{
    lemma_row_start_end(size);
    if r < size {
        lemma_row_start_step(r, size);
        lemma_row_start_bounds(r + 1, size);
        lemma_row_start_nonneg(r, size);
    }
}

proof fn lemma_row_start_end(size: nat)
    ensures
        row_start(size, size) == triangle_len(size),
{
    lemma_tri_closed_form(size);
    assert(size * size + size == size * (size + 1)) by (nonlinear_arith);
}

proof fn lemma_row_start_nonneg(r: nat, size: nat)
    requires
        r <= size,
    ensures
        row_start(r, size) >= 0,
    decreases r,
{
    if r > 0 {
        lemma_row_start_nonneg((r - 1) as nat, size);
        lemma_row_start_step((r - 1) as nat, size);
    }
}

proof fn lemma_row_start_strict(a: nat, b: nat, size: nat)
    requires
        a < b <= size,
    ensures
        row_start(b, size) >= row_start(a, size) + size - a,
    decreases b - a,
{
    lemma_row_start_step(a, size);
    if a + 1 < b {
        lemma_row_start_strict(a + 1, b, size);
    }
}

/// The offset of an upper-triangle cell is its row's start plus its distance from the diagonal.
pub proof fn lemma_offset_in_row(row: nat, col: nat, size: nat)
    requires
        row <= col,
    ensures
        cell_offset(row, col, size) == row_start(row, size) + (col - row),
{
}

/// The cell offset is symmetric: `(row, col)` and `(col, row)` address the same cell.
pub proof fn lemma_offset_symmetric(row: nat, col: nat, size: nat)
    ensures
        cell_offset(row, col, size) == cell_offset(col, row, size),
{
}

/// Every cell of a `size × size` matrix lies inside storage of `triangle_len(size)` cells.
pub proof fn lemma_offset_in_bounds(row: nat, col: nat, size: nat)
    requires
        row < size,
        col < size,
    ensures
        0 <= cell_offset(row, col, size) < triangle_len(size),
{
    let (r, c) = if row <= col {
        (row, col)
    } else {
        (col, row)
    };
    lemma_row_start_bounds(r, size);
    lemma_row_start_bounds(r + 1, size);
    lemma_row_start_step(r, size);
}

/// Two upper-triangle cells with the same offset are the same cell.
pub proof fn lemma_offset_injective(r1: nat, c1: nat, r2: nat, c2: nat, size: nat)
    requires
        r1 <= c1 < size,
        r2 <= c2 < size,
        cell_offset(r1, c1, size) == cell_offset(r2, c2, size),
    ensures
        r1 == r2,
        c1 == c2,
{
    if r1 < r2 {
        lemma_row_start_strict(r1, r2, size);
    } else if r2 < r1 {
        lemma_row_start_strict(r2, r1, size);
    }
}

/// Every storage offset below `triangle_len(size)` is the offset of some upper-triangle cell.
pub proof fn lemma_offset_surjective(k: nat, size: nat) -> (rc: (nat, nat))
    requires
        k < triangle_len(size),
    ensures
        rc.0 <= rc.1 < size,
        cell_offset(rc.0, rc.1, size) == k,
{
    lemma_row_start_bounds(0, size);
    find_row(k, 0, size)
}

proof fn find_row(k: nat, r: nat, size: nat) -> (rc: (nat, nat))
    requires
        r < size,
        row_start(r, size) <= k < triangle_len(size),
    ensures
        rc.0 <= rc.1 < size,
        cell_offset(rc.0, rc.1, size) == k,
    decreases size - r,
{
    lemma_row_start_step(r, size);
    lemma_row_start_bounds(r + 1, size);
    if k < row_start(r + 1, size) {
        let c = (r + (k - row_start(r, size))) as nat;
        (r, c)
    } else {
        find_row(k, r + 1, size)
    }
}

/// Maps a (symmetric) `(row, col)` index to the flattened upper-triangle offset.
pub fn calc_idx(row: usize, col: usize, size: usize) -> (idx: usize)
    requires
        row < size,
        col < size,
        size * size <= usize::MAX,
    ensures
        idx == cell_offset(row as nat, col as nat, size as nat),
        idx < triangle_len(size as nat),
{
    proof {
        lemma_offset_in_bounds(row as nat, col as nat, size as nat);
        lemma_tri_closed_form(row as nat);
        lemma_tri_closed_form(col as nat);
        assert(row * size + col < size * size) by (nonlinear_arith)
            requires row < size, col < size;
        assert(col * size + row < size * size) by (nonlinear_arith)
            requires row < size, col < size;
        assert(row * (row + 1) <= size * size) by (nonlinear_arith)
            requires row < size;
        assert(col * (col + 1) <= size * size) by (nonlinear_arith)
            requires col < size;
        assert(row * size <= size * size) by (nonlinear_arith)
            requires row < size;
        assert(col * size <= size * size) by (nonlinear_arith)
            requires col < size;
    }
    if row <= col {
        (row * size) + col - ((row * (row + 1)) / 2)
    } else {
        (col * size) + row - ((col * (col + 1)) / 2)
    }
}

/// A symmetric triangular matrix of pairwise entries, indexed by dense item index. Storage is the
/// upper triangle flattened row-major; `(row, col)` and `(col, row)` map to the same cell.
#[derive(Debug, Clone)]
pub struct PairMatrix<T> {
    pub size: usize,
    pub data: Vec<T>,
}

impl<T> PairMatrix<T> {
    /// The storage holds exactly one cell per upper-triangle position, and every offset computation
    /// fits in `usize`.
    pub open spec fn wf(&self) -> bool {
        &&& self.size * (self.size + 1) <= usize::MAX
        &&& self.data@.len() == triangle_len(self.size as nat)
    }

    /// The entry of the cell `(row, col)`.
    pub open spec fn entry(&self, row: nat, col: nat) -> T {
        self.data@[cell_offset(row, col, self.size as nat)]
    }
}

impl<T: Copy> PairMatrix<T> {
    /// A `size × size` matrix with every cell set to `fill`.
    pub fn new(size: usize, fill: T) -> (m: Self)
        requires
            size * (size + 1) <= usize::MAX,
        ensures
            m.wf(),
            m.size == size,
            forall|k: int| 0 <= k < m.data@.len() ==> m.data@[k] == fill,
    {
        proof {
            lemma_tri_closed_form(size as nat);
        }
        let len = size * (size + 1) / 2;
        let mut data: Vec<T> = Vec::with_capacity(len);
        let mut k: usize = 0;
        while k < len
            invariant
                k <= len,
                data@.len() == k,
                forall|i: int| 0 <= i < k ==> data@[i] == fill,
            decreases len - k,
        {
            data.push(fill);
            k = k + 1;
        }
        PairMatrix { size, data }
    }

    /// The entry of the cell `(row, col)` (the same cell as `(col, row)`).
    pub fn cell(&self, row: usize, col: usize) -> (e: T)
        requires
            self.wf(),
            row < self.size,
            col < self.size,
        ensures
            e == self.entry(row as nat, col as nat),
    {
        proof {
            assert(self.size * self.size <= self.size * (self.size + 1)) by (nonlinear_arith);
        }
        self.data[calc_idx(row, col, self.size)]
    }

    /// Overwrites the cell `(row, col)` (and so also `(col, row)`); every other cell is unchanged.
    pub fn set_cell(&mut self, row: usize, col: usize, value: T)
        requires
            old(self).wf(),
            row < old(self).size,
            col < old(self).size,
        ensures
            final(self).wf(),
            final(self).size == old(self).size,
            final(self).data@ == old(self).data@.update(
                cell_offset(row as nat, col as nat, old(self).size as nat),
                value,
            ),
            final(self).entry(row as nat, col as nat) == value,
            final(self).entry(col as nat, row as nat) == value,
            forall|r: nat, c: nat|
                r < old(self).size && c < old(self).size && !(r == row && c == col) && !(r == col
                    && c == row) ==> #[trigger] final(self).entry(r, c) == old(self).entry(r, c),
    {
        proof {
            assert(self.size * self.size <= self.size * (self.size + 1)) by (nonlinear_arith);
        }
        let ghost before = *self;
        let idx = calc_idx(row, col, self.size);
        self.data.set(idx, value);
        proof {
            let n = before.size as nat;
            assert forall|r: nat, c: nat|
                r < n && c < n && !(r == row && c == col) && !(r == col && c == row) implies
                #[trigger] self.entry(r, c) == before.entry(r, c) by {
                lemma_offset_in_bounds(r, c, n);
                let (r1, c1) = if r <= c { (r, c) } else { (c, r) };
                let (r2, c2) = if row <= col { (row as nat, col as nat) } else { (col as nat, row as nat) };
                lemma_offset_symmetric(r, c, n);
                lemma_offset_symmetric(row as nat, col as nat, n);
                if cell_offset(r, c, n) == cell_offset(row as nat, col as nat, n) {
                    lemma_offset_injective(r1, c1, r2, c2, n);
                }
            }
        }
    }
}

} // verus!
