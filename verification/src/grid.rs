//! Flat row-major grids: the payload and mask representation that all of
//! the shuffling machinery works on.

use vstd::prelude::*;

verus! {

/// A rectangular two-dimensional array stored row-major in a flat vector.
///
/// Cell `(r, c)` lives at flat index `r * cols + c`.  All of the shuffling
/// machinery works on this type; converting image buffers or other payloads
/// into a `Grid` is the caller's concern.
#[derive(Debug)]
pub struct Grid<T> {
    pub rows: usize,
    pub cols: usize,
    pub data: Vec<T>,
}

/// Flat indices of distinct in-bounds cells are distinct and in range.
pub proof fn lemma_flat_index(rows: int, cols: int, r: int, c: int)
    requires
        0 <= r < rows,
        0 <= c < cols,
    ensures
        0 <= r * cols + c < rows * cols,
{
    assert(0 <= r * cols + c < rows * cols) by (nonlinear_arith)
        requires
            0 <= r < rows,
            0 <= c < cols,
    ;
}

/// Two distinct in-bounds cells never share a flat index.
pub proof fn lemma_flat_index_injective(cols: int, r1: int, c1: int, r2: int, c2: int)
    requires
        0 <= r1,
        0 <= r2,
        0 <= c1 < cols,
        0 <= c2 < cols,
        r1 != r2 || c1 != c2,
    ensures
        r1 * cols + c1 != r2 * cols + c2,
{
    assert(r1 * cols + c1 != r2 * cols + c2) by (nonlinear_arith)
        requires
            0 <= r1,
            0 <= r2,
            0 <= c1 < cols,
            0 <= c2 < cols,
            r1 != r2 || c1 != c2,
    ;
}

impl<T> Grid<T> {
    /// Well-formed: the backing vector holds exactly `rows * cols` entries.
    pub open spec fn wf(self) -> bool {
        self.data@.len() == self.rows * self.cols
    }

    /// Value stored at cell `(r, c)`.
    pub open spec fn cell(self, r: int, c: int) -> T {
        self.data@[r * self.cols + c]
    }

    pub open spec fn in_bounds(self, r: int, c: int) -> bool {
        0 <= r < self.rows && 0 <= c < self.cols
    }

    /// Same extent in both axes.
    pub open spec fn same_dims(self, other: Grid<T>) -> bool {
        self.rows == other.rows && self.cols == other.cols
    }
}

impl<T: Copy> Grid<T> {
    /// Wrap a row-major vector of exactly `rows * cols` entries.
    pub fn from_vec(rows: usize, cols: usize, data: Vec<T>) -> (g: Grid<T>)
        requires
            data@.len() == rows * cols,
        ensures
            g.wf(),
            g.rows == rows,
            g.cols == cols,
            g.data@ == data@,
    {
        Grid { rows, cols, data }
    }

    /// Read the cell at `(r, c)`.
    pub fn get(&self, r: usize, c: usize) -> (v: T)
        requires
            self.wf(),
            self.in_bounds(r as int, c as int),
        ensures
            v == self.cell(r as int, c as int),
    {
        proof {
            lemma_flat_index(self.rows as int, self.cols as int, r as int, c as int);
            assert(self.data.len() == self.data@.len());
        }
        self.data[r * self.cols + c]
    }

    /// Overwrite the cell at `(r, c)`, leaving every other cell unchanged.
    pub fn set(&mut self, r: usize, c: usize, v: T)
        requires
            old(self).wf(),
            old(self).in_bounds(r as int, c as int),
        ensures
            final(self).wf(),
            final(self).rows == old(self).rows,
            final(self).cols == old(self).cols,
            final(self).cell(r as int, c as int) == v,
            forall|r2: int, c2: int|
                old(self).in_bounds(r2, c2) && (r2 != r || c2 != c) ==> final(self).cell(r2, c2)
                    == old(self).cell(r2, c2),
    {
        proof {
            lemma_flat_index(self.rows as int, self.cols as int, r as int, c as int);
            assert(self.data.len() == self.data@.len());
        }
        let i = r * self.cols + c;
        self.data.set(i, v);
        proof {
            assert forall|r2: int, c2: int|
                old(self).in_bounds(r2, c2) && (r2 != r || c2 != c) implies final(self).cell(
                r2,
                c2,
            ) == old(self).cell(r2, c2) by {
                lemma_flat_index(self.rows as int, self.cols as int, r2, c2);
                lemma_flat_index_injective(self.cols as int, r2, c2, r as int, c as int);
            }
        }
    }

    /// A fresh grid holding the same contents as `self`.
    pub fn duplicate(&self) -> (g: Grid<T>)
        requires
            self.wf(),
        ensures
            g.wf(),
            g.rows == self.rows,
            g.cols == self.cols,
            g.data@ == self.data@,
    {
        let mut data: Vec<T> = Vec::new();
        let n = self.data.len();
        let mut i: usize = 0;
        while i < n
            invariant
                n == self.data@.len(),
                i <= n,
                data@ == self.data@.subrange(0, i as int),
            decreases n - i,
        {
            data.push(self.data[i]);
            i = i + 1;
            proof {
                assert(data@ =~= self.data@.subrange(0, i as int));
            }
        }
        proof {
            assert(data@ =~= self.data@);
        }
        Grid { rows: self.rows, cols: self.cols, data }
    }
}

/// A grid with every cell equal to `fill`.
pub fn grid_fill<T: Copy>(rows: usize, cols: usize, fill: T) -> (g: Option<Grid<T>>)
    ensures
        g matches Some(g) ==> {
            &&& g.wf()
            &&& g.rows == rows
            &&& g.cols == cols
            &&& forall|r: int, c: int| g.in_bounds(r, c) ==> g.cell(r, c) == fill
        },
        g is Some <==> rows * cols <= usize::MAX,
{
    let total = match rows.checked_mul(cols) {
        Some(t) => t,
        None => {
            return None;
        },
    };
    let mut data: Vec<T> = Vec::new();
    let mut i: usize = 0;
    while i < total
        invariant
            i <= total,
            total == rows * cols,
            data@.len() == i,
            forall|j: int| 0 <= j < i ==> data@[j] == fill,
        decreases total - i,
    {
        data.push(fill);
        i = i + 1;
    }
    let g = Grid { rows, cols, data };
    proof {
        assert forall|r: int, c: int| g.in_bounds(r, c) implies g.cell(r, c) == fill by {
            lemma_flat_index(rows as int, cols as int, r, c);
        }
    }
    Some(g)
}

} // verus!
