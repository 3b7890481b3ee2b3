//! A matrix stored row by row in one vector.

use crate::ij::{IJSize, IJ};
use std::ops::{Index, IndexMut};
use vstd::prelude::*;

verus! {

/// An `h` by `w` matrix, its cells in row-major order.
#[derive(Debug, Clone, PartialEq, Eq, Hash, PartialOrd, Ord)]
pub struct Mat<T> {
    data: Vec<T>,
    c: IJSize,
}

impl<T> Mat<T> {
    /// The cells in row-major order.
    pub closed spec fn cells(&self) -> Seq<T> {
        self.data@
    }

    /// The cell at row-major position `k`.
    pub open spec fn spec_at(&self, k: int) -> T {
        self.cells()[k]
    }

    /// The shape.
    pub closed spec fn spec_config(&self) -> IJSize {
        self.c
    }

    /// The number of cells matches the shape.
    pub open spec fn wf(&self) -> bool {
        &&& self.spec_config().fits()
        &&& self.cells().len() == self.spec_config().h * self.spec_config().w
    }

    /// The matrix of shape `c` whose cells, row by row, are `data`.
    pub fn new(c: IJSize, data: Vec<T>) -> (r: Self)
        requires
            c.fits(),
            c.h * c.w == data@.len(),
        ensures
            r.wf(),
            r.spec_config() == c,
            r.cells() == data@,
    {
        Mat { data, c }
    }

    /// The shape.
    pub fn config(&self) -> (r: IJSize)
        ensures
            r == self.spec_config(),
    {
        self.c
    }

    /// The matrix of shape `c` with every cell a clone of `default`.
    pub fn filled(c: IJSize, default: T) -> (r: Self) where T: Clone
        requires
            c.fits(),
        ensures
            r.wf(),
            r.spec_config() == c,
            forall|k: int| 0 <= k < c.h * c.w ==> cloned(default, #[trigger] r.cells()[k]),
    {
        Mat { data: vec![default; c.size()], c }
    }

    /// The matrix whose rows are `grid`: as many rows as `grid` has, as many
    /// columns as its first row (none when it has no row).
    pub fn from_vec(grid: Vec<Vec<T>>) -> (r: Self)
        requires
            flat(grid@).len() == grid@.len() * width_of(grid@),
            grid@.len() * width_of(grid@) <= usize::MAX,
        ensures
            r.wf(),
            r.spec_config().w == width_of(grid@),
            r.spec_config().h == grid@.len(),
            r.cells() == flat(grid@),
    {
        let h = grid.len();
        let w: usize = if grid.len() > 0 {
            grid[0].len()
        } else {
            0
        };
        let ghost rows = grid@;
        let mut pending = grid;
        let mut reversed: Vec<Vec<T>> = Vec::new();
        while pending.len() > 0
            invariant
                pending@.len() + reversed@.len() == rows.len(),
                pending@ == rows.subrange(0, pending@.len() as int),
                forall|k: int| 0 <= k < reversed@.len() ==> #[trigger] reversed@[k] == rows[rows.len() - 1 - k],
            decreases pending@.len(),
        {
            let row = pending.pop().unwrap();
            reversed.push(row);
            proof {
                assert(pending@ =~= rows.subrange(0, pending@.len() as int));
            }
        }
        let mut data: Vec<T> = Vec::new();
        while reversed.len() > 0
            invariant
                reversed@.len() <= rows.len(),
                forall|k: int| 0 <= k < reversed@.len() ==> #[trigger] reversed@[k] == rows[rows.len() - 1 - k],
                data@ == flat(rows.subrange(0, rows.len() - reversed@.len())),
            decreases reversed@.len(),
        {
            let ghost done = rows.len() - reversed@.len();
            let mut row = reversed.pop().unwrap();
            proof {
                assert(row == rows[done]);
                assert(rows.subrange(0, done + 1).drop_last() =~= rows.subrange(0, done));
                assert(rows.subrange(0, done + 1).last() == row);
            }
            data.append(&mut row);
        }
        proof {
            assert(rows.subrange(0, rows.len() as int) =~= rows);
        }
        Mat { data, c: IJSize::new(h, w) }
    }

    /// The cell `idx`.
    pub fn get(&self, idx: IJ) -> (r: &T)
        requires
            idx.0 < self.cells().len(),
        ensures
            *r == self.cells()[idx.0 as int],
    {
        &self.data[idx.index()]
    }

    /// The cell `idx`, to be changed in place.
    pub fn get_mut(&mut self, idx: IJ) -> (r: &mut T)
        requires
            idx.0 < old(self).cells().len(),
        ensures
            *r == old(self).cells()[idx.0 as int],
            final(self).cells() == old(self).cells().update(idx.0 as int, *final(r)),
            final(self).spec_config() == old(self).spec_config(),
            final(self).wf() == old(self).wf(),
    {
        &mut self.data[idx.index()]
    }

    /// Row `i`.
    pub fn row(&self, i: usize) -> (r: &[T])
        requires
            self.wf(),
            i < self.spec_config().h,
        ensures
            r@ == self.cells().subrange(i * self.spec_config().w, (i + 1) * self.spec_config().w),
    {
        proof {
            assert((i + 1) * self.c.w <= self.c.h * self.c.w) by (nonlinear_arith)
                requires
                    i < self.c.h,
            ;
            assert((i + 1) * self.c.w == i * self.c.w + self.c.w) by (nonlinear_arith);
        }
        let start = i * self.c.w;
        let end = start + self.c.w;
        &self.data.as_slice()[start..end]
    }

    /// Row `i`, to be changed in place.
    pub fn row_mut(&mut self, i: usize) -> (r: &mut [T])
        requires
            old(self).wf(),
            i < old(self).spec_config().h,
        ensures
            r@ == old(self).cells().subrange(
                i * old(self).spec_config().w,
                (i + 1) * old(self).spec_config().w,
            ),
            final(self).spec_config() == old(self).spec_config(),
            final(self).cells() == old(self).cells().subrange(0, i * old(self).spec_config().w) + final(r)@
                + old(self).cells().subrange((i + 1) * old(self).spec_config().w, old(self).cells().len() as int),
    {
        proof {
            assert((i + 1) * self.c.w <= self.c.h * self.c.w) by (nonlinear_arith)
                requires
                    i < self.c.h,
            ;
            assert((i + 1) * self.c.w == i * self.c.w + self.c.w) by (nonlinear_arith);
        }
        let start = i * self.c.w;
        let w = self.c.w;
        let all = self.data.as_mut_slice();
        let (_, rest) = all.split_at_mut(start);
        let (row, _) = rest.split_at_mut(w);
        row
    }

    /// The rows, top to bottom, to be changed in place.
    pub fn iter_mut(&mut self) -> (r: Vec<&mut [T]>)
        requires
            old(self).wf(),
        ensures
            r@.len() == old(self).spec_config().h,
            forall|i: int|
                0 <= i < r@.len() ==> #[trigger] r@[i]@ == old(self).cells().subrange(
                    i * old(self).spec_config().w,
                    (i + 1) * old(self).spec_config().w,
                ),
            final(self).spec_config() == old(self).spec_config(),
            final(self).cells() == flat_rows(Seq::new(r@.len(), |i: int| final(r@[i])@)),
    {
        let h = self.c.h;
        let w = self.c.w;
        let ghost cells = self.data@;
        let all: &mut [T] = self.data.as_mut_slice();
        let ghost fin = final(all)@;
        proof {
            assert(cells.subrange(0 * w, h * w) =~= cells);
        }
        let mut rest: &mut [T] = all;
        let mut r: Vec<&mut [T]> = Vec::new();
        let mut i: usize = 0;
        while i < h
            invariant
                i <= h,
                r@.len() == i,
                cells.len() == h * w,
                i * w <= h * w,
                rest@ == cells.subrange(i * w, h * w),
                forall|k: int| 0 <= k < i ==> #[trigger] r@[k]@ == cells.subrange(k * w, (k + 1) * w),
                fin == flat_rows(Seq::new(i as nat, |k: int| final(r@[k])@)) + final(rest)@,
            decreases h - i,
        {
            proof {
                assert((i + 1) * w == i * w + w) by (nonlinear_arith);
                assert((i + 1) * w <= h * w) by (nonlinear_arith)
                    requires
                        i < h,
                ;
            }
            let ghost before = r@;
            let ghost rest_final = final(rest)@;
            let (row, tail) = rest.split_at_mut(w);
            let ghost row_final = final(row)@;
            let ghost tail_final = final(tail)@;
            proof {
                assert(rest_final == row_final + tail_final);
            }
            r.push(row);
            rest = tail;
            proof {
                assert(final(r@[i as int])@ == row_final);
                assert(final(rest)@ == tail_final);
                let prev = Seq::new(i as nat, |k: int| final(before[k])@);
                assert(Seq::new(i as nat, |k: int| final(r@[k])@) =~= prev);
                assert(fin == flat_rows(prev) + rest_final);
                assert(flat_rows(prev) + (row_final + tail_final) =~= (flat_rows(prev) + row_final) + tail_final);
                assert(Seq::new((i + 1) as nat, |k: int| final(r@[k])@).drop_last() =~= Seq::new(
                    i as nat,
                    |k: int| final(r@[k])@,
                ));
                assert forall|k: int| 0 <= k < i + 1 implies #[trigger] r@[k]@ == cells.subrange(k * w, (k + 1) * w) by {
                    if k < i {
                        assert(r@[k] == before[k]);
                    }
                }
            }
            i = i + 1;
        }
        r
    }

    /// The rows, top to bottom.
    pub fn iter(&self) -> (r: Vec<&[T]>)
        requires
            self.wf(),
        ensures
            r@.len() == self.spec_config().h,
            forall|i: int|
                0 <= i < r@.len() ==> (#[trigger] r@[i])@ == self.cells().subrange(
                    i * self.spec_config().w,
                    (i + 1) * self.spec_config().w,
                ),
    {
        let mut r: Vec<&[T]> = Vec::new();
        let mut i: usize = 0;
        while i < self.c.h
            invariant
                self.wf(),
                i <= self.c.h,
                r@.len() == i,
                forall|k: int|
                    0 <= k < i ==> (#[trigger] r@[k])@ == self.cells().subrange(k * self.c.w, (k + 1) * self.c.w),
            decreases self.c.h - i,
        {
            r.push(self.row(i));
            i = i + 1;
        }
        r
    }
}

/// The number of cells in the first row of `grid`, none when it has no row.
pub open spec fn width_of<T>(grid: Seq<Vec<T>>) -> int {
    if grid.len() > 0 {
        grid[0]@.len() as int
    } else {
        0
    }
}

/// The slices of `rows` laid end to end.
pub open spec fn flat_rows<T>(rows: Seq<Seq<T>>) -> Seq<T>
    decreases rows.len(),
{
    if rows.len() == 0 {
        Seq::empty()
    } else {
        flat_rows(rows.drop_last()) + rows.last()
    }
}

/// The rows of `grid` laid end to end.
pub open spec fn flat<T>(grid: Seq<Vec<T>>) -> Seq<T>
    decreases grid.len(),
{
    if grid.len() == 0 {
        Seq::empty()
    } else {
        flat(grid.drop_last()) + grid.last()@
    }
}

impl<T> Index<IJ> for Mat<T> {
    type Output = T;

    fn index(&self, idx: IJ) -> (r: &T) {
        self.get(idx)
    }
}

impl<T> vstd::std_specs::core::IndexSpecImpl<IJ> for Mat<T> {
    open spec fn index_req(&self, idx: &IJ) -> bool {
        idx.0 < self.cells().len()
    }
}

impl<T> Index<usize> for Mat<T> {
    type Output = [T];

    fn index(&self, i: usize) -> (r: &[T]) {
        self.row(i)
    }
}

impl<T> vstd::std_specs::core::IndexSpecImpl<usize> for Mat<T> {
    open spec fn index_req(&self, i: &usize) -> bool {
        self.wf() && *i < self.spec_config().h
    }
}

} // verus!
