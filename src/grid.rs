//! A grid of values addressed by cell.

use crate::ij::{IJSize, IJ};
use crate::matrix::{flat, width_of, Mat};
use vstd::prelude::*;

verus! {

/// A grid of values, one per cell.
#[derive(Debug, Clone, PartialEq, Eq, Hash, PartialOrd, Ord)]
pub struct Grid<T> {
    pub mat: Mat<T>,
}

impl<T> Grid<T> {
    /// The grid of shape `c` with every cell the default value.
    pub fn new_default(c: IJSize) -> (r: Self) where T: Default + Clone
        requires
            c.fits(),
        ensures
            r.mat.wf(),
            r.mat.spec_config() == c,
            exists|d: T|
                T::default.ensures((), d) && forall|k: int|
                    0 <= k < c.h * c.w ==> cloned(d, #[trigger] r.mat.cells()[k]),
    {
        let d = T::default();
        Grid { mat: Mat::filled(c, d) }
    }

    /// The grid whose rows are `grid`.
    pub fn from_vec(grid: Vec<Vec<T>>) -> (r: Self)
        requires
            flat(grid@).len() == grid@.len() * width_of(grid@),
            grid@.len() * width_of(grid@) <= usize::MAX,
        ensures
            r.mat.wf(),
            r.mat.spec_config().w == width_of(grid@),
            r.mat.spec_config().h == grid@.len(),
            r.mat.cells() == flat(grid@),
    {
        Grid { mat: Mat::from_vec(grid) }
    }

    /// The shape.
    pub fn config(&self) -> (r: IJSize)
        ensures
            r == self.mat.spec_config(),
    {
        self.mat.config()
    }

    /// The value at `p`.
    pub fn get(&self, p: IJ) -> (r: &T)
        requires
            p.0 < self.mat.cells().len(),
        ensures
            *r == self.mat.cells()[p.0 as int],
    {
        self.mat.get(p)
    }

    /// The value at `p`, to be changed in place.
    pub fn get_mut(&mut self, p: IJ) -> (r: &mut T)
        requires
            p.0 < old(self).mat.cells().len(),
        ensures
            *r == old(self).mat.cells()[p.0 as int],
            final(self).mat.cells() == old(self).mat.cells().update(p.0 as int, *final(r)),
            final(self).mat.spec_config() == old(self).mat.spec_config(),
            final(self).mat.wf() == old(self).mat.wf(),
    {
        self.mat.get_mut(p)
    }

    /// Sets the value at `p`.
    pub fn set(&mut self, p: IJ, value: T)
        requires
            p.0 < old(self).mat.cells().len(),
        ensures
            final(self).mat.cells() == old(self).mat.cells().update(p.0 as int, value),
            final(self).mat.spec_config() == old(self).mat.spec_config(),
            final(self).mat.wf() == old(self).mat.wf(),
    {
        let r = self.get_mut(p);
        *r = value;
    }
}

} // verus!
