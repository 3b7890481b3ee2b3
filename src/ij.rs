//! Cells of an `h` by `w` grid, numbered row by row, and the four directions
//! between neighbouring cells.

use crate::matrix::Mat;
use std::ops::{Add, Index, IndexMut, Sub};
use vstd::prelude::*;

verus! {

/// The shape of a grid: `h` rows of `w` cells.
#[derive(Debug, Clone, Copy, PartialEq, Eq, Structural, Hash, PartialOrd, Ord)]
pub struct IJSize {
    pub w: usize,
    pub h: usize,
}

/// A cell, as its position `i * w + j` in row-major order.
#[derive(Debug, Clone, Copy, PartialEq, Eq, Structural, Hash, PartialOrd, Ord)]
pub struct IJ(pub usize);

impl IJSize {
    /// The number of cells.
    pub open spec fn cells(self) -> int {
        self.h * self.w
    }

    /// The number of cells fits in a `usize`.
    pub open spec fn fits(self) -> bool {
        self.h * self.w <= usize::MAX
    }

    /// A grid of `h` rows and `w` columns.
    pub fn new(h: usize, w: usize) -> (r: Self)
        ensures
            r.h == h,
            r.w == w,
    {
        IJSize { w, h }
    }

    /// The number of cells.
    pub fn size(self) -> (r: usize)
        requires
            self.fits(),
        ensures
            r == self.cells(),
    {
        self.h * self.w
    }

    /// The cell in row `i`, column `j`, if the grid has one.
    pub fn make(self, i: usize, j: usize) -> (r: Option<IJ>)
        requires
            self.fits(),
        ensures
            r == IJ::spec_from_pair(self, i as int, j as int),
    {
        IJ::from_pair(self, i, j)
    }

    /// The cell in row `i`, column `j`, which the grid has.
    pub fn make_unchecked(self, i: usize, j: usize) -> (r: IJ)
        requires
            self.fits(),
            i < self.h,
            j < self.w,
        ensures
            r.0 == i * self.w + j,
    {
        IJ::from_pair_unchecked(self, i, j)
    }
}

pub(crate) proof fn lemma_cell_in_range(c: IJSize, i: int, j: int)
    requires
        0 <= i < c.h,
        0 <= j < c.w,
    ensures
        0 <= i * c.w + j < c.h * c.w,
{
    assert(i * c.w + j < c.h * c.w) by (nonlinear_arith)
        requires
            0 <= i < c.h,
            0 <= j < c.w,
    ;
    assert(0 <= i * c.w) by (nonlinear_arith)
        requires
            0 <= i,
            0 <= c.w,
    ;
}

pub(crate) proof fn lemma_cell_split(w: int, i: int, j: int)
    requires
        0 <= i,
        0 <= j < w,
    ensures
        (i * w + j) / w == i,
        (i * w + j) % w == j,
{
    vstd::arithmetic::div_mod::lemma_fundamental_div_mod_converse(i * w + j, w, i, j);
}

impl IJ {
    /// The row of this cell in a grid of shape `c`.
    pub open spec fn row(self, c: IJSize) -> int {
        self.0 as int / c.w as int
    }

    /// The column of this cell in a grid of shape `c`.
    pub open spec fn col(self, c: IJSize) -> int {
        self.0 as int % c.w as int
    }

    /// The cell in row `i`, column `j` of `c`, if there is one.
    pub open spec fn spec_from_pair(c: IJSize, i: int, j: int) -> Option<IJ> {
        if i >= c.h || j >= c.w {
            None
        } else {
            Some(IJ((i * c.w + j) as usize))
        }
    }

    /// The cell in row `i`, column `j` of `c`, if there is one.
    pub fn from_pair(c: IJSize, i: usize, j: usize) -> (r: Option<Self>)
        requires
            c.fits(),
        ensures
            r == Self::spec_from_pair(c, i as int, j as int),
    {
        if i >= c.h || j >= c.w {
            None
        } else {
            proof {
                lemma_cell_in_range(c, i as int, j as int);
            }
            Some(IJ(i * c.w + j))
        }
    }

    /// The cell in row `i`, column `j` of `c`, which has one.
    pub fn from_pair_unchecked(c: IJSize, i: usize, j: usize) -> (r: Self)
        requires
            c.fits(),
            i < c.h,
            j < c.w,
        ensures
            r.0 == i * c.w + j,
    {
        proof {
            lemma_cell_in_range(c, i as int, j as int);
        }
        IJ(i * c.w + j)
    }

    /// The row and column of this cell in a grid of `c.w` columns.
    pub fn to_pair(self, c: IJSize) -> (r: (usize, usize))
        requires
            c.w > 0,
        ensures
            r.0 == self.0 / c.w,
            r.1 == self.0 % c.w,
            self.0 == r.0 * c.w + r.1,
    {
        proof {
            vstd::arithmetic::div_mod::lemma_fundamental_div_mod(self.0 as int, c.w as int);
            vstd::arithmetic::mul::lemma_mul_is_commutative(c.w as int, self.0 as int / c.w as int);
        }
        (self.0 / c.w, self.0 % c.w)
    }

    /// The position of this cell in row-major order.
    pub fn index(self) -> (r: usize)
        ensures
            r == self.0,
    {
        self.0
    }

    /// The steps to the neighbour in each direction, as offsets that wrap
    /// around `usize`: up, right, down, left.
    pub fn dijs(c: IJSize) -> (r: PerIJDir<Self>)
        ensures
            c.w == 0 ==> r.data[0].0 == 0,
            c.w > 0 ==> r.data[0].0 == usize::MAX - c.w + 1,
            r.data[1].0 == 1,
            r.data[2].0 == c.w,
            r.data[3].0 == usize::MAX,
    {
        PerIJDir::new([IJ(0usize.wrapping_sub(c.w)), IJ(1), IJ(c.w), IJ(0usize.wrapping_sub(1))])
    }

    /// For each cell of `c`, its neighbour in each direction, or `None` at
    /// the border.
    pub fn generate_neighbors(c: IJSize) -> (r: Mat<PerIJDir<Option<Self>>>)
        requires
            c.fits(),
        ensures
            r.spec_config() == c,
            r.wf(),
            forall|i: int, j: int|
                0 <= i < c.h && 0 <= j < c.w ==> #[trigger] r.spec_at(i * c.w + j) == neighbours_of(c, i, j),
    {
        let mut res: Vec<PerIJDir<Option<Self>>> = Vec::new();
        let mut i: usize = 0;
        while i < c.h
            invariant
                c.fits(),
                i <= c.h,
                res@.len() == i * c.w,
                forall|a: int, b: int| 0 <= a < i && 0 <= b < c.w ==> #[trigger] res@[a * c.w + b] == neighbours_of(c, a, b),
            decreases c.h - i,
        {
            let mut j: usize = 0;
            while j < c.w
                invariant
                    c.fits(),
                    i < c.h,
                    j <= c.w,
                    res@.len() == i * c.w + j,
                    forall|a: int, b: int|
                        (0 <= a < i && 0 <= b < c.w) || (a == i && 0 <= b < j) ==> #[trigger] res@[a * c.w + b]
                            == neighbours_of(c, a, b),
                decreases c.w - j,
            {
                proof {
                    lemma_cell_in_range(c, i as int, j as int);
                }
                let up = if i > 0 {
                    Some(IJ::from_pair_unchecked(c, i - 1, j))
                } else {
                    None
                };
                let right = if j + 1 < c.w {
                    Some(IJ::from_pair_unchecked(c, i, j + 1))
                } else {
                    None
                };
                let down = if i + 1 < c.h {
                    Some(IJ::from_pair_unchecked(c, i + 1, j))
                } else {
                    None
                };
                let left = if j > 0 {
                    Some(IJ::from_pair_unchecked(c, i, j - 1))
                } else {
                    None
                };
                let ghost before = res@;
                res.push(PerIJDir::new([up, right, down, left]));
                proof {
                    assert forall|a: int, b: int|
                        (0 <= a < i && 0 <= b < c.w) || (a == i && 0 <= b < j + 1) implies #[trigger] res@[a * c.w
                            + b] == neighbours_of(c, a, b) by {
                        if a == i && b == j {
                        } else {
                            if a < i {
                                lemma_cell_in_range(c, a, b);
                                assert(a * c.w + b < i * c.w) by (nonlinear_arith)
                                    requires
                                        0 <= a < i,
                                        0 <= b < c.w,
                                ;
                            }
                            assert(res@[a * c.w + b] == before[a * c.w + b]);
                        }
                    }
                }
                j = j + 1;
            }
            proof {
                assert((i + 1) * c.w == i * c.w + c.w) by (nonlinear_arith);
            }
            i = i + 1;
        }
        proof {
            assert(res@.len() == c.h * c.w);
        }
        Mat::new(c, res)
    }
}

/// The neighbours of the cell in row `i`, column `j` of `c`: up, right,
/// down, left, `None` past the border.
pub open spec fn neighbours_of(c: IJSize, i: int, j: int) -> PerIJDir<Option<IJ>> {
    PerIJDir {
        data: [
            if i > 0 { Some(IJ(((i - 1) * c.w + j) as usize)) } else { None },
            if j + 1 < c.w { Some(IJ((i * c.w + j + 1) as usize)) } else { None },
            if i + 1 < c.h { Some(IJ(((i + 1) * c.w + j) as usize)) } else { None },
            if j > 0 { Some(IJ((i * c.w + j - 1) as usize)) } else { None },
        ],
    }
}

impl Add for IJ {
    type Output = Self;

    fn add(self, other: Self) -> (r: Self) {
        IJ(self.0 + other.0)
    }
}

impl vstd::std_specs::ops::AddSpecImpl for IJ {
    open spec fn obeys_add_spec() -> bool {
        true
    }

    open spec fn add_req(self, other: Self) -> bool {
        self.0 + other.0 <= usize::MAX
    }

    open spec fn add_spec(self, other: Self) -> Self {
        IJ((self.0 + other.0) as usize)
    }
}

impl Sub for IJ {
    type Output = Self;

    fn sub(self, other: Self) -> (r: Self) {
        IJ(self.0 - other.0)
    }
}

impl vstd::std_specs::ops::SubSpecImpl for IJ {
    open spec fn obeys_sub_spec() -> bool {
        true
    }

    open spec fn sub_req(self, other: Self) -> bool {
        self.0 >= other.0
    }

    open spec fn sub_spec(self, other: Self) -> Self {
        IJ((self.0 - other.0) as usize)
    }
}

/// A direction on the grid: up, right, down, left.
#[derive(Debug, Clone, Copy, PartialEq, Eq, Structural, Hash, PartialOrd, Ord)]
pub enum IJDir {
    U,
    R,
    D,
    L,
}

impl IJDir {
    /// The number of this direction, clockwise from up.
    pub open spec fn spec_ord(self) -> int {
        match self {
            IJDir::U => 0,
            IJDir::R => 1,
            IJDir::D => 2,
            IJDir::L => 3,
        }
    }

    /// The direction numbered `k`, clockwise from up.
    pub open spec fn spec_from_ord(k: int) -> IJDir {
        if k == 0 {
            IJDir::U
        } else if k == 1 {
            IJDir::R
        } else if k == 2 {
            IJDir::D
        } else {
            IJDir::L
        }
    }

    /// The number of this direction, clockwise from up.
    pub fn ord(self) -> (r: usize)
        ensures
            r == self.spec_ord(),
            r < 4,
    {
        match self {
            IJDir::U => 0,
            IJDir::R => 1,
            IJDir::D => 2,
            IJDir::L => 3,
        }
    }

    /// The four directions, clockwise from up.
    pub fn all() -> (r: [IJDir; 4])
        ensures
            r@ == seq![IJDir::U, IJDir::R, IJDir::D, IJDir::L],
    {
        let r = [IJDir::U, IJDir::R, IJDir::D, IJDir::L];
        proof {
            assert(r@ =~= seq![IJDir::U, IJDir::R, IJDir::D, IJDir::L]);
        }
        r
    }

    /// Whether `other` points the opposite way.
    pub fn is_opposite_to(self, other: IJDir) -> (r: bool)
        ensures
            r == (self != other && self.spec_ord() % 2 == other.spec_ord() % 2),
            r == ((self.spec_ord() + 2) % 4 == other.spec_ord()),
    {
        self != other && self.ord() % 2 == other.ord() % 2
    }

    /// This direction turned by `r`.
    pub fn rotate(self, r: Rotate) -> (d: Self)
        ensures
            d.spec_ord() == (self.spec_ord() + r.spec_turns()) % 4,
    {
        let k = (self.ord() + r.turns()) % 4;
        if k == 0 {
            IJDir::U
        } else if k == 1 {
            IJDir::R
        } else if k == 2 {
            IJDir::D
        } else {
            IJDir::L
        }
    }

    /// The letter of this direction.
    pub fn letter(self) -> (r: char)
        ensures
            r == match self {
                IJDir::U => 'U',
                IJDir::R => 'R',
                IJDir::D => 'D',
                IJDir::L => 'L',
            },
    {
        match self {
            IJDir::U => 'U',
            IJDir::R => 'R',
            IJDir::D => 'D',
            IJDir::L => 'L',
        }
    }
}

/// A turn: none, a quarter anticlockwise, a quarter clockwise.
#[derive(Debug, Clone, Copy, PartialEq, Eq, Structural, Hash)]
pub enum Rotate {
    S,
    L,
    R,
}

impl Rotate {
    /// The number of clockwise quarter turns this turn makes, modulo four.
    pub open spec fn spec_turns(self) -> int {
        match self {
            Rotate::S => 0,
            Rotate::L => 3,
            Rotate::R => 1,
        }
    }

    /// The number of clockwise quarter turns this turn makes, modulo four.
    pub fn turns(self) -> (r: usize)
        ensures
            r == self.spec_turns(),
    {
        match self {
            Rotate::S => 0,
            Rotate::L => 3,
            Rotate::R => 1,
        }
    }

    /// The three turns.
    pub fn all() -> (r: [Rotate; 3])
        ensures
            r@ == seq![Rotate::S, Rotate::L, Rotate::R],
    {
        let r = [Rotate::S, Rotate::L, Rotate::R];
        proof {
            assert(r@ =~= seq![Rotate::S, Rotate::L, Rotate::R]);
        }
        r
    }
}

/// One value for each direction.
#[derive(Debug, Clone, Copy, PartialEq, Eq, Hash, PartialOrd, Ord)]
pub struct PerIJDir<T> {
    pub data: [T; 4],
}

impl<T> PerIJDir<T> {
    /// The values for up, right, down and left.
    pub fn new(data: [T; 4]) -> (r: Self)
        ensures
            r.data == data,
    {
        PerIJDir { data }
    }

    /// The value for direction `d`.
    pub fn get(&self, d: IJDir) -> (r: &T)
        ensures
            *r == self.data@[d.spec_ord()],
    {
        &self.data[d.ord()]
    }
}

impl<T: Copy + Default> Default for PerIJDir<T> {
    fn default() -> (r: Self)
        ensures
            forall|i: int| 0 <= i < 4 ==> T::default.ensures((), #[trigger] r.data@[i]),
    {
        PerIJDir { data: [T::default(), T::default(), T::default(), T::default()] }
    }
}

impl<T> Index<IJDir> for PerIJDir<T> {
    type Output = T;

    fn index(&self, d: IJDir) -> (r: &T) {
        &self.data[d.ord()]
    }
}

impl<T> vstd::std_specs::core::IndexSpecImpl<IJDir> for PerIJDir<T> {
    open spec fn index_req(&self, d: &IJDir) -> bool {
        true
    }
}

} // verus!
