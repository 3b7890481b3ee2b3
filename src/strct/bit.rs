//! A row of 64 bits, and a grid of such rows.

use crate::bits::{bit_of, count_bits, lemma_cell_of, lemma_set_bit, lemma_zero_bits, popcount};
use crate::grid::Grid;
use crate::ij::{IJSize, IJ};
use crate::source::text_of;
use std::ops::{BitAnd, BitOr, Not};
use vstd::prelude::*;

verus! {

/// A row of sixty-four bits, numbered from the least significant.
#[derive(Clone, Copy, PartialEq, Eq, Structural, Hash, PartialOrd, Ord, Debug)]
pub struct BitRow {
    pub bits: u64,
}

impl BitRow {
    pub const NUM_BITS: usize = 64;

    /// Whether bit `i` is set.
    pub open spec fn has(self, i: int) -> bool {
        bit_of(self.bits, i as u64)
    }

    /// All bits clear.
    pub fn new() -> (r: Self)
        ensures
            r.bits == 0,
    {
        BitRow { bits: 0 }
    }

    /// Sets bit `i` to `b`, leaving the other bits as they were.
    pub fn set(&mut self, i: usize, b: bool)
        requires
            i < 64,
        ensures
            final(self).has(i as int) == b,
            forall|j: int| 0 <= j < 64 && j != i ==> final(self).has(j) == old(self).has(j),
    {
        let v: u64 = if b { 1 } else { 0 };
        let s: u64 = i as u64;
        proof {
            lemma_set_bit(self.bits, s, b);
        }
        self.bits = (self.bits & !(1u64 << s)) | (v << s);
    }

    /// Whether bit `i` is set.
    pub fn get(&self, i: usize) -> (r: bool)
        requires
            i < 64,
        ensures
            r == self.has(i as int),
    {
        (self.bits >> (i as u64)) & 1 == 1
    }

    /// The bits as binary digits, the most significant first.
    pub fn binary(&self) -> (r: String)
        ensures
            r@ == Seq::new(64, |k: int| if self.has(63 - k) { '1' } else { '0' }),
    {
        let mut digits: Vec<char> = Vec::new();
        let mut k: usize = 0;
        while k < 64
            invariant
                k <= 64,
                digits@ == Seq::new(k as nat, |j: int| if self.has(63 - j) { '1' } else { '0' }),
            decreases 64 - k,
        {
            let d = if self.get(63 - k) {
                '1'
            } else {
                '0'
            };
            digits.push(d);
            k = k + 1;
            proof {
                assert(digits@ =~= Seq::new(k as nat, |j: int| if self.has(63 - j) { '1' } else { '0' }));
            }
        }
        text_of(digits.as_slice())
    }

    /// The number of set bits.
    pub fn count_ones(&self) -> (r: u32)
        ensures
            r == popcount(self.bits),
    {
        let mut c: u32 = 0;
        let mut i: usize = 0;
        while i < 64
            invariant
                i <= 64,
                c == count_bits(self.bits, i as nat),
                c <= i,
            decreases 64 - i,
        {
            if self.get(i) {
                c = c + 1;
            }
            i = i + 1;
        }
        c
    }
}

impl Default for BitRow {
    fn default() -> (r: Self)
        ensures
            r.bits == 0,
    {
        BitRow::new()
    }
}

impl BitAnd for BitRow {
    type Output = Self;

    fn bitand(self, other: BitRow) -> (r: Self) {
        BitRow { bits: self.bits & other.bits }
    }
}

impl vstd::std_specs::ops::BitAndSpecImpl for BitRow {
    open spec fn obeys_bitand_spec() -> bool {
        true
    }

    open spec fn bitand_req(self, other: BitRow) -> bool {
        true
    }

    open spec fn bitand_spec(self, other: BitRow) -> Self {
        BitRow { bits: self.bits & other.bits }
    }
}

impl BitOr for BitRow {
    type Output = Self;

    fn bitor(self, other: BitRow) -> (r: Self) {
        BitRow { bits: self.bits | other.bits }
    }
}

impl vstd::std_specs::ops::BitOrSpecImpl for BitRow {
    open spec fn obeys_bitor_spec() -> bool {
        true
    }

    open spec fn bitor_req(self, other: BitRow) -> bool {
        true
    }

    open spec fn bitor_spec(self, other: BitRow) -> Self {
        BitRow { bits: self.bits | other.bits }
    }
}

impl Not for BitRow {
    type Output = Self;

    fn not(self) -> (r: Self) {
        BitRow { bits: !self.bits }
    }
}

impl vstd::std_specs::ops::NotSpecImpl for BitRow {
    open spec fn obeys_not_spec() -> bool {
        true
    }

    open spec fn not_req(self) -> bool {
        true
    }

    open spec fn not_spec(self) -> Self {
        BitRow { bits: !self.bits }
    }
}

/// The number of set bits over all of `rows`.
pub open spec fn total_row_ones(rows: Seq<BitRow>) -> nat
    decreases rows.len(),
{
    if rows.len() == 0 {
        0
    } else {
        total_row_ones(rows.drop_last()) + popcount(rows.last().bits)
    }
}

proof fn lemma_total_row_ones_prefix(rows: Seq<BitRow>, k: int)
    requires
        0 <= k <= rows.len(),
    ensures
        total_row_ones(rows.subrange(0, k)) <= total_row_ones(rows),
    decreases rows.len() - k,
{
    if k < rows.len() {
        lemma_total_row_ones_prefix(rows, k + 1);
        assert(rows.subrange(0, k + 1).drop_last() =~= rows.subrange(0, k));
    } else {
        assert(rows.subrange(0, k) =~= rows);
    }
}

/// A grid of `c.h` rows of `c.w` bits each.
#[derive(Debug, Clone, PartialEq, Eq, Hash, PartialOrd, Ord)]
pub struct BitGrid {
    pub c: IJSize,
    pub rows: Vec<BitRow>,
}

impl BitGrid {
    /// One row of bits per grid row, each wide enough for its columns.
    pub open spec fn wf(&self) -> bool {
        &&& self.c.w <= 64
        &&& self.rows@.len() == self.c.h
    }

    /// The bit of row `i`, column `j`.
    pub open spec fn cell(&self, i: int, j: int) -> bool {
        self.rows@[i].has(j)
    }

    /// All bits of a field of shape `c` clear.
    pub fn new_zero(c: IJSize) -> (r: Self)
        requires
            c.w < 64,
        ensures
            r.wf(),
            r.c == c,
            forall|i: int| 0 <= i < c.h ==> (#[trigger] r.rows@[i]).bits == 0,
    {
        let rows = vec![BitRow::new(); c.h];
        BitGrid { c, rows }
    }

    /// The field that has bit `(i, j)` set exactly where `grid` holds `true`.
    pub fn from_grid(grid: Grid<bool>) -> (r: Self)
        requires
            grid.mat.wf(),
            grid.mat.spec_config().w <= 64,
        ensures
            r.wf(),
            r.c == grid.mat.spec_config(),
            forall|i: int, j: int|
                0 <= i < r.c.h && 0 <= j < r.c.w ==> r.cell(i, j) == grid.mat.cells()[i * r.c.w + j],
            forall|i: int, j: int| 0 <= i < r.c.h && r.c.w <= j < 64 ==> !r.cell(i, j),
    {
        let c = grid.config();
        let mut rows: Vec<BitRow> = Vec::new();
        let mut i: usize = 0;
        while i < c.h
            invariant
                grid.mat.wf(),
                c == grid.mat.spec_config(),
                c.w <= 64,
                i <= c.h,
                rows@.len() == i,
                forall|a: int, b: int|
                    0 <= a < i && 0 <= b < c.w ==> #[trigger] rows@[a].has(b) == grid.mat.cells()[a * c.w + b],
                forall|a: int, b: int| 0 <= a < i && c.w <= b < 64 ==> !(#[trigger] rows@[a].has(b)),
            decreases c.h - i,
        {
            proof {
                assert((i + 1) * c.w <= c.h * c.w) by (nonlinear_arith)
                    requires
                        i < c.h,
                ;
                assert((i + 1) * c.w == i * c.w + c.w) by (nonlinear_arith);
            }
            let row = grid.mat.row(i);
            let mut bits = BitRow::new();
            proof {
                lemma_zero_bits();
            }
            let mut j: usize = 0;
            while j < c.w
                invariant
                    grid.mat.wf(),
                    c == grid.mat.spec_config(),
                    c.w <= 64,
                    i < c.h,
                    j <= c.w,
                    row@ == grid.mat.cells().subrange(i * c.w, (i + 1) * c.w),
                    (i + 1) * c.w <= c.h * c.w,
                    (i + 1) * c.w == i * c.w + c.w,
                    forall|b: int| 0 <= b < j ==> #[trigger] bits.has(b) == grid.mat.cells()[i * c.w + b],
                    forall|b: int| j <= b < 64 ==> !(#[trigger] bits.has(b)),
                decreases c.w - j,
            {
                let ghost before = bits;
                bits.set(j, row[j]);
                proof {
                    assert forall|b: int| 0 <= b < j + 1 implies #[trigger] bits.has(b) == grid.mat.cells()[i * c.w + b] by {
                        if b < j {
                            assert(bits.has(b) == before.has(b));
                        }
                    }
                    assert forall|b: int| j + 1 <= b < 64 implies !(#[trigger] bits.has(b)) by {
                        assert(bits.has(b) == before.has(b));
                    }
                }
                j = j + 1;
            }
            rows.push(bits);
            i = i + 1;
        }
        BitGrid { c, rows }
    }

    /// The bit of cell `p`.
    pub fn get(&self, p: IJ) -> (r: bool)
        requires
            self.wf(),
            p.0 < self.c.h * self.c.w,
        ensures
            r == self.cell(p.row(self.c), p.col(self.c)),
    {
        proof {
            lemma_cell_of(self.c, p.0 as int);
        }
        let (i, j) = p.to_pair(self.c);
        self.rows[i].get(j)
    }

    /// Sets the bit of cell `p` to `b`, leaving the others as they were.
    pub fn set(&mut self, p: IJ, b: bool)
        requires
            old(self).wf(),
            p.0 < old(self).c.h * old(self).c.w,
        ensures
            final(self).wf(),
            final(self).c == old(self).c,
            forall|i: int, j: int|
                0 <= i < final(self).c.h && 0 <= j < final(self).c.w ==> final(self).cell(i, j) == if i
                    == p.row(old(self).c) && j == p.col(old(self).c) {
                    b
                } else {
                    old(self).cell(i, j)
                },
            forall|i: int, j: int|
                0 <= i < final(self).c.h && final(self).c.w <= j < 64 ==> final(self).cell(i, j) == old(self).cell(
                    i,
                    j,
                ),
    {
        proof {
            lemma_cell_of(self.c, p.0 as int);
        }
        let (i, j) = p.to_pair(self.c);
        let mut row = self.rows[i];
        row.set(j, b);
        self.rows.set(i, row);
    }

    /// The number of set bits.
    pub fn count_ones(&self) -> (r: u32)
        requires
            total_row_ones(self.rows@) <= u32::MAX,
        ensures
            r == total_row_ones(self.rows@),
    {
        let mut total: u32 = 0;
        let mut k: usize = 0;
        while k < self.rows.len()
            invariant
                total_row_ones(self.rows@) <= u32::MAX,
                k <= self.rows@.len(),
                total == total_row_ones(self.rows@.subrange(0, k as int)),
            decreases self.rows@.len() - k,
        {
            proof {
                assert(self.rows@.subrange(0, k + 1).drop_last() =~= self.rows@.subrange(0, k as int));
                lemma_total_row_ones_prefix(self.rows@, k + 1);
            }
            total = total + self.rows[k].count_ones();
            k = k + 1;
        }
        proof {
            assert(self.rows@.subrange(0, k as int) =~= self.rows@);
        }
        total
    }

    /// The cells whose bit is set, in row-major order.
    pub fn compute_points(&self) -> (r: Vec<IJ>)
        requires
            self.wf(),
            self.c.fits(),
        ensures
            forall|k: int| 0 <= k < r@.len() ==> {
                let p = #[trigger] r@[k];
                &&& p.0 < self.c.h * self.c.w
                &&& self.cell(p.row(self.c), p.col(self.c))
            },
            forall|i: int, j: int|
                0 <= i < self.c.h && 0 <= j < self.c.w && self.cell(i, j) ==> r@.contains(
                    IJ((i * self.c.w + j) as usize),
                ),
    {
        let mut points: Vec<IJ> = Vec::new();
        let mut i: usize = 0;
        while i < self.c.h
            invariant
                self.wf(),
                self.c.fits(),
                i <= self.c.h,
                forall|k: int| 0 <= k < points@.len() ==> {
                    let p = #[trigger] points@[k];
                    &&& p.0 < self.c.h * self.c.w
                    &&& self.cell(p.row(self.c), p.col(self.c))
                },
                forall|a: int, b: int|
                    0 <= a < i && 0 <= b < self.c.w && self.cell(a, b) ==> points@.contains(
                        IJ((a * self.c.w + b) as usize),
                    ),
            decreases self.c.h - i,
        {
            let mut j: usize = 0;
            while j < self.c.w
                invariant
                    self.wf(),
                    self.c.fits(),
                    i < self.c.h,
                    j <= self.c.w,
                    forall|k: int| 0 <= k < points@.len() ==> {
                        let p = #[trigger] points@[k];
                        &&& p.0 < self.c.h * self.c.w
                        &&& self.cell(p.row(self.c), p.col(self.c))
                    },
                    forall|a: int, b: int|
                        ((0 <= a < i && 0 <= b < self.c.w) || (a == i && 0 <= b < j)) && self.cell(a, b)
                            ==> points@.contains(IJ((a * self.c.w + b) as usize)),
                decreases self.c.w - j,
            {
                let pos = IJ::from_pair_unchecked(self.c, i, j);
                proof {
                    crate::ij::lemma_cell_split(self.c.w as int, i as int, j as int);
                    crate::ij::lemma_cell_in_range(self.c, i as int, j as int);
                }
                if self.get(pos) {
                    let ghost before = points@;
                    points.push(pos);
                    proof {
                        assert forall|a: int, b: int|
                            ((0 <= a < i && 0 <= b < self.c.w) || (a == i && 0 <= b < j)) && self.cell(a, b)
                                implies points@.contains(IJ((a * self.c.w + b) as usize)) by {
                            let q = IJ((a * self.c.w + b) as usize);
                            assert(before.contains(q));
                            let k = choose|k: int| 0 <= k < before.len() && before[k] == q;
                            assert(points@[k] == q);
                        }
                        assert(points@[points@.len() - 1] == pos);
                    }
                }
                j = j + 1;
            }
            i = i + 1;
        }
        points
    }
}

} // verus!
