use beam_kit::bits::{BitField, Bits};
use beam_kit::grid::Grid;
use beam_kit::ij::{IJSize, IJ};
use beam_kit::strct::bit::{BitGrid, BitRow};

fn sample() -> Grid<bool> {
    Grid::from_vec(vec![vec![true, false, true], vec![false, false, true]])
}

#[test]
fn bit_field_from_grid() {
    let f = BitField::from_grid(sample());
    let c = f.c;
    assert_eq!(c, IJSize::new(2, 3));
    assert!(f.get(c.make(0, 0).unwrap()));
    assert!(!f.get(c.make(0, 1).unwrap()));
    assert!(f.get(c.make(1, 2).unwrap()));
    assert_eq!(f.count_ones(), 3);
    assert_eq!(f.compute_points(), vec![IJ(0), IJ(2), IJ(5)]);
}

#[test]
fn bit_field_set_and_zero() {
    let c = IJSize::new(3, 4);
    let mut f = BitField::new_zero(c);
    assert_eq!(f.count_ones(), 0);
    f.set(c.make(2, 3).unwrap(), true);
    f.set(c.make(0, 1).unwrap(), true);
    f.set(c.make(0, 1).unwrap(), false);
    assert_eq!(f.count_ones(), 1);
    assert!(f.get(c.make(2, 3).unwrap()));
    assert_eq!(f.rows[2], {
        let mut b = Bits::new();
        b.set(3, true);
        b
    });
}

#[test]
fn bit_grid_from_grid() {
    let g = BitGrid::from_grid(sample());
    let c = g.c;
    assert!(g.get(c.make(0, 2).unwrap()));
    assert!(!g.get(c.make(1, 0).unwrap()));
    assert_eq!(g.count_ones(), 3);
    assert_eq!(g.compute_points(), vec![IJ(0), IJ(2), IJ(5)]);
}

#[test]
fn bit_grid_set_and_zero() {
    let c = IJSize::new(2, 2);
    let mut g = BitGrid::new_zero(c);
    g.set(c.make(1, 1).unwrap(), true);
    assert_eq!(g.count_ones(), 1);
    assert_eq!(g.rows[1].bits, 2);
    assert_eq!(BitRow::default().bits, 0);
}

#[test]
fn bits_high_bit_and_full_count() {
    let mut b = Bits::new();
    b.set(63, true);
    assert!(b.get(63));
    assert_eq!(b.bits, 1u64 << 63);
    assert_eq!((!Bits::new()).count_ones(), 64);
}

#[test]
fn bits_print_as_binary() {
    let mut b = Bits::new();
    b.set(0, true);
    b.set(3, true);
    let text = b.binary();
    assert_eq!(text.len(), 64);
    assert!(text.ends_with("1001"));
    assert!(text[..60].chars().all(|c| c == '0'));
    assert_eq!(BitRow { bits: u64::MAX }.binary(), "1".repeat(64));
}
