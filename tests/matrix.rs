use beam_kit::grid::Grid;
use beam_kit::ij::{IJDir, IJSize, Rotate, IJ};
use beam_kit::matrix::Mat;

fn three_by_three() -> Mat<i32> {
    Mat::new(IJSize::new(3, 3), vec![1, 2, 3, 4, 5, 6, 7, 8, 9])
}

#[test]
fn test_mat() {
    let m = three_by_three();

    let c = m.config();
    assert_eq!(m[c.make(0, 0).unwrap()], 1);
    assert_eq!(m[c.make(0, 1).unwrap()], 2);
    assert_eq!(m[c.make(0, 2).unwrap()], 3);
    assert_eq!(m[c.make(1, 0).unwrap()], 4);
    assert_eq!(m[c.make(1, 1).unwrap()], 5);
    assert_eq!(m[c.make(1, 2).unwrap()], 6);
    assert_eq!(m[c.make(2, 0).unwrap()], 7);
    assert_eq!(m[c.make(2, 1).unwrap()], 8);
    assert_eq!(m[c.make(2, 2).unwrap()], 9);
}

#[test]
fn test_mat_index_twice() {
    let m = three_by_three();

    assert_eq!(m[0][0], 1);
    assert_eq!(m[0][1], 2);
    assert_eq!(m[0][2], 3);
    assert_eq!(m[1][0], 4);
    assert_eq!(m[1][1], 5);
    assert_eq!(m[1][2], 6);
    assert_eq!(m[2][0], 7);
    assert_eq!(m[2][1], 8);
    assert_eq!(m[2][2], 9);
}

#[test]
fn test_neighbors() {
    let c = IJSize::new(3, 3);
    let neighbors = IJ::generate_neighbors(c);

    // top left
    assert_eq!(neighbors[c.make(0, 0).unwrap()][IJDir::U], None);
    assert_eq!(neighbors[c.make(0, 0).unwrap()][IJDir::R], Some(c.make(0, 1).unwrap()));
    assert_eq!(neighbors[c.make(0, 0).unwrap()][IJDir::D], Some(c.make(1, 0).unwrap()));
    assert_eq!(neighbors[c.make(0, 0).unwrap()][IJDir::L], None);

    // bottom right
    assert_eq!(neighbors[c.make(2, 2).unwrap()][IJDir::U], Some(c.make(1, 2).unwrap()));
    assert_eq!(neighbors[c.make(2, 2).unwrap()][IJDir::R], None);
    assert_eq!(neighbors[c.make(2, 2).unwrap()][IJDir::D], None);
    assert_eq!(neighbors[c.make(2, 2).unwrap()][IJDir::L], Some(c.make(2, 1).unwrap()));

    // centre
    assert_eq!(neighbors[c.make(1, 1).unwrap()][IJDir::U], Some(c.make(0, 1).unwrap()));
    assert_eq!(neighbors[c.make(1, 1).unwrap()][IJDir::R], Some(c.make(1, 2).unwrap()));
    assert_eq!(neighbors[c.make(1, 1).unwrap()][IJDir::D], Some(c.make(2, 1).unwrap()));
    assert_eq!(neighbors[c.make(1, 1).unwrap()][IJDir::L], Some(c.make(1, 0).unwrap()));
}

#[test]
fn mat_from_rows_flattens_in_order() {
    let m = Mat::from_vec(vec![vec![1, 2], vec![3, 4], vec![5, 6]]);
    let c = m.config();
    assert_eq!((c.h, c.w), (3, 2));
    assert_eq!(m[c.make(2, 1).unwrap()], 6);
    assert_eq!(m[1], [3, 4]);
    let rows = m.iter();
    assert_eq!(rows.len(), 3);
    assert_eq!(rows[2], &[5, 6][..]);
}

#[test]
fn mat_from_no_rows_is_empty() {
    let m: Mat<u8> = Mat::from_vec(vec![]);
    assert_eq!(m.config(), IJSize::new(0, 0));
    assert!(m.iter().is_empty());
}

#[test]
fn mat_filled_and_get_mut() {
    let c = IJSize::new(2, 3);
    let mut m = Mat::filled(c, 7u8);
    *m.get_mut(c.make(1, 2).unwrap()) = 9;
    assert_eq!(*m.get(c.make(1, 2).unwrap()), 9);
    assert_eq!(*m.get(c.make(0, 0).unwrap()), 7);
    assert_eq!(m.row(1), &[7, 7, 9][..]);
}

#[test]
fn grid_set_and_get() {
    let c = IJSize::new(2, 2);
    let mut g: Grid<u32> = Grid::new_default(c);
    let p = c.make(1, 0).unwrap();
    g.set(p, 4);
    assert_eq!(*g.get(p), 4);
    assert_eq!(*g.get(c.make(0, 0).unwrap()), 0);
    assert_eq!(g.config(), c);
    let h = Grid::from_vec(vec![vec!['a', 'b'], vec!['c', 'd']]);
    assert_eq!(*h.get(c.make(1, 1).unwrap()), 'd');
}

#[test]
fn cell_pairs_round_trip() {
    let c = IJSize::new(4, 5);
    assert_eq!(c.size(), 20);
    let p = c.make(3, 2).unwrap();
    assert_eq!(p.index(), 17);
    assert_eq!(p.to_pair(c), (3, 2));
    assert_eq!(c.make(4, 0), None);
    assert_eq!(c.make(0, 5), None);
    assert_eq!(IJ::from_pair(c, 1, 1), Some(IJ(6)));
    assert_eq!(c.make_unchecked(2, 4), IJ(14));
    assert_eq!(IJ(6) + IJ(1), IJ(7));
    assert_eq!(IJ(6) - IJ(5), IJ(1));
}

#[test]
fn steps_wrap_around() {
    let c = IJSize::new(3, 4);
    let d = IJ::dijs(c);
    let p = c.make(1, 1).unwrap();
    assert_eq!(IJ(p.index().wrapping_add(d[IJDir::U].index())), c.make(0, 1).unwrap());
    assert_eq!(IJ(p.index().wrapping_add(d[IJDir::L].index())), c.make(1, 0).unwrap());
    assert_eq!(d[IJDir::R], IJ(1));
    assert_eq!(d[IJDir::D], IJ(4));
}

#[test]
fn directions_and_turns() {
    assert_eq!(IJDir::all(), [IJDir::U, IJDir::R, IJDir::D, IJDir::L]);
    assert!(IJDir::U.is_opposite_to(IJDir::D));
    assert!(IJDir::L.is_opposite_to(IJDir::R));
    assert!(!IJDir::U.is_opposite_to(IJDir::U));
    assert!(!IJDir::U.is_opposite_to(IJDir::R));
    assert_eq!(IJDir::U.rotate(Rotate::R), IJDir::R);
    assert_eq!(IJDir::U.rotate(Rotate::L), IJDir::L);
    assert_eq!(IJDir::L.rotate(Rotate::R), IJDir::U);
    assert_eq!(IJDir::D.rotate(Rotate::S), IJDir::D);
    assert_eq!(Rotate::all(), [Rotate::S, Rotate::L, Rotate::R]);
    assert_eq!(IJDir::D.letter(), 'D');
}

#[test]
fn rows_change_in_place() {
    let mut m = three_by_three();
    m.row_mut(1)[2] = 60;
    for row in m.iter_mut() {
        row[0] *= 10;
    }
    assert_eq!(m[0], [10, 2, 3]);
    assert_eq!(m[1], [40, 5, 60]);
    assert_eq!(m[2], [70, 8, 9]);
}
