//! Tests for the grid containers, the bit fields and the identifier type.

use wfc_tiles::array_grid::ArrayGrid;
use wfc_tiles::bitfield::{BitField, BitFieldResolvable, LargeBitField};
use wfc_tiles::fixed_grid::FixedGrid;
use wfc_tiles::grid::{Error as GridError, Grid};
use wfc_tiles::registry::Identifier;
use wfc_tiles::sized_grid::SizedGrid;
use wfc_tiles::vec_grid::VecGrid;

#[test]
fn grid_get_and_set() {
    let mut g = Grid::new(3, 2, 0i32);
    assert_eq!(g.width(), 3);
    assert_eq!(g.height(), 2);
    assert_eq!(g.capacity(), 6);
    assert!(g.contains_coords(2, 1));
    assert!(!g.contains_coords(3, 0));
    g.set(2, 1, 42).unwrap();
    assert_eq!(g.get(2, 1), Ok(&42));
    assert_eq!(g.get(3, 0), Err(GridError::OutOfBounds(3, 0)));
    assert_eq!(g.set(0, 9, 1), Err(GridError::OutOfBounds(0, 9)));
    *g.get_mut(0, 0).unwrap() = 7;
    assert_eq!(g.get(0, 0), Ok(&7));
}

#[test]
fn grid_zero_dimension_is_empty() {
    // a zero width forces a zero height and the other way round
    let a = Grid::new(0, 5, 1i32);
    assert_eq!(a.width(), 0);
    assert_eq!(a.height(), 0);
    let b = Grid::new(5, 0, 1i32);
    assert_eq!(b.width(), 0);
    assert_eq!(b.height(), 0);
}

#[test]
fn grid_flips_and_rotations() {
    let mut g = Grid::new(2, 2, 0i32);
    g.set(0, 0, 1).unwrap();
    g.set(1, 0, 2).unwrap();
    g.set(0, 1, 3).unwrap();
    g.set(1, 1, 4).unwrap();
    let mut fx = g.clone();
    fx.flip_x();
    assert_eq!(fx.get(0, 0), Ok(&2));
    assert_eq!(fx.get(1, 1), Ok(&3));
    let mut fy = g.clone();
    fy.flip_y();
    assert_eq!(fy.get(0, 0), Ok(&3));
    let mut tr = g.clone();
    tr.transpose();
    assert_eq!(tr.get(0, 1), Ok(&2));
    assert_eq!(tr.get(1, 0), Ok(&3));
    let mut r2 = g.clone();
    r2.rotate_twice();
    assert_eq!(r2.get(0, 0), Ok(&4));
    let mut rl = g.clone();
    rl.rotate_left();
    assert_eq!(rl.get(0, 0), Ok(&2));
    let mut rr = g.clone();
    rr.rotate_right();
    assert_eq!(rr.get(0, 0), Ok(&3));
}

#[test]
fn grid_shifts_wrap_around() {
    let mut g = Grid::new(3, 1, 0i32);
    g.set(0, 0, 1).unwrap();
    g.set(1, 0, 2).unwrap();
    g.set(2, 0, 3).unwrap();
    g.shift_left(1).unwrap();
    assert_eq!(g.get(0, 0), Ok(&2));
    assert_eq!(g.get(2, 0), Ok(&1));
    g.shift_right(1).unwrap();
    assert_eq!(g.get(0, 0), Ok(&1));
    assert_eq!(g.shift_left(3), Err(GridError::OutOfBounds(3, 0)));

    let mut v = Grid::new(1, 3, 0i32);
    v.set(0, 0, 1).unwrap();
    v.set(0, 1, 2).unwrap();
    v.set(0, 2, 3).unwrap();
    v.shift_up(1).unwrap();
    assert_eq!(v.get(0, 0), Ok(&2));
    v.shift_down(1).unwrap();
    assert_eq!(v.get(0, 0), Ok(&1));
}

#[test]
fn grid_iter_map_has_find() {
    let mut g = Grid::new(2, 2, 0i32);
    g.set(1, 1, 9).unwrap();
    let items = g.iter();
    assert_eq!(items.len(), 4);
    assert_eq!(items[0], ((0, 0), 0));
    assert_eq!(items[3], ((1, 1), 9));
    let doubled = g.map(|v: &i32| v * 2);
    assert_eq!(doubled.get(1, 1), Ok(&18));
    assert!(g.has(&9));
    assert!(!g.has(&7));
    assert_eq!(g.find(&9), Some((1, 1)));
    assert_eq!(g.find(&7), None);
    let mut f = g.clone();
    f.fill(5);
    assert_eq!(f.get(0, 1), Ok(&5));
}

#[test]
fn vec_grid_cells_and_shapes() {
    let mut g: VecGrid<i32> = VecGrid::new(2, 2);
    assert_eq!(g.size(), (2, 2));
    assert_eq!(g.capacity(), 4);
    assert!(g.get((0, 0)).is_none());
    assert_eq!(g.insert((0, 0), 5), None);
    assert_eq!(g.get((0, 0)), Some(&5));
    assert_eq!(g.insert((0, 0), 6), Some(5));
    assert_eq!(g.remove((0, 0)), Some(6));
    assert!(g.get((0, 0)).is_none());
    assert!(g.contains_index((1, 1)));
    assert!(!g.contains_index((2, 0)));
    assert_eq!(g.indexes().len(), 4);

    let filled = VecGrid::new_with(3, 1, 7i32);
    assert_eq!(filled.get((2, 0)), Some(&7));

    let mut w: VecGrid<i32> = VecGrid::new(2, 1);
    w.insert((0, 0), 1);
    w.insert((1, 0), 2);
    w.flip_x();
    assert_eq!(w.get((0, 0)), Some(&2));
    w.shift_left(1);
    assert_eq!(w.get((0, 0)), Some(&1));
    w.shift_right(1);
    assert_eq!(w.get((0, 0)), Some(&2));

    let mut v: VecGrid<i32> = VecGrid::new(1, 2);
    v.insert((0, 0), 1);
    v.insert((0, 1), 2);
    v.flip_y();
    assert_eq!(v.get((0, 0)), Some(&2));
    v.shift_up(1);
    assert_eq!(v.get((0, 0)), Some(&1));
    v.shift_down(1);
    assert_eq!(v.get((0, 0)), Some(&2));
}

#[test]
fn sized_grid_basics() {
    let mut g: SizedGrid<i32, 2, 2> = SizedGrid::new();
    assert_eq!(g.width(), 2);
    assert_eq!(g.height(), 2);
    assert_eq!(g.capacity(), 4);
    assert!(g.includes((1, 1)));
    assert!(!g.includes((2, 0)));
    assert!(g.get((0, 0)).is_none());
    assert_eq!(g.set((0, 0), 3), None);
    assert_eq!(g.set((0, 0), 4), Some(3));
    assert_eq!(g.get((0, 0)), Some(&4));
    assert!(g.contains(&4));
    assert!(!g.contains(&5));

    let f: SizedGrid<i32, 2, 2> = SizedGrid::new_with(1);
    assert_eq!(f.get((1, 1)), Some(&1));
    let e = f.enumerate();
    assert_eq!(e.len(), 4);
    assert_eq!(e[3], ((1, 1), Some(1)));

    let mut q: SizedGrid<i32, 2, 2> = SizedGrid::new();
    q.set((0, 0), 1);
    q.set((1, 0), 2);
    q.set((0, 1), 3);
    q.set((1, 1), 4);
    let t = q.transpose();
    assert_eq!(t.get((0, 1)), Some(&2));
    let mut fx: SizedGrid<i32, 2, 2> = SizedGrid::new_with(0);
    fx.set((0, 0), 1);
    fx.flip_x();
    assert_eq!(fx.get((1, 0)), Some(&1));
    let rl = q.rotate_left();
    assert_eq!(rl.get((0, 0)), Some(&2));
}

#[test]
fn sized_grid_shifts() {
    let mut g: SizedGrid<i32, 3, 1> = SizedGrid::new();
    g.set((0, 0), 1);
    g.set((1, 0), 2);
    g.set((2, 0), 3);
    g.shift_left(1);
    assert_eq!(g.get((0, 0)), Some(&2));
    g.shift_right(1);
    assert_eq!(g.get((0, 0)), Some(&1));
    let mut v: SizedGrid<i32, 1, 2> = SizedGrid::new();
    v.set((0, 0), 1);
    v.set((0, 1), 2);
    v.shift_up(1);
    assert_eq!(v.get((0, 0)), Some(&2));
    v.shift_down(3);
    assert_eq!(v.get((0, 0)), Some(&2));
}

#[test]
fn bit_fields_hold_flags()  {
    let mut f = BitField::new();
    assert_eq!(f.contains(2), Ok(false));
    f.insert(2).unwrap();
    assert_eq!(f.contains(2), Ok(true));
    assert_eq!(f.contains(1), Ok(false));
    f.remove(2).unwrap();
    assert_eq!(f.contains(2), Ok(false));
    assert!(f.insert(64).is_err());
    f.insert(1).unwrap();
    f.insert(2).unwrap();
    f.insert(3).unwrap();
    assert_eq!(f.contains_all(&vec![1, 2, 3]), Ok(true));
    assert_eq!(f.contains_all(&vec![1, 2, 3, 4]), Ok(false));
    assert_eq!(f.contains_any(&vec![9, 2]), Ok(true));
    assert_eq!(f.contains_any(&vec![9, 10]), Ok(false));

    let mut l = LargeBitField::new();
    l.insert(100).unwrap();
    assert_eq!(l.contains(100), Ok(true));
    assert!(l.insert(128).is_err());
    l.remove(100).unwrap();
    assert_eq!(l.contains(100), Ok(false));
}

#[test]
fn identifiers_keep_their_parts() {
    let id = Identifier::new(String::from("base"), String::from("stone"));
    assert_eq!(id.namespace(), "base");
    assert_eq!(id.path(), "stone");
    let same = Identifier::new(String::from("base"), String::from("stone"));
    assert_eq!(id, same);
}

#[test]
fn fixed_grid_reports_out_of_bounds() {
    let mut g: FixedGrid<i32, 2, 2> = FixedGrid::new_empty();
    assert_eq!(g.bounds(), (2, 2));
    assert!(g.get((0, 0)).unwrap().is_none());
    assert!(g.get((2, 2)).is_err());
    assert_eq!(g.set((1, 1), 5).unwrap(), None);
    assert_eq!(g.set((1, 1), 6).unwrap(), Some(5));
    assert!(g.set((9, 0), 1).is_err());
    assert!(g.contains(&6));
    assert!(!g.contains(&5));
    let f: FixedGrid<i32, 2, 1> = FixedGrid::new_with(3);
    let t = f.transpose();
    assert_eq!(t.get((0, 1)).unwrap(), Some(&3));
    let mut s: FixedGrid<i32, 2, 1> = FixedGrid::new_empty();
    s.set((0, 0), 1).unwrap();
    s.set((1, 0), 2).unwrap();
    s.shift_left(1);
    assert_eq!(s.get((0, 0)).unwrap(), Some(&2));
    s.shift_right(1);
    s.flip_x();
    assert_eq!(s.get((0, 0)).unwrap(), Some(&2));
}

#[test]
fn array_grid_moves_values_in_and_out() {
    let mut g: ArrayGrid<i32, 3, 2> = ArrayGrid::new();
    assert_eq!(g.size(), (3, 2));
    assert_eq!(g.capacity(), 6);
    assert!(g.includes((2, 1)));
    assert!(!g.includes((3, 0)));
    assert_eq!(g.insert((2, 1), 7), None);
    assert_eq!(g.get((2, 1)), Some(&7));
    assert_eq!(g.remove((2, 1)), Some(7));
    assert!(g.get((2, 1)).is_none());

    let f: ArrayGrid<i32, 2, 2> = ArrayGrid::new_with(4);
    assert!(f.contains(&4));
    assert_eq!(f.iter().len(), 4);
    let rows = f.rows();
    assert_eq!(rows.len(), 2);
    assert_eq!(rows[0].len(), 2);
    let cols = f.columns();
    assert_eq!(cols.len(), 2);
    let e = f.enumerate();
    assert_eq!(e[1].0, (1, 0));

    let mut q: ArrayGrid<i32, 2, 2> = ArrayGrid::new();
    q.insert((0, 0), 1);
    q.insert((1, 0), 2);
    q.insert((0, 1), 3);
    q.insert((1, 1), 4);
    let t = q.transpose();
    assert_eq!(t.get((0, 1)), Some(&2));
    let rl = q.rotate_left();
    assert_eq!(rl.get((0, 0)), Some(&2));
}
