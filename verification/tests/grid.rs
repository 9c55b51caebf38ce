use puzzles::grid::{Grid, Gridlike, GridlikeMut, Shape, Stride};

#[test]
fn test_grid_view() {
    let g: Grid<isize> = Grid::new_fill_with(5, 5, |r, c| r + 2 * c);
    assert_eq!(g.shape(), Shape(5, 5));
    assert_eq!(g.stride(), Stride(5, 1));
    assert!(g.shape().is_valid_rc(4, 4));
    assert!(!g.shape().is_valid_rc(0, -1));
    assert!(!g.shape().is_valid_rc(-1, 0));
    assert!(!g.shape().is_valid_rc(4, 5));
    assert!(!g.shape().is_valid_rc(5, 4));
    assert_eq!(*g.rc(0, 0), 0);
    assert_eq!(*g.rc(2, 1), 4);
    assert_eq!(*g.rc(4, 4), 12);
    assert_eq!(g.len(), 25);

    let v0 = g.view(0, 0, 3, 3);
    assert_eq!(v0.shape(), Shape(3, 3));
    assert_eq!(v0.stride(), Stride(5, 1));
    assert!(v0.shape().is_valid_rc(2, 2));
    assert!(!v0.shape().is_valid_rc(0, -1));
    assert!(!v0.shape().is_valid_rc(-1, 0));
    assert!(!v0.shape().is_valid_rc(2, 3));
    assert!(!v0.shape().is_valid_rc(3, 2));
    assert_eq!(*v0.rc(0, 0), 0);
    assert_eq!(*v0.rc(2, 1), 4);
    assert_eq!(v0.len(), 9);

    let v1 = v0.view(1, 1, 2, 2);
    assert_eq!(v1.shape(), Shape(2, 2));
    assert_eq!(v1.stride(), Stride(5, 1));
    assert!(v1.shape().is_valid_rc(1, 1));
    assert!(!v1.shape().is_valid_rc(0, -1));
    assert!(!v1.shape().is_valid_rc(-1, 0));
    assert!(!v1.shape().is_valid_rc(1, 2));
    assert!(!v1.shape().is_valid_rc(2, 1));
    assert_eq!(*v1.rc(0, 0), 3);
    assert_eq!(*v1.rc(1, 1), 6);
    assert_eq!(v1.len(), 4);
    assert_eq!(v1[0], 3);
    assert_eq!(v1[1], 5);
    assert_eq!(v1[2], 4);
    assert_eq!(v1[3], 6);
}

#[test]
fn test_grid_mut() {
    let mut g: Grid<isize> = Grid::new_filled(5, 5, 0);

    assert_eq!(g.len(), 25);
    assert_eq!(g[0], 0);
    assert_eq!(g[5], 0);

    g[5] = 3;
    assert_eq!(g[5], 3);
    assert_eq!(*g.rc(1, 0), 3);

    let mut v = g.view_mut(1, 1, 2, 2);
    assert_eq!(v.len(), 4);
    v[0] = 10;
    v[1] = 11;
    v[2] = 12;
    v[3] = 13;

    assert_eq!(*g.rc(1, 1), 10);
    assert_eq!(*g.rc(1, 2), 11);
    assert_eq!(*g.rc(2, 1), 12);
    assert_eq!(*g.rc(2, 2), 13);
}

#[test]
fn shape_converts_between_indices_and_cells() {
    let s = Shape(3, 4);
    assert_eq!(s.len(), 12);
    assert_eq!(s.rc_to_idx(2, 1), 9);
    assert_eq!(s.idx_to_rc(9), (2, 1));
    assert_eq!(s.idx_to_rc(-5), (-1, -1));
    assert_eq!(Shape(3, -4).idx_to_rc(9), (-2, 1));
    assert!(s.is_valid_idx(11));
    assert!(!s.is_valid_idx(12));
    assert!(!s.is_valid_idx(-1));
    assert_eq!(Stride(4, 1).rc_to_offset(2, 3), 11);
    assert_eq!(Stride(4, 1).per_row(), 4);
    assert_eq!(Stride(4, 1).per_col(), 1);
}

#[test]
fn reshape_keeps_the_cells_or_says_why_not() {
    let g = Grid::from_vec(vec![1, 2, 3, 4, 5, 6]);
    assert_eq!(g.shape(), Shape(1, 6));
    let g = g.reshape(2, 3).unwrap();
    assert_eq!(g.shape(), Shape(2, 3));
    assert_eq!(*g.rc(1, 0), 4);
    assert_eq!(g.clone().reshape(0, 3).err(), Some("invalid grid size: 0,3".to_owned()));
    assert_eq!(g.clone().reshape(3, -1).err(), Some("invalid grid size: 3,-1".to_owned()));
    assert_eq!(g.reshape(2, 2).err(), Some("invalid reshape: 2,3 -> 2,2".to_owned()));
}

#[test]
fn cells_run_row_by_row_over_a_part() {
    let g: Grid<isize> = Grid::new_fill_with(3, 4, |r, c| 10 * r + c);
    let v = g.view(1, 1, 2, 2);
    let mut it = v.cells();
    let mut seen = Vec::new();
    while let Some(x) = it.next() {
        seen.push(*x);
    }
    assert_eq!(seen, vec![11, 12, 21, 22]);
    assert!(it.next().is_none());
    assert_eq!(*g.idx(7), 13);
}

#[test]
fn a_write_through_a_part_reaches_the_grid() {
    let mut g: Grid<isize> = Grid::new_filled(3, 3, 0);
    *g.rc_mut(0, 2) = 5;
    {
        let mut v = g.view_mut(1, 1, 2, 2);
        *v.rc_mut(1, 0) = 7;
        assert_eq!(v[2], 7);
    }
    assert_eq!(*g.rc(0, 2), 5);
    assert_eq!(*g.rc(2, 1), 7);
    assert_eq!(g.buffer().iter().filter(|x| **x != 0).count(), 2);
}
