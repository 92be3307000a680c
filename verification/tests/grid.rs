use dynamic_grid::DynamicGrid;
use dynamic_grid::GridError;

// 10, 5, 4
// 3, 9
// 1
// 7, 6, 2, 8
fn init() -> DynamicGrid<usize> {
    DynamicGrid::from_vec(vec![vec![10, 5, 4], vec![3, 9], vec![1], vec![7, 6, 2, 8]])
}

#[test]
fn test_new() {
    let g: DynamicGrid<i32> = DynamicGrid::new();

    assert_eq!(g.rows(), 0);
    assert_eq!(g.row_size(0), None);
    assert_eq!(g.row_size(10), None);
}

#[test]
fn test_init() {
    let g = init();
    assert_eq!(g.rows(), 4);
    assert_eq!(g.row_size(0), Some(3));
    assert_eq!(g.row_size(1), Some(2));
    assert_eq!(g.row_size(2), Some(1));
    assert_eq!(g.row_size(3), Some(4));
    assert_eq!(g.row_size(10), None);
}

#[test]
fn test_push() {
    let mut g = init();

    let position = g.push(4);
    assert_eq!(position, Ok((3, 4)));
    assert_eq!(g.row_size(0), Some(3));
    assert_eq!(g.row_size(3), Some(5));
}

#[test]
fn test_push_new_row() {
    let mut g = init();
    let position = g.push_new_row(4);
    assert_eq!(position, (4, 0));
    assert_eq!(g.row_size(0), Some(3));
    assert_eq!(g.row_size(4), Some(1));
}

#[test]
fn test_push_at_row() {
    let mut g = init();

    let position = g.push_at_row(2, 4);
    assert_eq!(position, Some((2, 1)));
    assert_eq!(g.get(2, 1), Some(&4));
    assert_eq!(g.row_size(0), Some(3));
    assert_eq!(g.row_size(2), Some(2));
}

#[test]
fn test_swap() {
    let mut g = init();

    assert!(g.swap((0, 1), (3, 2)).is_ok());

    assert_eq!(g.get(0, 1), Some(&2));
    assert_eq!(g.get(3, 2), Some(&5));
}

#[test]
fn test_remove() {
    let mut g = init();
    g.remove();
    assert_eq!(g.row_size(3), Some(3));
}

#[test]
fn test_remove_row() {
    let mut g = init();
    g.remove_row(0);
    assert_eq!(g.rows(), 3);
}

#[test]
fn test_get() {
    let mut g = init();
    assert_eq!(g.get(0, 0), Some(&10));
    assert_eq!(g.get(10, 0), None);
    assert_eq!(g.get(1, 1), Some(&9));
    assert_eq!(g.get(3, 3), Some(&8));
    assert_eq!(g.get(3, 4), None);

    assert_eq!(g.push(11), Ok((3, 4)));
    assert_eq!(g.get(3, 4), Some(&11));
}

#[test]
fn test_iterator() {
    let g = init();
    let elements = g.iter();
    let mut iter = elements.iter();
    assert_eq!(iter.next(), Some(&10));
    assert_eq!(iter.next(), Some(&5));
    assert_eq!(iter.next(), Some(&4));
    assert_eq!(iter.next(), Some(&3));
    assert_eq!(iter.next(), Some(&9));
    assert_eq!(iter.next(), Some(&1));
    assert_eq!(iter.next(), Some(&7));
    assert_eq!(iter.next(), Some(&6));
    assert_eq!(iter.next(), Some(&2));
    assert_eq!(iter.next(), Some(&8));
    assert_eq!(iter.next(), None);
}

#[test]
fn test_row_iterator() {
    let g = init();
    let row = g.iter_row(1).unwrap();
    let mut iter = row.iter();
    assert_eq!(iter.next(), Some(&3));
    assert_eq!(iter.next(), Some(&9));
    assert_eq!(iter.next(), None);

    let row = g.iter_row(2).unwrap();
    let mut iter = row.iter();
    assert_eq!(iter.next(), Some(&1));
    assert_eq!(iter.next(), None);

    let row = g.iter_row(3).unwrap();
    let mut iter = row.iter();
    assert_eq!(iter.next(), Some(&7));
    assert_eq!(iter.next(), Some(&6));
    assert_eq!(iter.next(), Some(&2));
    assert_eq!(iter.next(), Some(&8));
    assert_eq!(iter.next(), None);
}

#[test]
fn test_row_iterator_out_of_bounds() {
    let g = init();
    assert_eq!(g.iter_row(10), Err(GridError::RowOutOfBounds { index: 10, rows: 4 }));
}

#[test]
fn test_init_filled() {
    let g = DynamicGrid::init(2, 3, 7);
    assert_eq!(g.rows(), 2);
    assert_eq!(g.row_size(0), Some(3));
    assert_eq!(g.row_size(1), Some(3));
    assert_eq!(g.iter(), vec![7, 7, 7, 7, 7, 7]);
    assert_eq!(g.get(1, 2), Some(&7));
    assert_eq!(g.get(2, 0), None);
}

#[test]
fn test_init_zero_columns() {
    let g = DynamicGrid::init(3, 0, 1);
    assert_eq!(g.rows(), 3);
    assert_eq!(g.row_size(0), Some(0));
    assert_eq!(g.row_size(2), Some(0));
    assert_eq!(g.iter(), Vec::<i32>::new());
}

#[test]
fn test_push_on_empty_grid_faults() {
    let mut g: DynamicGrid<i32> = DynamicGrid::new();
    assert_eq!(g.push(1), Err(GridError::NoRows));
    assert_eq!(g.rows(), 0);
}

#[test]
fn test_insert_shifts_later_rows() {
    let mut g = init();
    assert_eq!(g.insert(2, 1, 99), Ok(()));
    assert_eq!(g.row_size(2), Some(2));
    assert_eq!(g.iter_row(2).unwrap(), vec![1, 99]);
    assert_eq!(g.get(3, 0), Some(&7));
    assert_eq!(g.get(3, 1), Some(&6));
    assert_eq!(g.get(3, 2), Some(&2));
    assert_eq!(g.get(3, 3), Some(&8));
    assert_eq!(g.row_size(3), Some(4));
    // Row 3's first element moved from flat position 6 to flat position 7.
    assert_eq!(g.iter(), vec![10, 5, 4, 3, 9, 1, 99, 7, 6, 2, 8]);
}

#[test]
fn test_swap_changes_nothing_else() {
    let mut g = init();
    assert_eq!(g.swap((0, 1), (3, 2)), Ok(()));
    assert_eq!(g.get(0, 1), Some(&2));
    assert_eq!(g.get(3, 2), Some(&5));
    assert_eq!(g.iter(), vec![10, 2, 4, 3, 9, 1, 7, 6, 5, 8]);
    assert_eq!(g.row_size(0), Some(3));
    assert_eq!(g.row_size(3), Some(4));
}

#[test]
fn test_remove_row_shifts_up() {
    let mut g = init();
    g.remove_row(0);
    assert_eq!(g.rows(), 3);
    assert_eq!(g.iter_row(0).unwrap(), vec![3, 9]);
    assert_eq!(g.iter(), vec![3, 9, 1, 7, 6, 2, 8]);
}

#[test]
fn test_bounds_contract() {
    let mut g = init();
    // Absence, never a fault:
    assert_eq!(g.get(4, 0), None);
    assert_eq!(g.get(100, 3), None);
    assert_eq!(g.get(0, 3), None);
    assert_eq!(g.get(2, 1), None);
    // Contract violations fault, and the grid stays as it was:
    assert_eq!(
        g.insert(4, 0, 1),
        Err(GridError::RowOutOfBounds { index: 4, rows: 4 })
    );
    assert_eq!(
        g.insert(0, 4, 1),
        Err(GridError::ColumnOutOfBounds { index: 4, size: 3 })
    );
    assert_eq!(
        g.swap((9, 0), (0, 0)),
        Err(GridError::RowOutOfBounds { index: 9, rows: 4 })
    );
    assert_eq!(
        g.swap((0, 0), (9, 0)),
        Err(GridError::RowOutOfBounds { index: 9, rows: 4 })
    );
    assert_eq!(
        g.swap((0, 9), (1, 0)),
        Err(GridError::ColumnOutOfBounds { index: 9, size: 3 })
    );
    assert_eq!(
        g.swap((0, 0), (1, 9)),
        Err(GridError::ColumnOutOfBounds { index: 9, size: 2 })
    );
    assert_eq!(
        g.iter_row(4),
        Err(GridError::RowOutOfBounds { index: 4, rows: 4 })
    );
    assert_eq!(g.iter(), vec![10, 5, 4, 3, 9, 1, 7, 6, 2, 8]);
}

#[test]
fn test_push_then_fetch() {
    let mut g = init();
    assert_eq!(g.push(11), Ok((3, 4)));
    assert_eq!(g.get(3, 4), Some(&11));
}

#[test]
fn test_round_trip() {
    let rows = vec![vec![10, 5, 4], vec![3, 9], vec![1], vec![7, 6, 2, 8]];
    let g = DynamicGrid::from_vec(rows.clone());
    assert_eq!(g.rows(), rows.len());
    for (i, row) in rows.iter().enumerate() {
        assert_eq!(g.row_size(i), Some(row.len()));
        for (j, value) in row.iter().enumerate() {
            assert_eq!(g.get(i, j), Some(value));
        }
    }
}

#[test]
fn test_replace() {
    let mut g = init();
    assert_eq!(g.replace(1, 1, 42), Some(9));
    assert_eq!(g.get(1, 1), Some(&42));
    assert_eq!(g.replace(5, 0, 1), None);
    assert_eq!(g.replace(1, 2, 1), None);
    assert_eq!(g.iter(), vec![10, 5, 4, 3, 42, 1, 7, 6, 2, 8]);
}

#[test]
fn test_remove_keeps_emptied_row() {
    let mut g = DynamicGrid::from_vec(vec![vec![1]]);
    g.remove();
    assert_eq!(g.rows(), 1);
    assert_eq!(g.row_size(0), Some(0));
    // Removing from a grid with no elements does nothing.
    g.remove();
    assert_eq!(g.rows(), 1);
    // The emptied row is still the last row, so push lands in it.
    assert_eq!(g.push(2), Ok((0, 0)));
    assert_eq!(g.get(0, 0), Some(&2));
}

#[test]
fn test_remove_skips_trailing_empty_rows() {
    let mut g = DynamicGrid::from_vec(vec![vec![1, 2], vec![]]);
    g.remove();
    assert_eq!(g.rows(), 2);
    assert_eq!(g.row_size(0), Some(1));
    assert_eq!(g.row_size(1), Some(0));
    assert_eq!(g.get(0, 0), Some(&1));
}

#[test]
fn test_from_vec_with_empty_rows() {
    let g = DynamicGrid::from_vec(vec![vec![], vec![5], vec![]]);
    assert_eq!(g.rows(), 3);
    assert_eq!(g.row_size(0), Some(0));
    assert_eq!(g.row_size(1), Some(1));
    assert_eq!(g.row_size(2), Some(0));
    assert_eq!(g.get(1, 0), Some(&5));
    assert_eq!(g.iter(), vec![5]);
}

#[test]
fn test_remove_row_without_elements_is_noop() {
    let mut g: DynamicGrid<i32> = DynamicGrid::from_vec(vec![vec![], vec![]]);
    g.remove_row(0);
    assert_eq!(g.rows(), 2);
    g.remove_row(7);
    assert_eq!(g.rows(), 2);
}

#[test]
fn test_default_is_empty() {
    let g: DynamicGrid<i32> = DynamicGrid::default();
    assert_eq!(g.rows(), 0);
    assert_eq!(g.iter(), Vec::<i32>::new());
}
