use rmr::grid::Grid;

fn make_grid() -> Grid<isize> {
    Grid::new(vec![vec![0, 1, 2], vec![3, 4, 5], vec![6, 7, 8]])
}

fn cells(grid: &Grid<isize>) -> Vec<Vec<isize>> {
    (0..grid.height())
        .map(|y| (0..grid.width()).map(|x| *grid.get(x, y)).collect())
        .collect()
}

#[test]
fn grid_rotate_twice_gives_the_grid_back() {
    let mut grid = Grid::new(vec![vec![0, 1, 2], vec![3, 4, 5]]);
    let token = grid.make_token(2, 1);
    let before = cells(&grid);

    grid.rotate();
    assert_eq!(2, grid.width());
    assert_eq!(3, grid.height());
    assert!(grid.is_rotated());
    assert_eq!(vec![vec![0, 3], vec![1, 4], vec![2, 5]], cells(&grid));
    assert_eq!(Some((1, 2)), grid.downgrade(&token));

    grid.rotate();
    assert_eq!(3, grid.width());
    assert_eq!(2, grid.height());
    assert!(!grid.is_rotated());
    assert_eq!(before, cells(&grid));
    assert_eq!(Some((2, 1)), grid.downgrade(&token));
}

#[test]
fn grid_add_then_remove_last_column_restores_the_grid() {
    for rotated in [false, true] {
        let mut grid = Grid::new(vec![vec![0, 1, 2], vec![3, 4, 5]]);
        if rotated {
            grid.rotate();
        }
        let width = grid.width();
        let before = cells(&grid);
        let token = grid.make_token(width - 1, 1);

        grid.add_last_column();
        assert_eq!(width + 1, grid.width());
        assert_eq!(Some((width - 1, 1)), grid.downgrade(&token));
        grid.remove_last_column();

        assert_eq!(width, grid.width());
        assert_eq!(before, cells(&grid));
        assert_eq!(Some((width - 1, 1)), grid.downgrade(&token));
    }
}

#[test]
fn grid_token_dies_with_its_column() {
    let mut grid = make_grid();
    let kept = grid.make_token(1, 1);
    let dropped = grid.make_token(2, 1);
    grid.remove_last_column();
    assert_eq!(Some(&4), grid.trade(kept));
    assert!(grid.trade(dropped).is_none());
    assert!(grid.downgrade(&dropped).is_none());
    // A new column does not bring the content back.
    grid.add_last_column();
    assert!(grid.trade(dropped).is_none());
    assert_eq!(&4, grid.get(2, 1));
}

#[test]
fn grid_token_is_replaced_by_a_later_one() {
    let mut grid = make_grid();
    let first = grid.make_token(1, 2);
    let second = grid.make_token(1, 2);
    assert!(grid.trade(first).is_none());
    assert_eq!(Some(&7), grid.trade(second));
}

#[test]
fn grid_token_follows_its_content() {
    let mut grid = make_grid();
    let token = grid.make_token(2, 0);
    grid.shift_row_left_from_point(0, 0);
    assert_eq!(Some((1, 0)), grid.downgrade(&token));
    grid.shift_row_left_from_point(0, 0);
    assert_eq!(Some((0, 0)), grid.downgrade(&token));
    assert_eq!(Some(&2), grid.trade(token));
    // Now the content itself is overwritten, by a copy of its neighbour.
    grid.shift_row_left_from_point(0, 0);
    assert!(grid.downgrade(&token).is_none());
    assert_eq!(&2, grid.get(0, 0));
}

#[test]
fn grid_token_follows_its_content_in_a_rotated_grid() {
    let mut grid = make_grid();
    grid.rotate();
    let token = grid.make_token(0, 1);
    assert_eq!(Some(&1), grid.trade(token));
    grid.shift_row_right_from_point(0, 1);
    assert_eq!(Some((1, 1)), grid.downgrade(&token));
    grid.rotate();
    assert_eq!(Some((1, 1)), grid.downgrade(&token));
    assert_eq!(Some(&1), grid.trade(token));
    assert_eq!(vec![vec![0, 1, 2], vec![3, 1, 5], vec![6, 4, 8]], cells(&grid));
}

#[test]
fn grid_trade_mut_changes_the_content() {
    let mut grid = make_grid();
    let token = grid.make_token(1, 0);
    *grid.trade_mut(token).unwrap() = 10;
    grid.shift_row_left_from_point(0, 0);
    assert_eq!(&10, grid.get(0, 0));
    assert_eq!(Some(&10), grid.trade(token));
}

#[test]
fn grid_adjacent_tokens_wrap_around() {
    let mut grid = make_grid();
    let [left, right, up, down] = grid.make_adjacent_tokens(0, 0);
    assert_eq!(Some((2, 0)), grid.downgrade(&left));
    assert_eq!(Some((1, 0)), grid.downgrade(&right));
    assert_eq!(Some((0, 2)), grid.downgrade(&up));
    assert_eq!(Some((0, 1)), grid.downgrade(&down));
    assert_eq!(Some((&8, &7, &3, &0)), grid.get_token_adjacent(&up));
}

#[test]
fn grid_adjacent_tokens_of_a_lone_cell() {
    let mut grid = Grid::new(vec![vec![5]]);
    let [left, right, up, down] = grid.make_adjacent_tokens(0, 0);
    // All four neighbours are the cell itself; the token made last stays.
    assert!(grid.downgrade(&left).is_none());
    assert!(grid.downgrade(&right).is_none());
    assert!(grid.downgrade(&up).is_none());
    assert_eq!(Some((0, 0)), grid.downgrade(&down));
    assert_eq!(Some((&5, &5, &5, &5)), grid.get_token_adjacent(&down));
}

#[test]
fn grid_clone_has_no_tokens() {
    let mut grid = make_grid();
    let token = grid.make_token(1, 1);
    let mut copy = grid.clone();
    assert_eq!(cells(&grid), cells(&copy));
    assert!(copy.trade(token).is_none());

    copy.shift_row_left_from_point(0, 1);
    assert_eq!(Some((1, 1)), grid.downgrade(&token));
    assert_eq!(&4, grid.get(1, 1));
    assert_eq!(&5, copy.get(1, 1));
}

#[test]
fn grid_without_rows_is_empty() {
    let grid: Grid<isize> = Grid::new(vec![]);
    assert_eq!(0, grid.width());
    assert_eq!(0, grid.height());
    assert!(grid.iter().is_empty());
    assert!(grid.coord_iter().is_empty());
}

#[test]
fn grid_parents_outside_are_none() {
    let grid = make_grid();
    assert_eq!([None, None, None], grid.get_parents(7, 2));
    assert_eq!([None, None, None], grid.get_parents(1, 4));
    // One column right of the grid, only the left parent exists.
    assert_eq!([Some(&2), None, None], grid.get_parents(3, 1));
    // The row below the grid has the last row as its parents.
    assert_eq!([Some(&6), Some(&7), Some(&8)], grid.get_parents(1, 3));
    assert_eq!(vec![((2, 0), &2)], grid.get_parents_indexed(3, 1));
    assert!(grid.get_parents_indexed(4, 1).is_empty());
}

#[test]
fn grid_iter_mut_changes_the_cells() {
    let mut grid = make_grid();
    grid.rotate();
    for (place, value) in grid.iter_mut().into_iter().enumerate() {
        *value += 10 * place as isize;
    }
    assert_eq!(vec![vec![0, 13, 26], vec![31, 44, 57], vec![62, 75, 88]], cells(&grid));
    grid.rotate();
    assert_eq!(vec![vec![0, 31, 62], vec![13, 44, 75], vec![26, 57, 88]], cells(&grid));
}

#[test]
fn grid_coord_iter_mut_changes_the_cells() {
    let mut grid = Grid::new(vec![vec![0, 0, 0], vec![0, 0, 0]]);
    grid.rotate();
    for (x, y, value) in grid.coord_iter_mut() {
        *value = (10 * y + x) as isize;
    }
    grid.rotate();
    assert_eq!(vec![vec![0, 1, 2], vec![10, 11, 12]], cells(&grid));
}
