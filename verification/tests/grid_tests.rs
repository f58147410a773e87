use galaxies::grid::Grid;
use galaxies::position::Position;

#[test]
fn test_grid_iter() {
    let mut grid = Grid::new(2, 2, 0);
    grid.set(&Position::new(0, 0), 1);
    grid.set(&Position::new(0, 1), 2);
    grid.set(&Position::new(1, 0), 3);
    grid.set(&Position::new(1, 1), 4);

    let items: Vec<(Position, i32)> = grid.iter();
    assert_eq!(items.len(), 4);
    assert_eq!(items[0], (Position::new(0, 0), 1));
    assert_eq!(items[1], (Position::new(0, 1), 2));
    assert_eq!(items[2], (Position::new(1, 0), 3));
    assert_eq!(items[3], (Position::new(1, 1), 4));
}

#[test]
fn test_grid_iter_mut() {
    let mut grid = Grid::new(2, 2, 0);
    grid.iter_mut(|_pos, val| val + 1);
    assert_eq!(grid.get(&Position::new(0, 0)), 1);
    assert_eq!(grid.get(&Position::new(1, 1)), 1);
}

#[test]
fn grid_has_its_size() {
    let grid = Grid::new(3, 2, 'x');
    assert_eq!(grid.width(), 3);
    assert_eq!(grid.height(), 2);
    let empty = Grid::new(3, 0, 'x');
    assert_eq!(empty.width(), 0);
    assert_eq!(empty.height(), 0);
    assert!(empty.iter().is_empty());
}
