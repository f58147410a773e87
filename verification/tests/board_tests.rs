use galaxies::board::Board;
use galaxies::border::Border;
use galaxies::position::Position;

#[test]
fn empty_board_should_return_one_galaxy() {
    let board = Board::new(1, 1);
    let galaxies = board.get_galaxies();
    assert_eq!(galaxies.len(), 1);
    assert_eq!(galaxies[0].size(), 1);
}

#[test]
fn empty_board_should_be_empty_string() {
    let board = Board::new(0, 0);
    assert_eq!(board.to_string(), "");
}

#[test]
fn varous_boards_with_only_frames() {
    assert_eq!(Board::new(1, 1).to_string(), "┌─┐\n└─┘");
    assert_eq!(Board::new(2, 1).to_string(), "┌───┐\n└───┘");
    assert_eq!(Board::new(1, 2).to_string(), "┌─┐\n│ │\n└─┘");
    assert_eq!(Board::new(2, 2).to_string(), "┌───┐\n│   │\n└───┘");
    assert_eq!(
        Board::new(3, 3).to_string(),
        "┌─────┐\n│     │\n│     │\n└─────┘"
    );
}

const TEN_BY_TEN: &str = "┌───┬─┬───┬─┬─┬───┬─┐
├─┐ └─┼─┐ └─┴─┤   ├─┤
├─┤   └─┼───┐ └─┬─┘ │
├─┘   ┌─┘ ┌─┴─┬─┘   │
├─┐   ├───┤   │   ┌─┤
│ └─┐ └─┬─┘ ╷ │ ┌─┘ │
│   ├─┬─┘ ╶─┘ └─┤ ┌─┤
├─┐ ├─┤   ┌─╴ ┌─┴─┘ │
│ └─┘ └─┐ ╵ ┌─┤     │
├─┐ ┌─┐ ├─┐ ├─┤ ┌─┬─┤
└─┴─┴─┴─┴─┴─┴─┴─┴─┴─┘";

#[test]
fn from_and_to_string_should_return_same_board() {
    let string = TEN_BY_TEN;
    assert_eq!(Board::from_string(string).to_string(), string);
}

#[test]
fn board_read_from_its_drawing_is_the_same_board() {
    let mut board = Board::new(4, 3);
    board.add_wall(Position::new(0, 0), Position::new(0, 1));
    board.add_wall(Position::new(1, 1), Position::new(2, 1));
    board.add_wall(Position::new(2, 3), Position::new(2, 2));
    let read = Board::from_string(&board.to_string());
    assert_eq!(read, board);
    assert_eq!(read.get_width(), 4);
    assert_eq!(read.get_height(), 3);
}

#[test]
fn height_is_the_number_of_rows() {
    let board = Board::new(5, 2);
    assert_eq!(board.get_width(), 5);
    assert_eq!(board.get_height(), 2);
}

#[test]
fn walls_are_set_taken_away_and_toggled() {
    let mut board = Board::new(2, 2);
    let a = Position::new(0, 0);
    let b = Position::new(0, 1);
    assert!(!board.is_wall(a, b));
    assert!(board.add_wall(a, b));
    assert!(!board.add_wall(b, a));
    assert!(board.is_wall(b, a));
    assert!(board.is_active(&Border::new(a, b)));
    assert!(!board.toggle_wall(a, b));
    assert!(!board.is_wall(a, b));
    assert!(board.toggle_wall(a, b));
    assert!(board.remove_wall(a, b));
    assert!(!board.remove_wall(a, b));
    assert_eq!(board, Board::new(2, 2));
}

#[test]
fn borders_outside_the_board_are_not_set_by_add_border() {
    let mut board = Board::new(2, 2);
    let frame = Border::left(Position::new(0, 0));
    board.remove_border(&frame);
    assert!(board.is_active(&frame));
    let inner = Border::right(Position::new(1, 0));
    board.add_border(inner);
    assert!(board.is_active(&inner));
    assert_eq!(board.get_interior_borders(), vec![inner]);
    board.remove_border(&inner);
    assert!(!board.is_active(&inner));
    assert_eq!(board.get_borders().len(), 8);
}

#[test]
fn a_wall_parts_the_board_into_regions() {
    let mut board = Board::new(2, 1);
    board.add_wall(Position::new(0, 0), Position::new(0, 1));
    let galaxies = board.get_galaxies();
    assert_eq!(galaxies.len(), 2);
    assert_eq!(galaxies[0].get_positions(), vec![Position::new(0, 0)]);
    assert_eq!(galaxies[1].get_positions(), vec![Position::new(0, 1)]);
    assert_eq!(
        board.region_of(&Position::new(0, 1)).get_positions(),
        vec![Position::new(0, 1)]
    );
}

#[test]
fn border_matrices_show_the_interior_walls() {
    let mut board = Board::new(3, 2);
    board.add_wall(Position::new(0, 0), Position::new(0, 1));
    board.add_wall(Position::new(0, 2), Position::new(1, 2));
    assert_eq!(
        board.get_vertical_borders(),
        vec![vec![true, false], vec![false, false]]
    );
    assert_eq!(board.get_horizontal_borders(), vec![vec![false, false, true]]);
}

#[test]
fn a_wall_that_ends_nowhere_dangles() {
    let mut board = Board::new(3, 3);
    board.add_wall(Position::new(1, 0), Position::new(1, 1));
    let loose = Border::new(Position::new(1, 0), Position::new(1, 1));
    assert!(board.is_dangling(&loose));
    assert_eq!(board.get_dangling_borders(), vec![loose]);
    board.add_wall(Position::new(0, 0), Position::new(0, 1));
    board.add_wall(Position::new(2, 0), Position::new(2, 1));
    assert!(!board.is_dangling(&loose));
    assert!(board.get_dangling_borders().is_empty());
}
