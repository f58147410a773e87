use galaxies::board::Board;
use galaxies::border::Border;
use galaxies::objective::{GalaxyCenter, InvalidInput, Objective};
use galaxies::position::Position;
use galaxies::solver::Solver;

fn test_should_solve_example(objective: &str, expected_solution_str: &str) {
    let objective = Objective::from_string(objective);
    let expected_solution = Board::from_string(expected_solution_str);
    let actual_solution = Solver::new(
        expected_solution.get_width(),
        expected_solution.get_height(),
        &objective,
    )
    .unwrap()
    .solve()
    .map(|it| Board::from_iter(&it.borders.to_vec()))
    .unwrap();
    assert_eq!(
        actual_solution,
        expected_solution,
        "expected \n{}\nbut was \n{}",
        actual_solution.to_string(),
        expected_solution.to_string()
    );
}

const SMALL_OBJECTIVE: &str = "┌───┬───┬───┬───┐\n│             ● │\n├   ·   · ● ·   ┤\n│               │\n├ ● ·   ·   ·   ┤\n│     ●         │\n├   ·   ·   ●   ┤\n│               │\n└───┴───┴───┴───┘";
const SMALL_SOLUTION: &str = "┌─┬───┬─┐\n│ ├─┐ └─┤\n│ │ ├───┤\n│ │ │   │\n└─┴─┴───┘";
const LARGE_OBJECTIVE: &str = "┌───┬───┬───┬───┬───┬───┬───┬───┬───┬───┐\n│         ●           ●   ●           ● │\n├   ·   ·   ·   ·   ·   ·   ·   ●   ·   ┤\n│ ●           ●       ●                 │\n├   ·   ·   ·   ·   ·   ·   ·   ·   ·   ┤\n│ ●                                     │\n├   ·   ●   ·   · ● ·   ·   ·   ·   ·   ┤\n│                                 ●     │\n├   ·   ·   ·   ·   ·   ·   ·   ·   ·   ┤\n│               ●                       │\n├   ·   ·   ·   ·   ·   ·   ·   ·   ·   ┤\n│                   ●               ●   │\n├   ●   ·   ·   ·   ·   ·   ·   ·   ·   ┤\n│         ●           ●                 │\n├   ·   ·   ·   ·   ·   ·   ·   ·   ·   ┤\n│                       ●               │\n├   ·   ·   ·   ·   ·   ·   ·   · ● ·   ┤\n│       ●                 ●             │\n├   ·   ·   ·   ·   ·   ·   ·   ·   ·   ┤\n│ ●       ●       ●       ●       ●   ● │\n└───┴───┴───┴───┴───┴───┴───┴───┴───┴───┘";
const LARGE_SOLUTION: &str = "┌───┬─┬───┬─┬─┬───┬─┐\n├─┐ └─┼─┐ └─┴─┤   ├─┤\n├─┤   └─┼───┐ └─┬─┘ │\n├─┘   ┌─┘ ┌─┴─┬─┘   │\n├─┐   ├───┤   │   ┌─┤\n│ └─┐ └─┬─┘ ┌─┤ ┌─┘ │\n│   ├─┬─┘ ┌─┤ └─┤ ┌─┤\n├─┐ ├─┤   ├─┘ ┌─┴─┘ │\n│ └─┘ └─┬─┘ ┌─┤     │\n├─┐ ┌─┐ ├─┐ ├─┤ ┌─┬─┤\n└─┴─┴─┴─┴─┴─┴─┴─┴─┴─┘";

#[test]
fn should_successfully_solve_examples() {
    test_should_solve_example(SMALL_OBJECTIVE, SMALL_SOLUTION);
    test_should_solve_example(LARGE_OBJECTIVE, LARGE_SOLUTION);
}

#[test]
fn should_successfully_mirror_borders() {
    let mut solver = Solver::new(
        3,
        4,
        &Objective::from_parts(
            &vec![
                GalaxyCenter::from(Position::new(2, 2)),
                GalaxyCenter::from(Position::new(4, 2)),
            ],
            &vec![],
        ),
    )
    .unwrap();

    let _ = solver.solve();
}

#[test]
fn four_by_four_puzzle_has_the_given_centers_and_walls() {
    let objective = Objective::from_string(SMALL_OBJECTIVE);
    let positions: Vec<Position> = objective
        .get_centers()
        .iter()
        .map(|center| center.position)
        .collect();
    assert_eq!(
        positions,
        vec![
            Position::new(0, 6),
            Position::new(1, 4),
            Position::new(3, 0),
            Position::new(4, 2),
            Position::new(5, 5),
        ]
    );
    let mut solver = Solver::new(4, 4, &objective).unwrap();
    let solution = solver.solve().unwrap();
    let board = Board::from_iter(&solution.borders.to_vec());
    assert_eq!(
        board.to_string(),
        "┌─┬───┬─┐\n│ ├─┐ └─┤\n│ │ ├───┤\n│ │ │   │\n└─┴─┴───┘"
    );
}

#[test]
fn ten_by_ten_puzzle_round_trips_through_text() {
    let objective = Objective::from_string(LARGE_OBJECTIVE);
    assert_eq!(objective.get_centers().len(), LARGE_OBJECTIVE.matches('●').count());
    let mut solver = Solver::new(10, 10, &objective).unwrap();
    let solution = solver.solve().unwrap();
    let board = Board::from_iter(&solution.borders.to_vec());
    assert_eq!(board.to_string(), LARGE_SOLUTION);
    assert_eq!(Board::from_string(&board.to_string()), board);
    assert!(board.compute_error(&objective).unwrap().is_error_free());
}

#[test]
fn solver_starts_from_frame_and_centers() {
    let objective = Objective::from_parts(
        &vec![
            GalaxyCenter::from(Position::new(0, 1)),
            GalaxyCenter::from(Position::new(2, 1)),
        ],
        &vec![],
    );
    let solver = Solver::new(2, 2, &objective).unwrap();
    assert_eq!(solver.get_width(), 2);
    assert_eq!(solver.get_height(), 2);
    assert_eq!(solver.get_borders().len(), 8);
    assert_eq!(solver.get_possible(&Position::new(0, 0)), vec![0]);
    assert_eq!(solver.get_possible(&Position::new(1, 1)), vec![1]);
    assert_eq!(solver.certain_id(&Position::new(1, 0)), Some(1));
    assert_eq!(
        solver.get_cells_with_certain_galaxy_id(),
        vec![
            (Position::new(0, 0), 0),
            (Position::new(0, 1), 0),
            (Position::new(1, 0), 1),
            (Position::new(1, 1), 1),
        ]
    );
}

#[test]
fn rules_narrow_step_by_step() {
    // two centers on a 1 x 3 strip: the middle cell may belong to either at first
    let objective = Objective::from_parts(
        &vec![
            GalaxyCenter::from(Position::new(0, 0)),
            GalaxyCenter::from(Position::new(0, 3)),
        ],
        &vec![],
    );
    let mut solver = Solver::new(3, 1, &objective).unwrap();
    assert_eq!(solver.get_possible(&Position::new(0, 0)), vec![0]);
    assert_eq!(solver.get_possible(&Position::new(0, 1)), vec![1]);
    assert_eq!(solver.add_borders_between_known_galaxies(), Ok(true));
    assert_eq!(solver.add_borders_between_known_galaxies(), Ok(false));
    assert_eq!(
        solver.get_border(&Border::right(Position::new(0, 0))),
        Some(true)
    );
    assert_eq!(
        solver.get_border(&Border::right(Position::new(0, 1))),
        Some(false)
    );
    assert_eq!(solver.mirror_borders(), Ok(false));
    assert_eq!(solver.exclude_unreachable_galaxies(), Ok(false));
    assert_eq!(solver.remove_impossible_galaxy_mirrors(), Ok(false));
    assert_eq!(solver.assume_galaxy(), Ok(false));
}

#[test]
fn unreachable_and_unmirrored_galaxies_are_ruled_out() {
    // a center in the first cell of a 1 x 3 strip, and one in the last
    let objective = Objective::from_parts(
        &vec![
            GalaxyCenter::from(Position::new(0, 0)),
            GalaxyCenter::from(Position::new(0, 4)),
        ],
        &vec![],
    );
    let mut solver = Solver::new(3, 1, &objective).unwrap();
    assert_eq!(solver.get_possible(&Position::new(0, 1)), vec![0, 1]);
    // the mirror of the middle cell lies outside the grid for both centers
    assert!(solver.remove_impossible_galaxy_mirrors().is_err());
    let mut again = Solver::new(3, 1, &objective).unwrap();
    assert!(again.solve().is_err());
}

#[test]
fn a_wall_cuts_a_galaxy_off() {
    let wall = Border::right(Position::new(0, 0));
    let objective = Objective::from_parts(
        &vec![GalaxyCenter::from(Position::new(0, 2))],
        &vec![wall],
    );
    let mut solver = Solver::new(3, 1, &objective).unwrap();
    // the cell left of the wall cannot be reached from the center
    assert!(solver.exclude_unreachable_galaxies().is_err());
}

#[test]
fn objectives_that_do_not_fit_are_refused() {
    let centered = Objective::from_parts(&vec![GalaxyCenter::from(Position::new(1, 1))], &vec![]);
    assert_eq!(
        Solver::new(0, 3, &centered).err(),
        Some(InvalidInput::EmptyGrid)
    );
    assert_eq!(
        Solver::new(1, 1, &centered).err(),
        Some(InvalidInput::CenterOutOfBounds)
    );
    assert!(Solver::new(2, 2, &centered).is_ok());
    let crowded = Objective::from_parts(
        &vec![
            GalaxyCenter::from(Position::new(1, 1)),
            GalaxyCenter::from(Position::new(0, 0)),
        ],
        &vec![],
    );
    assert_eq!(
        Solver::new(2, 2, &crowded).err(),
        Some(InvalidInput::OverlappingCenters)
    );
    assert_eq!(crowded.check(2, 2), Err(InvalidInput::OverlappingCenters));
    assert!(crowded.fits(2, 2));
    assert!(!crowded.fits(1, 1));
}
