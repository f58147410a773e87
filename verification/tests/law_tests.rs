use galaxies::board::Board;
use galaxies::laws::{board_of, solve_generated};
use galaxies::objective::Objective;
use galaxies::position::Position;
use galaxies::universe::Universe;
use rand::rngs::StdRng;
use rand::SeedableRng;

fn grown(width: usize, height: usize, seed: u64) -> Universe {
    let mut rng = StdRng::seed_from_u64(seed);
    Universe::generate_with(width, height, &mut rng, |next, best| {
        next.get_galaxies().len() <= best.get_galaxies().len()
    })
}

fn every_cell_is_known(solver: &galaxies::solver::Solver) -> bool {
    (0..solver.get_height()).all(|row| {
        (0..solver.get_width())
            .all(|column| solver.certain_id(&Position::at(row, column)).is_some())
    })
}

#[test]
fn walls_of_a_universe_have_no_errors() {
    for seed in 0..4u64 {
        let universe = grown(5, 4, seed);
        let board = board_of(&universe);
        assert_eq!(board.to_string(), universe.render());
        let objective = Objective::generate(&universe);
        let error = board.compute_error(&objective).unwrap();
        assert!(error.is_error_free());
    }
}

#[test]
fn solver_finds_only_walls_of_the_universe() {
    for seed in 0..4u64 {
        let universe = grown(4, 4, seed);
        let expected = board_of(&universe).get_interior_borders();
        let (solution, solver) = solve_generated(&universe).unwrap();
        assert_eq!(solution.borders, solver.get_borders());
        let found =
            Board::with_walls(4, 4, &solution.borders.to_vec()).get_interior_borders();
        for wall in &found {
            assert!(expected.contains(wall));
        }
        if every_cell_is_known(&solver) {
            assert_eq!(found, expected);
        }
    }
}

#[test]
fn solver_finds_all_walls_of_the_only_solution() {
    let mut universe = Universe::new(2, 2);
    universe.join(&Position::new(0, 0), &Position::new(0, 1));
    universe.join(&Position::new(1, 0), &Position::new(1, 1));
    assert_eq!(universe.render(), "┌───┐\n├───┤\n└───┘");
    let (solution, solver) = solve_generated(&universe).unwrap();
    assert!(every_cell_is_known(&solver));
    assert_eq!(solver.certain_id(&Position::new(0, 1)), Some(0));
    assert_eq!(solver.certain_id(&Position::new(1, 0)), Some(1));
    let found = Board::with_walls(2, 2, &solution.borders.to_vec());
    assert_eq!(found.to_string(), universe.render());
}

#[test]
fn solver_leaves_open_what_has_two_solutions() {
    // three rows of three cells; the same centers fit an H between two single cells
    let mut universe = Universe::new(3, 3);
    for row in 0..3 {
        universe.join(&Position::new(row, 1), &Position::new(row, 0));
        universe.join(&Position::new(row, 1), &Position::new(row, 2));
    }
    assert!(universe.is_valid());
    assert_eq!(universe.render(), "┌─────┐\n├─────┤\n├─────┤\n└─────┘");
    let expected = board_of(&universe).get_interior_borders();
    let (solution, solver) = solve_generated(&universe).unwrap();
    assert!(!every_cell_is_known(&solver));
    assert_eq!(solver.get_possible(&Position::new(0, 0)), vec![0, 1]);
    assert_eq!(solver.get_possible(&Position::new(1, 0)), vec![1]);
    let found = Board::with_walls(3, 3, &solution.borders.to_vec()).get_interior_borders();
    assert!(found.len() < expected.len());
    for wall in &found {
        assert!(expected.contains(wall));
    }
}
