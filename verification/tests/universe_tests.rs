use galaxies::border::Border;
use galaxies::galaxy::Galaxy;
use galaxies::position::Position;
use galaxies::straight::stretch_lengths;
use galaxies::universe::Universe;
use rand::rngs::StdRng;
use rand::SeedableRng;

fn cells(positions: &[(i32, i32)]) -> Vec<Position> {
    positions.iter().map(|&(r, c)| Position::new(r, c)).collect()
}

#[test]
fn new_universe_is_all_single_cells() {
    let universe = Universe::new(3, 2);
    assert_eq!(universe.get_width(), 3);
    assert_eq!(universe.get_height(), 2);
    assert_eq!(universe.get_ids(), vec![0, 1, 2, 3, 4, 5]);
    assert_eq!(universe.get_max_id(), 5);
    assert_eq!(universe.get_next_available_id(), 6);
    assert_eq!(universe.get_galaxies().len(), 6);
    assert!(universe.is_valid());
    assert_eq!(universe.get_positions().len(), 6);
    assert_eq!(
        universe.get_entries()[4],
        (Position::new(1, 1), 4)
    );
    assert_eq!(universe.render(), "┌─┬─┬─┐\n├─┼─┼─┤\n└─┴─┴─┘");
}

#[test]
fn cells_join_and_leave_galaxies() {
    let mut universe = Universe::new(2, 2);
    let a = Position::new(0, 0);
    let b = Position::new(0, 1);
    let c = Position::new(1, 0);
    assert!(!universe.are_neighbours(&a, &b));
    universe.make_neighbours(&a, &b);
    assert!(universe.are_neighbours(&a, &b));
    assert_eq!(universe.get_id(&b), 0);
    assert_eq!(universe.get_galaxy(&b).get_positions(), cells(&[(0, 0), (0, 1)]));
    assert_eq!(universe.get_neighbours(&a), vec![b]);
    assert_eq!(universe.get_adjacent_non_neighbours(&a), vec![c]);
    assert_eq!(universe.adjacent_non_neighbours(&a), vec![c]);
    assert_eq!(
        universe.adjacent_non_neighbours(&Position::new(1, 1)),
        vec![b, c]
    );
    assert_eq!(universe.adjacent_positions(&a), vec![c, b]);
    // the least free identifier is the one that `b` gave up
    assert_eq!(universe.get_next_available_id(), 1);
    universe.remove_all_neighbours(&b);
    assert_eq!(universe.get_id(&b), 1);
    assert!(!universe.are_neighbours(&a, &b));
    assert!(universe.is_inside(&c));
    assert!(universe.is_outside(&Position::new(2, 0)));
    assert!(!universe.are_neighbours(&a, &Position::new(-1, 0)));
    assert_eq!(universe.render(), "┌─┬─┐\n├─┼─┤\n└─┴─┘");
}

#[test]
fn asymmetric_rest_loses_the_mirror_too() {
    // a row of three cells loses its first cell: the last one goes with it
    let mut universe = Universe::new(3, 1);
    universe.make_neighbours(&Position::new(0, 0), &Position::new(0, 1));
    universe.make_neighbours(&Position::new(0, 0), &Position::new(0, 2));
    let galaxy = universe.get_galaxy(&Position::new(0, 0));
    // take the middle cell out: what is left is not connected and is broken up
    universe.remove_positions_from_galaxy(&galaxy, &cells(&[(0, 1)]));
    assert!(universe.is_valid());
    assert_eq!(universe.get_galaxies().len(), 3);
}

#[test]
fn removing_an_end_keeps_a_symmetric_rest() {
    let mut universe = Universe::new(3, 1);
    universe.make_neighbours(&Position::new(0, 0), &Position::new(0, 1));
    universe.make_neighbours(&Position::new(0, 0), &Position::new(0, 2));
    let galaxy = universe.get_galaxy(&Position::new(0, 0));
    universe.remove_positions_from_galaxy(&galaxy, &cells(&[(0, 0)]));
    assert!(universe.is_valid());
    // the rest, two cells, is symmetric about its own center and stays together
    assert!(universe.are_neighbours(&Position::new(0, 1), &Position::new(0, 2)));
    assert_eq!(universe.get_galaxy(&Position::new(0, 0)).size(), 1);
}

#[test]
fn join_takes_a_cell_over() {
    let mut universe = Universe::new(2, 2);
    universe.join(&Position::new(0, 0), &Position::new(0, 1));
    assert!(universe.is_valid());
    assert_eq!(
        universe.get_galaxy(&Position::new(0, 0)).get_positions(),
        cells(&[(0, 0), (0, 1)])
    );
    assert_eq!(universe.render(), "┌───┐\n├─┬─┤\n└─┴─┘");
    // with a third cell the galaxy needs a fourth
    assert_eq!(
        universe.third_candidates(&Position::new(0, 0), &Position::new(1, 0)),
        cells(&[(1, 1)])
    );
    universe.join_pair(
        &Position::new(0, 0),
        &Position::new(1, 0),
        &Position::new(1, 1),
    );
    assert!(universe.is_valid());
    assert_eq!(universe.get_galaxies().len(), 1);
    assert_eq!(universe.render(), "┌───┐\n│   │\n└───┘");
}

#[test]
fn steps_keep_the_universe_valid() {
    for seed in 0..5u64 {
        let mut rng = StdRng::seed_from_u64(seed);
        let mut universe = Universe::new(6, 5);
        let mut changes = 0;
        for _ in 0..200 {
            if universe.generate_step(&mut rng) {
                changes += 1;
            }
            assert!(universe.is_valid());
        }
        assert!(changes > 0);
        assert_eq!(universe.get_width(), 6);
        assert_eq!(universe.get_height(), 5);
    }
}

#[test]
fn steps_are_the_same_for_the_same_seed() {
    let mut first = Universe::new(5, 5);
    let mut second = Universe::new(5, 5);
    let mut rng_one = StdRng::seed_from_u64(42);
    let mut rng_two = StdRng::seed_from_u64(42);
    for _ in 0..100 {
        assert_eq!(
            first.generate_step(&mut rng_one),
            second.generate_step(&mut rng_two)
        );
    }
    assert_eq!(first.render(), second.render());
}

#[test]
fn a_universe_of_one_cell_never_changes() {
    let mut rng = StdRng::seed_from_u64(7);
    let mut universe = Universe::new(1, 1);
    for _ in 0..10 {
        assert!(!universe.generate_step(&mut rng));
    }
    assert_eq!(universe.random_position(&mut rng), Position::new(0, 0));
}

#[test]
fn borders_of_a_universe_part_its_galaxies() {
    let mut universe = Universe::new(2, 1);
    assert_eq!(universe.borders().len(), 7);
    universe.make_neighbours(&Position::new(0, 0), &Position::new(0, 1));
    let walls = universe.borders();
    assert_eq!(walls.len(), 6);
    assert!(!walls.contains(&Border::right(Position::new(0, 0))));
    assert!(walls.contains(&Border::left(Position::new(0, 0))));
}

#[test]
fn galaxies_of_a_universe_are_its_groups_of_cells() {
    let mut universe = Universe::new(2, 2);
    universe.make_neighbours(&Position::new(0, 0), &Position::new(1, 0));
    let mut galaxies: Vec<Galaxy> = universe.get_galaxies();
    galaxies.sort_by_key(|galaxy| galaxy.get_positions());
    assert_eq!(galaxies.len(), 3);
    assert_eq!(galaxies[0].get_positions(), cells(&[(0, 0), (1, 0)]));
    assert_eq!(galaxies[1].get_positions(), cells(&[(0, 1)]));
    assert_eq!(galaxies[2].get_positions(), cells(&[(1, 1)]));
}

#[test]
fn a_neighbour_can_be_the_third_cell() {
    let mut universe = Universe::new(3, 3);
    universe.join(&Position::new(0, 0), &Position::new(0, 1));
    // the domino with the cell below its right end is no galaxy; the mirror of
    // that cell lies above the grid, two of its neighbours make up for it
    assert_eq!(
        universe.third_candidates(&Position::new(0, 1), &Position::new(1, 1)),
        cells(&[(1, 0), (1, 2)])
    );
    universe.join_pair(
        &Position::new(0, 1),
        &Position::new(1, 1),
        &Position::new(1, 2),
    );
    assert!(universe.is_valid());
    assert_eq!(
        universe.get_galaxy(&Position::new(0, 0)).get_positions(),
        cells(&[(0, 0), (0, 1), (1, 1), (1, 2)])
    );
}

#[test]
fn a_copy_has_the_same_galaxies() {
    let mut universe = Universe::new(3, 2);
    universe.join(&Position::new(0, 0), &Position::new(0, 1));
    let twin = universe.copy();
    assert_eq!(twin.render(), universe.render());
    assert_eq!(twin.get_entries(), universe.get_entries());
}

#[test]
fn generated_universes_are_valid() {
    for seed in 0..3u64 {
        let mut rng = StdRng::seed_from_u64(seed);
        let universe = Universe::generate_with(5, 4, &mut rng, |next, best| {
            next.get_galaxies().len() <= best.get_galaxies().len()
        });
        assert!(universe.is_valid());
        assert_eq!(universe.get_width(), 5);
        assert_eq!(universe.get_height(), 4);
        assert!(universe.get_galaxies().len() < 20);
        let cells: usize = universe.get_galaxies().iter().map(|g| g.size()).sum();
        assert_eq!(cells, 20);
    }
}

#[test]
fn generation_is_the_same_for_the_same_seed() {
    let mut rng_one = StdRng::seed_from_u64(11);
    let mut rng_two = StdRng::seed_from_u64(11);
    let first = Universe::generate_with(4, 4, &mut rng_one, |_, _| true);
    let second = Universe::generate_with(4, 4, &mut rng_two, |_, _| true);
    assert_eq!(first.render(), second.render());
}

#[test]
fn an_empty_universe_is_generated_as_it_is() {
    let mut rng = StdRng::seed_from_u64(3);
    let universe = Universe::generate_with(0, 0, &mut rng, |_, _| true);
    assert_eq!(universe.get_height(), 0);
    assert!(universe.is_valid());
}

#[test]
fn stretches_are_counted_between_gaps() {
    assert_eq!(stretch_lengths(&vec![]), vec![0]);
    assert_eq!(stretch_lengths(&vec![false]), vec![0, 0]);
    assert_eq!(stretch_lengths(&vec![true, true, false, true]), vec![2, 1]);
    assert_eq!(
        stretch_lengths(&vec![false, true, true, true, false, false, true]),
        vec![0, 3, 0, 1]
    );
}

#[test]
fn straight_borders_of_a_universe() {
    let mut universe = Universe::new(3, 2);
    // every cell alone: each line is one stretch
    assert_eq!(
        universe.get_straight_borders(),
        vec![vec![3], vec![2], vec![2]]
    );
    universe.join(&Position::new(0, 1), &Position::new(1, 1));
    assert_eq!(universe.render(), "┌─┬─┬─┐\n├─┤ ├─┤\n└─┴─┴─┘");
    assert_eq!(
        universe.get_straight_borders(),
        vec![vec![1, 1], vec![2], vec![2]]
    );
    assert_eq!(universe.stretches_above(1), vec![1, 1]);
    assert_eq!(universe.stretches_left(2), vec![2]);
    let row = Universe::new(4, 1);
    assert_eq!(row.get_straight_borders(), vec![vec![1], vec![1], vec![1]]);
}

#[test]
fn galaxies_make_a_universe() {
    let galaxies = vec![
        Galaxy::from_positions(&cells(&[(0, 0), (0, 1)])),
        Galaxy::from_positions(&cells(&[(1, 1), (1, 2)])),
        Galaxy::from_positions(&cells(&[(0, 1), (0, 2)])),
    ];
    let universe = Universe::from_galaxies(&galaxies);
    assert_eq!(universe.get_width(), 3);
    assert_eq!(universe.get_height(), 2);
    // a cell of two galaxies goes to the later one, a cell of none keeps its number
    assert_eq!(universe.get_id(&Position::new(0, 0)), 0);
    assert_eq!(universe.get_id(&Position::new(0, 1)), 2);
    assert_eq!(universe.get_id(&Position::new(0, 2)), 2);
    assert_eq!(universe.get_id(&Position::new(1, 0)), 3);
    assert_eq!(universe.get_id(&Position::new(1, 1)), 1);
    assert_eq!(universe.get_id(&Position::new(1, 2)), 1);
    let empty = Universe::from_galaxies(&Vec::new());
    assert_eq!(empty.get_height(), 0);
    assert_eq!(empty.get_width(), 0);
}

#[test]
fn identifiers_are_listed_row_by_row() {
    let mut universe = Universe::new(3, 2);
    assert_eq!(universe.get_ids(), vec![0, 1, 2, 3, 4, 5]);
    universe.join(&Position::new(1, 2), &Position::new(0, 2));
    assert_eq!(universe.get_ids(), vec![0, 1, 5, 3, 4, 5]);
    assert_eq!(universe.get_max_id(), 5);
    assert_eq!(universe.get_next_available_id(), 2);
}

#[test]
fn a_seed_decides_the_universe() {
    let fewer = |next: &Universe, best: &Universe| {
        next.get_galaxies().len() <= best.get_galaxies().len()
    };
    let first = Universe::generate_seeded(5, 5, 2024, fewer);
    let second = Universe::generate_seeded(5, 5, 2024, fewer);
    assert!(first.is_valid());
    assert_eq!(first.render(), second.render());
    let mut rng = StdRng::seed_from_u64(2024);
    let third = Universe::generate_with(5, 5, &mut rng, fewer);
    assert_eq!(first.render(), third.render());
    let other = Universe::generate_seeded(5, 5, 2025, fewer);
    assert!(other.is_valid());
    assert_ne!(first.render(), other.render());
}

#[test]
fn generation_joins_cells_where_there_are_two() {
    for seed in 0..4u64 {
        let domino = Universe::generate_seeded(2, 1, seed, |_, _| true);
        assert!(domino.is_valid());
        assert_eq!(domino.get_galaxies().len(), 1);
        let grown = Universe::generate_seeded(3, 3, seed, |_, _| false);
        assert!(grown.is_valid());
        assert!(grown.get_galaxies().iter().any(|galaxy| galaxy.size() > 1));
    }
    let lone = Universe::generate_seeded(1, 1, 5, |_, _| true);
    assert_eq!(lone.get_galaxies().len(), 1);
}

#[test]
fn cells_of_other_galaxies_keep_their_identifiers() {
    let mut universe = Universe::new(3, 2);
    universe.join(&Position::new(0, 0), &Position::new(0, 1));
    universe.join(&Position::new(0, 1), &Position::new(0, 2));
    let before = universe.get_ids();
    assert_eq!(before, vec![0, 0, 0, 3, 4, 5]);
    let row = universe.get_galaxy(&Position::new(0, 0));
    universe.remove_positions_from_galaxy(&row, &cells(&[(0, 1)]));
    // the middle goes, the two ends cannot stay together
    assert_eq!(universe.get_ids(), vec![2, 1, 6, 3, 4, 5]);
    let mut other = Universe::new(3, 2);
    other.join(&Position::new(0, 0), &Position::new(0, 1));
    other.join(&Position::new(0, 1), &Position::new(0, 2));
    let row = other.get_galaxy(&Position::new(0, 0));
    other.remove_positions_from_galaxy(&row, &cells(&[(0, 0)]));
    // an end goes, the two cells that are left together keep their identifier
    assert_eq!(other.get_ids(), vec![1, 0, 0, 3, 4, 5]);
    assert!(other.is_valid());
}
