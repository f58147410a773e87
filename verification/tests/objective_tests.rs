use galaxies::border::Border;
use galaxies::objective::{GalaxyCenter, Objective};
use galaxies::position::Position;
use galaxies::universe::Universe;

const OBJECTIVE: &str = "┌───┬───┬───┬───┬───┬───┬───┬───┬───┬───┐\n│         ●               ●       ●     │\n├   ●   ·   ·   ·   ·   ·   ·   ·   · ● ┤\n│           ●                           │\n├   ·   ·   ·   ·   · ● ·   ·   ·   ·   ┤\n│                                       │\n├ ● ·   ·   ·   ·   ·   ·   ·   ·   ●   ┤\n│                                       │\n├   ·   ·   ·   ·   ·   ·   ·   ·   ·   ┤\n│                       ●               │\n├   ·   ·   ·   ·   ·   ·   ·   ·   ·   ┤\n│             ●                 ●       │\n├   ·   ·   ·   ·   ·   ·   ·   ·   ·   ┤\n│   ●                   ●             ● │\n├   ·   ·   ·   ·   ·   ·   ·   ·   ·   ┤\n│ ●                                     │\n├   ·   ·   ·   ·   ·   ·   ·   ·   ·   ┤\n│             ●       ●     ●           │\n├   ·   ·   ·   ·   ·   ·   ·   ·   · ● ┤\n│       ●           ●                   │\n└───┴───┴───┴───┴───┴───┴───┴───┴───┴───┘\n";

#[test]
pub fn should_parse_objective() {
    let objective = Objective::from_string(OBJECTIVE);
    let expected: Vec<GalaxyCenter> = vec![
        (0, 4),
        (0, 12),
        (0, 16),
        (1, 1),
        (1, 18),
        (2, 5),
        (3, 10),
        (5, 0),
        (5, 17),
        (8, 11),
        (10, 6),
        (10, 15),
        (12, 1),
        (12, 11),
        (12, 18),
        (14, 0),
        (16, 6),
        (16, 10),
        (16, 13),
        (17, 18),
        (18, 3),
        (18, 9),
    ]
    .into_iter()
    .map(|(row, column)| Position::new(row, column))
    .map(GalaxyCenter::from)
    .collect();
    assert_eq!(
        objective,
        Objective::from_parts(&expected, &vec![])
    );
    assert_eq!(objective.get_centers(), expected);
}

#[test]
fn objective_is_drawn_on_ten_by_ten() {
    let objective = Objective::from_string(OBJECTIVE);
    let drawn = objective.to_string();
    assert_eq!(drawn, OBJECTIVE.trim_end());
    assert_eq!(Objective::from_string(&drawn), objective);
}

#[test]
fn objective_of_a_universe_holds_the_centers_of_its_galaxies() {
    let mut universe = Universe::new(2, 2);
    universe.make_neighbours(&Position::new(0, 0), &Position::new(0, 1));
    let objective = Objective::generate(&universe);
    assert_eq!(
        objective.get_centers(),
        vec![
            GalaxyCenter::from(Position::new(0, 1)),
            GalaxyCenter::from(Position::new(2, 0)),
            GalaxyCenter::from(Position::new(2, 2)),
        ]
    );
    assert!(objective.get_walls().is_empty());
}

#[test]
fn walls_and_centers_are_added() {
    let mut objective = Objective::new();
    let wall = Border::right(Position::new(0, 0));
    assert!(!objective.has_wall(&wall));
    objective.add_wall(wall);
    objective.add_center(GalaxyCenter {
        position: Position::new(3, 3),
        size: Some(4),
    });
    objective.add_center(GalaxyCenter::from(Position::new(1, 0)));
    assert!(objective.has_wall(&wall));
    assert_eq!(objective.get_walls(), vec![wall]);
    assert_eq!(
        objective.center_positions().to_vec(),
        vec![Position::new(1, 0), Position::new(3, 3)]
    );
}
