use galaxies::border::Border;
use galaxies::galaxy::Galaxy;
use galaxies::position::{half_floor, CenterPlacement, Position};
use galaxies::rectangle::Rectangle;
use galaxies::tiling::largest_rectangle;
use galaxies::tree::Tree;

fn shape(positions: &[(i32, i32)]) -> Galaxy {
    let cells: Vec<Position> = positions.iter().map(|&(r, c)| Position::new(r, c)).collect();
    Galaxy::from_positions(&cells)
}

fn cells(positions: &[(i32, i32)]) -> Vec<Position> {
    positions.iter().map(|&(r, c)| Position::new(r, c)).collect()
}

#[test]
fn single_cell_galaxy() {
    let galaxy = Galaxy::from_position(Position::new(0, 0));
    assert_eq!(galaxy.size(), 1);
    assert_eq!(galaxy.center(), Position::new(0, 0));
    assert!(galaxy.is_valid());
    assert!(galaxy.is_empty_or_valid());
    assert!(!galaxy.is_zig_zag());
    assert!(galaxy.get_holes().is_empty());
    assert_eq!(galaxy.get_skeleton(), galaxy);
    assert_eq!(galaxy.to_string(), "┌─┐ \n└─┘ ");
    assert_eq!(Galaxy::new().center(), Position::new(0, 0));
    assert!(Galaxy::new().is_empty_or_valid());
    assert!(!Galaxy::new().is_valid());
}

#[test]
fn s_shaped_galaxy_is_valid() {
    let galaxy = shape(&[(0, 0), (1, 0), (1, 1), (2, 1)]);
    assert!(galaxy.is_valid());
    assert!(galaxy.is_symmetric());
    assert!(galaxy.is_connected());
    assert!(galaxy.contains_center());
    assert!(!galaxy.is_mirror_symmetric());
    assert_eq!(galaxy.center(), Position::new(2, 1));
}

#[test]
fn symmetric_three_by_three_with_gaps() {
    let galaxy = shape(&[(0, 0), (0, 2), (1, 0), (1, 1), (1, 2), (2, 0), (2, 2)]);
    assert!(galaxy.is_valid());
    assert!(galaxy.is_mirror_symmetric());
    assert_eq!(galaxy.get_holes(), vec![]);
    assert!(!galaxy.is_hole(&Position::new(0, 1)));
    assert!(!galaxy.is_hole(&Position::new(2, 1)));
}

#[test]
fn ring_has_a_hole_and_no_center() {
    let ring = shape(&[
        (0, 0), (0, 1), (0, 2),
        (1, 0),         (1, 2),
        (2, 0), (2, 1), (2, 2),
    ]);
    assert!(ring.is_symmetric());
    assert!(ring.is_connected());
    assert!(!ring.contains_center());
    assert!(!ring.is_valid());
    assert!(ring.is_hole(&Position::new(1, 1)));
    assert_eq!(ring.get_holes(), cells(&[(1, 1)]));
}

#[test]
fn zig_zag_galaxy() {
    let stairs = shape(&[(0, 0), (0, 1), (1, 1), (1, 2), (2, 2)]);
    assert!(stairs.is_zig_zag());
    assert!(stairs.is_turn(&Position::new(0, 1)));
    assert!(stairs.is_leaf(&Position::new(0, 0)));
    assert!(!stairs.is_leaf(&Position::new(1, 1)));
    assert!(!stairs.is_turn(&Position::new(5, 5)));
    let line = shape(&[(0, 0), (0, 1), (0, 2)]);
    assert!(!line.is_zig_zag());
    let pair = shape(&[(0, 0), (0, 1)]);
    assert!(!pair.is_zig_zag());
}

#[test]
fn disconnected_and_asymmetric_shapes_are_not_valid() {
    assert!(!shape(&[(0, 0), (0, 2)]).is_connected());
    assert!(shape(&[(0, 0), (0, 2)]).is_symmetric());
    assert!(!shape(&[(0, 0), (0, 1), (1, 0)]).is_symmetric());
    assert!(Galaxy::new().is_connected());
}

#[test]
fn positions_come_and_go() {
    let mut galaxy = shape(&[(1, 1)]);
    let p = Position::new(1, 2);
    assert!(!galaxy.contains_position(&p));
    let with = galaxy.with_position(&p);
    assert!(with.contains_position(&p));
    assert_eq!(with.without_position(&p), galaxy);
    galaxy.add_position(p);
    assert!(galaxy.same_cells(&with));
    galaxy.remove_position(&p);
    assert!(!galaxy.is_empty());
    galaxy.remove_position(&Position::new(1, 1));
    assert!(galaxy.is_empty());
    assert_eq!(with.get_neighbours(&Position::new(1, 1)), vec![p]);
    assert_eq!(
        with.get_bounding_rectangle(),
        Rectangle { min_row: 1, max_row: 2, min_column: 1, max_column: 3 }
    );
    assert_eq!(with.copy(), with);
}

#[test]
fn borders_of_a_galaxy_surround_it() {
    let galaxy = shape(&[(0, 0), (0, 1)]);
    let borders = galaxy.get_borders();
    assert_eq!(borders.len(), 6);
    assert!(borders.contains(&Border::left(Position::new(0, 0))));
    assert!(!borders.contains(&Border::right(Position::new(0, 0))));
    assert!(borders.contains(&Border::right(Position::new(0, 1))));
}

#[test]
fn hamming_distances_count_moves_from_the_center() {
    let galaxy = shape(&[(0, 0), (0, 1), (0, 2), (0, 3), (0, 4), (1, 4)]);
    // not symmetric, but distances only need the center of the bounding rectangle
    let distances = galaxy.get_hamming_distances();
    // the center (1, 4) lies on the edge between (0, 2) and (1, 2)
    assert_eq!(distances.get(&Position::new(0, 2)), Some(&0));
    assert_eq!(distances.get(&Position::new(1, 2)), Some(&0));
    assert_eq!(distances.get(&Position::new(0, 1)), Some(&1));
    assert_eq!(distances.get(&Position::new(0, 4)), Some(&2));
    assert_eq!(distances.get(&Position::new(1, 4)), Some(&3));
    assert_eq!(distances.get(&Position::new(5, 5)), None);
    assert_eq!(distances.len(), 7);
}

#[test]
fn parent_candidates_are_one_step_nearer() {
    let galaxy = shape(&[(0, 0), (0, 1), (1, 0), (1, 1), (0, 2), (1, 2)]);
    assert!(galaxy.is_anchored());
    let candidates = galaxy.get_parent_candidates();
    assert_eq!(candidates.len(), 6);
    assert_eq!(candidates.get(&Position::new(0, 1)), Some(&vec![]));
    assert_eq!(
        candidates.get(&Position::new(0, 0)),
        Some(&cells(&[(0, 1)]))
    );
    assert_eq!(
        candidates.get(&Position::new(1, 2)),
        Some(&cells(&[(1, 1)]))
    );
    // the cell around the center is no cell of the galaxy, but moves lead on from it
    assert!(shape(&[(0, 0), (0, 2)]).is_anchored());
    assert!(!shape(&[(0, 0), (0, 4)]).is_anchored());
}

#[test]
fn arms_run_from_the_leaves_to_the_root() {
    // a row of five cells, the middle one is the root
    let galaxy = shape(&[(0, 0), (0, 1), (0, 2), (0, 3), (0, 4)]);
    let tree = Tree::from_string("<<.>>").clone();
    // arrows point at the parent: make them point inwards
    let tree = Tree::from_parents(&vec![
        (Position::new(0, 0), Some(Position::new(0, 1))),
        (Position::new(0, 1), Some(Position::new(0, 2))),
        (Position::new(0, 2), None),
        (Position::new(0, 3), Some(Position::new(0, 2))),
        (Position::new(0, 4), Some(Position::new(0, 3))),
        (Position::new(9, 9), tree.get_parent(&Position::new(9, 9))),
    ]);
    let tree = {
        let mut entries = tree.iter();
        entries.pop();
        Tree::from_parents(&entries)
    };
    let arms = galaxy.get_arms(&tree);
    // the leaf that comes last in row-major order goes first and takes the root
    assert_eq!(
        arms,
        vec![
            cells(&[(0, 4), (0, 3), (0, 2)]),
            cells(&[(0, 0), (0, 1)]),
        ]
    );
}

#[test]
fn skeleton_is_part_of_the_galaxy_and_keeps_the_center() {
    let square = Galaxy::from_rectangle(&Rectangle::from_dimensions(4, 4));
    let skeleton = square.get_skeleton();
    assert!(skeleton.size() <= square.size());
    for cell in skeleton.get_positions() {
        assert!(square.contains_position(&cell));
    }
    for cell in cells(&[(1, 1), (1, 2), (2, 1), (2, 2)]) {
        assert!(skeleton.contains_position(&cell));
    }
    assert!(skeleton.is_connected());
}

#[test]
fn skeleton_of_a_valid_galaxy_is_in_one_piece() {
    let galaxy = shape(&[
        (0, 0), (0, 1),
        (1, 0), (1, 1), (1, 2), (1, 3),
                        (2, 2), (2, 3),
    ]);
    assert!(galaxy.is_valid());
    assert!(!galaxy.is_mirror_symmetric());
    let skeleton = galaxy.get_skeleton();
    assert_eq!(
        skeleton.get_positions(),
        cells(&[(0, 1), (1, 0), (1, 1), (1, 2), (1, 3), (2, 2)])
    );
    assert!(skeleton.is_connected());
}

#[test]
fn skeleton_of_a_rectangle_around_a_cell_is_in_one_piece() {
    let rectangle = Galaxy::from_rectangle(&Rectangle::from_dimensions(5, 3));
    assert!(rectangle.is_valid());
    assert!(rectangle.is_mirror_symmetric());
    assert_eq!(rectangle.center(), Position::new(2, 4));
    let skeleton = rectangle.get_skeleton();
    assert_eq!(
        skeleton.get_positions(),
        cells(&[(0, 2), (1, 0), (1, 1), (1, 2), (1, 3), (1, 4), (2, 2)])
    );
    assert!(skeleton.is_connected());
    assert!(skeleton.is_symmetric());
}

#[test]
fn skeleton_of_an_asymmetric_shape_may_fall_apart() {
    let lopsided = shape(&[
                (0, 1), (0, 2),
                (1, 1), (1, 2),
        (2, 0), (2, 1),
    ]);
    assert!(lopsided.is_connected());
    assert!(!lopsided.is_symmetric());
    let skeleton = lopsided.get_skeleton();
    assert_eq!(skeleton.get_positions(), cells(&[(0, 2), (1, 1), (1, 2), (2, 0)]));
    assert!(!skeleton.is_connected());
}

#[test]
fn rectangles_part_the_galaxy() {
    let galaxy = shape(&[
        (0, 0), (0, 1), (0, 2),
        (1, 0), (1, 1), (1, 2), (1, 3),
                (2, 1), (2, 2), (2, 3),
    ]);
    let rectangles = galaxy.rectangles();
    let mut covered: Vec<Position> = Vec::new();
    for rectangle in &rectangles {
        assert!(rectangle.area() > 0);
        for cell in rectangle.positions() {
            assert!(galaxy.contains_position(&cell));
            assert!(!covered.contains(&cell));
            covered.push(cell);
        }
    }
    assert_eq!(covered.len(), galaxy.size());
    // the rectangle that was taken first comes last, and is a largest one
    assert_eq!(rectangles.last().unwrap().area(), 6);
    assert_eq!(largest_rectangle(&galaxy).area(), 6);
}

#[test]
fn rectangle_measures() {
    let rectangle = Rectangle { min_row: 1, max_row: 3, min_column: -1, max_column: 2 };
    assert_eq!(rectangle.width(), 3);
    assert_eq!(rectangle.height(), 2);
    assert_eq!(rectangle.area(), 6);
    assert_eq!(rectangle.top_left(), Position::new(1, -1));
    assert_eq!(rectangle.positions().len(), 6);
    assert!(rectangle.contains_position(&Position::new(2, 1)));
    assert!(!rectangle.contains_position(&Position::new(3, 1)));
    let crossed = Rectangle { min_row: 3, max_row: 1, min_column: 0, max_column: 2 };
    assert_eq!(crossed.area(), 0);
    assert!(crossed.positions().is_empty());
    assert_eq!(
        Rectangle::bounding_rectangle(&cells(&[(2, 5), (0, 7), (1, 6)])),
        Rectangle { min_row: 0, max_row: 3, min_column: 5, max_column: 8 }
    );
    assert_eq!(
        Rectangle::bounding_rectangle(&vec![]),
        Rectangle { min_row: 0, max_row: 0, min_column: 0, max_column: 0 }
    );
}

#[test]
fn positions_and_their_neighbours() {
    let p = Position::new(2, 3);
    assert_eq!(p.up(), Position::new(1, 3));
    assert_eq!(p.down(), Position::new(3, 3));
    assert_eq!(p.left(), Position::new(2, 2));
    assert_eq!(p.right(), Position::new(2, 4));
    assert_eq!(p.adjacent(), cells(&[(1, 3), (3, 3), (2, 2), (2, 4)]));
    assert!(p.is_adjacent_to(&Position::new(2, 4)));
    assert!(!p.is_adjacent_to(&Position::new(3, 4)));
    assert!(!p.is_adjacent_to(&p));
    assert_eq!(p.to_index(10), 23);
    assert_eq!(Position::at(2, 3), p);
    assert!(Position::new(1, 9).is_before(&p));
    assert_eq!(half_floor(-3), -2);
    assert_eq!(half_floor(3), 1);
    assert_eq!(half_floor(-4), -2);
    assert_eq!(
        Position::new(5, 4).mirror_position(&Position::new(1, 1)),
        Position::new(4, 3)
    );
}

#[test]
fn centers_fall_on_cells_edges_and_corners() {
    let on_cell = Position::new(2, 4);
    assert_eq!(
        on_cell.get_center_placement(),
        CenterPlacement::Center(Position::new(1, 2))
    );
    assert_eq!(
        on_cell.get_center_placement().get_positions(&on_cell),
        cells(&[(1, 2)])
    );
    let on_vertical = Position::new(2, 5);
    assert_eq!(
        on_vertical.get_center_placement(),
        CenterPlacement::VerticalBorder(Border::right(Position::new(1, 2)))
    );
    assert_eq!(
        on_vertical.get_center_placement().get_positions(&on_vertical),
        cells(&[(1, 2), (1, 3)])
    );
    let on_horizontal = Position::new(3, 4);
    assert_eq!(
        on_horizontal.get_center_placement(),
        CenterPlacement::HorizontalBorder(Border::down(Position::new(1, 2)))
    );
    let on_corner = Position::new(3, 5);
    assert_eq!(
        on_corner.get_center_placement().get_positions(&on_corner),
        cells(&[(1, 2), (1, 3), (2, 2), (2, 3)])
    );
}

#[test]
fn borders_hold_the_smaller_position_first() {
    let a = Position::new(1, 1);
    let b = Position::new(1, 2);
    let border = Border::new(b, a);
    assert_eq!(border, Border::new(a, b));
    assert_eq!(border.p1(), a);
    assert_eq!(border.p2(), b);
    assert!(border.is_vertical());
    assert!(!border.is_horizontal());
    assert_eq!(Border::right(a), border);
    assert_eq!(Border::left(b), border);
    assert!(Border::up(a).is_horizontal());
    assert_eq!(Border::up(a), Border::down(Position::new(0, 1)));
    assert!(Border::up(a).is_before(&border));
}
