use galaxies::galaxy::Galaxy;
use galaxies::position::Position;
use galaxies::rectangle::Rectangle;

fn galaxy(positions: &[(i32, i32)]) -> Galaxy {
    let cells: Vec<Position> = positions.iter().map(|&(r, c)| Position::new(r, c)).collect();
    Galaxy::from_positions(&cells)
}

#[test]
fn test_center() {
    assert_eq!(Position::new(0, 0), galaxy(&[(0, 0)]).center());
    assert_eq!(Position::new(0, 1), galaxy(&[(0, 0), (0, 1)]).center());
    assert_eq!(Position::new(0, 2), galaxy(&[(0, 1)]).center());
    assert_eq!(Position::new(1, 0), galaxy(&[(0, 0), (1, 0)]).center());
    assert_eq!(Position::new(2, 0), galaxy(&[(1, 0)]).center());
    assert_eq!(
        Position::new(0, 2),
        galaxy(&[(0, 0), (0, 1), (0, 2)]).center()
    );
    assert_eq!(
        Position::new(14, 6),
        galaxy(&[(6, 3), (7, 3), (8, 3)]).center()
    );
    assert_eq!(
        Position::new(14, 7),
        galaxy(&[(6, 3), (7, 3), (7, 4), (8, 4)]).center()
    );
    assert_eq!(
        Position::new(1, 1),
        galaxy(&[(0, 0), (0, 1), (1, 0), (1, 1)]).center()
    );
}

#[test]
fn test_mirror_position() {
    assert_eq!(Position::new(0, 0), galaxy(&[(0, 0)]).center());
    assert_eq!(Position::new(0, 1), galaxy(&[(0, 0), (0, 1)]).center());
    assert_eq!(Position::new(0, 2), galaxy(&[(0, 1)]).center());
    assert_eq!(Position::new(1, 0), galaxy(&[(0, 0), (1, 0)]).center());
    assert_eq!(Position::new(2, 0), galaxy(&[(1, 0)]).center());
    assert_eq!(
        Position::new(0, 2),
        galaxy(&[(0, 0), (0, 1), (0, 2)]).center()
    );
    assert_eq!(
        Position::new(14, 6),
        galaxy(&[(6, 3), (7, 3), (8, 3)]).center()
    );
    assert_eq!(
        Position::new(14, 7),
        galaxy(&[(6, 3), (7, 3), (7, 4), (8, 4)]).center()
    );
    assert_eq!(
        Position::new(1, 1),
        galaxy(&[(0, 0), (0, 1), (1, 0), (1, 1)]).center()
    );
}

#[test]
fn mirror_position_reflects_through_the_center() {
    let g = galaxy(&[(6, 3), (7, 3), (7, 4), (8, 4)]);
    assert_eq!(g.mirror_position(&Position::new(6, 3)), Position::new(8, 4));
    assert_eq!(g.mirror_position(&Position::new(7, 4)), Position::new(7, 3));
    assert_eq!(
        Position::new(3, 5).mirror_position(&Position::new(0, 0)),
        Position::new(3, 5)
    );
}

#[test]
fn empty_galaxy_should_have_no_rectangles() {
    let galaxy = Galaxy::new();
    assert_eq!(galaxy.rectangles(), vec![]);
}

#[test]
fn s_galaxy() {
    /*
     *   ┌───┐    ┌─┬─┐
     *   │ ┌─┘ -> │ ├─┘
     * ┌─┘ │    ┌─┤ │
     * └───┘    └─┴─┘
     */
    let mut galaxy = Galaxy::new();
    galaxy.add_position(Position::new(0, 2));
    galaxy.add_position(Position::new(0, 1));
    galaxy.add_position(Position::new(1, 1));
    galaxy.add_position(Position::new(2, 1));
    galaxy.add_position(Position::new(2, 0));

    let mut actual: Vec<Rectangle> = galaxy.rectangles();
    actual.sort();
    let mut expected: Vec<Rectangle> = vec![
        Rectangle {
            min_row: 2,
            max_row: 3,
            min_column: 0,
            max_column: 1,
        },
        Rectangle {
            min_row: 0,
            max_row: 3,
            min_column: 1,
            max_column: 2,
        },
        Rectangle {
            min_row: 0,
            max_row: 1,
            min_column: 2,
            max_column: 3,
        },
    ];
    expected.sort();
    assert_eq!(expected, actual);
}

#[test]
fn rectangle_galaxy_should_have_single_rectangle() {
    for (width, height) in [(1usize, 1usize), (2, 1), (1, 3), (4, 4), (7, 2)] {
        let rect = Rectangle::from_dimensions(width, height);
        let galaxy = Galaxy::from_rectangle(&rect);
        let rects = galaxy.rectangles();
        assert_eq!(rects.len(), 1);
        assert_eq!(rects[0], rect);
    }
}

#[test]
fn galaxy_known_shapes() {
            assert_eq!(
                Galaxy::from_string(
                    "
                    ▉▉▉
                    ▉▉▉
                    ",
                )
                .get_skeleton(),
                Galaxy::from_string(
                    "
                     ▉▉
                    ▉▉
                    "
                )
            );
            assert_eq!(
                Galaxy::from_string(
                    "
                    ▉▉▉
                    ▉▉▉
                    ▉▉▉
                    ",
                )
                .get_skeleton(),
                Galaxy::from_string(
                    "
                     ▉
                    ▉▉▉
                     ▉
                    "
                )
            );
            assert_eq!(
                Galaxy::from_string(
                    "
                    ▉▉▉▉
                    ▉▉▉▉
                    ▉▉▉▉
                    ▉▉▉▉
                    ",
                )
                .get_skeleton(),
                Galaxy::from_string(
                    "
                      ▉
                     ▉▉▉
                    ▉▉▉
                     ▉
                    "
                )
            );
            assert_eq!(
                Galaxy::from_string(
                    "
                    ▉▉▉▉▉
                    ▉▉▉▉▉
                    ▉▉▉▉▉
                    ▉▉▉▉▉
                    ▉▉▉▉▉
                    ",
                )
                .get_skeleton(),
                Galaxy::from_string(
                    "
                      ▉  
                      ▉  
                    ▉▉▉▉▉
                      ▉   
                      ▉  
                    "
                )
            );
            let whole = Galaxy::from_string(
                "
                 ▉▉▉
                ▉▉
                ▉▉ ▉▉▉
                ▉▉ ▉ ▉▉
                 ▉▉▉ ▉▉
                     ▉▉
                   ▉▉▉
                ",
            );
            let expected = Galaxy::from_string(
                "
                 ▉▉▉
                 ▉
                 ▉ ▉▉▉
                ▉▉ ▉ ▉▉
                 ▉▉▉ ▉
                     ▉
                   ▉▉▉
                ",
            );
            let actual = whole.get_skeleton();
            assert_eq!(
                actual,
                expected,
                "Expected:\n{}\nActual:\n{}",
                expected.to_string(),
                actual.to_string()
            );
            let whole = Galaxy::from_string(
                "
                 ▉
                 ▉▉
                ▉▉▉▉▉
                ▉▉▉▉
                 ▉▉▉▉
                ▉▉▉▉▉
                  ▉▉
                   ▉
                ",
            );
            let expected = Galaxy::from_string(
                "
                 ▉
                 ▉ 
                 ▉ ▉▉
                ▉▉▉▉
                 ▉▉▉▉
                ▉▉ ▉ 
                   ▉
                   ▉
                ",
            );
            let actual = whole.get_skeleton();
            assert_eq!(
                actual,
                expected,
                "Expected:\n{}\nActual:\n{}",
                expected.to_string(),
                actual.to_string()
            );
            let whole = Galaxy::from_string(
                "
                  ▉
                 ▉▉▉
                ▉▉▉▉▉▉
                  ▉▉▉
                   ▉
                ",
            );
            let expected = Galaxy::from_string(
                "
                  ▉
                  ▉
                ▉▉▉▉▉▉
                   ▉
                   ▉
                ",
            );
            let actual = whole.get_skeleton();
            assert_eq!(
                actual,
                expected,
                "Expected:\n{}\nActual:\n{}",
                expected.to_string(),
                actual.to_string()
            );
            let whole = Galaxy::from_string(
                "
                  ▉
                 ▉▉▉▉
                 ▉▉▉▉
                  ▉▉
                ▉▉▉▉▉
                 ▉▉
                ▉▉▉▉
                ▉▉▉▉
                  ▉
                ",
            );
            let expected = Galaxy::from_string(
                "
                  ▉
                  ▉
                 ▉▉▉▉
                   ▉
                ▉▉▉▉▉
                 ▉
                ▉▉▉▉
                  ▉
                  ▉
                ",
            );
            let actual = whole.get_skeleton();
            assert_eq!(
                actual,
                expected,
                "Expected:\n{}\nActual:\n{}",
                expected.to_string(),
                actual.to_string()
            );
            let whole = Galaxy::from_string(
                "
                ▉▉ ▉▉
                ▉ ▉▉▉▉
                ▉▉▉▉ ▉
                 ▉▉ ▉▉
                ",
            );
            let expected = Galaxy::from_string(
                "
                ▉▉  ▉
                ▉ ▉▉▉▉
                ▉▉▉▉ ▉
                 ▉  ▉▉
                ",
            );
            let actual = whole.get_skeleton();
            assert_eq!(
                actual,
                expected,
                "Expected:\n{}\nActual:\n{}",
                expected.to_string(),
                actual.to_string()
            );
            let whole = Galaxy::from_string(
                "
                  ▉
                 ▉▉▉
                ▉▉▉ ▉
                ▉ ▉▉▉
                 ▉▉▉
                  ▉
                ",
            );
            let expected = Galaxy::from_string(
                "
                  ▉
                  ▉▉
                ▉▉▉ ▉
                ▉ ▉▉▉
                 ▉▉ 
                  ▉
                ",
            );
            let actual = whole.get_skeleton();
            assert_eq!(
                actual,
                expected,
                "Expected:\n{}\nActual:\n{}",
                expected.to_string(),
                actual.to_string()
            );
        }
