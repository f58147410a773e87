use galaxies::position::Position;
use galaxies::tree::Tree;

#[test]
fn empty_tree() {
    assert_eq!(Tree::new().to_string(), "");
}

#[test]
fn singleton() {
    assert_eq!(Tree::from_string(".").to_string(), "┌─┐\n└─┘");
}

#[test]
fn cross() {
    assert_eq!(
        Tree::from_string(
            "
                     v
                    >.<
                     ^
                    "
        )
        .to_string(),
        "  ┌─┐\n┌─┘ └─┐\n└─┐ ┌─┘\n  └─┘"
    );
}

#[test]
fn galaxy_1() {
    assert_eq!(
        Tree::from_string(
            "
                    v<v<<
                    v v ^
                    >>.<<
                    v ^ ^
                    >>^>^
                    "
        )
        .to_string(),
        "┌───┬─────┐\n│ ┌─┤ ┌─┐ │\n│ └─┘ └─┴─┤\n├─┬─┐ ┌─┐ │\n│ └─┘ ├─┘ │\n└─────┴───┘"
    );
}

#[test]
fn galaxy_2() {
    assert_eq!(
        Tree::from_string(
            "
                    v<v<<
                    v^<<^
                    >>.<<
                    v>>v^
                    >>^>^
                    "
        )
        .to_string(),
        "┌───┬─────┐\n│ ╷ ╵ ╶─┐ │\n│ └─────┴─┤\n├─┬─────┐ │\n│ └─╴ ╷ ╵ │\n└─────┴───┘"
    );
}

#[test]
fn cinnamon_bun() {
    assert_eq!(
        Tree::from_string(
            "
                     v<<<<
                    vvv<<^
                    vv>.^^
                    v>>>^^
                    >>>>>^
                    "
        )
        .to_string(),
        "  ┌─────────┐\n┌─┤ ┌─────┐ │\n│ │ │ ╶─┐ │ │\n│ │ └───┘ │ │\n│ └───────┘ │\n└───────────┘"
    );
}

#[test]
fn hashtag() {
    assert_eq!(
        Tree::from_string(
            "
                     v  v
                    >v<<<<
                     v  ^
                     v  ^
                    >>>>^<
                     ^  ^
                    "
        )
        .to_string(),
        "  ┌─┐   ┌─┐\n┌─┘ └───┘ └─┐\n└─┐ ┌───┐ ┌─┘\n  │ │   │ │\n┌─┘ └───┘ └─┐\n└─┐ ┌───┐ ┌─┘\n  └─┘   └─┘"
    );
}

#[test]
fn tree_knows_its_parents() {
    let root = Position::new(0, 0);
    let child = Position::new(0, 1);
    let mut tree = Tree::from_parents(&vec![(root, None), (child, Some(root))]);
    assert!(tree.is_valid());
    assert!(tree.contains(&child));
    assert_eq!(tree.get_parent(&child), Some(root));
    assert_eq!(tree.get_parent(&root), None);
    assert_eq!(tree.get_parent(&Position::new(5, 5)), None);
    assert_eq!(tree.get_positions(), vec![root, child]);
    assert_eq!(tree.iter(), vec![(root, None), (child, Some(root))]);
    tree.insert(Position::new(1, 1), Some(Position::new(2, 1)));
    assert!(!tree.is_valid());
}
