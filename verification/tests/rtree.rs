use spatial_index::geometry::{HorizontalLine, Line, Point, Tile, VerticalLine};
use spatial_index::node_view::Side;
use spatial_index::rtree::{Node, RTree};

#[test]
fn test_sweep_horizontal() {
    let vec = vec![
        Tile::new(Point::new(0, 0), Point::new(2, 2)),
        Tile::new(Point::new(1, 5), Point::new(8, 6)),
        Tile::new(Point::new(4, 10), Point::new(7, 11)),
    ];

    let line = Node::<u16, u16>::sweep(vec.clone(), 2);
    assert!(line.is_horizontal());
    assert!(*line > vec[0].bottom_left_corner());
    assert!(*line > vec[1].bottom_left_corner());
    assert!(*line <= vec[2].bottom_left_corner());
}

#[test]
fn test_sweep_vertical() {
    let vec = vec![
        Tile::new(Point::new(0, 0), Point::new(2, 2)),
        Tile::new(Point::new(1, 5), Point::new(3, 6)),
        Tile::new(Point::new(4, 4), Point::new(7, 11)),
    ];

    let line = Node::<u16, u16>::sweep(vec.clone(), 2);
    assert!(line.is_vertical());
    println!("{:?}, {:?}", line, vec[0].bottom_left_corner());
    assert!(*line > vec[0].bottom_left_corner());
    assert!(*line > vec[1].bottom_left_corner());
    assert!(*line <= vec[2].bottom_left_corner());
}

fn five_leaves() -> Node<u16, ()> {
    let mut vector = Vec::with_capacity(5);

    vector.push(Node::Leaf { point: Point::new(0, 0), data: () });
    vector.push(Node::Leaf { point: Point::new(5, 9), data: () });
    vector.push(Node::Leaf { point: Point::new(6, 0), data: () });
    vector.push(Node::Leaf { point: Point::new(3, 10), data: () });
    vector.push(Node::Leaf { point: Point::new(5, 5), data: () });

    Node::Node { coverage: Tile::new(Point::new(0, 0), Point::new(10, 10)), vector: vector }
}

#[test]
fn test_partition_depth1_vertical() {
    let mut vector = Vec::with_capacity(5);

    vector.push(Node::Leaf { point: Point::new(0, 0), data: () });
    vector.push(Node::Leaf { point: Point::new(5, 9), data: () });
    vector.push(Node::Leaf { point: Point::new(6, 0), data: () });
    vector.push(Node::Leaf { point: Point::new(3, 10), data: () });
    vector.push(Node::Leaf { point: Point::new(5, 5), data: () });

    let mut node =
        Node::Node { coverage: Tile::new(Point::new(0, 0), Point::new(10, 10)), vector: vector };

    let line = Box::new(Line::Vertical(VerticalLine::new(6u16)));

    let ret = node.partition(&*line, 4);

    // The leaf at (6, 0) lies on the line: it stays, and nothing leaves.
    assert!(ret.is_none());

    match node {
        Node::Node { ref coverage, ref vector } => {
            assert!(vector.len() == 5);
            assert!(vector.iter().all(|n| n <= &*line));
            assert!(*coverage == Tile::new(Point::new(0, 0), Point::new(6, 10)));
        },

        _ => panic!("Node became a leaf"),
    }
}

#[test]
fn test_partition_depth1_horizontal() {
    let mut vector = Vec::with_capacity(5);

    vector.push(Node::Leaf { point: Point::new(0, 0), data: () });
    vector.push(Node::Leaf { point: Point::new(5, 9), data: () });
    vector.push(Node::Leaf { point: Point::new(6, 0), data: () });
    vector.push(Node::Leaf { point: Point::new(3, 10), data: () });
    vector.push(Node::Leaf { point: Point::new(5, 5), data: () });

    let mut node =
        Node::Node { coverage: Tile::new(Point::new(0, 0), Point::new(10, 10)), vector: vector };

    let line = Box::new(Line::Horizontal(HorizontalLine::new(10u16)));

    let ret = node.partition(&*line, 4);

    // The leaf at (3, 10) lies on the line: it stays, and nothing leaves.
    assert!(ret.is_none());

    match node {
        Node::Node { ref coverage, ref vector } => {
            assert!(vector.len() == 5);
            assert!(vector.iter().all(|n| n <= &*line));
            assert!(*coverage == Tile::new(Point::new(0, 0), Point::new(6, 10)));
        },

        _ => panic!("Node became a leaf"),
    }
}

#[test]
fn insert() {
    let mut rtree = RTree::<u16, ()>::new();

    rtree.insert(Point::new(1, 1), ());
    rtree.insert(Point::new(1, 2), ());
    rtree.insert(Point::new(1, 4), ());
    rtree.insert(Point::new(3, 4), ());
    rtree.insert(Point::new(4, 4), ());
    rtree.insert(Point::new(10, 10), ());
    rtree.insert(Point::new(9, 10), ());
    rtree.insert(Point::new(1, 10), ());
    rtree.insert(Point::new(8, 6), ());
    rtree.insert(Point::new(0, 10), ());
    rtree.insert(Point::new(3, 7), ());

    assert!(rtree.find(Point::new(1, 1)).is_some());
    assert!(rtree.find(Point::new(1, 2)).is_some());
    assert!(rtree.find(Point::new(1, 4)).is_some());
    assert!(rtree.find(Point::new(3, 4)).is_some());
    assert!(rtree.find(Point::new(4, 4)).is_some());
    assert!(rtree.find(Point::new(10, 10)).is_some());
    assert!(rtree.find(Point::new(9, 10)).is_some());
    assert!(rtree.find(Point::new(1, 10)).is_some());
    assert!(rtree.find(Point::new(8, 6)).is_some());
    assert!(rtree.find(Point::new(0, 10)).is_some());
    assert!(rtree.find(Point::new(3, 7)).is_some());
}

fn scenario_points() -> Vec<(u16, u16)> {
    vec![(1, 1), (1, 2), (1, 4), (3, 4), (4, 4), (10, 10), (9, 10), (1, 10), (8, 6), (0, 10), (3, 7)]
}

#[test]
fn every_inserted_point_is_found_with_its_value() {
    let mut rtree = RTree::<u16, usize>::with_radix(4);
    let points = scenario_points();
    for (i, (x, y)) in points.iter().enumerate() {
        assert_eq!(rtree.insert(Point::new(*x, *y), i), None);
    }
    for (i, (x, y)) in points.iter().enumerate() {
        assert_eq!(rtree.find(Point::new(*x, *y)), Some(&i));
    }
    assert_eq!(rtree.find(Point::new(2, 2)), None);
    assert_eq!(rtree.find(Point::new(10, 9)), None);
    assert_eq!(rtree.find(Point::new(0, 0)), None);
    assert_eq!(rtree.find(Point::new(11, 11)), None);
}

#[test]
fn inserting_a_point_again_replaces_its_value() {
    let mut rtree = RTree::<i32, &str>::new();
    assert_eq!(rtree.insert(Point::new(-3, 7), "first"), None);
    assert_eq!(rtree.insert(Point::new(2, 2), "other"), None);
    assert_eq!(rtree.insert(Point::new(-3, 7), "second"), Some("first"));
    assert_eq!(rtree.find(Point::new(-3, 7)), Some(&"second"));
    assert_eq!(rtree.find(Point::new(2, 2)), Some(&"other"));
    assert_eq!(rtree.insert(Point::new(-3, 7), "third"), Some("second"));
    assert_eq!(rtree.find(Point::new(-3, 7)), Some(&"third"));
}

#[test]
fn a_single_point_is_replaced_in_place() {
    let mut rtree = RTree::<u8, u8>::new();
    assert_eq!(rtree.insert(Point::new(1, 1), 10), None);
    assert_eq!(rtree.insert(Point::new(1, 1), 11), Some(10));
    assert_eq!(rtree.find(Point::new(1, 1)), Some(&11));
}

#[test]
fn an_empty_tree_finds_nothing() {
    let mut rtree = RTree::<u16, u16>::new();
    assert_eq!(rtree.find(Point::new(0, 0)), None);
    assert_eq!(rtree.find(Point::new(7, 3)), None);
    assert!(rtree.find_mut(Point::new(7, 3)).is_none());
    let mut other = RTree::<i64, u16>::with_radix(2);
    assert_eq!(other.find(Point::new(-1, 5)), None);
    assert!(other.find_mut(Point::new(-1, 5)).is_none());
}

#[test]
fn a_tree_of_one_point_finds_that_point_alone() {
    let mut rtree = RTree::<u16, u16>::new();
    rtree.insert(Point::new(1, 1), 10);
    assert_eq!(rtree.find(Point::new(1, 1)), Some(&10));
    assert_eq!(rtree.find(Point::new(2, 2)), None);
    assert_eq!(rtree.find(Point::new(1, 2)), None);
    assert!(rtree.find_mut(Point::new(2, 2)).is_none());
    // Replacing the value of the only point changes nothing for other points.
    assert_eq!(rtree.insert(Point::new(1, 1), 11), Some(10));
    assert_eq!(rtree.find(Point::new(1, 1)), Some(&11));
    assert_eq!(rtree.find(Point::new(2, 2)), None);
    match rtree.find_mut(Point::new(1, 1)) {
        Some(v) => *v = 12,
        None => panic!("the point was inserted"),
    }
    assert_eq!(rtree.find(Point::new(1, 1)), Some(&12));
    assert_eq!(rtree.find(Point::new(0, 0)), None);
}

#[test]
fn a_leaf_answers_a_descent_with_its_value() {
    // A descent reaches a leaf only from a parent that has found it to cover the point; the
    // leaf itself does not look at the point again.
    let mut leaf: Node<u16, u16> = Node::Leaf { point: Point::new(1, 1), data: 5 };
    assert_eq!(leaf.find(Point::new(1, 1)), Some(&5));
    assert_eq!(leaf.find(Point::new(2, 2)), Some(&5));
    assert!(leaf.find_mut(Point::new(2, 2)).is_some());
}

#[test]
fn a_point_outside_the_tree_is_not_found() {
    let mut rtree = RTree::<i32, u8>::with_radix(2);
    rtree.insert(Point::new(0, 0), 1);
    rtree.insert(Point::new(5, 5), 2);
    rtree.insert(Point::new(9, 9), 3);
    assert_eq!(rtree.find(Point::new(10, 10)), None);
    assert_eq!(rtree.find(Point::new(-1, 0)), None);
    assert_eq!(rtree.find(Point::new(5, 4)), None);
    assert!(rtree.find_mut(Point::new(100, 5)).is_none());
    assert_eq!(rtree.find(Point::new(0, 0)), Some(&1));
    assert_eq!(rtree.find(Point::new(5, 5)), Some(&2));
    assert_eq!(rtree.find(Point::new(9, 9)), Some(&3));
}

#[test]
fn find_mut_changes_the_stored_value() {
    let mut rtree = RTree::<u16, u32>::with_radix(3);
    for (i, (x, y)) in scenario_points().iter().enumerate() {
        rtree.insert(Point::new(*x, *y), i as u32);
    }
    match rtree.find_mut(Point::new(8, 6)) {
        Some(v) => {
            assert_eq!(*v, 8);
            *v = 800;
        },
        None => panic!("the point was inserted"),
    }
    assert_eq!(rtree.find(Point::new(8, 6)), Some(&800));
    assert_eq!(rtree.find(Point::new(0, 10)), Some(&9));
    assert!(rtree.find_mut(Point::new(8, 7)).is_none());
}

fn count_leaves(node: &Node<u16, usize>) -> usize {
    match node {
        Node::Leaf { .. } => 1,
        Node::Node { vector, .. } => vector.iter().map(count_leaves).sum(),
    }
}

fn coverage_is_tight(node: &Node<u16, usize>) -> bool {
    match node {
        Node::Leaf { .. } => true,
        Node::Node { coverage, vector } => {
            let mut union = vector[0].coverage();
            for child in vector.iter() {
                union = union.union(child.coverage());
            }
            union == *coverage && vector.iter().all(coverage_is_tight)
        },
    }
}

/// Inserts into a tree held as a node, as the index does with its root.
fn insert_at_root(root: Node<u16, usize>, point: Point<u16>, value: usize, fill: usize) -> (
    Node<u16, usize>,
    Option<usize>,
) {
    let mut root = root;
    let (old, overflow) = root.insert(point, value, fill);
    match overflow {
        Some(part) => {
            let coverage = part.coverage().union(root.coverage());
            (Node::Node { coverage: coverage, vector: vec![part, root] }, old)
        },
        None => (root, old),
    }
}

#[test]
fn every_coverage_is_the_union_of_the_subtrees() {
    let points = scenario_points();
    let mut root = Node::Leaf { point: Point::new(points[0].0, points[0].1), data: 0 };
    for (i, (x, y)) in points.iter().enumerate().skip(1) {
        let (next, old) = insert_at_root(root, Point::new(*x, *y), i, 4);
        assert_eq!(old, None);
        root = next;
        assert!(coverage_is_tight(&root));
        assert_eq!(count_leaves(&root), i + 1);
    }
    assert!(root.coverage() == Tile::new(Point::new(0, 1), Point::new(10, 10)));
}

#[test]
fn a_replacement_keeps_the_number_of_leaves() {
    let points = scenario_points();
    let mut root = Node::Leaf { point: Point::new(points[0].0, points[0].1), data: 0 };
    for (i, (x, y)) in points.iter().enumerate().skip(1) {
        root = insert_at_root(root, Point::new(*x, *y), i, 4).0;
    }
    let leaves = count_leaves(&root);
    let (root, old) = insert_at_root(root, Point::new(9, 10), 99, 4);
    assert_eq!(old, Some(6));
    assert_eq!(count_leaves(&root), leaves);
    assert_eq!(root.find(Point::new(9, 10)), Some(&99));
}

#[test]
fn a_leaf_elsewhere_hands_the_new_leaf_up() {
    let mut leaf: Node<u16, usize> = Node::Leaf { point: Point::new(1, 1), data: 1 };
    let (old, overflow) = leaf.insert(Point::new(1, 2), 2, 4);
    assert_eq!(old, None);
    match overflow {
        Some(Node::Leaf { point, data }) => {
            assert!(point == Point::new(1, 2));
            assert_eq!(data, 2);
        },
        _ => panic!("the new leaf has to go up"),
    }
    match leaf {
        Node::Leaf { point, data } => {
            assert!(point == Point::new(1, 1));
            assert_eq!(data, 1);
        },
        _ => panic!("the leaf stays a leaf"),
    }
}

#[test]
fn a_full_node_of_leaves_keeps_them_all_when_split() {
    // The line runs along the low side of the last of the sorted tiles, so no
    // leaf lies strictly after it.
    let mut root: Node<u16, usize> = Node::Leaf { point: Point::new(1, 1), data: 0 };
    let points = scenario_points();
    for (i, (x, y)) in points.iter().enumerate().skip(1).take(4) {
        root = insert_at_root(root, Point::new(*x, *y), i, 4).0;
    }
    match root {
        Node::Node { ref vector, .. } => assert_eq!(vector.len(), 5),
        _ => panic!("the root is a node"),
    }
    // The next point lies after the line of the next split and leaves the root.
    let root = insert_at_root(root, Point::new(10, 10), 5, 4).0;
    match root {
        Node::Node { ref vector, ref coverage } => {
            assert_eq!(vector.len(), 2);
            assert!(vector[0] == Point::new(10, 10));
            assert!(vector[1] == Tile::new(Point::new(1, 1), Point::new(4, 4)));
            assert!(*coverage == Tile::new(Point::new(1, 1), Point::new(10, 10)));
        },
        _ => panic!("the root is a node"),
    }
}

#[test]
fn split_node_leaves_a_small_node_alone() {
    let mut node: Node<u16, ()> = five_leaves();
    assert!(node.split_node(5).is_none());
    match node {
        Node::Node { ref vector, ref coverage } => {
            assert_eq!(vector.len(), 5);
            assert!(*coverage == Tile::new(Point::new(0, 0), Point::new(10, 10)));
        },
        _ => panic!("Node became a leaf"),
    }
    let mut leaf: Node<u16, ()> = Node::Leaf { point: Point::new(3, 3), data: () };
    assert!(leaf.split_node(0).is_none());
}

#[test]
fn partition_moves_what_lies_after_the_line() {
    let mut node = five_leaves();
    let line = Line::Vertical(VerticalLine::new(4u16));
    let ret = node.partition(&line, 4);
    match ret {
        Some(Node::Node { ref coverage, ref vector }) => {
            assert_eq!(vector.len(), 3);
            assert!(vector[0] == Point::new(5, 9));
            assert!(vector[1] == Point::new(6, 0));
            assert!(vector[2] == Point::new(5, 5));
            assert!(*coverage == Tile::new(Point::new(5, 0), Point::new(6, 9)));
        },
        _ => panic!("three leaves lie after the line"),
    }
    match node {
        Node::Node { ref coverage, ref vector } => {
            assert_eq!(vector.len(), 2);
            assert!(vector[0] == Point::new(0, 0));
            assert!(vector[1] == Point::new(3, 10));
            assert!(*coverage == Tile::new(Point::new(0, 0), Point::new(3, 10)));
        },
        _ => panic!("Node became a leaf"),
    }
}

#[test]
fn partition_hands_a_single_subtree_back_as_it_is() {
    let mut node = five_leaves();
    let line = Line::Horizontal(HorizontalLine::new(9u16));
    let ret = node.partition(&line, 4);
    match ret {
        Some(Node::Leaf { point, .. }) => assert!(point == Point::new(3, 10)),
        _ => panic!("one leaf lies after the line"),
    }
    match node {
        Node::Node { ref vector, .. } => assert_eq!(vector.len(), 4),
        _ => panic!("Node became a leaf"),
    }
}

#[test]
fn partition_splits_the_subtrees_that_the_line_crosses() {
    let inner = Node::Node {
        coverage: Tile::new(Point::new(2u16, 2), Point::new(8, 3)),
        vector: vec![
            Node::Leaf { point: Point::new(2, 2), data: 'a' },
            Node::Leaf { point: Point::new(8, 3), data: 'b' },
            Node::Leaf { point: Point::new(5, 2), data: 'c' },
        ],
    };
    let mut node = Node::Node {
        coverage: Tile::new(Point::new(0u16, 0), Point::new(9, 9)),
        vector: vec![
            Node::Leaf { point: Point::new(0, 0), data: 'd' },
            inner,
            Node::Leaf { point: Point::new(9, 9), data: 'e' },
        ],
    };
    let line = Line::Vertical(VerticalLine::new(5u16));
    let ret = node.partition(&line, 4);
    match ret {
        Some(Node::Node { ref coverage, ref vector }) => {
            assert_eq!(vector.len(), 2);
            assert!(vector[0] == Point::new(8, 3));
            assert!(vector[1] == Point::new(9, 9));
            assert!(*coverage == Tile::new(Point::new(8, 3), Point::new(9, 9)));
        },
        _ => panic!("two leaves lie after the line"),
    }
    match node {
        Node::Node { ref coverage, ref vector } => {
            assert_eq!(vector.len(), 2);
            assert!(vector[0] == Point::new(0, 0));
            assert!(vector[1] == Tile::new(Point::new(2, 2), Point::new(5, 2)));
            assert!(*coverage == Tile::new(Point::new(0, 0), Point::new(5, 2)));
        },
        _ => panic!("Node became a leaf"),
    }
}

#[test]
fn sweep_prefers_the_vertical_line_on_a_tie() {
    let vec = vec![
        Tile::new(Point::new(0u16, 0), Point::new(1, 1)),
        Tile::new(Point::new(2, 2), Point::new(3, 3)),
        Tile::new(Point::new(4, 4), Point::new(5, 5)),
    ];
    let line = Node::<u16, u16>::sweep(vec, 1);
    assert!(line.is_vertical());
    assert!(*line == Point::new(2, 0));
}

#[test]
fn sweep_takes_the_line_from_the_sorted_low_corners() {
    // Given out of order: the low corners on x are 9, 0, 4 and 2.
    let vec = vec![
        Tile::new(Point::new(9i32, 0), Point::new(9, 9)),
        Tile::new(Point::new(0, 0), Point::new(0, 9)),
        Tile::new(Point::new(4, 0), Point::new(4, 9)),
        Tile::new(Point::new(2, 0), Point::new(2, 9)),
    ];
    let line = Node::<i32, u16>::sweep(vec, 2);
    assert!(line.is_vertical());
    assert!(*line == Point::new(4, -7));
}

#[test]
fn a_node_compares_by_its_extent() {
    let leaf: Node<u16, ()> = Node::Leaf { point: Point::new(5, 5), data: () };
    assert!(leaf == Point::new(5, 5));
    assert!(leaf >= Point::new(5, 5));
    assert!(leaf < Point::new(5, 6));
    let node = five_leaves();
    assert!(node > Point::new(5, 6));
    assert!(node < Point::new(11, 6));
    assert!(node >= Tile::new(Point::new(1, 1), Point::new(2, 2)));
    assert!(node == Line::Vertical(VerticalLine::new(10)));
    assert!(node < Line::Vertical(VerticalLine::new(11)));
}

#[test]
fn a_subtree_lies_before_across_or_after_a_line() {
    let leaf: Node<u16, ()> = Node::Leaf { point: Point::new(5, 5), data: () };
    assert_eq!(leaf.side_of(&Line::Vertical(VerticalLine::new(6))), Side::Before);
    assert_eq!(leaf.side_of(&Line::Vertical(VerticalLine::new(5))), Side::Across);
    assert_eq!(leaf.side_of(&Line::Vertical(VerticalLine::new(4))), Side::After);
    let node = five_leaves();
    assert_eq!(node.side_of(&Line::Horizontal(HorizontalLine::new(11))), Side::Before);
    assert_eq!(node.side_of(&Line::Horizontal(HorizontalLine::new(10))), Side::Across);
    assert_eq!(node.side_of(&Line::Horizontal(HorizontalLine::new(0))), Side::Across);
    assert!(node.coverage() == Tile::new(Point::new(0, 0), Point::new(10, 10)));
    assert!(leaf.coverage() == Tile::from_point(Point::new(5, 5)));
}

#[test]
fn a_subtree_covers_the_points_of_its_extent() {
    let leaf: Node<u16, ()> = Node::Leaf { point: Point::new(5, 5), data: () };
    assert!(leaf.covers(&Point::new(5, 5)));
    assert!(!leaf.covers(&Point::new(5, 6)));
    let node = five_leaves();
    assert!(node.covers(&Point::new(10, 0)));
    assert!(node.covers(&Point::new(7, 7)));
    assert!(!node.covers(&Point::new(11, 0)));
}

#[test]
fn a_search_enters_the_first_subtree_that_covers_the_point() {
    // The recorded coverage of the first subtree holds (5, 5), so the search
    // enters it and does not look at the leaf behind it.
    let first = Node::Node {
        coverage: Tile::new(Point::new(0u16, 0), Point::new(9, 9)),
        vector: vec![Node::Leaf { point: Point::new(1, 1), data: 'a' }],
    };
    let mut node = Node::Node {
        coverage: Tile::new(Point::new(0u16, 0), Point::new(9, 9)),
        vector: vec![first, Node::Leaf { point: Point::new(5, 5), data: 'b' }],
    };
    assert_eq!(node.find(Point::new(1, 1)), Some(&'a'));
    assert_eq!(node.find(Point::new(5, 5)), None);
    assert!(node.find_mut(Point::new(5, 5)).is_none());
    assert_eq!(node.find(Point::new(10, 10)), None);
}

fn widest_node(node: &Node<u16, usize>) -> usize {
    match node {
        Node::Leaf { .. } => 0,
        Node::Node { vector, .. } => {
            vector.iter().map(widest_node).max().unwrap_or(0).max(vector.len())
        },
    }
}

#[test]
fn no_node_grows_above_the_fill_factor_before_one_is_full() {
    let points = scenario_points();
    let mut root = Node::Leaf { point: Point::new(points[0].0, points[0].1), data: 0 };
    for (i, (x, y)) in points.iter().enumerate().skip(1) {
        root = insert_at_root(root, Point::new(*x, *y), i, 11).0;
        assert!(widest_node(&root) <= 11);
    }
    assert_eq!(widest_node(&root), 11);
    // The root is full now: the next leaf is one too many, and the split keeps them all.
    root = insert_at_root(root, Point::new(7, 7), 11, 11).0;
    assert_eq!(widest_node(&root), 12);
}
