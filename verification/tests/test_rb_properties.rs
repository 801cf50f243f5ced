use algorithm::tree::red_black_tree::{Color, RBNode, RBNodeInfo, RBTree};

fn build(list: &[u32]) -> RBTree<u32> {
    let mut tree = RBTree::new();
    for k in list {
        tree.insert(*k);
    }
    tree
}

fn in_order(tree: &RBTree<u32>) -> Vec<u32> {
    match tree.in_order() {
        Some(v) => v.into_iter().map(|k| *k).collect(),
        None => vec![],
    }
}

fn pre_order(tree: &RBTree<u32>) -> Vec<u32> {
    match tree.pre_order() {
        Some(v) => v.into_iter().map(|k| *k).collect(),
        None => vec![],
    }
}

fn colored(tree: &RBTree<u32>) -> Vec<(u32, Color)> {
    match tree.pre_order_with_color() {
        Some(v) => v.into_iter().map(|n| (n.value, n.color)).collect(),
        None => vec![],
    }
}

/// What the colored pre-order tells of the tree that it was read from.
struct Shape {
    /// black links on every way down, or `None` where the ways differ
    black_height: Option<usize>,
    /// a red link follows a red link somewhere
    red_after_red: bool,
    /// a red link leads to the right somewhere
    red_to_the_right: bool,
    root_is_red: bool,
}

fn shape_of(nodes: &[(u32, Color)]) -> Shape {
    if nodes.is_empty() {
        return Shape {
            black_height: Some(0),
            red_after_red: false,
            red_to_the_right: false,
            root_is_red: false,
        };
    }
    let (key, color) = nodes[0];
    let rest = &nodes[1..];
    let split = rest.iter().position(|(k, _)| *k > key).unwrap_or(rest.len());
    let left = shape_of(&rest[..split]);
    let right = shape_of(&rest[split..]);
    let red = color == Color::Red;
    let below = match (left.black_height, right.black_height) {
        (Some(a), Some(b)) if a == b => Some(a),
        _ => None,
    };
    Shape {
        black_height: below.map(|h| if red { h } else { h + 1 }),
        red_after_red: left.red_after_red
            || right.red_after_red
            || (red && (left.root_is_red || right.root_is_red)),
        red_to_the_right: left.red_to_the_right || right.red_to_the_right || right.root_is_red,
        root_is_red: red,
    }
}

fn is_red_black(tree: &RBTree<u32>) -> bool {
    let shape = shape_of(&colored(tree));
    shape.black_height.is_some()
        && !shape.red_after_red
        && !shape.red_to_the_right
        && !shape.root_is_red
}

#[test]
fn test_rb_empty_tree() {
    let mut tree: RBTree<u32> = RBTree::new();
    assert_eq!(tree.min(), None);
    assert_eq!(tree.max(), None);
    assert_eq!(tree.contains(&1), false);
    assert_eq!(tree.height(), 0);
    assert!(tree.pre_order().is_none());
    assert!(tree.in_order().is_none());
    assert!(tree.post_order().is_none());
    assert!(tree.pre_order_with_color().is_none());
    tree.remove_min();
    tree.remove_max();
    tree.remove(&1);
    assert!(tree.in_order().is_none());
}

#[test]
fn test_rb_node_new_and_depth() {
    let node: RBNode<u32> = RBNode::new();
    assert_eq!(node.depth(), 0);
    let leaf = RBNode::Node(1u32, Color::Red, Box::new(RBNode::Empty), Box::new(RBNode::Empty));
    let node = RBNode::Node(2u32, Color::Black, Box::new(leaf), Box::new(RBNode::Empty));
    assert_eq!(node.depth(), 2);
    assert_eq!(node.clone().depth(), 2);
}

#[test]
fn test_rb_insert_of_a_key_that_is_there_changes_nothing() {
    let mut tree = build(&[5, 3, 8, 1, 4]);
    let before = colored(&tree);
    tree.insert(3).insert(5).insert(1);
    assert_eq!(colored(&tree), before);
}

#[test]
fn test_rb_in_order_ascends_strictly() {
    let tree = build(&[5, 3, 8, 1, 4, 3, 9, 2, 8, 7, 6, 5]);
    assert_eq!(in_order(&tree), vec![1, 2, 3, 4, 5, 6, 7, 8, 9]);
}

#[test]
fn test_rb_colors_in_order_after_each_insert() {
    for list in [
        vec![3u32, 2, 1, 4, 5, 6, 7, 16, 15, 14, 13, 12, 11, 10, 8, 9],
        (1..=64).collect::<Vec<u32>>(),
        (1..=64).rev().collect::<Vec<u32>>(),
        vec![8, 3, 12, 1, 5, 10, 14, 4, 2, 6, 7, 9, 11, 13, 15],
    ] {
        let mut tree = RBTree::new();
        for k in list {
            tree.insert(k);
            assert!(is_red_black(&tree));
            assert_eq!(colored(&tree)[0].1, Color::Black);
        }
    }
}

#[test]
fn test_rb_insert_of_descending_keys_flips_the_colors_after_the_turn() {
    // 2 goes to the left of 3 behind a red link, 1 to the left of 2; the
    // rotation to the right leaves 1 and 3 behind red links below 2, and the
    // flip that follows at once makes both links black.
    let mut tree = build(&[3, 2, 1]);
    assert_eq!(
        colored(&tree),
        vec![(2, Color::Black), (1, Color::Black), (3, Color::Black)]
    );
    assert!(is_red_black(&tree));
    tree.insert(4);
    assert!(is_red_black(&tree));
    assert_eq!(
        colored(&tree),
        vec![(2, Color::Black), (1, Color::Black), (4, Color::Black), (3, Color::Red)]
    );
}

#[test]
fn test_rb_contains_follows_insert_and_remove() {
    let mut tree = build(&[2, 1]);
    assert_eq!(tree.contains(&1), true);
    tree.remove(&1);
    assert_eq!(tree.contains(&1), false);
    assert_eq!(tree.contains(&2), true);
    tree.insert(1);
    assert_eq!(tree.contains(&1), true);
}

#[test]
fn test_rb_remove_of_absent_key_changes_nothing() {
    let mut tree = build(&[5, 3, 8, 1, 4]);
    let before = colored(&tree);
    tree.remove(&7);
    assert_eq!(colored(&tree), before);
}

#[test]
fn test_rb_removal_after_ascending_inserts() {
    let list = [1u32, 2, 3, 4, 5, 6, 7, 8];
    let mut tree = RBTree::new();
    for k in list {
        tree.insert(k);
    }
    let mut left: Vec<u32> = list.to_vec();
    for k in list {
        tree.remove(&k);
        left.retain(|x| *x != k);
        assert!(is_red_black(&tree));
        assert_eq!(in_order(&tree), left);
    }
    assert!(tree.in_order().is_none());

    let mut tree = build(&list);
    tree.remove_min().remove_max();
    assert!(is_red_black(&tree));
    assert_eq!(in_order(&tree), vec![2, 3, 4, 5, 6, 7]);
}

#[test]
fn test_rb_removal_from_a_red_black_tree_takes_one_key() {
    let list = [3u32, 2, 1, 4, 5, 6, 7, 16, 15, 14, 13, 12, 11, 10, 8, 9];
    for k in list {
        let mut tree = build(&list);
        assert!(is_red_black(&tree));
        tree.remove(&k);
        let mut expected: Vec<u32> = (1..=16).collect();
        expected.retain(|x| *x != k);
        assert_eq!(in_order(&tree), expected);
    }
    let mut tree = build(&list);
    tree.remove_min();
    assert_eq!(in_order(&tree), (2..=16).collect::<Vec<u32>>());
    let mut tree = build(&list);
    tree.remove_max();
    assert_eq!(in_order(&tree), (1..=15).collect::<Vec<u32>>());
}

#[test]
fn test_rb_remove_then_insert_restores_in_order() {
    let list = [8u32, 3, 12, 1, 5, 10, 14];
    for k in list {
        let mut tree = build(&list);
        let before = in_order(&tree);
        tree.remove(&k);
        tree.insert(k);
        assert_eq!(in_order(&tree), before);
    }
}

#[test]
fn test_rb_rebuilt_from_pre_order() {
    let tree = build(&[3, 2, 1, 4, 5, 6, 7, 16, 15, 14, 13, 12, 11, 10, 8, 9]);
    let again = build(&pre_order(&tree));
    assert_eq!(in_order(&again), in_order(&tree));
}

#[test]
fn test_rb_remove_min_keeps_the_colors_in_order() {
    let mut tree = build(&[0, 3, 10, 5, 7]);
    assert_eq!(
        colored(&tree),
        vec![
            (7, Color::Black),
            (3, Color::Red),
            (0, Color::Black),
            (5, Color::Black),
            (10, Color::Black)
        ]
    );
    assert!(is_red_black(&tree));
    tree.remove_min();
    assert_eq!(in_order(&tree), vec![3, 5, 7, 10]);
    assert_eq!(
        colored(&tree),
        vec![(7, Color::Black), (5, Color::Black), (3, Color::Red), (10, Color::Black)]
    );
    assert!(is_red_black(&tree));
}

#[test]
fn test_rb_remove_after_remove_min_takes_one_key() {
    let mut tree = build(&[3, 11, 4, 9, 8]);
    assert!(is_red_black(&tree));
    tree.remove_min();
    assert_eq!(
        colored(&tree),
        vec![(9, Color::Black), (8, Color::Black), (4, Color::Red), (11, Color::Black)]
    );
    assert!(is_red_black(&tree));
    tree.remove(&8);
    assert_eq!(
        colored(&tree),
        vec![(9, Color::Black), (4, Color::Black), (11, Color::Black)]
    );
    assert!(is_red_black(&tree));
    assert_eq!(tree.contains(&8), false);
    assert_eq!(tree.contains(&11), true);

    let mut tree = build(&[1, 2, 3, 5, 4]);
    tree.remove(&1).remove(&3);
    assert_eq!(in_order(&tree), vec![2, 4, 5]);
    assert_eq!(tree.contains(&5), true);
    assert!(is_red_black(&tree));
}

#[test]
fn test_rb_node_info_compares_key_and_color() {
    let a = RBNodeInfo { value: 1u32, color: Color::Red };
    let b = RBNodeInfo { value: 1u32, color: Color::Red };
    let c = RBNodeInfo { value: 1u32, color: Color::Black };
    let d = RBNodeInfo { value: 2u32, color: Color::Red };
    assert!(a == b);
    assert!(a != c);
    assert!(a != d);
}

#[test]
fn test_rb_height_of_small_trees() {
    assert_eq!(build(&[1]).height(), 1);
    assert_eq!(build(&[1, 2]).height(), 2);
    assert_eq!(build(&[1, 2, 3]).height(), 2);
    assert_eq!(build(&[1, 2, 3, 4]).height(), 3);
}

/// A sequence of numbers that looks random and is the same at every run.
fn numbers(seed: u64, count: usize, below: u32) -> Vec<u32> {
    let mut state = seed;
    let mut out = Vec::new();
    for _ in 0..count {
        state = state.wrapping_mul(6364136223846793005).wrapping_add(1442695040888963407);
        out.push(((state >> 33) as u32) % below);
    }
    out
}

#[test]
fn test_rb_many_inserts_keep_order_and_colors() {
    for seed in 1..40u64 {
        let mut tree = RBTree::new();
        let mut model: Vec<u32> = Vec::new();
        for k in numbers(seed, 60, 50) {
            tree.insert(k);
            if !model.contains(&k) {
                model.push(k);
                model.sort();
            }
            assert_eq!(in_order(&tree), model);
            assert!(is_red_black(&tree));
        }
    }
}

#[test]
fn test_rb_one_removal_from_a_grown_tree_takes_one_key() {
    for seed in 1..40u64 {
        let list = numbers(seed, 40, 60);
        for k in numbers(seed + 100, 10, 60) {
            let mut tree = build(&list);
            let mut model: Vec<u32> = in_order(&tree);
            tree.remove(&k);
            model.retain(|x| *x != k);
            assert_eq!(in_order(&tree), model);
        }
        let mut tree = build(&list);
        let model: Vec<u32> = in_order(&tree);
        tree.remove_min();
        assert_eq!(in_order(&tree), model[1..].to_vec());
        let mut tree = build(&list);
        tree.remove_max();
        assert_eq!(in_order(&tree), model[..model.len() - 1].to_vec());
    }
}

#[test]
fn test_rb_removals_after_ascending_inserts_keep_the_colors() {
    for seed in 1..20u64 {
        let mut tree = build(&(1..=40).collect::<Vec<u32>>());
        let mut model: Vec<u32> = (1..=40).collect();
        for (step, k) in numbers(seed, 80, 42).into_iter().enumerate() {
            match step % 3 {
                0 => {
                    tree.remove(&k);
                    model.retain(|x| *x != k);
                }
                1 => {
                    tree.remove_min();
                    if !model.is_empty() {
                        model.remove(0);
                    }
                }
                _ => {
                    tree.remove_max();
                    model.pop();
                }
            }
            assert_eq!(in_order(&tree), model);
            assert!(is_red_black(&tree));
            }
    }
}

#[test]
fn test_rb_whatever_is_called_keys_and_colors_are_in_order() {
    for seed in 1..60u64 {
        let mut tree = RBTree::new();
        let mut model: Vec<u32> = Vec::new();
        for (step, k) in numbers(seed, 300, 40).into_iter().enumerate() {
            match step % 6 {
                0 | 1 | 2 => {
                    tree.insert(k);
                    if !model.contains(&k) {
                        model.push(k);
                        model.sort();
                    }
                }
                3 => {
                    tree.remove(&k);
                    model.retain(|x| *x != k);
                }
                4 => {
                    tree.remove_min();
                    if !model.is_empty() {
                        model.remove(0);
                    }
                }
                _ => {
                    tree.remove_max();
                    model.pop();
                }
            }
            assert_eq!(in_order(&tree), model);
            assert!(is_red_black(&tree));
            assert_eq!(tree.contains(&k), model.contains(&k));
            assert_eq!(tree.min(), model.first().copied());
            assert_eq!(tree.max(), model.last().copied());
        }
    }
}
