use algorithm::tree::avl_tree::AVLTree;

fn keys(tree: &AVLTree<u32>, order: u8) -> Vec<u32> {
    let refs = match order {
        0 => tree.pre_order(),
        1 => tree.in_order(),
        _ => tree.post_order(),
    };
    match refs {
        Some(v) => v.into_iter().map(|k| *k).collect(),
        None => vec![],
    }
}

fn build(list: &[u32]) -> AVLTree<u32> {
    let mut tree = AVLTree::Empty;
    for k in list {
        tree.insert(*k);
    }
    tree
}

/// The depth of the tree, or `None` where a node holds another height than
/// its depth or two subtrees differ in depth by more than one.
fn checked_depth(tree: &AVLTree<u32>) -> Option<isize> {
    match tree {
        AVLTree::Empty => Some(0),
        AVLTree::Node(_, h, l, r) => {
            let dl = checked_depth(l)?;
            let dr = checked_depth(r)?;
            let d = 1 + if dl >= dr { dl } else { dr };
            if (dl - dr).abs() > 1 || *h != d {
                None
            } else {
                Some(d)
            }
        }
    }
}

#[test]
fn test_avl_empty_tree() {
    let tree: AVLTree<u32> = AVLTree::new();
    assert_eq!(tree.is_empty(), true);
    assert_eq!(tree.find_min(), None);
    assert_eq!(tree.find_max(), None);
    assert_eq!(tree.contains(1), false);
    assert_eq!(tree.height(), 0);
    assert_eq!(tree.depth(), 0);
    assert_eq!(tree.get_child_num(), 0);
    assert_eq!(tree.is_leaf(), false);
    assert!(tree.pre_order().is_none());
    assert!(tree.in_order().is_none());
    assert!(tree.post_order().is_none());
}

#[test]
fn test_avl_remove_from_empty_tree() {
    let mut tree: AVLTree<u32> = AVLTree::new();
    tree.remove(3);
    assert_eq!(tree.is_empty(), true);
}

#[test]
fn test_avl_in_order_ascends() {
    let tree = build(&[3, 2, 1, 4, 5, 6, 7, 16, 15, 14, 13, 12, 11, 10, 8, 9]);
    assert_eq!(keys(&tree, 1), (1..=16).collect::<Vec<u32>>());
}

#[test]
fn test_avl_balance_after_each_insert() {
    let mut tree = AVLTree::Empty;
    for k in [3u32, 2, 1, 4, 5, 6, 7, 16, 15, 14, 13, 12, 11, 10, 8, 9] {
        tree.insert(k);
        assert!(checked_depth(&tree).is_some());
    }
    assert_eq!(checked_depth(&tree), Some(5));
    assert_eq!(tree.height(), 5);
    assert_eq!(tree.depth(), 5);

    let mut ascending = AVLTree::Empty;
    for k in 1..=100u32 {
        ascending.insert(k);
        assert!(checked_depth(&ascending).is_some());
    }
    assert_eq!(ascending.height(), 7);
}

#[test]
fn test_avl_rotations_on_insert() {
    // left-left
    assert_eq!(keys(&build(&[3, 2, 1]), 0), vec![2, 1, 3]);
    // right-right
    assert_eq!(keys(&build(&[1, 2, 3]), 0), vec![2, 1, 3]);
    // left-right
    assert_eq!(keys(&build(&[3, 1, 2]), 0), vec![2, 1, 3]);
    // right-left
    assert_eq!(keys(&build(&[1, 3, 2]), 0), vec![2, 1, 3]);
}

#[test]
fn test_avl_insert_of_a_key_that_is_there_changes_nothing() {
    let mut tree = build(&[2, 1, 3]);
    let before = keys(&tree, 0);
    tree.insert(2).insert(1).insert(3).insert(2);
    assert_eq!(keys(&tree, 0), before);
    assert_eq!(keys(&tree, 1), vec![1, 2, 3]);
    assert_eq!(tree.height(), 2);

    let mut tree = build(&[2, 1, 2, 3, 2]);
    assert_eq!(keys(&tree, 1), vec![1, 2, 3]);
    assert_eq!(checked_depth(&tree), Some(2));
    tree.remove(2);
    assert_eq!(keys(&tree, 1), vec![1, 3]);
    assert_eq!(tree.contains(2), false);
}

#[test]
fn test_avl_contains_follows_insert_and_remove() {
    let mut tree = build(&[5, 4, 3, 6, 2]);
    assert_eq!(tree.contains(3), true);
    tree.remove(3);
    assert_eq!(tree.contains(3), false);
    assert_eq!(tree.contains(2), true);
    assert_eq!(tree.contains(6), true);
    tree.insert(3);
    assert_eq!(tree.contains(3), true);
}

#[test]
fn test_avl_remove_of_absent_key_changes_nothing() {
    let mut tree = build(&[5, 4, 3, 6, 2]);
    let before = keys(&tree, 0);
    tree.remove(9);
    assert_eq!(keys(&tree, 0), before);
}

#[test]
fn test_avl_remove_then_insert_restores_in_order() {
    let list = [3, 2, 1, 4, 5, 6, 7, 16, 15, 14, 13, 12, 11, 10, 8, 9];
    for k in list {
        let mut tree = build(&list);
        let before = keys(&tree, 1);
        tree.remove(k);
        assert_eq!(keys(&tree, 1).len(), before.len() - 1);
        tree.insert(k);
        assert_eq!(keys(&tree, 1), before);
    }
}

#[test]
fn test_avl_rebuilt_from_pre_order() {
    let tree = build(&[3, 2, 1, 4, 5, 6, 7, 16, 15, 14, 13, 12, 11, 10, 8, 9]);
    let again = build(&keys(&tree, 0));
    assert_eq!(keys(&again, 1), keys(&tree, 1));
}

#[test]
fn test_avl_remove_root_with_two_children() {
    let mut tree = build(&[2, 1, 3]);
    tree.remove(2);
    assert_eq!(keys(&tree, 0), vec![3, 1]);
    assert_eq!(tree.height(), 2);
}

#[test]
fn test_avl_remove_beside_a_right_subtree_with_equal_sides() {
    // The right subtree of 4 is deeper by two and its own subtrees are
    // equally deep: one rotation to the left restores the balance.
    let mut tree = build(&[10, 18, 9, 1, 4, 3, 19, 8]);
    assert_eq!(keys(&tree, 0), vec![4, 1, 3, 10, 9, 8, 18, 19]);
    assert!(checked_depth(&tree).is_some());
    tree.remove(1);
    assert_eq!(keys(&tree, 0), vec![10, 4, 3, 9, 8, 18, 19]);
    assert_eq!(keys(&tree, 1), vec![3, 4, 8, 9, 10, 18, 19]);
    assert_eq!(checked_depth(&tree), Some(4));

    let mut tree = build(&[5, 2, 10, 1, 7, 12, 6, 13]);
    assert_eq!(keys(&tree, 0), vec![5, 2, 1, 10, 7, 6, 12, 13]);
    tree.remove(1);
    assert_eq!(keys(&tree, 0), vec![10, 5, 2, 7, 6, 12, 13]);
    assert_eq!(checked_depth(&tree), Some(4));
}

#[test]
fn test_avl_clone_is_the_same_tree() {
    let tree = build(&[5, 4, 3, 6, 2]);
    let copy = tree.clone();
    assert_eq!(keys(&copy, 0), keys(&tree, 0));
    assert_eq!(copy.height(), tree.height());
}

/// A sequence of numbers that looks random and is the same at every run.
fn numbers(seed: u64, count: usize, below: u32) -> Vec<u32> {
    let mut state = seed;
    let mut out = Vec::new();
    for _ in 0..count {
        state = state.wrapping_mul(6364136223846793005).wrapping_add(1442695040888963407);
        out.push(((state >> 33) as u32) % below);
    }
    out
}

#[test]
fn test_avl_many_inserts_keep_order_and_balance() {
    for seed in 1..40u64 {
        let list = numbers(seed, 60, 50);
        let mut tree = AVLTree::Empty;
        let mut model: Vec<u32> = Vec::new();
        for k in list {
            tree.insert(k);
            if !model.contains(&k) {
                model.push(k);
                model.sort();
            }
            assert_eq!(keys(&tree, 1), model);
            assert!(checked_depth(&tree).is_some());
        }
    }
}

#[test]
fn test_avl_many_removals_keep_order_and_balance() {
    for seed in 1..40u64 {
        let list = numbers(seed, 40, 30);
        let mut tree = build(&list);
        let mut model: Vec<u32> = list.clone();
        model.sort();
        model.dedup();
        for k in numbers(seed + 100, 60, 30) {
            tree.remove(k);
            model.retain(|x| *x != k);
            assert_eq!(keys(&tree, 1), model);
            assert_eq!(tree.contains(k), model.contains(&k));
            assert!(checked_depth(&tree).is_some());
            assert_eq!(tree.height() as usize, tree.depth());
        }
    }
}

#[test]
fn test_avl_whatever_is_called_keys_and_balance_are_in_order() {
    for seed in 1..60u64 {
        let mut tree = AVLTree::Empty;
        let mut model: Vec<u32> = Vec::new();
        for (step, k) in numbers(seed, 300, 40).into_iter().enumerate() {
            if step % 5 < 3 {
                tree.insert(k);
                if !model.contains(&k) {
                    model.push(k);
                    model.sort();
                }
            } else {
                tree.remove(k);
                model.retain(|x| *x != k);
            }
            assert_eq!(keys(&tree, 1), model);
            assert!(checked_depth(&tree).is_some());
            assert_eq!(tree.find_min(), model.first().copied());
            assert_eq!(tree.find_max(), model.last().copied());
        }
    }
}
