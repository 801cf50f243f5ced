use algorithm::tree::binary_search_tree::BST;

fn in_order(tree: &BST<u32>) -> Vec<u32> {
    match tree.in_order() {
        Some(v) => v.into_iter().map(|k| *k).collect(),
        None => vec![],
    }
}

fn build(list: &[u32]) -> BST<u32> {
    let mut tree = BST::Empty;
    for k in list {
        tree.insert(*k);
    }
    tree
}

#[test]
fn test_bst_empty_tree() {
    let mut tree: BST<u32> = BST::new();
    assert_eq!(tree.is_empty(), true);
    assert_eq!(tree.find_min(), None);
    assert_eq!(tree.find_max(), None);
    assert_eq!(tree.contains(1), false);
    assert_eq!(tree.depth(), 0);
    assert!(tree.pre_order().is_none());
    assert!(tree.in_order().is_none());
    assert!(tree.post_order().is_none());
    tree.remove(1);
    assert_eq!(tree.is_empty(), true);
}

#[test]
fn test_bst_repeated_key_goes_right() {
    let mut tree = build(&[2, 1, 2, 3]);
    assert_eq!(in_order(&tree), vec![1, 2, 2, 3]);
    let pre: Vec<u32> = tree.pre_order().unwrap().into_iter().map(|k| *k).collect();
    assert_eq!(pre, vec![2, 1, 2, 3]);
    tree.remove(2);
    assert_eq!(in_order(&tree), vec![1, 2, 3]);
}

#[test]
fn test_bst_remove_then_insert_restores_in_order() {
    let list = [1, 4, 3, 6, 2, 10, 5];
    for k in list {
        let mut tree = build(&list);
        let before = in_order(&tree);
        tree.remove(k);
        tree.insert(k);
        assert_eq!(in_order(&tree), before);
    }
}

#[test]
fn test_bst_rebuilt_from_pre_order_is_the_same() {
    let tree = build(&[1, 4, 3, 6, 2, 10, 5]);
    let pre: Vec<u32> = tree.pre_order().unwrap().into_iter().map(|k| *k).collect();
    let again = build(&pre);
    assert_eq!(in_order(&again), in_order(&tree));
}
