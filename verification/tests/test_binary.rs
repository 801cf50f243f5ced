use algorithm::search::binary::binary_search;

#[test]
fn test_array_found() {
    let source = vec![1, 2, 3, 4, 5];
    let target = 4;
    let is_found = binary_search(&source, &target);
    assert_eq!(is_found, true);
}

#[test]
fn test_array_not_found() {
    let source = vec![1, 2, 3, 4, 5];
    let target = 6;
    let is_found = binary_search(&source, &target);
    assert_eq!(is_found, false);
}

#[test]
fn test_binary_search_finds_the_ends() {
    let source = vec![2, 4, 6, 8, 10, 12];
    assert_eq!(binary_search(&source, &2), true);
    assert_eq!(binary_search(&source, &12), true);
}

#[test]
fn test_binary_search_misses_between_keys() {
    let source = vec![2, 4, 6, 8, 10, 12];
    assert_eq!(binary_search(&source, &3), false);
    assert_eq!(binary_search(&source, &7), false);
    assert_eq!(binary_search(&source, &11), false);
    assert_eq!(binary_search(&vec![5], &5), true);
    assert_eq!(binary_search(&vec![5], &9), false);
}
