use algorithm::sort::select::selection_sort;

#[test]
fn test_sort_array() {
    let mut source = vec![1, 4, 5, 2, 3];
    selection_sort(&mut source);
    assert_eq!(source, vec![1, 2, 3, 4, 5]);
}

#[test]
fn test_selection_sort_keeps_repeated_keys() {
    let mut source = vec![3, 1, 3, 2, 1, 3];
    selection_sort(&mut source);
    assert_eq!(source, vec![1, 1, 2, 3, 3, 3]);
}

#[test]
fn test_selection_sort_of_nothing_and_of_one() {
    let mut none: Vec<u32> = vec![];
    selection_sort(&mut none);
    assert_eq!(none, Vec::<u32>::new());

    let mut one = vec![7];
    selection_sort(&mut one);
    assert_eq!(one, vec![7]);
}
