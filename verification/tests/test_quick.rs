use algorithm::sort::quick::quick_sort;

#[test]
fn test_quick_test_quick_sort_array() {
    let mut source = vec![3, 2, 5, 1, 4];
    quick_sort(&mut source);
    assert_eq!(source, vec![1, 2, 3, 4, 5]);
}

#[test]
fn quick_test_quick_sort_array() {
    let mut source = vec![3, 2, 5, 1, 4];
    quick_sort(&mut source);
    assert_eq!(source, vec![1, 2, 3, 4, 5]);
}

#[test]
fn test_quick_sort_keeps_repeated_keys() {
    let mut source = vec![3, 1, 3, 2, 1, 3];
    quick_sort(&mut source);
    assert_eq!(source, vec![1, 1, 2, 3, 3, 3]);
}

#[test]
fn test_quick_sort_of_nothing_and_of_one() {
    let mut none: Vec<u32> = vec![];
    quick_sort(&mut none);
    assert_eq!(none, Vec::<u32>::new());

    let mut one = vec![7];
    quick_sort(&mut one);
    assert_eq!(one, vec![7]);
}
