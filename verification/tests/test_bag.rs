use algorithm::dynamic::bag::{bag_problem, calc_bag_problem_table, gen_bag_size_list, Item};

#[test]
fn test_gen_bag_size_list_no_repeat() {
    let mut items: Vec<Item> = Vec::new();
    items.push(Item::new("Guitar", 1, 1500));
    items.push(Item::new("Audio Electronics", 4, 3000));
    items.push(Item::new("Notebook", 3, 2000));

    let size_list = gen_bag_size_list(&items);
    assert_eq!(size_list, vec![1, 3, 4]);
}

#[test]
fn test_gen_bag_size_list_partly_repart() {
    let mut items: Vec<Item> = Vec::new();
    items.push(Item::new("Guitar", 1, 1500));
    items.push(Item::new("Audio Electronics", 1, 3000));
    items.push(Item::new("Notebook", 3, 2000));

    let size_list = gen_bag_size_list(&items);
    // println!("size_list: {:?}", size_list);
    assert_eq!(size_list, vec![1, 2, 3]);
}

#[test]
fn test_gen_bag_size_list_of_nothing_and_of_one() {
    let items: Vec<Item> = Vec::new();
    assert_eq!(gen_bag_size_list(&items), Vec::<u32>::new());
    let items = vec![Item::new("Guitar", 2, 1500)];
    assert_eq!(gen_bag_size_list(&items), vec![2]);
}

#[test]
fn test_bag_problem() {
    let mut items: Vec<Item> = Vec::new();
    items.push(Item::new("Guitar", 1, 1500));
    items.push(Item::new("Audio Electronics", 4, 3000));
    items.push(Item::new("Notebook", 3, 2000));

    let bag_size = 4;
    let best_value_items = bag_problem(&items, bag_size);
    assert_eq!(
        best_value_items,
        vec!["Guitar".to_owned(), "Notebook".to_owned()]
    );
}

#[test]
fn test_bag_problem_for_each_size() {
    let mut items: Vec<Item> = Vec::new();
    items.push(Item::new("Guitar", 1, 1500));
    items.push(Item::new("Audio Electronics", 4, 3000));
    items.push(Item::new("Notebook", 3, 2000));

    assert_eq!(bag_problem(&items, 1), vec!["Guitar".to_owned()]);
    assert_eq!(bag_problem(&items, 3), vec!["Notebook".to_owned()]);
}

#[test]
fn test_bag_problem_keeps_the_earlier_items_among_equals() {
    // one item fills the bag and is worth as much as the two before it
    let mut items: Vec<Item> = Vec::new();
    items.push(Item::new("a", 1, 10));
    items.push(Item::new("b", 1, 10));
    items.push(Item::new("c", 2, 20));
    assert_eq!(bag_problem(&items, 2), vec!["a".to_owned(), "b".to_owned()]);
    assert_eq!(bag_problem(&items, 1), vec!["a".to_owned()]);
}

#[test]
fn test_calc_bag_problem_table_gives_sizes_and_names() {
    let mut items: Vec<Item> = Vec::new();
    items.push(Item::new("Guitar", 1, 1500));
    items.push(Item::new("Audio Electronics", 4, 3000));
    items.push(Item::new("Notebook", 3, 2000));

    let (_, sizes, names) = calc_bag_problem_table(&items);
    assert_eq!(sizes, vec![1, 3, 4]);
    assert_eq!(names, vec!["Guitar", "Audio Electronics", "Notebook"]);
}

#[test]
fn test_bag_problem_with_an_item_that_takes_no_room() {
    // the item without a size goes beside what the row above holds for the
    // same room
    let mut items: Vec<Item> = Vec::new();
    items.push(Item::new("b", 1, 10));
    items.push(Item::new("a", 0, 5));
    assert_eq!(gen_bag_size_list(&items), vec![0, 1]);
    assert_eq!(bag_problem(&items, 1), vec!["b".to_owned(), "a".to_owned()]);
    assert_eq!(bag_problem(&items, 0), vec!["a".to_owned()]);
}

#[test]
fn test_bag_problem_where_an_item_fills_the_room_it_goes_alone() {
    // "b" fills the bag of size 1 and is worth more than the bag above, so
    // it stands alone, though "a" would go beside it
    let mut items: Vec<Item> = Vec::new();
    items.push(Item::new("a", 0, 5));
    items.push(Item::new("b", 1, 10));
    assert_eq!(gen_bag_size_list(&items), vec![0, 1]);
    assert_eq!(bag_problem(&items, 1), vec!["b".to_owned()]);
    assert_eq!(bag_problem(&items, 0), vec!["a".to_owned()]);
}
