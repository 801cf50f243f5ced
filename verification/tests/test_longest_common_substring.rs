use algorithm::dynamic::longest_common_substring::get_longest_common_substring;

#[test]
fn test_substring() {
    let source = "hish";
    let candidates = vec!["vista", "fish", "hosh"]; // 'hosh' for testing equality of first character.
    let best_matches = get_longest_common_substring(source, &candidates);
    assert_eq!(best_matches, vec!["fish"]);
}

#[test]
fn test_substring_chinese() {
    let source = "我是小明";
    let candidates = vec!["他非小明", "他不是小明", "我非小明"];
    let best_matches = get_longest_common_substring(source, &candidates);
    assert_eq!(best_matches, vec!["他不是小明"]);
}

#[test]
fn test_substring_keeps_all_the_best_in_their_order() {
    let candidates = vec!["xxab", "cd", "abyy", "zabz", "b"];
    let best_matches = get_longest_common_substring("ab", &candidates);
    assert_eq!(best_matches, vec!["xxab", "abyy", "zabz"]);
}

#[test]
fn test_substring_with_nothing_in_common() {
    let candidates = vec!["xyz", "", "uvw"];
    let best_matches = get_longest_common_substring("abc", &candidates);
    assert_eq!(best_matches, vec!["xyz", "", "uvw"]);
    let best_matches = get_longest_common_substring("", &candidates);
    assert_eq!(best_matches, vec!["xyz", "", "uvw"]);
}

#[test]
fn test_substring_counts_along_the_diagonal() {
    // "abab" and "baba" share "aba" and "bab": three characters, counted up
    // from one cell of the table to the next below and to the right of it.
    let candidates = vec!["baba", "ab", "abab"];
    let best_matches = get_longest_common_substring("abab", &candidates);
    assert_eq!(best_matches, vec!["abab"]);
    let candidates = vec!["baba", "ab", "bab"];
    let best_matches = get_longest_common_substring("abab", &candidates);
    assert_eq!(best_matches, vec!["baba", "bab"]);
}
