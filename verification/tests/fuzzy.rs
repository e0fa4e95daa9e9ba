use ratto::fuzzy::{fuzzy_filter, fuzzy_filter_checked, new_matcher, substring_filter, substring_filter_checked};

fn items(list: &[&str]) -> Vec<String> {
    list.iter().map(|s| s.to_string()).collect()
}

#[test]
fn substring_filter_is_case_insensitive() {
    let items = items(&["Apple Pie", "banana"]);
    let matches = substring_filter(&items, "apple");
    assert_eq!(matches.len(), 1);
    assert_eq!(matches[0].index, 0);
    assert_eq!(matches[0].positions, vec![0, 1, 2, 3, 4]);
}

#[test]
fn an_empty_query_keeps_every_item_in_order() {
    let items = items(&["b", "a", "c"]);
    let matches = substring_filter(&items, "");
    let indices: Vec<usize> = matches.iter().map(|m| m.index).collect();
    assert_eq!(indices, vec![0, 1, 2]);
    assert!(matches.iter().all(|m| m.score == 0 && m.positions.is_empty()));
}

#[test]
fn positions_count_characters_and_mark_the_first_occurrence() {
    let items = items(&["ééBANANA banana", "x"]);
    let matches = substring_filter_checked(&items, "Ana").expect("items fit");
    assert_eq!(matches.len(), 1);
    assert_eq!(matches[0].index, 0);
    assert_eq!(matches[0].positions, vec![3, 4, 5]);
}

#[test]
fn empty_query_returns_all_in_original_order() {
    let mut m = new_matcher();
    let items = items(&["b", "a", "c"]);
    let matches = fuzzy_filter(&mut m, &items, "", true);
    let indices: Vec<usize> = matches.iter().map(|m| m.index).collect();
    assert_eq!(indices, vec![0, 1, 2]);
}

#[test]
fn exact_substring_outranks_scattered() {
    let mut m = new_matcher();
    let items = items(&["a-p-p-l-e sauce", "apple pie"]);
    let matches = fuzzy_filter(&mut m, &items, "apple", true);
    assert_eq!(matches[0].index, 1, "contiguous match should rank first");
}

#[test]
fn non_matches_are_dropped() {
    let mut m = new_matcher();
    let items = items(&["apple", "banana"]);
    let matches = fuzzy_filter(&mut m, &items, "app", true);
    assert_eq!(matches.len(), 1);
    assert_eq!(matches[0].index, 0);
}

#[test]
fn positions_point_at_matched_chars() {
    let mut m = new_matcher();
    let items = items(&["xaybzc"]);
    let matches = fuzzy_filter(&mut m, &items, "abc", true);
    assert_eq!(matches[0].positions, vec![1, 3, 5]);
}

#[test]
fn unsorted_keeps_item_order() {
    let mut m = new_matcher();
    let items = items(&["zebra apple", "apple"]);
    let matches = fuzzy_filter(&mut m, &items, "apple", false);
    let indices: Vec<usize> = matches.iter().map(|m| m.index).collect();
    assert_eq!(indices, vec![0, 1]);
}

#[test]
fn equal_scores_keep_item_order_when_ranked() {
    let mut m = new_matcher();
    let items = items(&["apple", "zzz", "apple", "apple"]);
    let matches = fuzzy_filter(&mut m, &items, "apple", true);
    let indices: Vec<usize> = matches.iter().map(|m| m.index).collect();
    assert_eq!(indices, vec![0, 2, 3]);
    let scores: Vec<u32> = matches.iter().map(|m| m.score).collect();
    assert!(scores.windows(2).all(|w| w[0] >= w[1]));
}

#[test]
fn the_checked_fuzzy_filter_answers_like_the_plain_one() {
    let list = items(&["alpha", "beta", "gamma"]);
    let mut m = new_matcher();
    let plain = fuzzy_filter(&mut m, &list, "ma", true);
    let mut m2 = new_matcher();
    let checked = fuzzy_filter_checked(&mut m2, &list, "ma", true).expect("short items match");
    assert_eq!(plain.len(), checked.len());
    for (a, b) in plain.iter().zip(checked.iter()) {
        assert_eq!((a.index, a.score, &a.positions), (b.index, b.score, &b.positions));
    }
    let all = fuzzy_filter_checked(&mut m2, &list, "", false).expect("an empty query matches all");
    assert_eq!(all.len(), 3);
}
