use algorithms::aho_corasick::PatternFinder;
use std::collections::HashMap;

fn check_correct_output(
    patterns: Vec<String>,
    text: String,
    pattern_locations: &[(String, Vec<usize>)],
) {
    let expected_output: HashMap<String, Vec<usize>> =
        HashMap::from_iter(pattern_locations.iter().cloned());
    let pattern_finder = PatternFinder::new(patterns);
    let found = pattern_finder.find_patterns(&text);
    let entries = found.len();
    let output: HashMap<String, Vec<usize>> = found.into_iter().collect();
    assert_eq!(output.len(), entries);
    assert_eq!(output, expected_output);
}

#[test]
fn test_empty() {
    check_correct_output(vec![], String::from(""), &[]);
}

#[test]
fn test_single() {
    check_correct_output(
        vec![String::from("a")],
        String::from("aa"),
        &[(String::from("a"), vec![0, 1])],
    );
}

#[test]
fn test_simple_overlap() {
    check_correct_output(
        vec![String::from("aa"), String::from("ab")],
        String::from("aab"),
        &[(String::from("aa"), vec![0]), (String::from("ab"), vec![1])],
    );
}

#[test]
fn test_sub_pattern() {
    check_correct_output(
        vec![String::from("a"), String::from("aa")],
        String::from("aaa"),
        &[
            (String::from("a"), vec![0, 1, 2]),
            (String::from("aa"), vec![0, 1]),
        ],
    );
}

#[test]
fn test_duplicate_pattern() {
    check_correct_output(
        vec![String::from("a"), String::from("a")],
        String::from("aaa"),
        &[(String::from("a"), vec![0, 1, 2])],
    );
}

#[test]
fn test_bananananaspaj() {
    check_correct_output(
        vec![
            String::from("anas"),
            String::from("ana"),
            String::from("an"),
            String::from("a"),
        ],
        String::from("bananananaspaj"),
        &[
            (String::from("anas"), vec![7]),
            (String::from("ana"), vec![1, 3, 5, 7]),
            (String::from("an"), vec![1, 3, 5, 7]),
            (String::from("a"), vec![1, 3, 5, 7, 9, 12]),
        ],
    );
}

#[test]
fn foo_oof_o_in_foof() {
    let finder = PatternFinder::new(vec![
        String::from("foo"),
        String::from("oof"),
        String::from("o"),
    ]);
    let found = finder.find_patterns(&String::from("foof"));
    assert_eq!(
        found,
        vec![
            (String::from("foo"), vec![0]),
            (String::from("oof"), vec![1]),
            (String::from("o"), vec![1, 2]),
        ]
    );
}

#[test]
fn entries_come_in_the_order_of_the_patterns() {
    let finder = PatternFinder::new(vec![
        String::from("b"),
        String::from("zz"),
        String::from("ab"),
        String::from("b"),
        String::from("a"),
    ]);
    let found = finder.find_patterns(&String::from("abab"));
    assert_eq!(
        found,
        vec![
            (String::from("b"), vec![1, 3]),
            (String::from("ab"), vec![0, 2]),
            (String::from("a"), vec![0, 2]),
        ]
    );
}

#[test]
fn no_patterns_find_nothing() {
    let finder = PatternFinder::new(vec![]);
    assert!(finder.find_patterns(&String::from("any text at all")).is_empty());
    assert!(finder.find_patterns(&String::new()).is_empty());
}

#[test]
fn pattern_longer_than_text_is_absent() {
    let finder = PatternFinder::new(vec![String::from("abcd"), String::from("bc")]);
    let found = finder.find_patterns(&String::from("abc"));
    assert_eq!(found, vec![(String::from("bc"), vec![1])]);
}

#[test]
fn pattern_without_occurrence_is_absent() {
    let finder = PatternFinder::new(vec![String::from("x"), String::from("y")]);
    let found = finder.find_patterns(&String::from("yyy"));
    assert_eq!(found, vec![(String::from("y"), vec![0, 1, 2])]);
}

#[test]
fn offsets_count_symbols_not_bytes() {
    let finder = PatternFinder::new(vec![String::from("é"), String::from("ñé"), String::from("z")]);
    let found = finder.find_patterns(&String::from("éñéz"));
    assert_eq!(
        found,
        vec![
            (String::from("é"), vec![0, 2]),
            (String::from("ñé"), vec![1]),
            (String::from("z"), vec![3]),
        ]
    );
}

#[test]
fn empty_pattern_is_found_after_every_symbol() {
    let finder = PatternFinder::new(vec![String::from(""), String::from("b")]);
    let found = finder.find_patterns(&String::from("abc"));
    assert_eq!(
        found,
        vec![(String::from(""), vec![1, 2, 3]), (String::from("b"), vec![1])]
    );
    assert!(finder.find_patterns(&String::new()).is_empty());
}

#[test]
fn failure_links_recover_after_a_mismatch() {
    let finder = PatternFinder::new(vec![
        String::from("abcd"),
        String::from("bcx"),
        String::from("cx"),
        String::from("c"),
    ]);
    let found = finder.find_patterns(&String::from("abcxabcd"));
    assert_eq!(
        found,
        vec![
            (String::from("abcd"), vec![4]),
            (String::from("bcx"), vec![1]),
            (String::from("cx"), vec![2]),
            (String::from("c"), vec![2, 6]),
        ]
    );
}

#[test]
fn building_twice_gives_the_same_result() {
    let patterns = vec![
        String::from("he"),
        String::from("she"),
        String::from("his"),
        String::from("hers"),
    ];
    let text = String::from("ushers and his heroes");
    let first = PatternFinder::new(patterns.clone()).find_patterns(&text);
    let second = PatternFinder::new(patterns).find_patterns(&text);
    assert_eq!(first, second);
    assert_eq!(
        first,
        vec![
            (String::from("he"), vec![2, 15]),
            (String::from("she"), vec![1]),
            (String::from("his"), vec![11]),
            (String::from("hers"), vec![2]),
        ]
    );
}
