use city_match::text::{chars_of, comes_before, fold_name, normalize_query, run_at, run_within};

fn chars(s: &str) -> Vec<char> {
    s.chars().collect()
}

#[test]
fn chars_of_goes_by_character() {
    assert_eq!(chars_of("zürich"), vec!['z', 'ü', 'r', 'i', 'c', 'h']);
    assert_eq!(chars_of(""), Vec::<char>::new());
}

#[test]
fn run_at_checks_one_position() {
    let hay = chars("nairobi");
    let needle = chars("robi");
    assert!(run_at(&needle, 4, &hay, 3));
    assert!(!run_at(&needle, 4, &hay, 2));
    assert!(run_at(&needle, 0, &hay, 7));
}

#[test]
fn run_at_takes_only_the_first_characters() {
    let hay = chars("nairobi");
    let needle = chars("naxx");
    assert!(run_at(&needle, 2, &hay, 0));
    assert!(!run_at(&needle, 3, &hay, 0));
}

#[test]
fn run_within_finds_a_run_anywhere() {
    let hay = chars("nairobi");
    assert!(run_within(&chars("nai"), 3, &hay));
    assert!(run_within(&chars("airo"), 4, &hay));
    assert!(run_within(&chars("robi"), 4, &hay));
    assert!(run_within(&chars("nairobi"), 7, &hay));
    assert!(!run_within(&chars("rob1"), 4, &hay));
    assert!(!run_within(&chars("nairobis"), 8, &hay));
}

#[test]
fn the_empty_run_is_within_everything() {
    assert!(run_within(&chars(""), 0, &chars("nairobi")));
    assert!(run_within(&chars(""), 0, &chars("")));
    assert!(run_within(&chars("abc"), 0, &chars("")));
}

#[test]
fn comes_before_is_the_lexicographic_order() {
    assert!(comes_before(&chars("abc"), &chars("abd")));
    assert!(!comes_before(&chars("abd"), &chars("abc")));
    assert!(comes_before(&chars("ab"), &chars("abc")));
    assert!(!comes_before(&chars("abc"), &chars("ab")));
    assert!(!comes_before(&chars("abc"), &chars("abc")));
    assert!(!comes_before(&chars("b"), &chars("abc")));
    assert!(comes_before(&chars(""), &chars("a")));
    assert!(!comes_before(&chars(""), &chars("")));
}

#[test]
fn comes_before_agrees_with_the_order_of_strings() {
    let names = ["", "a", "ab", "abc", "b", "zürich", "zurich", "Zurich", "é", "z"];
    for a in names {
        for b in names {
            assert_eq!(comes_before(&chars(a), &chars(b)), a < b);
        }
    }
}

#[test]
fn fold_name_lowercases() {
    assert_eq!(fold_name("Nairobi"), "nairobi");
    assert_eq!(fold_name("ZÜRICH"), "zürich");
    assert_eq!(fold_name("São Paulo"), "são paulo");
    assert_eq!(fold_name(""), "");
}

#[test]
fn fold_name_keeps_whitespace_and_punctuation() {
    assert_eq!(fold_name("  St. John's "), "  st. john's ");
}

#[test]
fn normalize_query_trims_and_lowercases() {
    assert_eq!(normalize_query("  LoNdon \n"), "london");
    assert_eq!(normalize_query("Nai"), "nai");
    assert_eq!(normalize_query("New York"), "new york");
    assert_eq!(normalize_query("   "), "");
}
