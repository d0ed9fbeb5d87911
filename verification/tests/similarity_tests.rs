use city_match::score::Score;
use city_match::similarity::{
    count_agreeing, edit_distance_score, heuristic_of_chars, heuristic_score, is_admitted,
    is_closer, score, score_for_query, Strategy,
};

fn chars(s: &str) -> Vec<char> {
    s.chars().collect()
}

fn mixed(units: u64, numerator: u64, denominator: u64) -> Score {
    Score { units, numerator, denominator }
}

#[test]
fn exact_match_scores_hundred() {
    for name in ["nairobi", "chennai", "a", "são paulo", ""] {
        assert_eq!(heuristic_score(name, name), Score::whole(100));
    }
}

#[test]
fn prefix_match_scores_just_below_hundred() {
    assert_eq!(heuristic_score("nai", "nairobi"), mixed(99, 99, 100));
}

#[test]
fn prefix_outranks_the_other_containing_matches() {
    let prefix = heuristic_score("nai", "nairobi");
    let suffix = heuristic_score("nai", "chennai");
    let interior = heuristic_score("nai", "denain");
    assert_eq!(suffix, Score::whole(95));
    assert_eq!(interior, Score::whole(90));
    assert!(is_closer(Strategy::HeuristicPercentage, &prefix, &suffix));
    assert!(is_closer(Strategy::HeuristicPercentage, &prefix, &interior));
}

#[test]
fn suffix_scores_above_interior() {
    let suffix = heuristic_score("robi", "nairobi");
    let interior = heuristic_score("airo", "nairobi");
    assert_eq!(suffix, Score::whole(95));
    assert_eq!(interior, Score::whole(90));
    assert!(is_closer(Strategy::HeuristicPercentage, &suffix, &interior));
    assert!(!is_closer(Strategy::HeuristicPercentage, &interior, &suffix));
}

#[test]
fn exact_match_is_tried_before_prefix_and_suffix() {
    assert_eq!(heuristic_score("aa", "aa"), Score::whole(100));
    assert_eq!(heuristic_score("aa", "aaa"), mixed(99, 99, 100));
    assert_eq!(heuristic_score("ab", "abab"), mixed(99, 99, 100));
}

#[test]
fn count_agreeing_goes_by_position() {
    assert_eq!(count_agreeing(&chars("londan"), &chars("london")), 5);
    assert_eq!(count_agreeing(&chars("abcdef"), &chars("abc")), 3);
    assert_eq!(count_agreeing(&chars("abc"), &chars("xabc")), 0);
    assert_eq!(count_agreeing(&chars(""), &chars("abc")), 0);
}

#[test]
fn base_score_is_the_share_of_agreeing_positions() {
    assert_eq!(heuristic_score("londan", "london"), mixed(83, 2, 6));
    assert_eq!(heuristic_score("abxd", "abcd"), mixed(75, 0, 4));
    assert_eq!(heuristic_score("abcdef", "abcxyz"), mixed(50, 0, 6));
}

#[test]
fn a_missing_position_never_agrees() {
    assert_eq!(heuristic_score("abcdef", "abc"), mixed(50, 0, 6));
    assert_eq!(heuristic_score("nairobi", "nai"), mixed(42, 6, 7));
}

#[test]
fn refinement_adds_a_bonus_for_the_rest() {
    assert_eq!(heuristic_score("abcd", "abcx"), mixed(80, 0, 4));
    assert_eq!(heuristic_score("abcdefg", "abcdexy"), mixed(77, 1, 7));
}

#[test]
fn refinement_needs_a_base_above_sixty() {
    assert_eq!(heuristic_score("abcde", "abcxy"), mixed(60, 0, 5));
}

#[test]
fn refinement_needs_the_agreeing_start_to_occur() {
    assert_eq!(heuristic_score("xbcdefghyz", "abcdefghij"), mixed(70, 0, 10));
}

#[test]
fn heuristic_is_not_symmetric() {
    assert_ne!(heuristic_score("nai", "nairobi"), heuristic_score("nairobi", "nai"));
}

#[test]
fn empty_query_is_a_prefix_of_every_candidate() {
    assert_eq!(heuristic_score("", "nairobi"), mixed(99, 99, 100));
    assert_eq!(heuristic_score("", ""), Score::whole(100));
}

#[test]
fn heuristic_goes_by_character_not_by_byte() {
    assert_eq!(heuristic_score("zürich", "zürick"), mixed(86, 4, 6));
    assert_eq!(heuristic_of_chars(&chars("ü"), &chars("zürich")), Score::whole(90));
}

#[test]
fn heuristic_of_chars_agrees_with_heuristic_score() {
    let pairs = [("nai", "nairobi"), ("londan", "london"), ("abcd", "abcx"), ("", "x")];
    for (q, c) in pairs {
        assert_eq!(heuristic_of_chars(&chars(q), &chars(c)), heuristic_score(q, c));
    }
}

#[test]
fn edit_distance_counts_single_character_changes() {
    assert_eq!(edit_distance_score("kitten", "sitting"), Score::whole(3));
    assert_eq!(edit_distance_score("london", "london"), Score::whole(0));
    assert_eq!(edit_distance_score("london", "londom"), Score::whole(1));
    assert_eq!(edit_distance_score("london", "lond"), Score::whole(2));
    assert_eq!(edit_distance_score("", "abc"), Score::whole(3));
    assert_eq!(edit_distance_score("abc", ""), Score::whole(3));
}

#[test]
fn edit_distance_goes_by_character_not_by_byte() {
    assert_eq!(edit_distance_score("zurich", "zürich"), Score::whole(1));
}

#[test]
fn score_follows_the_strategy() {
    assert_eq!(score(Strategy::EditDistance, "nai", "nairobi"), Score::whole(4));
    assert_eq!(score(Strategy::HeuristicPercentage, "nai", "nairobi"), mixed(99, 99, 100));
}

#[test]
fn edit_distance_admits_below_three() {
    assert!(is_admitted(Strategy::EditDistance, &Score::whole(0)));
    assert!(is_admitted(Strategy::EditDistance, &Score::whole(2)));
    assert!(!is_admitted(Strategy::EditDistance, &Score::whole(3)));
    assert!(!is_admitted(Strategy::EditDistance, &Score::whole(4)));
}

#[test]
fn heuristic_admits_above_seventy() {
    assert!(!is_admitted(Strategy::HeuristicPercentage, &Score::whole(70)));
    assert!(!is_admitted(Strategy::HeuristicPercentage, &mixed(69, 99, 100)));
    assert!(is_admitted(Strategy::HeuristicPercentage, &mixed(70, 1, 100)));
    assert!(is_admitted(Strategy::HeuristicPercentage, &Score::whole(100)));
    assert!(!is_admitted(
        Strategy::HeuristicPercentage,
        &heuristic_score("xbcdefghyz", "abcdefghij")
    ));
}

#[test]
fn closer_is_smaller_distance_and_larger_percentage() {
    let one = Score::whole(1);
    let two = Score::whole(2);
    assert!(is_closer(Strategy::EditDistance, &one, &two));
    assert!(!is_closer(Strategy::EditDistance, &two, &one));
    assert!(is_closer(Strategy::HeuristicPercentage, &two, &one));
    assert!(!is_closer(Strategy::HeuristicPercentage, &one, &two));
    assert!(!is_closer(Strategy::EditDistance, &one, &one));
    assert!(!is_closer(Strategy::HeuristicPercentage, &one, &one));
}

#[test]
fn score_for_query_trims_and_lowercases_the_query_only() {
    assert_eq!(score_for_query(Strategy::EditDistance, "  LONDON ", "london"), Score::whole(0));
    assert_eq!(score_for_query(Strategy::EditDistance, "london", "London"), Score::whole(1));
    assert_eq!(
        score_for_query(Strategy::HeuristicPercentage, " Nai", "nairobi"),
        mixed(99, 99, 100)
    );
    assert_eq!(score(Strategy::EditDistance, "  LONDON ", "london"), Score::whole(9));
}

fn distance_by_definition(a: &[char], b: &[char]) -> u64 {
    if a.is_empty() {
        return b.len() as u64;
    }
    if b.is_empty() {
        return a.len() as u64;
    }
    let (front_a, last_a) = (&a[..a.len() - 1], a[a.len() - 1]);
    let (front_b, last_b) = (&b[..b.len() - 1], b[b.len() - 1]);
    let delete = distance_by_definition(front_a, b) + 1;
    let insert = distance_by_definition(a, front_b) + 1;
    let substitute = distance_by_definition(front_a, front_b) + if last_a == last_b { 0 } else { 1 };
    delete.min(insert).min(substitute)
}

#[test]
fn edit_distance_agrees_with_its_definition() {
    let words = ["", "a", "ab", "ba", "abc", "acb", "paris", "pairs", "lyon", "zürich", "zurich", "aaaa"];
    for a in words {
        for b in words {
            let expected = distance_by_definition(&chars(a), &chars(b));
            assert_eq!(edit_distance_score(a, b), Score::whole(expected), "{:?} {:?}", a, b);
        }
    }
}

#[test]
fn heuristic_never_exceeds_hundred_and_reaches_it_only_for_the_query() {
    let words = ["", "a", "ab", "ba", "abc", "abd", "abcd", "xabc", "abcx", "nairobi", "nai"];
    for q in words {
        for c in words {
            let s = heuristic_score(q, c);
            assert!(s.numerator < s.denominator);
            if q == c {
                assert_eq!(s, Score::whole(100));
            } else {
                assert!(s.less_than(&Score::whole(100)), "{:?} {:?}", q, c);
            }
        }
    }
}
