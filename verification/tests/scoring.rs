use sherlock::scoring::search_score;
use sherlock::sort_key::{Priority, SortKey};
use std::cmp::Ordering;

#[test]
fn test_search_relevance_ranking() {
    let query = "calc";

    let perfect = search_score(query, "calc");
    let case_insensitive = search_score(query, "CALC");
    let prefix = search_score(query, "calculator");
    let substring = search_score(query, "my_calc_app");
    let fuzzy = search_score(query, "clac");
    let no_match = search_score(query, "firefox");

    assert!(perfect < case_insensitive, "Perfect should beat case-insensitive");
    assert!(case_insensitive < prefix, "Case-insensitive should beat prefix");
    assert!(prefix < substring, "Prefix should beat substring");
    assert!(substring < fuzzy, "Substring should beat fuzzy/Levenshtein");
    assert!(fuzzy < no_match, "Fuzzy match should beat no match");
}

#[test]
fn test_semicolon_alias_support() {
    let query = "code";
    let score = search_score(query, "Visual Studio;code;editor");
    assert_eq!(score, 0);
}

#[test]
fn test_levenshtein_scaling() {
    let score_match = search_score("vlc", "vlb");
    assert!(score_match < 10_000);

    let score_no_match = search_score("vlc", "vxxxx");
    assert_eq!(score_no_match, 10_000);
}

#[test]
fn empty_inputs_have_fixed_scores() {
    assert_eq!(search_score("calc", ""), 10_000);
    assert_eq!(search_score("", "calculator"), 8_000);
    assert_eq!(search_score("CALC", "calc"), 100);
}

#[test]
fn prefix_score_grows_with_uncovered_part() {
    // 2000 - 1000 * 4 / 10, rounded
    assert_eq!(search_score("calc", "calculator"), 1600);
    assert!(search_score("calc", "calcu") < search_score("calc", "calculator"));
}

#[test]
fn sort_key_orders_by_base_then_score_then_count() {
    let a = SortKey { base: 1, score: 500, count: 0 };
    let b = SortKey { base: 2, score: 0, count: 9 };
    assert_eq!(a.compare(&b), Ordering::Less);
    let c = SortKey { base: 1, score: 100, count: 0 };
    assert_eq!(a.compare(&c), Ordering::Greater);
    let d = SortKey { base: 1, score: 500, count: 7 };
    assert_eq!(a.compare(&d), Ordering::Greater);
    assert_eq!(d.partial_cmp(&a), Some(Ordering::Less));
    assert_eq!(a.compare(&a), Ordering::Equal);
}

#[test]
fn priority_sort_key_carries_score() {
    let p = Priority { base: 3, count: 5 };
    let k = p.sort_key("code", "Visual Studio;code;editor");
    assert_eq!(k, SortKey { base: 3, score: 0, count: 5 });
}

#[test]
fn sorting_with_compare() {
    let mut keys = vec![
        SortKey { base: 2, score: 0, count: 0 },
        SortKey { base: 1, score: 9, count: 1 },
        SortKey { base: 1, score: 9, count: 4 },
        SortKey { base: 1, score: 3, count: 0 },
    ];
    keys.sort_by(|a, b| a.compare(b));
    assert_eq!(keys[0], SortKey { base: 1, score: 3, count: 0 });
    assert_eq!(keys[1], SortKey { base: 1, score: 9, count: 4 });
    assert_eq!(keys[2], SortKey { base: 1, score: 9, count: 1 });
    assert_eq!(keys[3], SortKey { base: 2, score: 0, count: 0 });
}

#[test]
fn fuzzy_score_follows_edit_distance() {
    // distance 3 over 8 bytes
    assert_eq!(search_score("abcdefgh", "abcdxyzh"), 3750);
    // small distances are clamped to 3500
    assert_eq!(search_score("vlc", "vlb"), 3500);
}
