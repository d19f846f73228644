use editdist::distance::fuzzy_contains;
use editdist::distance::lev_substring;
use editdist::distance::levenshtein;

#[test]
fn fuzzy_nana_bananas_exact_occurrence() {
    // "nana" occurs verbatim inside "bananas" (positions 2 through 5), so
    // the recurrence finds it with no edits at all.
    assert!(fuzzy_contains("nana", "bananas", 0));
    assert_eq!(lev_substring("nana", "bananas"), 0);
}

#[test]
fn fuzzy_nana_bananas_within_one_edit() {
    assert!(fuzzy_contains("nana", "bananas", 1));
}

#[test]
fn fuzzy_i_team() {
    assert!(!fuzzy_contains("I", "team", 0));
}

#[test]
fn fuzzy_annually_in_simulated_annealing() {
    assert!(!fuzzy_contains("annually", "simulated annealing", 2));
    assert!(fuzzy_contains("annually", "simulated annealing", 3));
}

#[test]
fn fuzzy_monotonic_in_budget() {
    let d = lev_substring("annually", "simulated annealing");
    for extra in 0..4 {
        assert!(fuzzy_contains("annually", "simulated annealing", d + extra));
    }
}

#[test]
fn fuzzy_whole_string_budget_always_matches() {
    let cases = [
        ("annually", "simulated annealing"),
        ("nana", "bananas"),
        ("I", "team"),
        ("abc", ""),
    ];
    for (p, t) in cases {
        assert!(fuzzy_contains(p, t, levenshtein(p, t)));
    }
}

#[test]
fn fuzzy_empty_pattern_matches_for_free() {
    assert!(fuzzy_contains("", "abc", 0));
    assert!(fuzzy_contains("", "", 0));
    assert_eq!(lev_substring("", "bananas"), 0);
}

#[test]
fn fuzzy_empty_text_costs_whole_pattern() {
    assert_eq!(lev_substring("abc", ""), 3);
    assert!(!fuzzy_contains("abc", "", 2));
    assert!(fuzzy_contains("abc", "", 3));
}

#[test]
fn fuzzy_exact_substring_costs_nothing() {
    assert!(fuzzy_contains("anas", "bananas", 0));
    assert_eq!(lev_substring("anas", "bananas"), 0);
    assert!(fuzzy_contains("ban", "bananas", 0));
}

#[test]
fn fuzzy_multibyte_substring() {
    assert!(fuzzy_contains("Öb", "aÖbc", 0));
    assert_eq!(lev_substring("Öx", "aÖbc"), 1);
}
