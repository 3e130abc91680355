use bookmarker::matcher::Query;
use bookmarker::ranker::{fuzzy_score, rank_fields};

fn chars(text: &str) -> Vec<char> {
    text.chars().collect()
}

fn tags(list: &[&str]) -> Vec<String> {
    list.iter().map(|t| t.to_string()).collect()
}

#[test]
fn key_match_earns_a_thousand() {
    let query = Query::new("gh").unwrap();
    let score = fuzzy_score(&query, "gh", "https://github.com", "Code hosting", &tags(&["dev"]));
    assert_eq!(score, 1069);
}

#[test]
fn url_match_earns_five_hundred() {
    let query = Query::new("hub").unwrap();
    let score = fuzzy_score(&query, "gh", "https://github.com", "Code hosting", &tags(&["dev"]));
    assert_eq!(score, 570);
}

#[test]
fn description_match_earns_a_hundred() {
    let query = Query::new("code").unwrap();
    let score = fuzzy_score(&query, "gh", "https://github.com", "Code hosting", &tags(&["dev"]));
    assert_eq!(score, 254);
}

#[test]
fn tag_match_earns_no_bonus() {
    let query = Query::new("dev").unwrap();
    let score = fuzzy_score(&query, "gh", "https://github.com", "Code hosting", &tags(&["dev"]));
    assert_eq!(score, 107);
}

#[test]
fn best_tag_decides() {
    let query = Query::new("dev").unwrap();
    let score = fuzzy_score(
        &query,
        "gh",
        "https://github.com",
        "Code hosting",
        &tags(&["x", "xdev", "dev", "d-e-v"]),
    );
    assert_eq!(score, 114);
}

#[test]
fn no_field_matches() {
    let query = Query::new("zzz").unwrap();
    let score = fuzzy_score(&query, "gh", "https://github.com", "Code hosting", &tags(&["dev"]));
    assert_eq!(score, -1);
    let none = fuzzy_score(&query, "gh", "https://github.com", "Code hosting", &[]);
    assert_eq!(none, -1);
}

#[test]
fn field_priority_beats_a_better_score_elsewhere() {
    let query = Query::new("e").unwrap();
    assert_eq!(fuzzy_score(&query, "key", "e", "e", &tags(&["e"])), 1019);
    assert_eq!(fuzzy_score(&query, "x", "e", "e", &tags(&["e"])), 540);
    assert_eq!(fuzzy_score(&query, "x", "y", "e", &tags(&["e"])), 140);
    assert_eq!(fuzzy_score(&query, "x", "y", "z", &tags(&["e"])), 40);
}

#[test]
fn ranking_ignores_case_on_both_sides() {
    let query = Query::new("GH").unwrap();
    let score = fuzzy_score(&query, "Gh", "https://github.com", "Code hosting", &tags(&["dev"]));
    assert_eq!(score, 1069);
    let by_tag = Query::new("dev").unwrap();
    assert_eq!(fuzzy_score(&by_tag, "x", "y", "z", &tags(&["DEV"])), 107);
}

#[test]
fn rank_fields_compares_as_given() {
    assert_eq!(rank_fields(&chars("gh"), "gh", "", "", &[]), 1069);
    assert_eq!(rank_fields(&chars("gh"), "GH", "gh", "", &[]), 569);
    assert_eq!(rank_fields(&chars("gh"), "GH", "GH", "GH", &tags(&["GH"])), -1);
    assert_eq!(rank_fields(&chars(""), "", "", "", &[]), 1000);
}
