use bookmarker::matcher::{fuzzy_match_score, MatchResult, Query, MAX_PATTERN_LEN};

fn chars(text: &str) -> Vec<char> {
    text.chars().collect()
}

#[test]
fn exact_match_scores_every_bonus() {
    // g: 10 + boundary 20 + position 10; h: 10 + run 10 + position 9
    assert_eq!(fuzzy_match_score(&chars("gh"), "gh"), 69);
}

#[test]
fn run_bonus_grows_with_each_neighbour() {
    // c 40, o 10+10+9, d 10+20+8, e 10+30+7
    assert_eq!(fuzzy_match_score(&chars("code"), "code hosting"), 154);
}

#[test]
fn gap_resets_the_run_bonus() {
    // a at 0: 40; c at 2: 10 + 0 + 0 + 8
    assert_eq!(fuzzy_match_score(&chars("ac"), "abc"), 58);
    assert_eq!(fuzzy_match_score(&chars("gh"), "github"), 57);
}

#[test]
fn boundary_bonus_after_each_separator() {
    assert_eq!(fuzzy_match_score(&chars("abc"), "a-b-c"), 114);
    assert_eq!(fuzzy_match_score(&chars("rs"), "docs.rs"), 59);
    assert_eq!(fuzzy_match_score(&chars("hub"), "https://github.com"), 70);
}

#[test]
fn position_bonus_ends_after_ten_places() {
    assert_eq!(fuzzy_match_score(&chars("a"), "bbbbbbbbbbbba"), 10);
    assert_eq!(fuzzy_match_score(&chars("a"), "bbbbbbbbba"), 11);
}

#[test]
fn matching_is_greedy_leftmost() {
    // the later, contiguous "abc" would score more; the scan takes "ab" first
    assert_eq!(fuzzy_match_score(&chars("abc"), "abxabc"), 84);
    assert_eq!(fuzzy_match_score(&chars("ab"), "ab/ab"), 69);
}

#[test]
fn pattern_out_of_order_does_not_match() {
    assert_eq!(fuzzy_match_score(&chars("ab"), "ba"), -1);
    assert_eq!(fuzzy_match_score(&chars("aa"), "a"), -1);
    assert_eq!(fuzzy_match_score(&chars("x"), ""), -1);
}

#[test]
fn empty_pattern_scores_zero() {
    assert_eq!(fuzzy_match_score(&chars(""), "anything"), 0);
    assert_eq!(fuzzy_match_score(&chars(""), ""), 0);
}

#[test]
fn unfolded_matching_tells_case_apart() {
    assert_eq!(fuzzy_match_score(&chars("GH"), "gh"), -1);
}

#[test]
fn query_score_of_empty_query_is_zero() {
    let query = Query::empty();
    assert_eq!(query.score("GitHub"), MatchResult::Score(0));
    assert_eq!(query.score(""), MatchResult::Score(0));
    let typed = Query::new("").unwrap();
    assert!(typed.is_empty());
    assert_eq!(typed.score("x"), MatchResult::Score(0));
}

#[test]
fn query_score_folds_the_text() {
    let query = Query::new("gh").unwrap();
    assert_eq!(query.score("GitHub"), MatchResult::Score(57));
    assert_eq!(query.score("GH"), MatchResult::Score(69));
}

#[test]
fn query_score_folds_the_query() {
    let query = Query::new("GH").unwrap();
    assert_eq!(query.text(), "GH");
    assert_eq!(query.chars(), &vec!['g', 'h']);
    assert_eq!(query.score("gh"), MatchResult::Score(69));
}

#[test]
fn query_score_folds_beyond_ascii() {
    let query = Query::new("ÄÖ").unwrap();
    assert_eq!(query.score("äxö"), MatchResult::Score(58));
}

#[test]
fn query_score_reports_no_match() {
    let query = Query::new("zz").unwrap();
    assert_eq!(query.score("pizza?"), MatchResult::Score(45));
    assert_eq!(query.score("zebra"), MatchResult::NoMatch);
}

#[test]
fn score_is_at_least_ten_per_character() {
    let texts = ["alpha", "a-l-p-h-a", "xxxxxxxxxxxxxxxalpha", "al pha"];
    let query = Query::new("alpha").unwrap();
    for text in texts {
        match query.score(text) {
            MatchResult::Score(n) => assert!(n >= 50),
            MatchResult::NoMatch => panic!("{text} should match"),
        }
    }
}

#[test]
fn ordinary_queries_are_accepted() {
    assert!(Query::new("a query of ordinary length").is_some());
    assert!(MAX_PATTERN_LEN >= 1 << 20);
}
