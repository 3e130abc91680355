use bookmarker::bookmarks::{add_bookmark, Bookmarks};
use bookmarker::filter::filter;
use bookmarker::matcher::Query;
use bookmarker::ranker::fuzzy_score;

fn collection(entries: &[(&str, &str, &str, &[&str])]) -> Bookmarks {
    let mut bookmarks = Bookmarks::new();
    for (key, url, desc, tags) in entries {
        add_bookmark(
            &mut bookmarks,
            key.to_string(),
            url.to_string(),
            desc.to_string(),
            tags.iter().map(|t| t.to_string()).collect(),
        )
        .unwrap();
    }
    bookmarks
}

fn github() -> Bookmarks {
    collection(&[("gh", "https://github.com", "Code hosting", &["dev"])])
}

#[test]
fn query_on_the_identifier_lists_the_record() {
    let bookmarks = github();
    let query = Query::new("gh").unwrap();
    assert_eq!(filter(&bookmarks, &query, None), vec![0]);
    let record = bookmarks.bookmark_at(0);
    let score = fuzzy_score(&query, "gh", &record.url, &record.desc, &record.tags);
    assert!(score >= 1000);
}

#[test]
fn query_on_the_description_lists_the_record() {
    let bookmarks = github();
    let query = Query::new("code").unwrap();
    assert_eq!(filter(&bookmarks, &query, None), vec![0]);
    let record = bookmarks.bookmark_at(0);
    let score = fuzzy_score(&query, "gh", &record.url, &record.desc, &record.tags);
    // neither the key nor the url matches, the description does
    assert_eq!(score, 154 + 100);
    assert!(score < 500);
}

#[test]
fn query_that_matches_nothing_lists_nothing() {
    let bookmarks = github();
    let query = Query::new("zzz").unwrap();
    assert_eq!(filter(&bookmarks, &query, None), Vec::<usize>::new());
}

#[test]
fn tag_constraint_lists_only_tagged_records() {
    let bookmarks = collection(&[
        ("one", "https://one.example", "First", &["dev"]),
        ("two", "https://two.example", "Second", &["ops"]),
    ]);
    let query = Query::empty();
    assert_eq!(filter(&bookmarks, &query, Some("dev")), vec![0]);
    assert_eq!(filter(&bookmarks, &query, Some("ops")), vec![1]);
    assert_eq!(filter(&bookmarks, &query, Some("none")), Vec::<usize>::new());
}

#[test]
fn tag_constraint_ignores_ascii_case() {
    let bookmarks = collection(&[
        ("one", "https://one.example", "First", &["Dev"]),
        ("two", "https://two.example", "Second", &["ops", "DEV"]),
        ("three", "https://three.example", "Third", &["devs"]),
    ]);
    let query = Query::empty();
    assert_eq!(filter(&bookmarks, &query, Some("dEv")), vec![0, 1]);
}

#[test]
fn tag_constraint_does_not_fold_beyond_ascii() {
    let bookmarks = collection(&[("one", "https://one.example", "First", &["Äpfel"])]);
    let query = Query::empty();
    assert_eq!(filter(&bookmarks, &query, Some("äpfel")), Vec::<usize>::new());
    assert_eq!(filter(&bookmarks, &query, Some("ÄPFEL")), vec![0]);
}

#[test]
fn empty_query_lists_everything_by_key() {
    let bookmarks = collection(&[
        ("zeta", "https://z.example", "", &[]),
        ("alpha", "https://a.example", "", &[]),
        ("Beta", "https://b.example", "", &[]),
        ("alp", "https://c.example", "", &[]),
    ]);
    let query = Query::empty();
    // capitals sort before small letters, a prefix before what it starts
    assert_eq!(filter(&bookmarks, &query, None), vec![2, 3, 1, 0]);
}

#[test]
fn better_scores_come_first() {
    let bookmarks = collection(&[
        ("docs", "https://docs.rs", "Rust documentation", &["rust"]),
        ("crates", "https://crates.io", "Registry", &["rust"]),
        ("rs", "https://www.rust-lang.org", "Home", &[]),
        ("blog", "https://example.com", "Nothing", &[]),
    ]);
    let query = Query::new("rs").unwrap();
    // rs matches by key with 1069, crates by key with 1034, docs by url with 550
    assert_eq!(filter(&bookmarks, &query, None), vec![2, 1, 0]);
}

#[test]
fn equal_scores_are_listed_by_key() {
    let bookmarks = collection(&[
        ("b", "https://same.example", "", &[]),
        ("c", "https://same.example", "", &[]),
        ("a", "https://same.example", "", &[]),
    ]);
    let query = Query::new("same").unwrap();
    assert_eq!(filter(&bookmarks, &query, None), vec![2, 0, 1]);
}

#[test]
fn filtering_twice_gives_the_same_list() {
    let bookmarks = collection(&[
        ("docs", "https://docs.rs", "Rust documentation", &["rust"]),
        ("crates", "https://crates.io", "Registry", &["rust"]),
        ("rs", "https://www.rust-lang.org", "Home", &["Rust"]),
    ]);
    let query = Query::new("r").unwrap();
    let first = filter(&bookmarks, &query, Some("rust"));
    let second = filter(&bookmarks, &query, Some("rust"));
    assert_eq!(first, second);
    assert_eq!(first.len(), 3);
}

#[test]
fn query_and_tag_constraint_combine() {
    let bookmarks = collection(&[
        ("gh", "https://github.com", "Code hosting", &["dev"]),
        ("gl", "https://gitlab.com", "Code hosting", &["ops"]),
    ]);
    let query = Query::new("code").unwrap();
    assert_eq!(filter(&bookmarks, &query, Some("ops")), vec![1]);
    assert_eq!(filter(&bookmarks, &query, None), vec![0, 1]);
}

#[test]
fn empty_collection_has_an_empty_visible_set() {
    let bookmarks = Bookmarks::new();
    assert!(filter(&bookmarks, &Query::empty(), None).is_empty());
    assert!(filter(&bookmarks, &Query::new("x").unwrap(), Some("t")).is_empty());
}
