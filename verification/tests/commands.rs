use bookmarker::bookmarks::{add_bookmark, BookmarkError, Bookmarks};
use bookmarker::cli::{execute, Cli, Commands, Effect};
use bookmarker::filter::find_best_match;

fn three() -> Bookmarks {
    let mut bookmarks = Bookmarks::new();
    let entries: [(&str, &str, &str, &[&str]); 3] = [
        ("gh", "https://github.com", "Code hosting", &["dev"]),
        ("docs", "https://docs.rs", "Rust documentation", &["rust", "dev"]),
        ("mail", "https://mail.example", "Letters", &["ops"]),
    ];
    for (key, url, desc, tags) in entries {
        add_bookmark(
            &mut bookmarks,
            key.to_string(),
            url.to_string(),
            desc.to_string(),
            tags.iter().map(|t| t.to_string()).collect(),
        )
        .unwrap();
    }
    bookmarks
}

fn keys(bookmarks: &Bookmarks) -> Vec<String> {
    (0..bookmarks.len()).map(|i| bookmarks.key_at(i).clone()).collect()
}

#[test]
fn list_shows_everything_by_key() {
    let mut bookmarks = three();
    match execute(&mut bookmarks, Cli { command: Commands::List { tag: None } }) {
        Ok(Effect::Show(listed)) => assert_eq!(listed, vec![1, 0, 2]),
        _ => panic!("list did not list"),
    }
    assert_eq!(keys(&bookmarks), vec!["gh", "docs", "mail"]);
}

#[test]
fn list_with_a_tag_shows_the_tagged_bookmarks() {
    let mut bookmarks = three();
    let command = Commands::List { tag: Some("DEV".to_string()) };
    match execute(&mut bookmarks, Cli { command }) {
        Ok(Effect::Show(listed)) => assert_eq!(listed, vec![1, 0]),
        _ => panic!("list did not list"),
    }
}

#[test]
fn add_command_appends_and_asks_to_save() {
    let mut bookmarks = three();
    let command = Commands::Add {
        key: "x".to_string(),
        url: "https://x.com".to_string(),
        desc: "Example".to_string(),
        tags: Some(vec!["web".to_string()]),
    };
    assert!(matches!(execute(&mut bookmarks, Cli { command }), Ok(Effect::Save)));
    assert_eq!(keys(&bookmarks), vec!["gh", "docs", "mail", "x"]);
    assert_eq!(bookmarks.get("x").unwrap().tags, vec!["web"]);
    let untagged = Commands::Add {
        key: "y".to_string(),
        url: "https://y.com".to_string(),
        desc: String::new(),
        tags: None,
    };
    assert!(matches!(execute(&mut bookmarks, Cli { command: untagged }), Ok(Effect::Save)));
    assert!(bookmarks.get("y").unwrap().tags.is_empty());
}

#[test]
fn add_command_refuses_a_key_in_use() {
    let mut bookmarks = three();
    let command = Commands::Add {
        key: "gh".to_string(),
        url: "https://other.example".to_string(),
        desc: String::new(),
        tags: None,
    };
    match execute(&mut bookmarks, Cli { command }) {
        Err(BookmarkError::AlreadyExists(key)) => assert_eq!(key, "gh"),
        _ => panic!("a key was given to two bookmarks"),
    }
    assert_eq!(bookmarks.get("gh").unwrap().url, "https://github.com");
}

#[test]
fn open_command_hands_back_the_url() {
    let mut bookmarks = three();
    match execute(&mut bookmarks, Cli { command: Commands::Open { key: "docs".to_string() } }) {
        Ok(Effect::Open(url)) => assert_eq!(url, "https://docs.rs"),
        _ => panic!("open did not find the bookmark"),
    }
    match execute(&mut bookmarks, Cli { command: Commands::Open { key: "doc".to_string() } }) {
        Err(BookmarkError::NotFound(key)) => assert_eq!(key, "doc"),
        _ => panic!("open found a bookmark that is not there"),
    }
}

#[test]
fn delete_command_removes_and_asks_to_save() {
    let mut bookmarks = three();
    let command = Commands::Delete { key: "docs".to_string() };
    assert!(matches!(execute(&mut bookmarks, Cli { command }), Ok(Effect::Save)));
    assert_eq!(keys(&bookmarks), vec!["gh", "mail"]);
    let again = Commands::Delete { key: "docs".to_string() };
    match execute(&mut bookmarks, Cli { command: again }) {
        Err(BookmarkError::NotFound(key)) => assert_eq!(key, "docs"),
        _ => panic!("a bookmark was deleted twice"),
    }
    assert_eq!(keys(&bookmarks), vec!["gh", "mail"]);
}

#[test]
fn best_match_is_the_first_of_the_visible_set() {
    let bookmarks = three();
    assert_eq!(find_best_match(&bookmarks, "gh"), Some("https://github.com".to_string()));
    assert_eq!(find_best_match(&bookmarks, "m"), Some("https://mail.example".to_string()));
    assert_eq!(find_best_match(&bookmarks, "Rust Doc"), Some("https://docs.rs".to_string()));
    assert_eq!(find_best_match(&bookmarks, ""), Some("https://docs.rs".to_string()));
    assert_eq!(find_best_match(&bookmarks, "zzz"), None);
    assert_eq!(find_best_match(&Bookmarks::new(), ""), None);
}
