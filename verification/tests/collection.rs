use bookmarker::bookmarks::{
    add_bookmark, delete_bookmark, get_all_tags, update_bookmark, Bookmark, BookmarkError,
    Bookmarks,
};

fn bookmark(url: &str, tags: &[&str]) -> Bookmark {
    Bookmark {
        url: url.to_string(),
        desc: String::new(),
        tags: tags.iter().map(|t| t.to_string()).collect(),
    }
}

fn keys(bookmarks: &Bookmarks) -> Vec<String> {
    (0..bookmarks.len()).map(|i| bookmarks.key_at(i).clone()).collect()
}

#[test]
fn records_keep_insertion_order() {
    let mut bookmarks = Bookmarks::new();
    assert!(bookmarks.is_empty());
    for key in ["c", "a", "b"] {
        add_bookmark(&mut bookmarks, key.to_string(), key.to_string(), String::new(), vec![])
            .unwrap();
    }
    assert_eq!(bookmarks.len(), 3);
    assert_eq!(keys(&bookmarks), vec!["c", "a", "b"]);
    assert_eq!(bookmarks.position("a"), Some(1));
    assert_eq!(bookmarks.position("x"), None);
    assert_eq!(bookmarks.bookmark_at(2).url, "b");
}

#[test]
fn refused_add_changes_nothing() {
    let mut bookmarks = Bookmarks::new();
    bookmarks.insert("gh".to_string(), bookmark("old", &[]));
    let refused = add_bookmark(
        &mut bookmarks,
        "gh".to_string(),
        "new".to_string(),
        String::new(),
        vec![],
    );
    match refused {
        Err(BookmarkError::AlreadyExists(key)) => assert_eq!(key, "gh"),
        _ => panic!("a second bookmark under the same key was accepted"),
    }
    assert_eq!(bookmarks.len(), 1);
    assert_eq!(bookmarks.get("gh").unwrap().url, "old");
}

#[test]
fn update_keeps_the_place() {
    let mut bookmarks = Bookmarks::new();
    for key in ["a", "b", "c"] {
        bookmarks.insert(key.to_string(), bookmark("old", &[]));
    }
    update_bookmark(&mut bookmarks, "b", "new".to_string(), "d".to_string(), vec![]).unwrap();
    assert_eq!(keys(&bookmarks), vec!["a", "b", "c"]);
    assert_eq!(bookmarks.bookmark_at(1).url, "new");
    assert_eq!(bookmarks.bookmark_at(0).url, "old");
    match update_bookmark(&mut bookmarks, "x", String::new(), String::new(), vec![]) {
        Err(BookmarkError::NotFound(key)) => assert_eq!(key, "x"),
        _ => panic!("a bookmark that is not there was updated"),
    }
    assert_eq!(bookmarks.len(), 3);
}

#[test]
fn delete_keeps_the_order_of_the_rest() {
    let mut bookmarks = Bookmarks::new();
    for key in ["a", "b", "c"] {
        bookmarks.insert(key.to_string(), bookmark(key, &[]));
    }
    delete_bookmark(&mut bookmarks, "b").unwrap();
    assert_eq!(keys(&bookmarks), vec!["a", "c"]);
    match delete_bookmark(&mut bookmarks, "b") {
        Err(BookmarkError::NotFound(key)) => assert_eq!(key, "b"),
        _ => panic!("a bookmark was deleted twice"),
    }
    assert_eq!(keys(&bookmarks), vec!["a", "c"]);
}

#[test]
fn insert_replaces_like_a_map() {
    let mut bookmarks = Bookmarks::new();
    assert!(bookmarks.insert("a".to_string(), bookmark("1", &[])).is_none());
    assert!(bookmarks.insert("b".to_string(), bookmark("2", &[])).is_none());
    let previous = bookmarks.insert("a".to_string(), bookmark("3", &[])).unwrap();
    assert_eq!(previous.url, "1");
    assert_eq!(keys(&bookmarks), vec!["a", "b"]);
    assert_eq!(bookmarks.get("a").unwrap().url, "3");
    let removed = bookmarks.remove("a").unwrap();
    assert_eq!(removed.url, "3");
    assert!(bookmarks.remove("a").is_none());
    assert_eq!(keys(&bookmarks), vec!["b"]);
}

#[test]
fn replace_renames_in_place() {
    let mut bookmarks = Bookmarks::new();
    for key in ["a", "b", "c"] {
        bookmarks.insert(key.to_string(), bookmark(key, &[]));
    }
    bookmarks.replace("b", "z".to_string(), bookmark("new", &[])).unwrap();
    assert_eq!(keys(&bookmarks), vec!["a", "z", "c"]);
    assert_eq!(bookmarks.get("z").unwrap().url, "new");
    bookmarks.replace("z", "z".to_string(), bookmark("newer", &[])).unwrap();
    assert_eq!(bookmarks.get("z").unwrap().url, "newer");
    match bookmarks.replace("z", "a".to_string(), bookmark("x", &[])) {
        Err(BookmarkError::AlreadyExists(key)) => assert_eq!(key, "a"),
        _ => panic!("a key was given to two bookmarks"),
    }
    match bookmarks.replace("gone", "q".to_string(), bookmark("x", &[])) {
        Err(BookmarkError::NotFound(key)) => assert_eq!(key, "gone"),
        _ => panic!("a bookmark that is not there was replaced"),
    }
    assert_eq!(keys(&bookmarks), vec!["a", "z", "c"]);
    assert_eq!(bookmarks.get("z").unwrap().url, "newer");
}

#[test]
fn tags_are_listed_once_in_string_order() {
    let mut bookmarks = Bookmarks::new();
    bookmarks.insert("a".to_string(), bookmark("1", &["rust", "Zed", "dev"]));
    bookmarks.insert("b".to_string(), bookmark("2", &["dev", "de", "rust", "éclair"]));
    bookmarks.insert("c".to_string(), bookmark("3", &[]));
    assert_eq!(get_all_tags(&bookmarks), vec!["Zed", "de", "dev", "rust", "éclair"]);
}

#[test]
fn errors_have_a_message() {
    let exists = BookmarkError::AlreadyExists("gh".to_string());
    assert_eq!(exists.message(), "Bookmark with key 'gh' already exists.");
    let missing = BookmarkError::NotFound("gh".to_string());
    assert_eq!(missing.message(), "Bookmark with key 'gh' not found.");
}

#[test]
fn cloned_bookmark_has_the_same_fields() {
    let first = bookmark("https://github.com", &["dev", "git"]);
    let copy = first.clone();
    assert_eq!(copy.url, first.url);
    assert_eq!(copy.desc, first.desc);
    assert_eq!(copy.tags, first.tags);
}
