use bookmarker::bookmarks::Bookmark;
use bookmarker::form::{join_tags, parse_tags, FieldCursor, FormBuffer};

#[test]
fn tags_are_cut_at_commas_and_trimmed() {
    assert_eq!(parse_tags("dev, ops"), vec!["dev", "ops"]);
    assert_eq!(parse_tags("  dev ,ops  "), vec!["dev", "ops"]);
    assert_eq!(parse_tags("a b , c"), vec!["a b", "c"]);
}

#[test]
fn empty_pieces_are_dropped() {
    assert_eq!(parse_tags(""), Vec::<String>::new());
    assert_eq!(parse_tags(" , ,"), Vec::<String>::new());
    assert_eq!(parse_tags(",dev,,ops,"), vec!["dev", "ops"]);
    assert_eq!(parse_tags("   "), Vec::<String>::new());
}

#[test]
fn every_kind_of_whitespace_is_trimmed() {
    assert_eq!(parse_tags("\tdev\n,\u{a0}ops\u{3000}"), vec!["dev", "ops"]);
}

#[test]
fn tags_keep_their_order_and_their_repeats() {
    assert_eq!(parse_tags("b,a,b"), vec!["b", "a", "b"]);
}

#[test]
fn tags_are_joined_with_comma_and_space() {
    let tags = vec!["dev".to_string(), "ops".to_string(), "x".to_string()];
    assert_eq!(join_tags(&tags), "dev, ops, x");
    assert_eq!(join_tags(&tags[..1]), "dev");
    assert_eq!(join_tags(&[]), "");
}

#[test]
fn joined_tags_parse_back() {
    let tags = vec!["dev".to_string(), "two words".to_string()];
    assert_eq!(parse_tags(&join_tags(&tags)), tags);
}

#[test]
fn field_cursor_walks_the_fields_in_order() {
    assert_eq!(FieldCursor::Name.next(), Some(FieldCursor::Url));
    assert_eq!(FieldCursor::Url.next(), Some(FieldCursor::Description));
    assert_eq!(FieldCursor::Description.next(), Some(FieldCursor::Tags));
    assert_eq!(FieldCursor::Tags.next(), None);
    assert_eq!(FieldCursor::Tags.previous(), FieldCursor::Description);
    assert_eq!(FieldCursor::Description.previous(), FieldCursor::Url);
    assert_eq!(FieldCursor::Url.previous(), FieldCursor::Name);
    assert_eq!(FieldCursor::Name.previous(), FieldCursor::Name);
}

#[test]
fn typing_changes_the_focused_field_only() {
    let mut form = FormBuffer::new();
    form.insert(FieldCursor::Name, 'g');
    form.insert(FieldCursor::Name, 'h');
    form.insert(FieldCursor::Url, 'u');
    form.insert(FieldCursor::Description, 'd');
    form.insert(FieldCursor::Tags, 't');
    assert_eq!(form.name, "gh");
    assert_eq!(form.url, "u");
    assert_eq!(form.description, "d");
    assert_eq!(form.tags, "t");
    form.backspace(FieldCursor::Name);
    assert_eq!(form.name, "g");
    assert_eq!(form.url, "u");
    form.backspace(FieldCursor::Name);
    form.backspace(FieldCursor::Name);
    assert_eq!(form.name, "");
    form.backspace(FieldCursor::Url);
    form.backspace(FieldCursor::Description);
    form.backspace(FieldCursor::Tags);
    assert_eq!(form.url, "");
    assert_eq!(form.description, "");
    assert_eq!(form.tags, "");
}

#[test]
fn form_is_complete_with_name_and_url() {
    let mut form = FormBuffer::new();
    assert!(!form.is_complete());
    form.insert(FieldCursor::Url, 'u');
    assert!(!form.is_complete());
    form.insert(FieldCursor::Name, 'n');
    assert!(form.is_complete());
    form.backspace(FieldCursor::Url);
    assert!(!form.is_complete());
}

#[test]
fn form_shows_a_record() {
    let bookmark = Bookmark {
        url: "https://github.com".to_string(),
        desc: "Code hosting".to_string(),
        tags: vec!["dev".to_string(), "git".to_string()],
    };
    let form = FormBuffer::from_record("gh", &bookmark);
    assert_eq!(form.name, "gh");
    assert_eq!(form.url, "https://github.com");
    assert_eq!(form.description, "Code hosting");
    assert_eq!(form.tags, "dev, git");
}
