//! What a session looks like as text: the row of a bookmark, the title, and
//! the hints. Where the text goes on the screen is left to the caller.
use crate::bookmarks::{Bookmark, BookmarkView};
use crate::form::{join_tags, line_of_tags};
use crate::session::{text_view, Mode, ModeView, SessionError};
use vstd::prelude::*;
use vstd::utf8::{decode_utf8, encode_utf8, encode_utf8_decode_utf8, is_char_boundary};

verus! {

/// The width of the key column of a row, in characters.
pub const KEY_WIDTH: usize = 12;

/// The width of the url column of a row, in characters, and the most bytes
/// of a url that a row shows.
pub const URL_WIDTH: usize = 50;

/// The most bytes of a description that a row shows.
pub const DESC_WIDTH: usize = 30;

/// What stands for the part of a text that was cut off.
pub open spec fn ellipsis() -> Seq<char> {
    seq!['.', '.', '.']
}

/// Whether `text` can be shortened to `max` bytes: it is that short
/// already, or it can be cut three bytes before `max` without cutting a
/// character in two.
pub open spec fn can_truncate(text: Seq<char>, max: int) -> bool {
    encode_utf8(text).len() <= max || (max >= 3 && is_char_boundary(encode_utf8(text), max - 3))
}

/// `text` shortened to `max` bytes: the text itself when it is that short,
/// and otherwise its first `max - 3` bytes followed by three dots.
pub open spec fn truncated(text: Seq<char>, max: int) -> Seq<char> {
    if encode_utf8(text).len() <= max {
        text
    } else {
        decode_utf8(encode_utf8(text).subrange(0, max - 3)) + ellipsis()
    }
}

/// `text` filled up with spaces on the right to `width` characters; a
/// longer text stays as it is.
pub open spec fn padded(text: Seq<char>, width: int) -> Seq<char> {
    if text.len() >= width {
        text
    } else {
        text + Seq::new((width - text.len()) as nat, |i: int| ' ')
    }
}

/// The tags of a row: nothing without tags, and otherwise the tags in
/// square brackets after a space.
pub open spec fn tags_suffix(tags: Seq<Seq<char>>) -> Seq<char> {
    if tags.len() == 0 {
        Seq::<char>::empty()
    } else {
        seq![' ', '['] + line_of_tags(tags) + seq![']']
    }
}

/// The row of the bookmark `bookmark` under `key`: the key in a column of
/// twelve, the shortened url in a column of fifty, the shortened
/// description, and the tags.
pub open spec fn label(key: Seq<char>, bookmark: BookmarkView) -> Seq<char> {
    padded(key, KEY_WIDTH as int) + seq![' '] + padded(
        truncated(bookmark.url, URL_WIDTH as int),
        URL_WIDTH as int,
    ) + seq![' '] + truncated(bookmark.desc, DESC_WIDTH as int) + tags_suffix(bookmark.tags)
}

/// The title line under the tag constraint `tag`.
pub open spec fn title_text(tag: Option<Seq<char>>) -> Seq<char> {
    match tag {
        Some(t) => "Bookmarks"@ + " [tag: "@ + t + "]"@,
        None => "Bookmarks"@,
    }
}

/// Whether `text` can be shortened to `max` bytes by [`truncate`].
pub fn fits(text: &str, max: usize) -> (ok: bool)
    ensures
        ok == can_truncate(text@, max as int),
{
    text.as_bytes().len() <= max || (max >= 3 && text.is_char_boundary(max - 3))
}

/// Shortens `text` to at most `max` bytes: a longer text is cut three bytes
/// before `max` and gets three dots for what is missing.
pub fn truncate(text: &str, max: usize) -> (short: String)
    requires
        can_truncate(text@, max as int),
    ensures
        short@ == truncated(text@, max as int),
{
    if text.as_bytes().len() > max {
        let (kept, _) = text.split_at(max - 3);
        proof {
            encode_utf8_decode_utf8(kept@);
            reveal_strlit("...");
            assert("..."@ =~= ellipsis());
        }
        let mut short = String::from_str(kept);
        short.append("...");
        short
    } else {
        String::from_str(text)
    }
}

/// Fills `text` up with spaces on the right to `width` characters.
fn pad(text: String, width: usize) -> (wide: String)
    ensures
        wide@ == padded(text@, width as int),
{
    let mut wide = text;
    let mut n: usize = wide.as_str().unicode_len();
    if n >= width {
        return wide;
    }
    let ghost start = n;
    while n < width
        invariant
            start <= n <= width,
            start == text@.len(),
            wide@ == text@ + Seq::new((n - start) as nat, |i: int| ' '),
        decreases width - n,
    {
        wide.push(' ');
        assert(wide@ =~= text@ + Seq::new((n + 1 - start) as nat, |i: int| ' '));
        n += 1;
    }
    wide
}

/// The row that shows the bookmark `bookmark` under `key`.
pub fn row_label(key: &str, bookmark: &Bookmark) -> (row: String)
    requires
        can_truncate(bookmark@.url, URL_WIDTH as int),
        can_truncate(bookmark@.desc, DESC_WIDTH as int),
    ensures
        row@ == label(key@, bookmark@),
{
    let mut row = pad(String::from_str(key), KEY_WIDTH);
    let url = pad(truncate(bookmark.url.as_str(), URL_WIDTH), URL_WIDTH);
    let desc = truncate(bookmark.desc.as_str(), DESC_WIDTH);
    proof {
        reveal_strlit(" ");
        reveal_strlit(" [");
        reveal_strlit("]");
        assert(" "@ =~= seq![' ']);
        assert(" ["@ =~= seq![' ', '[']);
        assert("]"@ =~= seq![']']);
    }
    row.append(" ");
    row.append(url.as_str());
    row.append(" ");
    row.append(desc.as_str());
    if bookmark.tags.len() > 0 {
        let tags = join_tags(bookmark.tags.as_slice());
        row.append(" [");
        row.append(tags.as_str());
        row.append("]");
        assert(row@ =~= label(key@, bookmark@));
    } else {
        assert(row@ =~= label(key@, bookmark@));
    }
    row
}

/// Whether [`row_label`] can show `bookmark`: its url and its description
/// can be shortened to their columns.
pub fn can_show(bookmark: &Bookmark) -> (ok: bool)
    ensures
        ok == (can_truncate(bookmark@.url, URL_WIDTH as int) && can_truncate(
            bookmark@.desc,
            DESC_WIDTH as int,
        )),
{
    fits(bookmark.url.as_str(), URL_WIDTH) && fits(bookmark.desc.as_str(), DESC_WIDTH)
}

/// The title line: `Bookmarks`, followed by the tag constraint when there
/// is one.
pub fn title(tag: &Option<String>) -> (line: String)
    ensures
        line@ == title_text(text_view(*tag)),
{
    let mut line = String::from_str("Bookmarks");
    match tag {
        Some(t) => {
            line.append(" [tag: ");
            line.append(t.as_str());
            line.append("]");
        },
        None => {},
    }
    line
}

/// What an empty list says: that nothing matches the query, or, without a
/// query, that there are no bookmarks yet.
pub open spec fn empty_text(query_is_empty: bool) -> Seq<char> {
    if query_is_empty {
        "(no bookmarks - press 'a' to add one)"@
    } else {
        "(no matches)"@
    }
}

/// The line shown in place of an empty list.
pub fn empty_notice(query_is_empty: bool) -> (line: &'static str)
    ensures
        line@ == empty_text(query_is_empty),
{
    if query_is_empty {
        "(no bookmarks - press 'a' to add one)"
    } else {
        "(no matches)"
    }
}

/// The keys that a mode offers, as one line.
pub open spec fn help_of(mode: ModeView) -> Seq<char> {
    match mode {
        ModeView::Browsing =>
            "Enter: Open | a: Add | e: Edit | d: Delete | /: Search | t: Tags | q: Quit"@,
        ModeView::Searching => "Type to filter | Enter: Select | Esc: Cancel search"@,
        ModeView::Adding(_) | ModeView::Editing(_, _) =>
            "Tab: Next field | Shift-Tab: Previous field | Esc: Cancel"@,
        ModeView::ConfirmingDelete(_) => "y: Delete | n: Cancel"@,
        ModeView::ChoosingTag => "Enter: Select | Esc: Cancel"@,
    }
}

/// The line of hints for the mode `mode`.
pub fn help_text(mode: &Mode) -> (line: &'static str)
    ensures
        line@ == help_of(mode@),
{
    match mode {
        Mode::Browsing =>
            "Enter: Open | a: Add | e: Edit | d: Delete | /: Search | t: Tags | q: Quit",
        Mode::Searching => "Type to filter | Enter: Select | Esc: Cancel search",
        Mode::Adding(_) | Mode::Editing(_, _) =>
            "Tab: Next field | Shift-Tab: Previous field | Esc: Cancel",
        Mode::ConfirmingDelete(_) => "y: Delete | n: Cancel",
        Mode::ChoosingTag => "Enter: Select | Esc: Cancel",
    }
}

/// What the user is told about a refused event, where `name` is the name
/// that stands in the form.
pub open spec fn rejection_text(error: SessionError, name: Seq<char>) -> Seq<char> {
    match error {
        SessionError::InvalidForm => "Key and URL are required"@,
        SessionError::DuplicateKey => "Bookmark with key '"@ + name + "' already exists."@,
        SessionError::RecordNotFound => "Bookmark not found."@,
        SessionError::QueryTooLong => "The query is too long."@,
    }
}

/// The message for a refused event, where `name` is the name that stands
/// in the form.
pub fn rejection_notice(error: SessionError, name: &str) -> (line: String)
    ensures
        line@ == rejection_text(error, name@),
{
    match error {
        SessionError::InvalidForm => String::from_str("Key and URL are required"),
        SessionError::DuplicateKey => {
            let mut line = String::from_str("Bookmark with key '");
            line.append(name);
            line.append("' already exists.");
            line
        },
        SessionError::RecordNotFound => String::from_str("Bookmark not found."),
        SessionError::QueryTooLong => String::from_str("The query is too long."),
    }
}

} // verus!
