//! The scriptable front end: one command on the collection per invocation.
//!
//! [`execute`] decides what a command does to the collection and what is to
//! be shown, opened or saved; reading the arguments and doing those things
//! is left to the caller.
use crate::bookmarks::{
    add_bookmark, delete_bookmark, has_key, index_of, key_at_index, lemma_index_of, strings_view,
    BookmarkError, BookmarkView, Bookmarks, Record,
};
use crate::filter::{filter, tag_view, visible_set};
use crate::matcher::Query;
use crate::session::text_view;
use vstd::prelude::*;

verus! {

/// The arguments of one invocation.
#[derive(Debug)]
pub struct Cli {
    pub command: Commands,
}

/// What can be asked for.
#[derive(Debug)]
pub enum Commands {
    /// List the bookmarks, or those that carry a tag.
    List { tag: Option<String> },
    /// Add a bookmark under a new key.
    Add { key: String, url: String, desc: String, tags: Option<Vec<String>> },
    /// Open the bookmark with this key.
    Open { key: String },
    /// Delete the bookmark with this key.
    Delete { key: String },
}

/// What the caller has to do for a command that was accepted.
#[derive(Debug)]
pub enum Effect {
    /// Show the bookmarks at these places of the collection, in this order.
    Show(Vec<usize>),
    /// Open this url.
    Open(String),
    /// The collection has changed: save it.
    Save,
}

/// The tags of an `Add` command: those given, or none.
pub open spec fn given_tags(tags: Option<Vec<String>>) -> Seq<Seq<char>> {
    match tags {
        Some(list) => strings_view(list@),
        None => Seq::<Seq<char>>::empty(),
    }
}

/// Carries out one command.
///
/// `List` shows the bookmarks that carry the tag, or all without one, in
/// ascending order of keys, and changes nothing. `Add` appends a bookmark
/// under a key that is not in use. `Open` hands back the url stored under
/// the key. `Delete` removes the bookmark with the key. `Add` with a key in
/// use, and `Open` and `Delete` with a key that is not, are refused and
/// change nothing.
pub fn execute(bookmarks: &mut Bookmarks, cli: Cli) -> (done: Result<Effect, BookmarkError>)
    requires
        old(bookmarks).wf(),
    ensures
        final(bookmarks).wf(),
        match cli.command {
            Commands::List { tag } => final(bookmarks)@ == old(bookmarks)@ && (done matches Ok(
                Effect::Show(listed),
            ) && listed@ == visible_set(old(bookmarks)@, Seq::<char>::empty(), text_view(tag))),
            Commands::Add { key, url, desc, tags } => if has_key(old(bookmarks)@, key@) {
                final(bookmarks)@ == old(bookmarks)@ && (done matches Err(
                    BookmarkError::AlreadyExists(refused),
                ) && refused@ == key@)
            } else {
                done matches Ok(Effect::Save) && final(bookmarks)@ == old(bookmarks)@.push(
                    Record {
                        key: key@,
                        bookmark: BookmarkView { url: url@, desc: desc@, tags: given_tags(tags) },
                    },
                )
            },
            Commands::Open { key } => final(bookmarks)@ == old(bookmarks)@ && (if has_key(
                old(bookmarks)@,
                key@,
            ) {
                done matches Ok(Effect::Open(url)) && url@ == old(bookmarks)@[index_of(
                    old(bookmarks)@,
                    key@,
                )].bookmark.url
            } else {
                done matches Err(BookmarkError::NotFound(refused)) && refused@ == key@
            }),
            Commands::Delete { key } => if has_key(old(bookmarks)@, key@) {
                done matches Ok(Effect::Save) && final(bookmarks)@ == old(bookmarks)@.remove(
                    index_of(old(bookmarks)@, key@),
                )
            } else {
                final(bookmarks)@ == old(bookmarks)@ && (done matches Err(
                    BookmarkError::NotFound(refused),
                ) && refused@ == key@)
            },
        },
{
    let ghost before = bookmarks@;
    match cli.command {
        Commands::List { tag } => {
            let wanted: Option<&str> = match &tag {
                Some(text) => Some(text.as_str()),
                None => None,
            };
            assert(tag_view(wanted) == text_view(tag));
            Ok(Effect::Show(filter(bookmarks, &Query::empty(), wanted)))
        },
        Commands::Add { key, url, desc, tags } => {
            let list = match tags {
                Some(list) => list,
                None => {
                    assert(strings_view(Seq::<String>::empty()) =~= Seq::<Seq<char>>::empty());
                    Vec::new()
                },
            };
            match add_bookmark(bookmarks, key, url, desc, list) {
                Ok(()) => Ok(Effect::Save),
                Err(error) => Err(error),
            }
        },
        Commands::Open { key } => {
            match bookmarks.position(key.as_str()) {
                Some(at) => {
                    proof {
                        lemma_index_of(before, key@, at as int);
                    }
                    Ok(Effect::Open(bookmarks.bookmark_at(at).url.clone()))
                },
                None => Err(BookmarkError::NotFound(key)),
            }
        },
        Commands::Delete { key } => {
            match delete_bookmark(bookmarks, key.as_str()) {
                Ok(()) => {
                    proof {
                        let at = choose|at: int|
                            key_at_index(before, key@, at) && bookmarks@
                                == #[trigger] before.remove(at);
                        lemma_index_of(before, key@, at);
                    }
                    Ok(Effect::Save)
                },
                Err(error) => Err(error),
            }
        },
    }
}

} // verus!
