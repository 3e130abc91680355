//! The record collection: bookmarks under unique keys, in insertion order.
//!
//! A collection is viewed as a `Seq<Record>`. Its one invariant is that no key
//! occurs twice ([`distinct_keys`]); every operation states what it does to
//! that sequence.
use crate::text::{
    chars_less, chars_of, lemma_lex_less_asymmetric, lemma_lex_less_total,
    lemma_lex_less_transitive, lex_less,
};
use vstd::prelude::*;

verus! {

/// What is stored under a key: where the bookmark leads, what it is, and the
/// tags it carries.
#[derive(Debug)]
pub struct Bookmark {
    pub url: String,
    pub desc: String,
    pub tags: Vec<String>,
}

/// A bookmark as plain character sequences.
pub struct BookmarkView {
    pub url: Seq<char>,
    pub desc: Seq<char>,
    pub tags: Seq<Seq<char>>,
}

/// One entry of a collection as plain values: the key and what it stands for.
pub struct Record {
    pub key: Seq<char>,
    pub bookmark: BookmarkView,
}

/// The character sequences of a list of strings, in order.
pub open spec fn strings_view(strings: Seq<String>) -> Seq<Seq<char>> {
    Seq::new(strings.len(), |i: int| strings[i]@)
}

impl View for Bookmark {
    type V = BookmarkView;

    open spec fn view(&self) -> BookmarkView {
        BookmarkView { url: self.url@, desc: self.desc@, tags: strings_view(self.tags@) }
    }
}

impl Clone for Bookmark {
    fn clone(&self) -> (copy: Self)
        ensures
            copy@ == self@,
    {
        let tags = self.tags.clone();
        assert(strings_view(tags@) =~= strings_view(self.tags@));
        Bookmark { url: self.url.clone(), desc: self.desc.clone(), tags }
    }
}

/// Why an operation on a collection was refused. Each variant carries the
/// key that was asked for.
#[derive(Debug)]
pub enum BookmarkError {
    /// A bookmark with this key is already there.
    AlreadyExists(String),
    /// No bookmark has this key.
    NotFound(String),
}

impl BookmarkError {
    /// The key that the refused operation named.
    pub open spec fn key(&self) -> Seq<char> {
        match self {
            BookmarkError::AlreadyExists(key) => key@,
            BookmarkError::NotFound(key) => key@,
        }
    }

    /// The sentence shown to the user for this error.
    pub open spec fn message_spec(&self) -> Seq<char> {
        match self {
            BookmarkError::AlreadyExists(key) => "Bookmark with key '"@ + key@
                + "' already exists."@,
            BookmarkError::NotFound(key) => "Bookmark with key '"@ + key@ + "' not found."@,
        }
    }

    /// The sentence shown to the user for this error.
    pub fn message(&self) -> (text: String)
        ensures
            text@ == self.message_spec(),
    {
        let mut text = String::from_str("Bookmark with key '");
        match self {
            BookmarkError::AlreadyExists(key) => {
                text.append(key.as_str());
                text.append("' already exists.");
            },
            BookmarkError::NotFound(key) => {
                text.append(key.as_str());
                text.append("' not found.");
            },
        }
        text
    }
}

/// No two records of `records` share a key.
pub open spec fn distinct_keys(records: Seq<Record>) -> bool {
    forall|i: int, j: int|
        0 <= i < records.len() && 0 <= j < records.len() && i != j ==> (#[trigger] records[i]).key
            != (#[trigger] records[j]).key
}

/// Some record of `records` has the key `key`.
pub open spec fn has_key(records: Seq<Record>, key: Seq<char>) -> bool {
    exists|i: int| 0 <= i < records.len() && (#[trigger] records[i]).key == key
}

/// `at` is the place of `key` in `records`.
pub open spec fn key_at_index(records: Seq<Record>, key: Seq<char>, at: int) -> bool {
    0 <= at < records.len() && records[at].key == key
}

/// Some bookmark of `records` carries the tag `tag`.
pub open spec fn tag_in_use(records: Seq<Record>, tag: Seq<char>) -> bool {
    exists|i: int, j: int|
        0 <= i < records.len() && 0 <= j < records[i].bookmark.tags.len()
            && #[trigger] records[i].bookmark.tags[j] == tag
}

/// `tags` is strictly increasing in the order of [`lex_less`]; in particular
/// nothing occurs twice in it.
pub open spec fn strictly_sorted(tags: Seq<Seq<char>>) -> bool {
    forall|i: int, j: int|
        0 <= i < j < tags.len() ==> lex_less(#[trigger] tags[i], #[trigger] tags[j])
}

/// `tags` lists the tags in use in `records`, each once, in ascending order.
pub open spec fn is_tag_list(records: Seq<Record>, tags: Seq<Seq<char>>) -> bool {
    &&& strictly_sorted(tags)
    &&& forall|tag: Seq<char>| tags.contains(tag) <==> tag_in_use(records, tag)
}

/// The tags in use in `records`, each once, in ascending order.
pub open spec fn all_tags(records: Seq<Record>) -> Seq<Seq<char>> {
    choose|tags: Seq<Seq<char>>| is_tag_list(records, tags)
}

/// The place of the record with key `key` in `records`.
pub open spec fn index_of(records: Seq<Record>, key: Seq<char>) -> int {
    choose|at: int| key_at_index(records, key, at)
}

/// A key that is in use has a place.
pub proof fn lemma_has_key_index(records: Seq<Record>, key: Seq<char>)
    requires
        has_key(records, key),
    ensures
        key_at_index(records, key, index_of(records, key)),
{
    let at = choose|at: int| 0 <= at < records.len() && (#[trigger] records[at]).key == key;
    assert(key_at_index(records, key, at));
}

/// In a collection with distinct keys a key has one place.
pub proof fn lemma_index_of(records: Seq<Record>, key: Seq<char>, at: int)
    requires
        distinct_keys(records),
        key_at_index(records, key, at),
    ensures
        index_of(records, key) == at,
        has_key(records, key),
{
    let chosen = index_of(records, key);
    assert(key_at_index(records, key, chosen));
    if chosen != at {
        assert(records[chosen].key != records[at].key);
    }
}

/// Two strictly ascending lists with the same members agree on their first
/// `upto` places.
proof fn lemma_sorted_lists_agree(one: Seq<Seq<char>>, other: Seq<Seq<char>>, upto: int)
    requires
        strictly_sorted(one),
        strictly_sorted(other),
        forall|tag: Seq<char>| one.contains(tag) <==> other.contains(tag),
        0 <= upto <= one.len(),
    ensures
        upto <= other.len(),
        forall|k: int| 0 <= k < upto ==> (#[trigger] one[k]) == other[k],
    decreases upto,
{
    if upto > 0 {
        lemma_sorted_lists_agree(one, other, upto - 1);
        let k = upto - 1;
        let tag = one[k];
        assert(one.contains(tag));
        let m = choose|m: int| 0 <= m < other.len() && other[m] == tag;
        if m < k {
            assert(one[m] == other[m]);
            assert(lex_less(one[m], one[k]));
            lemma_lex_less_asymmetric(one[m], one[k]);
            assert(false);
        }
        if m > k {
            let rival = other[k];
            assert(other.contains(rival));
            let n = choose|n: int| 0 <= n < one.len() && one[n] == rival;
            if n < k {
                assert(one[n] == other[n]);
                assert(lex_less(other[n], other[k]));
                lemma_lex_less_asymmetric(other[n], other[k]);
                assert(false);
            }
            assert(lex_less(other[k], other[m]));
            if n == k {
                lemma_lex_less_asymmetric(other[k], other[m]);
                assert(false);
            }
            assert(lex_less(one[k], one[n]));
            lemma_lex_less_asymmetric(tag, rival);
            assert(false);
        }
    }
}

/// The tags in use have one ascending list.
pub proof fn lemma_tag_list_unique(records: Seq<Record>, tags: Seq<Seq<char>>)
    requires
        is_tag_list(records, tags),
    ensures
        tags == all_tags(records),
{
    let chosen = all_tags(records);
    assert(is_tag_list(records, chosen));
    lemma_sorted_lists_agree(tags, chosen, tags.len() as int);
    lemma_sorted_lists_agree(chosen, tags, chosen.len() as int);
    assert(tags =~= chosen);
}

/// A bookmark together with its key.
struct Entry {
    key: String,
    bookmark: Bookmark,
}

impl Entry {
    /// The entry as plain values.
    spec fn record(&self) -> Record {
        Record { key: self.key@, bookmark: self.bookmark@ }
    }
}

/// The bookmarks of one user, each under its key, in the order in which they
/// were added.
pub struct Bookmarks {
    entries: Vec<Entry>,
}

impl View for Bookmarks {
    type V = Seq<Record>;

    closed spec fn view(&self) -> Seq<Record> {
        Seq::new(self.entries@.len(), |i: int| self.entries@[i].record())
    }
}

impl Bookmarks {
    /// The invariant of a collection: every key occurs once.
    pub open spec fn wf(&self) -> bool {
        distinct_keys(self@)
    }

    /// A collection without bookmarks.
    pub fn new() -> (empty: Bookmarks)
        ensures
            empty.wf(),
            empty@ == Seq::<Record>::empty(),
    {
        let empty = Bookmarks { entries: Vec::new() };
        assert(empty@ =~= Seq::<Record>::empty());
        empty
    }

    /// The number of bookmarks.
    pub fn len(&self) -> (n: usize)
        ensures
            n == self@.len(),
    {
        self.entries.len()
    }

    /// Whether the collection holds no bookmark.
    pub fn is_empty(&self) -> (empty: bool)
        ensures
            empty == (self@.len() == 0),
    {
        self.entries.len() == 0
    }

    /// The key of the bookmark at place `index`.
    pub fn key_at(&self, index: usize) -> (key: &String)
        requires
            index < self@.len(),
        ensures
            key@ == self@[index as int].key,
    {
        &self.entries[index].key
    }

    /// The bookmark at place `index`.
    pub fn bookmark_at(&self, index: usize) -> (bookmark: &Bookmark)
        requires
            index < self@.len(),
        ensures
            bookmark@ == self@[index as int].bookmark,
    {
        &self.entries[index].bookmark
    }

    /// The place of the bookmark with key `key`, if there is one.
    pub fn position(&self, key: &str) -> (place: Option<usize>)
        ensures
            match place {
                Some(at) => key_at_index(self@, key@, at as int),
                None => !has_key(self@, key@),
            },
    {
        let wanted: String = key.to_owned();
        let mut i: usize = 0;
        while i < self.entries.len()
            invariant
                i <= self.entries.len(),
                wanted@ == key@,
                forall|j: int| 0 <= j < i ==> (#[trigger] self@[j]).key != key@,
            decreases self.entries.len() - i,
        {
            if self.entries[i].key == wanted {
                return Some(i);
            }
            i += 1;
        }
        None
    }

    /// Whether some bookmark has the key `key`.
    pub fn contains_key(&self, key: &str) -> (found: bool)
        ensures
            found == has_key(self@, key@),
    {
        self.position(key).is_some()
    }

    /// The bookmark with key `key`, if there is one.
    pub fn get(&self, key: &str) -> (found: Option<&Bookmark>)
        ensures
            match found {
                Some(bookmark) => exists|at: int|
                    key_at_index(self@, key@, at) && bookmark@ == (#[trigger] self@[at]).bookmark,
                None => !has_key(self@, key@),
            },
    {
        match self.position(key) {
            Some(at) => Some(&self.entries[at].bookmark),
            None => None,
        }
    }

    /// Stores `bookmark` under `key`, as a map does: a bookmark that was
    /// there under the same key is replaced in its place and handed back,
    /// otherwise the new one goes to the end.
    pub fn insert(&mut self, key: String, bookmark: Bookmark) -> (previous: Option<Bookmark>)
        requires
            old(self).wf(),
        ensures
            final(self).wf(),
            match previous {
                Some(replaced) => exists|at: int|
                    key_at_index(old(self)@, key@, at) && replaced@ == (#[trigger] old(
                        self,
                    )@[at]).bookmark && final(self)@ == old(self)@.update(
                        at,
                        Record { key: key@, bookmark: bookmark@ },
                    ),
                None => !has_key(old(self)@, key@) && final(self)@ == old(self)@.push(
                    Record { key: key@, bookmark: bookmark@ },
                ),
            },
    {
        let ghost before = self@;
        let ghost record = Record { key: key@, bookmark: bookmark@ };
        match self.position(key.as_str()) {
            Some(at) => {
                let mut replaced = Entry { key, bookmark };
                std::mem::swap(&mut self.entries[at], &mut replaced);
                assert(self@ =~= before.update(at as int, record));
                assert(replaced.bookmark@ == before[at as int].bookmark);
                Some(replaced.bookmark)
            },
            None => {
                self.entries.push(Entry { key, bookmark });
                assert(self@ =~= before.push(record));
                None
            },
        }
    }

    /// Takes the bookmark with key `key` out of the collection and hands it
    /// back; the others keep their order.
    pub fn remove(&mut self, key: &str) -> (removed: Option<Bookmark>)
        requires
            old(self).wf(),
        ensures
            final(self).wf(),
            match removed {
                Some(bookmark) => exists|at: int|
                    key_at_index(old(self)@, key@, at) && bookmark@ == (#[trigger] old(
                        self,
                    )@[at]).bookmark && final(self)@ == old(self)@.remove(at),
                None => !has_key(old(self)@, key@) && final(self)@ == old(self)@,
            },
    {
        let ghost before = self@;
        match self.position(key) {
            Some(at) => {
                let entry = self.entries.remove(at);
                assert(self@ =~= before.remove(at as int));
                assert(entry.bookmark@ == before[at as int].bookmark);
                Some(entry.bookmark)
            },
            None => None,
        }
    }

    /// Puts a bookmark with a possibly different key in the place of the one
    /// with key `key`.
    ///
    /// Refused with `NotFound` when no bookmark has the key `key`, and with
    /// `AlreadyExists` when the new key differs from `key` and belongs to
    /// another bookmark. A refusal changes nothing.
    pub fn replace(&mut self, key: &str, new_key: String, bookmark: Bookmark) -> (done: Result<
        (),
        BookmarkError,
    >)
        requires
            old(self).wf(),
        ensures
            final(self).wf(),
            match done {
                Ok(()) => exists|at: int|
                    key_at_index(old(self)@, key@, at) && final(self)@ == #[trigger] old(
                        self,
                    )@.update(at, Record { key: new_key@, bookmark: bookmark@ }),
                Err(error) => final(self)@ == old(self)@ && error.key() == (if has_key(
                    old(self)@,
                    key@,
                ) {
                    new_key@
                } else {
                    key@
                }),
            },
            done is Ok <==> has_key(old(self)@, key@) && (new_key@ == key@ || !has_key(
                old(self)@,
                new_key@,
            )),
            done matches Err(error) ==> (error is NotFound <==> !has_key(old(self)@, key@)),
    {
        let ghost before = self@;
        let ghost record = Record { key: new_key@, bookmark: bookmark@ };
        match self.position(key) {
            None => Err(BookmarkError::NotFound(key.to_owned())),
            Some(at) => {
                match self.position(new_key.as_str()) {
                    Some(other) if other != at => Err(BookmarkError::AlreadyExists(new_key)),
                    _ => {
                        self.entries[at] = Entry { key: new_key, bookmark };
                        assert(self@ =~= before.update(at as int, record));
                        Ok(())
                    },
                }
            },
        }
    }
}

/// Adds a bookmark under a key that is not in use yet, at the end of the
/// collection. A key that is in use is refused with `AlreadyExists`, and the
/// collection stays as it was.
pub fn add_bookmark(
    bookmarks: &mut Bookmarks,
    key: String,
    url: String,
    desc: String,
    tags: Vec<String>,
) -> (done: Result<(), BookmarkError>)
    requires
        old(bookmarks).wf(),
    ensures
        final(bookmarks).wf(),
        done is Ok <==> !has_key(old(bookmarks)@, key@),
        match done {
            Ok(()) => final(bookmarks)@ == old(bookmarks)@.push(
                Record {
                    key: key@,
                    bookmark: BookmarkView { url: url@, desc: desc@, tags: strings_view(tags@) },
                },
            ),
            Err(error) => final(bookmarks)@ == old(bookmarks)@ && error is AlreadyExists
                && error.key() == key@,
        },
{
    if bookmarks.contains_key(key.as_str()) {
        return Err(BookmarkError::AlreadyExists(key));
    }
    let ghost before = bookmarks@;
    let new_bookmark = Bookmark { url, desc, tags };
    let ghost record = Record { key: key@, bookmark: new_bookmark@ };
    bookmarks.entries.push(Entry { key, bookmark: new_bookmark });
    assert(bookmarks@ =~= before.push(record));
    Ok(())
}

/// Replaces what is stored under `key`, in its place. A key that is not in
/// use is refused with `NotFound`, and the collection stays as it was.
pub fn update_bookmark(
    bookmarks: &mut Bookmarks,
    key: &str,
    url: String,
    desc: String,
    tags: Vec<String>,
) -> (done: Result<(), BookmarkError>)
    requires
        old(bookmarks).wf(),
    ensures
        final(bookmarks).wf(),
        done is Ok <==> has_key(old(bookmarks)@, key@),
        match done {
            Ok(()) => exists|at: int|
                key_at_index(old(bookmarks)@, key@, at) && final(bookmarks)@ == #[trigger] old(
                    bookmarks,
                )@.update(
                    at,
                    Record {
                        key: key@,
                        bookmark: BookmarkView {
                            url: url@,
                            desc: desc@,
                            tags: strings_view(tags@),
                        },
                    },
                ),
            Err(error) => final(bookmarks)@ == old(bookmarks)@ && error is NotFound
                && error.key() == key@,
        },
{
    let ghost before = bookmarks@;
    match bookmarks.position(key) {
        None => Err(BookmarkError::NotFound(key.to_owned())),
        Some(at) => {
            let bookmark = Bookmark { url, desc, tags };
            let ghost record = Record { key: key@, bookmark: bookmark@ };
            bookmarks.entries[at].bookmark = bookmark;
            assert(bookmarks@ =~= before.update(at as int, record));
            Ok(())
        },
    }
}

/// Removes the bookmark with key `key`; the others keep their order. A key
/// that is not in use is refused with `NotFound`, and the collection stays
/// as it was.
pub fn delete_bookmark(bookmarks: &mut Bookmarks, key: &str) -> (done: Result<(), BookmarkError>)
    requires
        old(bookmarks).wf(),
    ensures
        final(bookmarks).wf(),
        done is Ok <==> has_key(old(bookmarks)@, key@),
        match done {
            Ok(()) => exists|at: int|
                key_at_index(old(bookmarks)@, key@, at) && final(bookmarks)@ == #[trigger] old(
                    bookmarks,
                )@.remove(at),
            Err(error) => final(bookmarks)@ == old(bookmarks)@ && error is NotFound
                && error.key() == key@,
        },
{
    match bookmarks.remove(key) {
        Some(_) => Ok(()),
        None => Err(BookmarkError::NotFound(key.to_owned())),
    }
}

/// `tag` is carried by one of the first `rows` bookmarks of `records`, or is
/// among the first `extra` tags of the bookmark at place `rows`.
spec fn tag_seen(records: Seq<Record>, tag: Seq<char>, rows: int, extra: int) -> bool {
    exists|i: int, j: int|
        0 <= i < records.len() && 0 <= j < records[i].bookmark.tags.len() && (i < rows || (i
            == rows && j < extra)) && #[trigger] records[i].bookmark.tags[j] == tag
}

/// Puts `tag` into the sorted list `tags` at its place, unless it is there.
fn insert_sorted(tags: &mut Vec<String>, tag: &String)
    requires
        strictly_sorted(strings_view(old(tags)@)),
    ensures
        strictly_sorted(strings_view(final(tags)@)),
        forall|t: Seq<char>|
            strings_view(final(tags)@).contains(t) <==> (strings_view(old(tags)@).contains(t) || t
                == tag@),
{
    let ghost before = strings_view(tags@);
    let wanted = chars_of(tag.as_str());
    let mut at: usize = 0;
    let mut searching = true;
    while searching && at < tags.len()
        invariant
            at <= tags.len(),
            wanted@ == tag@,
            tags@ == old(tags)@,
            before == strings_view(tags@),
            forall|k: int| 0 <= k < at ==> lex_less(#[trigger] before[k], tag@),
            !searching ==> at < tags.len() && !lex_less(before[at as int], tag@),
        decreases tags.len() - at + (if searching { 1int } else { 0int }),
    {
        let present = chars_of(tags[at].as_str());
        if chars_less(present.as_slice(), wanted.as_slice()) {
            at += 1;
        } else {
            searching = false;
        }
    }
    if at < tags.len() && tags[at] == *tag {
        assert(before[at as int] == tag@);
        assert(before.contains(tag@));
        return;
    }
    tags.insert(at, tag.clone());
    proof {
        let after = strings_view(tags@);
        assert(after =~= before.insert(at as int, tag@));
        assert forall|i: int, j: int| 0 <= i < j < after.len() implies lex_less(
            #[trigger] after[i],
            #[trigger] after[j],
        ) by {
            if j == at {
                assert(after[i] == before[i]);
            } else if i == at {
                let next = before[at as int];
                assert(next == old(tags)@[at as int]@);
                lemma_lex_less_total(next, tag@);
                assert(lex_less(tag@, next));
                if j - 1 > at {
                    assert(lex_less(next, before[j - 1]));
                    lemma_lex_less_transitive(tag@, next, before[j - 1]);
                }
            } else {
                let a = if i < at { i } else { i - 1 };
                let b = if j < at { j } else { j - 1 };
                assert(after[i] == before[a] && after[j] == before[b]);
            }
        }
        assert forall|t: Seq<char>| after.contains(t) <==> (before.contains(t) || t
            == tag@) by {
            if after.contains(t) {
                let k = choose|k: int| 0 <= k < after.len() && after[k] == t;
                if k < at {
                    assert(before[k] == t);
                } else if k > at {
                    assert(before[k - 1] == t);
                }
            }
            if before.contains(t) {
                let k = choose|k: int| 0 <= k < before.len() && before[k] == t;
                if k < at {
                    assert(after[k] == t);
                } else {
                    assert(after[k + 1] == t);
                }
            }
            if t == tag@ {
                assert(after[at as int] == t);
            }
        }
    }
}

/// The tags that occur in the collection, each once, in ascending order.
pub fn get_all_tags(bookmarks: &Bookmarks) -> (tags: Vec<String>)
    ensures
        strictly_sorted(strings_view(tags@)),
        forall|tag: Seq<char>|
            strings_view(tags@).contains(tag) <==> tag_in_use(bookmarks@, tag),
        strings_view(tags@) == all_tags(bookmarks@),
{
    let mut tags: Vec<String> = Vec::new();
    let mut row: usize = 0;
    while row < bookmarks.entries.len()
        invariant
            row <= bookmarks.entries.len(),
            strictly_sorted(strings_view(tags@)),
            forall|tag: Seq<char>|
                strings_view(tags@).contains(tag) <==> tag_seen(bookmarks@, tag, row as int, 0),
        decreases bookmarks.entries.len() - row,
    {
        let own = &bookmarks.entries[row].bookmark.tags;
        assert(bookmarks@[row as int].bookmark.tags == strings_view(own@));
        let mut j: usize = 0;
        while j < own.len()
            invariant
                j <= own.len(),
                row < bookmarks.entries.len(),
                bookmarks@[row as int].bookmark.tags == strings_view(own@),
                strictly_sorted(strings_view(tags@)),
                forall|tag: Seq<char>|
                    strings_view(tags@).contains(tag) <==> tag_seen(
                        bookmarks@,
                        tag,
                        row as int,
                        j as int,
                    ),
            decreases own.len() - j,
        {
            let ghost listed = strings_view(tags@);
            insert_sorted(&mut tags, &own[j]);
            proof {
                let records = bookmarks@;
                assert(records[row as int].bookmark.tags[j as int] == own[j as int]@);
                assert forall|tag: Seq<char>|
                    strings_view(tags@).contains(tag) <==> tag_seen(
                        records,
                        tag,
                        row as int,
                        j + 1,
                    ) by {
                    if tag_seen(records, tag, row as int, j + 1) {
                        let (a, b) = choose|a: int, b: int|
                            0 <= a < records.len() && 0 <= b < records[a].bookmark.tags.len() && (a
                                < row || (a == row && b < j + 1))
                                && #[trigger] records[a].bookmark.tags[b] == tag;
                        if !(a == row && b == j) {
                            assert(tag_seen(records, tag, row as int, j as int));
                        }
                    }
                    if listed.contains(tag) {
                        assert(tag_seen(records, tag, row as int, j as int));
                        let (a, b) = choose|a: int, b: int|
                            0 <= a < records.len() && 0 <= b < records[a].bookmark.tags.len() && (a
                                < row || (a == row && b < j))
                                && #[trigger] records[a].bookmark.tags[b] == tag;
                        assert(records[a].bookmark.tags[b] == tag);
                    }
                }
            }
            j += 1;
        }
        proof {
            let records = bookmarks@;
            assert forall|tag: Seq<char>|
                tag_seen(records, tag, row as int, own.len() as int) <==> tag_seen(
                    records,
                    tag,
                    row + 1,
                    0,
                ) by {
                if tag_seen(records, tag, row as int, own.len() as int) {
                    let (a, b) = choose|a: int, b: int|
                        0 <= a < records.len() && 0 <= b < records[a].bookmark.tags.len() && (a
                            < row || (a == row && b < own.len()))
                            && #[trigger] records[a].bookmark.tags[b] == tag;
                    assert(records[a].bookmark.tags[b] == tag);
                }
                if tag_seen(records, tag, row + 1, 0) {
                    let (a, b) = choose|a: int, b: int|
                        0 <= a < records.len() && 0 <= b < records[a].bookmark.tags.len() && (a
                            < row + 1 || (a == row + 1 && b < 0))
                            && #[trigger] records[a].bookmark.tags[b] == tag;
                    assert(records[a].bookmark.tags[b] == tag);
                }
            }
        }
        row += 1;
    }
    proof {
        let records = bookmarks@;
        assert forall|tag: Seq<char>|
            tag_seen(records, tag, records.len() as int, 0) <==> tag_in_use(records, tag) by {
            if tag_seen(records, tag, records.len() as int, 0) {
                let (a, b) = choose|a: int, b: int|
                    0 <= a < records.len() && 0 <= b < records[a].bookmark.tags.len() && (a
                        < records.len() || (a == records.len() && b < 0))
                        && #[trigger] records[a].bookmark.tags[b] == tag;
                assert(records[a].bookmark.tags[b] == tag);
            }
            if tag_in_use(records, tag) {
                let (a, b) = choose|a: int, b: int|
                    0 <= a < records.len() && 0 <= b < records[a].bookmark.tags.len()
                        && #[trigger] records[a].bookmark.tags[b] == tag;
                assert(records[a].bookmark.tags[b] == tag);
            }
        }
        lemma_tag_list_unique(records, strings_view(tags@));
    }
    tags
}

} // verus!
