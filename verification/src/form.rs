//! The form buffer: the draft record that is edited while adding or editing.
//!
//! Tags are typed as one line, separated by commas. [`parse_tags`] reads
//! such a line and [`join_tags`] writes one.
use crate::bookmarks::{strings_view, Bookmark, BookmarkView};
use crate::text::{chars_of, whitespace};
use vstd::prelude::*;

verus! {

/// The field of the form that has the focus.
#[derive(Debug, Clone, Copy, PartialEq, Eq, Structural)]
pub enum FieldCursor {
    Name,
    Url,
    Description,
    Tags,
}

impl FieldCursor {
    /// The field after this one; `Tags` is the last and has none.
    pub open spec fn following(self) -> Option<FieldCursor> {
        match self {
            FieldCursor::Name => Some(FieldCursor::Url),
            FieldCursor::Url => Some(FieldCursor::Description),
            FieldCursor::Description => Some(FieldCursor::Tags),
            FieldCursor::Tags => None,
        }
    }

    /// The field before this one; `Name` is the first and stays.
    pub open spec fn preceding(self) -> FieldCursor {
        match self {
            FieldCursor::Name => FieldCursor::Name,
            FieldCursor::Url => FieldCursor::Name,
            FieldCursor::Description => FieldCursor::Url,
            FieldCursor::Tags => FieldCursor::Description,
        }
    }

    /// The field after this one, in the order name, url, description, tags;
    /// `None` after the last.
    pub fn next(self) -> (field: Option<FieldCursor>)
        ensures
            field == self.following(),
    {
        match self {
            FieldCursor::Name => Some(FieldCursor::Url),
            FieldCursor::Url => Some(FieldCursor::Description),
            FieldCursor::Description => Some(FieldCursor::Tags),
            FieldCursor::Tags => None,
        }
    }

    /// The field before this one; the first field is its own predecessor.
    pub fn previous(self) -> (field: FieldCursor)
        ensures
            field == self.preceding(),
    {
        match self {
            FieldCursor::Name => FieldCursor::Name,
            FieldCursor::Url => FieldCursor::Name,
            FieldCursor::Description => FieldCursor::Url,
            FieldCursor::Tags => FieldCursor::Description,
        }
    }
}

/// The place of the first comma of `line`, or its length when it has none.
pub open spec fn first_comma(line: Seq<char>) -> int
    decreases line.len(),
{
    if line.len() == 0 {
        0
    } else if line[0] == ',' {
        0
    } else {
        1 + first_comma(line.drop_first())
    }
}

/// `piece` without the whitespace at its start.
pub open spec fn trim_start(piece: Seq<char>) -> Seq<char>
    decreases piece.len(),
{
    if piece.len() > 0 && whitespace(piece[0]) {
        trim_start(piece.drop_first())
    } else {
        piece
    }
}

/// `piece` without the whitespace at its end.
pub open spec fn trim_end(piece: Seq<char>) -> Seq<char>
    decreases piece.len(),
{
    if piece.len() > 0 && whitespace(piece.last()) {
        trim_end(piece.drop_last())
    } else {
        piece
    }
}

/// `piece` without the whitespace at its start and at its end.
pub open spec fn trim(piece: Seq<char>) -> Seq<char> {
    trim_end(trim_start(piece))
}

/// The tag that a piece of a tag line stands for, if any: the piece
/// trimmed, unless nothing is left of it.
pub open spec fn piece_tags(piece: Seq<char>) -> Seq<Seq<char>> {
    if trim(piece).len() == 0 {
        Seq::<Seq<char>>::empty()
    } else {
        seq![trim(piece)]
    }
}

/// The tags of a tag line: the line is cut at every comma, each piece is
/// trimmed, and pieces of which nothing is left are dropped.
pub open spec fn tags_of_line(line: Seq<char>) -> Seq<Seq<char>>
    decreases line.len(),
{
    let cut = first_comma(line);
    if 0 <= cut < line.len() {
        piece_tags(line.take(cut)) + tags_of_line(line.skip(cut + 1))
    } else {
        piece_tags(line)
    }
}

/// The tag line for `tags`: the tags in order, a comma and a space between
/// each two.
pub open spec fn line_of_tags(tags: Seq<Seq<char>>) -> Seq<char>
    decreases tags.len(),
{
    if tags.len() == 0 {
        Seq::<char>::empty()
    } else if tags.len() == 1 {
        tags[0]
    } else {
        line_of_tags(tags.drop_last()) + seq![',', ' '] + tags.last()
    }
}

/// Where the first comma stands: within the line or at its end, on a comma
/// unless at the end, and after no comma.
pub proof fn lemma_first_comma(line: Seq<char>)
    ensures
        0 <= first_comma(line) <= line.len(),
        first_comma(line) < line.len() ==> line[first_comma(line)] == ',',
        forall|k: int| 0 <= k < first_comma(line) ==> line[k] != ',',
    decreases line.len(),
{
    if line.len() > 0 && line[0] != ',' {
        let rest = line.drop_first();
        lemma_first_comma(rest);
        assert forall|k: int| 0 <= k < first_comma(line) implies line[k] != ',' by {
            if k > 0 {
                assert(line[k] == rest[k - 1]);
            }
        }
    }
}

/// A range of `line` without a comma that ends just before a comma, or at
/// the end of the line, is the first piece of what starts with it.
proof fn lemma_first_comma_at(line: Seq<char>, start: int, end: int)
    requires
        0 <= start <= end <= line.len(),
        forall|k: int| start <= k < end ==> line[k] != ',',
        end < line.len() ==> line[end] == ',',
    ensures
        first_comma(line.skip(start)) == end - start,
{
    let rest = line.skip(start);
    lemma_first_comma(rest);
    let cut = first_comma(rest);
    if cut < end - start {
        assert(rest[cut] == line[start + cut]);
    } else if cut > end - start {
        assert(rest[end - start] == line[end]);
    }
}

/// Trimming the start leaves the piece from its first character that is no
/// whitespace.
proof fn lemma_trim_start_is_skip(piece: Seq<char>, from: int)
    requires
        0 <= from <= piece.len(),
        forall|k: int| 0 <= k < from ==> whitespace(#[trigger] piece[k]),
        from < piece.len() ==> !whitespace(piece[from]),
    ensures
        trim_start(piece) == piece.skip(from),
    decreases from,
{
    if from > 0 {
        let rest = piece.drop_first();
        assert forall|k: int| 0 <= k < from - 1 implies whitespace(#[trigger] rest[k]) by {
            assert(rest[k] == piece[k + 1]);
        }
        assert(whitespace(piece[0]));
        lemma_trim_start_is_skip(rest, from - 1);
        assert(rest.skip(from - 1) =~= piece.skip(from));
    } else {
        assert(piece.skip(0) =~= piece);
    }
}

/// Trimming the end leaves the piece up to its last character that is no
/// whitespace.
proof fn lemma_trim_end_is_take(piece: Seq<char>, to: int)
    requires
        0 <= to <= piece.len(),
        forall|k: int| to <= k < piece.len() ==> whitespace(#[trigger] piece[k]),
        to > 0 ==> !whitespace(piece[to - 1]),
    ensures
        trim_end(piece) == piece.take(to),
    decreases piece.len() - to,
{
    if to < piece.len() {
        let rest = piece.drop_last();
        assert forall|k: int| to <= k < rest.len() implies whitespace(#[trigger] rest[k]) by {
            assert(rest[k] == piece[k]);
        }
        assert(whitespace(piece[piece.len() - 1]));
        lemma_trim_end_is_take(rest, to);
        assert(rest.take(to) =~= piece.take(to));
    } else {
        assert(piece.take(to) =~= piece);
    }
}

/// Appends to `tags` the tag that the piece `chars[start..end]` stands for,
/// if it stands for one.
fn push_piece(tags: &mut Vec<String>, chars: &Vec<char>, start: usize, end: usize)
    requires
        start <= end <= chars@.len(),
    ensures
        strings_view(final(tags)@) == strings_view(old(tags)@) + piece_tags(
            chars@.subrange(start as int, end as int),
        ),
{
    let ghost piece = chars@.subrange(start as int, end as int);
    let mut from: usize = start;
    while from < end && chars[from].is_whitespace()
        invariant
            start <= from <= end <= chars@.len(),
            forall|k: int| start <= k < from ==> whitespace(#[trigger] chars@[k]),
        decreases end - from,
    {
        from += 1;
    }
    let mut to: usize = end;
    while to > from && chars[to - 1].is_whitespace()
        invariant
            from <= to <= end <= chars@.len(),
            forall|k: int| to <= k < end ==> whitespace(#[trigger] chars@[k]),
        decreases to - from,
    {
        to -= 1;
    }
    proof {
        assert forall|k: int| 0 <= k < from - start implies whitespace(#[trigger] piece[k]) by {
            assert(piece[k] == chars@[start + k]);
        }
        lemma_trim_start_is_skip(piece, from - start);
        let tail = piece.skip(from - start);
        assert forall|k: int| to - from <= k < tail.len() implies whitespace(
            #[trigger] tail[k],
        ) by {
            assert(tail[k] == chars@[from + k]);
        }
        if to > from {
            assert(tail[to - from - 1] == chars@[to - 1]);
        }
        lemma_trim_end_is_take(tail, to - from);
        assert(tail.take(to - from) =~= chars@.subrange(from as int, to as int));
        assert(trim(piece) == chars@.subrange(from as int, to as int));
    }
    if from < to {
        let mut tag = String::new();
        let mut k: usize = from;
        while k < to
            invariant
                from <= k <= to <= chars@.len(),
                tag@ == chars@.subrange(from as int, k as int),
            decreases to - k,
        {
            tag.push(chars[k]);
            assert(tag@ =~= chars@.subrange(from as int, k + 1));
            k += 1;
        }
        let ghost before = strings_view(tags@);
        tags.push(tag);
        assert(strings_view(tags@) =~= before + seq![trim(piece)]);
    } else {
        assert(strings_view(tags@) =~= strings_view(tags@) + Seq::<Seq<char>>::empty());
    }
}

/// Reads a tag line: cuts it at every comma, trims the whitespace round
/// each piece and drops the pieces of which nothing is left.
pub fn parse_tags(line: &str) -> (tags: Vec<String>)
    ensures
        strings_view(tags@) == tags_of_line(line@),
{
    let chars = chars_of(line);
    let mut tags: Vec<String> = Vec::new();
    let mut start: usize = 0;
    let mut i: usize = 0;
    proof {
        assert(line@.skip(0) =~= line@);
        assert(strings_view(tags@) + tags_of_line(line@) =~= tags_of_line(line@));
    }
    while i < chars.len()
        invariant
            chars@ == line@,
            start <= i <= chars@.len(),
            forall|k: int| start <= k < i ==> chars@[k] != ',',
            strings_view(tags@) + tags_of_line(line@.skip(start as int)) == tags_of_line(line@),
        decreases chars@.len() - i,
    {
        if chars[i] == ',' {
            let ghost before = strings_view(tags@);
            let ghost rest = line@.skip(start as int);
            push_piece(&mut tags, &chars, start, i);
            proof {
                lemma_first_comma_at(line@, start as int, i as int);
                assert(rest.take(i - start) =~= line@.subrange(start as int, i as int));
                assert(rest.skip(i - start + 1) =~= line@.skip(i + 1));
                assert(before + (piece_tags(rest.take(i - start)) + tags_of_line(
                    line@.skip(i + 1),
                )) =~= (before + piece_tags(rest.take(i - start))) + tags_of_line(
                    line@.skip(i + 1),
                ));
            }
            start = i + 1;
        }
        i += 1;
    }
    let ghost before = strings_view(tags@);
    let ghost rest = line@.skip(start as int);
    push_piece(&mut tags, &chars, start, i);
    proof {
        lemma_first_comma_at(line@, start as int, i as int);
        assert(rest =~= line@.subrange(start as int, i as int));
    }
    tags
}

/// Writes a tag line: the tags in order, a comma and a space between each
/// two.
pub fn join_tags(tags: &[String]) -> (line: String)
    ensures
        line@ == line_of_tags(strings_view(tags@)),
{
    let ghost all = strings_view(tags@);
    let mut line = String::new();
    let mut i: usize = 0;
    while i < tags.len()
        invariant
            i <= tags.len(),
            all == strings_view(tags@),
            line@ == line_of_tags(all.take(i as int)),
        decreases tags.len() - i,
    {
        proof {
            let upto = all.take(i + 1);
            assert(upto.drop_last() =~= all.take(i as int));
            assert(upto.last() == tags[i as int]@);
            reveal_strlit(", ");
            assert(", "@ =~= seq![',', ' ']);
            if i == 0 {
                assert(line@ + tags[i as int]@ =~= tags[i as int]@);
                assert(upto[0] == tags[i as int]@);
            }
        }
        if i > 0 {
            line.append(", ");
        }
        line.append(tags[i].as_str());
        i += 1;
    }
    assert(all.take(tags.len() as int) =~= all);
    line
}

/// The draft of a record: four lines of text, one for each field.
#[derive(Debug)]
pub struct FormBuffer {
    pub name: String,
    pub url: String,
    pub description: String,
    pub tags: String,
}

/// A form buffer as plain character sequences.
pub struct FormView {
    pub name: Seq<char>,
    pub url: Seq<char>,
    pub description: Seq<char>,
    pub tags: Seq<char>,
}

impl FormView {
    /// The form with all four fields empty.
    pub open spec fn blank() -> FormView {
        FormView {
            name: Seq::<char>::empty(),
            url: Seq::<char>::empty(),
            description: Seq::<char>::empty(),
            tags: Seq::<char>::empty(),
        }
    }

    /// The text of the field `field`.
    pub open spec fn field(self, field: FieldCursor) -> Seq<char> {
        match field {
            FieldCursor::Name => self.name,
            FieldCursor::Url => self.url,
            FieldCursor::Description => self.description,
            FieldCursor::Tags => self.tags,
        }
    }

    /// The form with `text` in the field `field`, the other fields as they
    /// are.
    pub open spec fn with_field(self, field: FieldCursor, text: Seq<char>) -> FormView {
        match field {
            FieldCursor::Name => FormView { name: text, ..self },
            FieldCursor::Url => FormView { url: text, ..self },
            FieldCursor::Description => FormView { description: text, ..self },
            FieldCursor::Tags => FormView { tags: text, ..self },
        }
    }

    /// The form with `c` appended to the field `field`.
    pub open spec fn typed(self, field: FieldCursor, c: char) -> FormView {
        self.with_field(field, self.field(field).push(c))
    }

    /// The form with the last character of the field `field` removed; an
    /// empty field stays empty.
    pub open spec fn erased(self, field: FieldCursor) -> FormView {
        if self.field(field).len() == 0 {
            self
        } else {
            self.with_field(field, self.field(field).drop_last())
        }
    }

    /// Whether the form may be committed: the name and the url are filled
    /// in.
    pub open spec fn is_complete(self) -> bool {
        self.name.len() > 0 && self.url.len() > 0
    }

    /// The form that shows the record with key `key` and the fields of
    /// `bookmark`.
    pub open spec fn showing(key: Seq<char>, bookmark: BookmarkView) -> FormView {
        FormView {
            name: key,
            url: bookmark.url,
            description: bookmark.desc,
            tags: line_of_tags(bookmark.tags),
        }
    }

    /// The bookmark that the form describes.
    pub open spec fn bookmark(self) -> BookmarkView {
        BookmarkView {
            url: self.url,
            desc: self.description,
            tags: tags_of_line(self.tags),
        }
    }
}

impl View for FormBuffer {
    type V = FormView;

    open spec fn view(&self) -> FormView {
        FormView {
            name: self.name@,
            url: self.url@,
            description: self.description@,
            tags: self.tags@,
        }
    }
}

impl FormBuffer {
    /// A form with all four fields empty.
    pub fn new() -> (form: FormBuffer)
        ensures
            form@ == FormView::blank(),
    {
        FormBuffer {
            name: String::new(),
            url: String::new(),
            description: String::new(),
            tags: String::new(),
        }
    }

    /// A form that shows the record with key `key` and the fields of
    /// `bookmark`, its tags written as one line.
    pub fn from_record(key: &str, bookmark: &Bookmark) -> (form: FormBuffer)
        ensures
            form@ == FormView::showing(key@, bookmark@),
    {
        FormBuffer {
            name: key.to_owned(),
            url: bookmark.url.clone(),
            description: bookmark.desc.clone(),
            tags: join_tags(bookmark.tags.as_slice()),
        }
    }

    /// Appends `c` to the field `field`; the other fields stay as they are.
    pub fn insert(&mut self, field: FieldCursor, c: char)
        ensures
            final(self)@ == old(self)@.typed(field, c),
    {
        match field {
            FieldCursor::Name => self.name.push(c),
            FieldCursor::Url => self.url.push(c),
            FieldCursor::Description => self.description.push(c),
            FieldCursor::Tags => self.tags.push(c),
        }
    }

    /// Removes the last character of the field `field`, if it has one; the
    /// other fields stay as they are.
    pub fn backspace(&mut self, field: FieldCursor)
        ensures
            final(self)@ == old(self)@.erased(field),
    {
        match field {
            FieldCursor::Name => {
                self.name.pop();
            },
            FieldCursor::Url => {
                self.url.pop();
            },
            FieldCursor::Description => {
                self.description.pop();
            },
            FieldCursor::Tags => {
                self.tags.pop();
            },
        }
    }

    /// Whether the form may be committed: the name and the url are filled
    /// in.
    pub fn is_complete(&self) -> (complete: bool)
        ensures
            complete == self@.is_complete(),
    {
        !self.name.as_str().is_empty() && !self.url.as_str().is_empty()
    }
}

} // verus!
