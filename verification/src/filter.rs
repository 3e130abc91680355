//! The filter engine: which records are visible, and in what order.
//!
//! A record is visible when it passes the tag gate and the query does not
//! exclude it. Visible records are ordered by relevance, best first; records
//! of equal relevance are ordered by key, ascending, in the order in which
//! strings sort. Keys are unique, so this order leaves nothing open: a
//! collection, a query and a tag constraint have exactly one visible set.
use crate::bookmarks::{distinct_keys, Bookmarks, Record};
use crate::matcher::{scorable, Query};
use crate::ranker::{fuzzy_score, rank};
use crate::text::{
    ascii_case_eq, chars_eq_ignore_ascii_case, chars_less, chars_of, lemma_lex_less_asymmetric,
    lemma_lex_less_total, lemma_lex_less_transitive, lex_less,
};
use vstd::prelude::*;

verus! {

/// The tag constraint as plain values.
pub open spec fn tag_view(tag: Option<&str>) -> Option<Seq<char>> {
    match tag {
        Some(text) => Some(text@),
        None => None,
    }
}

/// `record` carries `tag`, the case of ASCII letters ignored.
pub open spec fn carries_tag(record: Record, tag: Seq<char>) -> bool {
    exists|j: int|
        0 <= j < record.bookmark.tags.len() && ascii_case_eq(
            #[trigger] record.bookmark.tags[j],
            tag,
        )
}

/// The tag gate: with a constraint, only records that carry the tag pass.
pub open spec fn passes_gate(record: Record, tag: Option<Seq<char>>) -> bool {
    match tag {
        Some(wanted) => carries_tag(record, wanted),
        None => true,
    }
}

/// How relevant `record` is for `query`: 0 for every record when the query
/// is empty, and the rank of the record otherwise.
pub open spec fn relevance(query: Seq<char>, record: Record) -> int {
    if query.len() == 0 {
        0
    } else {
        rank(query, record)
    }
}

/// `record` is visible: it passes the tag gate and is not excluded by the
/// query.
pub open spec fn admitted(record: Record, query: Seq<char>, tag: Option<Seq<char>>) -> bool {
    passes_gate(record, tag) && relevance(query, record) >= 0
}

/// `a` is listed before `b`: it is more relevant, or as relevant and of
/// lesser key.
pub open spec fn precedes(query: Seq<char>, a: Record, b: Record) -> bool {
    relevance(query, a) > relevance(query, b) || (relevance(query, a) == relevance(query, b)
        && lex_less(a.key, b.key))
}

/// `visible` lists, in order, exactly the visible records among the first
/// `upto` records of `records`.
pub open spec fn visible_upto(
    records: Seq<Record>,
    query: Seq<char>,
    tag: Option<Seq<char>>,
    visible: Seq<usize>,
    upto: int,
) -> bool {
    &&& forall|k: int|
        0 <= k < visible.len() ==> (#[trigger] visible[k]) < upto && visible[k] < records.len()
            && admitted(records[visible[k] as int], query, tag)
    &&& forall|i: int|
        0 <= i < upto && i < records.len() && admitted(#[trigger] records[i], query, tag)
            ==> exists|k: int| 0 <= k < visible.len() && #[trigger] visible[k] == i
    &&& forall|a: int, b: int|
        0 <= a < b < visible.len() ==> precedes(
            query,
            records[(#[trigger] visible[a]) as int],
            records[(#[trigger] visible[b]) as int],
        )
}

/// `visible` is the visible set of `records` for `query` and `tag`: indices
/// of exactly the visible records, best first.
pub open spec fn is_visible_set(
    records: Seq<Record>,
    query: Seq<char>,
    tag: Option<Seq<char>>,
    visible: Seq<usize>,
) -> bool {
    visible_upto(records, query, tag, visible, records.len() as int)
}

/// The visible set of `records` for `query` and `tag`.
pub open spec fn visible_set(records: Seq<Record>, query: Seq<char>, tag: Option<Seq<char>>) -> Seq<
    usize,
> {
    choose|visible: Seq<usize>| is_visible_set(records, query, tag, visible)
}

/// No record is listed before itself, and no two before each other.
pub proof fn lemma_precedes_asymmetric(query: Seq<char>, a: Record, b: Record)
    ensures
        !(precedes(query, a, b) && precedes(query, b, a)),
{
    lemma_lex_less_asymmetric(a.key, b.key);
}

/// Listing order is transitive.
pub proof fn lemma_precedes_transitive(query: Seq<char>, a: Record, b: Record, c: Record)
    requires
        precedes(query, a, b),
        precedes(query, b, c),
    ensures
        precedes(query, a, c),
{
    if lex_less(a.key, b.key) && lex_less(b.key, c.key) {
        lemma_lex_less_transitive(a.key, b.key, c.key);
    }
}

/// Two records of different keys are listed one before the other.
pub proof fn lemma_precedes_total(query: Seq<char>, a: Record, b: Record)
    requires
        a.key != b.key,
    ensures
        precedes(query, a, b) || precedes(query, b, a),
{
    lemma_lex_less_total(a.key, b.key);
}

/// A visible set names no record twice.
pub proof fn lemma_visible_set_no_duplicates(
    records: Seq<Record>,
    query: Seq<char>,
    tag: Option<Seq<char>>,
    visible: Seq<usize>,
)
    requires
        is_visible_set(records, query, tag, visible),
    ensures
        forall|a: int, b: int|
            0 <= a < visible.len() && 0 <= b < visible.len() && a != b ==> #[trigger] visible[a]
                != #[trigger] visible[b],
{
    assert forall|a: int, b: int|
        0 <= a < visible.len() && 0 <= b < visible.len() && a != b implies #[trigger] visible[a]
        != #[trigger] visible[b] by {
        let first = records[visible[a] as int];
        let second = records[visible[b] as int];
        lemma_precedes_asymmetric(query, first, second);
        if a < b {
            assert(precedes(query, first, second));
        } else {
            assert(precedes(query, second, first));
        }
    }
}

/// Two visible sets of the same collection, query and tag agree up to any
/// place: the induction behind [`lemma_visible_set_unique`].
proof fn lemma_visible_sets_agree(
    records: Seq<Record>,
    query: Seq<char>,
    tag: Option<Seq<char>>,
    one: Seq<usize>,
    other: Seq<usize>,
    upto: int,
)
    requires
        is_visible_set(records, query, tag, one),
        is_visible_set(records, query, tag, other),
        0 <= upto <= one.len(),
    ensures
        upto <= other.len(),
        forall|k: int| 0 <= k < upto ==> (#[trigger] one[k]) == other[k],
    decreases upto,
{
    if upto > 0 {
        lemma_visible_sets_agree(records, query, tag, one, other, upto - 1);
        lemma_visible_set_no_duplicates(records, query, tag, one);
        lemma_visible_set_no_duplicates(records, query, tag, other);
        let k = upto - 1;
        // where `one[k]` stands in `other`
        let i = one[k] as int;
        assert(admitted(records[i], query, tag));
        let m = choose|m: int| 0 <= m < other.len() && #[trigger] other[m] == i;
        if m < k {
            assert(one[m] == other[m]);
            assert(false);
        }
        if m > k {
            // then what stands at `k` in `other` stands later in `one`
            let j = other[k] as int;
            assert(admitted(records[j], query, tag));
            let n = choose|n: int| 0 <= n < one.len() && #[trigger] one[n] == j;
            if n < k {
                assert(one[n] == other[n]);
                assert(false);
            }
            assert(n != k);
            assert(precedes(query, records[other[k] as int], records[other[m] as int]));
            assert(precedes(query, records[one[k] as int], records[one[n] as int]));
            lemma_precedes_asymmetric(query, records[i], records[j]);
            assert(false);
        }
    }
}

/// Two visible sets of the same collection, query and tag are equal.
proof fn lemma_visible_sets_equal(
    records: Seq<Record>,
    query: Seq<char>,
    tag: Option<Seq<char>>,
    one: Seq<usize>,
    other: Seq<usize>,
)
    requires
        is_visible_set(records, query, tag, one),
        is_visible_set(records, query, tag, other),
    ensures
        one == other,
{
    lemma_visible_sets_agree(records, query, tag, one, other, one.len() as int);
    lemma_visible_sets_agree(records, query, tag, other, one, other.len() as int);
    assert(one =~= other);
}

/// The filter engine is a function of its arguments: whatever lists exactly
/// the visible records in listing order is the same list, in order and in
/// membership.
pub proof fn lemma_visible_set_unique(
    records: Seq<Record>,
    query: Seq<char>,
    tag: Option<Seq<char>>,
    one: Seq<usize>,
    other: Seq<usize>,
)
    requires
        is_visible_set(records, query, tag, one),
        is_visible_set(records, query, tag, other),
    ensures
        one == other,
        one == visible_set(records, query, tag),
{
    lemma_visible_sets_equal(records, query, tag, one, other);
    lemma_visible_sets_equal(records, query, tag, one, visible_set(records, query, tag));
}

/// The tag gate: under a constraint every listed record carries the tag, and
/// no record that lacks it is listed.
pub proof fn lemma_tag_gate(
    records: Seq<Record>,
    query: Seq<char>,
    tag: Seq<char>,
    visible: Seq<usize>,
)
    requires
        is_visible_set(records, query, Some(tag), visible),
    ensures
        forall|k: int|
            0 <= k < visible.len() ==> carries_tag(records[(#[trigger] visible[k]) as int], tag),
        forall|i: usize|
            i < records.len() && !carries_tag(records[i as int], tag) ==> !(
            #[trigger] visible.contains(i)),
{
    assert forall|i: usize|
        i < records.len() && !carries_tag(records[i as int], tag) implies !(
    #[trigger] visible.contains(i)) by {
        if visible.contains(i) {
            let k = choose|k: int| 0 <= k < visible.len() && visible[k] == i;
            assert(admitted(records[visible[k] as int], query, Some(tag)));
        }
    }
}

/// Without a query and without a constraint every record is visible.
pub proof fn lemma_unfiltered_lists_all(records: Seq<Record>, visible: Seq<usize>)
    requires
        records.len() <= usize::MAX,
        is_visible_set(records, Seq::<char>::empty(), None, visible),
    ensures
        visible.len() == records.len(),
        forall|i: usize| i < records.len() ==> visible.contains(i),
{
    let query = Seq::<char>::empty();
    lemma_visible_set_no_duplicates(records, query, None, visible);
    assert forall|i: usize| i < records.len() implies visible.contains(i) by {
        assert(admitted(records[i as int], query, None));
        let k = choose|k: int| 0 <= k < visible.len() && #[trigger] visible[k] == i;
        assert(visible[k] == i);
    }
    let all = Set::<usize>::new(|i: usize| i < records.len());
    assert(visible.to_set() =~= all) by {
        assert forall|i: usize| visible.to_set().contains(i) <==> all.contains(i) by {
            if visible.to_set().contains(i) {
                let k = choose|k: int| 0 <= k < visible.len() && visible[k] == i;
                assert(visible[k] < records.len());
            }
            if all.contains(i) {
                assert(visible.contains(i));
            }
        }
    }
    assert(visible.no_duplicates());
    visible.unique_seq_to_set();
    lemma_below_len(records.len());
}

/// There are `n` machine integers below `n`.
proof fn lemma_below_len(n: nat)
    requires
        n <= usize::MAX,
    ensures
        Set::<usize>::new(|i: usize| i < n).finite(),
        Set::<usize>::new(|i: usize| i < n).len() == n,
    decreases n,
{
    let below = Set::<usize>::new(|i: usize| i < n);
    if n == 0 {
        assert(below =~= Set::<usize>::empty());
    } else {
        let fewer = Set::<usize>::new(|i: usize| i < n - 1);
        lemma_below_len((n - 1) as nat);
        assert(below =~= fewer.insert((n - 1) as usize));
    }
}

/// Where the record `record` goes in the listing `listed`: the first place
/// at or after `from` whose record is not listed before it, or the end.
pub open spec fn slot(
    records: Seq<Record>,
    query: Seq<char>,
    listed: Seq<usize>,
    record: Record,
    from: int,
) -> int
    decreases listed.len() - from,
{
    if from < 0 || from >= listed.len() {
        listed.len() as int
    } else if precedes(query, records[listed[from] as int], record) {
        slot(records, query, listed, record, from + 1)
    } else {
        from
    }
}

/// The listing of the visible records among the first `upto` records,
/// built by putting one record after the other into its slot.
pub open spec fn listing(
    records: Seq<Record>,
    query: Seq<char>,
    tag: Option<Seq<char>>,
    upto: int,
) -> Seq<usize>
    decreases upto,
{
    if upto <= 0 {
        Seq::<usize>::empty()
    } else {
        let earlier = listing(records, query, tag, upto - 1);
        let record = records[upto - 1];
        if admitted(record, query, tag) {
            earlier.insert(slot(records, query, earlier, record, 0), (upto - 1) as usize)
        } else {
            earlier
        }
    }
}

/// Where `slot` lands: the records before it precede `record`, the record at
/// it does not.
proof fn lemma_slot(
    records: Seq<Record>,
    query: Seq<char>,
    listed: Seq<usize>,
    record: Record,
    from: int,
)
    requires
        0 <= from <= listed.len(),
    ensures
        from <= slot(records, query, listed, record, from) <= listed.len(),
        forall|k: int|
            from <= k < slot(records, query, listed, record, from) ==> precedes(
                query,
                records[(#[trigger] listed[k]) as int],
                record,
            ),
        slot(records, query, listed, record, from) < listed.len() ==> !precedes(
            query,
            records[listed[slot(records, query, listed, record, from)] as int],
            record,
        ),
    decreases listed.len() - from,
{
    if from < listed.len() && precedes(query, records[listed[from] as int], record) {
        lemma_slot(records, query, listed, record, from + 1);
    }
}

/// A listing of the visible records before place `index` stays one when
/// the visible record at `index` is put where the records before it precede
/// it and the record after it does not.
proof fn lemma_insert_keeps_listing(
    records: Seq<Record>,
    query: Seq<char>,
    tag: Option<Seq<char>>,
    earlier: Seq<usize>,
    index: usize,
    place: int,
)
    requires
        distinct_keys(records),
        index < records.len(),
        admitted(records[index as int], query, tag),
        visible_upto(records, query, tag, earlier, index as int),
        0 <= place <= earlier.len(),
        forall|k: int|
            0 <= k < place ==> precedes(
                query,
                records[(#[trigger] earlier[k]) as int],
                records[index as int],
            ),
        place < earlier.len() ==> !precedes(
            query,
            records[earlier[place] as int],
            records[index as int],
        ),
    ensures
        visible_upto(records, query, tag, earlier.insert(place, index), index + 1),
{
    let own = records[index as int];
    let later = earlier.insert(place, index);
    assert forall|k: int| 0 <= k < later.len() implies (#[trigger] later[k]) < index + 1
        && later[k] < records.len() && admitted(records[later[k] as int], query, tag) by {
        if k < place {
            assert(later[k] == earlier[k]);
        } else if k > place {
            assert(later[k] == earlier[k - 1]);
        }
    }
    assert forall|i: int|
        0 <= i < index + 1 && i < records.len() && admitted(
            #[trigger] records[i],
            query,
            tag,
        ) implies exists|k: int| 0 <= k < later.len() && #[trigger] later[k] == i by {
        if i == index {
            assert(later[place] == i);
        } else {
            let k = choose|k: int| 0 <= k < earlier.len() && #[trigger] earlier[k] == i;
            if k < place {
                assert(later[k] == i);
            } else {
                assert(later[k + 1] == i);
            }
        }
    }
    assert forall|a: int, b: int| 0 <= a < b < later.len() implies precedes(
        query,
        records[(#[trigger] later[a]) as int],
        records[(#[trigger] later[b]) as int],
    ) by {
        if b == place {
            assert(later[a] == earlier[a]);
        } else if a == place {
            let next = records[earlier[place] as int];
            assert(earlier[place] < index);
            assert(records[earlier[place] as int].key != records[index as int].key);
            lemma_precedes_total(query, next, own);
            if b - 1 > place {
                assert(later[b] == earlier[b - 1]);
                assert(precedes(query, next, records[earlier[b - 1] as int]));
                lemma_precedes_transitive(query, own, next, records[earlier[b - 1] as int]);
            }
        } else {
            let x = if a < place {
                a
            } else {
                a - 1
            };
            let y = if b < place {
                b
            } else {
                b - 1
            };
            assert(later[a] == earlier[x] && later[b] == earlier[y]);
        }
    }
}

/// The listing of the first `upto` records lists exactly the visible ones
/// among them, in listing order.
pub proof fn lemma_listing(
    records: Seq<Record>,
    query: Seq<char>,
    tag: Option<Seq<char>>,
    upto: int,
)
    requires
        distinct_keys(records),
        0 <= upto <= records.len() <= usize::MAX,
    ensures
        visible_upto(records, query, tag, listing(records, query, tag, upto), upto),
    decreases upto,
{
    if upto > 0 {
        lemma_listing(records, query, tag, upto - 1);
        let earlier = listing(records, query, tag, upto - 1);
        let record = records[upto - 1];
        if admitted(record, query, tag) {
            lemma_slot(records, query, earlier, record, 0);
            lemma_insert_keeps_listing(
                records,
                query,
                tag,
                earlier,
                (upto - 1) as usize,
                slot(records, query, earlier, record, 0),
            );
        } else {
            assert forall|i: int|
                0 <= i < upto && i < records.len() && admitted(
                    #[trigger] records[i],
                    query,
                    tag,
                ) implies exists|k: int| 0 <= k < earlier.len() && #[trigger] earlier[k] == i by {
                assert(i < upto - 1);
            }
        }
    }
}

/// Every collection has a visible set for every query and tag constraint,
/// and [`visible_set`] is it.
pub proof fn lemma_visible_set_exists(
    records: Seq<Record>,
    query: Seq<char>,
    tag: Option<Seq<char>>,
)
    requires
        distinct_keys(records),
        records.len() <= usize::MAX,
    ensures
        is_visible_set(records, query, tag, visible_set(records, query, tag)),
{
    lemma_listing(records, query, tag, records.len() as int);
    assert(is_visible_set(records, query, tag, listing(records, query, tag, records.len() as int)));
}

/// Whether one of `tags` equals `wanted`, the case of ASCII letters ignored.
fn any_tag_matches(tags: &Vec<String>, wanted: &[char]) -> (found: bool)
    ensures
        found == exists|j: int|
            0 <= j < tags@.len() && ascii_case_eq((#[trigger] tags@[j])@, wanted@),
{
    let mut j: usize = 0;
    while j < tags.len()
        invariant
            j <= tags.len(),
            forall|k: int| 0 <= k < j ==> !ascii_case_eq((#[trigger] tags@[k])@, wanted@),
        decreases tags.len() - j,
    {
        let own = chars_of(tags[j].as_str());
        if chars_eq_ignore_ascii_case(own.as_slice(), wanted) {
            return true;
        }
        j += 1;
    }
    false
}

/// A visible record on its way into the list: its place, how relevant it is,
/// and the characters of its key.
struct Candidate {
    index: usize,
    score: i64,
    key: Vec<char>,
}

impl Candidate {
    /// The candidate stands for a record of `records` and carries its relevance
    /// for `query` and its key.
    spec fn fits(&self, records: Seq<Record>, query: Seq<char>) -> bool {
        &&& self.index < records.len()
        &&& self.score == relevance(query, records[self.index as int])
        &&& self.key@ == records[self.index as int].key
    }

    /// Whether this candidate is listed before `other`.
    fn precedes(&self, other: &Candidate) -> (before: bool)
        ensures
            forall|records: Seq<Record>, query: Seq<char>|
                self.fits(records, query) && #[trigger] other.fits(records, query) ==> before
                    == precedes(
                    query,
                    records[self.index as int],
                    records[other.index as int],
                ),
    {
        self.score > other.score || (self.score == other.score && chars_less(
            self.key.as_slice(),
            other.key.as_slice(),
        ))
    }
}

/// The places that the candidates stand for, in order.
spec fn indices(candidates: Seq<Candidate>) -> Seq<usize> {
    Seq::new(candidates.len(), |k: int| candidates[k].index)
}

/// Puts `candidate`, which stands for the record at place `upto`, into the
/// list of the visible records before that place.
fn insert_candidate(
    listed: &mut Vec<Candidate>,
    candidate: Candidate,
    Ghost(records): Ghost<Seq<Record>>,
    Ghost(query): Ghost<Seq<char>>,
    Ghost(tag): Ghost<Option<Seq<char>>>,
)
    requires
        distinct_keys(records),
        candidate.fits(records, query),
        admitted(records[candidate.index as int], query, tag),
        forall|k: int| 0 <= k < old(listed)@.len() ==> (#[trigger] old(listed)@[k]).fits(
            records,
            query,
        ),
        visible_upto(records, query, tag, indices(old(listed)@), candidate.index as int),
    ensures
        forall|k: int| 0 <= k < final(listed)@.len() ==> (#[trigger] final(listed)@[k]).fits(
            records,
            query,
        ),
        visible_upto(records, query, tag, indices(final(listed)@), candidate.index + 1),
        final(listed)@.len() == old(listed)@.len() + 1,
{
    let ghost before = listed@;
    let ghost earlier = indices(before);
    let ghost own = records[candidate.index as int];
    let mut at: usize = 0;
    let mut searching = true;
    while searching && at < listed.len()
        invariant
            at <= listed.len(),
            listed@ == before,
            earlier == indices(before),
            own == records[candidate.index as int],
            candidate.fits(records, query),
            forall|k: int| 0 <= k < before.len() ==> (#[trigger] before[k]).fits(records, query),
            forall|k: int|
                0 <= k < at ==> precedes(query, records[(#[trigger] earlier[k]) as int], own),
            !searching ==> at < listed.len() && !precedes(
                query,
                records[earlier[at as int] as int],
                own,
            ),
        decreases listed.len() - at + (if searching { 1int } else { 0int }),
    {
        assert(before[at as int].fits(records, query));
        if listed[at].precedes(&candidate) {
            at += 1;
        } else {
            searching = false;
        }
    }
    let ghost place = at as int;
    let ghost index = candidate.index;
    listed.insert(at, candidate);
    proof {
        let after = listed@;
        assert(indices(after) =~= earlier.insert(place, index));
        assert forall|k: int| 0 <= k < after.len() implies (#[trigger] after[k]).fits(
            records,
            query,
        ) by {
            if k < place {
                assert(after[k] == before[k]);
            } else if k > place {
                assert(after[k] == before[k - 1]);
            }
        }
        lemma_insert_keeps_listing(records, query, tag, earlier, index, place);
    }
}

/// The visible set of `bookmarks` for `query` under the tag constraint
/// `tag`: the indices of the records that pass the tag gate and that the
/// query does not exclude, most relevant first and, among equally relevant
/// ones, in ascending order of their keys.
///
/// With the empty query every record that passes the tag gate is listed, in
/// ascending order of keys.
pub fn filter(bookmarks: &Bookmarks, query: &Query, tag: Option<&str>) -> (visible: Vec<usize>)
    requires
        bookmarks.wf(),
        query.wf(),
    ensures
        is_visible_set(bookmarks@, query@, tag_view(tag), visible@),
        visible@ == visible_set(bookmarks@, query@, tag_view(tag)),
        visible@.len() <= bookmarks@.len(),
        tag matches Some(wanted) ==> forall|k: int|
            0 <= k < visible@.len() ==> carries_tag(
                bookmarks@[(#[trigger] visible@[k]) as int],
                wanted@,
            ),
{
    let ghost records = bookmarks@;
    let ghost gate = tag_view(tag);
    let wanted: Option<Vec<char>> = match tag {
        Some(text) => Some(chars_of(text)),
        None => None,
    };
    let mut listed: Vec<Candidate> = Vec::new();
    let mut index: usize = 0;
    while index < bookmarks.len()
        invariant
            index <= bookmarks@.len(),
            records == bookmarks@,
            gate == tag_view(tag),
            bookmarks.wf(),
            query.wf(),
            match wanted {
                Some(chars) => tag is Some && chars@ == tag->0@,
                None => tag is None,
            },
            listed@.len() <= index,
            forall|k: int| 0 <= k < listed@.len() ==> (#[trigger] listed@[k]).fits(
                records,
                query@,
            ),
            visible_upto(records, query@, gate, indices(listed@), index as int),
        decreases bookmarks@.len() - index,
    {
        let key = bookmarks.key_at(index);
        let bookmark = bookmarks.bookmark_at(index);
        let passes = match &wanted {
            Some(chars) => any_tag_matches(&bookmark.tags, chars.as_slice()),
            None => true,
        };
        proof {
            let record = records[index as int];
            if tag is Some {
                let own = bookmark.tags@;
                assert forall|j: int| 0 <= j < own.len() implies record.bookmark.tags[j]
                    == (#[trigger] own[j])@ by {}
                if passes {
                    let j = choose|j: int|
                        0 <= j < own.len() && ascii_case_eq((#[trigger] own[j])@, tag->0@);
                    assert(ascii_case_eq(record.bookmark.tags[j], tag->0@));
                }
                if carries_tag(record, tag->0@) {
                    let j = choose|j: int|
                        0 <= j < record.bookmark.tags.len() && ascii_case_eq(
                            #[trigger] record.bookmark.tags[j],
                            tag->0@,
                        );
                    assert(ascii_case_eq(own[j]@, tag->0@));
                }
            }
            assert(passes == passes_gate(record, gate));
        }
        let mut keep = false;
        let mut score: i64 = 0;
        if passes {
            if !query.is_empty() {
                score = fuzzy_score(
                    query,
                    key.as_str(),
                    bookmark.url.as_str(),
                    bookmark.desc.as_str(),
                    bookmark.tags.as_slice(),
                );
                assert(records[index as int] == Record { key: key@, bookmark: bookmark@ });
            }
            keep = score >= 0;
        }
        assert(keep == admitted(records[index as int], query@, gate));
        if keep {
            let candidate = Candidate { index, score, key: chars_of(key.as_str()) };
            insert_candidate(&mut listed, candidate, Ghost(records), Ghost(query@), Ghost(gate));
        } else {
            let ghost now = indices(listed@);
            assert(visible_upto(records, query@, gate, now, index + 1)) by {
                assert forall|i: int|
                    0 <= i < index + 1 && i < records.len() && admitted(
                        #[trigger] records[i],
                        query@,
                        gate,
                    ) implies exists|k: int| 0 <= k < now.len() && #[trigger] now[k] == i by {
                    assert(i < index);
                }
            }
        }
        index += 1;
    }
    let mut visible: Vec<usize> = Vec::new();
    let mut k: usize = 0;
    while k < listed.len()
        invariant
            k <= listed.len(),
            visible@ == indices(listed@).take(k as int),
        decreases listed.len() - k,
    {
        visible.push(listed[k].index);
        assert(visible@ =~= indices(listed@).take(k + 1));
        k += 1;
    }
    proof {
        assert(visible@ =~= indices(listed@));
        lemma_visible_set_unique(records, query@, gate, visible@, visible@);
        if tag is Some {
            lemma_tag_gate(records, query@, tag->0@, visible@);
        }
    }
    visible
}

/// The url of the record that matches `query` best: the first of the
/// visible set for `query` without a tag constraint. There is none when
/// nothing matches, or when the query is too long to be scored.
pub fn find_best_match(bookmarks: &Bookmarks, query: &str) -> (url: Option<String>)
    requires
        bookmarks.wf(),
    ensures
        url is Some <==> scorable(query@) && visible_set(bookmarks@, query@, None).len() > 0,
        url matches Some(found) ==> found@ == bookmarks@[visible_set(
            bookmarks@,
            query@,
            None,
        )[0] as int].bookmark.url,
{
    match Query::new(query) {
        Some(folded) => {
            let visible = filter(bookmarks, &folded, None);
            if visible.len() > 0 {
                Some(bookmarks.bookmark_at(visible[0]).url.clone())
            } else {
                None
            }
        },
        None => None,
    }
}

} // verus!
