//! Relevance of one record for one query, by field priority.
//!
//! The query is matched against the key, the url, the description and every
//! tag of a record, case ignored. The first of these fields that matches, in
//! this order, decides: a match on the key always outranks one on the url,
//! which outranks one on the description, which outranks one on a tag.
use crate::bookmarks::{strings_view, BookmarkView, Record};
use crate::matcher::{
    fuzzy_match_score, is_subsequence, lemma_match_score, match_score, pattern_of, Query,
    MAX_PATTERN_LEN, SCORE_LIMIT,
};
use crate::text::lowercase;
use vstd::prelude::*;

verus! {

/// What a match on the key earns on top of its score.
pub const KEY_BONUS: i64 = 1000;

/// What a match on the url earns on top of its score.
pub const URL_BONUS: i64 = 500;

/// What a match on the description earns on top of its score.
pub const DESC_BONUS: i64 = 100;

/// The rank of a record that matches in no field.
pub const NO_MATCH: i64 = -1;

/// The best score of `pattern` against any of `tags`, and `-1` when none of
/// them matches or there is none.
pub open spec fn best_tag_score(pattern: Seq<char>, tags: Seq<Seq<char>>) -> int
    decreases tags.len(),
{
    if tags.len() == 0 {
        -1
    } else {
        let rest = best_tag_score(pattern, tags.drop_last());
        let last = match_score(pattern, tags.last());
        if last > rest {
            last
        } else {
            rest
        }
    }
}

/// The rank of a record whose fields are `key`, `url`, `desc` and `tags` for
/// `pattern`, all taken as they are: the score of the first field that
/// matches, in this order, with the bonus of that field, and `-1` when none
/// does.
pub open spec fn field_rank(
    pattern: Seq<char>,
    key: Seq<char>,
    url: Seq<char>,
    desc: Seq<char>,
    tags: Seq<Seq<char>>,
) -> int {
    if match_score(pattern, key) >= 0 {
        match_score(pattern, key) + KEY_BONUS
    } else if match_score(pattern, url) >= 0 {
        match_score(pattern, url) + URL_BONUS
    } else if match_score(pattern, desc) >= 0 {
        match_score(pattern, desc) + DESC_BONUS
    } else if best_tag_score(pattern, tags) >= 0 {
        best_tag_score(pattern, tags)
    } else {
        NO_MATCH as int
    }
}

/// The lower-case forms of `texts`, in order.
pub open spec fn lowercase_all(texts: Seq<Seq<char>>) -> Seq<Seq<char>> {
    Seq::new(texts.len(), |i: int| lowercase(texts[i]))
}

/// The rank of `record` for the query `query`, case ignored on both sides.
pub open spec fn rank(query: Seq<char>, record: Record) -> int {
    field_rank(
        pattern_of(query),
        lowercase(record.key),
        lowercase(record.bookmark.url),
        lowercase(record.bookmark.desc),
        lowercase_all(record.bookmark.tags),
    )
}

/// The best tag score is that of one of the tags, and no tag scores higher.
pub proof fn lemma_best_tag_score(pattern: Seq<char>, tags: Seq<Seq<char>>)
    ensures
        forall|i: int| 0 <= i < tags.len() ==> match_score(pattern, #[trigger] tags[i])
            <= best_tag_score(pattern, tags),
        best_tag_score(pattern, tags) == -1 || exists|i: int|
            0 <= i < tags.len() && match_score(pattern, #[trigger] tags[i]) == best_tag_score(
                pattern,
                tags,
            ),
        best_tag_score(pattern, tags) >= -1,
    decreases tags.len(),
{
    if tags.len() > 0 {
        let front = tags.drop_last();
        lemma_best_tag_score(pattern, front);
        assert forall|i: int| 0 <= i < tags.len() implies match_score(pattern, #[trigger] tags[i])
            <= best_tag_score(pattern, tags) by {
            if i < tags.len() - 1 {
                assert(tags[i] == front[i]);
            }
        }
        if best_tag_score(pattern, tags) != -1 {
            if match_score(pattern, tags.last()) > best_tag_score(pattern, front) {
                assert(tags[tags.len() - 1] == tags.last());
            } else {
                let i = choose|i: int|
                    0 <= i < front.len() && match_score(pattern, #[trigger] front[i])
                        == best_tag_score(pattern, front);
                assert(tags[i] == front[i]);
            }
        }
    }
}

/// Field priority: a pattern that matches the key ranks the record at its
/// key score plus a thousand, whatever the other fields hold; so at a
/// thousand or more.
pub proof fn lemma_key_match_outranks(
    pattern: Seq<char>,
    key: Seq<char>,
    url: Seq<char>,
    desc: Seq<char>,
    tags: Seq<Seq<char>>,
)
    requires
        is_subsequence(pattern, key),
    ensures
        field_rank(pattern, key, url, desc, tags) == match_score(pattern, key) + KEY_BONUS,
        field_rank(pattern, key, url, desc, tags) >= KEY_BONUS,
{
    lemma_match_score(pattern, key);
}

/// A record is excluded, with rank `-1`, exactly when the pattern matches
/// none of its fields; every other rank is zero or more.
pub proof fn lemma_rank_excludes(
    pattern: Seq<char>,
    key: Seq<char>,
    url: Seq<char>,
    desc: Seq<char>,
    tags: Seq<Seq<char>>,
)
    ensures
        field_rank(pattern, key, url, desc, tags) >= -1,
        field_rank(pattern, key, url, desc, tags) >= 0 <==> (is_subsequence(pattern, key)
            || is_subsequence(pattern, url) || is_subsequence(pattern, desc) || exists|i: int|
            0 <= i < tags.len() && is_subsequence(pattern, #[trigger] tags[i])),
{
    lemma_match_score(pattern, key);
    lemma_match_score(pattern, url);
    lemma_match_score(pattern, desc);
    lemma_best_tag_score(pattern, tags);
    assert forall|i: int| 0 <= i < tags.len() implies (match_score(pattern, #[trigger] tags[i])
        >= 0 <==> is_subsequence(pattern, tags[i])) by {
        lemma_match_score(pattern, tags[i]);
    }
}

/// Ranks a record whose fields are already folded for a folded pattern.
pub fn rank_fields(pattern: &[char], key: &str, url: &str, desc: &str, tags: &[String]) -> (score:
    i64)
    requires
        pattern@.len() <= MAX_PATTERN_LEN,
    ensures
        score == field_rank(pattern@, key@, url@, desc@, strings_view(tags@)),
        -1 <= score <= SCORE_LIMIT + KEY_BONUS,
{
    let key_score = fuzzy_match_score(pattern, key);
    let url_score = fuzzy_match_score(pattern, url);
    let desc_score = fuzzy_match_score(pattern, desc);
    let ghost all = strings_view(tags@);
    let mut tags_score: i64 = -1;
    let mut i: usize = 0;
    while i < tags.len()
        invariant
            i <= tags.len(),
            pattern@.len() <= MAX_PATTERN_LEN,
            all == strings_view(tags@),
            tags_score == best_tag_score(pattern@, all.take(i as int)),
            -1 <= tags_score <= SCORE_LIMIT,
        decreases tags.len() - i,
    {
        let tag_score = fuzzy_match_score(pattern, tags[i].as_str());
        proof {
            let upto = all.take(i + 1);
            assert(upto.drop_last() =~= all.take(i as int));
            assert(upto.last() == tags[i as int]@);
        }
        if tag_score > tags_score {
            tags_score = tag_score;
        }
        i += 1;
    }
    assert(all.take(tags.len() as int) =~= all);
    if key_score >= 0 {
        key_score + KEY_BONUS
    } else if url_score >= 0 {
        url_score + URL_BONUS
    } else if desc_score >= 0 {
        desc_score + DESC_BONUS
    } else if tags_score >= 0 {
        tags_score
    } else {
        NO_MATCH
    }
}

/// Ranks the record with the given fields for `query`, ignoring case.
///
/// The result is the score of the first field that matches, in the order
/// key, url, description, tags, plus 1000, 500, 100 or nothing; for the tags
/// it is the best score of any of them. It is `-1` when no field matches.
pub fn fuzzy_score(query: &Query, key: &str, url: &str, desc: &str, tags: &[String]) -> (score:
    i64)
    requires
        query.wf(),
    ensures
        score == rank(
            query@,
            Record {
                key: key@,
                bookmark: BookmarkView { url: url@, desc: desc@, tags: strings_view(tags@) },
            },
        ),
        is_subsequence(pattern_of(query@), lowercase(key@)) ==> score >= KEY_BONUS,
        -1 <= score <= SCORE_LIMIT + KEY_BONUS,
{
    let key_folded = key.to_lowercase();
    let url_folded = url.to_lowercase();
    let desc_folded = desc.to_lowercase();
    let mut tags_folded: Vec<String> = Vec::new();
    let mut i: usize = 0;
    while i < tags.len()
        invariant
            i <= tags.len(),
            tags_folded@.len() == i,
            forall|k: int| 0 <= k < i ==> (#[trigger] tags_folded@[k])@ == lowercase(tags@[k]@),
        decreases tags.len() - i,
    {
        tags_folded.push(tags[i].as_str().to_lowercase());
        i += 1;
    }
    proof {
        assert(strings_view(tags_folded@) =~= lowercase_all(strings_view(tags@)));
        if is_subsequence(pattern_of(query@), lowercase(key@)) {
            lemma_key_match_outranks(
                pattern_of(query@),
                key_folded@,
                url_folded@,
                desc_folded@,
                strings_view(tags_folded@),
            );
        }
    }
    rank_fields(
        query.chars().as_slice(),
        key_folded.as_str(),
        url_folded.as_str(),
        desc_folded.as_str(),
        tags_folded.as_slice(),
    )
}

} // verus!
