//! Fuzzy matching: ordered-subsequence matching with a quality score.
//!
//! A pattern matches a text when its characters occur in the text in the same
//! order. The match that is scored is the leftmost one: every pattern
//! character is placed at its earliest occurrence after the character before
//! it ([`placement`]). The score is the sum of what each placed character
//! earns ([`char_score`]).
use crate::text::{chars_of, folded_chars, lowercase};
use vstd::prelude::*;

verus! {

/// The longest folded pattern that is scored. Scores grow with the square of
/// the number of matched characters; up to this length they fit in an `i64`.
pub const MAX_PATTERN_LEN: usize = 0x2000_0000;

/// No score of a pattern of at most [`MAX_PATTERN_LEN`] characters is larger
/// than this: the length times the most that one character can earn.
pub const SCORE_LIMIT: i64 = 2_882_303_782_991_953_920;

/// What every matched character earns.
pub const BASE_WEIGHT: i64 = 10;

/// What a matched character earns more than the one before it when the two
/// are neighbours in the text.
pub const RUN_STEP: i64 = 10;

/// What a matched character earns at the start of the text or right after a
/// separator.
pub const BOUNDARY_BONUS: i64 = 20;

/// What a matched character at the very start of the text earns for its
/// position; one less for each place further right, down to nothing.
pub const POSITION_SPAN: i64 = 10;

/// The characters after which a word starts: `/`, `.`, `-`, `_` and the space.
pub open spec fn is_separator(c: char) -> bool {
    c == '/' || c == '.' || c == '-' || c == '_' || c == ' '
}

/// The first place at or after `from` where `c` stands in `text`, or
/// `text.len()` when there is none.
pub open spec fn next_occurrence(text: Seq<char>, c: char, from: int) -> int
    decreases text.len() - from,
{
    if from < 0 || from >= text.len() {
        text.len() as int
    } else if text[from] == c {
        from
    } else {
        next_occurrence(text, c, from + 1)
    }
}

/// The place in `text` of the pattern character `j` under leftmost matching:
/// its first occurrence after the place of the character before it. It is
/// `text.len()` when the character, or one before it, cannot be placed.
pub open spec fn placement(pattern: Seq<char>, text: Seq<char>, j: int) -> int
    decreases j + 1,
{
    if j < 0 || j >= pattern.len() {
        -1
    } else {
        next_occurrence(text, pattern[j], placement(pattern, text, j - 1) + 1)
    }
}

/// Whether every character of `pattern` can be placed in `text`.
pub open spec fn matches(pattern: Seq<char>, text: Seq<char>) -> bool {
    placement(pattern, text, pattern.len() - 1) < text.len()
}

/// The bonus of the pattern character `j` for continuing a run: ten more than
/// that of the character before it when the two are placed side by side,
/// nothing after a gap and nothing for the first character.
pub open spec fn run_bonus(pattern: Seq<char>, text: Seq<char>, j: int) -> int
    decreases j,
{
    if j <= 0 {
        0
    } else if placement(pattern, text, j) == placement(pattern, text, j - 1) + 1 {
        run_bonus(pattern, text, j - 1) + RUN_STEP
    } else {
        0
    }
}

/// The bonus of a character placed at `at` for starting a word.
pub open spec fn boundary_bonus(text: Seq<char>, at: int) -> int {
    if at == 0 || (0 < at <= text.len() && is_separator(text[at - 1])) {
        BOUNDARY_BONUS as int
    } else {
        0
    }
}

/// The bonus of a character placed at `at` for standing early in the text.
pub open spec fn position_bonus(at: int) -> int {
    if at < POSITION_SPAN {
        POSITION_SPAN - at
    } else {
        0
    }
}

/// What the pattern character `j` earns at its place.
pub open spec fn char_score(pattern: Seq<char>, text: Seq<char>, j: int) -> int {
    let at = placement(pattern, text, j);
    BASE_WEIGHT + run_bonus(pattern, text, j) + boundary_bonus(text, at) + position_bonus(at)
}

/// What the first `n` pattern characters earn together.
pub open spec fn prefix_score(pattern: Seq<char>, text: Seq<char>, n: int) -> int
    decreases n,
{
    if n <= 0 {
        0
    } else {
        prefix_score(pattern, text, n - 1) + char_score(pattern, text, n - 1)
    }
}

/// The score of `pattern` against `text`: what its characters earn when all
/// of them can be placed, and `-1` when they cannot. Neither side is folded
/// here.
pub open spec fn match_score(pattern: Seq<char>, text: Seq<char>) -> int {
    if matches(pattern, text) {
        prefix_score(pattern, text, pattern.len() as int)
    } else {
        -1
    }
}

/// `places` puts every character of `pattern` on an equal character of
/// `text`, later characters further right.
pub open spec fn is_embedding(pattern: Seq<char>, text: Seq<char>, places: Seq<int>) -> bool {
    &&& places.len() == pattern.len()
    &&& forall|j: int|
        0 <= j < pattern.len() ==> 0 <= #[trigger] places[j] < text.len() && text[places[j]]
            == pattern[j]
    &&& forall|i: int, j: int|
        0 <= i < j < pattern.len() ==> #[trigger] places[i] < #[trigger] places[j]
}

/// `pattern` is an ordered subsequence of `text`: its characters occur in
/// `text`, in the same relative order.
pub open spec fn is_subsequence(pattern: Seq<char>, text: Seq<char>) -> bool {
    exists|places: Seq<int>| is_embedding(pattern, text, places)
}

/// Where `next_occurrence` lands: not before `from`, on an occurrence unless
/// it runs off the end, and past no occurrence.
pub proof fn lemma_next_occurrence(text: Seq<char>, c: char, from: int)
    requires
        0 <= from,
    ensures
        from <= next_occurrence(text, c, from) || next_occurrence(text, c, from) == text.len(),
        next_occurrence(text, c, from) <= text.len(),
        next_occurrence(text, c, from) < text.len() ==> text[next_occurrence(text, c, from)] == c,
        forall|k: int| from <= k < next_occurrence(text, c, from) ==> text[k] != c,
    decreases text.len() - from,
{
    if from < text.len() && text[from] != c {
        lemma_next_occurrence(text, c, from + 1);
    }
}

/// Placements are places of `text` or its length, each on its own pattern
/// character, and each to the right of the one before.
pub proof fn lemma_placement(pattern: Seq<char>, text: Seq<char>, j: int)
    requires
        0 <= j < pattern.len(),
    ensures
        0 <= placement(pattern, text, j) <= text.len(),
        placement(pattern, text, j) < text.len() ==> {
            &&& text[placement(pattern, text, j)] == pattern[j]
            &&& placement(pattern, text, j - 1) < placement(pattern, text, j)
            &&& placement(pattern, text, j - 1) < text.len()
        },
    decreases j,
{
    if j > 0 {
        lemma_placement(pattern, text, j - 1);
    }
    lemma_next_occurrence(text, pattern[j], placement(pattern, text, j - 1) + 1);
}

/// Once a pattern character cannot be placed, none after it can.
pub proof fn lemma_placement_fails_on(pattern: Seq<char>, text: Seq<char>, j: int, k: int)
    requires
        0 <= j <= k < pattern.len(),
        placement(pattern, text, j) >= text.len(),
    ensures
        placement(pattern, text, k) == text.len(),
    decreases k - j,
{
    lemma_placement(pattern, text, j);
    if j < k {
        lemma_placement_fails_on(pattern, text, j, k - 1);
    }
}

/// When the last pattern character can be placed, so can all, in ascending
/// places.
pub proof fn lemma_placements_ascend(pattern: Seq<char>, text: Seq<char>, i: int, j: int)
    requires
        matches(pattern, text),
        0 <= i <= j < pattern.len(),
    ensures
        placement(pattern, text, j) < text.len(),
        i < j ==> placement(pattern, text, i) < placement(pattern, text, j),
        i == j ==> placement(pattern, text, i) == placement(pattern, text, j),
    decreases j - i,
{
    if placement(pattern, text, j) >= text.len() {
        lemma_placement_fails_on(pattern, text, j, pattern.len() - 1);
    }
    if i < j {
        lemma_placement(pattern, text, j);
        lemma_placements_ascend(pattern, text, i, j - 1);
    }
}

/// Leftmost matching is leftmost: no embedding puts a character to the left
/// of its placement.
pub proof fn lemma_placement_is_leftmost(
    pattern: Seq<char>,
    text: Seq<char>,
    places: Seq<int>,
    j: int,
)
    requires
        is_embedding(pattern, text, places),
        0 <= j < pattern.len(),
    ensures
        placement(pattern, text, j) <= places[j],
    decreases j,
{
    if j > 0 {
        lemma_placement_is_leftmost(pattern, text, places, j - 1);
        lemma_placement(pattern, text, j - 1);
        assert(places[j - 1] < places[j]);
    }
    lemma_next_occurrence(text, pattern[j], placement(pattern, text, j - 1) + 1);
}

/// Leftmost matching finds a match exactly when there is one: `matches`
/// holds if and only if the pattern is an ordered subsequence of the text.
pub proof fn lemma_matches_iff_subsequence(pattern: Seq<char>, text: Seq<char>)
    ensures
        matches(pattern, text) <==> is_subsequence(pattern, text),
{
    if matches(pattern, text) {
        let places = Seq::new(pattern.len(), |j: int| placement(pattern, text, j));
        assert forall|j: int| 0 <= j < pattern.len() implies 0 <= #[trigger] places[j]
            < text.len() && text[places[j]] == pattern[j] by {
            lemma_placements_ascend(pattern, text, j, j);
            lemma_placement(pattern, text, j);
        }
        assert forall|i: int, j: int| 0 <= i < j < pattern.len() implies #[trigger] places[i]
            < #[trigger] places[j] by {
            lemma_placements_ascend(pattern, text, i, j);
        }
        assert(is_embedding(pattern, text, places));
    }
    if is_subsequence(pattern, text) {
        let places = choose|places: Seq<int>| is_embedding(pattern, text, places);
        if pattern.len() > 0 {
            lemma_placement_is_leftmost(pattern, text, places, pattern.len() - 1);
            assert(places[pattern.len() - 1] < text.len());
        }
    }
}

/// The run bonus of the pattern character `j` is at least nothing and at
/// most ten for each character before it.
pub proof fn lemma_run_bonus_bounds(pattern: Seq<char>, text: Seq<char>, j: int)
    ensures
        0 <= run_bonus(pattern, text, j),
        run_bonus(pattern, text, j) <= (if j > 0 {
            RUN_STEP * j
        } else {
            0
        }),
    decreases j,
{
    if j > 0 {
        lemma_run_bonus_bounds(pattern, text, j - 1);
    }
}

/// Every placed character earns at least the base weight, so `n` of them
/// earn at least ten times `n`; and at most forty plus its run bonus each.
pub proof fn lemma_prefix_score_bounds(pattern: Seq<char>, text: Seq<char>, n: int)
    requires
        0 <= n <= pattern.len(),
    ensures
        BASE_WEIGHT * n <= prefix_score(pattern, text, n),
        prefix_score(pattern, text, n) <= n * (BASE_WEIGHT + BOUNDARY_BONUS + POSITION_SPAN
            + RUN_STEP * pattern.len()),
    decreases n,
{
    if n > 0 {
        lemma_prefix_score_bounds(pattern, text, n - 1);
        lemma_run_bonus_bounds(pattern, text, n - 1);
        lemma_placement(pattern, text, n - 1);
        let bound = BASE_WEIGHT + BOUNDARY_BONUS + POSITION_SPAN + RUN_STEP * pattern.len();
        assert(char_score(pattern, text, n - 1) <= bound);
        assert(n * bound == (n - 1) * bound + bound) by (nonlinear_arith);
    }
}

/// A score is `-1` exactly when the pattern is no ordered subsequence of the
/// text, and otherwise at least ten times the length of the pattern.
pub proof fn lemma_match_score(pattern: Seq<char>, text: Seq<char>)
    ensures
        !is_subsequence(pattern, text) ==> match_score(pattern, text) == -1,
        is_subsequence(pattern, text) ==> match_score(pattern, text) >= BASE_WEIGHT
            * pattern.len(),
        match_score(pattern, text) >= 0 <==> is_subsequence(pattern, text),
{
    lemma_matches_iff_subsequence(pattern, text);
    lemma_prefix_score_bounds(pattern, text, pattern.len() as int);
}

/// The score of a pattern of at most [`MAX_PATTERN_LEN`] characters stays
/// below [`SCORE_LIMIT`].
pub proof fn lemma_match_score_limit(pattern: Seq<char>, text: Seq<char>)
    requires
        pattern.len() <= MAX_PATTERN_LEN,
    ensures
        -1 <= match_score(pattern, text) <= SCORE_LIMIT,
{
    let n = pattern.len() as int;
    lemma_prefix_score_bounds(pattern, text, n);
    assert(n * (40 + 10 * n) <= 0x2000_0000 * (40 + 10 * 0x2000_0000)) by (nonlinear_arith)
        requires
            0 <= n <= 0x2000_0000,
    ;
}

/// The empty pattern matches every text, with score 0.
pub proof fn lemma_empty_pattern(text: Seq<char>)
    ensures
        match_score(Seq::<char>::empty(), text) == 0,
{
}

/// Whether a word starts after `c`.
fn separator(c: char) -> (yes: bool)
    ensures
        yes == is_separator(c),
{
    c == '/' || c == '.' || c == '-' || c == '_' || c == ' '
}

/// Scores `pattern` against `text` by one greedy scan from the left; `-1`
/// says that the pattern does not match. Both sides are compared as they
/// are: a caller that wants case to be ignored folds them first.
pub fn fuzzy_match_score(pattern: &[char], text: &str) -> (score: i64)
    requires
        pattern@.len() <= MAX_PATTERN_LEN,
    ensures
        score == match_score(pattern@, text@),
        score >= 0 <==> is_subsequence(pattern@, text@),
        score >= 0 ==> score >= BASE_WEIGHT * pattern@.len(),
        -1 <= score <= SCORE_LIMIT,
{
    proof {
        lemma_match_score(pattern@, text@);
        lemma_match_score_limit(pattern@, text@);
    }
    if pattern.len() == 0 {
        return 0;
    }
    let text_chars = chars_of(text);
    let ghost p = pattern@;
    let ghost t = text@;
    // no character earns more than this
    let per_char: i64 = 40 + 10 * 0x2000_0000;
    let mut pattern_idx: usize = 0;
    let mut score: i64 = 0;
    let mut last_match_idx: Option<usize> = None;
    let mut consecutive_bonus: i64 = 0;
    let mut i: usize = 0;
    proof {
        lemma_placement(p, t, 0);
    }
    while i < text_chars.len()
        invariant
            p == pattern@,
            t == text@,
            t == text_chars@,
            0 < p.len() <= MAX_PATTERN_LEN,
            per_char == 40 + 10 * 0x2000_0000,
            i <= text_chars.len(),
            pattern_idx <= p.len(),
            placement(p, t, pattern_idx - 1) < i,
            pattern_idx < p.len() ==> placement(p, t, pattern_idx as int) >= i,
            pattern_idx == 0 ==> last_match_idx.is_none() && consecutive_bonus == 0,
            pattern_idx > 0 ==> last_match_idx == Some(
                placement(p, t, pattern_idx - 1) as usize,
            ) && consecutive_bonus == run_bonus(p, t, pattern_idx - 1),
            score == prefix_score(p, t, pattern_idx as int),
            0 <= consecutive_bonus <= 10 * pattern_idx,
            0 <= score <= pattern_idx * per_char,
        decreases text_chars.len() - i,
    {
        let c = text_chars[i];
        proof {
            if pattern_idx < p.len() {
                if pattern_idx > 0 {
                    lemma_placement(p, t, pattern_idx - 1);
                }
                lemma_next_occurrence(
                    t,
                    p[pattern_idx as int],
                    placement(p, t, pattern_idx - 1) + 1,
                );
                if pattern_idx + 1 < p.len() {
                    lemma_next_occurrence(t, p[pattern_idx + 1], i + 1);
                }
            }
        }
        if pattern_idx < pattern.len() && c == pattern[pattern_idx] {
            assert(placement(p, t, pattern_idx as int) == i);
            match last_match_idx {
                Some(last) => {
                    if i == last + 1 {
                        consecutive_bonus += RUN_STEP;
                    } else {
                        consecutive_bonus = 0;
                    }
                },
                None => {},
            }
            assert(consecutive_bonus == run_bonus(p, t, pattern_idx as int));
            let word_boundary_bonus: i64 = if i == 0 || separator(text_chars[i - 1]) {
                BOUNDARY_BONUS
            } else {
                0
            };
            let position_bonus: i64 = if i < 10 {
                POSITION_SPAN - (i as i64)
            } else {
                0
            };
            assert(BASE_WEIGHT + consecutive_bonus + word_boundary_bonus + position_bonus
                == char_score(
                p,
                t,
                pattern_idx as int,
            ));
            assert((pattern_idx + 1) * per_char == pattern_idx * per_char + per_char)
                by (nonlinear_arith);
            assert(pattern_idx * per_char <= 0x2000_0000 * per_char) by (nonlinear_arith)
                requires
                    pattern_idx <= 0x2000_0000,
                    per_char >= 0,
            ;
            score += BASE_WEIGHT + consecutive_bonus + word_boundary_bonus + position_bonus;
            last_match_idx = Some(i);
            pattern_idx += 1;
        }
        i += 1;
    }
    if pattern_idx == pattern.len() {
        score
    } else {
        proof {
            lemma_placement(p, t, pattern_idx as int);
            lemma_placement_fails_on(p, t, pattern_idx as int, p.len() - 1);
        }
        -1
    }
}

/// The outcome of matching a query against a text.
#[derive(Debug, Clone, Copy, PartialEq, Eq, Structural)]
pub enum MatchResult {
    /// The query is no ordered subsequence of the text.
    NoMatch,
    /// The query matches, with this quality.
    Score(i64),
}

/// The pattern that stands for the query `text`: its lower-case form, and
/// nothing for the empty query.
pub open spec fn pattern_of(text: Seq<char>) -> Seq<char> {
    if text.len() == 0 {
        Seq::<char>::empty()
    } else {
        lowercase(text)
    }
}

/// Whether a query is short enough to be scored.
pub open spec fn scorable(text: Seq<char>) -> bool {
    pattern_of(text).len() <= MAX_PATTERN_LEN
}

/// The outcome of matching the query `query` against `text`, case ignored on
/// both sides.
pub open spec fn query_match(query: Seq<char>, text: Seq<char>) -> MatchResult {
    let score = match_score(pattern_of(query), lowercase(text));
    if score < 0 {
        MatchResult::NoMatch
    } else {
        MatchResult::Score(score as i64)
    }
}

/// A free-text query, folded to lower case once and checked to be short
/// enough to be scored. Its view is the text as it was typed.
pub struct Query {
    text: String,
    pattern: Vec<char>,
}

impl View for Query {
    type V = Seq<char>;

    closed spec fn view(&self) -> Seq<char> {
        self.text@
    }
}

impl Query {
    /// The folded characters that are matched against texts.
    pub closed spec fn pattern(&self) -> Seq<char> {
        self.pattern@
    }

    /// The invariant of a query: its pattern is the folded form of its text,
    /// and short enough to be scored.
    pub open spec fn wf(&self) -> bool {
        &&& self.pattern() == pattern_of(self@)
        &&& scorable(self@)
    }

    /// The empty query, which admits every record.
    pub fn empty() -> (query: Query)
        ensures
            query.wf(),
            query@ == Seq::<char>::empty(),
    {
        Query { text: String::new(), pattern: Vec::new() }
    }

    /// The query for `text`, or `None` when its folded form is longer than
    /// [`MAX_PATTERN_LEN`].
    pub fn new(text: &str) -> (made: Option<Query>)
        ensures
            made is Some <==> scorable(text@),
            made matches Some(query) ==> query.wf() && query@ == text@,
    {
        if text.is_empty() {
            return Some(Query { text: text.to_owned(), pattern: Vec::new() });
        }
        let pattern = folded_chars(text);
        if pattern.len() > MAX_PATTERN_LEN {
            None
        } else {
            Some(Query { text: text.to_owned(), pattern })
        }
    }

    /// The text of the query as it was typed.
    pub fn text(&self) -> (text: &String)
        ensures
            text@ == self@,
    {
        &self.text
    }

    /// The folded characters of the query.
    pub fn chars(&self) -> (pattern: &Vec<char>)
        requires
            self.wf(),
        ensures
            pattern@ == pattern_of(self@),
    {
        &self.pattern
    }

    /// Whether this is the empty query.
    pub fn is_empty(&self) -> (empty: bool)
        ensures
            empty == (self@.len() == 0),
    {
        self.text.as_str().is_empty()
    }

    /// Matches the query against `text`, ignoring case on both sides.
    ///
    /// The empty query matches every text with `Score(0)`. Any other query
    /// matches exactly when its folded characters are an ordered subsequence
    /// of the folded text, and then with at least ten points for each of them.
    pub fn score(&self, text: &str) -> (result: MatchResult)
        requires
            self.wf(),
        ensures
            result == query_match(self@, text@),
            self@.len() == 0 ==> result == MatchResult::Score(0),
            result is NoMatch <==> !is_subsequence(pattern_of(self@), lowercase(text@)),
            result matches MatchResult::Score(n) ==> n >= BASE_WEIGHT * pattern_of(self@).len(),
    {
        let folded = text.to_lowercase();
        let score = fuzzy_match_score(self.pattern.as_slice(), folded.as_str());
        if score < 0 {
            MatchResult::NoMatch
        } else {
            MatchResult::Score(score)
        }
    }
}

} // verus!
