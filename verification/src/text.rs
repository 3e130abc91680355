//! Character sequences: case folding, whitespace, and the order on identifiers.
//!
//! Every string of the library is viewed as a `Seq<char>`. Two things come
//! from the Unicode tables of the standard library and are only named here,
//! [`lowercase`] and [`whitespace`]; everything else is defined and proved
//! in this module.
use vstd::prelude::*;

verus! {

/// The lower-case form of a string, as the standard library computes it.
///
/// The mapping follows the Unicode tables compiled into the standard library
/// and is a function of the characters alone; nothing else is claimed of it.
pub uninterp spec fn lowercase(s: Seq<char>) -> Seq<char>;

/// Whether a character has the Unicode `White_Space` property.
pub uninterp spec fn whitespace(c: char) -> bool;

/// `str::to_lowercase`, believed to return exactly [`lowercase`] of its
/// argument. Not proved: the conversion is the standard library's.
pub assume_specification[ str::to_lowercase ](s: &str) -> (folded: String)
    ensures
        folded@ == lowercase(s@),
;

/// `char::is_whitespace`, believed to decide exactly [`whitespace`].
/// Not proved: the table is the standard library's.
pub assume_specification[ char::is_whitespace ](c: char) -> (white: bool)
    ensures
        white == whitespace(c),
;

/// `String::push`, believed to append the character at the end and leave the
/// rest of the string as it was.
pub assume_specification[ String::push ](s: &mut String, c: char)
    ensures
        final(s)@ == old(s)@.push(c),
;

/// `String::pop`, believed to remove and return the last character, or to
/// return `None` and leave the string alone when it is empty.
pub assume_specification[ String::pop ](s: &mut String) -> (last: Option<char>)
    ensures
        old(s)@.len() == 0 ==> last.is_none() && final(s)@ == old(s)@,
        old(s)@.len() > 0 ==> last == Some(old(s)@.last()) && final(s)@ == old(s)@.drop_last(),
;

/// The characters of `s`, in order.
pub fn chars_of(s: &str) -> (chars: Vec<char>)
    ensures
        chars@ == s@,
{
    let mut chars: Vec<char> = Vec::new();
    for c in it: s.chars()
        invariant
            it.seq() == s@,
            chars@ == s@.take(it.index() as int),
    {
        chars.push(c);
    }
    chars
}

/// The characters of the lower-case form of `s`.
pub fn folded_chars(s: &str) -> (chars: Vec<char>)
    ensures
        chars@ == lowercase(s@),
{
    let folded = s.to_lowercase();
    chars_of(folded.as_str())
}

/// The code point of `c` with the ASCII capitals `A` to `Z` mapped to `a` to
/// `z`; every other character keeps its code point.
pub open spec fn ascii_folded(c: char) -> int {
    let code = c as int;
    if 65 <= code <= 90 {
        code + 32
    } else {
        code
    }
}

/// Equality of two strings up to the case of ASCII letters.
pub open spec fn ascii_case_eq(a: Seq<char>, b: Seq<char>) -> bool {
    &&& a.len() == b.len()
    &&& forall|i: int| 0 <= i < a.len() ==> ascii_folded(#[trigger] a[i]) == ascii_folded(b[i])
}

/// The code point of `c` with ASCII capitals mapped to small letters.
fn ascii_folded_code(c: char) -> (code: u32)
    ensures
        code == ascii_folded(c),
{
    let code: u32 = c as u32;
    if 65 <= code && code <= 90 {
        code + 32
    } else {
        code
    }
}

/// Compares two character slices without regard to the case of ASCII letters.
pub fn chars_eq_ignore_ascii_case(a: &[char], b: &[char]) -> (same: bool)
    ensures
        same == ascii_case_eq(a@, b@),
{
    if a.len() != b.len() {
        return false;
    }
    let mut i: usize = 0;
    while i < a.len()
        invariant
            a.len() == b.len(),
            i <= a.len(),
            forall|j: int| 0 <= j < i ==> ascii_folded(#[trigger] a@[j]) == ascii_folded(b@[j]),
        decreases a.len() - i,
    {
        if ascii_folded_code(a[i]) != ascii_folded_code(b[i]) {
            return false;
        }
        i += 1;
    }
    true
}

/// What is left of `a` from position `from` on comes before what is left of
/// `b`: at the first position where the two differ `a` has the lesser code
/// point, or `a` ends there and `b` goes on.
pub open spec fn lex_less_from(a: Seq<char>, b: Seq<char>, from: int) -> bool
    decreases a.len() - from,
{
    if from < 0 || from >= b.len() {
        false
    } else if from >= a.len() {
        true
    } else if a[from] != b[from] {
        (a[from] as int) < (b[from] as int)
    } else {
        lex_less_from(a, b, from + 1)
    }
}

/// The strict lexicographic order on character sequences by code point: the
/// order in which the standard library sorts strings.
pub open spec fn lex_less(a: Seq<char>, b: Seq<char>) -> bool {
    lex_less_from(a, b, 0)
}

/// No sequence comes before itself, and no two come before each other.
pub proof fn lemma_lex_less_asymmetric(a: Seq<char>, b: Seq<char>)
    ensures
        !(lex_less(a, b) && lex_less(b, a)),
{
    lemma_asymmetric_from(a, b, 0);
}

/// Asymmetry of the order, read from `from`.
proof fn lemma_asymmetric_from(a: Seq<char>, b: Seq<char>, from: int)
    requires
        0 <= from,
    ensures
        !(lex_less_from(a, b, from) && lex_less_from(b, a, from)),
    decreases a.len() - from,
{
    if from < a.len() && from < b.len() && a[from] == b[from] {
        lemma_asymmetric_from(a, b, from + 1);
    }
}

/// The order is transitive.
pub proof fn lemma_lex_less_transitive(a: Seq<char>, b: Seq<char>, c: Seq<char>)
    requires
        lex_less(a, b),
        lex_less(b, c),
    ensures
        lex_less(a, c),
{
    lemma_transitive_from(a, b, c, 0);
}

/// Transitivity of the order, read from `from`.
proof fn lemma_transitive_from(a: Seq<char>, b: Seq<char>, c: Seq<char>, from: int)
    requires
        0 <= from,
        lex_less_from(a, b, from),
        lex_less_from(b, c, from),
    ensures
        lex_less_from(a, c, from),
    decreases a.len() - from,
{
    if from < a.len() && a[from] == b[from] && b[from] == c[from] {
        lemma_transitive_from(a, b, c, from + 1);
    }
}

/// Two different sequences are ordered one way or the other.
pub proof fn lemma_lex_less_total(a: Seq<char>, b: Seq<char>)
    requires
        a != b,
    ensures
        lex_less(a, b) || lex_less(b, a),
{
    if !lex_less(a, b) && !lex_less(b, a) {
        lemma_unordered_agree(a, b, 0);
        assert(a =~= b);
    }
}

/// Two sequences of which neither comes before the other from `from` on are
/// equally long and agree from there.
proof fn lemma_unordered_agree(a: Seq<char>, b: Seq<char>, from: int)
    requires
        0 <= from,
        !lex_less_from(a, b, from),
        !lex_less_from(b, a, from),
    ensures
        a.len() == b.len() || (a.len() <= from && b.len() <= from),
        forall|i: int| from <= i < a.len() ==> a[i] == b[i],
    decreases a.len() - from,
{
    if from < a.len() && from < b.len() {
        lemma_unordered_agree(a, b, from + 1);
    }
}

/// Decides the strict lexicographic order on two character slices.
pub fn chars_less(a: &[char], b: &[char]) -> (less: bool)
    ensures
        less == lex_less(a@, b@),
{
    let mut i: usize = 0;
    while i < a.len() && i < b.len()
        invariant
            i <= a.len(),
            i <= b.len(),
            lex_less(a@, b@) == lex_less_from(a@, b@, i as int),
        decreases a.len() - i,
    {
        if a[i] != b[i] {
            return a[i] < b[i];
        }
        i += 1;
    }
    i < b.len()
}

} // verus!
