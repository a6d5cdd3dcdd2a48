//! ASCII case classification and case mapping for single characters and
//! character sequences.

use vstd::prelude::*;

verus! {

/// True for the ASCII uppercase letters `A`..`Z`.
pub open spec fn is_upper_char(c: char) -> bool {
    65 <= c as u32 && c as u32 <= 90
}

/// True for the ASCII lowercase letters `a`..`z`.
pub open spec fn is_lower_char(c: char) -> bool {
    97 <= c as u32 && c as u32 <= 122
}

/// The uppercase counterpart of `c`: ASCII lowercase letters are mapped to
/// uppercase, every other character is left unchanged.
pub open spec fn upper_char(c: char) -> char {
    if is_lower_char(c) {
        (((c as u32) - 32) as u8) as char
    } else {
        c
    }
}

/// The lowercase counterpart of `c`: ASCII uppercase letters are mapped to
/// lowercase, every other character is left unchanged.
pub open spec fn lower_char(c: char) -> char {
    if is_upper_char(c) {
        (((c as u32) + 32) as u8) as char
    } else {
        c
    }
}

/// Returns whether `c` is an ASCII uppercase letter.
pub fn char_is_upper(c: char) -> (r: bool)
    ensures
        r == is_upper_char(c),
{
    let u = c as u32;
    65 <= u && u <= 90
}

/// Maps `c` to uppercase as `upper_char` describes.
pub fn char_to_upper(c: char) -> (r: char)
    ensures
        r == upper_char(c),
{
    let u = c as u32;
    if 97 <= u && u <= 122 {
        ((u - 32) as u8) as char
    } else {
        c
    }
}

/// Maps `c` to lowercase as `lower_char` describes.
pub fn char_to_lower(c: char) -> (r: char)
    ensures
        r == lower_char(c),
{
    let u = c as u32;
    if 65 <= u && u <= 90 {
        ((u + 32) as u8) as char
    } else {
        c
    }
}

/// `w` with every character mapped to lowercase.
pub open spec fn lower_word(w: Seq<char>) -> Seq<char> {
    w.map_values(|c: char| lower_char(c))
}

/// `w` with every character mapped to uppercase.
pub open spec fn upper_word(w: Seq<char>) -> Seq<char> {
    w.map_values(|c: char| upper_char(c))
}

/// Case mapping of a character is idempotent, and the two mappings cancel
/// on letters.
pub proof fn lemma_char_case(c: char)
    ensures
        lower_char(lower_char(c)) == lower_char(c),
        upper_char(upper_char(c)) == upper_char(c),
        is_lower_char(c) ==> upper_char(c) as u32 == c as u32 - 32 && is_upper_char(upper_char(c)),
        is_upper_char(c) ==> lower_char(c) as u32 == c as u32 + 32 && is_lower_char(lower_char(c)),
        !is_upper_char(lower_char(c)),
        !is_lower_char(upper_char(c)),
        is_lower_char(c) ==> lower_char(upper_char(c)) == c,
        is_upper_char(c) ==> upper_char(lower_char(c)) == c,
        !is_upper_char(c) ==> lower_char(c) == c,
        !is_lower_char(c) ==> upper_char(c) == c,
{
}

/// Lowercasing fixes a word that holds no ASCII uppercase letter.
pub proof fn lemma_lower_word_id(w: Seq<char>)
    requires
        forall|i: int| 0 <= i < w.len() ==> !is_upper_char(w[i]),
    ensures
        lower_word(w) == w,
{
    assert(lower_word(w) =~= w);
}

/// Lowercasing a word twice is the same as lowercasing it once, and the
/// result holds no ASCII uppercase letter.
pub proof fn lemma_lower_word_idem(w: Seq<char>)
    ensures
        lower_word(lower_word(w)) == lower_word(w),
        forall|i: int| 0 <= i < lower_word(w).len() ==> !is_upper_char(lower_word(w)[i]),
{
    assert(lower_word(lower_word(w)) =~= lower_word(w));
}

/// Uppercasing a word twice is the same as uppercasing it once, and the
/// result holds no ASCII lowercase letter.
pub proof fn lemma_upper_word_idem(w: Seq<char>)
    ensures
        upper_word(upper_word(w)) == upper_word(w),
        forall|i: int| 0 <= i < upper_word(w).len() ==> !is_lower_char(upper_word(w)[i]),
{
    assert(upper_word(upper_word(w)) =~= upper_word(w));
}

} // verus!
