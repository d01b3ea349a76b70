//! Caseless character comparison.
//!
//! Case folding is ASCII-only: uppercase ASCII letters compare equal to
//! their lowercase forms, and characters outside the ASCII letter ranges
//! fall back to raw equality.

use vstd::prelude::*;

verus! {

/// ASCII case folding of one character: `'A'..='Z'` maps to `'a'..='z'`,
/// every other character is unchanged.
pub open spec fn fold_char(c: char) -> char {
    if 65 <= c as u32 && c as u32 <= 90 {
        ((c as u32 + 32) as u8) as char
    } else {
        c
    }
}

/// ASCII case folding of a character sequence.
pub open spec fn fold(s: Seq<char>) -> Seq<char> {
    s.map_values(|c: char| fold_char(c))
}

/// Lowercase one character, folding only ASCII letters.
pub fn to_lower_char(c: char) -> (r: char)
    ensures
        r == fold_char(c),
{
    let u = c as u32;
    if 65 <= u && u <= 90 {
        ((u + 32) as u8) as char
    } else {
        c
    }
}

/// Lowercase a character vector, folding only ASCII letters.
pub fn to_lower_chars(s: &Vec<char>) -> (r: Vec<char>)
    ensures
        r@ == fold(s@),
{
    let mut r: Vec<char> = Vec::new();
    let mut i: usize = 0;
    while i < s.len()
        invariant
            i <= s@.len(),
            r@ == fold(s@.take(i as int)),
        decreases s@.len() - i,
    {
        r.push(to_lower_char(s[i]));
        proof {
            assert(r@ =~= fold(s@.take((i + 1) as int)));
        }
        i += 1;
    }
    proof {
        assert(s@.take(s@.len() as int) =~= s@);
    }
    r
}

/// Compare two characters caselessly: they match if they are equal after
/// ASCII case folding. Non-ASCII characters are not folded, so for those
/// this is raw equality.
pub fn strcmp_caseless(a: char, b: char) -> (r: Option<bool>)
    ensures
        r == Some(fold_char(a) == fold_char(b)),
{
    Some(to_lower_char(a) == to_lower_char(b))
}

} // verus!
