//! Typographic distance: a cheap positional-mismatch heuristic, not a
//! true edit distance.

use vstd::prelude::*;
use crate::text::chars_of;

verus! {

/// Positional distance between two character sequences: the number of
/// positions in the overlapping prefix where the characters differ,
/// plus the absolute difference of the lengths.
pub open spec fn typo_dist(a: Seq<char>, b: Seq<char>) -> nat
    decreases a.len(),
{
    if a.len() == 0 {
        b.len()
    } else if b.len() == 0 {
        a.len()
    } else {
        ((if a[0] != b[0] {
            1nat
        } else {
            0nat
        }) + typo_dist(a.drop_first(), b.drop_first())) as nat
    }
}

/// One step of `typo_dist` when both sequences are non-empty.
proof fn lemma_typo_dist_step(a: Seq<char>, b: Seq<char>, i: int)
    requires
        0 <= i,
        i < a.len(),
        i < b.len(),
    ensures
        typo_dist(a.skip(i), b.skip(i)) == (if a[i] != b[i] {
            1nat
        } else {
            0nat
        }) + typo_dist(a.skip(i + 1), b.skip(i + 1)),
{
    assert(a.skip(i).drop_first() =~= a.skip(i + 1));
    assert(b.skip(i).drop_first() =~= b.skip(i + 1));
    assert(a.skip(i)[0] == a[i]);
    assert(b.skip(i)[0] == b[i]);
}

/// The typographic distance between two strings.
pub fn strdiff(part: &String, whole: &String) -> (r: usize)
    ensures
        r == typo_dist(part@, whole@),
{
    let a = chars_of(part.as_str());
    let b = chars_of(whole.as_str());
    typo_count(&a, &b)
}

/// The typographic distance between two character vectors.
pub fn typo_count(a: &Vec<char>, b: &Vec<char>) -> (r: usize)
    ensures
        r == typo_dist(a@, b@),
{
    let m: usize = if a.len() < b.len() {
        a.len()
    } else {
        b.len()
    };
    proof {
        assert(a@.skip(0) =~= a@);
        assert(b@.skip(0) =~= b@);
    }
    let mut d: usize = 0;
    let mut i: usize = 0;
    while i < m
        invariant
            i <= m,
            m <= a@.len(),
            m <= b@.len(),
            m == a@.len() || m == b@.len(),
            d <= i,
            typo_dist(a@, b@) == d + typo_dist(a@.skip(i as int), b@.skip(i as int)),
        decreases m - i,
    {
        proof {
            lemma_typo_dist_step(a@, b@, i as int);
        }
        if a[i] != b[i] {
            d = d + 1;
        }
        i += 1;
    }
    proof {
        if m == a@.len() {
            assert(a@.skip(m as int) =~= Seq::<char>::empty());
            assert(typo_dist(a@.skip(m as int), b@.skip(m as int)) == b@.len() - m);
        } else {
            assert(b@.skip(m as int) =~= Seq::<char>::empty());
            if a@.skip(m as int).len() == 0 {
                assert(typo_dist(a@.skip(m as int), b@.skip(m as int)) == 0 == a@.len() - m);
            } else {
                assert(typo_dist(a@.skip(m as int), b@.skip(m as int)) == a@.len() - m);
            }
        }
    }
    let rest: usize = if a.len() < b.len() {
        b.len() - m
    } else {
        a.len() - m
    };
    d + rest
}

} // verus!
