//! Exact and substring string comparison.
//!
//! Each comparison exists in two forms: a portable scalar routine and a
//! batched routine that compares fixed-width blocks of characters,
//! choosing the widest block the remaining length supports and falling
//! back to narrower blocks, then to direct comparison. Both forms carry
//! the same contract, so they agree on every input.

use vstd::prelude::*;
use crate::text::chars_of;

verus! {

/// `part` occurs in `whole` as a contiguous run of characters.
pub open spec fn contains_sub(part: Seq<char>, whole: Seq<char>) -> bool {
    exists|i: int|
        0 <= i && i + part.len() <= whole.len() && #[trigger] whole.subrange(i, i + part.len())
            == part
}

/// Two sequences that agree on a subrange agree on its elements.
proof fn lemma_eq_extend(a: Seq<char>, b: Seq<char>, i: int, w: int)
    requires
        0 <= i,
        0 <= w,
        i + w <= a.len(),
        i + w <= b.len(),
        a.subrange(i, i + w) == b.subrange(i, i + w),
    ensures
        forall|k: int| i <= k < i + w ==> a[k] == #[trigger] b[k],
{
    assert forall|k: int| i <= k < i + w implies a[k] == #[trigger] b[k] by {
        assert(a.subrange(i, i + w)[k - i] == a[k]);
        assert(b.subrange(i, i + w)[k - i] == b[k]);
    }
}

/// A window of `whole` that matches `part` slice by slice matches it
/// element by element.
proof fn lemma_window_extend(part: Seq<char>, whole: Seq<char>, at: int, j: int, w: int)
    requires
        0 <= at,
        0 <= j,
        0 <= w,
        j + w <= part.len(),
        at + j + w <= whole.len(),
        part.subrange(j, j + w) == whole.subrange(at + j, at + j + w),
    ensures
        forall|k: int| j <= k < j + w ==> whole[at + k] == #[trigger] part[k],
{
    assert forall|k: int| j <= k < j + w implies whole[at + k] == #[trigger] part[k] by {
        assert(part.subrange(j, j + w)[k - j] == part[k]);
        assert(whole.subrange(at + j, at + j + w)[k - j] == whole[at + k]);
    }
}

/// When the window of `whole` at `at` equals all of `part`, every
/// sub-window of it equals the matching slice of `part`.
proof fn lemma_window_slice(part: Seq<char>, whole: Seq<char>, at: int, j: int, w: int)
    requires
        0 <= at,
        0 <= j,
        0 <= w,
        j + w <= part.len(),
        at + part.len() <= whole.len(),
        whole.subrange(at, at + part.len()) == part,
    ensures
        part.subrange(j, j + w) == whole.subrange(at + j, at + j + w),
{
    assert forall|x: int| 0 <= x < w implies part.subrange(j, j + w)[x] == #[trigger] whole.subrange(
        at + j,
        at + j + w,
    )[x] by {
        assert(whole.subrange(at, at + part.len())[j + x] == whole[at + j + x]);
        assert(part.subrange(j, j + w)[x] == part[j + x]);
        assert(whole.subrange(at + j, at + j + w)[x] == whole[at + j + x]);
    }
    assert(part.subrange(j, j + w) =~= whole.subrange(at + j, at + j + w));
}

/// Compare `n` characters of `a` from `a_from` with `n` characters of
/// `b` from `b_from`, one character at a time.
fn eq_range(a: &[char], b: &[char], a_from: usize, b_from: usize, n: usize) -> (r: bool)
    requires
        a_from + n <= a@.len(),
        b_from + n <= b@.len(),
    ensures
        r == (a@.subrange(a_from as int, a_from + n) == b@.subrange(b_from as int, b_from + n)),
{
    let al = a.len();
    let bl = b.len();
    let mut j: usize = 0;
    while j < n
        invariant
            j <= n,
            al == a@.len(),
            bl == b@.len(),
            a_from + n <= al,
            b_from + n <= bl,
            forall|k: int| 0 <= k < j ==> a@[a_from + k] == #[trigger] b@[b_from + k],
        decreases n - j,
    {
        if a[a_from + j] != b[b_from + j] {
            proof {
                if a@.subrange(a_from as int, a_from + n) == b@.subrange(
                    b_from as int,
                    b_from + n,
                ) {
                    assert(a@.subrange(a_from as int, a_from + n)[j as int] == a@[a_from + j]);
                    assert(b@.subrange(b_from as int, b_from + n)[j as int] == b@[b_from + j]);
                }
            }
            return false;
        }
        j += 1;
    }
    proof {
        assert forall|x: int| 0 <= x < n implies a@.subrange(a_from as int, a_from + n)[x]
            == #[trigger] b@.subrange(b_from as int, b_from + n)[x] by {
            assert(a@[a_from + x] == b@[b_from + x]);
        }
        assert(a@.subrange(a_from as int, a_from + n) =~= b@.subrange(b_from as int, b_from + n));
    }
    true
}

/// Exact match over whole strings: true exactly when the two strings
/// hold the same characters. Dispatches to the batched routine, which
/// is proven to agree with the portable one.
pub fn strcmp(s1: &String, s2: &String) -> (r: bool)
    ensures
        r == (s1@ == s2@),
{
    let a = chars_of(s1.as_str());
    let b = chars_of(s2.as_str());
    strcmp_simd(a.as_slice(), b.as_slice())
}

/// Portable exact comparison: a single pass over the characters.
pub fn strcmp_base(s1: &[char], s2: &[char]) -> (r: bool)
    ensures
        r == (s1@ == s2@),
{
    if s1.len() != s2.len() {
        return false;
    }
    let r = eq_range(s1, s2, 0, 0, s1.len());
    proof {
        assert(s1@.subrange(0, s1@.len() as int) =~= s1@);
        assert(s2@.subrange(0, s2@.len() as int) =~= s2@);
        if s1@ == s2@ {
            assert(s1@.subrange(0, s1@.len() as int) == s2@.subrange(0, s2@.len() as int));
        }
    }
    r
}

/// Batched exact comparison: compares blocks of 32, 16, 8 or 4
/// characters at a time, whichever the remaining length supports, and
/// compares short inputs directly. Agrees with `strcmp_base` on every
/// input.
pub fn strcmp_simd(s1: &[char], s2: &[char]) -> (r: bool)
    ensures
        r == (s1@ == s2@),
{
    let l = s1.len();
    if l != s2.len() {
        return false;
    }
    if l < 8 {
        return strcmp_base(s1, s2);
    }
    let mut i: usize = 0;
    loop
        invariant
            i <= l,
            l == s1@.len(),
            l == s2@.len(),
            forall|k: int| 0 <= k < i ==> s1@[k] == #[trigger] s2@[k],
        decreases l - i,
    {
        let rem = l - i;
        let w: usize = if rem >= 32 {
            32
        } else if rem >= 16 {
            16
        } else if rem >= 8 {
            8
        } else if rem >= 4 {
            4
        } else {
            rem
        };
        if w == 0 {
            proof {
                assert(s1@ =~= s2@);
            }
            return true;
        }
        if eq_range(s1, s2, i, i, w) {
            proof {
                lemma_eq_extend(s1@, s2@, i as int, w as int);
            }
            i += w;
        } else {
            proof {
                if s1@ == s2@ {
                    assert(s1@.subrange(i as int, i + w) =~= s2@.subrange(i as int, i + w));
                }
            }
            return false;
        }
    }
}

/// Tests for a partial match: whether `whole` contains `part` as a
/// contiguous run of characters. Not symmetric. Dispatches to the
/// batched routine, which is proven to agree with the portable one.
pub fn strcmp_part(part: &String, whole: &String) -> (r: bool)
    ensures
        r == contains_sub(part@, whole@),
{
    let p = chars_of(part.as_str());
    let w = chars_of(whole.as_str());
    strcmp_part_simd(p.as_slice(), w.as_slice())
}

/// Portable substring scan: tries every window of `whole` in order,
/// comparing character by character.
pub fn strcmp_part_base(part: &[char], whole: &[char]) -> (r: bool)
    ensures
        r == contains_sub(part@, whole@),
{
    let pl = part.len();
    let wl = whole.len();
    if pl > wl {
        return false;
    }
    if pl == 0 {
        proof {
            assert(whole@.subrange(0, 0 + part@.len() as int) =~= part@);
        }
        return true;
    }
    let mut i: usize = 0;
    while i <= wl - pl
        invariant
            1 <= pl <= wl,
            pl == part@.len(),
            wl == whole@.len(),
            i <= wl - pl + 1,
            forall|k: int| 0 <= k < i ==> #[trigger] whole@.subrange(k, k + part@.len()) != part@,
        decreases wl - pl - i + 1,
    {
        if eq_range(part, whole, 0, i, pl) {
            proof {
                assert(part@.subrange(0, pl as int) =~= part@);
                assert(whole@.subrange(i as int, i as int + part@.len()) == part@);
            }
            return true;
        }
        proof {
            assert(part@.subrange(0, pl as int) =~= part@);
            assert(whole@.subrange(i as int, i as int + part@.len()) != part@);
        }
        i += 1;
    }
    false
}

/// Compare `part` against the window of `whole` starting at `at`, in
/// blocks of 32, 16, 8 or 4 characters, falling back to direct
/// comparison for the remainder.
fn window_eq(part: &[char], whole: &[char], at: usize) -> (r: bool)
    requires
        at + part@.len() <= whole@.len(),
    ensures
        r == (whole@.subrange(at as int, at + part@.len()) == part@),
{
    let pl = part.len();
    let wl = whole.len();
    let mut j: usize = 0;
    loop
        invariant
            j <= pl,
            pl == part@.len(),
            wl == whole@.len(),
            at + pl <= wl,
            forall|k: int| 0 <= k < j ==> whole@[at + k] == #[trigger] part@[k],
        decreases pl - j,
    {
        let rem = pl - j;
        let w: usize = if rem >= 32 {
            32
        } else if rem >= 16 {
            16
        } else if rem >= 8 {
            8
        } else if rem >= 4 {
            4
        } else {
            rem
        };
        if w == 0 {
            proof {
                assert forall|x: int| 0 <= x < pl implies #[trigger] whole@.subrange(
                    at as int,
                    at + pl,
                )[x] == part@[x] by {
                    assert(whole@[at + x] == part@[x]);
                }
                assert(whole@.subrange(at as int, at + part@.len()) =~= part@);
            }
            return true;
        }
        if eq_range(part, whole, j, at + j, w) {
            proof {
                lemma_window_extend(part@, whole@, at as int, j as int, w as int);
            }
            j += w;
        } else {
            proof {
                if whole@.subrange(at as int, at + part@.len()) == part@ {
                    lemma_window_slice(part@, whole@, at as int, j as int, w as int);
                }
            }
            return false;
        }
    }
}

/// Batched substring scan: tries every window of `whole` in order,
/// comparing each window in fixed-width blocks. Agrees with
/// `strcmp_part_base` on every input.
pub fn strcmp_part_simd(part: &[char], whole: &[char]) -> (r: bool)
    ensures
        r == contains_sub(part@, whole@),
{
    let pl = part.len();
    let wl = whole.len();
    if pl > wl {
        return false;
    }
    if pl == 0 {
        proof {
            assert(whole@.subrange(0, 0 + part@.len() as int) =~= part@);
        }
        return true;
    }
    let mut i: usize = 0;
    while i <= wl - pl
        invariant
            1 <= pl <= wl,
            pl == part@.len(),
            wl == whole@.len(),
            i <= wl - pl + 1,
            forall|k: int| 0 <= k < i ==> #[trigger] whole@.subrange(k, k + part@.len()) != part@,
        decreases wl - pl - i + 1,
    {
        if window_eq(part, whole, i) {
            proof {
                assert(whole@.subrange(i as int, i as int + part@.len()) == part@);
            }
            return true;
        }
        proof {
            assert(whole@.subrange(i as int, i as int + part@.len()) != part@);
        }
        i += 1;
    }
    false
}

} // verus!
