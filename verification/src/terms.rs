//! Term extraction: whitespace tokenization and first-seen
//! deduplication.

use vstd::prelude::*;

verus! {

/// ASCII whitespace, the token delimiter.
pub open spec fn is_ws(c: char) -> bool {
    c == ' ' || c == '\t' || c == '\n' || c == '\x0C' || c == '\r'
}

/// Whether `c` is an ASCII whitespace character.
pub fn is_ws_char(c: char) -> (r: bool)
    ensures
        r == is_ws(c),
{
    c == ' ' || c == '\t' || c == '\n' || c == '\x0C' || c == '\r'
}

/// Length of the leading run of non-whitespace characters.
pub open spec fn run_len(s: Seq<char>) -> nat
    decreases s.len(),
{
    if s.len() == 0 || is_ws(s[0]) {
        0
    } else {
        (1 + run_len(s.drop_first())) as nat
    }
}

/// The leading run never extends past the end of the sequence.
pub proof fn lemma_run_len_le(s: Seq<char>)
    ensures
        run_len(s) <= s.len(),
    decreases s.len(),
{
    if s.len() == 0 || is_ws(s[0]) {
    } else {
        lemma_run_len_le(s.drop_first());
    }
}

/// The leading run is exactly the non-whitespace prefix.
pub proof fn lemma_run_len_is(s: Seq<char>, n: int)
    requires
        0 <= n <= s.len(),
        forall|k: int| 0 <= k < n ==> !is_ws(#[trigger] s[k]),
        n == s.len() || is_ws(s[n]),
    ensures
        run_len(s) == n,
    decreases n,
{
    if n == 0 {
    } else {
        assert(!is_ws(s[0]));
        lemma_run_len_is(s.drop_first(), n - 1);
    }
}

/// The maximal whitespace-delimited tokens of a character sequence, in
/// order of appearance.
pub open spec fn tokens(s: Seq<char>) -> Seq<Seq<char>>
    decreases s.len(),
    via tokens_decreases
{
    if s.len() == 0 {
        Seq::empty()
    } else if is_ws(s[0]) {
        tokens(s.drop_first())
    } else {
        seq![s.take(run_len(s) as int)] + tokens(s.skip(run_len(s) as int))
    }
}

#[via_fn]
proof fn tokens_decreases(s: Seq<char>) {
    lemma_run_len_le(s);
}

/// Split a character vector into its whitespace-delimited tokens.
pub fn tokenize(s: &Vec<char>) -> (r: Vec<Vec<char>>)
    ensures
        r.deep_view() == tokens(s@),
{
    let n = s.len();
    let mut r: Vec<Vec<char>> = Vec::new();
    proof {
        assert(s@.skip(0) =~= s@);
        assert(r.deep_view() =~= Seq::<Seq<char>>::empty());
        assert(r.deep_view() + tokens(s@) =~= tokens(s@));
    }
    let mut i: usize = 0;
    while i < n
        invariant
            i <= n,
            n == s@.len(),
            r.deep_view() + tokens(s@.skip(i as int)) == tokens(s@),
        decreases n - i,
    {
        if is_ws_char(s[i]) {
            proof {
                assert(s@.skip(i as int).drop_first() =~= s@.skip(i + 1));
            }
            i += 1;
        } else {
            let start = i;
            let mut tok: Vec<char> = Vec::new();
            while i < n && !is_ws_char(s[i])
                invariant
                    start <= i <= n,
                    n == s@.len(),
                    tok@ == s@.subrange(start as int, i as int),
                    forall|k: int| start <= k < i ==> !is_ws(#[trigger] s@[k]),
                decreases n - i,
            {
                tok.push(s[i]);
                proof {
                    assert(tok@ =~= s@.subrange(start as int, i + 1));
                }
                i += 1;
            }
            proof {
                let tail = s@.skip(start as int);
                assert forall|k: int| 0 <= k < i - start implies !is_ws(#[trigger] tail[k]) by {
                    assert(tail[k] == s@[start + k]);
                }
                if i < n {
                    assert(is_ws(tail[i - start]));
                }
                lemma_run_len_is(tail, i - start);
                assert(tail.take((i - start) as int) =~= s@.subrange(start as int, i as int));
                assert(tail.skip((i - start) as int) =~= s@.skip(i as int));
                assert(tokens(s@.skip(start as int)) == seq![tok@] + tokens(s@.skip(i as int)));
                assert((r.deep_view() + (seq![tok@] + tokens(s@.skip(i as int)))) =~= ((
                r.deep_view() + seq![tok@]) + tokens(s@.skip(i as int))));
            }
            let ghost old_r = r.deep_view();
            r.push(tok);
            proof {
                assert(r.deep_view() =~~= old_r + seq![tok@]);
            }
        }
    }
    proof {
        assert(s@.skip(n as int) =~= Seq::<char>::empty());
        assert(r.deep_view() =~= r.deep_view() + tokens(s@.skip(n as int)));
    }
    r
}

/// First-seen deduplication: keeps the first occurrence of each
/// element, in order.
pub open spec fn dedup<A>(s: Seq<A>) -> Seq<A>
    decreases s.len(),
{
    if s.len() == 0 {
        Seq::empty()
    } else if s.drop_last().contains(s.last()) {
        dedup(s.drop_last())
    } else {
        dedup(s.drop_last()).push(s.last())
    }
}

/// Deduplication keeps exactly the members of the original sequence.
pub proof fn lemma_dedup_contains<A>(s: Seq<A>, x: A)
    ensures
        dedup(s).contains(x) <==> s.contains(x),
    decreases s.len(),
{
    if s.len() == 0 {
    } else {
        let d = s.drop_last();
        let l = s.last();
        lemma_dedup_contains(d, x);
        assert(s.contains(x) <==> d.contains(x) || x == l) by {
            if s.contains(x) {
                let i = choose|i: int| 0 <= i < s.len() && s[i] == x;
                if i < s.len() - 1 {
                    assert(d[i] == x);
                }
            }
            if d.contains(x) {
                let i = choose|i: int| 0 <= i < d.len() && d[i] == x;
                assert(s[i] == x);
            }
            if x == l {
                assert(s[s.len() - 1] == x);
            }
        }
        if !d.contains(l) {
            let p = dedup(d);
            assert(p.push(l).contains(x) <==> p.contains(x) || x == l) by {
                if p.contains(x) {
                    let i = choose|i: int| 0 <= i < p.len() && p[i] == x;
                    assert(p.push(l)[i] == x);
                }
                assert(p.push(l)[p.len() as int] == l);
                if p.push(l).contains(x) {
                    let i = choose|i: int| 0 <= i < p.push(l).len() && p.push(l)[i] == x;
                    if i < p.len() {
                        assert(p[i] == x);
                    }
                }
            }
        }
    }
}

/// Whether a term list contains a term with these characters.
pub fn contains_term(v: &Vec<Vec<char>>, t: &Vec<char>) -> (r: bool)
    ensures
        r == v.deep_view().contains(t@),
{
    let mut i: usize = 0;
    while i < v.len()
        invariant
            i <= v@.len(),
            forall|k: int| 0 <= k < i ==> #[trigger] v.deep_view()[k] != t@,
        decreases v@.len() - i,
    {
        let hit = crate::strcmp::strcmp_base(v[i].as_slice(), t.as_slice());
        proof {
            assert(v.deep_view()[i as int] =~= v@[i as int]@);
        }
        if hit {
            proof {
                assert(v.deep_view()[i as int] == t@);
            }
            return true;
        }
        i += 1;
    }
    proof {
        if v.deep_view().contains(t@) {
            let j = choose|j: int| 0 <= j < v.deep_view().len() && v.deep_view()[j] == t@;
            assert(v.deep_view()[j] != t@);
        }
    }
    false
}

/// Deduplicate a term list, keeping first occurrences in order.
pub fn dedup_terms(v: &Vec<Vec<char>>) -> (r: Vec<Vec<char>>)
    ensures
        r.deep_view() == dedup(v.deep_view()),
{
    let mut r: Vec<Vec<char>> = Vec::new();
    let mut i: usize = 0;
    while i < v.len()
        invariant
            i <= v@.len(),
            r.deep_view() == dedup(v.deep_view().take(i as int)),
        decreases v@.len() - i,
    {
        let ghost prefix = v.deep_view().take(i as int);
        let ghost next = v.deep_view().take(i + 1);
        proof {
            assert(next.drop_last() =~= prefix);
            assert(next.last() == v.deep_view()[i as int]);
            assert(v.deep_view()[i as int] =~= v@[i as int]@);
            lemma_dedup_contains(prefix, v.deep_view()[i as int]);
        }
        let present = contains_term(&r, &v[i]);
        if !present {
            let ghost old_r = r.deep_view();
            let copy = copy_chars(&v[i]);
            r.push(copy);
            proof {
                assert(r.deep_view() =~~= old_r.push(v.deep_view()[i as int]));
            }
        }
        i += 1;
    }
    proof {
        assert(v.deep_view().take(v@.len() as int) =~= v.deep_view());
    }
    r
}

/// Copy a character vector.
pub fn copy_chars(v: &Vec<char>) -> (r: Vec<char>)
    ensures
        r@ == v@,
{
    let mut r: Vec<char> = Vec::new();
    let mut i: usize = 0;
    while i < v.len()
        invariant
            i <= v@.len(),
            r@ == v@.take(i as int),
        decreases v@.len() - i,
    {
        r.push(v[i]);
        proof {
            assert(r@ =~= v@.take(i + 1));
        }
        i += 1;
    }
    proof {
        assert(v@.take(v@.len() as int) =~= v@);
    }
    r
}

/// Deduplicate an identifier list, keeping first occurrences in order.
pub fn dedup_ids(v: &Vec<u128>) -> (r: Vec<u128>)
    ensures
        r@ == dedup(v@),
{
    let mut r: Vec<u128> = Vec::new();
    let mut i: usize = 0;
    while i < v.len()
        invariant
            i <= v@.len(),
            r@ == dedup(v@.take(i as int)),
        decreases v@.len() - i,
    {
        let ghost prefix = v@.take(i as int);
        proof {
            assert(v@.take(i + 1).drop_last() =~= prefix);
            assert(v@.take(i + 1).last() == v@[i as int]);
            lemma_dedup_contains(prefix, v@[i as int]);
        }
        let present = contains_id(&r, v[i]);
        if !present {
            r.push(v[i]);
        }
        i += 1;
    }
    proof {
        assert(v@.take(v@.len() as int) =~= v@);
    }
    r
}

/// Whether an identifier slice contains `x`.
pub fn contains_id_slice(v: &[u128], x: u128) -> (r: bool)
    ensures
        r == v@.contains(x),
{
    let mut i: usize = 0;
    while i < v.len()
        invariant
            i <= v@.len(),
            forall|k: int| 0 <= k < i ==> #[trigger] v@[k] != x,
        decreases v@.len() - i,
    {
        if v[i] == x {
            return true;
        }
        i += 1;
    }
    proof {
        if v@.contains(x) {
            let j = choose|j: int| 0 <= j < v@.len() && v@[j] == x;
            assert(v@[j] != x);
        }
    }
    false
}

/// Whether an identifier list contains `x`.
pub fn contains_id(v: &Vec<u128>, x: u128) -> (r: bool)
    ensures
        r == v@.contains(x),
{
    let mut i: usize = 0;
    while i < v.len()
        invariant
            i <= v@.len(),
            forall|k: int| 0 <= k < i ==> #[trigger] v@[k] != x,
        decreases v@.len() - i,
    {
        if v[i] == x {
            return true;
        }
        i += 1;
    }
    proof {
        if v@.contains(x) {
            let j = choose|j: int| 0 <= j < v@.len() && v@[j] == x;
            assert(v@[j] != x);
        }
    }
    false
}

} // verus!
