//! The persistence contract: posting tables encoded to and decoded
//! from a self-describing byte stream of (term, identifier list)
//! records.
//!
//! The layout is little-endian and length-prefixed: a record count,
//! then per record the term length, the term's characters as 32-bit
//! code points, the identifier count, and the identifiers as 128-bit
//! values. A malformed stream fails the whole load, leaving the index
//! untouched.

use vstd::prelude::*;
use vstd::bytes::lemma_auto_spec_u32_to_from_le_bytes;
use vstd::bytes::lemma_auto_spec_u64_to_from_le_bytes;
use vstd::bytes::lemma_auto_spec_u128_to_from_le_bytes;
use vstd::bytes::spec_u128_from_le_bytes;
use vstd::bytes::spec_u128_to_le_bytes;
use vstd::bytes::spec_u32_from_le_bytes;
use vstd::bytes::spec_u32_to_le_bytes;
use vstd::bytes::spec_u64_from_le_bytes;
use vstd::bytes::spec_u64_to_le_bytes;
use vstd::bytes::u128_from_le_bytes;
use vstd::bytes::u32_from_le_bytes;
use vstd::bytes::u64_from_le_bytes;
use vstd::slice::slice_subrange;
use vstd::utf8::char_is_scalar;
use vstd::utf8::char_u32_cast;
use vstd::utf8::is_scalar;
use crate::index::IndexError;
use crate::index::Postings;
use crate::index::find_term;

verus! {

/// Relies on char::from_u32: it returns the character with this code
/// point, and `None` exactly for surrogates and values past the
/// largest code point.
pub assume_specification[ char::from_u32 ](u: u32) -> (r: Option<char>)
    ensures
        r is Some <==> is_scalar(u),
        r is Some ==> r->0 as u32 == u,
;

/// The characters of a term from index `i` on, as 32-bit code points.
pub open spec fn enc_chars(t: Seq<char>, i: int) -> Seq<u8>
    decreases t.len() - i,
{
    if 0 <= i < t.len() {
        spec_u32_to_le_bytes(t[i] as u32) + enc_chars(t, i + 1)
    } else {
        Seq::empty()
    }
}

/// The identifiers from index `i` on, as 128-bit values.
pub open spec fn enc_ids(ids: Seq<u128>, i: int) -> Seq<u8>
    decreases ids.len() - i,
{
    if 0 <= i < ids.len() {
        spec_u128_to_le_bytes(ids[i]) + enc_ids(ids, i + 1)
    } else {
        Seq::empty()
    }
}

/// One (term, identifier list) record.
pub open spec fn enc_record(r: (Seq<char>, Seq<u128>)) -> Seq<u8> {
    spec_u64_to_le_bytes(r.0.len() as u64) + enc_chars(r.0, 0) + spec_u64_to_le_bytes(
        r.1.len() as u64,
    ) + enc_ids(r.1, 0)
}

/// The records from index `k` on.
pub open spec fn enc_records(ps: Postings, k: int) -> Seq<u8>
    decreases ps.len() - k,
{
    if 0 <= k < ps.len() {
        enc_record(ps[k]) + enc_records(ps, k + 1)
    } else {
        Seq::empty()
    }
}

/// The whole encoded table: a record count, then the records.
pub open spec fn encode_spec(ps: Postings) -> Seq<u8> {
    spec_u64_to_le_bytes(ps.len() as u64) + enc_records(ps, 0)
}

/// Parse `n` characters from the front of `b`.
pub open spec fn parse_chars(b: Seq<u8>, n: nat) -> Option<(Seq<char>, Seq<u8>)>
    decreases n,
{
    if n == 0 {
        Some((Seq::empty(), b))
    } else if b.len() >= 4 {
        let u = spec_u32_from_le_bytes(b.subrange(0, 4));
        if is_scalar(u) {
            match parse_chars(b.skip(4), (n - 1) as nat) {
                Some(pr) => Some((seq![u as char] + pr.0, pr.1)),
                None => None,
            }
        } else {
            None
        }
    } else {
        None
    }
}

/// Parse `n` identifiers from the front of `b`.
pub open spec fn parse_ids(b: Seq<u8>, n: nat) -> Option<(Seq<u128>, Seq<u8>)>
    decreases n,
{
    if n == 0 {
        Some((Seq::empty(), b))
    } else if b.len() >= 16 {
        let v = spec_u128_from_le_bytes(b.subrange(0, 16));
        match parse_ids(b.skip(16), (n - 1) as nat) {
            Some(pr) => Some((seq![v] + pr.0, pr.1)),
            None => None,
        }
    } else {
        None
    }
}

/// Parse one record from the front of `b`.
pub open spec fn parse_record(b: Seq<u8>) -> Option<((Seq<char>, Seq<u128>), Seq<u8>)> {
    if b.len() >= 8 {
        let n = spec_u64_from_le_bytes(b.subrange(0, 8));
        match parse_chars(b.skip(8), n as nat) {
            Some(pc) => {
                let b2 = pc.1;
                if b2.len() >= 8 {
                    let m = spec_u64_from_le_bytes(b2.subrange(0, 8));
                    match parse_ids(b2.skip(8), m as nat) {
                        Some(pi) => Some(((pc.0, pi.0), pi.1)),
                        None => None,
                    }
                } else {
                    None
                }
            },
            None => None,
        }
    } else {
        None
    }
}

/// Parse `n` records from the front of `b`.
pub open spec fn parse_records(b: Seq<u8>, n: nat) -> Option<(Postings, Seq<u8>)>
    decreases n,
{
    if n == 0 {
        Some((Seq::empty(), b))
    } else {
        match parse_record(b) {
            Some(pr) => match parse_records(pr.1, (n - 1) as nat) {
                Some(prs) => Some((seq![pr.0] + prs.0, prs.1)),
                None => None,
            },
            None => None,
        }
    }
}

/// Decode a whole byte stream; trailing bytes make it malformed.
pub open spec fn decode_spec(b: Seq<u8>) -> Option<Postings> {
    if b.len() >= 8 {
        let n = spec_u64_from_le_bytes(b.subrange(0, 8));
        match parse_records(b.skip(8), n as nat) {
            Some(pr) => if pr.1.len() == 0 {
                Some(pr.0)
            } else {
                None
            },
            None => None,
        }
    } else {
        None
    }
}

/// Store a record: a repeated term replaces the earlier posting list,
/// a new term is appended.
pub open spec fn replace_record(ps: Postings, t: Seq<char>, ids: Seq<u128>) -> Postings {
    let i = find_term(ps, t, 0);
    if i < ps.len() {
        ps.update(i, (t, ids))
    } else {
        ps.push((t, ids))
    }
}

/// Store the decoded records from `k` on, in order, so that the later
/// of two records with one term wins.
pub open spec fn apply_records(ps: Postings, recs: Postings, k: int) -> Postings
    decreases recs.len() - k,
{
    if 0 <= k < recs.len() {
        apply_records(replace_record(ps, recs[k].0, recs[k].1), recs, k + 1)
    } else {
        ps
    }
}

/// Every length in the table fits the length prefixes.
pub open spec fn bounded(ps: Postings) -> bool {
    ps.len() <= u64::MAX && forall|k: int|
        0 <= k < ps.len() ==> (#[trigger] ps[k]).0.len() <= u64::MAX && ps[k].1.len() <= u64::MAX
}

/// No term appears twice in the table.
pub open spec fn unique_terms(ps: Postings) -> bool {
    forall|i: int, j: int| 0 <= i < j < ps.len() ==> (#[trigger] ps[i]).0 != (#[trigger] ps[j]).0
}

proof fn lemma_parse_chars_rt(t: Seq<char>, i: int, rest: Seq<u8>)
    requires
        0 <= i <= t.len(),
    ensures
        parse_chars(enc_chars(t, i) + rest, (t.len() - i) as nat) == Some((t.skip(i), rest)),
    decreases t.len() - i,
{
    lemma_auto_spec_u32_to_from_le_bytes();
    if i == t.len() {
        assert(enc_chars(t, i) + rest =~= rest);
        assert(t.skip(i) =~= Seq::<char>::empty());
    } else {
        let b = enc_chars(t, i) + rest;
        let e = spec_u32_to_le_bytes(t[i] as u32);
        assert(b =~= e + (enc_chars(t, i + 1) + rest));
        assert(b.subrange(0, 4) =~= e);
        assert(spec_u32_from_le_bytes(b.subrange(0, 4)) == t[i] as u32);
        char_is_scalar(t[i]);
        char_u32_cast(t[i], t[i] as u32);
        assert(b.skip(4) =~= enc_chars(t, i + 1) + rest);
        lemma_parse_chars_rt(t, i + 1, rest);
        assert(seq![t[i]] + t.skip(i + 1) =~= t.skip(i));
    }
}

proof fn lemma_parse_ids_rt(ids: Seq<u128>, i: int, rest: Seq<u8>)
    requires
        0 <= i <= ids.len(),
    ensures
        parse_ids(enc_ids(ids, i) + rest, (ids.len() - i) as nat) == Some((ids.skip(i), rest)),
    decreases ids.len() - i,
{
    lemma_auto_spec_u128_to_from_le_bytes();
    if i == ids.len() {
        assert(enc_ids(ids, i) + rest =~= rest);
        assert(ids.skip(i) =~= Seq::<u128>::empty());
    } else {
        let b = enc_ids(ids, i) + rest;
        let e = spec_u128_to_le_bytes(ids[i]);
        assert(b =~= e + (enc_ids(ids, i + 1) + rest));
        assert(b.subrange(0, 16) =~= e);
        assert(b.skip(16) =~= enc_ids(ids, i + 1) + rest);
        lemma_parse_ids_rt(ids, i + 1, rest);
        assert(seq![ids[i]] + ids.skip(i + 1) =~= ids.skip(i));
    }
}

proof fn lemma_parse_record_rt(r: (Seq<char>, Seq<u128>), rest: Seq<u8>)
    requires
        r.0.len() <= u64::MAX,
        r.1.len() <= u64::MAX,
    ensures
        parse_record(enc_record(r) + rest) == Some((r, rest)),
{
    lemma_auto_spec_u64_to_from_le_bytes();
    let b = enc_record(r) + rest;
    let e_n = spec_u64_to_le_bytes(r.0.len() as u64);
    let e_m = spec_u64_to_le_bytes(r.1.len() as u64);
    let tail1 = enc_chars(r.0, 0) + (e_m + (enc_ids(r.1, 0) + rest));
    assert(b =~= e_n + tail1);
    assert(b.subrange(0, 8) =~= e_n);
    assert(spec_u64_from_le_bytes(b.subrange(0, 8)) == r.0.len() as u64);
    assert(b.skip(8) =~= enc_chars(r.0, 0) + (e_m + (enc_ids(r.1, 0) + rest)));
    lemma_parse_chars_rt(r.0, 0, e_m + (enc_ids(r.1, 0) + rest));
    assert(r.0.skip(0) =~= r.0);
    let b2 = e_m + (enc_ids(r.1, 0) + rest);
    assert(b2.subrange(0, 8) =~= e_m);
    assert(spec_u64_from_le_bytes(b2.subrange(0, 8)) == r.1.len() as u64);
    assert(b2.skip(8) =~= enc_ids(r.1, 0) + rest);
    lemma_parse_ids_rt(r.1, 0, rest);
    assert(r.1.skip(0) =~= r.1);
}

proof fn lemma_parse_records_rt(ps: Postings, k: int, rest: Seq<u8>)
    requires
        0 <= k <= ps.len(),
        bounded(ps),
    ensures
        parse_records(enc_records(ps, k) + rest, (ps.len() - k) as nat) == Some(
            (ps.skip(k), rest),
        ),
    decreases ps.len() - k,
{
    if k == ps.len() {
        assert(enc_records(ps, k) + rest =~= rest);
        assert(ps.skip(k) =~= Seq::<(Seq<char>, Seq<u128>)>::empty());
    } else {
        let b = enc_records(ps, k) + rest;
        assert(b =~= enc_record(ps[k]) + (enc_records(ps, k + 1) + rest));
        lemma_parse_record_rt(ps[k], enc_records(ps, k + 1) + rest);
        lemma_parse_records_rt(ps, k + 1, rest);
        assert(seq![ps[k]] + ps.skip(k + 1) =~= ps.skip(k));
    }
}

/// Law: decoding an encoded posting table yields it back exactly, so
/// the terms and the identifier list of every term survive the round
/// trip.
pub proof fn lemma_decode_encode(ps: Postings)
    requires
        bounded(ps),
    ensures
        decode_spec(encode_spec(ps)) == Some(ps),
{
    lemma_auto_spec_u64_to_from_le_bytes();
    let b = encode_spec(ps);
    let e_n = spec_u64_to_le_bytes(ps.len() as u64);
    assert(b.subrange(0, 8) =~= e_n);
    assert(b.skip(8) =~= enc_records(ps, 0) + Seq::<u8>::empty());
    lemma_parse_records_rt(ps, 0, Seq::empty());
    assert(ps.skip(0) =~= ps);
}

/// Law: loading a table's records into an empty index reproduces the
/// table, record for record, when no term repeats.
pub proof fn lemma_apply_identity(ps: Postings)
    requires
        unique_terms(ps),
    ensures
        apply_records(Seq::empty(), ps, 0) == ps,
{
    lemma_apply_prefix(ps, 0);
    assert(ps.take(0) =~= Seq::<(Seq<char>, Seq<u128>)>::empty());
    assert(ps.take(ps.len() as int) =~= ps);
}


/// Law: loading what an index serialized into a fresh index
/// reproduces the posting table: the same terms with the same
/// identifier lists, record for record.
pub proof fn lemma_serialize_round_trip(ps: Postings)
    requires
        bounded(ps),
        unique_terms(ps),
    ensures
        decode_spec(encode_spec(ps)) matches Some(recs) && apply_records(Seq::empty(), recs, 0)
            == ps,
{
    lemma_decode_encode(ps);
    lemma_apply_identity(ps);
}

/// Finding a term absent from a table runs past its end.
proof fn lemma_find_term_absent(ps: Postings, t: Seq<char>, i: int)
    requires
        0 <= i <= ps.len(),
        forall|j: int| 0 <= j < ps.len() ==> (#[trigger] ps[j]).0 != t,
    ensures
        find_term(ps, t, i) == ps.len(),
    decreases ps.len() - i,
{
    if i < ps.len() {
        lemma_find_term_absent(ps, t, i + 1);
    }
}

/// Applying the records of a unique-term table extends the prefix
/// already applied.
proof fn lemma_apply_prefix(ps: Postings, k: int)
    requires
        unique_terms(ps),
        0 <= k <= ps.len(),
    ensures
        apply_records(ps.take(k), ps, k) == ps.take(ps.len() as int),
    decreases ps.len() - k,
{
    if k < ps.len() {
        let acc = ps.take(k);
        assert forall|j: int| 0 <= j < acc.len() implies (#[trigger] acc[j]).0 != ps[k].0 by {
            assert(acc[j] == ps[j]);
        }
        lemma_find_term_absent(acc, ps[k].0, 0);
        assert(replace_record(acc, ps[k].0, ps[k].1) =~= ps.take(k + 1));
        lemma_apply_prefix(ps, k + 1);
    }
}


/// The table a parsed record vector denotes.
pub open spec fn recs_view(v: Seq<(Vec<char>, Vec<u128>)>) -> Postings {
    Seq::new(v.len(), |i: int| (v[i].0@, v[i].1@))
}

/// Parse `n` characters at `pos`.
fn parse_chars_at(src: &[u8], pos: usize, n: u64) -> (r: Option<(Vec<char>, usize)>)
    requires
        pos <= src@.len(),
    ensures
        match parse_chars(src@.skip(pos as int), n as nat) {
            Some(pr) => r matches Some(v) && v.0@ == pr.0 && pos <= v.1 <= src@.len()
                && src@.skip(v.1 as int) == pr.1,
            None => r is None,
        },
    decreases n,
{
    let len = src.len();
    if n == 0 {
        return Some((Vec::new(), pos));
    }
    if len - pos < 4 {
        return None;
    }
    proof {
        assert(src@.skip(pos as int).subrange(0, 4) =~= src@.subrange(pos as int, pos + 4));
        assert(src@.skip(pos as int).skip(4) =~= src@.skip(pos + 4));
    }
    let u = u32_from_le_bytes(slice_subrange(src, pos, pos + 4));
    match char::from_u32(u) {
        Option::Some(c) => {
            proof {
                char_u32_cast(c, u);
            }
            match parse_chars_at(src, pos + 4, n - 1) {
                Option::Some((mut v, p2)) => {
                    v.insert(0, c);
                    proof {
                        let pr = parse_chars(src@.skip(pos + 4), (n - 1) as nat).unwrap();
                        assert(v@ =~= seq![c] + pr.0);
                    }
                    Some((v, p2))
                },
                Option::None => None,
            }
        },
        Option::None => None,
    }
}

/// Parse `n` identifiers at `pos`.
fn parse_ids_at(src: &[u8], pos: usize, n: u64) -> (r: Option<(Vec<u128>, usize)>)
    requires
        pos <= src@.len(),
    ensures
        match parse_ids(src@.skip(pos as int), n as nat) {
            Some(pr) => r matches Some(v) && v.0@ == pr.0 && pos <= v.1 <= src@.len()
                && src@.skip(v.1 as int) == pr.1,
            None => r is None,
        },
    decreases n,
{
    let len = src.len();
    if n == 0 {
        return Some((Vec::new(), pos));
    }
    if len - pos < 16 {
        return None;
    }
    proof {
        assert(src@.skip(pos as int).subrange(0, 16) =~= src@.subrange(pos as int, pos + 16));
        assert(src@.skip(pos as int).skip(16) =~= src@.skip(pos + 16));
    }
    let x = u128_from_le_bytes(slice_subrange(src, pos, pos + 16));
    match parse_ids_at(src, pos + 16, n - 1) {
        Option::Some((mut v, p2)) => {
            v.insert(0, x);
            proof {
                let pr = parse_ids(src@.skip(pos + 16), (n - 1) as nat).unwrap();
                assert(v@ =~= seq![x] + pr.0);
            }
            Some((v, p2))
        },
        Option::None => None,
    }
}

/// Parse one record at `pos`.
fn parse_record_at(src: &[u8], pos: usize) -> (r: Option<((Vec<char>, Vec<u128>), usize)>)
    requires
        pos <= src@.len(),
    ensures
        match parse_record(src@.skip(pos as int)) {
            Some(pr) => r matches Some(v) && (v.0.0@, v.0.1@) == pr.0 && pos <= v.1 <= src@.len()
                && src@.skip(v.1 as int) == pr.1,
            None => r is None,
        },
{
    let len = src.len();
    if len - pos < 8 {
        return None;
    }
    proof {
        assert(src@.skip(pos as int).subrange(0, 8) =~= src@.subrange(pos as int, pos + 8));
        assert(src@.skip(pos as int).skip(8) =~= src@.skip(pos + 8));
    }
    let n = u64_from_le_bytes(slice_subrange(src, pos, pos + 8));
    match parse_chars_at(src, pos + 8, n) {
        Option::Some((term, p2)) => {
            if len - p2 < 8 {
                return None;
            }
            proof {
                assert(src@.skip(p2 as int).subrange(0, 8) =~= src@.subrange(p2 as int, p2 + 8));
                assert(src@.skip(p2 as int).skip(8) =~= src@.skip(p2 + 8));
            }
            let m = u64_from_le_bytes(slice_subrange(src, p2, p2 + 8));
            match parse_ids_at(src, p2 + 8, m) {
                Option::Some((ids, p3)) => Some(((term, ids), p3)),
                Option::None => None,
            }
        },
        Option::None => None,
    }
}

/// Parse `n` records at `pos`.
fn parse_records_at(src: &[u8], pos: usize, n: u64) -> (r: Option<
    (Vec<(Vec<char>, Vec<u128>)>, usize),
>)
    requires
        pos <= src@.len(),
    ensures
        match parse_records(src@.skip(pos as int), n as nat) {
            Some(pr) => r matches Some(v) && recs_view(v.0@) == pr.0 && pos <= v.1 <= src@.len()
                && src@.skip(v.1 as int) == pr.1,
            None => r is None,
        },
    decreases n,
{
    if n == 0 {
        let v: Vec<(Vec<char>, Vec<u128>)> = Vec::new();
        proof {
            assert(recs_view(v@) =~= Seq::<(Seq<char>, Seq<u128>)>::empty());
        }
        return Some((v, pos));
    }
    match parse_record_at(src, pos) {
        Option::Some((rec, p2)) => {
            match parse_records_at(src, p2, n - 1) {
                Option::Some((mut v, p3)) => {
                    proof {
                        let pr0 = parse_record(src@.skip(pos as int)).unwrap();
                        let prs = parse_records(src@.skip(p2 as int), (n - 1) as nat).unwrap();
                        assert(recs_view(v@) == prs.0);
                    }
                    let ghost before = v@;
                    v.insert(0, rec);
                    proof {
                        let pr0 = parse_record(src@.skip(pos as int)).unwrap();
                        let prs = parse_records(src@.skip(p2 as int), (n - 1) as nat).unwrap();
                        assert(v@ =~= seq![rec] + before);
                        assert(recs_view(v@) =~= seq![pr0.0] + prs.0);
                    }
                    Some((v, p3))
                },
                Option::None => None,
            }
        },
        Option::None => None,
    }
}

/// Decode a whole byte stream into records; `None` when malformed.
pub fn decode_exec(src: &[u8]) -> (r: Option<Vec<(Vec<char>, Vec<u128>)>>)
    ensures
        match decode_spec(src@) {
            Some(recs) => r matches Some(v) && recs_view(v@) == recs,
            None => r is None,
        },
{
    let len = src.len();
    if len < 8 {
        return None;
    }
    let n = u64_from_le_bytes(slice_subrange(src, 0, 8));
    proof {
        assert(src@.skip(0) =~= src@);
    }
    match parse_records_at(src, 8, n) {
        Option::Some((v, p)) => {
            if p == len {
                proof {
                    let pr = parse_records(src@.skip(8), n as nat).unwrap();
                    assert(pr.1.len() == 0);
                }
                Some(v)
            } else {
                proof {
                    let pr = parse_records(src@.skip(8), n as nat).unwrap();
                    assert(pr.1.len() == src@.len() - p);
                }
                None
            }
        },
        Option::None => None,
    }
}



/// Applying records from `k` is applying the suffix from its start.
pub proof fn lemma_apply_skip(ps: Postings, recs: Postings, k: int)
    requires
        0 <= k <= recs.len(),
    ensures
        apply_records(ps, recs, k) == apply_records(ps, recs.skip(k), 0),
    decreases recs.len() - k,
{
    if k < recs.len() {
        let p2 = replace_record(ps, recs[k].0, recs[k].1);
        lemma_apply_skip(p2, recs, k + 1);
        assert(recs.skip(k)[0] == recs[k]);
        assert(recs.skip(k).skip(1) =~= recs.skip(k + 1));
        lemma_apply_skip(p2, recs.skip(k), 1);
    } else {
        assert(recs.skip(k).len() == 0);
    }
}

/// Bulk persistence of an index's posting table against a byte
/// stream.
pub trait DiskStorage: crate::index::Index {
    /// Encode the posting table into a self-describing byte stream.
    fn serialize(&self) -> (r: Result<Vec<u8>, IndexError>)
        ensures
            r matches Ok(b) && b@ == encode_spec(self.postings()),
    ;

    /// Decode a byte stream and merge its records into the in-memory
    /// table, the later of two records with one term winning. A
    /// malformed stream fails the whole load and leaves the table
    /// untouched.
    fn deserialize(&mut self, src: &[u8]) -> (r: Result<(), IndexError>)
        ensures
            match decode_spec(src@) {
                Some(recs) => r is Ok && final(self).postings() == apply_records(
                    old(self).postings(),
                    recs,
                    0,
                ),
                None => r == Err::<(), IndexError>(IndexError::Malformed)
                    && final(self).postings() == old(self).postings(),
            },
    ;
}

} // verus!
