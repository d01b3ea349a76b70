//! The inverted index engine: term postings, free-text search with
//! exact, substring and typo-tolerant matching, and document writes.

use vstd::prelude::*;
use crate::item::Item;
use crate::item::FlatPair;
use crate::item::item_flat;
use crate::strcase::fold;
use crate::strcmp::contains_sub;
use crate::strcmp::strcmp_part_simd;
use crate::strcmp::strcmp_simd;
use crate::strdiff::typo_count;
use crate::strdiff::typo_dist;
use crate::terms::contains_id;
use crate::terms::dedup;
use crate::terms::dedup_ids;
use crate::terms::dedup_terms;
use crate::terms::tokenize;
use crate::terms::tokens;
use crate::text::chars_of;
use crate::strcase::to_lower_chars;
use crate::traits::Initialise;
use crate::storage::enc_records;
use crate::storage::enc_chars;
use crate::storage::enc_ids;
use crate::storage::enc_record;
use vstd::bytes::u32_to_le_bytes;
use vstd::bytes::u64_to_le_bytes;
use vstd::bytes::u128_to_le_bytes;

verus! {

/// An index failure. Pure in-memory search and write cannot fail; the
/// fallible result type keeps them polymorphic with persistence-backed
/// variants. `Malformed` reports a corrupt persisted stream.
#[derive(Clone, Copy, Debug, PartialEq, Eq, Structural)]
pub enum IndexError {
    Malformed,
}

/// A posting table: (term, identifier list) records in insertion
/// order.
pub type Postings = Seq<(Seq<char>, Seq<u128>)>;

/// One query term matches one indexed term: exactly, as a contiguous
/// substring of it, or with typographic distance strictly under a
/// quarter of the query term's length.
pub open spec fn term_matches(q: Seq<char>, t: Seq<char>) -> bool {
    q == t || contains_sub(q, t) || typo_dist(q, t) < q.len() / 4
}

/// Identifiers contributed for query term `q` by the indexed entries
/// from `i` on: every matching entry contributes its whole posting
/// list, in index order.
pub open spec fn candidates_for(postings: Postings, q: Seq<char>, i: int) -> Seq<u128>
    decreases postings.len() - i,
{
    if 0 <= i < postings.len() {
        (if term_matches(q, postings[i].0) {
            postings[i].1
        } else {
            Seq::empty()
        }) + candidates_for(postings, q, i + 1)
    } else {
        Seq::empty()
    }
}

/// Identifiers contributed by the query terms from `k` on, in query
/// order.
pub open spec fn candidates(postings: Postings, qs: Seq<Seq<char>>, k: int) -> Seq<u128>
    decreases qs.len() - k,
{
    if 0 <= k < qs.len() {
        candidates_for(postings, qs[k], 0) + candidates(postings, qs, k + 1)
    } else {
        Seq::empty()
    }
}

/// The terms of a query: lowercased, split on whitespace,
/// deduplicated.
pub open spec fn query_terms(query: Seq<char>) -> Seq<Seq<char>> {
    dedup(tokens(fold(query)))
}

/// What a search returns: the first-seen deduplicated union of the
/// posting lists of every indexed term matching any query term.
pub open spec fn search_spec(postings: Postings, query: Seq<char>) -> Seq<u128> {
    dedup(candidates(postings, query_terms(query), 0))
}

/// The first index whose term is `t`, searching from `i`; the table
/// length when absent.
pub open spec fn find_term(postings: Postings, t: Seq<char>, i: int) -> int
    decreases postings.len() - i,
{
    if 0 <= i < postings.len() {
        if postings[i].0 == t {
            i
        } else {
            find_term(postings, t, i + 1)
        }
    } else {
        postings.len() as int
    }
}

/// Append `id` to the posting list of `t`, unless already present;
/// a new term is appended at the end of the table.
pub open spec fn post_insert(postings: Postings, t: Seq<char>, id: u128) -> Postings {
    let i = find_term(postings, t, 0);
    if i < postings.len() {
        if postings[i].1.contains(id) {
            postings
        } else {
            postings.update(i, (t, postings[i].1.push(id)))
        }
    } else {
        postings.push((t, seq![id]))
    }
}

/// Index `id` under the terms from `k` on.
pub open spec fn write_terms(postings: Postings, id: u128, ts: Seq<Seq<char>>, k: int) -> Postings
    decreases ts.len() - k,
{
    if 0 <= k < ts.len() {
        write_terms(post_insert(postings, ts[k], id), id, ts, k + 1)
    } else {
        postings
    }
}

/// The terms of one leaf value: lowercased, split, deduplicated.
pub open spec fn value_terms(value: Seq<char>) -> Seq<Seq<char>> {
    dedup(tokens(fold(value)))
}

/// Index `id` under the terms of the flattened pairs from `k` on.
pub open spec fn write_pairs(postings: Postings, id: u128, pairs: Seq<FlatPair>, k: int) -> Postings
    decreases pairs.len() - k,
{
    if 0 <= k < pairs.len() {
        write_pairs(write_terms(postings, id, value_terms(pairs[k].1), 0), id, pairs, k + 1)
    } else {
        postings
    }
}

/// What a write produces: the table after indexing `id` under every
/// term extracted from the document's flattening.
pub open spec fn write_spec(postings: Postings, id: u128, pairs: Seq<FlatPair>) -> Postings {
    write_pairs(postings, id, pairs, 0)
}

/// Processing pairs from `k` is processing the suffix from its start.
pub proof fn lemma_write_pairs_skip(postings: Postings, id: u128, pairs: Seq<FlatPair>, k: int)
    requires
        0 <= k <= pairs.len(),
    ensures
        write_pairs(postings, id, pairs, k) == write_pairs(postings, id, pairs.skip(k), 0),
    decreases pairs.len() - k,
{
    if k < pairs.len() {
        let p2 = write_terms(postings, id, value_terms(pairs[k].1), 0);
        lemma_write_pairs_skip(p2, id, pairs, k + 1);
        assert(pairs.skip(k)[0] == pairs[k]);
        assert(pairs.skip(k).skip(1) =~= pairs.skip(k + 1));
        lemma_write_pairs_skip(p2, id, pairs.skip(k), 1);
    } else {
        assert(pairs.skip(k).len() == 0);
    }
}

/// An index storing each term's identifier postings, searched by
/// content.
pub struct WeightedInvertedIndex {
    entries: Vec<(Vec<char>, Vec<u128>)>,
}

impl WeightedInvertedIndex {
    /// The posting table this index holds.
    pub closed spec fn postings(self) -> Postings {
        Seq::new(self.entries@.len(), |i: int| (self.entries@[i].0@, self.entries@[i].1@))
    }

    /// Append `id` to the posting list of term `t`, unless already
    /// present; a new term starts a new posting list at the end.
    fn insert_posting(&mut self, t: &Vec<char>, id: u128)
        ensures
            final(self).postings() == post_insert(old(self).postings(), t@, id),
    {
        let ghost ps = self.postings();
        let mut i: usize = 0;
        while i < self.entries.len()
            invariant
                i <= self.entries@.len(),
                ps == self.postings(),
                ps == old(self).postings(),
                ps.len() == self.entries@.len(),
                forall|j: int|
                    0 <= j < ps.len() ==> #[trigger] ps[j] == (self.entries@[j].0@,
                    self.entries@[j].1@),
                find_term(ps, t@, 0) == find_term(ps, t@, i as int),
                forall|j: int| 0 <= j < i ==> (#[trigger] ps[j]).0 != t@,
            decreases self.entries@.len() - i,
        {
            let hit = crate::strcmp::strcmp_base(self.entries[i].0.as_slice(), t.as_slice());
            if hit {
                proof {
                    assert(find_term(ps, t@, i as int) == i);
                }
                let present = contains_id(&self.entries[i].1, id);
                if !present {
                    let pair = self.entries.remove(i);
                    let term = pair.0;
                    let mut ids = pair.1;
                    ids.push(id);
                    self.entries.insert(i, (term, ids));
                    proof {
                        assert(self.postings() =~= ps.update(
                            i as int,
                            (t@, ps[i as int].1.push(id)),
                        ));
                    }
                }
                return ;
            }
            i += 1;
        }
        proof {
            assert(find_term(ps, t@, self.entries@.len() as int) == ps.len());
        }
        let term = crate::terms::copy_chars(t);
        let mut ids: Vec<u128> = Vec::new();
        ids.push(id);
        self.entries.push((term, ids));
        proof {
            assert(ids@ =~= seq![id]);
            assert(self.postings() =~= ps.push((t@, seq![id])));
        }
    }

    /// Index `id` under every term of one leaf value.
    fn write_value(&mut self, id: u128, value: &String)
        ensures
            final(self).postings() == write_terms(
                old(self).postings(),
                id,
                value_terms(value@),
                0,
            ),
    {
        let vchars = chars_of(value.as_str());
        let lowered = to_lower_chars(&vchars);
        let toks = tokenize(&lowered);
        let ts = dedup_terms(&toks);
        let ghost tsd = ts.deep_view();
        let ghost p0 = self.postings();
        proof {
            assert(tsd == value_terms(value@));
        }
        let mut k: usize = 0;
        while k < ts.len()
            invariant
                k <= ts@.len(),
                tsd == ts.deep_view(),
                tsd.len() == ts@.len(),
                write_terms(p0, id, tsd, 0) == write_terms(self.postings(), id, tsd, k as int),
            decreases ts@.len() - k,
        {
            proof {
                assert(ts.deep_view()[k as int] =~= ts@[k as int]@);
            }
            self.insert_posting(&ts[k], id);
            k += 1;
        }
    }
}

/// An index stores items and retrieves their identifiers by content.
pub trait Index: Initialise {
    /// The posting table this index holds.
    spec fn postings(&self) -> Postings;

    /// Search for the identifiers of all items matching the query.
    fn search(&self, query: &String) -> (r: Result<Vec<u128>, IndexError>)
        ensures
            r matches Ok(ids) && ids@ == search_spec(self.postings(), query@),
    ;

    /// Write an item to the index under `id`.
    fn write(&mut self, id: &u128, item: &Item) -> (r: Result<(), IndexError>)
        ensures
            r is Ok,
            final(self).postings() == write_spec(old(self).postings(), *id, item_flat(*item)),
    ;
}

impl Initialise for WeightedInvertedIndex {
    open spec fn init_ok(&self) -> bool
        decreases self, 0int,
    {
        WeightedInvertedIndex::postings(*self) == Seq::<(Seq<char>, Seq<u128>)>::empty()
    }

    fn new() -> (s: Self) {
        let s = WeightedInvertedIndex { entries: Vec::new() };
        proof {
            assert(s.postings() =~= Seq::<(Seq<char>, Seq<u128>)>::empty());
        }
        s
    }
}

impl Index for WeightedInvertedIndex {
    open spec fn postings(&self) -> Postings
        decreases self,
    {
        WeightedInvertedIndex::postings(*self)
    }

    /// Evaluate every (query term, indexed term) pair and union the
    /// posting lists of the matches, deduplicated in first-seen order.
    fn search(&self, query: &String) -> (r: Result<Vec<u128>, IndexError>) {
        let qchars = chars_of(query.as_str());
        let lowered = to_lower_chars(&qchars);
        let toks = tokenize(&lowered);
        let qs = dedup_terms(&toks);
        let ghost qsd = qs.deep_view();
        let ghost ps = WeightedInvertedIndex::postings(*self);
        proof {
            assert(qsd == query_terms(query@));
        }
        let mut cands: Vec<u128> = Vec::new();
        let mut k: usize = 0;
        while k < qs.len()
            invariant
                k <= qs@.len(),
                qsd == qs.deep_view(),
                qsd.len() == qs@.len(),
                ps == WeightedInvertedIndex::postings(*self),
                ps.len() == self.entries@.len(),
                cands@ + candidates(ps, qsd, k as int) == candidates(ps, qsd, 0),
            decreases qs@.len() - k,
        {
            proof {
                assert(qs.deep_view()[k as int] =~= qs@[k as int]@);
            }
            let ghost qq = qsd[k as int];
            let ghost base = cands@;
            let mut i: usize = 0;
            while i < self.entries.len()
                invariant
                    i <= self.entries@.len(),
                    k < qsd.len(),
                    k < qs@.len(),
                    qq == qsd[k as int],
                    qq == qs@[k as int]@,
                    ps == WeightedInvertedIndex::postings(*self),
                    ps.len() == self.entries@.len(),
                    forall|j: int|
                        0 <= j < ps.len() ==> #[trigger] ps[j] == (self.entries@[j].0@,
                        self.entries@[j].1@),
                    cands@ + candidates_for(ps, qq, i as int) == base + candidates_for(ps, qq, 0),
                decreases self.entries@.len() - i,
            {
                let q = &qs[k];
                let m_exact = strcmp_simd(q.as_slice(), self.entries[i].0.as_slice());
                let m_part = strcmp_part_simd(q.as_slice(), self.entries[i].0.as_slice());
                let m = if m_exact || m_part {
                    true
                } else {
                    let d = typo_count(q, &self.entries[i].0);
                    d < q.len() / 4
                };
                proof {
                    let ghost ei = self.entries@[i as int];
                    assert(ps[i as int] == (ei.0@, ei.1@));
                    assert(m == term_matches(qq, ps[i as int].0));
                    assert(candidates_for(ps, qq, i as int) == (if term_matches(
                        qq,
                        ps[i as int].0,
                    ) {
                        ps[i as int].1
                    } else {
                        Seq::empty()
                    }) + candidates_for(ps, qq, i + 1));
                }
                if m {
                    let ghost before = cands@;
                    let src_len = self.entries[i].1.len();
                    let mut j: usize = 0;
                    while j < src_len
                        invariant
                            j <= src_len,
                            i < self.entries@.len(),
                            src_len == self.entries@[i as int].1@.len(),
                            cands@ == before + self.entries@[i as int].1@.take(j as int),
                        decreases src_len - j,
                    {
                        let v = self.entries[i].1[j];
                        cands.push(v);
                        proof {
                            assert(cands@ =~= before + self.entries@[i as int].1@.take(j + 1));
                        }
                        j += 1;
                    }
                    proof {
                        assert(self.entries@[i as int].1@.take(src_len as int)
                            =~= self.entries@[i as int].1@);
                        assert((before + ps[i as int].1) + candidates_for(ps, qq, i + 1) =~= before
                            + (ps[i as int].1 + candidates_for(ps, qq, i + 1)));
                    }
                } else {
                    proof {
                        assert(Seq::<u128>::empty() + candidates_for(ps, qq, i + 1)
                            =~= candidates_for(ps, qq, i + 1));
                    }
                }
                i += 1;
            }
            proof {
                assert(candidates_for(ps, qq, ps.len() as int) =~= Seq::<u128>::empty());
                assert(cands@ + Seq::<u128>::empty() =~= cands@);
                assert(cands@ == base + candidates_for(ps, qq, 0));
                assert(candidates(ps, qsd, k as int) == candidates_for(ps, qq, 0) + candidates(
                    ps,
                    qsd,
                    k + 1,
                ));
                assert((base + candidates_for(ps, qq, 0)) + candidates(ps, qsd, k + 1) =~= base + (
                candidates_for(ps, qq, 0) + candidates(ps, qsd, k + 1)));
            }
            k += 1;
        }
        proof {
            assert(candidates(ps, qsd, qsd.len() as int) =~= Seq::<u128>::empty());
            assert(cands@ + Seq::<u128>::empty() =~= cands@);
        }
        let ids = dedup_ids(&cands);
        Ok(ids)
    }

    /// Flatten the item and index `id` under every extracted term.
    fn write(&mut self, id: &u128, item: &Item) -> (r: Result<(), IndexError>) {
        let idv = *id;
        let ghost p0 = WeightedInvertedIndex::postings(*old(self));
        let ghost pairs = item_flat(*item);
        let mut it = item.iter();
        proof {
            assert(pairs.skip(0) =~= pairs);
            lemma_write_pairs_skip(p0, idv, pairs, 0);
        }
        loop
            invariant
                idv == *id,
                p0 == WeightedInvertedIndex::postings(*old(self)),
                pairs == item_flat(*item),
                it.remaining().len() <= pairs.len(),
                exists|k: int|
                    0 <= k <= pairs.len() && #[trigger] pairs.skip(k) == it.remaining(),
                write_spec(p0, idv, pairs) == write_pairs(
                    WeightedInvertedIndex::postings(*self),
                    idv,
                    it.remaining(),
                    0,
                ),
            decreases it.remaining().len(),
        {
            let ghost rem = it.remaining();
            let nxt = it.get();
            match nxt {
                Option::None => {
                    proof {
                        assert(write_pairs(
                            WeightedInvertedIndex::postings(*self),
                            idv,
                            rem,
                            0,
                        ) == WeightedInvertedIndex::postings(*self));
                    }
                    return Ok(());
                },
                Option::Some(pair) => {
                    let ghost pprev = WeightedInvertedIndex::postings(*self);
                    proof {
                        assert(rem[0].1 == pair.1@);
                        assert(write_pairs(pprev, idv, rem, 0) == write_pairs(
                            write_terms(pprev, idv, value_terms(rem[0].1), 0),
                            idv,
                            rem,
                            1,
                        ));
                        lemma_write_pairs_skip(
                            write_terms(pprev, idv, value_terms(rem[0].1), 0),
                            idv,
                            rem,
                            1,
                        );
                        assert(rem.skip(1) =~= rem.drop_first());
                        let k0 = choose|k: int|
                            0 <= k <= pairs.len() && #[trigger] pairs.skip(k) == rem;
                        assert(pairs.skip(k0 + 1) =~= rem.drop_first());
                    }
                    self.write_value(idv, &pair.1);
                },
            }
        }
    }
}


/// Append the bytes of `src` to `dst`.
fn push_bytes(dst: &mut Vec<u8>, src: &Vec<u8>)
    ensures
        final(dst)@ == old(dst)@ + src@,
{
    let mut i: usize = 0;
    while i < src.len()
        invariant
            i <= src@.len(),
            dst@ == old(dst)@ + src@.take(i as int),
        decreases src@.len() - i,
    {
        dst.push(src[i]);
        proof {
            assert(dst@ =~= old(dst)@ + src@.take(i + 1));
        }
        i += 1;
    }
    proof {
        assert(old(dst)@ + src@.take(src@.len() as int) =~= old(dst)@ + src@);
    }
}

impl WeightedInvertedIndex {
    /// Store one decoded record: replace the posting list of an
    /// existing term, or append a new term.
    fn replace_posting(&mut self, t: Vec<char>, ids: Vec<u128>)
        ensures
            final(self).postings() == crate::storage::replace_record(
                old(self).postings(),
                t@,
                ids@,
            ),
    {
        let ghost ps = WeightedInvertedIndex::postings(*self);
        let mut i: usize = 0;
        while i < self.entries.len()
            invariant
                i <= self.entries@.len(),
                ps == WeightedInvertedIndex::postings(*self),
                ps == WeightedInvertedIndex::postings(*old(self)),
                ps.len() == self.entries@.len(),
                forall|j: int|
                    0 <= j < ps.len() ==> #[trigger] ps[j] == (self.entries@[j].0@,
                    self.entries@[j].1@),
                find_term(ps, t@, 0) == find_term(ps, t@, i as int),
                forall|j: int| 0 <= j < i ==> (#[trigger] ps[j]).0 != t@,
            decreases self.entries@.len() - i,
        {
            let hit = crate::strcmp::strcmp_base(self.entries[i].0.as_slice(), t.as_slice());
            if hit {
                proof {
                    assert(find_term(ps, t@, i as int) == i);
                }
                let _prev = self.entries.remove(i);
                self.entries.insert(i, (t, ids));
                proof {
                    assert(WeightedInvertedIndex::postings(*self) =~= ps.update(
                        i as int,
                        (t@, ids@),
                    ));
                }
                return ;
            }
            i += 1;
        }
        proof {
            assert(find_term(ps, t@, self.entries@.len() as int) == ps.len());
        }
        self.entries.push((t, ids));
        proof {
            assert(WeightedInvertedIndex::postings(*self) =~= ps.push((t@, ids@)));
        }
    }
}

impl crate::storage::DiskStorage for WeightedInvertedIndex {
    /// Encode the posting table, record by record.
    #[verifier::rlimit(60)]
    fn serialize(&self) -> (r: Result<Vec<u8>, IndexError>) {
        let ghost ps = WeightedInvertedIndex::postings(*self);
        let mut out = u64_to_le_bytes(self.entries.len() as u64);
        proof {
            assert(out@ + enc_records(ps, 0) =~= crate::storage::encode_spec(ps));
        }
        let mut k: usize = 0;
        while k < self.entries.len()
            invariant
                k <= self.entries@.len(),
                ps == WeightedInvertedIndex::postings(*self),
                ps.len() == self.entries@.len(),
                forall|j: int|
                    0 <= j < ps.len() ==> #[trigger] ps[j] == (self.entries@[j].0@,
                    self.entries@[j].1@),
                out@ + enc_records(ps, k as int) == crate::storage::encode_spec(ps),
            decreases self.entries@.len() - k,
        {
            let ghost rec = ps[k as int];
            let ghost out0 = out@;
            let nb = u64_to_le_bytes(self.entries[k].0.len() as u64);
            push_bytes(&mut out, &nb);
            let ghost out1 = out@;
            proof {
                assert(out@ + enc_chars(rec.0, 0) =~= out1 + enc_chars(rec.0, 0));
            }
            let mut i: usize = 0;
            while i < self.entries[k].0.len()
                invariant
                    k < self.entries@.len(),
                    i <= self.entries@[k as int].0@.len(),
                    rec == (self.entries@[k as int].0@, self.entries@[k as int].1@),
                    out@ + enc_chars(rec.0, i as int) == out1 + enc_chars(rec.0, 0),
                decreases self.entries@[k as int].0@.len() - i,
            {
                let cb = u32_to_le_bytes(self.entries[k].0[i] as u32);
                let ghost before = out@;
                push_bytes(&mut out, &cb);
                proof {
                    assert(out@ + enc_chars(rec.0, i + 1) =~= before + (cb@ + enc_chars(
                        rec.0,
                        i + 1,
                    )));
                    assert(cb@ + enc_chars(rec.0, i + 1) == enc_chars(rec.0, i as int));
                }
                i += 1;
            }
            proof {
                assert(enc_chars(rec.0, rec.0.len() as int) =~= Seq::<u8>::empty());
                assert(out@ + Seq::<u8>::empty() =~= out@);
            }
            let mb = u64_to_le_bytes(self.entries[k].1.len() as u64);
            push_bytes(&mut out, &mb);
            let ghost out2 = out@;
            let mut i2: usize = 0;
            while i2 < self.entries[k].1.len()
                invariant
                    k < self.entries@.len(),
                    i2 <= self.entries@[k as int].1@.len(),
                    rec == (self.entries@[k as int].0@, self.entries@[k as int].1@),
                    out@ + enc_ids(rec.1, i2 as int) == out2 + enc_ids(rec.1, 0),
                decreases self.entries@[k as int].1@.len() - i2,
            {
                let ib = u128_to_le_bytes(self.entries[k].1[i2]);
                let ghost before = out@;
                push_bytes(&mut out, &ib);
                proof {
                    assert(out@ + enc_ids(rec.1, i2 + 1) =~= before + (ib@ + enc_ids(
                        rec.1,
                        i2 + 1,
                    )));
                    assert(ib@ + enc_ids(rec.1, i2 + 1) == enc_ids(rec.1, i2 as int));
                }
                i2 += 1;
            }
            proof {
                assert(enc_ids(rec.1, rec.1.len() as int) =~= Seq::<u8>::empty());
                assert(out@ + Seq::<u8>::empty() =~= out@);
                assert(out@ =~= out0 + enc_record(rec));
                assert(enc_record(rec) + enc_records(ps, k + 1) == enc_records(ps, k as int));
                assert((out0 + enc_record(rec)) + enc_records(ps, k + 1) =~= out0 + (enc_record(
                    rec,
                ) + enc_records(ps, k + 1)));
            }
            k += 1;
        }
        proof {
            assert(enc_records(ps, ps.len() as int) =~= Seq::<u8>::empty());
            assert(out@ + Seq::<u8>::empty() =~= out@);
        }
        Ok(out)
    }

    /// Decode the stream, and only on full success store its records,
    /// so a malformed stream leaves the table untouched.
    fn deserialize(&mut self, src: &[u8]) -> (r: Result<(), IndexError>) {
        let decoded = crate::storage::decode_exec(src);
        match decoded {
            Option::Some(recs) => {
                let ghost recsd = crate::storage::recs_view(recs@);
                let ghost p0 = WeightedInvertedIndex::postings(*self);
                let mut work = recs;
                proof {
                    crate::storage::lemma_apply_skip(p0, recsd, 0);
                    assert(recsd.skip(0) =~= recsd);
                }
                while work.len() > 0
                    invariant
                        crate::storage::apply_records(p0, recsd, 0)
                            == crate::storage::apply_records(
                            WeightedInvertedIndex::postings(*self),
                            crate::storage::recs_view(work@),
                            0,
                        ),
                        p0 == WeightedInvertedIndex::postings(*old(self)),
                    decreases work@.len(),
                {
                    let ghost rv = crate::storage::recs_view(work@);
                    let ghost pcur = WeightedInvertedIndex::postings(*self);
                    let pair = work.remove(0);
                    proof {
                        assert(rv[0] == (pair.0@, pair.1@));
                        assert(crate::storage::recs_view(work@) =~= rv.skip(1));
                        crate::storage::lemma_apply_skip(
                            crate::storage::replace_record(pcur, rv[0].0, rv[0].1),
                            rv,
                            1,
                        );
                    }
                    self.replace_posting(pair.0, pair.1);
                }
                proof {
                    assert(crate::storage::recs_view(work@).len() == 0);
                }
                Ok(())
            },
            Option::None => Err(IndexError::Malformed),
        }
    }
}

/// Law-support: the posting table of any in-memory index respects
/// the machine limits of the persistence format: every length fits
/// its 64-bit length prefix.
pub proof fn lemma_postings_bounded(idx: &WeightedInvertedIndex)
    ensures
        crate::storage::bounded(WeightedInvertedIndex::postings(*idx)),
{
    let ps = WeightedInvertedIndex::postings(*idx);
    vstd::std_specs::vec::axiom_spec_len(&idx.entries);
    assert forall|k: int|
        0 <= k < ps.len() implies (#[trigger] ps[k]).0.len() <= u64::MAX && ps[k].1.len()
        <= u64::MAX by {
        vstd::std_specs::vec::axiom_spec_len(&idx.entries@[k].0);
        vstd::std_specs::vec::axiom_spec_len(&idx.entries@[k].1);
    }
}

/// A fresh default index: no postings, no recorded clicks.
pub fn default() -> (r: DefaultIndex)
    ensures
        r.init_ok(),
        r.postings() == Seq::<(Seq<char>, Seq<u128>)>::empty(),
        r.clicks() == Map::<Seq<char>, u128>::empty(),
{
    let r = DefaultIndex::new();
    proof {
        crate::click::lemma_default_init(&r);
    }
    r
}

/// The default index: a click-tracking wrapper around the inverted
/// index.
pub type DefaultIndex = crate::click::ClickWrapper<WeightedInvertedIndex>;

} // verus!
