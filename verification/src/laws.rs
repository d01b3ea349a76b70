//! Laws of the engine, each proved from the contracts the modules
//! state.

use vstd::prelude::*;
use crate::index::Postings;
use crate::index::candidates;
use crate::index::candidates_for;
use crate::index::find_term;
use crate::index::post_insert;
use crate::index::query_terms;
use crate::index::search_spec;
use crate::index::value_terms;
use crate::index::write_pairs;
use crate::index::write_spec;
use crate::index::write_terms;
use crate::item::FlatPair;
use crate::item::Item;
use crate::item::ItemIterator;
use crate::item::item_flat;
use crate::strcase::fold;
use crate::strcase::fold_char;
use crate::storage::apply_records;
use crate::storage::replace_record;
use crate::storage::unique_terms;

verus! {

/// The table has an entry for `t` whose posting list holds `id`.
pub open spec fn has_posting(ps: Postings, t: Seq<char>, id: u128) -> bool {
    let i = find_term(ps, t, 0);
    i < ps.len() && ps[i].1.contains(id)
}

/// Where `find_term` stops: at the first entry for `t`, or past the
/// end.
proof fn lemma_find_term_props(ps: Postings, t: Seq<char>, i: int)
    requires
        0 <= i <= ps.len(),
    ensures
        i <= find_term(ps, t, i) <= ps.len(),
        find_term(ps, t, i) < ps.len() ==> ps[find_term(ps, t, i)].0 == t,
        forall|j: int| i <= j < find_term(ps, t, i) ==> (#[trigger] ps[j]).0 != t,
    decreases ps.len() - i,
{
    if i < ps.len() && ps[i].0 != t {
        lemma_find_term_props(ps, t, i + 1);
    }
}

/// Tables with the same terms are searched alike.
proof fn lemma_find_term_same(ps1: Postings, ps2: Postings, t: Seq<char>, i: int)
    requires
        ps1.len() == ps2.len(),
        forall|j: int| 0 <= j < ps1.len() ==> (#[trigger] ps1[j]).0 == ps2[j].0,
        0 <= i <= ps1.len(),
    ensures
        find_term(ps1, t, i) == find_term(ps2, t, i),
    decreases ps1.len() - i,
{
    if i < ps1.len() && ps1[i].0 != t {
        lemma_find_term_same(ps1, ps2, t, i + 1);
    }
}

/// Appending an entry does not move an earlier find, and resolves a
/// failed one exactly when the new entry's term is searched.
proof fn lemma_find_term_push(ps: Postings, e: (Seq<char>, Seq<u128>), t: Seq<char>, i: int)
    requires
        0 <= i <= ps.len(),
    ensures
        find_term(ps, t, i) < ps.len() ==> find_term(ps.push(e), t, i) == find_term(ps, t, i),
        find_term(ps, t, i) == ps.len() ==> find_term(ps.push(e), t, i) == (if e.0 == t {
            ps.len() as int
        } else {
            ps.len() + 1int
        }),
    decreases ps.len() - i,
{
    if i < ps.len() {
        assert(ps.push(e)[i] == ps[i]);
        if ps[i].0 != t {
            lemma_find_term_push(ps, e, t, i + 1);
        }
    } else {
        assert(ps.push(e)[i] == e);
        if e.0 != t {
            assert(find_term(ps.push(e), t, i + 1) == ps.len() + 1);
        }
    }
}

/// After `post_insert`, the table holds `id` under `t`.
proof fn lemma_post_insert_has(ps: Postings, t: Seq<char>, id: u128)
    ensures
        has_posting(post_insert(ps, t, id), t, id),
{
    let f = find_term(ps, t, 0);
    lemma_find_term_props(ps, t, 0);
    if f < ps.len() {
        if !ps[f].1.contains(id) {
            let ps2 = ps.update(f, (t, ps[f].1.push(id)));
            lemma_find_term_same(ps, ps2, t, 0);
            assert(ps2[f].1[ps[f].1.len() as int] == id);
            assert(ps2[f].1.contains(id));
        }
    } else {
        let e = (t, seq![id]);
        let ps2 = ps.push(e);
        lemma_find_term_push(ps, e, t, 0);
        assert(ps2[f].1[0] == id);
        assert(ps2[f].1.contains(id));
    }
}

/// `post_insert` never removes a held posting.
proof fn lemma_post_insert_preserves(
    ps: Postings,
    t2: Seq<char>,
    id2: u128,
    t: Seq<char>,
    id: u128,
)
    requires
        has_posting(ps, t, id),
    ensures
        has_posting(post_insert(ps, t2, id2), t, id),
{
    let f = find_term(ps, t, 0);
    let f2 = find_term(ps, t2, 0);
    lemma_find_term_props(ps, t, 0);
    lemma_find_term_props(ps, t2, 0);
    if f2 < ps.len() {
        if !ps[f2].1.contains(id2) {
            let ps2 = ps.update(f2, (t2, ps[f2].1.push(id2)));
            lemma_find_term_same(ps, ps2, t, 0);
            if f == f2 {
                let w = choose|w: int| 0 <= w < ps[f].1.len() && ps[f].1[w] == id;
                assert(ps2[f].1[w] == id);
                assert(ps2[f].1.contains(id));
            }
        }
    } else {
        let e = (t2, seq![id2]);
        lemma_find_term_push(ps, e, t, 0);
        assert(ps.push(e)[f] == ps[f]);
    }
}

/// Writing a term list never removes a held posting.
proof fn lemma_write_terms_preserves(
    ps: Postings,
    id: u128,
    ts: Seq<Seq<char>>,
    k: int,
    t0: Seq<char>,
    id0: u128,
)
    requires
        has_posting(ps, t0, id0),
    ensures
        has_posting(write_terms(ps, id, ts, k), t0, id0),
    decreases ts.len() - k,
{
    if 0 <= k < ts.len() {
        lemma_post_insert_preserves(ps, ts[k], id, t0, id0);
        lemma_write_terms_preserves(post_insert(ps, ts[k], id), id, ts, k + 1, t0, id0);
    }
}

/// After writing a term list, every written term holds `id`.
proof fn lemma_write_terms_adds(ps: Postings, id: u128, ts: Seq<Seq<char>>, k: int)
    requires
        0 <= k,
    ensures
        forall|j: int|
            k <= j < ts.len() ==> has_posting(write_terms(ps, id, ts, k), #[trigger] ts[j], id),
    decreases ts.len() - k,
{
    if 0 <= k < ts.len() {
        let ps2 = post_insert(ps, ts[k], id);
        lemma_post_insert_has(ps, ts[k], id);
        lemma_write_terms_preserves(ps2, id, ts, k + 1, ts[k], id);
        lemma_write_terms_adds(ps2, id, ts, k + 1);
        assert(write_terms(ps, id, ts, k) == write_terms(ps2, id, ts, k + 1));
        assert forall|j: int|
            k <= j < ts.len() implies has_posting(
            write_terms(ps, id, ts, k),
            #[trigger] ts[j],
            id,
        ) by {
            if j > k {
                assert(has_posting(write_terms(ps2, id, ts, k + 1), ts[j], id));
            }
        }
    }
}

/// Writing a term list whose postings are all held changes nothing.
proof fn lemma_write_terms_noop(ps: Postings, id: u128, ts: Seq<Seq<char>>, k: int)
    requires
        forall|j: int| k <= j < ts.len() ==> has_posting(ps, #[trigger] ts[j], id),
    ensures
        write_terms(ps, id, ts, k) == ps,
    decreases ts.len() - k,
{
    if 0 <= k < ts.len() {
        let f = find_term(ps, ts[k], 0);
        assert(has_posting(ps, ts[k], id));
        assert(post_insert(ps, ts[k], id) == ps);
        lemma_write_terms_noop(ps, id, ts, k + 1);
    }
}

/// Writing flattened pairs never removes a held posting.
proof fn lemma_write_pairs_preserves(
    ps: Postings,
    id: u128,
    pairs: Seq<FlatPair>,
    k: int,
    t0: Seq<char>,
    id0: u128,
)
    requires
        has_posting(ps, t0, id0),
    ensures
        has_posting(write_pairs(ps, id, pairs, k), t0, id0),
    decreases pairs.len() - k,
{
    if 0 <= k < pairs.len() {
        let ps2 = write_terms(ps, id, value_terms(pairs[k].1), 0);
        lemma_write_terms_preserves(ps, id, value_terms(pairs[k].1), 0, t0, id0);
        lemma_write_pairs_preserves(ps2, id, pairs, k + 1, t0, id0);
    }
}

/// After writing flattened pairs, every extracted term holds `id`.
proof fn lemma_write_pairs_adds(ps: Postings, id: u128, pairs: Seq<FlatPair>, k: int)
    requires
        0 <= k,
    ensures
        forall|j: int, m: int|
            k <= j < pairs.len() && 0 <= m < value_terms((#[trigger] pairs[j]).1).len()
                ==> has_posting(
                write_pairs(ps, id, pairs, k),
                #[trigger] value_terms(pairs[j].1)[m],
                id,
            ),
    decreases pairs.len() - k,
{
    if 0 <= k < pairs.len() {
        let ts = value_terms(pairs[k].1);
        let ps2 = write_terms(ps, id, ts, 0);
        lemma_write_terms_adds(ps, id, ts, 0);
        lemma_write_pairs_adds(ps2, id, pairs, k + 1);
        assert(write_pairs(ps, id, pairs, k) == write_pairs(ps2, id, pairs, k + 1));
        assert forall|j: int, m: int|
            k <= j < pairs.len() && 0 <= m < value_terms((#[trigger] pairs[j]).1).len() implies
        has_posting(write_pairs(ps, id, pairs, k), #[trigger] value_terms(pairs[j].1)[m], id) by {
            if j == k {
                assert(has_posting(ps2, ts[m], id));
                lemma_write_pairs_preserves(ps2, id, pairs, k + 1, ts[m], id);
            } else {
                assert(has_posting(
                    write_pairs(ps2, id, pairs, k + 1),
                    value_terms(pairs[j].1)[m],
                    id,
                ));
            }
        }
    }
}

/// Writing flattened pairs whose postings are all held changes
/// nothing.
proof fn lemma_write_pairs_noop(ps: Postings, id: u128, pairs: Seq<FlatPair>, k: int)
    requires
        forall|j: int, m: int|
            k <= j < pairs.len() && 0 <= m < value_terms((#[trigger] pairs[j]).1).len()
                ==> has_posting(ps, #[trigger] value_terms(pairs[j].1)[m], id),
    ensures
        write_pairs(ps, id, pairs, k) == ps,
    decreases pairs.len() - k,
{
    if 0 <= k < pairs.len() {
        let ts = value_terms(pairs[k].1);
        assert forall|m: int| 0 <= m < ts.len() implies has_posting(ps, #[trigger] ts[m], id) by {
            assert(has_posting(ps, value_terms(pairs[k].1)[m], id));
        }
        lemma_write_terms_noop(ps, id, ts, 0);
        lemma_write_pairs_noop(ps, id, pairs, k + 1);
    }
}

/// Law: writing an (id, document) pair twice yields the same posting
/// table as writing it once.
pub proof fn lemma_write_idempotent(ps: Postings, id: u128, pairs: Seq<FlatPair>)
    ensures
        write_spec(write_spec(ps, id, pairs), id, pairs) == write_spec(ps, id, pairs),
{
    let ps1 = write_spec(ps, id, pairs);
    lemma_write_pairs_adds(ps, id, pairs, 0);
    lemma_write_pairs_noop(ps1, id, pairs, 0);
}


/// One posting insertion never introduces a duplicate term.
proof fn lemma_post_insert_unique(ps: Postings, t: Seq<char>, id: u128)
    requires
        unique_terms(ps),
    ensures
        unique_terms(post_insert(ps, t, id)),
{
    let f = find_term(ps, t, 0);
    lemma_find_term_props(ps, t, 0);
    if f < ps.len() {
        if !ps[f].1.contains(id) {
            let ps2 = ps.update(f, (t, ps[f].1.push(id)));
            assert forall|i: int, j: int| 0 <= i < j < ps2.len() implies (#[trigger] ps2[i]).0
                != (#[trigger] ps2[j]).0 by {
                assert(ps2[i].0 == ps[i].0);
                assert(ps2[j].0 == ps[j].0);
            }
        }
    } else {
        let ps2 = ps.push((t, seq![id]));
        assert forall|i: int, j: int| 0 <= i < j < ps2.len() implies (#[trigger] ps2[i]).0 != (
        #[trigger] ps2[j]).0 by {
            if j < ps.len() {
                assert(ps2[i].0 == ps[i].0);
                assert(ps2[j].0 == ps[j].0);
            } else {
                assert(ps2[i].0 == ps[i].0);
                assert(ps2[j].0 == t);
            }
        }
    }
}

/// Writing a term list never introduces a duplicate term.
proof fn lemma_write_terms_unique(ps: Postings, id: u128, ts: Seq<Seq<char>>, k: int)
    requires
        unique_terms(ps),
    ensures
        unique_terms(write_terms(ps, id, ts, k)),
    decreases ts.len() - k,
{
    if 0 <= k < ts.len() {
        lemma_post_insert_unique(ps, ts[k], id);
        lemma_write_terms_unique(post_insert(ps, ts[k], id), id, ts, k + 1);
    }
}

/// Law: a posting table with unique terms keeps them unique across
/// any write, so an index grown from empty by writes never holds a
/// term twice.
pub proof fn lemma_write_preserves_unique(ps: Postings, id: u128, pairs: Seq<FlatPair>, k: int)
    requires
        unique_terms(ps),
    ensures
        unique_terms(write_pairs(ps, id, pairs, k)),
    decreases pairs.len() - k,
{
    if 0 <= k < pairs.len() {
        lemma_write_terms_unique(ps, id, value_terms(pairs[k].1), 0);
        lemma_write_preserves_unique(
            write_terms(ps, id, value_terms(pairs[k].1), 0),
            id,
            pairs,
            k + 1,
        );
    }
}

/// Storing one decoded record never introduces a duplicate term.
proof fn lemma_replace_preserves_unique(ps: Postings, t: Seq<char>, ids: Seq<u128>)
    requires
        unique_terms(ps),
    ensures
        unique_terms(replace_record(ps, t, ids)),
{
    let f = find_term(ps, t, 0);
    lemma_find_term_props(ps, t, 0);
    if f < ps.len() {
        let ps2 = ps.update(f, (t, ids));
        assert forall|i: int, j: int| 0 <= i < j < ps2.len() implies (#[trigger] ps2[i]).0 != (
        #[trigger] ps2[j]).0 by {
            assert(ps2[i].0 == ps[i].0);
            assert(ps2[j].0 == ps[j].0);
        }
    } else {
        let ps2 = ps.push((t, ids));
        assert forall|i: int, j: int| 0 <= i < j < ps2.len() implies (#[trigger] ps2[i]).0 != (
        #[trigger] ps2[j]).0 by {
            if j < ps.len() {
                assert(ps2[i].0 == ps[i].0);
                assert(ps2[j].0 == ps[j].0);
            } else {
                assert(ps2[i].0 == ps[i].0);
                assert(ps2[j].0 == t);
            }
        }
    }
}

/// Law: a posting table with unique terms keeps them unique across a
/// load, so an index grown by writes and loads never holds a term
/// twice.
pub proof fn lemma_apply_preserves_unique(ps: Postings, recs: Postings, k: int)
    requires
        unique_terms(ps),
        0 <= k,
    ensures
        unique_terms(apply_records(ps, recs, k)),
    decreases recs.len() - k,
{
    if 0 <= k < recs.len() {
        lemma_replace_preserves_unique(ps, recs[k].0, recs[k].1);
        lemma_apply_preserves_unique(replace_record(ps, recs[k].0, recs[k].1), recs, k + 1);
    }
}

/// No query term gathers anything from an empty table.
proof fn lemma_candidates_empty(qs: Seq<Seq<char>>, k: int)
    requires
        0 <= k,
    ensures
        candidates(Seq::empty(), qs, k) == Seq::<u128>::empty(),
    decreases qs.len() - k,
{
    if k < qs.len() {
        lemma_candidates_empty(qs, k + 1);
        assert(candidates_for(Seq::empty(), qs[k], 0) == Seq::<u128>::empty());
        assert(Seq::<u128>::empty() + Seq::<u128>::empty() =~= Seq::<u128>::empty());
    }
}

/// Law: any query against a freshly constructed index returns an
/// empty identifier list.
pub proof fn lemma_search_fresh_index(query: Seq<char>)
    ensures
        search_spec(Seq::empty(), query) == Seq::<u128>::empty(),
{
    lemma_candidates_empty(query_terms(query), 0);
}

/// Law: an empty query string returns an empty identifier list.
pub proof fn lemma_search_empty_query(postings: Postings)
    ensures
        search_spec(postings, Seq::empty()) == Seq::<u128>::empty(),
{
    assert(fold(Seq::<char>::empty()) =~= Seq::<char>::empty());
}

/// ASCII case folding is idempotent.
proof fn lemma_fold_idempotent(q: Seq<char>)
    ensures
        fold(fold(q)) == fold(q),
{
    assert forall|i: int| 0 <= i < q.len() implies #[trigger] fold(fold(q))[i] == fold(q)[i] by {
        let c = q[i];
        assert(fold(q)[i] == fold_char(c));
        assert(fold(fold(q))[i] == fold_char(fold_char(c)));
        if 65 <= c as u32 && c as u32 <= 90 {
            assert(fold_char(c) as u32 == c as u32 + 32) by {
                assert(((c as u32 + 32) as u8) as char as u32 == c as u32 + 32);
            }
        }
    }
    assert(fold(fold(q)) =~= fold(q));
}

/// Law: searching with a lowercased query returns what the query
/// itself returns: every query term is case-folded before matching.
/// Folding here is ASCII-only, as the caseless comparison rule is.
pub proof fn lemma_search_folds_query(postings: Postings, query: Seq<char>)
    ensures
        search_spec(postings, fold(query)) == search_spec(postings, query),
{
    lemma_fold_idempotent(query);
}

/// Law: flattening is deterministic. Any two fresh traversals of one
/// document yield the same (path, leaf-value) sequence: each yields
/// the document's flattening, which is a function of the document
/// alone.
pub proof fn lemma_flatten_deterministic(a: ItemIterator, b: ItemIterator, doc: Item)
    requires
        a.remaining() == item_flat(doc),
        b.remaining() == item_flat(doc),
    ensures
        a.remaining() == b.remaining(),
{
}

} // verus!
