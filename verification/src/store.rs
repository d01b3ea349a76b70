//! The document store: plain keyed storage of documents by 128-bit
//! identifier, generating a fresh identifier when none is supplied.

use vstd::prelude::*;
use crate::item::Item;
use crate::traits::Initialise;

verus! {

/// Relies on uuid::Uuid::new_v4 and Uuid::to_u128_le: a randomly
/// generated identifier; nothing is promised of its value.
#[verifier::external_body]
fn fresh_id() -> u128 {
    uuid::Uuid::new_v4().to_u128_le()
}

/// The keyed contents an entry list denotes; a later entry with the
/// same identifier wins.
pub open spec fn map_of(s: Seq<(u128, Item)>) -> Map<u128, Item>
    decreases s.len(),
{
    if s.len() == 0 {
        Map::empty()
    } else {
        map_of(s.drop_last()).insert(s.last().0, s.last().1)
    }
}

/// No identifier appears twice.
pub open spec fn ids_unique(s: Seq<(u128, Item)>) -> bool {
    forall|i: int, j: int| 0 <= i < j < s.len() ==> (#[trigger] s[i]).0 != (#[trigger] s[j]).0
}

/// An entry decides membership and value in the denoted map.
proof fn lemma_map_of_index(s: Seq<(u128, Item)>, i: int)
    requires
        ids_unique(s),
        0 <= i < s.len(),
    ensures
        map_of(s).contains_key(s[i].0),
        map_of(s)[s[i].0] == s[i].1,
    decreases s.len(),
{
    if i < s.len() - 1 {
        assert(s.drop_last()[i] == s[i]);
        assert(ids_unique(s.drop_last())) by {
            assert forall|x: int, y: int|
                0 <= x < y < s.drop_last().len() implies (#[trigger] s.drop_last()[x]).0 != (
            #[trigger] s.drop_last()[y]).0 by {
                assert(s.drop_last()[x] == s[x]);
                assert(s.drop_last()[y] == s[y]);
            }
        }
        lemma_map_of_index(s.drop_last(), i);
        assert(s[i].0 != s[s.len() - 1].0);
    }
}

/// An absent identifier is absent from the denoted map.
proof fn lemma_map_of_absent(s: Seq<(u128, Item)>, id: u128)
    requires
        forall|j: int| 0 <= j < s.len() ==> (#[trigger] s[j]).0 != id,
    ensures
        !map_of(s).contains_key(id),
    decreases s.len(),
{
    if s.len() > 0 {
        assert forall|j: int| 0 <= j < s.drop_last().len() implies (#[trigger] s.drop_last()[
        j]).0 != id by {
            assert(s.drop_last()[j] == s[j]);
        }
        lemma_map_of_absent(s.drop_last(), id);
    }
}

/// Replacing the entry of an identifier updates the denoted map.
proof fn lemma_map_of_update(s: Seq<(u128, Item)>, i: int, item: Item)
    requires
        ids_unique(s),
        0 <= i < s.len(),
    ensures
        map_of(s.update(i, (s[i].0, item))) == map_of(s).insert(s[i].0, item),
    decreases s.len(),
{
    let s2 = s.update(i, (s[i].0, item));
    if i == s.len() - 1 {
        assert(s2.drop_last() =~= s.drop_last());
        assert(map_of(s2) =~= map_of(s).insert(s[i].0, item));
    } else {
        assert(s2.drop_last() =~= s.drop_last().update(i, (s[i].0, item)));
        assert(s.drop_last()[i] == s[i]);
        assert(ids_unique(s.drop_last())) by {
            assert forall|x: int, y: int|
                0 <= x < y < s.drop_last().len() implies (#[trigger] s.drop_last()[x]).0 != (
            #[trigger] s.drop_last()[y]).0 by {
                assert(s.drop_last()[x] == s[x]);
                assert(s.drop_last()[y] == s[y]);
            }
        }
        lemma_map_of_update(s.drop_last(), i, item);
        assert(s2.last() == s.last());
        assert(s[i].0 != s.last().0);
        assert(map_of(s2) =~= map_of(s).insert(s[i].0, item));
    }
}

/// The items of the entries whose identifier is listed, in stored
/// order.
pub open spec fn selected(s: Seq<(u128, Item)>, ids: Seq<u128>) -> Seq<Item>
    decreases s.len(),
{
    if s.len() == 0 {
        Seq::empty()
    } else {
        (if ids.contains(s.first().0) {
            seq![s.first().1]
        } else {
            Seq::empty()
        }) + selected(s.drop_first(), ids)
    }
}

/// Plain keyed storage of documents.
pub struct Store {
    entries: Vec<(u128, Item)>,
}

impl Store {
    /// The stored documents, keyed by identifier.
    pub closed spec fn contents(self) -> Map<u128, Item> {
        map_of(self.entries@)
    }

    /// Identifiers are unique among the entries.
    pub closed spec fn wf(self) -> bool {
        ids_unique(self.entries@)
    }

    /// Look up a document by identifier.
    pub fn get(&self, id: &u128) -> (r: Option<&Item>)
        requires
            self.wf(),
        ensures
            match r {
                Some(it) => self.contents().contains_key(*id) && *it == self.contents()[*id],
                None => !self.contents().contains_key(*id),
            },
    {
        let mut i: usize = 0;
        while i < self.entries.len()
            invariant
                i <= self.entries@.len(),
                ids_unique(self.entries@),
                forall|j: int| 0 <= j < i ==> (#[trigger] self.entries@[j]).0 != *id,
            decreases self.entries@.len() - i,
        {
            if self.entries[i].0 == *id {
                proof {
                    lemma_map_of_index(self.entries@, i as int);
                }
                return Some(&self.entries[i].1);
            }
            i += 1;
        }
        proof {
            lemma_map_of_absent(self.entries@, *id);
        }
        None
    }

    /// The documents under the listed identifiers, in stored order.
    pub fn list(&self, ids: &[u128]) -> (r: Vec<Item>)
        ensures
            r@.len() == selected(self.entries_view(), ids@).len(),
            forall|k: int|
                0 <= k < r@.len() ==> (#[trigger] r@[k]).entries_model() == selected(
                    self.entries_view(),
                    ids@,
                )[k].entries_model(),
    {
        let mut r: Vec<Item> = Vec::new();
        let ghost s = self.entries@;
        proof {
            assert(s.skip(0) =~= s);
        }
        let mut i: usize = 0;
        while i < self.entries.len()
            invariant
                i <= s.len(),
                s == self.entries@,
                r@.len() + selected(s.skip(i as int), ids@).len() == selected(s, ids@).len(),
                forall|k: int|
                    0 <= k < r@.len() ==> (#[trigger] r@[k]).entries_model() == selected(
                        s,
                        ids@,
                    )[k].entries_model(),
                selected(s, ids@) =~= selected(s, ids@).take(r@.len() as int) + selected(
                    s.skip(i as int),
                    ids@,
                ),
            decreases s.len() - i,
        {
            proof {
                assert(s.skip(i as int).first() == s[i as int]);
                assert(s.skip(i as int).drop_first() =~= s.skip(i + 1));
            }
            let present = crate::terms::contains_id_slice(ids, self.entries[i].0);
            if present {
                let copy = self.entries[i].1.duplicate();
                r.push(copy);
                proof {
                    let sel = selected(s, ids@);
                    assert(selected(s.skip(i as int), ids@) == seq![s[i as int].1] + selected(
                        s.skip(i + 1),
                        ids@,
                    ));
                    assert(sel[r@.len() - 1].entries_model() == s[i as int].1.entries_model())
                        by {
                        assert(sel =~= sel.take(r@.len() - 1) + (seq![s[i as int].1] + selected(
                            s.skip(i + 1),
                            ids@,
                        )));
                    }
                    assert(sel =~= sel.take(r@.len() as int) + selected(s.skip(i + 1), ids@));
                }
            } else {
                proof {
                    assert(selected(s.skip(i as int), ids@) =~= selected(s.skip(i + 1), ids@));
                }
            }
            i += 1;
        }
        proof {
            assert(selected(s.skip(s.len() as int), ids@).len() == 0);
        }
        r
    }

    /// The raw entry sequence, for stating which items a lookup
    /// selects.
    pub closed spec fn entries_view(self) -> Seq<(u128, Item)> {
        self.entries@
    }

    /// Store a document: under the given identifier when one is
    /// supplied, else under a freshly generated one; the identifier
    /// used is returned, and an existing document under it is
    /// replaced.
    pub fn set(&mut self, id: Option<&u128>, item: Item) -> (r: u128)
        requires
            old(self).wf(),
        ensures
            final(self).wf(),
            final(self).contents() == old(self).contents().insert(r, item),
            id matches Some(v) ==> r == *v,
    {
        let idv: u128 = match id {
            Some(v) => *v,
            None => fresh_id(),
        };
        let ghost s = self.entries@;
        let mut i: usize = 0;
        while i < self.entries.len()
            invariant
                i <= s.len(),
                s == self.entries@,
                s == old(self).entries@,
                ids_unique(s),
                id matches Some(v) ==> idv == *v,
                forall|j: int| 0 <= j < i ==> (#[trigger] s[j]).0 != idv,
            decreases s.len() - i,
        {
            if self.entries[i].0 == idv {
                let _prev = self.entries.remove(i);
                self.entries.insert(i, (idv, item));
                proof {
                    assert(self.entries@ =~= s.update(i as int, (idv, item)));
                    lemma_map_of_update(s, i as int, item);
                    assert forall|x: int, y: int|
                        0 <= x < y < self.entries@.len() implies (#[trigger] self.entries@[
                    x]).0 != (#[trigger] self.entries@[y]).0 by {
                        if x != i && y != i {
                            assert(self.entries@[x] == s[x]);
                            assert(self.entries@[y] == s[y]);
                        }
                    }
                }
                return idv;
            }
            i += 1;
        }
        self.entries.push((idv, item));
        proof {
            assert(self.entries@.drop_last() =~= s);
            assert forall|x: int, y: int|
                0 <= x < y < self.entries@.len() implies (#[trigger] self.entries@[x]).0 != (
            #[trigger] self.entries@[y]).0 by {
                if y < self.entries@.len() - 1 {
                    assert(self.entries@[x] == s[x]);
                    assert(self.entries@[y] == s[y]);
                } else {
                    assert(self.entries@[x] == s[x]);
                }
            }
        }
        idv
    }
}

impl Initialise for Store {
    open spec fn init_ok(&self) -> bool {
        self.contents() == Map::<u128, Item>::empty() && self.wf()
    }

    fn new() -> (s: Self) {
        let s = Store { entries: Vec::new() };
        proof {
            assert(s.contents() =~= Map::<u128, Item>::empty());
        }
        s
    }
}

} // verus!
