//! A click-tracking decorator: forwards search and write to the index
//! it wraps, and records the most recent clicked identifier per query.

use vstd::prelude::*;
use crate::index::Index;
use crate::index::IndexError;
use crate::index::Postings;
use crate::index::search_spec;
use crate::index::write_spec;
use crate::item::Item;
use crate::item::item_flat;
use crate::traits::Initialise;

verus! {

/// The click record: the most recently clicked identifier for each
/// query string, last write wins.
pub open spec fn clicks_of(data: Seq<(String, u128)>) -> Map<Seq<char>, u128>
    decreases data.len(),
{
    if data.len() == 0 {
        Map::empty()
    } else {
        clicks_of(data.drop_last()).insert(data.last().0@, data.last().1)
    }
}

/// A decorator around any index: search and write are forwarded
/// unchanged, and click events are recorded for future ranking use.
pub struct ClickWrapper<I: Index> {
    data: Vec<(String, u128)>,
    inner: I,
}

impl<I: Index> ClickWrapper<I> {
    /// The recorded click events, as a last-write-wins map.
    pub closed spec fn clicks(self) -> Map<Seq<char>, u128> {
        clicks_of(self.data@)
    }

    /// Record a click: `query` now maps to `id`. The wrapped index is
    /// untouched.
    pub fn click(&mut self, id: &u128, query: &String) -> (r: Result<(), IndexError>)
        ensures
            r is Ok,
            final(self).clicks() == old(self).clicks().insert(query@, *id),
            final(self).postings() == old(self).postings(),
    {
        self.data.push((query.clone(), *id));
        proof {
            assert(self.data@.drop_last() =~= old(self).data@);
        }
        Ok(())
    }
}

impl<I: Index> Initialise for ClickWrapper<I> {
    closed spec fn init_ok(&self) -> bool
        decreases self,
    {
        self.inner.init_ok() && self.clicks() == Map::<Seq<char>, u128>::empty()
    }

    fn new() -> (s: Self) {
        let s = ClickWrapper { data: Vec::new(), inner: I::new() };
        proof {
            assert(s.clicks() =~= Map::<Seq<char>, u128>::empty());
        }
        s
    }
}

impl<I: Index> Index for ClickWrapper<I> {
    /// The wrapper holds exactly the postings of the index it wraps.
    closed spec fn postings(&self) -> Postings
        decreases self,
    {
        self.inner.postings()
    }

    fn search(&self, query: &String) -> (r: Result<Vec<u128>, IndexError>) {
        self.inner.search(query)
    }

    /// Forwarded unchanged; beyond the inherited contract, a write
    /// leaves the click record alone.
    fn write(&mut self, id: &u128, item: &Item) -> (r: Result<(), IndexError>)
        ensures
            final(self).clicks() == old(self).clicks(),
    {
        self.inner.write(id, item)
    }
}

/// A freshly created default wrapper has no postings and no clicks.
pub proof fn lemma_default_init(w: &ClickWrapper<crate::index::WeightedInvertedIndex>)
    requires
        w.init_ok(),
    ensures
        w.postings() == Seq::<(Seq<char>, Seq<u128>)>::empty(),
        w.clicks() == Map::<Seq<char>, u128>::empty(),
{
}

/// A decorator over the shared index capability; decorators compose,
/// so a wrapper may wrap another wrapper.
pub trait Wrapper: Index {
}

impl<I: Index> Wrapper for ClickWrapper<I> {
}

} // verus!
