//! Request handlers: each maps one request onto the index and store
//! services, which the caller owns and passes in by reference.

use vstd::prelude::*;
use crate::index::DefaultIndex;
use crate::index::Index;
use crate::index::search_spec;
use crate::index::write_spec;
use crate::item::Item;
use crate::item::item_flat;
use crate::server_types::ClickResp;
use crate::server_types::Req;
use crate::server_types::Resp;
use crate::server_types::SearchResp;
use crate::server_types::WriteResp;
use crate::store::Store;
use crate::store::selected;

verus! {

/// Record click feedback in the index.
pub fn handle_click(index: &mut DefaultIndex, id: &u128, query: &String) -> (r: ClickResp)
    ensures
        r is Success,
        final(index).clicks() == old(index).clicks().insert(query@, *id),
        final(index).postings() == old(index).postings(),
{
    match index.click(id, query) {
        Ok(()) => ClickResp::Success(()),
        Err(_) => ClickResp::Error("click failed".to_owned()),
    }
}

/// Search the index and resolve the matching identifiers to documents.
pub fn handle_search(index: &DefaultIndex, store: &Store, query: &String) -> (r: SearchResp)
    ensures
        r matches SearchResp::Success(items) && items@.len() == selected(
            store.entries_view(),
            search_spec(index.postings(), query@),
        ).len() && forall|k: int|
            0 <= k < items@.len() ==> (#[trigger] items@[k]).entries_model() == selected(
                store.entries_view(),
                search_spec(index.postings(), query@),
            )[k].entries_model(),
{
    let ids = match index.search(query) {
        Ok(ids) => ids,
        Err(_) => {
            proof {
                assert(false);
            }
            Vec::new()
        },
    };
    let items = store.list(ids.as_slice());
    SearchResp::Success(items)
}

/// Persist the document in the store, then index it under the
/// identifier the store assigned.
pub fn handle_write(
    index: &mut DefaultIndex,
    store: &mut Store,
    id: &Option<u128>,
    item: &Item,
) -> (r: WriteResp)
    requires
        old(store).wf(),
    ensures
        r is Success,
        final(store).wf(),
        exists|nid: u128|
            {
                &&& (id matches Some(v) ==> nid == v)
                &&& ({
                    let newmap = final(store).contents();
                    exists|st: Item|
                        #[trigger] st.entries_model() == item.entries_model() && newmap == old(
                            store,
                        ).contents().insert(nid, st)
                })
                &&& #[trigger] final(index).postings() == write_spec(
                    old(index).postings(),
                    nid,
                    item_flat(*item),
                )
            },
{
    let copy = item.duplicate();
    let assigned = store.set(id.as_ref(), copy);
    match index.write(&assigned, item) {
        Ok(v) => WriteResp::Success(v),
        Err(_) => WriteResp::Error("write failed".to_owned()),
    }
}

/// Dispatch one request to its handler: a click is recorded, a search
/// returns the documents of the matching identifiers, a write stores
/// and indexes the document.
pub fn handle(req: Req, index: &mut DefaultIndex, store: &mut Store) -> (r: Resp)
    requires
        old(store).wf(),
    ensures
        final(store).wf(),
        req matches Req::Click(c) ==> r matches Resp::Click(cr) && cr is Success
            && final(index).clicks() == old(index).clicks().insert(c.query@, c.id)
            && final(index).postings() == old(index).postings() && *final(store) == *old(store),
        req matches Req::Search(s) ==> r matches Resp::Query(sr) && sr matches
            SearchResp::Success(items) && items@.len() == selected(
            old(store).entries_view(),
            search_spec(old(index).postings(), s.query@),
        ).len() && (forall|k: int|
            0 <= k < items@.len() ==> (#[trigger] items@[k]).entries_model() == selected(
                old(store).entries_view(),
                search_spec(old(index).postings(), s.query@),
            )[k].entries_model()) && *final(index) == *old(index) && *final(store) == *old(store),
        req matches Req::Write(w) ==> r matches Resp::Write(wr) && wr is Success && (exists|
            nid: u128,
        |
            {
                &&& (w.id matches Some(v) ==> nid == v)
                &&& ({
                    let newmap = final(store).contents();
                    exists|st: Item|
                        #[trigger] st.entries_model() == w.item.entries_model() && newmap == old(
                            store,
                        ).contents().insert(nid, st)
                })
                &&& #[trigger] final(index).postings() == write_spec(
                    old(index).postings(),
                    nid,
                    item_flat(w.item),
                )
            }),
{
    match req {
        Req::Click(c) => Resp::Click(handle_click(index, &c.id, &c.query)),
        Req::Search(s) => Resp::Query(handle_search(&*index, &*store, &s.query)),
        Req::Write(w) => Resp::Write(handle_write(index, store, &w.id, &w.item)),
    }
}

} // verus!
