//! Transport-agnostic request and response messages.

use vstd::prelude::*;
use crate::item::Item;

verus! {

/// A click-feedback request: the user clicked `id` for `query`.
pub struct ClickReq {
    pub id: u128,
    pub query: String,
}

/// The outcome of a click request.
pub enum ClickResp {
    Error(String),
    Success(()),
}

/// A search request.
pub struct SearchReq {
    pub query: String,
}

/// The outcome of a search request: the matching documents.
pub enum SearchResp {
    Error(String),
    Success(Vec<Item>),
}

/// A write request: store and index a document, under the given
/// identifier when one is supplied.
pub struct WriteReq {
    pub id: Option<u128>,
    pub item: Item,
}

/// The outcome of a write request.
pub enum WriteResp {
    Error(String),
    Success(()),
}

/// Any request.
pub enum Req {
    Click(ClickReq),
    Search(SearchReq),
    Write(WriteReq),
}

/// Any response.
pub enum Resp {
    Click(ClickResp),
    Query(SearchResp),
    Write(WriteResp),
}

} // verus!
