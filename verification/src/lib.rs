//! A lightweight document search engine: nested documents are flattened
//! into terms, indexed in an inverted index, and retrieved by free-text
//! queries with exact, substring, and typo-tolerant matching.

use vstd::prelude::*;

mod click;
mod handlers;
mod ids;
pub mod index;
mod item;
pub mod laws;
mod qwerty;
pub mod storage;
mod server_types;
mod store;
mod strcase;
mod strcmp;
mod strdiff;
mod terms;
mod text;
mod traits;

pub use click::ClickWrapper;
pub use click::Wrapper;
pub use handlers::handle;
pub use handlers::handle_click;
pub use handlers::handle_search;
pub use handlers::handle_write;
pub use ids::equals;
pub use ids::high;
pub use ids::low;
pub use index::DefaultIndex;
pub use index::Index;
pub use index::IndexError;
pub use index::WeightedInvertedIndex;
pub use item::Item;
pub use item::ItemIterator;
pub use item::KeyValue;
pub use qwerty::key_distance;
pub use server_types::ClickReq;
pub use server_types::ClickResp;
pub use server_types::Req;
pub use server_types::Resp;
pub use server_types::SearchReq;
pub use server_types::SearchResp;
pub use server_types::WriteReq;
pub use server_types::WriteResp;
pub use storage::DiskStorage;
pub use store::Store;
pub use strcase::strcmp_caseless;
pub use strcmp::strcmp;
pub use strcmp::strcmp_base;
pub use strcmp::strcmp_part;
pub use strcmp::strcmp_part_base;
pub use strcmp::strcmp_part_simd;
pub use strcmp::strcmp_simd;
pub use strdiff::strdiff;
pub use traits::Initialise;
pub use traits::ShallowCopy;

verus! {

/// A 128-bit document identifier.
pub type ID = u128;

} // verus!
