//! An in-memory content-based image retrieval engine: images reduced to
//! Haar-wavelet signatures, found again through inverted coefficient buckets.
use vstd::prelude::*;

pub mod api;
pub mod bucket;
pub mod codec;
pub mod db;
pub mod index;
pub mod sort;
pub mod store;

pub use api::{query_default_limit, ApiError, ApiResponse, DeleteImageResponse, GetQuery, GetStatusResponse};
pub use bucket::Bucket;
pub use codec::{InvalidHash, Signature};
pub use db::DB;
pub use index::ImageIndex;
pub use store::{ImageData, SqlSchema};

verus! {

} // verus!
