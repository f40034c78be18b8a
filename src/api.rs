//! The values that the HTTP surface exchanges with the engine.
use vstd::prelude::*;

verus! {

/// The errors a request can end with.
#[derive(Debug)]
pub enum ApiError {
    MissingFile,
    MissingFileOrHash,
    InvalidFile,
    InvalidHash,
    InvalidImage,
    NotFound,
    Sqlite { code: Option<isize>, message: Option<String> },
}

impl ApiError {
    /// The name the error is reported under.
    pub fn name(&self) -> (r: &'static str)
        ensures
            self is MissingFile ==> r@ == "missing_file"@,
            self is MissingFileOrHash ==> r@ == "missing_file_or_hash"@,
            self is InvalidFile ==> r@ == "invalid_file"@,
            self is InvalidHash ==> r@ == "invalid_hash"@,
            self is InvalidImage ==> r@ == "invalid_image"@,
            self is NotFound ==> r@ == "not_found"@,
            self is Sqlite ==> r@ == "sqlite"@,
    {
        match self {
            ApiError::MissingFile => "missing_file",
            ApiError::MissingFileOrHash => "missing_file_or_hash",
            ApiError::InvalidFile => "invalid_file",
            ApiError::InvalidHash => "invalid_hash",
            ApiError::InvalidImage => "invalid_image",
            ApiError::NotFound => "not_found",
            ApiError::Sqlite { .. } => "sqlite",
        }
    }

    /// The HTTP status of the error: 404 for an unknown image, 500 for a store
    /// failure, 400 for a bad request.
    pub fn status(&self) -> (r: u16)
        ensures
            r == if self is NotFound {
                404u16
            } else if self is Sqlite {
                500u16
            } else {
                400u16
            },
    {
        match self {
            ApiError::NotFound => 404,
            ApiError::Sqlite { .. } => 500,
            _ => 400,
        }
    }

    /// The error of an upload, which has no hash to fall back on: a missing
    /// file is reported as such.
    pub fn for_upload(self) -> (r: ApiError)
        ensures
            self is MissingFileOrHash ==> r is MissingFile,
            !(self is MissingFileOrHash) ==> r == self,
    {
        match self {
            ApiError::MissingFileOrHash => ApiError::MissingFile,
            other => other,
        }
    }
}

/// A reply: the value, or an error under the key `error`.
pub enum ApiResponse<T, E> {
    Success(T),
    Failure { error: E },
}

/// The reply to a deletion.
pub struct DeleteImageResponse {
    pub id: i64,
}

/// The reply to a status request.
pub struct GetStatusResponse {
    pub images: u32,
}

/// The parameters of a query: how many results, and the signature text when
/// no file is sent.
pub struct GetQuery {
    pub limit: usize,
    pub hash: Option<String>,
}

/// The number of results of a query that names none.
pub fn query_default_limit() -> (r: usize)
    ensures
        r == 20,
{
    20
}

impl GetQuery {
    /// The parameters as sent, with the default limit where none is given.
    pub fn new(limit: Option<usize>, hash: Option<String>) -> (r: GetQuery)
        ensures
            r.limit == match limit {
                Some(l) => l,
                None => 20usize,
            },
            r.hash == hash,
    {
        let limit = match limit {
            Some(l) => l,
            None => query_default_limit(),
        };
        GetQuery { limit, hash }
    }
}

} // verus!
