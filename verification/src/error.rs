//! What a query can fail with, and the text that is reported for it.

use vstd::prelude::*;
use vstd::string::*;

use crate::number::IntError;

verus! {

/// Why a query was not answered. `T` is the type of the texts that came from
/// outside: `String`, or `Seq<char>` in specifications.
#[verifier::ext_equal]
#[derive(Debug)]
pub enum QueryError<T> {
    /// A hexadecimal integer was expected.
    Hex(IntError),
    /// A tag hash of another length than eight digits.
    TagLength,
    /// A page size outside of the bounds.
    Limit,
    /// A byte count outside of the bounds.
    Length,
    /// A byte offset beyond the end of the tag.
    Offset,
    /// The query reads scan data, and no cache was named.
    CacheRequired,
    /// The named cache cannot be used as it is.
    CacheUnusable,
    /// `index` was asked for, and no cache was named.
    IndexCache,
    /// No package has such a tag.
    TagNotFound,
    /// The scan saw no such tag.
    NoScanData,
    /// `serve` as a query.
    NestedServe,
    /// A request line longer than the bound.
    RequestSize,
    /// The cache has no dataset identity beside it.
    IdentityMissing(T),
    /// The dataset identity beside the cache cannot be read.
    IdentityInvalid(T),
    /// The cache was made from something else.
    OtherDataset,
    /// A time of modification that cannot be recorded.
    Timestamp,
    /// Work outside of this library failed.
    Outside(T),
}

impl View for QueryError<String> {
    type V = QueryError<Seq<char>>;

    open spec fn view(&self) -> QueryError<Seq<char>> {
        match self {
            QueryError::Hex(e) => QueryError::Hex(*e),
            QueryError::TagLength => QueryError::TagLength,
            QueryError::Limit => QueryError::Limit,
            QueryError::Length => QueryError::Length,
            QueryError::Offset => QueryError::Offset,
            QueryError::CacheRequired => QueryError::CacheRequired,
            QueryError::CacheUnusable => QueryError::CacheUnusable,
            QueryError::IndexCache => QueryError::IndexCache,
            QueryError::TagNotFound => QueryError::TagNotFound,
            QueryError::NoScanData => QueryError::NoScanData,
            QueryError::NestedServe => QueryError::NestedServe,
            QueryError::RequestSize => QueryError::RequestSize,
            QueryError::IdentityMissing(t) => QueryError::IdentityMissing(t@),
            QueryError::IdentityInvalid(t) => QueryError::IdentityInvalid(t@),
            QueryError::OtherDataset => QueryError::OtherDataset,
            QueryError::Timestamp => QueryError::Timestamp,
            QueryError::Outside(t) => QueryError::Outside(t@),
        }
    }
}

/// The text that is reported for an error; a cause follows after a colon.
pub open spec fn error_text(e: QueryError<Seq<char>>) -> Seq<char> {
    match e {
        QueryError::Hex(kind) => "expected hexadecimal u32: "@ + kind.text(),
        QueryError::TagLength =>
            "tag hash must contain exactly 8 hex digits in QuickTag display order"@,
        QueryError::Limit => "limit must be between 1 and 200"@,
        QueryError::Length => "length must be between 1 and 4096"@,
        QueryError::Offset => "offset exceeds tag size"@,
        QueryError::CacheRequired => "this query requires --cache; build it with index first"@,
        QueryError::CacheUnusable => "cache missing, stale or invalid; run index explicitly"@,
        QueryError::IndexCache => "index requires --cache"@,
        QueryError::TagNotFound => "tag not found"@,
        QueryError::NoScanData => "tag has no scan data"@,
        QueryError::NestedServe => "serve cannot be nested"@,
        QueryError::RequestSize => "request exceeds 64 KiB"@,
        QueryError::IdentityMissing(cause) =>
            "cache identity missing; run index --rebuild to bind it to this dataset: "@ + cause,
        QueryError::IdentityInvalid(cause) =>
            "invalid cache identity; run index --rebuild: "@ + cause,
        QueryError::OtherDataset =>
            "cache belongs to another dataset, package snapshot or signatures file; choose another cache or run index --rebuild"@,
        QueryError::Timestamp => "out of range integral type conversion attempted"@,
        QueryError::Outside(cause) => cause,
    }
}

impl QueryError<String> {
    /// The text that is reported for this error.
    pub fn message(&self) -> (text: String)
        ensures
            text@ == error_text(self@),
    {
        match self {
            QueryError::Hex(kind) => {
                "expected hexadecimal u32: ".to_owned().concat(kind.message().as_str())
            },
            QueryError::TagLength => {
                "tag hash must contain exactly 8 hex digits in QuickTag display order".to_owned()
            },
            QueryError::Limit => "limit must be between 1 and 200".to_owned(),
            QueryError::Length => "length must be between 1 and 4096".to_owned(),
            QueryError::Offset => "offset exceeds tag size".to_owned(),
            QueryError::CacheRequired => {
                "this query requires --cache; build it with index first".to_owned()
            },
            QueryError::CacheUnusable => {
                "cache missing, stale or invalid; run index explicitly".to_owned()
            },
            QueryError::IndexCache => "index requires --cache".to_owned(),
            QueryError::TagNotFound => "tag not found".to_owned(),
            QueryError::NoScanData => "tag has no scan data".to_owned(),
            QueryError::NestedServe => "serve cannot be nested".to_owned(),
            QueryError::RequestSize => "request exceeds 64 KiB".to_owned(),
            QueryError::IdentityMissing(cause) => {
                "cache identity missing; run index --rebuild to bind it to this dataset: "
                    .to_owned().concat(cause.as_str())
            },
            QueryError::IdentityInvalid(cause) => {
                "invalid cache identity; run index --rebuild: ".to_owned().concat(cause.as_str())
            },
            QueryError::OtherDataset => {
                "cache belongs to another dataset, package snapshot or signatures file; choose another cache or run index --rebuild".to_owned()
            },
            QueryError::Timestamp => "out of range integral type conversion attempted".to_owned(),
            QueryError::Outside(cause) => cause.clone(),
        }
    }
}

/// The texts of the errors; a cause stands at the end, behind a colon.
pub proof fn law_error_texts(kind: IntError, cause: Seq<char>)
    ensures
        error_text(QueryError::Hex(kind)) == "expected hexadecimal u32: "@ + kind.text(),
        error_text(QueryError::TagLength)
            == "tag hash must contain exactly 8 hex digits in QuickTag display order"@,
        error_text(QueryError::Limit) == "limit must be between 1 and 200"@,
        error_text(QueryError::Length) == "length must be between 1 and 4096"@,
        error_text(QueryError::Offset) == "offset exceeds tag size"@,
        error_text(QueryError::CacheRequired)
            == "this query requires --cache; build it with index first"@,
        error_text(QueryError::CacheUnusable)
            == "cache missing, stale or invalid; run index explicitly"@,
        error_text(QueryError::IndexCache) == "index requires --cache"@,
        error_text(QueryError::TagNotFound) == "tag not found"@,
        error_text(QueryError::NoScanData) == "tag has no scan data"@,
        error_text(QueryError::NestedServe) == "serve cannot be nested"@,
        error_text(QueryError::RequestSize) == "request exceeds 64 KiB"@,
        error_text(QueryError::IdentityMissing(cause))
            == "cache identity missing; run index --rebuild to bind it to this dataset: "@ + cause,
        error_text(QueryError::IdentityInvalid(cause))
            == "invalid cache identity; run index --rebuild: "@ + cause,
        error_text(QueryError::OtherDataset)
            == "cache belongs to another dataset, package snapshot or signatures file; choose another cache or run index --rebuild"@,
        error_text(QueryError::Timestamp) == "out of range integral type conversion attempted"@,
        error_text(QueryError::Outside(cause)) == cause,
{
}

/// An error holds its cause, where it has one.
pub proof fn law_error_views(e: QueryError<String>)
    ensures
        match e {
            QueryError::Hex(kind) => e@ == QueryError::<Seq<char>>::Hex(kind),
            QueryError::IdentityMissing(t) => e@ == QueryError::IdentityMissing(t@),
            QueryError::IdentityInvalid(t) => e@ == QueryError::IdentityInvalid(t@),
            QueryError::Outside(t) => e@ == QueryError::Outside(t@),
            QueryError::TagLength => e@ is TagLength,
            QueryError::Limit => e@ is Limit,
            QueryError::Length => e@ is Length,
            QueryError::Offset => e@ is Offset,
            QueryError::CacheRequired => e@ is CacheRequired,
            QueryError::CacheUnusable => e@ is CacheUnusable,
            QueryError::IndexCache => e@ is IndexCache,
            QueryError::TagNotFound => e@ is TagNotFound,
            QueryError::NoScanData => e@ is NoScanData,
            QueryError::NestedServe => e@ is NestedServe,
            QueryError::RequestSize => e@ is RequestSize,
            QueryError::OtherDataset => e@ is OtherDataset,
            QueryError::Timestamp => e@ is Timestamp,
        },
{
}

} // verus!
