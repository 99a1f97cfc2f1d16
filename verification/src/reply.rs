//! Replies, and the response that carries one.

use vstd::prelude::*;
use vstd::string::*;

use crate::error;
use crate::error::QueryError;
use crate::page;
use crate::page::{PageOf, Paged};
use crate::rows::{
    EdgeRow, HeaderRow, LocalizedRow, MatchRow, NamedRow, PackageRow, RawStringRow, ScanField,
    StringRefRow,
};
use crate::text;

verus! {

/// What an index holds.
#[verifier::ext_equal]
#[derive(Debug)]
pub struct IndexReply<T> {
    /// Where the cache is.
    pub cache: T,
    /// How many tags were scanned.
    pub tags: usize,
    /// How many of them without success.
    pub failed_tags: usize,
    pub cache_version: u32,
}

impl View for IndexReply<String> {
    type V = IndexReply<Seq<char>>;

    open spec fn view(&self) -> IndexReply<Seq<char>> {
        IndexReply {
            cache: self.cache@,
            tags: self.tags,
            failed_tags: self.failed_tags,
            cache_version: self.cache_version,
        }
    }
}

/// The active dataset and the notation of hashes.
#[verifier::ext_equal]
#[derive(Debug)]
pub struct InfoReply<T> {
    pub packages: T,
    pub game_version: T,
    pub cache_key: T,
    pub tag_hash_format: T,
    pub numeric_hash_format: T,
    pub cache: Option<T>,
}

impl View for InfoReply<String> {
    type V = InfoReply<Seq<char>>;

    open spec fn view(&self) -> InfoReply<Seq<char>> {
        InfoReply {
            packages: self.packages@,
            game_version: self.game_version@,
            cache_key: self.cache_key@,
            tag_hash_format: self.tag_hash_format@,
            numeric_hash_format: self.numeric_hash_format@,
            cache: text::optional_text(self.cache),
        }
    }
}

/// Some bytes of a tag.
#[verifier::ext_equal]
#[derive(Debug)]
pub struct BytesReply<T> {
    pub tag: T,
    pub offset: usize,
    /// How many bytes there are.
    pub length: usize,
    /// How many bytes the tag has.
    pub size: usize,
    pub hex: T,
}

impl View for BytesReply<String> {
    type V = BytesReply<Seq<char>>;

    open spec fn view(&self) -> BytesReply<Seq<char>> {
        BytesReply {
            tag: self.tag@,
            offset: self.offset,
            length: self.length,
            size: self.size,
            hex: self.hex@,
        }
    }
}

/// A payload that was written to a file.
#[verifier::ext_equal]
#[derive(Debug)]
pub struct ExportReply<T> {
    pub tag: T,
    pub output: T,
    pub bytes: usize,
}

impl View for ExportReply<String> {
    type V = ExportReply<Seq<char>>;

    open spec fn view(&self) -> ExportReply<Seq<char>> {
        ExportReply { tag: self.tag@, output: self.output@, bytes: self.bytes }
    }
}

/// The answer to a query.
#[derive(Debug)]
pub enum Reply {
    Index(IndexReply<String>),
    Info(InfoReply<String>),
    Named(Paged<NamedRow<String>>),
    StringRefs(Paged<StringRefRow<String>>),
    Packages(Paged<PackageRow<String>>),
    Tags(Paged<HeaderRow<String>>),
    Tag(HeaderRow<String>, ScanField<String>),
    Refs(Paged<EdgeRow<String>>),
    RawStrings(Paged<RawStringRow<String>>),
    LocalizedStrings(Paged<LocalizedRow<String>>),
    Matches(Paged<MatchRow<String>>),
    Bytes(BytesReply<String>),
    Export(ExportReply<String>),
}

/// What a `Reply` holds.
#[verifier::ext_equal]
pub enum ReplyView {
    Index(IndexReply<Seq<char>>),
    Info(InfoReply<Seq<char>>),
    Named(PageOf<NamedRow<Seq<char>>>),
    StringRefs(PageOf<StringRefRow<Seq<char>>>),
    Packages(PageOf<PackageRow<Seq<char>>>),
    Tags(PageOf<HeaderRow<Seq<char>>>),
    Tag(HeaderRow<Seq<char>>, ScanField<Seq<char>>),
    Refs(PageOf<EdgeRow<Seq<char>>>),
    RawStrings(PageOf<RawStringRow<Seq<char>>>),
    LocalizedStrings(PageOf<LocalizedRow<Seq<char>>>),
    Matches(PageOf<MatchRow<Seq<char>>>),
    Bytes(BytesReply<Seq<char>>),
    Export(ExportReply<Seq<char>>),
}

impl View for Reply {
    type V = ReplyView;

    open spec fn view(&self) -> ReplyView {
        match self {
            Reply::Index(x) => ReplyView::Index(x@),
            Reply::Info(x) => ReplyView::Info(x@),
            Reply::Named(x) => ReplyView::Named(page::page_view(*x)),
            Reply::StringRefs(x) => ReplyView::StringRefs(page::page_view(*x)),
            Reply::Packages(x) => ReplyView::Packages(page::page_view(*x)),
            Reply::Tags(x) => ReplyView::Tags(page::page_view(*x)),
            Reply::Tag(header, scan) => ReplyView::Tag(header@, scan@),
            Reply::Refs(x) => ReplyView::Refs(page::page_view(*x)),
            Reply::RawStrings(x) => ReplyView::RawStrings(page::page_view(*x)),
            Reply::LocalizedStrings(x) => ReplyView::LocalizedStrings(page::page_view(*x)),
            Reply::Matches(x) => ReplyView::Matches(page::page_view(*x)),
            Reply::Bytes(x) => ReplyView::Bytes(x@),
            Reply::Export(x) => ReplyView::Export(x@),
        }
    }
}

/// Version of the response format.
pub const SCHEMA_VERSION: u32 = 1;

/// What is written out for a request.
#[derive(Debug)]
pub struct Response {
    pub schema_version: u32,
    pub ok: bool,
    /// The answer, if there is one.
    pub data: Option<Reply>,
    /// The text of the error, if there is one.
    pub error: Option<String>,
}

/// What the outcome of a query is.
pub type Outcome = Result<Reply, QueryError<String>>;

/// The response for the outcome of a query: either the answer or the text of
/// the error.
pub fn response(result: Outcome) -> (r: Response)
    ensures
        r.schema_version == SCHEMA_VERSION,
        r.ok == (result is Ok),
        match result {
            Ok(data) => r.data == Some(data) && r.error is None,
            Err(e) => r.data is None && text::optional_text(r.error) == Some(
                error::error_text(e@),
            ),
        },
{
    match result {
        Ok(data) => Response {
            schema_version: SCHEMA_VERSION,
            ok: true,
            data: Some(data),
            error: None,
        },
        Err(e) => Response {
            schema_version: SCHEMA_VERSION,
            ok: false,
            data: None,
            error: Some(e.message()),
        },
    }
}

/// The status that the process ends with: zero exactly if everything was
/// answered.
pub fn exit_status(outcome: &Result<bool, QueryError<String>>) -> (status: i32)
    ensures
        status == match *outcome {
            Ok(true) => 0int,
            _ => 1int,
        },
{
    match outcome {
        Ok(true) => 0,
        _ => 1,
    }
}

/// A reply holds what its own fields hold.
pub proof fn law_reply_views(
    index: IndexReply<String>,
    info: InfoReply<String>,
    read: BytesReply<String>,
    export: ExportReply<String>,
)
    ensures
        index@.cache == index.cache@,
        index@.tags == index.tags,
        index@.failed_tags == index.failed_tags,
        index@.cache_version == index.cache_version,
        info@.packages == info.packages@,
        info@.game_version == info.game_version@,
        info@.cache_key == info.cache_key@,
        info@.tag_hash_format == info.tag_hash_format@,
        info@.numeric_hash_format == info.numeric_hash_format@,
        info.cache is Some <==> info@.cache is Some,
        info.cache is Some ==> info@.cache->0 == info.cache->0@,
        read@.tag == read.tag@,
        read@.offset == read.offset,
        read@.length == read.length,
        read@.size == read.size,
        read@.hex == read.hex@,
        export@.tag == export.tag@,
        export@.output == export.output@,
        export@.bytes == export.bytes,
{
}

/// A reply of each kind holds what is in it.
pub proof fn law_reply_kinds(reply: Reply)
    ensures
        match reply {
            Reply::Index(x) => reply@ == ReplyView::Index(x@),
            Reply::Info(x) => reply@ == ReplyView::Info(x@),
            Reply::Named(x) => reply@ == ReplyView::Named(page::page_view(x)),
            Reply::StringRefs(x) => reply@ == ReplyView::StringRefs(page::page_view(x)),
            Reply::Packages(x) => reply@ == ReplyView::Packages(page::page_view(x)),
            Reply::Tags(x) => reply@ == ReplyView::Tags(page::page_view(x)),
            Reply::Tag(header, scan) => reply@ == ReplyView::Tag(header@, scan@),
            Reply::Refs(x) => reply@ == ReplyView::Refs(page::page_view(x)),
            Reply::RawStrings(x) => reply@ == ReplyView::RawStrings(page::page_view(x)),
            Reply::LocalizedStrings(x) => reply@ == ReplyView::LocalizedStrings(
                page::page_view(x),
            ),
            Reply::Matches(x) => reply@ == ReplyView::Matches(page::page_view(x)),
            Reply::Bytes(x) => reply@ == ReplyView::Bytes(x@),
            Reply::Export(x) => reply@ == ReplyView::Export(x@),
        },
{
}

} // verus!
