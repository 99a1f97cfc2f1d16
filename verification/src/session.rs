//! Queries: what is answered at once, and what work is asked for first.

use vstd::prelude::*;
use vstd::string::*;

use crate::bytes;
use crate::catalog;
use crate::catalog::Catalog;
use crate::dataset;
use crate::dataset::{Identity, IdentityView, StoredIdentity};
use crate::error::QueryError;
use crate::number;
use crate::page;
use crate::page::Page;
use crate::refs;
use crate::refs::Direction;
use crate::reply;
use crate::reply::{
    BytesReply, ExportReply, IndexReply, InfoReply, Outcome, Reply, ReplyView, Response,
};
use crate::rows::{MatchRow, ScanField};
use crate::scan;
use crate::scan::{StringCache, TagCache};
use crate::tag;
use crate::tag::TagHash;
use crate::text;

verus! {

/// Which strings are searched.
#[derive(Clone, Copy, Debug, PartialEq, Eq, Structural)]
pub enum StringSource {
    /// Those that stand in tags.
    Raw,
    /// The English localized ones.
    Localized,
}

impl Default for StringSource {
    fn default() -> (source: StringSource)
        ensures
            source is Raw,
    {
        StringSource::Raw
    }
}

/// A query.
#[derive(Debug)]
pub enum Command {
    /// Build or reuse the scan cache. This is the only command that scans all
    /// packages.
    Index { rebuild: bool },
    /// Show the active dataset and the notation of hashes.
    Info,
    /// Search named tags.
    Named { query: String, page: Page },
    /// Find tags that contain the hash of a localized string.
    StringRefs { hash: String, page: Page },
    /// List packages.
    Packages { page: Page },
    /// List tags, of one class or all.
    Tags { class: Option<String>, page: Page },
    /// Show one tag.
    Tag { hash: String },
    /// List the direct references of a tag.
    Refs { hash: String, direction: Direction, page: Page },
    /// Search strings.
    Strings { query: String, source: StringSource, page: Page },
    /// List what a scan found in one tag.
    Matches { hash: String, page: Page },
    /// Read some bytes of a tag.
    Bytes { hash: String, offset: usize, length: usize },
    /// Write the payload of a tag to a new file.
    Export { hash: String, output: String },
    /// Answer queries until there are no more; not a query itself.
    Serve,
}

/// Work that has to be done before a query can be answered.
#[derive(Debug)]
pub enum Action {
    /// Load the cache, without scanning, and read the identity beside it.
    LoadCache { path: String, sidecar: String },
    /// See whether there is a cache, and read the identity of the dataset and
    /// the one beside the cache.
    InspectCache { path: String, sidecar: String },
    /// Load the cache or make it by a scan, anew if `rebuild` is set, and then
    /// store `identity` beside it.
    BuildCache { path: String, sidecar: String, rebuild: bool, identity: Identity },
    /// Collect the localized strings.
    BuildStrings,
    /// Read the payload of a tag.
    ReadTag { tag: TagHash },
    /// Write the payload of a tag to a file that does not exist yet.
    Export { tag: TagHash, output: String },
}

/// What an `Action` holds.
#[verifier::ext_equal]
pub enum ActionView {
    LoadCache { path: Seq<char>, sidecar: Seq<char> },
    InspectCache { path: Seq<char>, sidecar: Seq<char> },
    BuildCache { path: Seq<char>, sidecar: Seq<char>, rebuild: bool, identity: IdentityView },
    BuildStrings,
    ReadTag { tag: TagHash },
    Export { tag: TagHash, output: Seq<char> },
}

impl View for Action {
    type V = ActionView;

    open spec fn view(&self) -> ActionView {
        match self {
            Action::LoadCache { path, sidecar } => ActionView::LoadCache {
                path: path@,
                sidecar: sidecar@,
            },
            Action::InspectCache { path, sidecar } => ActionView::InspectCache {
                path: path@,
                sidecar: sidecar@,
            },
            Action::BuildCache { path, sidecar, rebuild, identity } => ActionView::BuildCache {
                path: path@,
                sidecar: sidecar@,
                rebuild: *rebuild,
                identity: identity@,
            },
            Action::BuildStrings => ActionView::BuildStrings,
            Action::ReadTag { tag } => ActionView::ReadTag { tag: *tag },
            Action::Export { tag, output } => ActionView::Export { tag: *tag, output: output@ },
        }
    }
}

/// What is to happen next for a query.
#[derive(Debug)]
pub enum Step {
    /// Some work, whose result is then handed back.
    Perform(Action),
    /// Nothing more: this is the outcome.
    Done(Outcome),
}

/// What a `Step` holds.
#[verifier::ext_equal]
pub enum StepView {
    Perform(ActionView),
    Done(Result<ReplyView, QueryError<Seq<char>>>),
}

impl View for Step {
    type V = StepView;

    open spec fn view(&self) -> StepView {
        match self {
            Step::Perform(action) => StepView::Perform(action@),
            Step::Done(Ok(reply)) => StepView::Done(Ok(reply@)),
            Step::Done(Err(e)) => StepView::Done(Err(e@)),
        }
    }
}

/// What came of loading a cache.
#[derive(Debug)]
pub enum CacheRead {
    /// The cache.
    Loaded(TagCache),
    /// There is none, or none that can be used.
    Rebuild,
    /// Reading it failed; the reason.
    Failed(String),
}

/// What was done, or that nothing was done yet.
#[derive(Debug)]
pub enum Event {
    /// The query was asked.
    Asked,
    /// The cache was loaded. `current` is the identity of the dataset, `stored`
    /// what is beside the cache.
    CacheLoaded {
        read: CacheRead,
        current: Result<Identity, QueryError<String>>,
        stored: StoredIdentity,
    },
    /// It was seen whether there is a cache. `current` is the identity of the
    /// dataset, `stored` what is beside the cache.
    CacheInspected {
        exists: bool,
        current: Result<Identity, QueryError<String>>,
        stored: StoredIdentity,
    },
    /// The cache was made, and the identity stored beside it.
    CacheBuilt(Result<TagCache, String>),
    /// The localized strings were collected.
    StringsBuilt(Result<StringCache, String>),
    /// A payload was read.
    TagRead(Result<Vec<u8>, String>),
    /// A payload was written: to which file, and how many bytes.
    Exported(Result<(String, usize), String>),
}

/// That `index` has looked at the cache and may go on.
#[derive(Debug)]
pub struct Inspected {
    /// Whether the cache is to be made anew.
    pub rebuild: bool,
    /// The identity of the dataset that the cache is to be bound to.
    pub identity: Identity,
}

/// What is kept from one query to the next.
#[derive(Debug)]
pub struct Session {
    /// Where the cache is, if one was named.
    pub cache_path: Option<String>,
    /// The cache, once it is loaded.
    pub cache: Option<TagCache>,
    /// The localized strings, once they are collected.
    pub strings: Option<StringCache>,
    /// What the running `index` has seen so far.
    pub inspected: Option<Inspected>,
}

// ---------------------------------------------------------------------------
// What a query asks for
// ---------------------------------------------------------------------------

/// The step for a query that fails.
pub open spec fn failed(e: QueryError<Seq<char>>) -> StepView {
    StepView::Done(Err(e))
}

/// What a query asks for that reads scan data while no cache is loaded.
pub open spec fn cache_wanted(path: Option<String>) -> StepView {
    match path {
        Some(p) => StepView::Perform(
            ActionView::LoadCache { path: p@, sidecar: dataset::sidecar_path(p@) },
        ),
        None => failed(QueryError::CacheRequired),
    }
}

/// What the reply to `info` says.
pub open spec fn info_of(catalog: Catalog, path: Option<String>) -> InfoReply<Seq<char>> {
    InfoReply {
        packages: catalog.package_dir@,
        game_version: catalog.game_version@,
        cache_key: catalog.cache_key@,
        tag_hash_format: "8 hex digits in QuickTag display (little-endian byte) order"@,
        numeric_hash_format: "0x-prefixed hex integers"@,
        cache: text::optional_text(path),
    }
}

/// Whether `index` has looked at the cache and may go on.
pub open spec fn inspected_for(inspected: Option<Inspected>, rebuild: bool) -> bool {
    inspected matches Some(i) && i.rebuild == rebuild
}

/// `index`: the cache is looked at first. It is then made, and bound to the
/// dataset that was seen.
pub open spec fn index_step(
    path: Option<String>,
    inspected: Option<Inspected>,
    rebuild: bool,
) -> StepView {
    match path {
        Some(p) => if inspected_for(inspected, rebuild) {
            StepView::Perform(
                ActionView::BuildCache {
                    path: p@,
                    sidecar: dataset::sidecar_path(p@),
                    rebuild,
                    identity: inspected->0.identity@,
                },
            )
        } else {
            StepView::Perform(
                ActionView::InspectCache { path: p@, sidecar: dataset::sidecar_path(p@) },
            )
        },
        None => failed(QueryError::IndexCache),
    }
}

/// `named`.
pub open spec fn named_step(catalog: Catalog, query: Seq<char>, page: Page) -> StepView {
    match page.result_of(catalog::named_rows_of(catalog.named_tags@, query)) {
        Ok(found) => StepView::Done(Ok(ReplyView::Named(found))),
        Err(e) => failed(e),
    }
}

/// `string_refs`.
pub open spec fn string_refs_step(session: Session, hash: Seq<char>, page: Page) -> StepView {
    match number::read_hex32(hash) {
        Err(kind) => failed(QueryError::Hex(kind)),
        Ok(wanted) => match session.cache {
            None => cache_wanted(session.cache_path),
            Some(cache) => match page.result_of(
                scan::string_refs_of(cache.hashes@, cache.keys(), wanted as u32),
            ) {
                Ok(found) => StepView::Done(Ok(ReplyView::StringRefs(found))),
                Err(e) => failed(e),
            },
        },
    }
}

/// `packages`.
pub open spec fn packages_step(catalog: Catalog, page: Page) -> StepView {
    match page.result_of(catalog::package_rows_of(catalog.package_paths@)) {
        Ok(found) => StepView::Done(Ok(ReplyView::Packages(found))),
        Err(e) => failed(e),
    }
}

/// The class that a listing of tags is restricted to.
pub open spec fn class_filter(class: Option<String>) -> Result<
    Option<u32>,
    QueryError<Seq<char>>,
> {
    match class {
        None => Ok(None),
        Some(c) => match number::read_hex32(c@) {
            Ok(wanted) => Ok(Some(wanted as u32)),
            Err(kind) => Err(QueryError::Hex(kind)),
        },
    }
}

/// `tags`.
pub open spec fn tags_step(catalog: Catalog, class: Option<String>, page: Page) -> StepView {
    match class_filter(class) {
        Err(e) => failed(e),
        Ok(wanted) => match page.result_of(catalog.tag_rows(wanted)) {
            Ok(found) => StepView::Done(Ok(ReplyView::Tags(found))),
            Err(e) => failed(e),
        },
    }
}

/// What a reply says of the scan of a tag, where a cache is loaded.
pub open spec fn scan_field(cache: TagCache, tag: TagHash) -> ScanField<Seq<char>> {
    if cache.hashes@.contains_key(tag.0) {
        ScanField::Counts(scan::counts_of(cache.hashes@[tag.0]))
    } else {
        ScanField::NoData
    }
}

/// `tag`.
pub open spec fn tag_step(session: Session, catalog: Catalog, hash: Seq<char>) -> StepView {
    match tag::read_tag(hash) {
        Err(e) => failed(e),
        Ok(tag) => if catalog::entry_of(catalog.packages@, tag) is None {
            failed(QueryError::TagNotFound)
        } else if session.cache_path is None {
            StepView::Done(Ok(ReplyView::Tag(catalog.header_of(tag), ScanField::Absent)))
        } else {
            match session.cache {
                None => cache_wanted(session.cache_path),
                Some(cache) => StepView::Done(
                    Ok(ReplyView::Tag(catalog.header_of(tag), scan_field(cache, tag))),
                ),
            }
        },
    }
}

/// `refs`.
pub open spec fn refs_step(
    session: Session,
    catalog: Catalog,
    hash: Seq<char>,
    direction: Direction,
    page: Page,
) -> StepView {
    match tag::read_tag(hash) {
        Err(e) => failed(e),
        Ok(tag) => match session.cache {
            None => cache_wanted(session.cache_path),
            Some(cache) => if !cache.hashes@.contains_key(tag.0) {
                failed(QueryError::NoScanData)
            } else {
                match page.result_of(
                    refs::ref_rows_of(cache.hashes@, catalog.tag64_entries@, tag, direction),
                ) {
                    Ok(found) => StepView::Done(Ok(ReplyView::Refs(found))),
                    Err(e) => failed(e),
                }
            },
        },
    }
}

/// `strings`.
pub open spec fn strings_step(
    session: Session,
    query: Seq<char>,
    source: StringSource,
    page: Page,
) -> StepView {
    match source {
        StringSource::Raw => match session.cache {
            None => cache_wanted(session.cache_path),
            Some(cache) => match page.result_of(scan::raw_rows(cache.hashes@, query)) {
                Ok(found) => StepView::Done(Ok(ReplyView::RawStrings(found))),
                Err(e) => failed(e),
            },
        },
        StringSource::Localized => match session.strings {
            None => StepView::Perform(ActionView::BuildStrings),
            Some(strings) => match page.result_of(scan::localized_rows(strings@, query)) {
                Ok(found) => StepView::Done(Ok(ReplyView::LocalizedStrings(found))),
                Err(e) => failed(e),
            },
        },
    }
}

/// `matches`.
pub open spec fn matches_step(session: Session, hash: Seq<char>, page: Page) -> StepView {
    match tag::read_tag(hash) {
        Err(e) => failed(e),
        Ok(tag) => match session.cache {
            None => cache_wanted(session.cache_path),
            Some(cache) => if !cache.hashes@.contains_key(tag.0) {
                failed(QueryError::NoScanData)
            } else {
                match page.result_of(scan::match_rows_of(cache.hashes@[tag.0])) {
                    Ok(found) => StepView::Done(Ok(ReplyView::Matches(found))),
                    Err(e) => failed(e),
                }
            },
        },
    }
}

/// `bytes`, before the payload is read.
pub open spec fn bytes_step(hash: Seq<char>, length: usize) -> StepView {
    if !(1 <= length <= bytes::MAX_LENGTH) {
        failed(QueryError::Length)
    } else {
        match tag::read_tag(hash) {
            Err(e) => failed(e),
            Ok(tag) => StepView::Perform(ActionView::ReadTag { tag }),
        }
    }
}

/// `export`, before the payload is written.
pub open spec fn export_step(hash: Seq<char>, output: Seq<char>) -> StepView {
    match tag::read_tag(hash) {
        Err(e) => failed(e),
        Ok(tag) => StepView::Perform(ActionView::Export { tag, output }),
    }
}

/// What a query asks for.
pub open spec fn asked(session: Session, catalog: Catalog, command: Command) -> StepView {
    match command {
        Command::Index { rebuild } => index_step(session.cache_path, session.inspected, rebuild),
        Command::Info => StepView::Done(
            Ok(ReplyView::Info(info_of(catalog, session.cache_path))),
        ),
        Command::Named { query, page } => named_step(catalog, query@, page),
        Command::StringRefs { hash, page } => string_refs_step(session, hash@, page),
        Command::Packages { page } => packages_step(catalog, page),
        Command::Tags { class, page } => tags_step(catalog, class, page),
        Command::Tag { hash } => tag_step(session, catalog, hash@),
        Command::Refs { hash, direction, page } => refs_step(
            session,
            catalog,
            hash@,
            direction,
            page,
        ),
        Command::Strings { query, source, page } => strings_step(session, query@, source, page),
        Command::Matches { hash, page } => matches_step(session, hash@, page),
        Command::Bytes { hash, offset, length } => bytes_step(hash@, length),
        Command::Export { hash, output } => export_step(hash@, output@),
        Command::Serve => failed(QueryError::NestedServe),
    }
}

impl Session {
    /// A session without anything loaded.
    pub fn new(cache_path: Option<String>) -> (session: Session)
        ensures
            session.cache_path == cache_path,
            session.cache is None,
            session.strings is None,
            session.inspected is None,
    {
        Session { cache_path, cache: None, strings: None, inspected: None }
    }

    /// What a query asks for that reads scan data while no cache is loaded.
    fn want_cache(&self) -> (step: Step)
        ensures
            step@ == cache_wanted(self.cache_path),
    {
        match &self.cache_path {
            Some(path) => Step::Perform(
                Action::LoadCache {
                    path: path.clone(),
                    sidecar: dataset::sidecar(path.as_str()),
                },
            ),
            None => Step::Done(Err(QueryError::CacheRequired)),
        }
    }

    fn ask_index(&self, rebuild: bool) -> (step: Step)
        ensures
            step@ == index_step(self.cache_path, self.inspected, rebuild),
    {
        match &self.cache_path {
            Some(path) => {
                let path = path.clone();
                let sidecar = dataset::sidecar(path.as_str());
                if let Some(inspected) = &self.inspected {
                    if inspected.rebuild == rebuild {
                        let identity = inspected.identity.copy();
                        return Step::Perform(
                            Action::BuildCache { path, sidecar, rebuild, identity },
                        );
                    }
                }
                Step::Perform(Action::InspectCache { path, sidecar })
            },
            None => Step::Done(Err(QueryError::IndexCache)),
        }
    }

    fn ask_info(&self, catalog: &Catalog) -> (step: Step)
        ensures
            step@ == StepView::Done(Ok(ReplyView::Info(info_of(*catalog, self.cache_path)))),
    {
        Step::Done(
            Ok(
                Reply::Info(
                    InfoReply {
                        packages: catalog.package_dir.clone(),
                        game_version: catalog.game_version.clone(),
                        cache_key: catalog.cache_key.clone(),
                        tag_hash_format:
                            "8 hex digits in QuickTag display (little-endian byte) order".to_owned(),
                        numeric_hash_format: "0x-prefixed hex integers".to_owned(),
                        cache: match &self.cache_path {
                            Some(path) => Some(path.clone()),
                            None => None,
                        },
                    },
                ),
            ),
        )
    }

    fn ask_string_refs(&self, hash: &str, page: Page) -> (step: Step)
        ensures
            step@ == string_refs_step(*self, hash@, page),
    {
        let wanted = match number::hex32(hash) {
            Ok(wanted) => wanted,
            Err(e) => {
                return Step::Done(Err(e));
            },
        };
        match &self.cache {
            None => self.want_cache(),
            Some(cache) => match page::page_rows(page, cache.string_refs(wanted)) {
                Ok(found) => Step::Done(Ok(Reply::StringRefs(found))),
                Err(e) => Step::Done(Err(e)),
            },
        }
    }

    fn ask_tag(&self, catalog: &Catalog, hash: &str) -> (step: Step)
        ensures
            step@ == tag_step(*self, *catalog, hash@),
    {
        let tag = match tag::parse_tag(hash) {
            Ok(tag) => tag,
            Err(e) => {
                return Step::Done(Err(e));
            },
        };
        if catalog.get_entry(tag).is_none() {
            return Step::Done(Err(QueryError::TagNotFound));
        }
        if self.cache_path.is_none() {
            return Step::Done(Ok(Reply::Tag(catalog.header(tag), ScanField::Absent)));
        }
        match &self.cache {
            None => self.want_cache(),
            Some(cache) => {
                let field = match cache.get(tag) {
                    Some(found) => ScanField::Counts(found.counts()),
                    None => ScanField::NoData,
                };
                Step::Done(Ok(Reply::Tag(catalog.header(tag), field)))
            },
        }
    }

    fn ask_refs(&self, catalog: &Catalog, hash: &str, direction: Direction, page: Page) -> (step:
        Step)
        ensures
            step@ == refs_step(*self, *catalog, hash@, direction, page),
    {
        let tag = match tag::parse_tag(hash) {
            Ok(tag) => tag,
            Err(e) => {
                return Step::Done(Err(e));
            },
        };
        match &self.cache {
            None => self.want_cache(),
            Some(cache) => match cache.ref_rows(&catalog.tag64_entries, tag, direction) {
                None => Step::Done(Err(QueryError::NoScanData)),
                Some(rows) => match page::page_rows(page, rows) {
                    Ok(found) => Step::Done(Ok(Reply::Refs(found))),
                    Err(e) => Step::Done(Err(e)),
                },
            },
        }
    }

    fn ask_strings(&self, query: &str, source: StringSource, page: Page) -> (step: Step)
        ensures
            step@ == strings_step(*self, query@, source, page),
    {
        match source {
            StringSource::Raw => match &self.cache {
                None => self.want_cache(),
                Some(cache) => match cache.find_raw(query, page) {
                    Ok(found) => Step::Done(Ok(Reply::RawStrings(found))),
                    Err(e) => Step::Done(Err(e)),
                },
            },
            StringSource::Localized => match &self.strings {
                None => Step::Perform(Action::BuildStrings),
                Some(strings) => match scan::find_localized(strings, query, page) {
                    Ok(found) => Step::Done(Ok(Reply::LocalizedStrings(found))),
                    Err(e) => Step::Done(Err(e)),
                },
            },
        }
    }

    fn ask_matches(&self, hash: &str, page: Page) -> (step: Step)
        ensures
            step@ == matches_step(*self, hash@, page),
    {
        let tag = match tag::parse_tag(hash) {
            Ok(tag) => tag,
            Err(e) => {
                return Step::Done(Err(e));
            },
        };
        match &self.cache {
            None => self.want_cache(),
            Some(cache) => match cache.get(tag) {
                None => Step::Done(Err(QueryError::NoScanData)),
                Some(found) => match page::page_rows(page, found.match_rows()) {
                    Ok(found) => Step::Done(Ok(Reply::Matches(found))),
                    Err(e) => Step::Done(Err(e)),
                },
            },
        }
    }

    /// What a query asks for.
    pub fn ask(&self, catalog: &Catalog, command: &Command) -> (step: Step)
        ensures
            step@ == asked(*self, *catalog, *command),
    {
        match command {
            Command::Index { rebuild } => self.ask_index(*rebuild),
            Command::Info => self.ask_info(catalog),
            Command::Named { query, page } => match catalog.find_named(query.as_str(), *page) {
                Ok(found) => Step::Done(Ok(Reply::Named(found))),
                Err(e) => Step::Done(Err(e)),
            },
            Command::StringRefs { hash, page } => self.ask_string_refs(hash.as_str(), *page),
            Command::Packages { page } => match page::page_rows(*page, catalog.package_rows()) {
                Ok(found) => Step::Done(Ok(Reply::Packages(found))),
                Err(e) => Step::Done(Err(e)),
            },
            Command::Tags { class, page } => {
                let wanted = match class {
                    None => None,
                    Some(c) => match number::hex32(c.as_str()) {
                        Ok(wanted) => Some(wanted),
                        Err(e) => {
                            return Step::Done(Err(e));
                        },
                    },
                };
                match catalog.find_tags(wanted, *page) {
                    Ok(found) => Step::Done(Ok(Reply::Tags(found))),
                    Err(e) => Step::Done(Err(e)),
                }
            },
            Command::Tag { hash } => self.ask_tag(catalog, hash.as_str()),
            Command::Refs { hash, direction, page } => self.ask_refs(
                catalog,
                hash.as_str(),
                *direction,
                *page,
            ),
            Command::Strings { query, source, page } => self.ask_strings(
                query.as_str(),
                *source,
                *page,
            ),
            Command::Matches { hash, page } => self.ask_matches(hash.as_str(), *page),
            Command::Bytes { hash, offset, length } => {
                if *length < 1 || *length > bytes::MAX_LENGTH {
                    return Step::Done(Err(QueryError::Length));
                }
                match tag::parse_tag(hash.as_str()) {
                    Ok(tag) => Step::Perform(Action::ReadTag { tag }),
                    Err(e) => Step::Done(Err(e)),
                }
            },
            Command::Export { hash, output } => match tag::parse_tag(hash.as_str()) {
                Ok(tag) => Step::Perform(Action::Export { tag, output: output.clone() }),
                Err(e) => Step::Done(Err(e)),
            },
            Command::Serve => Step::Done(Err(QueryError::NestedServe)),
        }
    }
}

// ---------------------------------------------------------------------------
// What follows from the work
// ---------------------------------------------------------------------------

/// The cache that may be used after loading: only one that was made from the
/// current dataset.
pub open spec fn admitted(
    read: CacheRead,
    current: Result<Identity, QueryError<String>>,
    stored: StoredIdentity,
) -> Result<TagCache, QueryError<Seq<char>>> {
    match read {
        CacheRead::Failed(cause) => Err(QueryError::Outside(cause@)),
        CacheRead::Rebuild => Err(QueryError::CacheUnusable),
        CacheRead::Loaded(cache) => match current {
            Err(e) => Err(e@),
            Ok(identity) => match dataset::verdict(identity@, stored) {
                Err(e) => Err(e),
                Ok(_) => Ok(cache),
            },
        },
    }
}

/// Whether `index` may go on: where there is a cache that is not to be made
/// anew, only if it was made from the current dataset.
pub open spec fn index_permitted(
    rebuild: bool,
    exists: bool,
    current: Result<Identity, QueryError<String>>,
    stored: StoredIdentity,
) -> Result<Identity, QueryError<Seq<char>>> {
    match current {
        Err(e) => Err(e@),
        Ok(identity) => if exists && !rebuild {
            match dataset::verdict(identity@, stored) {
                Err(e) => Err(e),
                Ok(_) => Ok(identity),
            }
        } else {
            Ok(identity)
        },
    }
}

/// What the reply to `index` says.
pub open spec fn index_of(path: Seq<char>, cache: TagCache) -> IndexReply<Seq<char>> {
    IndexReply {
        cache: path,
        tags: cache.keys().len() as usize,
        failed_tags: scan::failed_count(cache.hashes@, cache.keys()) as usize,
        cache_version: cache.version,
    }
}

/// `bytes`, when the payload is read.
pub open spec fn bytes_done(
    tag: TagHash,
    offset: usize,
    length: usize,
    data: Seq<u8>,
) -> StepView {
    match bytes::window(data, offset as int, length as int) {
        Err(e) => failed(e),
        Ok(found) => StepView::Done(
            Ok(
                ReplyView::Bytes(
                    BytesReply {
                        tag: tag::tag_text(tag),
                        offset,
                        length: found.len() as usize,
                        size: data.len() as usize,
                        hex: bytes::hex_bytes(found),
                    },
                ),
            ),
        ),
    }
}

/// `export`, when the payload is written.
pub open spec fn export_done(tag: TagHash, output: Seq<char>, size: usize) -> StepView {
    StepView::Done(
        Ok(ReplyView::Export(ExportReply { tag: tag::tag_text(tag), output, bytes: size })),
    )
}

/// The session and the step after an event. An event counts only if it answers
/// the work that the query asks for; else it changes nothing. What an earlier
/// `index` has seen does not count for a query that is asked anew.
pub open spec fn next(session: Session, catalog: Catalog, command: Command, event: Event) -> (
    Session,
    StepView,
) {
    let fresh = Session { inspected: None, ..session };
    let wanted = asked(session, catalog, command);
    match (event, wanted) {
        (Event::Asked, _) => (fresh, asked(fresh, catalog, command)),
        (
            Event::CacheLoaded { read, current, stored },
            StepView::Perform(ActionView::LoadCache { .. }),
        ) => match admitted(read, current, stored) {
            Ok(cache) => {
                let after = Session { cache: Some(cache), ..session };
                (after, asked(after, catalog, command))
            },
            Err(e) => (session, failed(e)),
        },
        (
            Event::CacheInspected { exists, current, stored },
            StepView::Perform(ActionView::InspectCache { .. }),
        ) => {
            let rebuild = command->Index_rebuild;
            match index_permitted(rebuild, exists, current, stored) {
                Ok(identity) => {
                    let after = Session {
                        inspected: Some(Inspected { rebuild, identity }),
                        ..session
                    };
                    (after, asked(after, catalog, command))
                },
                Err(e) => (fresh, failed(e)),
            }
        },
        (Event::CacheBuilt(built), StepView::Perform(ActionView::BuildCache { path, .. })) =>
            match built {
                Ok(cache) => (
                    Session { cache: Some(cache), ..fresh },
                    StepView::Done(Ok(ReplyView::Index(index_of(path, cache)))),
                ),
                Err(cause) => (fresh, failed(QueryError::Outside(cause@))),
            },
        (Event::StringsBuilt(built), StepView::Perform(ActionView::BuildStrings)) => match built {
            Ok(strings) => {
                let after = Session { strings: Some(strings), ..session };
                (after, asked(after, catalog, command))
            },
            Err(cause) => (session, failed(QueryError::Outside(cause@))),
        },
        (Event::TagRead(read), StepView::Perform(ActionView::ReadTag { tag })) => match read {
            Ok(data) => (
                session,
                bytes_done(tag, command->Bytes_offset, command->Bytes_length, data@),
            ),
            Err(cause) => (session, failed(QueryError::Outside(cause@))),
        },
        (Event::Exported(written), StepView::Perform(ActionView::Export { tag, .. })) =>
            match written {
                Ok((output, size)) => (session, export_done(tag, output@, size)),
                Err(cause) => (session, failed(QueryError::Outside(cause@))),
            },
        _ => (session, wanted),
    }
}

fn accept_cache(
    read: CacheRead,
    current: Result<Identity, QueryError<String>>,
    stored: StoredIdentity,
) -> (r: Result<TagCache, QueryError<String>>)
    ensures
        match r {
            Ok(cache) => admitted(read, current, stored) == Ok::<
                TagCache,
                QueryError<Seq<char>>,
            >(cache),
            Err(e) => admitted(read, current, stored) == Err::<
                TagCache,
                QueryError<Seq<char>>,
            >(e@),
        },
{
    match read {
        CacheRead::Failed(cause) => Err(QueryError::Outside(cause)),
        CacheRead::Rebuild => Err(QueryError::CacheUnusable),
        CacheRead::Loaded(cache) => match permit_index(false, true, current, stored) {
            Ok(_) => Ok(cache),
            Err(e) => Err(e),
        },
    }
}

fn permit_index(
    rebuild: bool,
    exists: bool,
    current: Result<Identity, QueryError<String>>,
    stored: StoredIdentity,
) -> (r: Result<Identity, QueryError<String>>)
    ensures
        match r {
            Ok(identity) => index_permitted(rebuild, exists, current, stored) == Ok::<
                Identity,
                QueryError<Seq<char>>,
            >(identity),
            Err(e) => index_permitted(rebuild, exists, current, stored) == Err::<
                Identity,
                QueryError<Seq<char>>,
            >(e@),
        },
{
    match current {
        Ok(identity) => {
            if exists && !rebuild {
                match identity.verify(&stored) {
                    Ok(_) => Ok(identity),
                    Err(e) => Err(e),
                }
            } else {
                Ok(identity)
            }
        },
        Err(e) => Err(e),
    }
}

fn read_bytes(tag: TagHash, offset: usize, length: usize, data: &Vec<u8>) -> (step: Step)
    ensures
        step@ == bytes_done(tag, offset, length, data@),
{
    match bytes::byte_range(data.as_slice(), offset, length) {
        Ok(found) => Step::Done(
            Ok(
                Reply::Bytes(
                    BytesReply {
                        tag: tag::tag_name(tag),
                        offset,
                        length: found.len(),
                        size: data.len(),
                        hex: bytes::hex_text(found),
                    },
                ),
            ),
        ),
        Err(e) => Step::Done(Err(e)),
    }
}

impl Session {
    /// Takes a query a step further, after an event.
    pub fn query(&mut self, catalog: &Catalog, command: &Command, event: Event) -> (step: Step)
        ensures
            (*final(self), step@) == next(*old(self), *catalog, *command, event),
    {
        if let Event::Asked = event {
            self.inspected = None;
            return self.ask(catalog, command);
        }
        let wanted = self.ask(catalog, command);
        match (event, wanted) {
            (
                Event::CacheLoaded { read, current, stored },
                Step::Perform(Action::LoadCache { .. }),
            ) => match accept_cache(read, current, stored) {
                Ok(cache) => {
                    self.cache = Some(cache);
                    self.ask(catalog, command)
                },
                Err(e) => Step::Done(Err(e)),
            },
            (
                Event::CacheInspected { exists, current, stored },
                Step::Perform(Action::InspectCache { path, sidecar }),
            ) => match command {
                Command::Index { rebuild } => match permit_index(
                    *rebuild,
                    exists,
                    current,
                    stored,
                ) {
                    Ok(identity) => {
                        self.inspected = Some(Inspected { rebuild: *rebuild, identity });
                        self.ask(catalog, command)
                    },
                    Err(e) => {
                        self.inspected = None;
                        Step::Done(Err(e))
                    },
                },
                _ => {
                    assert(false);
                    Step::Perform(Action::InspectCache { path, sidecar })
                },
            },
            (Event::CacheBuilt(built), Step::Perform(Action::BuildCache { path, .. })) => {
                self.inspected = None;
                match built {
                    Ok(cache) => {
                        let (tags, failed_tags) = cache.tally();
                        let cache_version = cache.version;
                        self.cache = Some(cache);
                        Step::Done(
                            Ok(
                                Reply::Index(
                                    IndexReply { cache: path, tags, failed_tags, cache_version },
                                ),
                            ),
                        )
                    },
                    Err(cause) => Step::Done(Err(QueryError::Outside(cause))),
                }
            },
            (Event::StringsBuilt(built), Step::Perform(Action::BuildStrings)) => match built {
                Ok(strings) => {
                    self.strings = Some(strings);
                    self.ask(catalog, command)
                },
                Err(cause) => Step::Done(Err(QueryError::Outside(cause))),
            },
            (Event::TagRead(read), Step::Perform(Action::ReadTag { tag })) => match read {
                Ok(data) => match command {
                    Command::Bytes { offset, length, .. } => read_bytes(
                        tag,
                        *offset,
                        *length,
                        &data,
                    ),
                    _ => {
                        assert(false);
                        Step::Perform(Action::ReadTag { tag })
                    },
                },
                Err(cause) => Step::Done(Err(QueryError::Outside(cause))),
            },
            (Event::Exported(written), Step::Perform(Action::Export { tag, .. })) =>
                match written {
                    Ok((output, size)) => Step::Done(
                        Ok(
                            Reply::Export(
                                ExportReply { tag: tag::tag_name(tag), output, bytes: size },
                            ),
                        ),
                    ),
                    Err(cause) => Step::Done(Err(QueryError::Outside(cause))),
                },
            (_, wanted) => wanted,
        }
    }
}

// ---------------------------------------------------------------------------
// Serving
// ---------------------------------------------------------------------------

/// What is to be done for a request.
#[derive(Debug)]
pub enum Turn {
    /// There are no more requests.
    Stop,
    /// The request is refused with this response.
    Answer(Response),
    /// The query is to be run, and its outcome to be answered.
    Run(Command),
}

/// What is to be done for a request: one that cannot be read is answered with
/// its error, and the next one is taken.
pub fn turn(request: Option<Result<Command, QueryError<String>>>) -> (turn: Turn)
    ensures
        match (request, turn) {
            (None, Turn::Stop) => true,
            (Some(Err(e)), Turn::Answer(r)) => !r.ok && r.data is None && text::optional_text(
                r.error,
            ) == Some(crate::error::error_text(e@)) && r.schema_version == reply::SCHEMA_VERSION,
            (Some(Ok(command)), Turn::Run(wanted)) => command == wanted,
            _ => false,
        },
{
    match request {
        None => Turn::Stop,
        Some(Err(e)) => Turn::Answer(reply::response(Err(e))),
        Some(Ok(command)) => Turn::Run(command),
    }
}

// ---------------------------------------------------------------------------
// Laws
// ---------------------------------------------------------------------------

/// No query but `index` ever leads to a scan of the packages.
pub proof fn law_only_index_scans(
    session: Session,
    catalog: Catalog,
    command: Command,
    event: Event,
)
    ensures
        next(session, catalog, command, event).1 matches StepView::Perform(action) ==> (action
            is BuildCache || action is InspectCache ==> command is Index),
{
}

/// What is loaded stays loaded: no query drops the localized strings or the
/// cache, and only `index` replaces the cache. The path of the cache never
/// changes.
pub proof fn law_loaded_data_stays(
    session: Session,
    catalog: Catalog,
    command: Command,
    event: Event,
)
    ensures
        ({
            let after = next(session, catalog, command, event).0;
            &&& after.cache_path == session.cache_path
            &&& session.strings is Some ==> after.strings == session.strings
            &&& session.cache is Some ==> after.cache is Some
            &&& session.cache is Some && !(command is Index) ==> after.cache == session.cache
        }),
{
}

/// What is loaded is not asked for again: the cache is loaded, and the
/// localized strings are collected, at most once in a session.
pub proof fn law_loaded_once(session: Session, catalog: Catalog, command: Command, event: Event)
    ensures
        ({
            let (after, step) = next(session, catalog, command, event);
            &&& after.cache is Some ==> !(step matches StepView::Perform(action) && action
                is LoadCache)
            &&& after.strings is Some ==> !(step matches StepView::Perform(action) && action
                is BuildStrings)
        }),
{
}

/// A cache comes into use only if it was made from the current dataset: either
/// the very identity of the dataset is stored beside it, or `index` has just
/// made it, after it has looked at what was there before.
pub proof fn law_cache_matches_dataset(
    session: Session,
    catalog: Catalog,
    command: Command,
    event: Event,
)
    ensures
        next(session, catalog, command, event).0.cache != session.cache ==> match event {
            Event::CacheLoaded { current, stored, .. } => current is Ok && match stored {
                StoredIdentity::Found(identity) => identity@ == current->Ok_0@,
                _ => false,
            },
            Event::CacheBuilt(built) => {
                &&& built is Ok
                &&& command matches Command::Index { rebuild }
                &&& inspected_for(session.inspected, rebuild)
            },
            _ => false,
        },
{
}

/// An existing cache of another dataset is never used for a new index, unless
/// it is to be made anew.
pub proof fn law_index_keeps_other_cache(
    session: Session,
    catalog: Catalog,
    current: Identity,
    stored: StoredIdentity,
)
    requires
        session.cache_path is Some,
        !inspected_for(session.inspected, false),
        !(stored matches StoredIdentity::Found(identity) && identity@ == current@),
    ensures
        ({
            let event = Event::CacheInspected { exists: true, current: Ok(current), stored };
            let (after, step) = next(
                session,
                catalog,
                Command::Index { rebuild: false },
                event,
            );
            &&& after == (Session { inspected: None, ..session })
            &&& step matches StepView::Done(outcome)
            &&& outcome is Err
        }),
{
}

/// The session after some queries were taken further by some events.
pub open spec fn session_after(
    session: Session,
    catalog: Catalog,
    history: Seq<(Command, Event)>,
) -> Session
    decreases history.len(),
{
    if history.len() == 0 {
        session
    } else {
        let before = session_after(session, catalog, history.drop_last());
        next(before, catalog, history.last().0, history.last().1).0
    }
}

/// Whether at some point `index` has looked at the cache and was permitted to go
/// on, with this dataset: there was no cache, or it is to be made anew, or the
/// dataset's own identity was stored beside it.
pub open spec fn inspection(at: (Command, Event), inspected: Inspected) -> bool {
    &&& at.0 == (Command::Index { rebuild: inspected.rebuild })
    &&& at.1 matches Event::CacheInspected { exists, current, stored }
    &&& current == Ok::<Identity, QueryError<String>>(inspected.identity)
    &&& exists && !inspected.rebuild ==> dataset::verdict(inspected.identity@, stored) is Ok
}

/// What an `index` has seen is what the event tells, if that is an inspection
/// that permits it to go on; else it was seen before, in the same query.
proof fn lemma_inspected_step(before: Session, catalog: Catalog, command: Command, event: Event)
    ensures
        next(before, catalog, command, event).0.inspected matches Some(inspected) ==> inspection(
            (command, event),
            inspected,
        ) || (before.inspected == Some(inspected) && !(event is Asked)),
{
}

/// A cache is made only after the cache that was there has been looked at: a
/// session that is about to make one has done so since `index` was last asked.
#[verifier::rlimit(40)]
pub proof fn law_inspection_precedes_build(
    session: Session,
    catalog: Catalog,
    history: Seq<(Command, Event)>,
)
    requires
        session.inspected is None,
    ensures
        session_after(session, catalog, history).inspected matches Some(inspected) ==> exists|
            k: int,
        |
            0 <= k < history.len() && #[trigger] inspection(history[k], inspected) && forall|m: int|
                k < m < history.len() ==> !((#[trigger] history[m]).1 is Asked),
    decreases history.len(),
{
    if history.len() > 0 {
        let front = history.drop_last();
        let last = history.len() - 1;
        let before = session_after(session, catalog, front);
        let after = session_after(session, catalog, history);
        law_inspection_precedes_build(session, catalog, front);
        lemma_inspected_step(before, catalog, history[last].0, history[last].1);
        assert(after == next(before, catalog, history[last].0, history[last].1).0);
        if let Some(inspected) = after.inspected {
            assert((history[last].0, history[last].1) == history[last]);
            if !inspection(history[last], inspected) {
                let k = choose|k: int|
                    0 <= k < front.len() && #[trigger] inspection(front[k], inspected) && forall|
                        m: int,
                    |
                        k < m < front.len() ==> !((#[trigger] front[m]).1 is Asked);
                assert(inspection(history[k], inspected));
                assert forall|m: int| k < m < history.len() implies !((
                #[trigger] history[m]).1 is Asked) by {
                    if m < last {
                        assert(front[m] == history[m]);
                    }
                }
            }
        }
    }
}

/// `index` binds the cache to the dataset: where it goes on, the cache is to be
/// made with the identity beside it that the dataset has.
pub proof fn law_index_binds_cache(
    session: Session,
    catalog: Catalog,
    rebuild: bool,
    exists: bool,
    current: Identity,
    stored: StoredIdentity,
)
    requires
        session.cache_path is Some,
        !inspected_for(session.inspected, rebuild),
        exists && !rebuild ==> dataset::verdict(current@, stored) is Ok,
    ensures
        ({
            let event = Event::CacheInspected { exists, current: Ok(current), stored };
            let path = session.cache_path->0@;
            next(session, catalog, Command::Index { rebuild }, event).1 == StepView::Perform(
                ActionView::BuildCache {
                    path,
                    sidecar: dataset::sidecar_path(path),
                    rebuild,
                    identity: current@,
                },
            )
        }),
{
}

/// What `index` leaves can be used: a cache with the identity beside it that
/// `index` asked to be stored there is accepted for as long as the dataset has
/// that identity, and refused otherwise.
pub proof fn law_bound_cache_accepted(
    session: Session,
    catalog: Catalog,
    command: Command,
    event: Event,
    cache: TagCache,
    current: Identity,
    stored: Identity,
)
    requires
        next(session, catalog, command, event).1 is Perform,
        next(session, catalog, command, event).1->Perform_0 is BuildCache,
        stored@ == next(session, catalog, command, event).1->Perform_0->BuildCache_identity,
    ensures
        ({
            let bound = next(session, catalog, command, event).1->Perform_0->BuildCache_identity;
            let found = StoredIdentity::Found(stored);
            &&& dataset::verdict(bound, found) is Ok
            &&& current@ == bound ==> admitted(
                CacheRead::Loaded(cache),
                Ok(current),
                found,
            ) == Ok::<TagCache, QueryError<Seq<char>>>(cache)
            &&& current@ != bound ==> admitted(
                CacheRead::Loaded(cache),
                Ok(current),
                found,
            ) == Err::<TagCache, QueryError<Seq<char>>>(QueryError::OtherDataset)
        }),
{
}

/// Whether an event is the result of some work.
pub open spec fn answers(event: Event, action: ActionView) -> bool {
    match action {
        ActionView::LoadCache { .. } => event is CacheLoaded,
        ActionView::InspectCache { .. } => event is CacheInspected,
        ActionView::BuildCache { .. } => event is CacheBuilt,
        ActionView::BuildStrings => event is StringsBuilt,
        ActionView::ReadTag { .. } => event is TagRead,
        ActionView::Export { .. } => event is Exported,
    }
}

/// Work that was done is not asked for again: with its result the query goes
/// on to other work, or is over.
pub proof fn law_progress(session: Session, catalog: Catalog, command: Command, event: Event)
    requires
        asked(session, catalog, command) is Perform,
        answers(event, asked(session, catalog, command)->Perform_0),
    ensures
        next(session, catalog, command, event).1 != asked(session, catalog, command),
        !(event is CacheInspected) ==> next(session, catalog, command, event).1 is Done,
{
}

/// How many rows a reply has.
pub open spec fn row_count(reply: ReplyView) -> nat {
    match reply {
        ReplyView::Named(p) => p.items.len(),
        ReplyView::StringRefs(p) => p.items.len(),
        ReplyView::Packages(p) => p.items.len(),
        ReplyView::Tags(p) => p.items.len(),
        ReplyView::Refs(p) => p.items.len(),
        ReplyView::RawStrings(p) => p.items.len(),
        ReplyView::LocalizedStrings(p) => p.items.len(),
        ReplyView::Matches(p) => p.items.len(),
        _ => 0,
    }
}

/// Whether no string in the rows of a reply is longer than a preview can be.
pub open spec fn previews_short(reply: ReplyView) -> bool {
    match reply {
        ReplyView::Named(p) => forall|i: int|
            0 <= i < p.items.len() ==> (#[trigger] p.items[i]).name.len() <= text::PREVIEW_CHARS,
        ReplyView::RawStrings(p) => forall|i: int|
            0 <= i < p.items.len() ==> (#[trigger] p.items[i]).text.len() <= text::PREVIEW_CHARS,
        ReplyView::LocalizedStrings(p) => forall|i: int|
            0 <= i < p.items.len() ==> (#[trigger] p.items[i]).text.len() <= text::PREVIEW_CHARS,
        ReplyView::Matches(p) => forall|i: int|
            0 <= i < p.items.len() ==> (#[trigger] p.items[i] matches MatchRow::RawString {
                text,
                ..
            } ==> text.len() <= text::PREVIEW_CHARS),
        _ => true,
    }
}

/// Whether a step keeps the bounds of a reply: on the number of rows of a page,
/// on the length of a string in them, and on the number of bytes that can be
/// read at once.
pub open spec fn within_bounds(step: StepView) -> bool {
    step matches StepView::Done(outcome) ==> (outcome matches Ok(reply) ==> {
        &&& row_count(reply) <= page::MAX_LIMIT
        &&& previews_short(reply)
        &&& reply matches ReplyView::Bytes(b) ==> b.hex.len() <= 2 * bytes::MAX_LENGTH
    })
}

/// The rows of a page are rows of the result set.
proof fn lemma_page_item<T>(page: Page, rows: Seq<T>, i: int) -> (k: int)
    requires
        page.allowed(),
        0 <= i < page.of(rows).items.len(),
    ensures
        0 <= k < rows.len(),
        page.of(rows).items[i] == rows[k],
{
    page.offset + i
}

proof fn lemma_named_within_bounds(catalog: Catalog, query: Seq<char>, page: Page)
    ensures
        within_bounds(named_step(catalog, query, page)),
{
    let rows = catalog::named_rows_of(catalog.named_tags@, query);
    let items = page.of(rows).items;
    if page.allowed() {
        assert(catalog.named_tags@.len() == catalog.named_tags.len());
        assert forall|i: int| 0 <= i < items.len() implies (#[trigger] items[i]).name.len()
            <= text::PREVIEW_CHARS by {
            let k = lemma_page_item(page, rows, i);
            assert(rows.contains(rows[k]));
            catalog::law_named_search(catalog.named_tags@, query, rows[k]);
        }
    }
}

proof fn lemma_strings_within_bounds(
    session: Session,
    query: Seq<char>,
    source: StringSource,
    page: Page,
)
    ensures
        within_bounds(strings_step(session, query, source, page)),
{
    if page.allowed() {
        match source {
            StringSource::Raw => {
                if let Some(cache) = session.cache {
                    let rows = scan::raw_rows(cache.hashes@, query);
                    let items = page.of(rows).items;
                    assert forall|i: int| 0 <= i < items.len() implies (
                    #[trigger] items[i]).text.len() <= text::PREVIEW_CHARS by {
                        let k = lemma_page_item(page, rows, i);
                        scan::law_raw_search_sound(cache.hashes@, query, k);
                    }
                }
            },
            StringSource::Localized => {
                if let Some(strings) = session.strings {
                    let rows = scan::localized_rows(strings@, query);
                    let items = page.of(rows).items;
                    assert forall|i: int| 0 <= i < items.len() implies (
                    #[trigger] items[i]).text.len() <= text::PREVIEW_CHARS by {
                        let k = lemma_page_item(page, rows, i);
                        scan::law_localized_search_sound(strings@, query, k);
                    }
                }
            },
        }
    }
}

proof fn lemma_matches_within_bounds(session: Session, hash: Seq<char>, page: Page)
    ensures
        within_bounds(matches_step(session, hash, page)),
{
    if let (Ok(tag), Some(cache)) = (tag::read_tag(hash), session.cache) {
        let found = cache.hashes@[tag.0];
        let rows = scan::match_rows_of(found);
        let items = page.of(rows).items;
        if page.allowed() {
            assert forall|i: int| 0 <= i < items.len() implies (
            #[trigger] items[i] matches MatchRow::RawString { text, .. } ==> text.len()
                <= text::PREVIEW_CHARS) by {
                let k = lemma_page_item(page, rows, i);
                scan::law_match_previews(found, k);
            }
        }
    }
}

/// What a query asks for keeps the bounds.
proof fn lemma_asked_within_bounds(session: Session, catalog: Catalog, command: Command)
    ensures
        within_bounds(asked(session, catalog, command)),
{
    match command {
        Command::Named { query, page } => lemma_named_within_bounds(catalog, query@, page),
        Command::StringRefs { hash, page } => {
            assert(within_bounds(string_refs_step(session, hash@, page)));
        },
        Command::Packages { page } => {
            assert(within_bounds(packages_step(catalog, page)));
        },
        Command::Tags { class, page } => {
            assert(within_bounds(tags_step(catalog, class, page)));
        },
        Command::Refs { hash, direction, page } => {
            assert(within_bounds(refs_step(session, catalog, hash@, direction, page)));
        },
        Command::Strings { query, source, page } => {
            lemma_strings_within_bounds(session, query@, source, page);
        },
        Command::Matches { hash, page } => lemma_matches_within_bounds(session, hash@, page),
        _ => {},
    }
}

/// The bytes of a reply keep the bounds.
proof fn lemma_bytes_within_bounds(tag: TagHash, offset: usize, length: usize, data: Seq<u8>)
    requires
        length <= bytes::MAX_LENGTH,
    ensures
        within_bounds(bytes_done(tag, offset, length, data)),
{
    if let Ok(found) = bytes::window(data, offset as int, length as int) {
        bytes::law_hex_bytes(found);
    }
}

/// Every reply is bounded: by the number of rows of a page, by the length of the
/// previews in them, and by the number of bytes that can be read at once.
#[verifier::rlimit(40)]
pub proof fn law_replies_bounded(
    session: Session,
    catalog: Catalog,
    command: Command,
    event: Event,
)
    ensures
        within_bounds(next(session, catalog, command, event).1),
{
    lemma_asked_within_bounds(session, catalog, command);
    match event {
        Event::CacheLoaded { read, current, stored } => {
            if let Ok(cache) = admitted(read, current, stored) {
                lemma_asked_within_bounds(
                    Session { cache: Some(cache), ..session },
                    catalog,
                    command,
                );
            }
        },
        Event::StringsBuilt(Ok(strings)) => {
            lemma_asked_within_bounds(
                Session { strings: Some(strings), ..session },
                catalog,
                command,
            );
        },
        Event::TagRead(Ok(data)) => {
            if let StepView::Perform(ActionView::ReadTag { tag }) = asked(session, catalog, command) {
                lemma_bytes_within_bounds(
                    tag,
                    command->Bytes_offset,
                    command->Bytes_length,
                    data@,
                );
            }
        },
        _ => {},
    }
}

} // verus!
