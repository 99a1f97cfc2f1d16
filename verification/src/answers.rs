//! What each query answers.

use vstd::prelude::*;
use vstd::string::*;

use crate::bytes;
use crate::catalog;
use crate::catalog::Catalog;
use crate::dataset;
use crate::dataset::{Identity, StoredIdentity};
use crate::error::QueryError;
use crate::number;
use crate::page;
use crate::page::{Page, PageOf};
use crate::refs;
use crate::refs::Direction;
use crate::reply::ReplyView;
use crate::rows::{
    EdgeRow, HeaderRow, LocalizedRow, MatchRow, NamedRow, PackageRow, RawStringRow, ScanCounts,
    ScanField, StringRefRow,
};
use crate::scan;
use crate::scan::{ScanResult, StringCache, TagCache};
use crate::session;
use crate::session::{
    Action, ActionView, CacheRead, Command, Event, Session, Step, StepView, StringSource,
};
use crate::tag;
use crate::tag::TagHash;

verus! {

/// What comes of a query that is asked.
pub open spec fn answer(session: Session, catalog: Catalog, command: Command) -> StepView {
    session::next(session, catalog, command, Event::Asked).1
}

/// Whether a query fails with this error.
pub open spec fn fails(step: StepView, e: QueryError<Seq<char>>) -> bool {
    step == StepView::Done(Err(e))
}

/// Whether the cache is asked for first; without one the query fails.
pub open spec fn needs_cache(step: StepView, session: Session) -> bool {
    match session.cache_path {
        Some(path) => step == StepView::Perform(
            ActionView::LoadCache { path: path@, sidecar: path@ + ".dataset.json"@ },
        ),
        None => fails(step, QueryError::CacheRequired),
    }
}

/// Whether a page size can be asked for.
pub open spec fn limit_good(page: Page) -> bool {
    1 <= page.limit <= 200
}

// ---------------------------------------------------------------------------
// Listings
// ---------------------------------------------------------------------------

/// `named` shows a page of what the query finds.
pub proof fn law_named_answer(session: Session, catalog: Catalog, query: String, page: Page)
    ensures
        ({
            let step = answer(session, catalog, Command::Named { query, page });
            let rows = catalog::named_rows_of(catalog.named_tags@, query@);
            if limit_good(page) {
                step matches StepView::Done(Ok(ReplyView::Named(shown))) && page::shows(
                    shown,
                    rows,
                    page,
                )
            } else {
                fails(step, QueryError::Limit)
            }
        }),
{
    page::law_page_shows(page, catalog::named_rows_of(catalog.named_tags@, query@));
}

/// The page that a reply shows, if it is one of named tags.
pub open spec fn named_shown(step: StepView) -> Option<PageOf<NamedRow<Seq<char>>>> {
    match step {
        StepView::Done(Ok(ReplyView::Named(shown))) => Some(shown),
        _ => None,
    }
}

/// A reader who asks for pages of named tags, and follows `next_offset`, sees every
/// row of the listing from the first on, each once and in order.
pub proof fn law_named_read(session: Session, catalog: Catalog, query: String, limit: usize)
    requires
        1 <= limit <= 200,
        catalog::named_rows_of(catalog.named_tags@, query@).len() <= usize::MAX,
    ensures
        page::read_on(
            |page: Page| named_shown(answer(session, catalog, Command::Named { query, page })),
            limit,
            0,
        ) == catalog::named_rows_of(catalog.named_tags@, query@),
{
    let rows = catalog::named_rows_of(catalog.named_tags@, query@);
    let ask = |page: Page| named_shown(answer(session, catalog, Command::Named { query, page }));
    assert forall|page: Page| page.limit == limit implies (#[trigger] ask(page) matches Some(shown)
        && page::shows(shown, rows, page)) by {
        law_named_answer(session, catalog, query, page);
    }
    page::law_read_on(ask, rows, limit, 0);
    assert(rows.skip(0) =~= rows);
}

/// `string_refs` shows a page of the places of the hash that its argument
/// denotes in hexadecimal.
pub proof fn law_string_refs_answer(session: Session, catalog: Catalog, hash: String, page: Page)
    ensures
        ({
            let step = answer(session, catalog, Command::StringRefs { hash, page });
            match number::read_hex32(hash@) {
                Err(kind) => fails(step, QueryError::Hex(kind)),
                Ok(wanted) => match session.cache {
                    None => needs_cache(step, session),
                    Some(cache) => if limit_good(page) {
                        step matches StepView::Done(Ok(ReplyView::StringRefs(shown)))
                            && page::shows(
                            shown,
                            scan::string_refs_of(cache.hashes@, cache.keys(), wanted as u32),
                            page,
                        )
                    } else {
                        fails(step, QueryError::Limit)
                    },
                },
            }
        }),
{
    if let (Ok(wanted), Some(cache)) = (number::read_hex32(hash@), session.cache) {
        page::law_page_shows(
            page,
            scan::string_refs_of(cache.hashes@, cache.keys(), wanted as u32),
        );
    }
}

/// The page that a reply shows, if it is one of places of a hash.
pub open spec fn string_refs_shown(step: StepView) -> Option<PageOf<StringRefRow<Seq<char>>>> {
    match step {
        StepView::Done(Ok(ReplyView::StringRefs(shown))) => Some(shown),
        _ => None,
    }
}

/// The places of the hash that a text denotes, in the loaded cache.
pub open spec fn hash_places(session: Session, hash: String) -> Seq<StringRefRow<Seq<char>>> {
    scan::string_refs_of(
        (session.cache->0).hashes@,
        (session.cache->0).keys(),
        number::read_hex32(hash@)->Ok_0 as u32,
    )
}

/// A reader who asks for pages of places of a hash, and follows `next_offset`, sees every
/// row of the listing from the first on, each once and in order.
pub proof fn law_string_refs_read(session: Session, catalog: Catalog, hash: String, limit: usize)
    requires
        1 <= limit <= 200,
        hash_places(session, hash).len() <= usize::MAX,
        session.cache is Some,
        number::read_hex32(hash@) is Ok,
    ensures
        page::read_on(
            |page: Page|
                string_refs_shown(
                    answer(session, catalog, Command::StringRefs { hash, page }),
                ),
            limit,
            0,
        ) == hash_places(session, hash),
{
    let rows = hash_places(session, hash);
    let ask = |page: Page|
        string_refs_shown(
            answer(session, catalog, Command::StringRefs { hash, page }),
        );
    assert forall|page: Page| page.limit == limit implies (#[trigger] ask(page) matches Some(shown)
        && page::shows(shown, rows, page)) by {
        law_string_refs_answer(session, catalog, hash, page);
    }
    page::law_read_on(ask, rows, limit, 0);
    assert(rows.skip(0) =~= rows);
}

/// `packages` shows a page of the packages.
pub proof fn law_packages_answer(session: Session, catalog: Catalog, page: Page)
    ensures
        ({
            let step = answer(session, catalog, Command::Packages { page });
            if limit_good(page) {
                step matches StepView::Done(Ok(ReplyView::Packages(shown))) && page::shows(
                    shown,
                    catalog::package_rows_of(catalog.package_paths@),
                    page,
                )
            } else {
                fails(step, QueryError::Limit)
            }
        }),
{
    page::law_page_shows(page, catalog::package_rows_of(catalog.package_paths@));
}

/// The page that a reply shows, if it is one of packages.
pub open spec fn packages_shown(step: StepView) -> Option<PageOf<PackageRow<Seq<char>>>> {
    match step {
        StepView::Done(Ok(ReplyView::Packages(shown))) => Some(shown),
        _ => None,
    }
}

/// A reader who asks for pages of packages, and follows `next_offset`, sees every
/// row of the listing from the first on, each once and in order.
pub proof fn law_packages_read(session: Session, catalog: Catalog, limit: usize)
    requires
        1 <= limit <= 200,
        catalog::package_rows_of(catalog.package_paths@).len() <= usize::MAX,
    ensures
        page::read_on(
            |page: Page| packages_shown(answer(session, catalog, Command::Packages { page })),
            limit,
            0,
        ) == catalog::package_rows_of(catalog.package_paths@),
{
    let rows = catalog::package_rows_of(catalog.package_paths@);
    let ask = |page: Page| packages_shown(answer(session, catalog, Command::Packages { page }));
    assert forall|page: Page| page.limit == limit implies (#[trigger] ask(page) matches Some(shown)
        && page::shows(shown, rows, page)) by {
        law_packages_answer(session, catalog, page);
    }
    page::law_read_on(ask, rows, limit, 0);
    assert(rows.skip(0) =~= rows);
}

/// The class that `tags` is restricted to, if one was given.
pub open spec fn wanted_class(class: Option<String>) -> Option<u32> {
    match class {
        None => None,
        Some(c) => Some(number::read_hex32(c@)->Ok_0 as u32),
    }
}

/// `tags` shows a page of the tags of the class that its argument denotes in
/// hexadecimal, or of all tags.
pub proof fn law_tags_answer(
    session: Session,
    catalog: Catalog,
    class: Option<String>,
    page: Page,
)
    ensures
        ({
            let step = answer(session, catalog, Command::Tags { class, page });
            if class is Some && number::read_hex32(class->0@) is Err {
                fails(step, QueryError::Hex(number::read_hex32(class->0@)->Err_0))
            } else if limit_good(page) {
                step matches StepView::Done(Ok(ReplyView::Tags(shown))) && page::shows(
                    shown,
                    catalog.tag_rows(wanted_class(class)),
                    page,
                )
            } else {
                fails(step, QueryError::Limit)
            }
        }),
{
    page::law_page_shows(page, catalog.tag_rows(wanted_class(class)));
}

/// The page that a reply shows, if it is one of tags.
pub open spec fn tags_shown(step: StepView) -> Option<PageOf<HeaderRow<Seq<char>>>> {
    match step {
        StepView::Done(Ok(ReplyView::Tags(shown))) => Some(shown),
        _ => None,
    }
}

/// A reader who asks for pages of tags, and follows `next_offset`, sees every
/// row of the listing from the first on, each once and in order.
pub proof fn law_tags_read(session: Session, catalog: Catalog, class: Option<String>, limit: usize)
    requires
        1 <= limit <= 200,
        catalog.tag_rows(wanted_class(class)).len() <= usize::MAX,
        class is Some ==> number::read_hex32(class->0@) is Ok,
    ensures
        page::read_on(
            |page: Page| tags_shown(answer(session, catalog, Command::Tags { class, page })),
            limit,
            0,
        ) == catalog.tag_rows(wanted_class(class)),
{
    let rows = catalog.tag_rows(wanted_class(class));
    let ask = |page: Page| tags_shown(answer(session, catalog, Command::Tags { class, page }));
    assert forall|page: Page| page.limit == limit implies (#[trigger] ask(page) matches Some(shown)
        && page::shows(shown, rows, page)) by {
        law_tags_answer(session, catalog, class, page);
    }
    page::law_read_on(ask, rows, limit, 0);
    assert(rows.skip(0) =~= rows);
}

/// `refs` shows a page of the references of the tag that its argument denotes,
/// in the direction that was asked for.
pub proof fn law_refs_answer(
    session: Session,
    catalog: Catalog,
    hash: String,
    direction: Direction,
    page: Page,
)
    ensures
        ({
            let step = answer(session, catalog, Command::Refs { hash, direction, page });
            match tag::read_tag(hash@) {
                Err(e) => fails(step, e),
                Ok(tag) => match session.cache {
                    None => needs_cache(step, session),
                    Some(cache) => if !cache.hashes@.contains_key(tag.0) {
                        fails(step, QueryError::NoScanData)
                    } else if limit_good(page) {
                        step matches StepView::Done(Ok(ReplyView::Refs(shown))) && page::shows(
                            shown,
                            refs::ref_rows_of(
                                cache.hashes@,
                                catalog.tag64_entries@,
                                tag,
                                direction,
                            ),
                            page,
                        )
                    } else {
                        fails(step, QueryError::Limit)
                    },
                },
            }
        }),
{
    if let (Ok(tag), Some(cache)) = (tag::read_tag(hash@), session.cache) {
        page::law_page_shows(
            page,
            refs::ref_rows_of(cache.hashes@, catalog.tag64_entries@, tag, direction),
        );
    }
}

/// The page that a reply shows, if it is one of references.
pub open spec fn refs_shown(step: StepView) -> Option<PageOf<EdgeRow<Seq<char>>>> {
    match step {
        StepView::Done(Ok(ReplyView::Refs(shown))) => Some(shown),
        _ => None,
    }
}

/// The references of the tag that a text denotes, in the loaded cache.
pub open spec fn tag_refs(
    session: Session,
    catalog: Catalog,
    hash: String,
    direction: Direction,
) -> Seq<EdgeRow<Seq<char>>> {
    refs::ref_rows_of(
        (session.cache->0).hashes@,
        catalog.tag64_entries@,
        tag::read_tag(hash@)->Ok_0,
        direction,
    )
}

/// A reader who asks for pages of references, and follows `next_offset`, sees every
/// row of the listing from the first on, each once and in order.
pub proof fn law_refs_read(
    session: Session,
    catalog: Catalog,
    hash: String,
    direction: Direction,
    limit: usize,
)
    requires
        1 <= limit <= 200,
        tag_refs(session, catalog, hash, direction).len() <= usize::MAX,
        session.cache is Some,
        tag::read_tag(hash@) is Ok,
        (session.cache->0).hashes@.contains_key((tag::read_tag(hash@)->Ok_0).0),
    ensures
        page::read_on(
            |page: Page|
                refs_shown(
                    answer(session, catalog, Command::Refs { hash, direction, page }),
                ),
            limit,
            0,
        ) == tag_refs(session, catalog, hash, direction),
{
    let rows = tag_refs(session, catalog, hash, direction);
    let ask = |page: Page|
        refs_shown(
            answer(session, catalog, Command::Refs { hash, direction, page }),
        );
    assert forall|page: Page| page.limit == limit implies (#[trigger] ask(page) matches Some(shown)
        && page::shows(shown, rows, page)) by {
        law_refs_answer(session, catalog, hash, direction, page);
    }
    page::law_read_on(ask, rows, limit, 0);
    assert(rows.skip(0) =~= rows);
}

/// `strings` shows a page of the raw strings that the query finds.
pub proof fn law_raw_answer(session: Session, catalog: Catalog, query: String, page: Page)
    ensures
        ({
            let source = StringSource::Raw;
            let step = answer(session, catalog, Command::Strings { query, source, page });
            match session.cache {
                None => needs_cache(step, session),
                Some(cache) => if limit_good(page) {
                    step matches StepView::Done(Ok(ReplyView::RawStrings(shown))) && page::shows(
                        shown,
                        scan::raw_rows(cache.hashes@, query@),
                        page,
                    )
                } else {
                    fails(step, QueryError::Limit)
                },
            }
        }),
{
    if let Some(cache) = session.cache {
        page::law_page_shows(page, scan::raw_rows(cache.hashes@, query@));
    }
}

/// The page that a reply shows, if it is one of raw strings.
pub open spec fn raw_shown(step: StepView) -> Option<PageOf<RawStringRow<Seq<char>>>> {
    match step {
        StepView::Done(Ok(ReplyView::RawStrings(shown))) => Some(shown),
        _ => None,
    }
}

/// A reader who asks for pages of raw strings, and follows `next_offset`, sees every
/// row of the listing from the first on, each once and in order.
pub proof fn law_raw_read(session: Session, catalog: Catalog, query: String, limit: usize)
    requires
        1 <= limit <= 200,
        scan::raw_rows((session.cache->0).hashes@, query@).len() <= usize::MAX,
        session.cache is Some,
    ensures
        page::read_on(
            |page: Page|
                raw_shown(
                    answer(session, catalog, Command::Strings { query, source: StringSource::Raw, page }),
                ),
            limit,
            0,
        ) == scan::raw_rows((session.cache->0).hashes@, query@),
{
    let rows = scan::raw_rows((session.cache->0).hashes@, query@);
    let ask = |page: Page|
        raw_shown(
            answer(session, catalog, Command::Strings { query, source: StringSource::Raw, page }),
        );
    assert forall|page: Page| page.limit == limit implies (#[trigger] ask(page) matches Some(shown)
        && page::shows(shown, rows, page)) by {
        law_raw_answer(session, catalog, query, page);
    }
    page::law_read_on(ask, rows, limit, 0);
    assert(rows.skip(0) =~= rows);
}

/// `strings` shows a page of the localized strings that the query finds, which
/// are collected first.
pub proof fn law_localized_answer(session: Session, catalog: Catalog, query: String, page: Page)
    ensures
        ({
            let source = StringSource::Localized;
            let step = answer(session, catalog, Command::Strings { query, source, page });
            match session.strings {
                None => step == StepView::Perform(ActionView::BuildStrings),
                Some(strings) => if limit_good(page) {
                    step matches StepView::Done(Ok(ReplyView::LocalizedStrings(shown)))
                        && page::shows(shown, scan::localized_rows(strings@, query@), page)
                } else {
                    fails(step, QueryError::Limit)
                },
            }
        }),
{
    if let Some(strings) = session.strings {
        page::law_page_shows(page, scan::localized_rows(strings@, query@));
    }
}

/// The page that a reply shows, if it is one of localized strings.
pub open spec fn localized_shown(step: StepView) -> Option<PageOf<LocalizedRow<Seq<char>>>> {
    match step {
        StepView::Done(Ok(ReplyView::LocalizedStrings(shown))) => Some(shown),
        _ => None,
    }
}

/// A reader who asks for pages of localized strings, and follows `next_offset`, sees every
/// row of the listing from the first on, each once and in order.
pub proof fn law_localized_read(session: Session, catalog: Catalog, query: String, limit: usize)
    requires
        1 <= limit <= 200,
        scan::localized_rows((session.strings->0)@, query@).len() <= usize::MAX,
        session.strings is Some,
    ensures
        page::read_on(
            |page: Page|
                localized_shown(
                    answer(session, catalog, Command::Strings { query, source: StringSource::Localized, page }),
                ),
            limit,
            0,
        ) == scan::localized_rows((session.strings->0)@, query@),
{
    let rows = scan::localized_rows((session.strings->0)@, query@);
    let ask = |page: Page|
        localized_shown(
            answer(session, catalog, Command::Strings { query, source: StringSource::Localized, page }),
        );
    assert forall|page: Page| page.limit == limit implies (#[trigger] ask(page) matches Some(shown)
        && page::shows(shown, rows, page)) by {
        law_localized_answer(session, catalog, query, page);
    }
    page::law_read_on(ask, rows, limit, 0);
    assert(rows.skip(0) =~= rows);
}

/// `matches` shows a page of what the scan found in the tag that its argument
/// denotes.
pub proof fn law_matches_answer(session: Session, catalog: Catalog, hash: String, page: Page)
    ensures
        ({
            let step = answer(session, catalog, Command::Matches { hash, page });
            match tag::read_tag(hash@) {
                Err(e) => fails(step, e),
                Ok(tag) => match session.cache {
                    None => needs_cache(step, session),
                    Some(cache) => if !cache.hashes@.contains_key(tag.0) {
                        fails(step, QueryError::NoScanData)
                    } else if limit_good(page) {
                        step matches StepView::Done(Ok(ReplyView::Matches(shown))) && page::shows(
                            shown,
                            scan::match_rows_of(cache.hashes@[tag.0]),
                            page,
                        )
                    } else {
                        fails(step, QueryError::Limit)
                    },
                },
            }
        }),
{
    if let (Ok(tag), Some(cache)) = (tag::read_tag(hash@), session.cache) {
        page::law_page_shows(page, scan::match_rows_of(cache.hashes@[tag.0]));
    }
}

/// The page that a reply shows, if it is one of what was found in a tag.
pub open spec fn matches_shown(step: StepView) -> Option<PageOf<MatchRow<Seq<char>>>> {
    match step {
        StepView::Done(Ok(ReplyView::Matches(shown))) => Some(shown),
        _ => None,
    }
}

/// What the scan found in the tag that a text denotes, in the loaded cache.
pub open spec fn tag_matches(session: Session, hash: String) -> Seq<MatchRow<Seq<char>>> {
    scan::match_rows_of((session.cache->0).hashes@[(tag::read_tag(hash@)->Ok_0).0])
}

/// A reader who asks for pages of what was found in a tag, and follows `next_offset`, sees every
/// row of the listing from the first on, each once and in order.
pub proof fn law_matches_read(session: Session, catalog: Catalog, hash: String, limit: usize)
    requires
        1 <= limit <= 200,
        tag_matches(session, hash).len() <= usize::MAX,
        session.cache is Some,
        tag::read_tag(hash@) is Ok,
        (session.cache->0).hashes@.contains_key((tag::read_tag(hash@)->Ok_0).0),
    ensures
        page::read_on(
            |page: Page| matches_shown(answer(session, catalog, Command::Matches { hash, page })),
            limit,
            0,
        ) == tag_matches(session, hash),
{
    let rows = tag_matches(session, hash);
    let ask = |page: Page| matches_shown(answer(session, catalog, Command::Matches { hash, page }));
    assert forall|page: Page| page.limit == limit implies (#[trigger] ask(page) matches Some(shown)
        && page::shows(shown, rows, page)) by {
        law_matches_answer(session, catalog, hash, page);
    }
    page::law_read_on(ask, rows, limit, 0);
    assert(rows.skip(0) =~= rows);
}

// ---------------------------------------------------------------------------
// Single answers
// ---------------------------------------------------------------------------

/// `info` tells where the packages are, of which version, under which cache key,
/// how hashes are written, and where the cache is, if one was named.
#[verifier::rlimit(40)]
pub proof fn law_info_answer(session: Session, catalog: Catalog)
    ensures
        answer(session, catalog, Command::Info) matches StepView::Done(Ok(ReplyView::Info(info)))
            && {
            &&& info.packages == catalog.package_dir@
            &&& info.game_version == catalog.game_version@
            &&& info.cache_key == catalog.cache_key@
            &&& info.tag_hash_format
                == "8 hex digits in QuickTag display (little-endian byte) order"@
            &&& info.numeric_hash_format == "0x-prefixed hex integers"@
            &&& session.cache_path is Some <==> info.cache is Some
            &&& session.cache_path is Some ==> info.cache->0 == session.cache_path->0@
        },
{
}

/// Whether these are the numbers of what a scan found in a tag: the lengths of
/// its own lists.
pub open spec fn tells_scan(counts: ScanCounts<Seq<char>>, found: ScanResult) -> bool {
    &&& counts.successful == found.successful
    &&& counts.outgoing32 == found.file_hashes@.len()
    &&& counts.outgoing64 == found.file_hashes64@.len()
    &&& counts.incoming == found.references@.len()
    &&& counts.raw_strings == found.raw_strings@.len()
    &&& counts.string_hashes == found.string_hashes@.len()
    &&& counts.signatures == found.signatures@.len()
    &&& found.secondary_class is Some <==> counts.secondary_class is Some
    &&& found.secondary_class is Some ==> counts.secondary_class->0 == number::hex_number(
        found.secondary_class->0 as nat,
        8,
    )
}

/// `tag` shows the row of the tag that its argument denotes, if a package has it;
/// and, where a cache is named, the numbers of what the scan found in it, or that
/// the scan did not see it.
#[verifier::rlimit(40)]
pub proof fn law_tag_answer(session: Session, catalog: Catalog, hash: String)
    ensures
        ({
            let step = answer(session, catalog, Command::Tag { hash });
            match tag::read_tag(hash@) {
                Err(e) => fails(step, e),
                Ok(tag) => if catalog::entry_of(catalog.packages@, tag) is None {
                    fails(step, QueryError::TagNotFound)
                } else if session.cache_path is None {
                    step == StepView::Done(
                        Ok(ReplyView::Tag(catalog.header_of(tag), ScanField::Absent)),
                    )
                } else {
                    match session.cache {
                        None => needs_cache(step, session),
                        Some(cache) => {
                            &&& step matches StepView::Done(Ok(ReplyView::Tag(header, field)))
                            &&& header == catalog.header_of(tag)
                            &&& if cache.hashes@.contains_key(tag.0) {
                                field matches ScanField::Counts(counts) && tells_scan(
                                    counts,
                                    cache.hashes@[tag.0],
                                )
                            } else {
                                field is NoData
                            }
                        },
                    }
                },
            }
        }),
{
    if let (Ok(tag), Some(cache)) = (tag::read_tag(hash@), session.cache) {
        scan::law_counts(cache.hashes@[tag.0]);
    }
}

/// `tag` shows, for the displayed form of a hash that a package has, what the
/// package's own entry says.
pub proof fn law_tag_shows_entry(
    session: Session,
    catalog: Catalog,
    hash: String,
    i: int,
    j: int,
)
    requires
        catalog::packages_distinct(catalog.packages@),
        0 <= i < catalog.packages@.len(),
        0 <= j < catalog.packages@[i].entries@.len(),
        j < 8192,
        hash@ == tag::tag_text(
            TagHash((0x80800000 + catalog.packages@[i].package_id * 8192 + j) as u32),
        ),
        session.cache_path is None,
    ensures
        answer(session, catalog, Command::Tag { hash }) matches StepView::Done(
            Ok(ReplyView::Tag(header, field)),
        ) && field is Absent && catalog::tells_entry(
            header,
            catalog.class_names@,
            catalog.packages@[i].package_id,
            j,
            catalog.packages@[i].entries@[j],
        ),
{
    let tag = TagHash((0x80800000 + catalog.packages@[i].package_id * 8192 + j) as u32);
    tag::law_tag_round_trip(tag);
    catalog::law_entry_header(catalog, i, j);
    law_tag_answer(session, catalog, hash);
}

/// `bytes` reads the tag that its argument denotes, and shows the bytes of the
/// payload from the offset on: as many as were asked for, or as many as there
/// are, two digits each. From 1 to 4096 can be asked for, and none from beyond
/// the end.
#[verifier::rlimit(40)]
pub proof fn law_bytes_answer(
    session: Session,
    catalog: Catalog,
    hash: String,
    offset: usize,
    length: usize,
    data: Vec<u8>,
    i: int,
)
    ensures
        ({
            let command = Command::Bytes { hash, offset, length };
            let step = answer(session, catalog, command);
            if !(1 <= length <= 4096) {
                fails(step, QueryError::Length)
            } else {
                match tag::read_tag(hash@) {
                    Err(e) => fails(step, e),
                    Ok(tag) => {
                        let (after, done) = session::next(
                            session,
                            catalog,
                            command,
                            Event::TagRead(Ok(data)),
                        );
                        &&& step == StepView::Perform(ActionView::ReadTag { tag })
                        &&& after == session
                        &&& if offset > data@.len() {
                            fails(done, QueryError::Offset)
                        } else {
                            &&& done matches StepView::Done(Ok(ReplyView::Bytes(b)))
                            &&& b.tag == tag::tag_text(tag)
                            &&& b.offset == offset
                            &&& b.size == data@.len()
                            &&& offset + length <= data@.len() ==> b.length == length
                            &&& offset + length > data@.len() ==> b.length == data@.len() - offset
                            &&& b.hex.len() == 2 * b.length
                            &&& 0 <= i < b.length ==> number::digits_value(
                                b.hex.subrange(2 * i, 2 * i + 2),
                                16,
                            ) == data@[offset + i] && upper_hex(b.hex[2 * i]) && upper_hex(
                                b.hex[2 * i + 1],
                            )
                        }
                    },
                }
            }
        }),
{
    assert(data@.len() == data.len());
    bytes::law_window(data@, offset as int, length as int);
    if let Ok(found) = bytes::window(data@, offset as int, length as int) {
        bytes::law_hex_bytes(found);
        if 0 <= i < found.len() {
            bytes::law_hex_digits(found, i);
        }
    }
}

/// Whether a character is a hexadecimal digit in upper case.
pub open spec fn upper_hex(c: char) -> bool {
    '0' <= c <= '9' || 'A' <= c <= 'F'
}

/// `export` has the payload of the tag that its argument denotes written to the
/// file that was named, and tells the tag, the file and the number of bytes.
#[verifier::rlimit(40)]
pub proof fn law_export_answer(
    session: Session,
    catalog: Catalog,
    hash: String,
    output: String,
    file: String,
    size: usize,
)
    ensures
        ({
            let command = Command::Export { hash, output };
            let step = answer(session, catalog, command);
            match tag::read_tag(hash@) {
                Err(e) => fails(step, e),
                Ok(tag) => {
                    let (after, done) = session::next(
                        session,
                        catalog,
                        command,
                        Event::Exported(Ok((file, size))),
                    );
                    &&& step == StepView::Perform(ActionView::Export { tag, output: output@ })
                    &&& after == session
                    &&& done matches StepView::Done(Ok(ReplyView::Export(e)))
                    &&& e.tag == tag::tag_text(tag)
                    &&& e.output == file@
                    &&& e.bytes == size
                },
            }
        }),
{
}

/// `index` looks at the named cache, without one it fails; what it tells of the
/// cache that was then made is where it is, how many tags it has, how many of
/// them could not be scanned, and its version. The cache is kept.
#[verifier::rlimit(40)]
pub proof fn law_index_answer(session: Session, catalog: Catalog, rebuild: bool, cache: TagCache)
    requires
        cache.hashes@.dom().len() <= usize::MAX,
    ensures
        ({
            let command = Command::Index { rebuild };
            let step = answer(session, catalog, command);
            match session.cache_path {
                None => fails(step, QueryError::IndexCache),
                Some(path) => {
                    let (after, done) = session::next(
                        session,
                        catalog,
                        command,
                        Event::CacheBuilt(Ok(cache)),
                    );
                    &&& step == StepView::Perform(
                        ActionView::InspectCache {
                            path: path@,
                            sidecar: path@ + ".dataset.json"@,
                        },
                    )
                    &&& session::inspected_for(session.inspected, rebuild) ==> {
                        &&& after.cache == Some(cache)
                        &&& after.inspected is None
                        &&& after.strings == session.strings
                        &&& done matches StepView::Done(Ok(ReplyView::Index(r)))
                        &&& r.cache == path@
                        &&& r.tags == cache.hashes@.dom().len()
                        &&& r.failed_tags == cache.hashes@.dom().filter(
                            |key: u32| !cache.hashes@[key].successful,
                        ).len()
                        &&& r.cache_version == cache.version
                    }
                },
            }
        }),
{
    scan::law_tally(cache);
    let bad = |key: u32| !cache.hashes@[key].successful;
    assert(cache.hashes@.dom().filter(bad).len() <= cache.hashes@.dom().len()) by {
        lemma_failed_bound(cache.hashes@, cache.keys());
    }
}

proof fn lemma_failed_bound(hashes: Map<u32, ScanResult>, keys: Seq<u32>)
    ensures
        scan::failed_count(hashes, keys) <= keys.len(),
    decreases keys.len(),
{
    if keys.len() > 0 {
        lemma_failed_bound(hashes, keys.drop_last());
    }
}

/// `serve` is no query.
pub proof fn law_serve_answer(session: Session, catalog: Catalog)
    ensures
        fails(answer(session, catalog, Command::Serve), QueryError::NestedServe),
{
}

// ---------------------------------------------------------------------------
// Work
// ---------------------------------------------------------------------------

/// When the cache that a query needs is loaded, and agrees with the dataset, the
/// query is answered as with that cache from the start, and the cache is kept.
/// Else the query fails, for the reason there is, and no cache is kept.
#[verifier::rlimit(40)]
pub proof fn law_answer_after_load(
    session: Session,
    catalog: Catalog,
    command: Command,
    read: CacheRead,
    current: Result<Identity, QueryError<String>>,
    stored: StoredIdentity,
)
    requires
        answer(session, catalog, command) is Perform,
        answer(session, catalog, command)->Perform_0 is LoadCache,
    ensures
        ({
            let (after, step) = session::next(
                session,
                catalog,
                command,
                Event::CacheLoaded { read, current, stored },
            );
            match (read, current, stored) {
                (CacheRead::Failed(cause), _, _) => after == session && fails(
                    step,
                    QueryError::Outside(cause@),
                ),
                (CacheRead::Rebuild, _, _) => after == session && fails(
                    step,
                    QueryError::CacheUnusable,
                ),
                (CacheRead::Loaded(_), Err(e), _) => after == session && fails(step, e@),
                (CacheRead::Loaded(_), Ok(_), StoredIdentity::Missing(cause)) => after == session
                    && fails(step, QueryError::IdentityMissing(cause@)),
                (CacheRead::Loaded(_), Ok(_), StoredIdentity::Invalid(cause)) => after == session
                    && fails(step, QueryError::IdentityInvalid(cause@)),
                (CacheRead::Loaded(cache), Ok(now), StoredIdentity::Found(then)) =>
                    if dataset::agree(now, then) {
                        &&& after == (Session { cache: Some(cache), ..session })
                        &&& step == answer(after, catalog, command)
                    } else {
                        after == session && fails(step, QueryError::OtherDataset)
                    },
            }
        }),
{
    if let Ok(now) = current {
        dataset::law_verdict_parts(now, stored);
    }
}

/// When the localized strings that a query needs are collected, the query is
/// answered as with those strings from the start, and the strings are kept.
#[verifier::rlimit(40)]
pub proof fn law_answer_after_strings(
    session: Session,
    catalog: Catalog,
    command: Command,
    strings: StringCache,
)
    requires
        answer(session, catalog, command) == StepView::Perform(ActionView::BuildStrings),
    ensures
        ({
            let (after, step) = session::next(
                session,
                catalog,
                command,
                Event::StringsBuilt(Ok(strings)),
            );
            &&& after == (Session { strings: Some(strings), ..session })
            &&& step == answer(after, catalog, command)
        }),
{
}

/// `index` goes on where there is no cache, or it is to be made anew, or the
/// identity beside it agrees with the dataset; the cache is then to be made at
/// its own path and bound to the dataset. Else it fails, for the reason there is.
#[verifier::rlimit(40)]
pub proof fn law_index_after_inspection(
    session: Session,
    catalog: Catalog,
    rebuild: bool,
    exists: bool,
    current: Result<Identity, QueryError<String>>,
    stored: StoredIdentity,
)
    requires
        session.cache_path is Some,
        !session::inspected_for(session.inspected, rebuild),
    ensures
        ({
            let (after, step) = session::next(
                session,
                catalog,
                Command::Index { rebuild },
                Event::CacheInspected { exists, current, stored },
            );
            let path = session.cache_path->0@;
            &&& after.cache == session.cache
            &&& match current {
                Err(e) => fails(step, e@),
                Ok(now) => match stored {
                    StoredIdentity::Missing(cause) if exists && !rebuild => fails(
                        step,
                        QueryError::IdentityMissing(cause@),
                    ),
                    StoredIdentity::Invalid(cause) if exists && !rebuild => fails(
                        step,
                        QueryError::IdentityInvalid(cause@),
                    ),
                    StoredIdentity::Found(then) if exists && !rebuild && !dataset::agree(
                        now,
                        then,
                    ) => fails(step, QueryError::OtherDataset),
                    _ => step == StepView::Perform(
                        ActionView::BuildCache {
                            path,
                            sidecar: path + ".dataset.json"@,
                            rebuild,
                            identity: now@,
                        },
                    ),
                },
            }
        }),
{
    if let Ok(now) = current {
        dataset::law_verdict_parts(now, stored);
    }
}

/// Work that fails makes the query fail with its own reason, and leaves what is
/// loaded as it is.
#[verifier::rlimit(40)]
pub proof fn law_failed_work(
    session: Session,
    catalog: Catalog,
    command: Command,
    event: Event,
    cause: String,
)
    requires
        session::asked(session, catalog, command) is Perform,
        session::answers(event, session::asked(session, catalog, command)->Perform_0),
        event == Event::CacheBuilt(Err(cause)) || event == Event::StringsBuilt(Err(cause)) || event
            == Event::TagRead(Err(cause)) || event == Event::Exported(Err(cause)),
    ensures
        ({
            let (after, step) = session::next(session, catalog, command, event);
            &&& fails(step, QueryError::Outside(cause@))
            &&& after.cache == session.cache
            &&& after.strings == session.strings
        }),
{
}

/// A query that is asked changes nothing that is loaded.
pub proof fn law_asking_keeps(session: Session, catalog: Catalog, command: Command)
    ensures
        session::next(session, catalog, command, Event::Asked).0 == (Session {
            inspected: None,
            ..session
        }),
{
}

/// An event that nothing asked for changes nothing.
#[verifier::rlimit(40)]
pub proof fn law_other_events(session: Session, catalog: Catalog, command: Command, event: Event)
    requires
        !(event is Asked),
        !(session::asked(session, catalog, command) is Perform) || !session::answers(
            event,
            session::asked(session, catalog, command)->Perform_0,
        ),
    ensures
        session::next(session, catalog, command, event) == (
            session,
            session::asked(session, catalog, command),
        ),
{
}

/// A step holds the work that is to be done, or the outcome.
pub proof fn law_step_views(step: Step, action: Action)
    ensures
        match step {
            Step::Perform(work) => step@ == StepView::Perform(work@),
            Step::Done(Ok(reply)) => step@ == StepView::Done(Ok(reply@)),
            Step::Done(Err(e)) => step@ == StepView::Done(Err(e@)),
        },
        match action {
            Action::LoadCache { path, sidecar } => action@ == (ActionView::LoadCache {
                path: path@,
                sidecar: sidecar@,
            }),
            Action::InspectCache { path, sidecar } => action@ == (ActionView::InspectCache {
                path: path@,
                sidecar: sidecar@,
            }),
            Action::BuildCache { path, sidecar, rebuild, identity } => action@ == (
            ActionView::BuildCache {
                path: path@,
                sidecar: sidecar@,
                rebuild,
                identity: identity@,
            }),
            Action::BuildStrings => action@ is BuildStrings,
            Action::ReadTag { tag } => action@ == (ActionView::ReadTag { tag }),
            Action::Export { tag, output } => action@ == (ActionView::Export {
                tag,
                output: output@,
            }),
        },
{
}

} // verus!
