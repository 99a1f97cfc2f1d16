//! Scan data: strings and hashes found in tags.

use vstd::prelude::*;
use vstd::string::*;

use std::collections::BTreeMap;

use crate::error::QueryError;
use crate::number;
use crate::order;
use crate::page;
use crate::page::{Page, Paged};
use crate::rows::{LocalizedRow, MatchRow, RawStringRow, ScanCounts, StringRefRow};
use crate::tag;
use crate::tag::TagHash;
use crate::text;

verus! {

/// A value that a scan found, and where.
#[derive(Debug)]
pub struct ScannedHash<H> {
    pub offset: u64,
    pub hash: H,
}

/// What a scan found in one tag.
#[derive(Debug)]
pub struct ScanResult {
    /// Whether the tag could be scanned.
    pub successful: bool,
    /// 32-bit tag hashes.
    pub file_hashes: Vec<ScannedHash<TagHash>>,
    /// 64-bit tag hashes.
    pub file_hashes64: Vec<ScannedHash<u64>>,
    /// Hashes of localized strings.
    pub string_hashes: Vec<ScannedHash<u32>>,
    /// Hashes of words of the wordlist.
    pub wordlist_hashes: Vec<ScannedHash<u32>>,
    /// Raw strings.
    pub raw_strings: Vec<String>,
    /// Signatures, by name.
    pub signatures: Vec<ScannedHash<String>>,
    /// The tags that refer to this one.
    pub references: Vec<TagHash>,
    pub secondary_class: Option<u32>,
}

/// The result of a scan: what was found in each tag, by tag hash.
#[derive(Debug)]
pub struct TagCache {
    pub version: u32,
    pub hashes: BTreeMap<u32, ScanResult>,
}

/// Localized strings, by hash.
pub type StringCache = BTreeMap<u32, Vec<String>>;

// ---------------------------------------------------------------------------
// Counts
// ---------------------------------------------------------------------------

/// How many of these tags could not be scanned.
pub open spec fn failed_count(hashes: Map<u32, ScanResult>, keys: Seq<u32>) -> nat
    decreases keys.len(),
{
    if keys.len() == 0 {
        0
    } else {
        failed_count(hashes, keys.drop_last()) + if hashes[keys.last()].successful {
            0nat
        } else {
            1nat
        }
    }
}

impl TagCache {
    /// The tags that were scanned, in ascending order.
    pub open spec fn keys(self) -> Seq<u32> {
        order::ascending(self.hashes@.dom())
    }

    /// How many tags were scanned, and how many of them without success.
    pub fn tally(&self) -> (r: (usize, usize))
        ensures
            r.0 == self.keys().len(),
            r.1 == failed_count(self.hashes@, self.keys()),
    {
        let keys = order::keys_of(&self.hashes);
        let mut failed: usize = 0;
        let mut i: usize = 0;
        while i < keys.len()
            invariant
                i <= keys.len(),
                keys@.to_set() == self.hashes@.dom(),
                failed <= i,
                failed == failed_count(self.hashes@, keys@.take(i as int)),
            decreases keys.len() - i,
        {
            assert(keys@.take(i + 1).drop_last() =~= keys@.take(i as int));
            let key = keys[i];
            assert(keys@.to_set().contains(key));
            if let Some(scan) = order::lookup32(&self.hashes, key) {
                if !scan.successful {
                    failed += 1;
                }
            }
            i += 1;
        }
        assert(keys@.take(keys@.len() as int) =~= keys@);
        (keys.len(), failed)
    }

    /// What the scan found in a tag.
    pub fn get(&self, tag: TagHash) -> (found: Option<&ScanResult>)
        ensures
            match found {
                Some(scan) => self.hashes@.contains_key(tag.0) && *scan == self.hashes@[tag.0],
                None => !self.hashes@.contains_key(tag.0),
            },
    {
        order::lookup32(&self.hashes, tag.0)
    }
}

/// What a scan found in a tag, in numbers.
pub open spec fn counts_of(scan: ScanResult) -> ScanCounts<Seq<char>> {
    ScanCounts {
        successful: scan.successful,
        outgoing32: scan.file_hashes.len(),
        outgoing64: scan.file_hashes64.len(),
        incoming: scan.references.len(),
        raw_strings: scan.raw_strings.len(),
        string_hashes: scan.string_hashes.len(),
        signatures: scan.signatures.len(),
        secondary_class: match scan.secondary_class {
            Some(c) => Some(number::hex_number(c as nat, 8)),
            None => None,
        },
    }
}

impl ScanResult {
    /// What the scan found, in numbers.
    pub fn counts(&self) -> (counts: ScanCounts<String>)
        ensures
            counts@ == counts_of(*self),
    {
        ScanCounts {
            successful: self.successful,
            outgoing32: self.file_hashes.len(),
            outgoing64: self.file_hashes64.len(),
            incoming: self.references.len(),
            raw_strings: self.raw_strings.len(),
            string_hashes: self.string_hashes.len(),
            signatures: self.signatures.len(),
            secondary_class: match self.secondary_class {
                Some(c) => Some(number::hex_number_text(c as u64, 8)),
                None => None,
            },
        }
    }
}

// ---------------------------------------------------------------------------
// Localized string hashes
// ---------------------------------------------------------------------------

/// The row for a hash found in a tag, if it is the wanted one.
pub open spec fn string_ref(source: u32, x: ScannedHash<u32>, hash: u32) -> Option<
    StringRefRow<Seq<char>>,
> {
    if x.hash == hash {
        Some(StringRefRow { tag: tag::tag_text(TagHash(source)), offset: x.offset })
    } else {
        None
    }
}

/// The places in one tag where a localized string's hash stands.
pub open spec fn string_refs_in(source: u32, scan: ScanResult, hash: u32) -> Seq<
    StringRefRow<Seq<char>>,
> {
    scan.string_hashes@.filter_map(|x: ScannedHash<u32>| string_ref(source, x, hash))
}

/// The places in some tags where a localized string's hash stands, tag by tag.
pub open spec fn string_refs_of(hashes: Map<u32, ScanResult>, keys: Seq<u32>, hash: u32) -> Seq<
    StringRefRow<Seq<char>>,
>
    decreases keys.len(),
{
    if keys.len() == 0 {
        Seq::empty()
    } else {
        string_refs_of(hashes, keys.drop_last(), hash) + string_refs_in(
            keys.last(),
            hashes[keys.last()],
            hash,
        )
    }
}

impl TagCache {
    /// The places where a localized string's hash stands, in ascending order of
    /// the tags.
    pub fn string_refs(&self, hash: u32) -> (rows: Vec<StringRefRow<String>>)
        ensures
            page::views(rows@) == string_refs_of(self.hashes@, self.keys(), hash),
    {
        let keys = order::keys_of(&self.hashes);
        let mut rows: Vec<StringRefRow<String>> = Vec::new();
        let mut i: usize = 0;
        assert(page::views(rows@) =~= Seq::empty());
        while i < keys.len()
            invariant
                i <= keys.len(),
                keys@.to_set() == self.hashes@.dom(),
                page::views(rows@) == string_refs_of(self.hashes@, keys@.take(i as int), hash),
            decreases keys.len() - i,
        {
            assert(keys@.take(i + 1).drop_last() =~= keys@.take(i as int));
            let key = keys[i];
            assert(keys@.to_set().contains(key));
            if let Some(scan) = order::lookup32(&self.hashes, key) {
                append_string_refs(&mut rows, key, scan, hash);
            }
            i += 1;
        }
        assert(keys@.take(keys@.len() as int) =~= keys@);
        rows
    }
}

fn append_string_refs(
    rows: &mut Vec<StringRefRow<String>>,
    source: u32,
    scan: &ScanResult,
    hash: u32,
)
    ensures
        page::views(final(rows)@) == page::views(old(rows)@) + string_refs_in(source, *scan, hash),
{
    let ghost f = |x: ScannedHash<u32>| string_ref(source, x, hash);
    let ghost start = page::views(rows@);
    let mut i: usize = 0;
    assert(start + scan.string_hashes@.take(0).filter_map(f) =~= start);
    while i < scan.string_hashes.len()
        invariant
            i <= scan.string_hashes.len(),
            f == (|x: ScannedHash<u32>| string_ref(source, x, hash)),
            page::views(rows@) == start + scan.string_hashes@.take(i as int).filter_map(f),
        decreases scan.string_hashes.len() - i,
    {
        let ghost before = rows@;
        proof {
            scan.string_hashes@.lemma_filter_map_take_succ(f, i as int);
        }
        let x = &scan.string_hashes[i];
        if x.hash == hash {
            rows.push(StringRefRow { tag: tag::tag_name(TagHash(source)), offset: x.offset });
            assert(page::views(rows@) =~= page::views(before).push(rows@.last()@));
        }
        assert(page::views(rows@) =~= start + scan.string_hashes@.take(i + 1).filter_map(f));
        i += 1;
    }
    assert(scan.string_hashes@.take(scan.string_hashes@.len() as int) =~= scan.string_hashes@);
}

// ---------------------------------------------------------------------------
// String search
// ---------------------------------------------------------------------------

/// The positions, below `n`, of the texts that contain `needle` in lower case.
pub open spec fn hits_below(texts: Seq<String>, needle: Seq<char>, key: u32, n: int) -> Seq<
    (u32, usize),
>
    decreases n,
{
    if n <= 0 {
        Seq::empty()
    } else {
        let before = hits_below(texts, needle, key, n - 1);
        if text::text_contains(text::lowercase_text(texts[n - 1]@), needle) {
            before.push((key, (n - 1) as usize))
        } else {
            before
        }
    }
}

/// The key and position of every text that contains `needle` in lower case, key
/// by key.
pub open spec fn hits_of(
    texts: spec_fn(u32) -> Seq<String>,
    keys: Seq<u32>,
    needle: Seq<char>,
) -> Seq<(u32, usize)>
    decreases keys.len(),
{
    if keys.len() == 0 {
        Seq::empty()
    } else {
        let key = keys.last();
        hits_of(texts, keys.drop_last(), needle) + hits_below(
            texts(key),
            needle,
            key,
            texts(key).len() as int,
        )
    }
}

fn append_hits(hits: &mut Vec<(u32, usize)>, key: u32, texts: &Vec<String>, needle: &str)
    ensures
        final(hits)@ == old(hits)@ + hits_below(texts@, needle@, key, texts@.len() as int),
{
    let ghost start = hits@;
    let mut i: usize = 0;
    assert(start + hits_below(texts@, needle@, key, 0) =~= start);
    while i < texts.len()
        invariant
            i <= texts.len(),
            hits@ == start + hits_below(texts@, needle@, key, i as int),
        decreases texts.len() - i,
    {
        if text::matches_needle(texts[i].as_str(), needle) {
            hits.push((key, i));
        }
        assert(hits@ =~= start + hits_below(texts@, needle@, key, i + 1));
        i += 1;
    }
}

/// The raw strings that a scan found in a tag.
pub open spec fn raw_texts(hashes: Map<u32, ScanResult>) -> spec_fn(u32) -> Seq<String> {
    |key: u32| hashes[key].raw_strings@
}

/// The row for a raw string.
pub open spec fn raw_row(hashes: Map<u32, ScanResult>, hit: (u32, usize)) -> RawStringRow<
    Seq<char>,
> {
    let s = hashes[hit.0].raw_strings@[hit.1 as int]@;
    RawStringRow {
        tag: tag::tag_text(TagHash(hit.0)),
        index: hit.1,
        text: text::preview(s),
        text_truncated: s.len() > text::PREVIEW_CHARS,
    }
}

/// The raw strings that a query finds, in ascending order of the tags.
pub open spec fn raw_rows(hashes: Map<u32, ScanResult>, query: Seq<char>) -> Seq<
    RawStringRow<Seq<char>>,
> {
    hits_of(
        raw_texts(hashes),
        order::ascending(hashes.dom()),
        text::lowercase_text(query),
    ).map_values(|hit: (u32, usize)| raw_row(hashes, hit))
}

/// The localized strings with a hash.
pub open spec fn localized_texts(strings: Map<u32, Vec<String>>) -> spec_fn(u32) -> Seq<String> {
    |key: u32| strings[key]@
}

/// The row for a localized string.
pub open spec fn localized_row(strings: Map<u32, Vec<String>>, hit: (u32, usize)) -> LocalizedRow<
    Seq<char>,
> {
    let s = strings[hit.0]@[hit.1 as int]@;
    LocalizedRow {
        string_hash: number::hex_number(hit.0 as nat, 8),
        text: text::preview(s),
        text_truncated: s.len() > text::PREVIEW_CHARS,
    }
}

/// The localized strings that a query finds, in ascending order of the hashes.
pub open spec fn localized_rows(strings: Map<u32, Vec<String>>, query: Seq<char>) -> Seq<
    LocalizedRow<Seq<char>>,
> {
    hits_of(
        localized_texts(strings),
        order::ascending(strings.dom()),
        text::lowercase_text(query),
    ).map_values(|hit: (u32, usize)| localized_row(strings, hit))
}

/// Whether a hit names a key of the map, and a position in its texts.
pub open spec fn hit_in(
    dom: Set<u32>,
    texts: spec_fn(u32) -> Seq<String>,
    hit: (u32, usize),
) -> bool {
    dom.contains(hit.0) && hit.1 < texts(hit.0).len()
}

proof fn lemma_hits_below_valid(texts: Seq<String>, needle: Seq<char>, key: u32, n: int, i: int)
    requires
        0 <= n <= texts.len(),
        texts.len() <= usize::MAX,
        0 <= i < hits_below(texts, needle, key, n).len(),
    ensures
        hits_below(texts, needle, key, n)[i].0 == key,
        hits_below(texts, needle, key, n)[i].1 < n,
        text::text_contains(
            text::lowercase_text(texts[hits_below(texts, needle, key, n)[i].1 as int]@),
            needle,
        ),
    decreases n,
{
    if n > 0 {
        let before = hits_below(texts, needle, key, n - 1);
        if i < before.len() {
            lemma_hits_below_valid(texts, needle, key, n - 1, i);
        }
    }
}

impl TagCache {
    /// The raw strings that contain `needle` in lower case.
    fn raw_hits(&self, needle: &str) -> (hits: Vec<(u32, usize)>)
        ensures
            hits@ == hits_of(raw_texts(self.hashes@), self.keys(), needle@),
            forall|i: int|
                0 <= i < hits.len() ==> hit_in(
                    self.hashes@.dom(),
                    raw_texts(self.hashes@),
                    #[trigger] hits@[i],
                ),
    {
        let keys = order::keys_of(&self.hashes);
        let ghost texts = raw_texts(self.hashes@);
        let ghost dom = self.hashes@.dom();
        let mut hits: Vec<(u32, usize)> = Vec::new();
        let mut i: usize = 0;
        while i < keys.len()
            invariant
                i <= keys.len(),
                keys@.to_set() == self.hashes@.dom(),
                texts == raw_texts(self.hashes@),
                dom == self.hashes@.dom(),
                hits@ == hits_of(texts, keys@.take(i as int), needle@),
                forall|k: int| 0 <= k < hits.len() ==> hit_in(dom, texts, #[trigger] hits@[k]),
            decreases keys.len() - i,
        {
            let ghost before = hits@;
            assert(keys@.take(i + 1).drop_last() =~= keys@.take(i as int));
            let key = keys[i];
            assert(keys@.to_set().contains(key));
            if let Some(scan) = order::lookup32(&self.hashes, key) {
                append_hits(&mut hits, key, &scan.raw_strings, needle);
                assert(scan.raw_strings@.len() == scan.raw_strings.len());
                assert forall|k: int| 0 <= k < hits.len() implies hit_in(
                    dom,
                    texts,
                    #[trigger] hits@[k],
                ) by {
                    if k < before.len() {
                        assert(hits@[k] == before[k]);
                    } else {
                        lemma_hits_below_valid(
                            scan.raw_strings@,
                            needle@,
                            key,
                            scan.raw_strings@.len() as int,
                            k - before.len(),
                        );
                    }
                }
            }
            i += 1;
        }
        assert(keys@.take(keys@.len() as int) =~= keys@);
        hits
    }

    /// A page of the raw strings that `query` finds. Only the rows of the page
    /// are made.
    pub fn find_raw(&self, query: &str, page: Page) -> (r: Result<
        Paged<RawStringRow<String>>,
        QueryError<String>,
    >)
        ensures
            page::page_is(r, page.result_of(raw_rows(self.hashes@, query@))),
    {
        let needle = text::to_lowercase(query);
        let hits = self.raw_hits(needle.as_str());
        let ghost f = |hit: (u32, usize)| raw_row(self.hashes@, hit);
        proof {
            page::law_page_of_mapped(hits@, f, page.limit as int, page.offset as int);
        }
        let ghost all = hits@;
        let found = match page.apply(hits) {
            Ok(found) => found,
            Err(e) => {
                return Err(e);
            },
        };
        let mut items: Vec<RawStringRow<String>> = Vec::new();
        let mut i: usize = 0;
        while i < found.items.len()
            invariant
                i <= found.items.len(),
                f == (|hit: (u32, usize)| raw_row(self.hashes@, hit)),
                found@ == page.of(all),
                forall|k: int|
                    0 <= k < all.len() ==> hit_in(
                        self.hashes@.dom(),
                        raw_texts(self.hashes@),
                        #[trigger] all[k],
                    ),
                page::views(items@) == found.items@.take(i as int).map_values(f),
            decreases found.items.len() - i,
        {
            let ghost before = items@;
            let (key, index) = found.items[i];
            proof {
                let start = if page.offset < all.len() {
                    page.offset as int
                } else {
                    all.len() as int
                };
                assert(found.items@[i as int] == all[start + i]);
            }
            if let Some(scan) = order::lookup32(&self.hashes, key) {
                let (text, text_truncated) = text::clipped(scan.raw_strings[index].as_str());
                items.push(
                    RawStringRow { tag: tag::tag_name(TagHash(key)), index, text, text_truncated },
                );
            }
            assert(page::views(items@) =~= page::views(before).push(items@.last()@));
            assert(page::views(items@) =~= found.items@.take(i + 1).map_values(f));
            i += 1;
        }
        assert(found.items@.take(found.items@.len() as int) =~= found.items@);
        Ok(Paged { items, total: found.total, next_offset: found.next_offset })
    }
}

/// The localized strings that contain `needle` in lower case.
fn localized_hits(strings: &StringCache, needle: &str) -> (hits: Vec<(u32, usize)>)
    ensures
        hits@ == hits_of(localized_texts(strings@), order::ascending(strings@.dom()), needle@),
        forall|i: int|
            0 <= i < hits.len() ==> hit_in(
                strings@.dom(),
                localized_texts(strings@),
                #[trigger] hits@[i],
            ),
{
    let keys = order::keys_of(strings);
    let ghost texts = localized_texts(strings@);
    let ghost dom = strings@.dom();
    let mut hits: Vec<(u32, usize)> = Vec::new();
    let mut i: usize = 0;
    while i < keys.len()
        invariant
            i <= keys.len(),
            keys@.to_set() == strings@.dom(),
            texts == localized_texts(strings@),
            dom == strings@.dom(),
            hits@ == hits_of(texts, keys@.take(i as int), needle@),
            forall|k: int| 0 <= k < hits.len() ==> hit_in(dom, texts, #[trigger] hits@[k]),
        decreases keys.len() - i,
    {
        let ghost before = hits@;
        assert(keys@.take(i + 1).drop_last() =~= keys@.take(i as int));
        let key = keys[i];
        assert(keys@.to_set().contains(key));
        if let Some(found) = order::lookup32(strings, key) {
            append_hits(&mut hits, key, found, needle);
            assert(found@.len() == found.len());
            assert forall|k: int| 0 <= k < hits.len() implies hit_in(
                dom,
                texts,
                #[trigger] hits@[k],
            ) by {
                if k < before.len() {
                    assert(hits@[k] == before[k]);
                } else {
                    lemma_hits_below_valid(
                        found@,
                        needle@,
                        key,
                        found@.len() as int,
                        k - before.len(),
                    );
                }
            }
        }
        i += 1;
    }
    assert(keys@.take(keys@.len() as int) =~= keys@);
    hits
}

/// A page of the localized strings that `query` finds. Only the rows of the
/// page are made.
pub fn find_localized(strings: &StringCache, query: &str, page: Page) -> (r: Result<
    Paged<LocalizedRow<String>>,
    QueryError<String>,
>)
    ensures
        page::page_is(r, page.result_of(localized_rows(strings@, query@))),
{
    let needle = text::to_lowercase(query);
    let hits = localized_hits(strings, needle.as_str());
    let ghost f = |hit: (u32, usize)| localized_row(strings@, hit);
    proof {
        page::law_page_of_mapped(hits@, f, page.limit as int, page.offset as int);
    }
    let ghost all = hits@;
    let found = match page.apply(hits) {
        Ok(found) => found,
        Err(e) => {
            return Err(e);
        },
    };
    let mut items: Vec<LocalizedRow<String>> = Vec::new();
    let mut i: usize = 0;
    while i < found.items.len()
        invariant
            i <= found.items.len(),
            f == (|hit: (u32, usize)| localized_row(strings@, hit)),
            found@ == page.of(all),
            forall|k: int|
                0 <= k < all.len() ==> hit_in(
                    strings@.dom(),
                    localized_texts(strings@),
                    #[trigger] all[k],
                ),
            page::views(items@) == found.items@.take(i as int).map_values(f),
        decreases found.items.len() - i,
    {
        let ghost before = items@;
        let (key, index) = found.items[i];
        proof {
            let start = if page.offset < all.len() {
                page.offset as int
            } else {
                all.len() as int
            };
            assert(found.items@[i as int] == all[start + i]);
        }
        if let Some(texts) = order::lookup32(strings, key) {
            let (text, text_truncated) = text::clipped(texts[index].as_str());
            items.push(
                LocalizedRow {
                    string_hash: number::hex_number_text(key as u64, 8),
                    text,
                    text_truncated,
                },
            );
        }
        assert(page::views(items@) =~= page::views(before).push(items@.last()@));
        assert(page::views(items@) =~= found.items@.take(i + 1).map_values(f));
        i += 1;
    }
    assert(found.items@.take(found.items@.len() as int) =~= found.items@);
    Ok(Paged { items, total: found.total, next_offset: found.next_offset })
}

// ---------------------------------------------------------------------------
// Everything found in one tag
// ---------------------------------------------------------------------------

/// The row for the hash of a localized string.
pub open spec fn localized_match(x: ScannedHash<u32>) -> MatchRow<Seq<char>> {
    MatchRow::LocalizedHash { offset: x.offset, hash: number::hex_number(x.hash as nat, 8) }
}

/// The row for the hash of a word.
pub open spec fn wordlist_match(x: ScannedHash<u32>) -> MatchRow<Seq<char>> {
    MatchRow::WordlistHash { offset: x.offset, hash: number::hex_number(x.hash as nat, 8) }
}

/// The row for a signature.
pub open spec fn signature_match(x: ScannedHash<String>) -> MatchRow<Seq<char>> {
    MatchRow::Signature { offset: x.offset, signature: x.hash@ }
}

/// The row for a raw string.
pub open spec fn raw_match(index: int, s: String) -> MatchRow<Seq<char>> {
    MatchRow::RawString {
        index: index as usize,
        text: text::preview(s@),
        text_truncated: s@.len() > text::PREVIEW_CHARS,
    }
}

/// Everything that a scan found in a tag: localized hashes, wordlist hashes,
/// signatures and raw strings, in this order.
pub open spec fn match_rows_of(scan: ScanResult) -> Seq<MatchRow<Seq<char>>> {
    scan.string_hashes@.map_values(|x: ScannedHash<u32>| localized_match(x))
        + scan.wordlist_hashes@.map_values(|x: ScannedHash<u32>| wordlist_match(x))
        + scan.signatures@.map_values(|x: ScannedHash<String>| signature_match(x))
        + scan.raw_strings@.map(|i: int, s: String| raw_match(i, s))
}

impl ScanResult {
    /// Everything that the scan found.
    pub fn match_rows(&self) -> (rows: Vec<MatchRow<String>>)
        ensures
            page::views(rows@) == match_rows_of(*self),
    {
        let ghost a = self.string_hashes@.map_values(|x: ScannedHash<u32>| localized_match(x));
        let ghost b = self.wordlist_hashes@.map_values(|x: ScannedHash<u32>| wordlist_match(x));
        let ghost c = self.signatures@.map_values(|x: ScannedHash<String>| signature_match(x));
        let ghost d = self.raw_strings@.map(|i: int, s: String| raw_match(i, s));
        let mut rows: Vec<MatchRow<String>> = Vec::new();
        let mut i: usize = 0;
        assert(page::views(rows@) =~= a.take(0));
        while i < self.string_hashes.len()
            invariant
                i <= self.string_hashes.len(),
                a == self.string_hashes@.map_values(|x: ScannedHash<u32>| localized_match(x)),
                page::views(rows@) == a.take(i as int),
            decreases self.string_hashes.len() - i,
        {
            let ghost before = rows@;
            let x = &self.string_hashes[i];
            rows.push(
                MatchRow::LocalizedHash {
                    offset: x.offset,
                    hash: number::hex_number_text(x.hash as u64, 8),
                },
            );
            proof {
                page::lemma_views_push(before, rows@.last());
            }
            i += 1;
            assert(rows@.last()@ == a[i - 1]);
            assert(page::views(rows@) =~= a.take(i as int));
        }
        assert(page::views(rows@) =~= a + b.take(0));
        i = 0;
        while i < self.wordlist_hashes.len()
            invariant
                i <= self.wordlist_hashes.len(),
                b == self.wordlist_hashes@.map_values(|x: ScannedHash<u32>| wordlist_match(x)),
                page::views(rows@) == a + b.take(i as int),
            decreases self.wordlist_hashes.len() - i,
        {
            let ghost before = rows@;
            let x = &self.wordlist_hashes[i];
            rows.push(
                MatchRow::WordlistHash {
                    offset: x.offset,
                    hash: number::hex_number_text(x.hash as u64, 8),
                },
            );
            proof {
                page::lemma_views_push(before, rows@.last());
            }
            i += 1;
            assert(rows@.last()@ == b[i - 1]);
            assert(page::views(rows@) =~= a + b.take(i as int));
        }
        assert(page::views(rows@) =~= a + b + c.take(0));
        i = 0;
        while i < self.signatures.len()
            invariant
                i <= self.signatures.len(),
                c == self.signatures@.map_values(|x: ScannedHash<String>| signature_match(x)),
                page::views(rows@) == a + b + c.take(i as int),
            decreases self.signatures.len() - i,
        {
            let ghost before = rows@;
            let x = &self.signatures[i];
            rows.push(MatchRow::Signature { offset: x.offset, signature: x.hash.clone() });
            proof {
                page::lemma_views_push(before, rows@.last());
            }
            i += 1;
            assert(rows@.last()@ == c[i - 1]);
            assert(page::views(rows@) =~= a + b + c.take(i as int));
        }
        assert(page::views(rows@) =~= a + b + c + d.take(0));
        i = 0;
        while i < self.raw_strings.len()
            invariant
                i <= self.raw_strings.len(),
                d == self.raw_strings@.map(|i: int, s: String| raw_match(i, s)),
                page::views(rows@) == a + b + c + d.take(i as int),
            decreases self.raw_strings.len() - i,
        {
            let ghost before = rows@;
            let (text, text_truncated) = text::clipped(self.raw_strings[i].as_str());
            rows.push(MatchRow::RawString { index: i, text, text_truncated });
            proof {
                page::lemma_views_push(before, rows@.last());
            }
            i += 1;
            assert(rows@.last()@ == d[i - 1]);
            assert(page::views(rows@) =~= a + b + c + d.take(i as int));
        }
        assert(page::views(rows@) =~= a + b + c + d);
        rows
    }
}

// ---------------------------------------------------------------------------
// Laws
// ---------------------------------------------------------------------------

proof fn lemma_hits_from(
    texts: spec_fn(u32) -> Seq<String>,
    keys: Seq<u32>,
    needle: Seq<char>,
    k: int,
)
    requires
        forall|key: u32| (#[trigger] texts(key)).len() <= usize::MAX,
        0 <= k < hits_of(texts, keys, needle).len(),
    ensures
        ({
            let hit = hits_of(texts, keys, needle)[k];
            &&& keys.contains(hit.0)
            &&& hit.1 < texts(hit.0).len()
            &&& text::text_contains(text::lowercase_text(texts(hit.0)[hit.1 as int]@), needle)
        }),
    decreases keys.len(),
{
    let front = keys.drop_last();
    let before = hits_of(texts, front, needle);
    if k < before.len() {
        lemma_hits_from(texts, front, needle, k);
        let i = front.index_of(before[k].0);
        assert(keys[i] == before[k].0);
    } else {
        let key = keys.last();
        lemma_hits_below_valid(texts(key), needle, key, texts(key).len() as int, k - before.len());
    }
}

proof fn lemma_hits_below_contains(
    texts: Seq<String>,
    needle: Seq<char>,
    key: u32,
    n: int,
    index: usize,
)
    requires
        0 <= index < n <= texts.len(),
        texts.len() <= usize::MAX,
        text::text_contains(text::lowercase_text(texts[index as int]@), needle),
    ensures
        hits_below(texts, needle, key, n).contains((key, index)),
    decreases n,
{
    let before = hits_below(texts, needle, key, n - 1);
    let all = hits_below(texts, needle, key, n);
    if index == n - 1 {
        assert(all[before.len() as int] == (key, index));
    } else {
        lemma_hits_below_contains(texts, needle, key, n - 1, index);
        let k = before.index_of((key, index));
        assert(all[k] == (key, index));
    }
}

proof fn lemma_hits_contain(
    texts: spec_fn(u32) -> Seq<String>,
    keys: Seq<u32>,
    needle: Seq<char>,
    key: u32,
    index: usize,
)
    requires
        keys.contains(key),
        texts(key).len() <= usize::MAX,
        index < texts(key).len(),
        text::text_contains(text::lowercase_text(texts(key)[index as int]@), needle),
    ensures
        hits_of(texts, keys, needle).contains((key, index)),
    decreases keys.len(),
{
    let front = keys.drop_last();
    let before = hits_of(texts, front, needle);
    let all = hits_of(texts, keys, needle);
    if keys.last() == key {
        let own = hits_below(texts(key), needle, key, texts(key).len() as int);
        lemma_hits_below_contains(texts(key), needle, key, texts(key).len() as int, index);
        let k = own.index_of((key, index));
        assert(all[before.len() + k] == (key, index));
    } else {
        let i = keys.index_of(key);
        assert(front[i] == key);
        lemma_hits_contain(texts, front, needle, key, index);
        let k = before.index_of((key, index));
        assert(all[k] == (key, index));
    }
}

/// Every row of a search in raw strings is that of a string which contains the
/// query in lower case; its text is no longer than a preview can be.
pub proof fn law_raw_search_sound(hashes: Map<u32, ScanResult>, query: Seq<char>, k: int) -> (hit: (
    u32,
    usize,
))
    requires
        0 <= k < raw_rows(hashes, query).len(),
    ensures
        hashes.contains_key(hit.0),
        hit.1 < hashes[hit.0].raw_strings@.len(),
        text::text_contains(
            text::lowercase_text(hashes[hit.0].raw_strings@[hit.1 as int]@),
            text::lowercase_text(query),
        ),
        raw_rows(hashes, query)[k] == raw_row(hashes, hit),
        raw_rows(hashes, query)[k].text.len() <= text::PREVIEW_CHARS,
{
    let texts = raw_texts(hashes);
    let keys = order::ascending(hashes.dom());
    let needle = text::lowercase_text(query);
    assert forall|key: u32| (#[trigger] texts(key)).len() <= usize::MAX by {
        assert(hashes[key].raw_strings@.len() == hashes[key].raw_strings.len());
    }
    lemma_hits_from(texts, keys, needle, k);
    let hit = hits_of(texts, keys, needle)[k];
    order::law_ascending(hashes.dom());
    assert(keys.to_set().contains(hit.0));
    hit
}

/// A search in raw strings leaves out none that contains the query in lower
/// case.
pub proof fn law_raw_search_complete(
    hashes: Map<u32, ScanResult>,
    query: Seq<char>,
    key: u32,
    index: usize,
)
    requires
        hashes.contains_key(key),
        index < hashes[key].raw_strings@.len(),
        text::text_contains(
            text::lowercase_text(hashes[key].raw_strings@[index as int]@),
            text::lowercase_text(query),
        ),
    ensures
        raw_rows(hashes, query).contains(raw_row(hashes, (key, index))),
{
    let texts = raw_texts(hashes);
    let keys = order::ascending(hashes.dom());
    let needle = text::lowercase_text(query);
    assert(hashes[key].raw_strings@.len() == hashes[key].raw_strings.len());
    order::law_ascending(hashes.dom());
    assert(keys.to_set().contains(key));
    lemma_hits_contain(texts, keys, needle, key, index);
    let k = hits_of(texts, keys, needle).index_of((key, index));
    assert(raw_rows(hashes, query)[k] == raw_row(hashes, (key, index)));
}

/// Every row of a search in localized strings is that of a string which
/// contains the query in lower case; its text is no longer than a preview can
/// be.
pub proof fn law_localized_search_sound(
    strings: Map<u32, Vec<String>>,
    query: Seq<char>,
    k: int,
) -> (hit: (u32, usize))
    requires
        0 <= k < localized_rows(strings, query).len(),
    ensures
        strings.contains_key(hit.0),
        hit.1 < strings[hit.0]@.len(),
        text::text_contains(
            text::lowercase_text(strings[hit.0]@[hit.1 as int]@),
            text::lowercase_text(query),
        ),
        localized_rows(strings, query)[k] == localized_row(strings, hit),
        localized_rows(strings, query)[k].text.len() <= text::PREVIEW_CHARS,
{
    let texts = localized_texts(strings);
    let keys = order::ascending(strings.dom());
    let needle = text::lowercase_text(query);
    assert forall|key: u32| (#[trigger] texts(key)).len() <= usize::MAX by {
        assert(strings[key]@.len() == strings[key].len());
    }
    lemma_hits_from(texts, keys, needle, k);
    let hit = hits_of(texts, keys, needle)[k];
    order::law_ascending(strings.dom());
    assert(keys.to_set().contains(hit.0));
    hit
}

/// A search in localized strings leaves out none that contains the query in
/// lower case.
pub proof fn law_localized_search_complete(
    strings: Map<u32, Vec<String>>,
    query: Seq<char>,
    key: u32,
    index: usize,
)
    requires
        strings.contains_key(key),
        index < strings[key]@.len(),
        text::text_contains(
            text::lowercase_text(strings[key]@[index as int]@),
            text::lowercase_text(query),
        ),
    ensures
        localized_rows(strings, query).contains(localized_row(strings, (key, index))),
{
    let texts = localized_texts(strings);
    let keys = order::ascending(strings.dom());
    let needle = text::lowercase_text(query);
    assert(strings[key]@.len() == strings[key].len());
    order::law_ascending(strings.dom());
    assert(keys.to_set().contains(key));
    lemma_hits_contain(texts, keys, needle, key, index);
    let k = hits_of(texts, keys, needle).index_of((key, index));
    assert(localized_rows(strings, query)[k] == localized_row(strings, (key, index)));
}

/// Where a row of `string_refs` comes from: a scanned tag, and a place in it
/// where the wanted hash stands.
pub open spec fn string_ref_at(
    hashes: Map<u32, ScanResult>,
    hash: u32,
    at: (u32, int),
    row: StringRefRow<Seq<char>>,
) -> bool {
    &&& 0 <= at.1 < hashes[at.0].string_hashes@.len()
    &&& string_ref(at.0, hashes[at.0].string_hashes@[at.1], hash) == Some(row)
}

proof fn lemma_string_refs_from(
    hashes: Map<u32, ScanResult>,
    keys: Seq<u32>,
    hash: u32,
    k: int,
) -> (at: (u32, int))
    requires
        0 <= k < string_refs_of(hashes, keys, hash).len(),
    ensures
        keys.contains(at.0),
        string_ref_at(hashes, hash, at, string_refs_of(hashes, keys, hash)[k]),
    decreases keys.len(),
{
    let front = keys.drop_last();
    let before = string_refs_of(hashes, front, hash);
    let key = keys.last();
    if k < before.len() {
        let at = lemma_string_refs_from(hashes, front, hash, k);
        assert(keys[front.index_of(at.0)] == at.0);
        at
    } else {
        let f = |x: ScannedHash<u32>| string_ref(key, x, hash);
        let i = order::lemma_filter_map_from(hashes[key].string_hashes@, f, k - before.len());
        (key, i)
    }
}

proof fn lemma_string_refs_contain(
    hashes: Map<u32, ScanResult>,
    keys: Seq<u32>,
    hash: u32,
    at: (u32, int),
    row: StringRefRow<Seq<char>>,
)
    requires
        keys.contains(at.0),
        string_ref_at(hashes, hash, at, row),
    ensures
        string_refs_of(hashes, keys, hash).contains(row),
    decreases keys.len(),
{
    let front = keys.drop_last();
    let before = string_refs_of(hashes, front, hash);
    let all = string_refs_of(hashes, keys, hash);
    if keys.last() == at.0 {
        let f = |x: ScannedHash<u32>| string_ref(at.0, x, hash);
        let own = string_refs_in(at.0, hashes[at.0], hash);
        order::lemma_filter_map_contains(hashes[at.0].string_hashes@, f, at.1);
        let k = own.index_of(row);
        assert(all[before.len() + k] == row);
    } else {
        assert(front[keys.index_of(at.0)] == at.0);
        lemma_string_refs_contain(hashes, front, hash, at, row);
        assert(all[before.index_of(row)] == row);
    }
}

/// The rows for the hash of a localized string are exactly those of the places,
/// in any scanned tag, where that hash stands.
pub proof fn law_string_refs(cache: TagCache, hash: u32, row: StringRefRow<Seq<char>>)
    ensures
        string_refs_of(cache.hashes@, cache.keys(), hash).contains(row) <==> exists|at: (u32, int)|
            cache.hashes@.contains_key(at.0) && #[trigger] string_ref_at(
                cache.hashes@,
                hash,
                at,
                row,
            ),
{
    let rows = string_refs_of(cache.hashes@, cache.keys(), hash);
    order::law_ascending(cache.hashes@.dom());
    if rows.contains(row) {
        let at = lemma_string_refs_from(cache.hashes@, cache.keys(), hash, rows.index_of(row));
        assert(cache.keys().to_set().contains(at.0));
        assert(string_ref_at(cache.hashes@, hash, at, row));
    }
    if exists|at: (u32, int)|
        cache.hashes@.contains_key(at.0) && #[trigger] string_ref_at(cache.hashes@, hash, at, row) {
        let at = choose|at: (u32, int)|
            cache.hashes@.contains_key(at.0) && #[trigger] string_ref_at(
                cache.hashes@,
                hash,
                at,
                row,
            );
        assert(cache.keys().to_set().contains(at.0));
        lemma_string_refs_contain(cache.hashes@, cache.keys(), hash, at, row);
    }
}

/// No raw string in the rows of one tag is longer than a preview can be.
pub proof fn law_match_previews(scan: ScanResult, k: int)
    requires
        0 <= k < match_rows_of(scan).len(),
    ensures
        match_rows_of(scan)[k] matches MatchRow::RawString { text, .. } ==> text.len()
            <= text::PREVIEW_CHARS,
{
}

/// What a scan found in a tag, kind by kind: first a row for each hash of a
/// localized string, then one for each hash of a word, for each signature, and
/// for each raw string. Each row says what the one thing is that it stands for,
/// and where it is.
pub proof fn law_match_rows(scan: ScanResult, i: int)
    ensures
        ({
            let a = scan.string_hashes@.len();
            let b = a + scan.wordlist_hashes@.len();
            let c = b + scan.signatures@.len();
            let d = c + scan.raw_strings@.len();
            let rows = match_rows_of(scan);
            &&& rows.len() == d
            &&& 0 <= i < a ==> rows[i] == (MatchRow::LocalizedHash {
                offset: scan.string_hashes@[i].offset,
                hash: number::hex_number(scan.string_hashes@[i].hash as nat, 8),
            })
            &&& a <= i < b ==> rows[i] == (MatchRow::WordlistHash {
                offset: scan.wordlist_hashes@[i - a].offset,
                hash: number::hex_number(scan.wordlist_hashes@[i - a].hash as nat, 8),
            })
            &&& b <= i < c ==> rows[i] == (MatchRow::Signature {
                offset: scan.signatures@[i - b].offset,
                signature: scan.signatures@[i - b].hash@,
            })
            &&& c <= i < d ==> (rows[i] matches MatchRow::RawString { index, text, text_truncated }
                && index == i - c && text::is_preview(
                text,
                text_truncated,
                scan.raw_strings@[i - c]@,
            ))
        }),
{
    assert(scan.raw_strings@.len() == scan.raw_strings.len());
}

/// The numbers of what a scan found in a tag: of references by 32-bit and by
/// 64-bit hashes, of references to the tag, of raw strings, of hashes of
/// localized strings and of signatures, each the length of its own list.
pub proof fn law_counts(scan: ScanResult)
    ensures
        counts_of(scan).successful == scan.successful,
        counts_of(scan).outgoing32 == scan.file_hashes@.len(),
        counts_of(scan).outgoing64 == scan.file_hashes64@.len(),
        counts_of(scan).incoming == scan.references@.len(),
        counts_of(scan).raw_strings == scan.raw_strings@.len(),
        counts_of(scan).string_hashes == scan.string_hashes@.len(),
        counts_of(scan).signatures == scan.signatures@.len(),
        match scan.secondary_class {
            Some(class) => counts_of(scan).secondary_class == Some(
                number::hex_number(class as nat, 8),
            ),
            None => counts_of(scan).secondary_class is None,
        },
{
}

/// The numbers agree with the rows for everything found in the tag: there are as
/// many rows of each of these kinds as the numbers say.
pub proof fn law_counts_match_rows(scan: ScanResult)
    ensures
        match_rows_of(scan).filter(|row: MatchRow<Seq<char>>| row is LocalizedHash).len()
            == counts_of(scan).string_hashes,
        match_rows_of(scan).filter(|row: MatchRow<Seq<char>>| row is Signature).len() == counts_of(
            scan,
        ).signatures,
        match_rows_of(scan).filter(|row: MatchRow<Seq<char>>| row is RawString).len() == counts_of(
            scan,
        ).raw_strings,
{
    let a = scan.string_hashes@.map_values(|x: ScannedHash<u32>| localized_match(x));
    let b = scan.wordlist_hashes@.map_values(|x: ScannedHash<u32>| wordlist_match(x));
    let c = scan.signatures@.map_values(|x: ScannedHash<String>| signature_match(x));
    let d = scan.raw_strings@.map(|i: int, s: String| raw_match(i, s));
    let p = |row: MatchRow<Seq<char>>| row is LocalizedHash;
    let q = |row: MatchRow<Seq<char>>| row is Signature;
    let r = |row: MatchRow<Seq<char>>| row is RawString;
    lemma_filter_parts(a, b, c, d, p);
    lemma_filter_parts(a, b, c, d, q);
    lemma_filter_parts(a, b, c, d, r);
    lemma_filter_all(a, p);
    lemma_filter_none(b, p);
    lemma_filter_none(c, p);
    lemma_filter_none(d, p);
    lemma_filter_none(a, q);
    lemma_filter_none(b, q);
    lemma_filter_all(c, q);
    lemma_filter_none(d, q);
    lemma_filter_none(a, r);
    lemma_filter_none(b, r);
    lemma_filter_none(c, r);
    lemma_filter_all(d, r);
}

proof fn lemma_filter_parts<T>(
    a: Seq<T>,
    b: Seq<T>,
    c: Seq<T>,
    d: Seq<T>,
    keep: spec_fn(T) -> bool,
)
    ensures
        (a + b + c + d).filter(keep).len() == a.filter(keep).len() + b.filter(keep).len()
            + c.filter(keep).len() + d.filter(keep).len(),
{
    Seq::filter_distributes_over_add(a + b + c, d, keep);
    Seq::filter_distributes_over_add(a + b, c, keep);
    Seq::filter_distributes_over_add(a, b, keep);
}

proof fn lemma_filter_all<T>(a: Seq<T>, keep: spec_fn(T) -> bool)
    requires
        forall|i: int| 0 <= i < a.len() ==> keep(#[trigger] a[i]),
    ensures
        a.filter(keep).len() == a.len(),
    decreases a.len(),
{
    reveal(Seq::filter);
    if a.len() > 0 {
        assert(keep(a[a.len() - 1]));
        lemma_filter_all(a.drop_last(), keep);
    }
}

proof fn lemma_filter_none<T>(a: Seq<T>, keep: spec_fn(T) -> bool)
    requires
        forall|i: int| 0 <= i < a.len() ==> !keep(#[trigger] a[i]),
    ensures
        a.filter(keep).len() == 0,
    decreases a.len(),
{
    reveal(Seq::filter);
    if a.len() > 0 {
        assert(!keep(a[a.len() - 1]));
        lemma_filter_none(a.drop_last(), keep);
    }
}

proof fn lemma_string_ref_rows(
    hashes: Map<u32, ScanResult>,
    keys: Seq<u32>,
    hash: u32,
    within: spec_fn(u32) -> Seq<int>,
)
    requires
        within == |key: u32|
            order::picked(
                hashes[key].string_hashes@,
                |x: ScannedHash<u32>| string_ref(key, x, hash),
            ),
    ensures
        string_refs_of(hashes, keys, hash).len() == order::gathered(keys, within).len(),
        forall|k: int|
            0 <= k < order::gathered(keys, within).len() ==> {
                let at = #[trigger] order::gathered(keys, within)[k];
                &&& 0 <= at.1 < hashes[at.0].string_hashes@.len()
                &&& string_ref(at.0, hashes[at.0].string_hashes@[at.1], hash) == Some(
                    string_refs_of(hashes, keys, hash)[k],
                )
            },
    decreases keys.len(),
{
    if keys.len() > 0 {
        let front = keys.drop_last();
        let key = keys.last();
        let f = |x: ScannedHash<u32>| string_ref(key, x, hash);
        let before = order::gathered(front, within);
        let all = order::gathered(keys, within);
        lemma_string_ref_rows(hashes, front, hash, within);
        order::lemma_picked(hashes[key].string_hashes@, f);
        assert(within(key) == order::picked(hashes[key].string_hashes@, f));
        assert forall|k: int| 0 <= k < all.len() implies {
            let at = #[trigger] all[k];
            &&& 0 <= at.1 < hashes[at.0].string_hashes@.len()
            &&& string_ref(at.0, hashes[at.0].string_hashes@[at.1], hash) == Some(
                string_refs_of(hashes, keys, hash)[k],
            )
        } by {
            if k < before.len() {
                assert(all[k] == before[k]);
            } else {
                assert(all[k] == (key, within(key)[k - before.len()]));
            }
        }
    }
}

/// The rows for the hash of a localized string: one for each place in a scanned
/// tag where the hash stands, with that tag and that offset; by tag, and within
/// a tag in the order of the scan.
pub proof fn law_string_ref_rows(cache: TagCache, hash: u32) -> (at: Seq<(u32, int)>)
    ensures
        order::lists_all(
            at,
            |key: u32, i: int|
                cache.hashes@.contains_key(key) && 0 <= i
                    < cache.hashes@[key].string_hashes@.len()
                    && cache.hashes@[key].string_hashes@[i].hash == hash,
        ),
        string_refs_of(cache.hashes@, cache.keys(), hash).len() == at.len(),
        forall|k: int|
            0 <= k < at.len() ==> {
                let row = #[trigger] string_refs_of(cache.hashes@, cache.keys(), hash)[k];
                &&& row.tag == tag::tag_text(TagHash(at[k].0))
                &&& row.offset == cache.hashes@[at[k].0].string_hashes@[at[k].1].offset
            },
{
    let hashes = cache.hashes@;
    let keys = cache.keys();
    let within = |key: u32|
        order::picked(
            hashes[key].string_hashes@,
            |x: ScannedHash<u32>| string_ref(key, x, hash),
        );
    let at = order::gathered(keys, within);
    let valid = |key: u32, i: int|
        hashes.contains_key(key) && 0 <= i < hashes[key].string_hashes@.len()
            && hashes[key].string_hashes@[i].hash == hash;
    let inner = |key: u32, i: int| keys.contains(key) && within(key).contains(i);
    order::law_ascending(hashes.dom());
    assert forall|key: u32| keys.contains(key) <==> hashes.contains_key(key) by {
        assert(keys.to_set().contains(key) <==> hashes.dom().contains(key));
    }
    assert forall|key: u32| keys.contains(key) implies order::climbs(#[trigger] within(key)) by {
        order::lemma_picked(
            hashes[key].string_hashes@,
            |x: ScannedHash<u32>| string_ref(key, x, hash),
        );
    }
    order::lemma_gathered(keys, within);
    lemma_string_ref_rows(hashes, keys, hash, within);
    assert forall|key: u32, i: int| #[trigger] valid(key, i) implies at.contains((key, i)) by {
        let f = |x: ScannedHash<u32>| string_ref(key, x, hash);
        order::lemma_picked(hashes[key].string_hashes@, f);
        assert(f(hashes[key].string_hashes@[i]) is Some);
        assert(within(key).contains(i));
        assert(inner(key, i));
    }
    assert forall|k: int| 0 <= k < at.len() implies valid((#[trigger] at[k]).0, at[k].1) by {
        assert(inner(at[k].0, at[k].1));
    }
    at
}

proof fn lemma_hits_below_climb(texts: Seq<String>, needle: Seq<char>, key: u32, n: int)
    requires
        0 <= n <= texts.len() <= usize::MAX,
    ensures
        order::climbs(
            hits_below(texts, needle, key, n).map_values(|hit: (u32, usize)| hit.1 as int),
        ),
        forall|k: int|
            0 <= k < hits_below(texts, needle, key, n).len() ==> (#[trigger] hits_below(
                texts,
                needle,
                key,
                n,
            )[k]).0 == key,
    decreases n,
{
    if n > 0 {
        let before = hits_below(texts, needle, key, n - 1);
        let all = hits_below(texts, needle, key, n);
        lemma_hits_below_climb(texts, needle, key, n - 1);
        let p = before.map_values(|hit: (u32, usize)| hit.1 as int);
        let q = all.map_values(|hit: (u32, usize)| hit.1 as int);
        assert forall|k: int, l: int| 0 <= k < l < q.len() implies #[trigger] q[k] < #[trigger] q[l]
            by {
            assert(q[k] == p[k]);
            if l < p.len() {
                assert(q[l] == p[l]);
            } else {
                lemma_hits_below_valid(texts, needle, key, n - 1, k);
            }
        }
    }
}

proof fn lemma_hits_gathered(
    texts: spec_fn(u32) -> Seq<String>,
    keys: Seq<u32>,
    needle: Seq<char>,
    within: spec_fn(u32) -> Seq<int>,
)
    requires
        forall|key: u32| (#[trigger] texts(key)).len() <= usize::MAX,
        within == |key: u32|
            hits_below(texts(key), needle, key, texts(key).len() as int).map_values(
                |hit: (u32, usize)| hit.1 as int,
            ),
    ensures
        hits_of(texts, keys, needle).map_values(|hit: (u32, usize)| (hit.0, hit.1 as int))
            == order::gathered(keys, within),
    decreases keys.len(),
{
    let pair = |hit: (u32, usize)| (hit.0, hit.1 as int);
    if keys.len() > 0 {
        let key = keys.last();
        let own = hits_below(texts(key), needle, key, texts(key).len() as int);
        lemma_hits_gathered(texts, keys.drop_last(), needle, within);
        lemma_hits_below_climb(texts(key), needle, key, texts(key).len() as int);
        assert(own.map_values(pair) =~= within(key).map_values(|i: int| (key, i)));
        assert(hits_of(texts, keys, needle).map_values(pair) =~= hits_of(
            texts,
            keys.drop_last(),
            needle,
        ).map_values(pair) + own.map_values(pair));
    } else {
        assert(hits_of(texts, keys, needle).map_values(pair) =~= Seq::empty());
    }
}

proof fn lemma_hits_listed(
    dom: Set<u32>,
    texts: spec_fn(u32) -> Seq<String>,
    needle: Seq<char>,
) -> (at: Seq<(u32, int)>)
    requires
        forall|key: u32| (#[trigger] texts(key)).len() <= usize::MAX,
    ensures
        order::lists_all(
            at,
            |key: u32, i: int|
                dom.contains(key) && 0 <= i < texts(key).len() && text::text_contains(
                    text::lowercase_text(texts(key)[i]@),
                    needle,
                ),
        ),
        at.len() == hits_of(texts, order::ascending(dom), needle).len(),
        forall|k: int|
            0 <= k < at.len() ==> {
                let hit = #[trigger] hits_of(texts, order::ascending(dom), needle)[k];
                hit.0 == at[k].0 && hit.1 == at[k].1
            },
{
    let keys = order::ascending(dom);
    let within = |key: u32|
        hits_below(texts(key), needle, key, texts(key).len() as int).map_values(
            |hit: (u32, usize)| hit.1 as int,
        );
    let hits = hits_of(texts, keys, needle);
    let at = order::gathered(keys, within);
    let valid = |key: u32, i: int|
        dom.contains(key) && 0 <= i < texts(key).len() && text::text_contains(
            text::lowercase_text(texts(key)[i]@),
            needle,
        );
    let inner = |key: u32, i: int| keys.contains(key) && within(key).contains(i);
    let pair = |hit: (u32, usize)| (hit.0, hit.1 as int);
    order::law_ascending(dom);
    assert forall|key: u32| keys.contains(key) <==> dom.contains(key) by {
        assert(keys.to_set().contains(key) <==> dom.contains(key));
    }
    assert forall|key: u32| keys.contains(key) implies order::climbs(#[trigger] within(key)) by {
        lemma_hits_below_climb(texts(key), needle, key, texts(key).len() as int);
    }
    order::lemma_gathered(keys, within);
    lemma_hits_gathered(texts, keys, needle, within);
    assert(hits.map_values(pair) == at);
    assert forall|k: int| 0 <= k < at.len() implies {
        let hit = #[trigger] hits[k];
        hit.0 == at[k].0 && hit.1 == at[k].1
    } by {
        assert(hits.map_values(pair)[k] == pair(hits[k]));
    }
    assert forall|k: int| 0 <= k < at.len() implies valid((#[trigger] at[k]).0, at[k].1) by {
        lemma_hits_from(texts, keys, needle, k);
        assert(hits[k].0 == at[k].0);
    }
    assert forall|key: u32, i: int| #[trigger] valid(key, i) implies at.contains((key, i)) by {
        lemma_hits_contain(texts, keys, needle, key, i as usize);
        let k = hits.index_of((key, i as usize));
        assert(hits.map_values(pair)[k] == (key, i));
    }
    at
}

/// What a search in raw strings gives: one row for each string, of any scanned
/// tag, whose lower-case form contains that of the query. It says which tag and
/// which of its strings it is, and shows the string's preview, flagged exactly if
/// that leaves something out. The rows go by tag, and within a tag by position.
pub proof fn law_raw_rows(hashes: Map<u32, ScanResult>, query: Seq<char>) -> (at: Seq<(u32, int)>)
    ensures
        order::lists_all(
            at,
            |key: u32, i: int|
                hashes.contains_key(key) && 0 <= i < hashes[key].raw_strings@.len()
                    && text::text_contains(
                    text::lowercase_text(hashes[key].raw_strings@[i]@),
                    text::lowercase_text(query),
                ),
        ),
        raw_rows(hashes, query).len() == at.len(),
        forall|k: int|
            0 <= k < at.len() ==> {
                let row = #[trigger] raw_rows(hashes, query)[k];
                &&& row.tag == tag::tag_text(TagHash(at[k].0))
                &&& row.index == at[k].1
                &&& text::is_preview(
                    row.text,
                    row.text_truncated,
                    hashes[at[k].0].raw_strings@[at[k].1]@,
                )
            },
{
    let texts = raw_texts(hashes);
    let needle = text::lowercase_text(query);
    assert forall|key: u32| (#[trigger] texts(key)).len() <= usize::MAX by {
        assert(hashes[key].raw_strings@.len() == hashes[key].raw_strings.len());
    }
    let at = lemma_hits_listed(hashes.dom(), texts, needle);
    let valid = |key: u32, i: int|
        hashes.contains_key(key) && 0 <= i < hashes[key].raw_strings@.len() && text::text_contains(
            text::lowercase_text(hashes[key].raw_strings@[i]@),
            needle,
        );
    let inner = |key: u32, i: int|
        hashes.dom().contains(key) && 0 <= i < texts(key).len() && text::text_contains(
            text::lowercase_text(texts(key)[i]@),
            needle,
        );
    assert forall|key: u32, i: int| #[trigger] valid(key, i) == inner(key, i) by {
    }
    assert forall|k: int| 0 <= k < at.len() implies valid((#[trigger] at[k]).0, at[k].1) by {
        assert(inner(at[k].0, at[k].1));
    }
    assert forall|key: u32, i: int| #[trigger] valid(key, i) implies at.contains((key, i)) by {
        assert(inner(key, i));
    }
    assert forall|k: int| 0 <= k < at.len() implies {
        let row = #[trigger] raw_rows(hashes, query)[k];
        &&& row.tag == tag::tag_text(TagHash(at[k].0))
        &&& row.index == at[k].1
        &&& text::is_preview(
            row.text,
            row.text_truncated,
            hashes[at[k].0].raw_strings@[at[k].1]@,
        )
    } by {
        let hit = hits_of(texts, order::ascending(hashes.dom()), needle)[k];
        assert(hit.0 == at[k].0 && hit.1 == at[k].1);
        text::law_preview(hashes[at[k].0].raw_strings@[at[k].1]@);
    }
    at
}

/// What a search in localized strings gives: one row for each string, under any
/// hash, whose lower-case form contains that of the query. It names the hash, and
/// shows the string's preview, flagged exactly if that leaves something out. The
/// rows go by hash, and under a hash by position.
pub proof fn law_localized_rows(strings: Map<u32, Vec<String>>, query: Seq<char>) -> (at: Seq<
    (u32, int),
>)
    ensures
        order::lists_all(
            at,
            |key: u32, i: int|
                strings.contains_key(key) && 0 <= i < strings[key]@.len() && text::text_contains(
                    text::lowercase_text(strings[key]@[i]@),
                    text::lowercase_text(query),
                ),
        ),
        localized_rows(strings, query).len() == at.len(),
        forall|k: int|
            0 <= k < at.len() ==> {
                let row = #[trigger] localized_rows(strings, query)[k];
                &&& row.string_hash == number::hex_number(at[k].0 as nat, 8)
                &&& text::is_preview(row.text, row.text_truncated, strings[at[k].0]@[at[k].1]@)
            },
{
    let texts = localized_texts(strings);
    let needle = text::lowercase_text(query);
    assert forall|key: u32| (#[trigger] texts(key)).len() <= usize::MAX by {
        assert(strings[key]@.len() == strings[key].len());
    }
    let at = lemma_hits_listed(strings.dom(), texts, needle);
    let valid = |key: u32, i: int|
        strings.contains_key(key) && 0 <= i < strings[key]@.len() && text::text_contains(
            text::lowercase_text(strings[key]@[i]@),
            needle,
        );
    let inner = |key: u32, i: int|
        strings.dom().contains(key) && 0 <= i < texts(key).len() && text::text_contains(
            text::lowercase_text(texts(key)[i]@),
            needle,
        );
    assert forall|key: u32, i: int| #[trigger] valid(key, i) == inner(key, i) by {
    }
    assert forall|k: int| 0 <= k < at.len() implies valid((#[trigger] at[k]).0, at[k].1) by {
        assert(inner(at[k].0, at[k].1));
    }
    assert forall|key: u32, i: int| #[trigger] valid(key, i) implies at.contains((key, i)) by {
        assert(inner(key, i));
    }
    assert forall|k: int| 0 <= k < at.len() implies {
        let row = #[trigger] localized_rows(strings, query)[k];
        &&& row.string_hash == number::hex_number(at[k].0 as nat, 8)
        &&& text::is_preview(row.text, row.text_truncated, strings[at[k].0]@[at[k].1]@)
    } by {
        let hit = hits_of(texts, order::ascending(strings.dom()), needle)[k];
        assert(hit.0 == at[k].0 && hit.1 == at[k].1);
        text::law_preview(strings[at[k].0]@[at[k].1]@);
    }
    at
}

proof fn lemma_failed_count(hashes: Map<u32, ScanResult>, keys: Seq<u32>)
    requires
        keys.no_duplicates(),
    ensures
        failed_count(hashes, keys) == keys.to_set().filter(
            |key: u32| !hashes[key].successful,
        ).len(),
        keys.to_set().filter(|key: u32| !hashes[key].successful).finite(),
    decreases keys.len(),
{
    broadcast use vstd::set_lib::group_set_properties;

    let bad = |key: u32| !hashes[key].successful;
    if keys.len() == 0 {
        assert(keys.to_set().filter(bad) =~= Set::<u32>::empty());
    } else {
        let front = keys.drop_last();
        let key = keys.last();
        lemma_failed_count(hashes, front);
        assert(keys =~= front + seq![key]);
        Seq::lemma_to_set_insert_commutes(front, key);
        assert(!front.to_set().contains(key)) by {
            if front.contains(key) {
                let k = front.index_of(key);
                assert(keys[k] == keys[keys.len() - 1]);
            }
        }
        if bad(key) {
            assert(keys.to_set().filter(bad) =~= front.to_set().filter(bad).insert(key));
        } else {
            assert(keys.to_set().filter(bad) =~= front.to_set().filter(bad));
        }
    }
}

/// How many tags a cache has, and how many of them could not be scanned.
pub proof fn law_tally(cache: TagCache)
    ensures
        cache.keys().len() == cache.hashes@.dom().len(),
        failed_count(cache.hashes@, cache.keys()) == cache.hashes@.dom().filter(
            |key: u32| !cache.hashes@[key].successful,
        ).len(),
{
    let keys = cache.keys();
    order::law_ascending(cache.hashes@.dom());
    assert(keys.no_duplicates()) by {
        assert forall|k: int, l: int| 0 <= k < keys.len() && 0 <= l < keys.len() && k != l implies
            keys[k] != keys[l] by {
            assert(k < l ==> keys[k] < keys[l]);
            assert(l < k ==> keys[l] < keys[k]);
        }
    }
    keys.unique_seq_to_set();
    lemma_failed_count(cache.hashes@, keys);
}

} // verus!
