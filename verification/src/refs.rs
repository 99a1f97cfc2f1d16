//! Direct references between tags.

use vstd::prelude::*;
use vstd::string::*;

use std::collections::BTreeMap;

use crate::number;
use crate::order;
use crate::page;
use crate::rows::EdgeRow;
use crate::scan;
use crate::scan::{ScanResult, ScannedHash, TagCache};
use crate::tag;
use crate::tag::TagHash;

verus! {

/// Which references of a tag are wanted.
#[derive(Clone, Copy, Debug, PartialEq, Eq, Structural)]
pub enum Direction {
    /// Those by which others refer to it.
    Incoming,
    /// Those by which it refers to others.
    Outgoing,
}

impl Default for Direction {
    fn default() -> (direction: Direction)
        ensures
            direction is Outgoing,
    {
        Direction::Outgoing
    }
}

/// The tag that a 64-bit hash stands for, if the packages know it.
pub open spec fn resolve(tag64: Map<u64, TagHash>, hash: u64) -> Option<TagHash> {
    if tag64.contains_key(hash) {
        Some(tag64[hash])
    } else {
        None
    }
}

/// The row for a reference by a 32-bit hash. The largest offset marks a
/// reference that stands in the tag's entry and has no place in the tag.
pub open spec fn edge32_row(source: TagHash, x: ScannedHash<TagHash>) -> EdgeRow<Seq<char>> {
    EdgeRow::Edge32 {
        source: tag::tag_text(source),
        target: tag::tag_text(x.hash),
        offset: if x.offset == u64::MAX {
            None
        } else {
            Some(x.offset)
        },
    }
}

/// The row for a reference by a 64-bit hash.
pub open spec fn edge64_row(
    tag64: Map<u64, TagHash>,
    source: TagHash,
    x: ScannedHash<u64>,
) -> EdgeRow<Seq<char>> {
    EdgeRow::Edge64 {
        source: tag::tag_text(source),
        target: match resolve(tag64, x.hash) {
            Some(t) => Some(tag::tag_text(t)),
            None => None,
        },
        hash64: number::hex_number(x.hash as nat, 16),
        offset: x.offset,
    }
}

/// The row for a reference by a 32-bit hash, if it goes to the wanted tag.
pub open spec fn edge32(
    source: TagHash,
    x: ScannedHash<TagHash>,
    target: Option<TagHash>,
) -> Option<EdgeRow<Seq<char>>> {
    if target is None || target == Some(x.hash) {
        Some(edge32_row(source, x))
    } else {
        None
    }
}

/// The row for a reference by a 64-bit hash, if it goes to the wanted tag.
pub open spec fn edge64(
    tag64: Map<u64, TagHash>,
    source: TagHash,
    x: ScannedHash<u64>,
    target: Option<TagHash>,
) -> Option<EdgeRow<Seq<char>>> {
    if target is None || resolve(tag64, x.hash) == target {
        Some(edge64_row(tag64, source, x))
    } else {
        None
    }
}

/// The references from a tag: to `target`, or all of them. Those by a 32-bit
/// hash come first, then those by a 64-bit hash.
pub open spec fn edges(
    tag64: Map<u64, TagHash>,
    source: TagHash,
    scan: ScanResult,
    target: Option<TagHash>,
) -> Seq<EdgeRow<Seq<char>>> {
    scan.file_hashes@.filter_map(|x: ScannedHash<TagHash>| edge32(source, x, target))
        + scan.file_hashes64@.filter_map(
        |x: ScannedHash<u64>| edge64(tag64, source, x, target),
    )
}

/// Appends the references from `source` to `target`, or all of them.
pub fn append_edges(
    rows: &mut Vec<EdgeRow<String>>,
    tag64: &BTreeMap<u64, TagHash>,
    source: TagHash,
    scan: &ScanResult,
    target: Option<TagHash>,
)
    ensures
        page::views(final(rows)@) == page::views(old(rows)@) + edges(
            tag64@,
            source,
            *scan,
            target,
        ),
{
    let ghost start = page::views(rows@);
    let ghost f = |x: ScannedHash<TagHash>| edge32(source, x, target);
    let ghost g = |x: ScannedHash<u64>| edge64(tag64@, source, x, target);
    let mut i: usize = 0;
    assert(start + scan.file_hashes@.take(0).filter_map(f) =~= start);
    while i < scan.file_hashes.len()
        invariant
            i <= scan.file_hashes.len(),
            f == (|x: ScannedHash<TagHash>| edge32(source, x, target)),
            page::views(rows@) == start + scan.file_hashes@.take(i as int).filter_map(f),
        decreases scan.file_hashes.len() - i,
    {
        let ghost before = rows@;
        proof {
            scan.file_hashes@.lemma_filter_map_take_succ(f, i as int);
        }
        let x = &scan.file_hashes[i];
        let wanted = match target {
            None => true,
            Some(t) => t == x.hash,
        };
        if wanted {
            rows.push(
                EdgeRow::Edge32 {
                    source: tag::tag_name(source),
                    target: tag::tag_name(x.hash),
                    offset: if x.offset == u64::MAX {
                        None
                    } else {
                        Some(x.offset)
                    },
                },
            );
            proof {
                page::lemma_views_push(before, rows@.last());
            }
        }
        assert(page::views(rows@) =~= start + scan.file_hashes@.take(i + 1).filter_map(f));
        i += 1;
    }
    assert(scan.file_hashes@.take(scan.file_hashes@.len() as int) =~= scan.file_hashes@);
    let ghost middle = page::views(rows@);
    i = 0;
    assert(middle + scan.file_hashes64@.take(0).filter_map(g) =~= middle);
    while i < scan.file_hashes64.len()
        invariant
            i <= scan.file_hashes64.len(),
            g == (|x: ScannedHash<u64>| edge64(tag64@, source, x, target)),
            page::views(rows@) == middle + scan.file_hashes64@.take(i as int).filter_map(g),
        decreases scan.file_hashes64.len() - i,
    {
        let ghost before = rows@;
        proof {
            scan.file_hashes64@.lemma_filter_map_take_succ(g, i as int);
        }
        let x = &scan.file_hashes64[i];
        let resolved: Option<TagHash> = match order::lookup64(tag64, x.hash) {
            Some(t) => Some(*t),
            None => None,
        };
        let wanted = match (target, resolved) {
            (None, _) => true,
            (Some(t), Some(r)) => t == r,
            (Some(_), None) => false,
        };
        if wanted {
            rows.push(
                EdgeRow::Edge64 {
                    source: tag::tag_name(source),
                    target: match resolved {
                        Some(t) => Some(tag::tag_name(t)),
                        None => None,
                    },
                    hash64: number::hex_number_text(x.hash, 16),
                    offset: x.offset,
                },
            );
            proof {
                page::lemma_views_push(before, rows@.last());
            }
        }
        assert(page::views(rows@) =~= middle + scan.file_hashes64@.take(i + 1).filter_map(g));
        i += 1;
    }
    assert(scan.file_hashes64@.take(scan.file_hashes64@.len() as int) =~= scan.file_hashes64@);
    assert(page::views(rows@) =~= start + edges(tag64@, source, *scan, target));
}

/// The numbers of some tag hashes.
pub open spec fn hash_numbers(tags: Seq<TagHash>) -> Seq<u32> {
    tags.map_values(|t: TagHash| t.0)
}

/// The tags that refer to a tag, each once, in ascending order.
pub open spec fn sources_of(scan: ScanResult) -> Seq<u32> {
    order::ascending(hash_numbers(scan.references@).to_set())
}

/// The references to `tag` from each of `sources` that was scanned.
pub open spec fn edges_from(
    hashes: Map<u32, ScanResult>,
    tag64: Map<u64, TagHash>,
    sources: Seq<u32>,
    tag: TagHash,
) -> Seq<EdgeRow<Seq<char>>>
    decreases sources.len(),
{
    if sources.len() == 0 {
        Seq::empty()
    } else {
        let source = sources.last();
        edges_from(hashes, tag64, sources.drop_last(), tag) + if hashes.contains_key(source) {
            edges(tag64, TagHash(source), hashes[source], Some(tag))
        } else {
            Seq::empty()
        }
    }
}

/// The references of a tag that was scanned.
pub open spec fn ref_rows_of(
    hashes: Map<u32, ScanResult>,
    tag64: Map<u64, TagHash>,
    tag: TagHash,
    direction: Direction,
) -> Seq<EdgeRow<Seq<char>>> {
    match direction {
        Direction::Outgoing => edges(tag64, tag, hashes[tag.0], None),
        Direction::Incoming => edges_from(hashes, tag64, sources_of(hashes[tag.0]), tag),
    }
}

impl TagCache {
    /// The references of a tag; nothing if the scan did not see it.
    pub fn ref_rows(
        &self,
        tag64: &BTreeMap<u64, TagHash>,
        tag: TagHash,
        direction: Direction,
    ) -> (rows: Option<Vec<EdgeRow<String>>>)
        ensures
            match rows {
                Some(rows) => self.hashes@.contains_key(tag.0) && page::views(rows@)
                    == ref_rows_of(self.hashes@, tag64@, tag, direction),
                None => !self.hashes@.contains_key(tag.0),
            },
    {
        let scan = match self.get(tag) {
            Some(scan) => scan,
            None => {
                return None;
            },
        };
        let mut rows: Vec<EdgeRow<String>> = Vec::new();
        assert(page::views(rows@) =~= Seq::empty());
        match direction {
            Direction::Outgoing => {
                append_edges(&mut rows, tag64, tag, scan, None);
                assert(Seq::empty() + edges(tag64@, tag, *scan, None) =~= edges(
                    tag64@,
                    tag,
                    *scan,
                    None,
                ));
            },
            Direction::Incoming => {
                let mut numbers: Vec<u32> = Vec::new();
                let mut i: usize = 0;
                while i < scan.references.len()
                    invariant
                        i <= scan.references.len(),
                        numbers@ == hash_numbers(scan.references@.take(i as int)),
                    decreases scan.references.len() - i,
                {
                    numbers.push(scan.references[i].0);
                    i += 1;
                    assert(numbers@ =~= hash_numbers(scan.references@.take(i as int)));
                }
                assert(scan.references@.take(scan.references@.len() as int)
                    =~= scan.references@);
                let sources = order::ascending_distinct(&numbers);
                i = 0;
                while i < sources.len()
                    invariant
                        i <= sources.len(),
                        page::views(rows@) == edges_from(
                            self.hashes@,
                            tag64@,
                            sources@.take(i as int),
                            tag,
                        ),
                    decreases sources.len() - i,
                {
                    assert(sources@.take(i + 1).drop_last() =~= sources@.take(i as int));
                    let source = sources[i];
                    if let Some(s) = order::lookup32(&self.hashes, source) {
                        append_edges(&mut rows, tag64, TagHash(source), s, Some(tag));
                    }
                    assert(page::views(rows@) =~= edges_from(
                        self.hashes@,
                        tag64@,
                        sources@.take(i + 1),
                        tag,
                    ));
                    i += 1;
                }
                assert(sources@.take(sources@.len() as int) =~= sources@);
            },
        }
        Some(rows)
    }
}

// ---------------------------------------------------------------------------
// Laws
// ---------------------------------------------------------------------------

/// The displayed form of a row's target, if it has one.
pub open spec fn row_target(row: EdgeRow<Seq<char>>) -> Option<Seq<char>> {
    match row {
        EdgeRow::Edge32 { target, .. } => Some(target),
        EdgeRow::Edge64 { target, .. } => target,
    }
}

proof fn lemma_filter_of_filter_map<A, B>(
    s: Seq<A>,
    all: spec_fn(A) -> Option<B>,
    some: spec_fn(A) -> Option<B>,
    keep: spec_fn(B) -> bool,
)
    requires
        forall|x: A|
            #![trigger all(x)]
            #![trigger some(x)]
            match all(x) {
                Some(y) => some(x) == if keep(y) {
                    Some(y)
                } else {
                    None
                },
                None => some(x) is None,
            },
    ensures
        s.filter_map(some) == s.filter_map(all).filter(keep),
    decreases s.len(),
{
    reveal(Seq::filter);
    if s.len() > 0 {
        let front = s.drop_last();
        lemma_filter_of_filter_map(front, all, some, keep);
        match all(s.last()) {
            Some(y) => {
                let before = front.filter_map(all);
                assert(s.filter_map(all) == before + seq![y]);
                assert((before + seq![y]).drop_last() =~= before);
                if keep(y) {
                    assert(s.filter_map(some) =~= front.filter_map(some).push(y));
                }
            },
            None => {},
        }
    }
}

/// The references to a tag that are found at a source are exactly the
/// source's own outgoing references whose target is that tag, in the same
/// order.
pub proof fn law_incoming_are_outgoing(
    tag64: Map<u64, TagHash>,
    source: TagHash,
    scan: ScanResult,
    tag: TagHash,
)
    ensures
        edges(tag64, source, scan, Some(tag)) == edges(tag64, source, scan, None).filter(
            |row: EdgeRow<Seq<char>>| row_target(row) == Some(tag::tag_text(tag)),
        ),
{
    let keep = |row: EdgeRow<Seq<char>>| row_target(row) == Some(tag::tag_text(tag));
    let all32 = |x: ScannedHash<TagHash>| edge32(source, x, None);
    let some32 = |x: ScannedHash<TagHash>| edge32(source, x, Some(tag));
    let all64 = |x: ScannedHash<u64>| edge64(tag64, source, x, None);
    let some64 = |x: ScannedHash<u64>| edge64(tag64, source, x, Some(tag));
    assert forall|x: ScannedHash<TagHash>|
        #![trigger all32(x)]
        #![trigger some32(x)]
        some32(x) == if keep(all32(x).unwrap()) {
            Some(all32(x).unwrap())
        } else {
            None
        } by {
        if tag::tag_text(x.hash) == tag::tag_text(tag) {
            tag::law_tag_text_injective(x.hash, tag);
        }
    }
    assert forall|x: ScannedHash<u64>|
        #![trigger all64(x)]
        #![trigger some64(x)]
        some64(x) == if keep(all64(x).unwrap()) {
            Some(all64(x).unwrap())
        } else {
            None
        } by {
        if let Some(t) = resolve(tag64, x.hash) {
            if tag::tag_text(t) == tag::tag_text(tag) {
                tag::law_tag_text_injective(t, tag);
            }
        }
    }
    lemma_filter_of_filter_map(scan.file_hashes@, all32, some32, keep);
    lemma_filter_of_filter_map(scan.file_hashes64@, all64, some64, keep);
    Seq::filter_distributes_over_add(
        scan.file_hashes@.filter_map(all32),
        scan.file_hashes64@.filter_map(all64),
        keep,
    );
}

/// All references from a tag are listed: one row for each hash that the scan
/// found, with its place in the tag. A row has no offset exactly if the
/// reference stands in the tag's entry, and no target exactly if no package
/// resolves its 64-bit hash.
pub proof fn law_outgoing_complete(
    tag64: Map<u64, TagHash>,
    source: TagHash,
    scan: ScanResult,
)
    ensures
        edges(tag64, source, scan, None) == scan.file_hashes@.map_values(
            |x: ScannedHash<TagHash>| edge32_row(source, x),
        ) + scan.file_hashes64@.map_values(
            |x: ScannedHash<u64>| edge64_row(tag64, source, x),
        ),
        forall|x: ScannedHash<TagHash>|
            {
                let row = #[trigger] edge32_row(source, x);
                (row->Edge32_offset is None <==> x.offset == u64::MAX) && (row.basis_text()
                    == "entry_reference"@ <==> x.offset == u64::MAX)
            },
        forall|x: ScannedHash<u64>|
            row_target(#[trigger] edge64_row(tag64, source, x)) is None <==> !tag64.contains_key(
                x.hash,
            ),
{
    order::lemma_filter_map_total(
        scan.file_hashes@,
        |x: ScannedHash<TagHash>| edge32(source, x, None),
        |x: ScannedHash<TagHash>| edge32_row(source, x),
    );
    order::lemma_filter_map_total(
        scan.file_hashes64@,
        |x: ScannedHash<u64>| edge64(tag64, source, x, None),
        |x: ScannedHash<u64>| edge64_row(tag64, source, x),
    );
    reveal_strlit("entry_reference");
    reveal_strlit("scan_match32");
    assert("entry_reference"@[0] != "scan_match32"@[0]);
}

proof fn lemma_edges_from_source(
    hashes: Map<u32, ScanResult>,
    tag64: Map<u64, TagHash>,
    sources: Seq<u32>,
    tag: TagHash,
    k: int,
) -> (source: u32)
    requires
        0 <= k < edges_from(hashes, tag64, sources, tag).len(),
    ensures
        sources.contains(source),
        hashes.contains_key(source),
        edges(tag64, TagHash(source), hashes[source], Some(tag)).contains(
            edges_from(hashes, tag64, sources, tag)[k],
        ),
    decreases sources.len(),
{
    let front = sources.drop_last();
    let before = edges_from(hashes, tag64, front, tag);
    if k < before.len() {
        let source = lemma_edges_from_source(hashes, tag64, front, tag, k);
        assert(sources[front.index_of(source)] == source);
        source
    } else {
        let source = sources.last();
        let own = edges(tag64, TagHash(source), hashes[source], Some(tag));
        assert(own[k - before.len()] == edges_from(hashes, tag64, sources, tag)[k]);
        source
    }
}

proof fn lemma_edges_from_contain(
    hashes: Map<u32, ScanResult>,
    tag64: Map<u64, TagHash>,
    sources: Seq<u32>,
    tag: TagHash,
    source: u32,
    row: EdgeRow<Seq<char>>,
)
    requires
        sources.contains(source),
        hashes.contains_key(source),
        edges(tag64, TagHash(source), hashes[source], Some(tag)).contains(row),
    ensures
        edges_from(hashes, tag64, sources, tag).contains(row),
    decreases sources.len(),
{
    let front = sources.drop_last();
    let before = edges_from(hashes, tag64, front, tag);
    let all = edges_from(hashes, tag64, sources, tag);
    if sources.last() == source {
        let own = edges(tag64, TagHash(source), hashes[source], Some(tag));
        assert(all[before.len() + own.index_of(row)] == row);
    } else {
        assert(front[sources.index_of(source)] == source);
        lemma_edges_from_contain(hashes, tag64, front, tag, source, row);
        assert(all[before.index_of(row)] == row);
    }
}

/// The two directions agree: the incoming references of a tag are exactly the
/// outgoing references, to that tag, of the scanned tags that are known to
/// refer to it.
pub proof fn law_directions_agree(
    hashes: Map<u32, ScanResult>,
    tag64: Map<u64, TagHash>,
    tag: TagHash,
    row: EdgeRow<Seq<char>>,
)
    ensures
        ref_rows_of(hashes, tag64, tag, Direction::Incoming).contains(row) <==> {
            &&& row_target(row) == Some(tag::tag_text(tag))
            &&& exists|source: TagHash|
                {
                    &&& #[trigger] hashes[tag.0].references@.contains(source)
                    &&& hashes.contains_key(source.0)
                    &&& ref_rows_of(hashes, tag64, source, Direction::Outgoing).contains(row)
                }
        },
{
    let keep = |r: EdgeRow<Seq<char>>| row_target(r) == Some(tag::tag_text(tag));
    let references = hashes[tag.0].references@;
    let numbers = hash_numbers(references);
    let sources = sources_of(hashes[tag.0]);
    let incoming = ref_rows_of(hashes, tag64, tag, Direction::Incoming);
    order::law_ascending(numbers.to_set());
    if incoming.contains(row) {
        let source = lemma_edges_from_source(
            hashes,
            tag64,
            sources,
            tag,
            incoming.index_of(row),
        );
        assert(sources.to_set().contains(source));
        assert(numbers.contains(source));
        let i = numbers.index_of(source);
        assert(references[i] == TagHash(source));
        assert(references.contains(TagHash(source)));
        law_incoming_are_outgoing(tag64, TagHash(source), hashes[source], tag);
        edges(tag64, TagHash(source), hashes[source], None).lemma_filter_contains_rev(keep, row);
    }
    if row_target(row) == Some(tag::tag_text(tag)) && exists|source: TagHash|
        {
            &&& #[trigger] references.contains(source)
            &&& hashes.contains_key(source.0)
            &&& ref_rows_of(hashes, tag64, source, Direction::Outgoing).contains(row)
        } {
        let source = choose|source: TagHash|
            {
                &&& #[trigger] references.contains(source)
                &&& hashes.contains_key(source.0)
                &&& ref_rows_of(hashes, tag64, source, Direction::Outgoing).contains(row)
            };
        let i = references.index_of(source);
        assert(numbers[i] == source.0);
        assert(numbers.to_set().contains(source.0));
        assert(sources.to_set().contains(source.0));
        law_incoming_are_outgoing(tag64, source, hashes[source.0], tag);
        let outgoing = edges(tag64, source, hashes[source.0], None);
        outgoing.lemma_filter_contains(keep, outgoing.index_of(row));
        lemma_edges_from_contain(hashes, tag64, sources, tag, source.0, row);
    }
}

/// Whether `row` is the row for reference `i` of a tag, where those by a 32-bit
/// hash are counted first. It names the tag that the reference is in and the one
/// it goes to, and its own offset; one that stands in the tag's entry has none,
/// and a 64-bit hash that no package knows leads to no tag.
pub open spec fn tells_edge(
    row: EdgeRow<Seq<char>>,
    tag64: Map<u64, TagHash>,
    source: u32,
    scan: ScanResult,
    i: int,
) -> bool {
    let n = scan.file_hashes@.len();
    if i < n {
        let x = scan.file_hashes@[i];
        &&& row matches EdgeRow::Edge32 { source: from, target, offset }
        &&& from == tag::tag_text(TagHash(source))
        &&& target == tag::tag_text(x.hash)
        &&& x.offset == 0xffff_ffff_ffff_ffff ==> offset is None
        &&& x.offset != 0xffff_ffff_ffff_ffff ==> offset == Some(x.offset)
    } else {
        let x = scan.file_hashes64@[i - n];
        &&& row matches EdgeRow::Edge64 { source: from, target, hash64, offset }
        &&& from == tag::tag_text(TagHash(source))
        &&& tag64.contains_key(x.hash) ==> target == Some(tag::tag_text(tag64[x.hash]))
        &&& !tag64.contains_key(x.hash) ==> target is None
        &&& hash64 == number::hex_number(x.hash as nat, 16)
        &&& offset == x.offset
    }
}

/// The outgoing references of a tag: one row for each hash that the scan found
/// in it, in the order of the scan, with that hash's own place and target.
pub proof fn law_outgoing_rows(hashes: Map<u32, ScanResult>, tag64: Map<u64, TagHash>, tag: TagHash)
    ensures
        ({
            let scan = hashes[tag.0];
            let rows = ref_rows_of(hashes, tag64, tag, Direction::Outgoing);
            &&& rows.len() == scan.file_hashes@.len() + scan.file_hashes64@.len()
            &&& forall|i: int|
                0 <= i < rows.len() ==> tells_edge(#[trigger] rows[i], tag64, tag.0, scan, i)
        }),
{
    let scan = hashes[tag.0];
    law_outgoing_complete(tag64, tag, scan);
    assert(TagHash(tag.0) == tag);
}

/// Two references by a 32-bit hash at different places of a tag have rows with
/// different offsets.
pub proof fn law_offsets_differ(
    hashes: Map<u32, ScanResult>,
    tag64: Map<u64, TagHash>,
    tag: TagHash,
    i: int,
    j: int,
)
    requires
        0 <= i < hashes[tag.0].file_hashes@.len(),
        0 <= j < hashes[tag.0].file_hashes@.len(),
        hashes[tag.0].file_hashes@[i].offset != hashes[tag.0].file_hashes@[j].offset,
    ensures
        ref_rows_of(hashes, tag64, tag, Direction::Outgoing)[i]->Edge32_offset != ref_rows_of(
            hashes,
            tag64,
            tag,
            Direction::Outgoing,
        )[j]->Edge32_offset,
{
    law_outgoing_rows(hashes, tag64, tag);
    let rows = ref_rows_of(hashes, tag64, tag, Direction::Outgoing);
    assert(tells_edge(rows[i], tag64, tag.0, hashes[tag.0], i));
    assert(tells_edge(rows[j], tag64, tag.0, hashes[tag.0], j));
}

/// Whether reference `i` of a scanned tag, which is recorded as referring to
/// `tag`, goes to `tag`.
pub open spec fn refers(
    hashes: Map<u32, ScanResult>,
    tag64: Map<u64, TagHash>,
    tag: TagHash,
    source: u32,
    i: int,
) -> bool {
    let scan = hashes[source];
    let n = scan.file_hashes@.len();
    &&& hashes[tag.0].references@.contains(TagHash(source))
    &&& hashes.contains_key(source)
    &&& 0 <= i < n + scan.file_hashes64@.len()
    &&& i < n ==> scan.file_hashes@[i].hash == tag
    &&& i >= n ==> tag64.contains_key(scan.file_hashes64@[i - n].hash)
        && tag64[scan.file_hashes64@[i - n].hash] == tag
}

/// The references of a scanned tag that go to `tag`.
spec fn references_to(
    hashes: Map<u32, ScanResult>,
    tag64: Map<u64, TagHash>,
    tag: TagHash,
    source: u32,
) -> Seq<int> {
    let scan = hashes[source];
    let s = TagHash(source);
    if hashes.contains_key(source) {
        order::picked(scan.file_hashes@, |x: ScannedHash<TagHash>| edge32(s, x, Some(tag)))
            + order::picked(
            scan.file_hashes64@,
            |x: ScannedHash<u64>| edge64(tag64, s, x, Some(tag)),
        ).map_values(|i: int| i + scan.file_hashes@.len())
    } else {
        Seq::empty()
    }
}

proof fn lemma_references_to(
    hashes: Map<u32, ScanResult>,
    tag64: Map<u64, TagHash>,
    tag: TagHash,
    source: u32,
)
    requires
        hashes.contains_key(source),
    ensures
        ({
            let at = references_to(hashes, tag64, tag, source);
            let scan = hashes[source];
            let rows = edges(tag64, TagHash(source), scan, Some(tag));
            let n = scan.file_hashes@.len();
            &&& order::climbs(at)
            &&& at.len() == rows.len()
            &&& forall|k: int|
                0 <= k < at.len() ==> {
                    let i = #[trigger] at[k];
                    &&& 0 <= i < n + scan.file_hashes64@.len()
                    &&& i < n ==> scan.file_hashes@[i].hash == tag
                    &&& i >= n ==> tag64.contains_key(scan.file_hashes64@[i - n].hash)
                        && tag64[scan.file_hashes64@[i - n].hash] == tag
                    &&& tells_edge(rows[k], tag64, source, scan, i)
                }
            &&& forall|i: int|
                {
                    &&& 0 <= i < n + scan.file_hashes64@.len()
                    &&& i < n ==> scan.file_hashes@[i].hash == tag
                    &&& i >= n ==> tag64.contains_key(scan.file_hashes64@[i - n].hash)
                        && tag64[scan.file_hashes64@[i - n].hash] == tag
                } ==> #[trigger] at.contains(i)
        }),
{
    let scan = hashes[source];
    let s = TagHash(source);
    let n = scan.file_hashes@.len();
    let f = |x: ScannedHash<TagHash>| edge32(s, x, Some(tag));
    let g = |x: ScannedHash<u64>| edge64(tag64, s, x, Some(tag));
    let p = order::picked(scan.file_hashes@, f);
    let q = order::picked(scan.file_hashes64@, g);
    let at = references_to(hashes, tag64, tag, source);
    let rows = edges(tag64, s, scan, Some(tag));
    order::lemma_picked(scan.file_hashes@, f);
    order::lemma_picked(scan.file_hashes64@, g);
    assert forall|k: int| 0 <= k < at.len() implies {
        let i = #[trigger] at[k];
        &&& 0 <= i < n + scan.file_hashes64@.len()
        &&& i < n ==> scan.file_hashes@[i].hash == tag
        &&& i >= n ==> tag64.contains_key(scan.file_hashes64@[i - n].hash)
            && tag64[scan.file_hashes64@[i - n].hash] == tag
        &&& tells_edge(rows[k], tag64, source, scan, i)
    } by {
        if k < p.len() {
            assert(at[k] == p[k]);
            assert(f(scan.file_hashes@[p[k]]) == Some(rows[k]));
        } else {
            let m = k - p.len();
            assert(at[k] == q[m] + n);
            assert(g(scan.file_hashes64@[q[m]]) == Some(rows[k]));
        }
    }
    assert forall|k: int, l: int| 0 <= k < l < at.len() implies #[trigger] at[k] < #[trigger] at[l]
        by {
        if l < p.len() {
            assert(at[k] == p[k] && at[l] == p[l]);
        } else if k < p.len() {
            assert(at[k] == p[k]);
            assert(at[l] == q[l - p.len()] + n);
            assert(0 <= q[l - p.len()]);
        } else {
            assert(at[k] == q[k - p.len()] + n && at[l] == q[l - p.len()] + n);
        }
    }
    assert forall|i: int|
        {
            &&& 0 <= i < n + scan.file_hashes64@.len()
            &&& i < n ==> scan.file_hashes@[i].hash == tag
            &&& i >= n ==> tag64.contains_key(scan.file_hashes64@[i - n].hash)
                && tag64[scan.file_hashes64@[i - n].hash] == tag
        } implies #[trigger] at.contains(i) by {
        if i < n {
            assert(f(scan.file_hashes@[i]) is Some);
            let k = p.index_of(i);
            assert(at[k] == i);
        } else {
            assert(g(scan.file_hashes64@[i - n]) is Some);
            let k = q.index_of(i - n);
            assert(at[p.len() + k] == i);
        }
    }
}

proof fn lemma_edges_gathered(
    hashes: Map<u32, ScanResult>,
    tag64: Map<u64, TagHash>,
    sources: Seq<u32>,
    tag: TagHash,
    within: spec_fn(u32) -> Seq<int>,
)
    requires
        within == |source: u32| references_to(hashes, tag64, tag, source),
    ensures
        edges_from(hashes, tag64, sources, tag).len() == order::gathered(sources, within).len(),
        forall|k: int|
            0 <= k < order::gathered(sources, within).len() ==> {
                let at = #[trigger] order::gathered(sources, within)[k];
                tells_edge(
                    edges_from(hashes, tag64, sources, tag)[k],
                    tag64,
                    at.0,
                    hashes[at.0],
                    at.1,
                )
            },
    decreases sources.len(),
{
    if sources.len() > 0 {
        let front = sources.drop_last();
        let source = sources.last();
        let before = order::gathered(front, within);
        let all = order::gathered(sources, within);
        let rows = edges_from(hashes, tag64, sources, tag);
        lemma_edges_gathered(hashes, tag64, front, tag, within);
        if hashes.contains_key(source) {
            lemma_references_to(hashes, tag64, tag, source);
        }
        let own = within(source);
        assert(own == references_to(hashes, tag64, tag, source));
        assert forall|k: int| 0 <= k < all.len() implies {
            let at = #[trigger] all[k];
            tells_edge(rows[k], tag64, at.0, hashes[at.0], at.1)
        } by {
            if k < before.len() {
                assert(all[k] == before[k]);
            } else {
                assert(all[k] == (source, own[k - before.len()]));
            }
        }
    }
}

/// The incoming references of a tag: one row for each reference to it in a
/// scanned tag that is recorded as referring to it, each source once however
/// often it is recorded; by source, and within a source in the order of its
/// outgoing references. Each row has its own source, place and target.
pub proof fn law_incoming_rows(
    hashes: Map<u32, ScanResult>,
    tag64: Map<u64, TagHash>,
    tag: TagHash,
) -> (at: Seq<(u32, int)>)
    ensures
        order::lists_all(at, |source: u32, i: int| refers(hashes, tag64, tag, source, i)),
        ref_rows_of(hashes, tag64, tag, Direction::Incoming).len() == at.len(),
        forall|k: int|
            0 <= k < at.len() ==> tells_edge(
                #[trigger] ref_rows_of(hashes, tag64, tag, Direction::Incoming)[k],
                tag64,
                at[k].0,
                hashes[at[k].0],
                at[k].1,
            ),
{
    let numbers = hash_numbers(hashes[tag.0].references@);
    let sources = sources_of(hashes[tag.0]);
    let within = |source: u32| references_to(hashes, tag64, tag, source);
    let at = order::gathered(sources, within);
    let valid = |source: u32, i: int| refers(hashes, tag64, tag, source, i);
    let inner = |source: u32, i: int| sources.contains(source) && within(source).contains(i);
    let rows = ref_rows_of(hashes, tag64, tag, Direction::Incoming);
    order::law_ascending(numbers.to_set());
    assert forall|source: u32|
        sources.contains(source) <==> #[trigger] hashes[tag.0].references@.contains(
            TagHash(source),
        ) by {
        assert(sources.to_set().contains(source) <==> numbers.to_set().contains(source));
        if numbers.contains(source) {
            let i = numbers.index_of(source);
            assert(hashes[tag.0].references@[i] == TagHash(source));
        }
        if hashes[tag.0].references@.contains(TagHash(source)) {
            let i = hashes[tag.0].references@.index_of(TagHash(source));
            assert(numbers[i] == source);
        }
    }
    assert forall|source: u32| sources.contains(source) implies order::climbs(
        #[trigger] within(source),
    ) by {
        if hashes.contains_key(source) {
            lemma_references_to(hashes, tag64, tag, source);
        }
    }
    order::lemma_gathered(sources, within);
    lemma_edges_gathered(hashes, tag64, sources, tag, within);
    assert forall|source: u32, i: int| #[trigger] valid(source, i) == inner(source, i) by {
        assert(hashes[tag.0].references@.contains(TagHash(source)) <==> sources.contains(source));
        if hashes.contains_key(source) {
            lemma_references_to(hashes, tag64, tag, source);
            let own = within(source);
            if own.contains(i) {
                let k = own.index_of(i);
                assert(own[k] == i);
            }
            if valid(source, i) {
                assert(own.contains(i));
            }
        }
    }
    assert forall|k: int| 0 <= k < at.len() implies valid((#[trigger] at[k]).0, at[k].1) by {
        assert(inner(at[k].0, at[k].1));
    }
    assert forall|source: u32, i: int| #[trigger] valid(source, i) implies at.contains(
        (source, i),
    ) by {
        assert(inner(source, i));
    }
    assert forall|k: int| 0 <= k < at.len() implies tells_edge(
        #[trigger] rows[k],
        tag64,
        at[k].0,
        hashes[at[k].0],
        at[k].1,
    ) by {
        assert(at[k] == order::gathered(sources, within)[k]);
    }
    at
}

/// The numbers in the scan counts agree with the listings: there are as many
/// outgoing references as both numbers say together.
pub proof fn law_counts_agree(hashes: Map<u32, ScanResult>, tag64: Map<u64, TagHash>, tag: TagHash)
    ensures
        ref_rows_of(hashes, tag64, tag, Direction::Outgoing).len() == scan::counts_of(
            hashes[tag.0],
        ).outgoing32 + scan::counts_of(hashes[tag.0]).outgoing64,
        scan::counts_of(hashes[tag.0]).incoming == hashes[tag.0].references@.len(),
        sources_of(hashes[tag.0]).to_set() == hash_numbers(hashes[tag.0].references@).to_set(),
        sources_of(hashes[tag.0]).len() <= scan::counts_of(hashes[tag.0]).incoming,
{
    let numbers = hash_numbers(hashes[tag.0].references@);
    let sources = sources_of(hashes[tag.0]);
    law_outgoing_rows(hashes, tag64, tag);
    order::law_ascending(numbers.to_set());
    assert(sources.no_duplicates()) by {
        assert forall|k: int, l: int|
            0 <= k < sources.len() && 0 <= l < sources.len() && k != l implies sources[k]
            != sources[l] by {
            assert(k < l ==> sources[k] < sources[l]);
            assert(l < k ==> sources[l] < sources[k]);
        }
    }
    sources.unique_seq_to_set();
    numbers.lemma_cardinality_of_set();
}

} // verus!
