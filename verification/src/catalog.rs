//! What the package headers say: packages, tag entries and named tags.

use vstd::prelude::*;
use vstd::string::*;

use std::collections::BTreeMap;

use crate::error::QueryError;
use crate::number;
use crate::order;
use crate::page;
use crate::page::{Page, Paged};
use crate::rows::{HeaderRow, NamedRow, PackageRow};
use crate::tag;
use crate::tag::TagHash;
use crate::text;

verus! {

/// A tag that has a name.
#[derive(Debug)]
pub struct NamedTag {
    pub hash: TagHash,
    pub name: String,
}

/// The entry of a tag in its package.
#[derive(Debug)]
pub struct EntryHeader {
    /// The tag's class, or the tag it refers to.
    pub reference: u32,
    pub file_type: u8,
    pub file_subtype: u8,
    pub file_size: u32,
}

/// The entries of a package.
#[derive(Debug)]
pub struct PackageEntries {
    pub package_id: u16,
    pub entries: Vec<EntryHeader>,
}

/// The headers of all packages of a dataset.
#[derive(Debug)]
pub struct Catalog {
    pub package_dir: String,
    pub game_version: String,
    pub cache_key: String,
    /// The path of each package.
    pub package_paths: Vec<(u16, String)>,
    pub packages: Vec<PackageEntries>,
    /// The tags that 64-bit hashes stand for.
    pub tag64_entries: BTreeMap<u64, TagHash>,
    pub named_tags: Vec<NamedTag>,
    /// The names of classes.
    pub class_names: BTreeMap<u32, String>,
}

// ---------------------------------------------------------------------------
// Tag entries
// ---------------------------------------------------------------------------

/// The entries of a package.
pub open spec fn entries_of(packages: Seq<PackageEntries>, id: u16) -> Option<Seq<EntryHeader>>
    decreases packages.len(),
{
    if packages.len() == 0 {
        None
    } else if packages[0].package_id == id {
        Some(packages[0].entries@)
    } else {
        entries_of(packages.drop_first(), id)
    }
}

/// The entry of a tag, if a package has it.
pub open spec fn entry_of(packages: Seq<PackageEntries>, tag: TagHash) -> Option<EntryHeader> {
    match entries_of(packages, tag::package_of(tag)) {
        Some(entries) => if tag::index_of(tag) < entries.len() {
            Some(entries[tag::index_of(tag)])
        } else {
            None
        },
        None => None,
    }
}

/// The name of a class, if it has one.
pub open spec fn class_name_of(names: Map<u32, String>, class: u32) -> Option<Seq<char>> {
    if names.contains_key(class) {
        Some(names[class]@)
    } else {
        None
    }
}

impl Catalog {
    /// The row for a tag.
    pub open spec fn header_of(self, tag: TagHash) -> HeaderRow<Seq<char>> {
        match entry_of(self.packages@, tag) {
            Some(e) => HeaderRow::Entry {
                tag: tag::tag_text(tag),
                reference: number::hex_number(e.reference as nat, 8),
                file_type: e.file_type,
                file_subtype: e.file_subtype,
                size: e.file_size,
                class_name: class_name_of(self.class_names@, e.reference),
            },
            None => HeaderRow::Missing { tag: tag::tag_text(tag) },
        }
    }

    /// The entry of a tag, if a package has it.
    pub fn get_entry(&self, tag: TagHash) -> (entry: Option<&EntryHeader>)
        ensures
            match entry {
                Some(e) => entry_of(self.packages@, tag) == Some(*e),
                None => entry_of(self.packages@, tag) is None,
            },
    {
        let id = tag::pkg_id(tag);
        let index = tag::entry_index(tag) as usize;
        let mut i: usize = 0;
        assert(self.packages@.skip(0) =~= self.packages@);
        while i < self.packages.len()
            invariant
                i <= self.packages.len(),
                id == tag::package_of(tag),
                index == tag::index_of(tag),
                entries_of(self.packages@, id) == entries_of(self.packages@.skip(i as int), id),
            decreases self.packages.len() - i,
        {
            assert(self.packages@.skip(i as int).drop_first() =~= self.packages@.skip(i + 1));
            let package = &self.packages[i];
            if package.package_id == id {
                if index < package.entries.len() {
                    return Some(&package.entries[index]);
                }
                return None;
            }
            i += 1;
        }
        None
    }

    /// What is known of a tag.
    pub fn header(&self, tag: TagHash) -> (row: HeaderRow<String>)
        ensures
            row@ == self.header_of(tag),
    {
        match self.get_entry(tag) {
            Some(e) => {
                let class_name = match order::lookup32(&self.class_names, e.reference) {
                    Some(name) => Some(name.clone()),
                    None => None,
                };
                HeaderRow::Entry {
                    tag: tag::tag_name(tag),
                    reference: number::hex_number_text(e.reference as u64, 8),
                    file_type: e.file_type,
                    file_subtype: e.file_subtype,
                    size: e.file_size,
                    class_name,
                }
            },
            None => HeaderRow::Missing { tag: tag::tag_name(tag) },
        }
    }
}

/// The tags among the first `n` entries of a package that are of the wanted
/// class, or all of them.
pub open spec fn tags_below(
    id: u16,
    entries: Seq<EntryHeader>,
    class: Option<u32>,
    n: int,
) -> Seq<u32>
    decreases n,
{
    if n <= 0 {
        Seq::empty()
    } else {
        let before = tags_below(id, entries, class, n - 1);
        if class is None || class == Some(entries[n - 1].reference) {
            before.push(tag::hash_of_entry(id, n - 1).0)
        } else {
            before
        }
    }
}

/// The tags of some packages that are of the wanted class, or all of them.
pub open spec fn tags_of(packages: Seq<PackageEntries>, class: Option<u32>) -> Seq<u32>
    decreases packages.len(),
{
    if packages.len() == 0 {
        Seq::empty()
    } else {
        let package = packages.last();
        tags_of(packages.drop_last(), class) + tags_below(
            package.package_id,
            package.entries@,
            class,
            package.entries@.len() as int,
        )
    }
}

/// Tag hashes in ascending order.
pub open spec fn sorted_tags(tags: Seq<u32>) -> Seq<u32> {
    order::sorted_by::<u32, u32>(tags, order::ranks_of(tags))
}

fn append_tags(tags: &mut Vec<u32>, package: &PackageEntries, class: Option<u32>)
    ensures
        final(tags)@ == old(tags)@ + tags_below(
            package.package_id,
            package.entries@,
            class,
            package.entries@.len() as int,
        ),
{
    let ghost start = tags@;
    let id = package.package_id;
    let mut i: usize = 0;
    assert(start + tags_below(id, package.entries@, class, 0) =~= start);
    while i < package.entries.len()
        invariant
            i <= package.entries.len(),
            id == package.package_id,
            tags@ == start + tags_below(id, package.entries@, class, i as int),
        decreases package.entries.len() - i,
    {
        let wanted = match class {
            None => true,
            Some(c) => c == package.entries[i].reference,
        };
        if wanted {
            let entry = (i % 8192) as u16;
            assert(tag::hash_of_entry(id, entry as int) == tag::hash_of_entry(id, i as int));
            tags.push(tag::new_tag_hash(id, entry).0);
        }
        assert(tags@ =~= start + tags_below(id, package.entries@, class, i + 1));
        i += 1;
    }
}

impl Catalog {
    /// The rows for the tags of a class, or for all tags.
    pub open spec fn tag_rows(self, class: Option<u32>) -> Seq<HeaderRow<Seq<char>>> {
        sorted_tags(tags_of(self.packages@, class)).map_values(
            |t: u32| self.header_of(TagHash(t)),
        )
    }

    /// The tags of a class, or all tags, in ascending order.
    fn list_tags(&self, class: Option<u32>) -> (sorted: Vec<u32>)
        ensures
            sorted@ == sorted_tags(tags_of(self.packages@, class)),
    {
        let mut tags: Vec<u32> = Vec::new();
        let mut i: usize = 0;
        while i < self.packages.len()
            invariant
                i <= self.packages.len(),
                tags@ == tags_of(self.packages@.take(i as int), class),
            decreases self.packages.len() - i,
        {
            assert(self.packages@.take(i + 1).drop_last() =~= self.packages@.take(i as int));
            append_tags(&mut tags, &self.packages[i], class);
            i += 1;
        }
        assert(self.packages@.take(self.packages@.len() as int) =~= self.packages@);
        let positions = order::sorted_positions(&tags);
        let mut sorted: Vec<u32> = Vec::new();
        let mut j: usize = 0;
        while j < positions.len()
            invariant
                j <= positions.len(),
                order::is_stable_order::<u32>(order::ranks_of(tags@), positions@),
                sorted@ == order::arranged(tags@, positions@.take(j as int)),
            decreases positions.len() - j,
        {
            sorted.push(tags[positions[j]]);
            j += 1;
            assert(sorted@ =~= order::arranged(tags@, positions@.take(j as int)));
        }
        assert(positions@.take(positions@.len() as int) =~= positions@);
        sorted
    }

    /// A page of the tags of a class, or of all tags. Only the rows of the page
    /// are made.
    pub fn find_tags(&self, class: Option<u32>, page: Page) -> (r: Result<
        Paged<HeaderRow<String>>,
        QueryError<String>,
    >)
        ensures
            page::page_is(r, page.result_of(self.tag_rows(class))),
    {
        let tags = self.list_tags(class);
        let ghost f = |t: u32| self.header_of(TagHash(t));
        proof {
            page::law_page_of_mapped(tags@, f, page.limit as int, page.offset as int);
        }
        let found = match page.apply(tags) {
            Ok(found) => found,
            Err(e) => {
                return Err(e);
            },
        };
        let mut items: Vec<HeaderRow<String>> = Vec::new();
        let mut i: usize = 0;
        while i < found.items.len()
            invariant
                i <= found.items.len(),
                f == (|t: u32| self.header_of(TagHash(t))),
                page::views(items@) == found.items@.take(i as int).map_values(f),
            decreases found.items.len() - i,
        {
            let ghost before = items@;
            items.push(self.header(TagHash(found.items[i])));
            proof {
                page::lemma_views_push(before, items@.last());
            }
            i += 1;
            assert(page::views(items@) =~= found.items@.take(i as int).map_values(f));
        }
        assert(found.items@.take(found.items@.len() as int) =~= found.items@);
        Ok(Paged { items, total: found.total, next_offset: found.next_offset })
    }
}

// ---------------------------------------------------------------------------
// Packages
// ---------------------------------------------------------------------------

/// The rows for some packages, in ascending order of their numbers.
pub open spec fn package_rows_of(paths: Seq<(u16, String)>) -> Seq<PackageRow<Seq<char>>> {
    order::sorted_by::<u16, PackageRow<Seq<char>>>(
        paths.map_values(|p: (u16, String)| PackageRow { package_id: p.0, path: p.1@ }),
        paths.map_values(|p: (u16, String)| p.0 as int),
    )
}

impl Catalog {
    /// All packages, in ascending order of their numbers.
    pub fn package_rows(&self) -> (rows: Vec<PackageRow<String>>)
        ensures
            page::views(rows@) == package_rows_of(self.package_paths@),
    {
        let mut ids: Vec<u16> = Vec::new();
        let mut i: usize = 0;
        while i < self.package_paths.len()
            invariant
                i <= self.package_paths.len(),
                i == ids.len(),
                forall|k: int| 0 <= k < i ==> ids@[k] == (#[trigger] self.package_paths@[k]).0,
            decreases self.package_paths.len() - i,
        {
            ids.push(self.package_paths[i].0);
            i += 1;
        }
        let positions = order::sorted_positions(&ids);
        let ghost unsorted = self.package_paths@.map_values(
            |p: (u16, String)| PackageRow { package_id: p.0, path: p.1@ },
        );
        assert(order::ranks_of(ids@) =~= self.package_paths@.map_values(
            |p: (u16, String)| p.0 as int,
        ));
        let mut rows: Vec<PackageRow<String>> = Vec::new();
        let mut j: usize = 0;
        assert(page::views(rows@) =~= order::arranged(unsorted, positions@.take(0)));
        while j < positions.len()
            invariant
                j <= positions.len(),
                ids.len() == self.package_paths.len(),
                order::is_stable_order::<u16>(order::ranks_of(ids@), positions@),
                unsorted == self.package_paths@.map_values(
                    |p: (u16, String)| PackageRow { package_id: p.0, path: p.1@ },
                ),
                page::views(rows@) == order::arranged(unsorted, positions@.take(j as int)),
            decreases positions.len() - j,
        {
            let ghost before = rows@;
            let package = &self.package_paths[positions[j]];
            rows.push(PackageRow { package_id: package.0, path: package.1.clone() });
            proof {
                page::lemma_views_push(before, rows@.last());
            }
            j += 1;
            assert(page::views(rows@) =~= order::arranged(unsorted, positions@.take(j as int)));
        }
        assert(positions@.take(positions@.len() as int) =~= positions@);
        rows
    }
}

// ---------------------------------------------------------------------------
// Named tags
// ---------------------------------------------------------------------------

/// The row for a named tag, if its name contains `needle` in lower case.
pub open spec fn named_hit(named: NamedTag, needle: Seq<char>) -> Option<NamedRow<Seq<char>>> {
    if text::text_contains(text::lowercase_text(named.name@), needle) {
        Some(
            NamedRow {
                tag: tag::tag_text(named.hash),
                name: text::preview(named.name@),
                text_truncated: named.name@.len() > text::PREVIEW_CHARS,
            },
        )
    } else {
        None
    }
}

/// A row as JSON, which is what the rows are ordered by.
pub open spec fn named_row_text(row: NamedRow<Seq<char>>) -> Seq<char> {
    "{\"name\":"@ + text::json_text(row.name) + ",\"tag\":"@ + text::json_text(row.tag) + (
    if row.text_truncated {
        ",\"text_truncated\":true}"@
    } else {
        ",\"text_truncated\":false}"@
    })
}

/// Rows in the order of their JSON text.
pub open spec fn sorted_named_rows(rows: Seq<NamedRow<Seq<char>>>) -> Seq<NamedRow<Seq<char>>> {
    order::sorted_by::<String, NamedRow<Seq<char>>>(
        rows,
        rows.map_values(|row: NamedRow<Seq<char>>| named_row_text(row)),
    )
}

/// The named tags that a query finds.
pub open spec fn named_rows_of(named: Seq<NamedTag>, query: Seq<char>) -> Seq<
    NamedRow<Seq<char>>,
> {
    sorted_named_rows(
        named.filter_map(|n: NamedTag| named_hit(n, text::lowercase_text(query))),
    )
}

impl NamedRow<String> {
    /// This row as JSON.
    pub fn json(&self) -> (json: String)
        ensures
            json@ == named_row_text(self@),
    {
        let mut json = "{\"name\":".to_owned();
        json.append(text::json_string(self.name.as_str()).as_str());
        json.append(",\"tag\":");
        json.append(text::json_string(self.tag.as_str()).as_str());
        if self.text_truncated {
            json.append(",\"text_truncated\":true}");
        } else {
            json.append(",\"text_truncated\":false}");
        }
        json
    }
}

impl Catalog {
    /// A page of the named tags that `query` finds.
    pub fn find_named(&self, query: &str, page: Page) -> (r: Result<
        Paged<NamedRow<String>>,
        QueryError<String>,
    >)
        ensures
            page::page_is(r, page.result_of(named_rows_of(self.named_tags@, query@))),
    {
        let needle = text::to_lowercase(query);
        let ghost f = |n: NamedTag| named_hit(n, needle@);
        let mut rows: Vec<NamedRow<String>> = Vec::new();
        let mut keys: Vec<String> = Vec::new();
        let mut i: usize = 0;
        assert(page::views(rows@) =~= self.named_tags@.take(0).filter_map(f));
        while i < self.named_tags.len()
            invariant
                i <= self.named_tags.len(),
                f == (|n: NamedTag| named_hit(n, needle@)),
                page::views(rows@) == self.named_tags@.take(i as int).filter_map(f),
                rows.len() == keys.len(),
                forall|k: int|
                    0 <= k < rows.len() ==> keys@[k]@ == named_row_text((#[trigger] rows@[k])@),
            decreases self.named_tags.len() - i,
        {
            let ghost before = rows@;
            proof {
                self.named_tags@.lemma_filter_map_take_succ(f, i as int);
            }
            let named = &self.named_tags[i];
            if text::matches_needle(named.name.as_str(), needle.as_str()) {
                let (name, text_truncated) = text::clipped(named.name.as_str());
                let row = NamedRow { tag: tag::tag_name(named.hash), name, text_truncated };
                keys.push(row.json());
                rows.push(row);
                proof {
                    page::lemma_views_push(before, rows@.last());
                }
            }
            assert(page::views(rows@) =~= self.named_tags@.take(i + 1).filter_map(f));
            i += 1;
        }
        assert(self.named_tags@.take(self.named_tags@.len() as int) =~= self.named_tags@);
        let positions = order::sorted_positions(&keys);
        let ghost unsorted = page::views(rows@);
        assert(order::ranks_of(keys@) =~= unsorted.map_values(
            |row: NamedRow<Seq<char>>| named_row_text(row),
        ));
        let ghost all = positions@;
        let ghost pick = |p: usize| unsorted[p as int];
        proof {
            page::law_page_of_mapped(all, pick, page.limit as int, page.offset as int);
        }
        let found = match page.apply(positions) {
            Ok(found) => found,
            Err(e) => {
                return Err(e);
            },
        };
        let mut items: Vec<NamedRow<String>> = Vec::new();
        let mut j: usize = 0;
        while j < found.items.len()
            invariant
                j <= found.items.len(),
                rows.len() == keys.len(),
                order::is_stable_order::<String>(order::ranks_of(keys@), all),
                found@ == page.of(all),
                unsorted == page::views(rows@),
                pick == (|p: usize| unsorted[p as int]),
                page::views(items@) == found.items@.take(j as int).map_values(pick),
            decreases found.items.len() - j,
        {
            let ghost before = items@;
            proof {
                let start = if page.offset < all.len() {
                    page.offset as int
                } else {
                    all.len() as int
                };
                assert(found.items@[j as int] == all[start + j]);
            }
            let row = &rows[found.items[j]];
            items.push(
                NamedRow {
                    tag: row.tag.clone(),
                    name: row.name.clone(),
                    text_truncated: row.text_truncated,
                },
            );
            proof {
                page::lemma_views_push(before, items@.last());
            }
            j += 1;
            assert(page::views(items@) =~= found.items@.take(j as int).map_values(pick));
        }
        assert(found.items@.take(found.items@.len() as int) =~= found.items@);
        Ok(Paged { items, total: found.total, next_offset: found.next_offset })
    }
}

// ---------------------------------------------------------------------------
// Laws
// ---------------------------------------------------------------------------

/// A listing of tags is in ascending order, and lists each tag as often as the
/// packages have it.
pub proof fn law_sorted_tags(tags: Seq<u32>)
    requires
        tags.len() <= usize::MAX,
    ensures
        sorted_tags(tags).to_multiset() == tags.to_multiset(),
        sorted_tags(tags).len() == tags.len(),
        forall|i: int, j: int|
            0 <= i < j < tags.len() ==> #[trigger] sorted_tags(tags)[i]
                <= #[trigger] sorted_tags(tags)[j],
{
    let ranks = order::ranks_of(tags);
    order::law_sorted_by::<u32, u32>(tags, ranks);
    order::lemma_stable_order::<u32>(ranks);
    let order = order::stable_order::<u32>(ranks);
    let sorted = order::sorted_by::<u32, int>(ranks, ranks);
    assert forall|i: int, j: int| 0 <= i < j < tags.len() implies #[trigger] sorted_tags(tags)[i]
        <= #[trigger] sorted_tags(tags)[j] by {
        assert(sorted[i] == tags[order[i] as int] as int);
        assert(sorted[j] == tags[order[j] as int] as int);
    }
}

/// Whether each package is listed once.
pub open spec fn packages_distinct(packages: Seq<PackageEntries>) -> bool {
    forall|i: int, j: int|
        0 <= i < j < packages.len() ==> (#[trigger] packages[i]).package_id != (
        #[trigger] packages[j]).package_id
}

/// Whether each package is listed once, with no more entries than a package
/// can number.
pub open spec fn packages_valid(packages: Seq<PackageEntries>) -> bool {
    &&& packages_distinct(packages)
    &&& forall|i: int| 0 <= i < packages.len() ==> (#[trigger] packages[i]).entries@.len() <= 8192
}

proof fn lemma_entries_at(packages: Seq<PackageEntries>, i: int)
    requires
        packages_distinct(packages),
        0 <= i < packages.len(),
    ensures
        entries_of(packages, packages[i].package_id) == Some(packages[i].entries@),
    decreases packages.len(),
{
    if i > 0 {
        let rest = packages.drop_first();
        assert(packages[0].package_id != packages[i].package_id);
        assert forall|a: int, b: int| 0 <= a < b < rest.len() implies (
        #[trigger] rest[a]).package_id != (#[trigger] rest[b]).package_id by {
            assert(rest[a] == packages[a + 1] && rest[b] == packages[b + 1]);
        }
        lemma_entries_at(rest, i - 1);
        assert(rest[i - 1] == packages[i]);
    }
}

proof fn lemma_entry_at(packages: Seq<PackageEntries>, i: int, j: int)
    requires
        packages_valid(packages),
        0 <= i < packages.len(),
        0 <= j < packages[i].entries@.len(),
    ensures
        entry_of(packages, tag::hash_of_entry(packages[i].package_id, j)) == Some(
            packages[i].entries@[j],
        ),
{
    lemma_entries_at(packages, i);
    tag::law_tag_parts(packages[i].package_id, j);
}

proof fn lemma_tags_below_from(
    id: u16,
    entries: Seq<EntryHeader>,
    class: Option<u32>,
    n: int,
    k: int,
) -> (j: int)
    requires
        0 <= n <= entries.len(),
        0 <= k < tags_below(id, entries, class, n).len(),
    ensures
        0 <= j < n,
        tags_below(id, entries, class, n)[k] == tag::hash_of_entry(id, j).0,
        class is None || class == Some(entries[j].reference),
    decreases n,
{
    let before = tags_below(id, entries, class, n - 1);
    if n > 0 && k < before.len() {
        lemma_tags_below_from(id, entries, class, n - 1, k)
    } else {
        n - 1
    }
}

proof fn lemma_tags_of_from(packages: Seq<PackageEntries>, class: Option<u32>, k: int) -> (r: (
    int,
    int,
))
    requires
        0 <= k < tags_of(packages, class).len(),
    ensures
        0 <= r.0 < packages.len(),
        0 <= r.1 < packages[r.0].entries@.len(),
        tags_of(packages, class)[k] == tag::hash_of_entry(packages[r.0].package_id, r.1).0,
        class is None || class == Some(packages[r.0].entries@[r.1].reference),
    decreases packages.len(),
{
    let front = packages.drop_last();
    let before = tags_of(front, class);
    let package = packages.last();
    if k < before.len() {
        lemma_tags_of_from(front, class, k)
    } else {
        let j = lemma_tags_below_from(
            package.package_id,
            package.entries@,
            class,
            package.entries@.len() as int,
            k - before.len(),
        );
        (packages.len() - 1, j)
    }
}

/// Every listed tag has an entry, which is of the class that was asked for: no
/// row of a listing says that its tag is missing.
pub proof fn law_listed_tags_have_entries(
    packages: Seq<PackageEntries>,
    class: Option<u32>,
    k: int,
)
    requires
        packages_valid(packages),
        0 <= k < tags_of(packages, class).len(),
    ensures
        entry_of(packages, TagHash(tags_of(packages, class)[k])) is Some,
        class is Some ==> entry_of(packages, TagHash(tags_of(packages, class)[k])).unwrap().reference
            == class.unwrap(),
{
    let (i, j) = lemma_tags_of_from(packages, class, k);
    lemma_entry_at(packages, i, j);
}

proof fn lemma_tags_below_ascending(
    id: u16,
    entries: Seq<EntryHeader>,
    class: Option<u32>,
    n: int,
    k: int,
    l: int,
)
    requires
        0 <= n <= entries.len(),
        n <= 8192,
        0 <= k < l < tags_below(id, entries, class, n).len(),
    ensures
        tags_below(id, entries, class, n)[k] < tags_below(id, entries, class, n)[l],
    decreases n,
{
    let before = tags_below(id, entries, class, n - 1);
    if l < before.len() {
        lemma_tags_below_ascending(id, entries, class, n - 1, k, l);
    } else {
        let j = lemma_tags_below_from(id, entries, class, n - 1, k);
        tag::law_tag_parts(id, j);
        tag::law_tag_parts(id, n - 1);
    }
}

proof fn lemma_tags_distinct(packages: Seq<PackageEntries>, class: Option<u32>, k: int, l: int)
    requires
        packages_valid(packages),
        0 <= k < l < tags_of(packages, class).len(),
    ensures
        tags_of(packages, class)[k] != tags_of(packages, class)[l],
    decreases packages.len(),
{
    let front = packages.drop_last();
    let before = tags_of(front, class);
    let package = packages.last();
    let n = package.entries@.len() as int;
    assert(packages_valid(front));
    if l < before.len() {
        lemma_tags_distinct(front, class, k, l);
    } else if k >= before.len() {
        assert(package.entries@.len() <= 8192);
        lemma_tags_below_ascending(
            package.package_id,
            package.entries@,
            class,
            n,
            k - before.len(),
            l - before.len(),
        );
    } else {
        let (i, j) = lemma_tags_of_from(front, class, k);
        let m = lemma_tags_below_from(
            package.package_id,
            package.entries@,
            class,
            n,
            l - before.len(),
        );
        assert(packages[i].package_id != packages[packages.len() - 1].package_id);
        tag::law_tag_parts(packages[i].package_id, j);
        tag::law_tag_parts(package.package_id, m);
    }
}

/// A listing is strictly ascending: it lists each entry once.
pub proof fn law_listed_tags_ascend(packages: Seq<PackageEntries>, class: Option<u32>)
    requires
        packages_valid(packages),
        tags_of(packages, class).len() <= usize::MAX,
    ensures
        sorted_tags(tags_of(packages, class)).no_duplicates(),
        order::is_ascending(sorted_tags(tags_of(packages, class))),
{
    let tags = tags_of(packages, class);
    let sorted = sorted_tags(tags);
    assert(tags.no_duplicates()) by {
        assert forall|k: int, l: int| 0 <= k < tags.len() && 0 <= l < tags.len() && k != l implies
            tags[k] != tags[l] by {
            if k < l {
                lemma_tags_distinct(packages, class, k, l);
            } else {
                lemma_tags_distinct(packages, class, l, k);
            }
        }
    }
    law_sorted_tags(tags);
    tags.lemma_multiset_has_no_duplicates();
    sorted.lemma_multiset_has_no_duplicates_conv();
    assert forall|i: int, j: int| 0 <= i < j < sorted.len() implies #[trigger] sorted[i]
        < #[trigger] sorted[j] by {
        assert(sorted[i] != sorted[j]);
    }
}

proof fn lemma_tags_below_contains(
    id: u16,
    entries: Seq<EntryHeader>,
    class: Option<u32>,
    n: int,
    j: int,
)
    requires
        0 <= j < n <= entries.len(),
        class is None || class == Some(entries[j].reference),
    ensures
        tags_below(id, entries, class, n).contains(tag::hash_of_entry(id, j).0),
    decreases n,
{
    let before = tags_below(id, entries, class, n - 1);
    let all = tags_below(id, entries, class, n);
    if j == n - 1 {
        assert(all[before.len() as int] == tag::hash_of_entry(id, j).0);
    } else {
        lemma_tags_below_contains(id, entries, class, n - 1, j);
        let k = before.index_of(tag::hash_of_entry(id, j).0);
        assert(all[k] == before[k]);
    }
}

/// A listing leaves out no entry of the class that was asked for.
pub proof fn law_all_tags_listed(
    packages: Seq<PackageEntries>,
    class: Option<u32>,
    i: int,
    j: int,
)
    requires
        0 <= i < packages.len(),
        0 <= j < packages[i].entries@.len(),
        class is None || class == Some(packages[i].entries@[j].reference),
    ensures
        tags_of(packages, class).contains(tag::hash_of_entry(packages[i].package_id, j).0),
    decreases packages.len(),
{
    let front = packages.drop_last();
    let before = tags_of(front, class);
    let all = tags_of(packages, class);
    let t = tag::hash_of_entry(packages[i].package_id, j).0;
    if i < packages.len() - 1 {
        law_all_tags_listed(front, class, i, j);
        let k = before.index_of(t);
        assert(all[k] == t);
    } else {
        let own = tags_below(
            packages[i].package_id,
            packages[i].entries@,
            class,
            packages[i].entries@.len() as int,
        );
        lemma_tags_below_contains(
            packages[i].package_id,
            packages[i].entries@,
            class,
            packages[i].entries@.len() as int,
            j,
        );
        let k = own.index_of(t);
        assert(all[before.len() + k] == t);
    }
}

proof fn lemma_entries_found(packages: Seq<PackageEntries>, id: u16) -> (i: int)
    requires
        entries_of(packages, id) is Some,
    ensures
        0 <= i < packages.len(),
        packages[i].package_id == id,
    decreases packages.len(),
{
    if packages[0].package_id == id {
        0
    } else {
        lemma_entries_found(packages.drop_first(), id) + 1
    }
}

proof fn lemma_entries_permuted(a: Seq<PackageEntries>, b: Seq<PackageEntries>, id: u16)
    requires
        a.to_multiset() == b.to_multiset(),
        packages_distinct(a),
        packages_distinct(b),
    ensures
        entries_of(a, id) == entries_of(b, id),
{
    broadcast use vstd::seq_lib::group_to_multiset_ensures;

    if entries_of(a, id) is Some {
        let i = lemma_entries_found(a, id);
        assert(a.contains(a[i]));
        assert(b.to_multiset().count(a[i]) > 0);
        lemma_entries_at(a, i);
        lemma_entries_at(b, b.index_of(a[i]));
    } else if entries_of(b, id) is Some {
        let i = lemma_entries_found(b, id);
        assert(b.contains(b[i]));
        assert(a.to_multiset().count(b[i]) > 0);
        lemma_entries_at(a, a.index_of(b[i]));
    }
}

proof fn lemma_distinct_permuted(a: Seq<PackageEntries>, b: Seq<PackageEntries>)
    requires
        a.to_multiset() == b.to_multiset(),
        packages_distinct(a),
    ensures
        packages_distinct(b),
{
    broadcast use vstd::seq_lib::group_to_multiset_ensures;

    assert(a.no_duplicates()) by {
        assert forall|i: int, j: int| 0 <= i < j < a.len() implies a[i] != a[j] by {
            assert(a[i].package_id != a[j].package_id);
        }
    }
    a.lemma_multiset_has_no_duplicates();
    assert(b.no_duplicates()) by {
        b.lemma_multiset_has_no_duplicates_conv();
    }
    assert forall|i: int, j: int| 0 <= i < j < b.len() implies (#[trigger] b[i]).package_id != (
    #[trigger] b[j]).package_id by {
        assert(b.contains(b[i]) && b.contains(b[j]));
        assert(a.to_multiset().count(b[i]) > 0 && a.to_multiset().count(b[j]) > 0);
        let k = a.index_of(b[i]);
        let l = a.index_of(b[j]);
        assert(k != l);
        assert(k < l ==> a[k].package_id != a[l].package_id);
        assert(l < k ==> a[l].package_id != a[k].package_id);
    }
}

proof fn lemma_tags_of_add(a: Seq<PackageEntries>, b: Seq<PackageEntries>, class: Option<u32>)
    ensures
        tags_of(a + b, class) == tags_of(a, class) + tags_of(b, class),
    decreases b.len(),
{
    if b.len() == 0 {
        assert(a + b =~= a);
        assert(tags_of(a, class) + tags_of(b, class) =~= tags_of(a, class));
    } else {
        assert((a + b).drop_last() =~= a + b.drop_last());
        lemma_tags_of_add(a, b.drop_last(), class);
        assert(tags_of(a + b, class) =~= tags_of(a, class) + tags_of(b, class));
    }
}

proof fn lemma_tags_permuted(a: Seq<PackageEntries>, b: Seq<PackageEntries>, class: Option<u32>)
    requires
        a.to_multiset() == b.to_multiset(),
    ensures
        tags_of(a, class).to_multiset() == tags_of(b, class).to_multiset(),
    decreases a.len(),
{
    broadcast use vstd::seq_lib::group_to_multiset_ensures;
    broadcast use vstd::multiset::group_multiset_axioms;

    assert(a.to_multiset().len() == a.len() && b.to_multiset().len() == b.len());
    if a.len() == 0 {
        assert(a =~= b);
    } else {
        let x = a.last();
        assert(a.contains(x));
        assert(b.to_multiset().count(x) > 0);
        let k = b.index_of(x);
        let left = b.take(k);
        let right = b.skip(k + 1);
        let rest = b.remove(k);
        assert(rest =~= left + right);
        assert(b =~= left + seq![x] + right);
        assert(a.drop_last().to_multiset() =~= rest.to_multiset()) by {
            assert(a.remove(a.len() - 1) =~= a.drop_last());
        }
        lemma_tags_permuted(a.drop_last(), rest, class);
        lemma_tags_of_add(left + seq![x], right, class);
        lemma_tags_of_add(left, seq![x], class);
        lemma_tags_of_add(left, right, class);
        lemma_tags_of_add(a.drop_last(), seq![x], class);
        assert(a =~= a.drop_last() + seq![x]);
        let l = tags_of(left, class);
        let m = tags_of(seq![x], class);
        let r = tags_of(right, class);
        let d = tags_of(a.drop_last(), class);
        vstd::seq_lib::lemma_multiset_commutative(l + m, r);
        vstd::seq_lib::lemma_multiset_commutative(l, m);
        vstd::seq_lib::lemma_multiset_commutative(l, r);
        vstd::seq_lib::lemma_multiset_commutative(d, m);
        assert((l + m + r).to_multiset() =~= (d + m).to_multiset());
    }
}

/// The order in which the packages come leaves no trace in a listing of tags:
/// two catalogs of the same packages list the same rows, in the same order.
pub proof fn law_tag_rows_order(a: Catalog, b: Catalog, class: Option<u32>)
    requires
        a.packages@.to_multiset() == b.packages@.to_multiset(),
        packages_distinct(a.packages@),
        a.class_names@ == b.class_names@,
        tags_of(a.packages@, class).len() <= usize::MAX,
    ensures
        a.tag_rows(class) == b.tag_rows(class),
{
    let x = tags_of(a.packages@, class);
    let y = tags_of(b.packages@, class);
    lemma_distinct_permuted(a.packages@, b.packages@);
    lemma_tags_permuted(a.packages@, b.packages@, class);
    let g = |t: u32| t as int;
    assert(x.map_values(g) =~= order::ranks_of(x));
    assert(y.map_values(g) =~= order::ranks_of(y));
    order::law_sorting_forgets_order::<u32, u32>(x, y, g);
    assert forall|t: u32| #[trigger] a.header_of(TagHash(t)) == b.header_of(TagHash(t)) by {
        lemma_entries_permuted(a.packages@, b.packages@, tag::package_of(TagHash(t)));
    }
    assert(a.tag_rows(class) =~= b.tag_rows(class));
}

/// The order in which the packages come leaves no trace in a listing of
/// packages.
pub proof fn law_package_rows_order(a: Seq<(u16, String)>, b: Seq<(u16, String)>)
    requires
        a.to_multiset() == b.to_multiset(),
        a.len() <= usize::MAX,
        forall|i: int, j: int|
            0 <= i < j < a.len() ==> (#[trigger] a[i]).0 != (#[trigger] a[j]).0,
    ensures
        package_rows_of(a) == package_rows_of(b),
{
    let f = |p: (u16, String)| PackageRow { package_id: p.0, path: p.1@ };
    let some = |p: (u16, String)| Some(f(p));
    order::lemma_filter_map_multiset(a, b, some);
    order::lemma_filter_map_total(a, some, f);
    order::lemma_filter_map_total(b, some, f);
    let x = a.map_values(f);
    let y = b.map_values(f);
    let g = |row: PackageRow<Seq<char>>| row.package_id as int;
    assert(x.map_values(g) =~= a.map_values(|p: (u16, String)| p.0 as int));
    assert(y.map_values(g) =~= b.map_values(|p: (u16, String)| p.0 as int));
    assert forall|p: PackageRow<Seq<char>>, q: PackageRow<Seq<char>>| #[trigger]
        x.contains(p) && #[trigger] x.contains(q) && g(p) <= g(q) && g(q) <= g(p) implies p
        == q by {
        let i = x.index_of(p);
        let j = x.index_of(q);
        assert(x[i] == f(a[i]) && x[j] == f(a[j]));
    }
    order::law_sorting_forgets_order::<u16, PackageRow<Seq<char>>>(x, y, g);
}

/// What follows the name in the JSON text of a row.
spec fn behind_name(row: NamedRow<Seq<char>>) -> Seq<char> {
    ",\"tag\":"@ + seq!['"'] + (text::json_chars(row.tag) + seq!['"'] + flag_text(row))
}

/// The end of the JSON text of a row.
spec fn flag_text(row: NamedRow<Seq<char>>) -> Seq<char> {
    if row.text_truncated {
        ",\"text_truncated\":true}"@
    } else {
        ",\"text_truncated\":false}"@
    }
}

proof fn lemma_named_row_parts(row: NamedRow<Seq<char>>)
    ensures
        named_row_text(row) == "{\"name\":"@ + seq!['"'] + (text::json_chars(row.name) + seq!['"']
            + behind_name(row)),
{
    assert(named_row_text(row) =~= "{\"name\":"@ + seq!['"'] + (text::json_chars(row.name)
        + seq!['"'] + behind_name(row)));
}

proof fn lemma_same_rest(open: Seq<char>, x: Seq<char>, y: Seq<char>)
    requires
        open + x == open + y,
    ensures
        x == y,
{
    assert(x =~= (open + x).skip(open.len() as int));
    assert(y =~= (open + y).skip(open.len() as int));
}

/// Rows of named tags that differ have different JSON texts.
pub proof fn law_named_row_text_injective(a: NamedRow<Seq<char>>, b: NamedRow<Seq<char>>)
    requires
        named_row_text(a) == named_row_text(b),
    ensures
        a == b,
{
    lemma_named_row_parts(a);
    lemma_named_row_parts(b);
    lemma_same_rest(
        "{\"name\":"@ + seq!['"'],
        text::json_chars(a.name) + seq!['"'] + behind_name(a),
        text::json_chars(b.name) + seq!['"'] + behind_name(b),
    );
    text::lemma_json_text_ends(a.name, b.name, behind_name(a), behind_name(b));
    lemma_same_rest(
        ",\"tag\":"@ + seq!['"'],
        text::json_chars(a.tag) + seq!['"'] + flag_text(a),
        text::json_chars(b.tag) + seq!['"'] + flag_text(b),
    );
    text::lemma_json_text_ends(a.tag, b.tag, flag_text(a), flag_text(b));
    assert(a.text_truncated == b.text_truncated) by {
        reveal_strlit(",\"text_truncated\":true}");
        reveal_strlit(",\"text_truncated\":false}");
        assert(flag_text(a).len() == flag_text(b).len());
    }
}

/// The order in which the named tags come leaves no trace in what a query
/// finds.
pub proof fn law_named_rows_order(a: Seq<NamedTag>, b: Seq<NamedTag>, query: Seq<char>)
    requires
        a.to_multiset() == b.to_multiset(),
        a.len() <= usize::MAX,
    ensures
        named_rows_of(a, query) == named_rows_of(b, query),
{
    let f = |n: NamedTag| named_hit(n, text::lowercase_text(query));
    order::lemma_filter_map_multiset(a, b, f);
    order::lemma_filter_map_len(a, f);
    let x = a.filter_map(f);
    let y = b.filter_map(f);
    let g = |row: NamedRow<Seq<char>>| named_row_text(row);
    assert forall|p: NamedRow<Seq<char>>, q: NamedRow<Seq<char>>| #[trigger]
        x.contains(p) && #[trigger] x.contains(q) && text::text_le(g(p), g(q)) && text::text_le(
            g(q),
            g(p),
        ) implies p == q by {
        text::lemma_text_le_antisymmetric(g(p), g(q));
        law_named_row_text_injective(p, q);
    }
    order::law_sorting_forgets_order::<String, NamedRow<Seq<char>>>(x, y, g);
}

/// The rows that a query finds among the named tags are exactly those of the
/// tags whose names contain the query in lower case; no name in them is longer
/// than a preview can be.
pub proof fn law_named_search(
    named: Seq<NamedTag>,
    query: Seq<char>,
    row: NamedRow<Seq<char>>,
)
    requires
        named.len() <= usize::MAX,
    ensures
        named_rows_of(named, query).contains(row) <==> exists|i: int|
            0 <= i < named.len() && named_hit(
                #[trigger] named[i],
                text::lowercase_text(query),
            ) == Some(row),
        named_rows_of(named, query).contains(row) ==> row.name.len() <= text::PREVIEW_CHARS,
{
    broadcast use vstd::seq_lib::group_to_multiset_ensures;

    let f = |n: NamedTag| named_hit(n, text::lowercase_text(query));
    let found = named.filter_map(f);
    let rows = named_rows_of(named, query);
    let texts = found.map_values(|row: NamedRow<Seq<char>>| named_row_text(row));
    order::lemma_filter_map_len(named, f);
    order::law_sorted_by::<String, NamedRow<Seq<char>>>(found, texts);
    assert(rows.contains(row) <==> rows.to_multiset().count(row) > 0);
    assert(found.contains(row) <==> found.to_multiset().count(row) > 0);
    if found.contains(row) {
        let i = order::lemma_filter_map_from(named, f, found.index_of(row));
        assert(named_hit(named[i], text::lowercase_text(query)) == Some(row));
    }
    if exists|i: int|
        0 <= i < named.len() && named_hit(#[trigger] named[i], text::lowercase_text(query)) == Some(
            row,
        ) {
        let i = choose|i: int|
            0 <= i < named.len() && named_hit(
                #[trigger] named[i],
                text::lowercase_text(query),
            ) == Some(row);
        order::lemma_filter_map_contains(named, f, i);
    }
}

/// Whether `row` is the row for entry `entry`, number `j` of package `package`.
pub open spec fn tells_entry(
    row: HeaderRow<Seq<char>>,
    class_names: Map<u32, String>,
    package: u16,
    j: int,
    entry: EntryHeader,
) -> bool {
    &&& row matches HeaderRow::Entry {
        tag,
        reference,
        file_type,
        file_subtype,
        size,
        class_name,
    }
    &&& tag == tag::tag_text(TagHash((0x80800000 + package * 8192 + j) as u32))
    &&& reference == number::hex_number(entry.reference as nat, 8)
    &&& file_type == entry.file_type
    &&& file_subtype == entry.file_subtype
    &&& size == entry.file_size
    &&& class_names.contains_key(entry.reference) ==> class_name == Some(
        class_names[entry.reference]@,
    )
    &&& !class_names.contains_key(entry.reference) ==> class_name is None
}

/// The row for a tag that a package has says what its own entry says, and how
/// its class is called, if it is called anything.
pub proof fn law_entry_header(catalog: Catalog, i: int, j: int)
    requires
        packages_distinct(catalog.packages@),
        0 <= i < catalog.packages@.len(),
        0 <= j < catalog.packages@[i].entries@.len(),
        j < 8192,
    ensures
        ({
            let package = catalog.packages@[i];
            let tag = TagHash((0x80800000 + package.package_id * 8192 + j) as u32);
            &&& entry_of(catalog.packages@, tag) == Some(package.entries@[j])
            &&& tells_entry(
                catalog.header_of(tag),
                catalog.class_names@,
                package.package_id,
                j,
                package.entries@[j],
            )
        }),
{
    lemma_entries_at(catalog.packages@, i);
    tag::law_tag_parts(catalog.packages@[i].package_id, j);
}

/// A tag is missing exactly if no package has it: if each package has another
/// number than the hash names, or fewer entries.
pub proof fn law_missing(catalog: Catalog, tag: TagHash)
    requires
        packages_distinct(catalog.packages@),
    ensures
        entry_of(catalog.packages@, tag) is None <==> forall|i: int|
            0 <= i < catalog.packages@.len() && (#[trigger] catalog.packages@[i]).package_id
                == tag::package_of(tag) ==> tag::index_of(tag)
                >= catalog.packages@[i].entries@.len(),
        entry_of(catalog.packages@, tag) is None <==> catalog.header_of(tag) is Missing,
        entry_of(catalog.packages@, tag) is None ==> catalog.header_of(tag) == (
        HeaderRow::Missing { tag: tag::tag_text(tag) }),
{
    let packages = catalog.packages@;
    let id = tag::package_of(tag);
    if entries_of(packages, id) is Some {
        let i = lemma_entries_found(packages, id);
        lemma_entries_at(packages, i);
        assert forall|k: int|
            0 <= k < packages.len() && (#[trigger] packages[k]).package_id == id implies k == i by {
            assert(k < i ==> packages[k].package_id != packages[i].package_id);
            assert(i < k ==> packages[i].package_id != packages[k].package_id);
        }
        assert(packages[i].package_id == id);
    } else {
        assert forall|i: int| 0 <= i < packages.len() implies (
        #[trigger] packages[i]).package_id != id by {
            lemma_entries_at(packages, i);
        }
    }
}

/// What a listing of tags gives: one row for each entry, of each package, that is
/// of the wanted class, or for every entry; by package number, and within a
/// package by entry number. Each row says what its own entry says.
pub proof fn law_tag_rows(catalog: Catalog, class: Option<u32>) -> (at: Seq<(int, int)>)
    requires
        packages_valid(catalog.packages@),
        tags_of(catalog.packages@, class).len() <= usize::MAX,
    ensures
        catalog.tag_rows(class).len() == at.len(),
        forall|k: int|
            0 <= k < at.len() ==> {
                let package = catalog.packages@[(#[trigger] at[k]).0];
                &&& 0 <= at[k].0 < catalog.packages@.len()
                &&& 0 <= at[k].1 < package.entries@.len()
                &&& class is Some ==> package.entries@[at[k].1].reference == class->0
                &&& tells_entry(
                    catalog.tag_rows(class)[k],
                    catalog.class_names@,
                    package.package_id,
                    at[k].1,
                    package.entries@[at[k].1],
                )
            },
        forall|k: int, l: int|
            0 <= k < l < at.len() ==> {
                let a = catalog.packages@[(#[trigger] at[k]).0].package_id;
                let b = catalog.packages@[(#[trigger] at[l]).0].package_id;
                a < b || (a == b && at[k].1 < at[l].1)
            },
        forall|i: int, j: int|
            {
                &&& 0 <= i < catalog.packages@.len()
                &&& 0 <= j < catalog.packages@[i].entries@.len()
                &&& class is Some ==> catalog.packages@[i].entries@[j].reference == class->0
            } ==> #[trigger] at.contains((i, j)),
{
    let packages = catalog.packages@;
    let sorted = sorted_tags(tags_of(packages, class));
    let rows = catalog.tag_rows(class);
    let at = lemma_listed_from(packages, class);
    law_listed_tags_ascend(packages, class);
    assert forall|k: int| 0 <= k < at.len() implies {
        let package = packages[(#[trigger] at[k]).0];
        &&& 0 <= at[k].0 < packages.len()
        &&& 0 <= at[k].1 < package.entries@.len()
        &&& class is Some ==> package.entries@[at[k].1].reference == class->0
        &&& tells_entry(
            rows[k],
            catalog.class_names@,
            package.package_id,
            at[k].1,
            package.entries@[at[k].1],
        )
    } by {
        assert(lists_entry(packages, class, sorted[k], at[k]));
        law_entry_header(catalog, at[k].0, at[k].1);
    }
    assert forall|k: int, l: int| 0 <= k < l < at.len() implies {
        let a = packages[(#[trigger] at[k]).0].package_id;
        let b = packages[(#[trigger] at[l]).0].package_id;
        a < b || (a == b && at[k].1 < at[l].1)
    } by {
        assert(lists_entry(packages, class, sorted[k], at[k]));
        assert(lists_entry(packages, class, sorted[l], at[l]));
        assert(sorted[k] < sorted[l]);
    }
    assert forall|i: int, j: int|
        {
            &&& 0 <= i < packages.len()
            &&& 0 <= j < packages[i].entries@.len()
            &&& class is Some ==> packages[i].entries@[j].reference == class->0
        } implies #[trigger] at.contains((i, j)) by {
        let k = lemma_listed_at(packages, class, i, j);
        assert(lists_entry(packages, class, sorted[k], at[k]));
        lemma_lists_one(packages, class, sorted[k], at[k], (i, j));
        assert(at[k] == (i, j));
    }
    at
}

/// Whether a tag is entry `p.1` of package `p.0`, and of the wanted class.
spec fn lists_entry(
    packages: Seq<PackageEntries>,
    class: Option<u32>,
    t: u32,
    p: (int, int),
) -> bool {
    &&& 0 <= p.0 < packages.len()
    &&& 0 <= p.1 < packages[p.0].entries@.len()
    &&& p.1 < 8192
    &&& t == 0x80800000 + packages[p.0].package_id * 8192 + p.1
    &&& class is None || class == Some(packages[p.0].entries@[p.1].reference)
}

proof fn lemma_lists_one(
    packages: Seq<PackageEntries>,
    class: Option<u32>,
    t: u32,
    p: (int, int),
    q: (int, int),
)
    requires
        packages_distinct(packages),
        lists_entry(packages, class, t, p),
        lists_entry(packages, class, t, q),
    ensures
        p == q,
{
    assert(packages[p.0].package_id == packages[q.0].package_id);
    assert(p.0 < q.0 ==> packages[p.0].package_id != packages[q.0].package_id);
    assert(q.0 < p.0 ==> packages[q.0].package_id != packages[p.0].package_id);
}

proof fn lemma_listed_entry(packages: Seq<PackageEntries>, class: Option<u32>, k: int) -> (p: (
    int,
    int,
))
    requires
        packages_valid(packages),
        tags_of(packages, class).len() <= usize::MAX,
        0 <= k < tags_of(packages, class).len(),
    ensures
        lists_entry(packages, class, sorted_tags(tags_of(packages, class))[k], p),
{
    broadcast use vstd::seq_lib::group_to_multiset_ensures;

    let tags = tags_of(packages, class);
    let sorted = sorted_tags(tags);
    law_sorted_tags(tags);
    assert(sorted.contains(sorted[k]));
    assert(tags.to_multiset().count(sorted[k]) > 0);
    let p = lemma_tags_of_from(packages, class, tags.index_of(sorted[k]));
    assert(packages[p.0].entries@.len() <= 8192);
    tag::law_tag_parts(packages[p.0].package_id, p.1);
    p
}

proof fn lemma_listed_from(packages: Seq<PackageEntries>, class: Option<u32>) -> (at: Seq<
    (int, int),
>)
    requires
        packages_valid(packages),
        tags_of(packages, class).len() <= usize::MAX,
    ensures
        at.len() == sorted_tags(tags_of(packages, class)).len(),
        forall|k: int|
            0 <= k < at.len() ==> lists_entry(
                packages,
                class,
                sorted_tags(tags_of(packages, class))[k],
                #[trigger] at[k],
            ),
{
    let sorted = sorted_tags(tags_of(packages, class));
    law_sorted_tags(tags_of(packages, class));
    let at = Seq::new(
        sorted.len(),
        |k: int| choose|p: (int, int)| lists_entry(packages, class, sorted[k], p),
    );
    assert forall|k: int| 0 <= k < at.len() implies lists_entry(
        packages,
        class,
        sorted[k],
        #[trigger] at[k],
    ) by {
        let p = lemma_listed_entry(packages, class, k);
        assert(lists_entry(packages, class, sorted[k], p));
    }
    at
}

proof fn lemma_listed_at(
    packages: Seq<PackageEntries>,
    class: Option<u32>,
    i: int,
    j: int,
) -> (k: int)
    requires
        packages_valid(packages),
        tags_of(packages, class).len() <= usize::MAX,
        0 <= i < packages.len(),
        0 <= j < packages[i].entries@.len(),
        class is None || class == Some(packages[i].entries@[j].reference),
    ensures
        0 <= k < sorted_tags(tags_of(packages, class)).len(),
        lists_entry(packages, class, sorted_tags(tags_of(packages, class))[k], (i, j)),
{
    broadcast use vstd::seq_lib::group_to_multiset_ensures;

    let tags = tags_of(packages, class);
    let sorted = sorted_tags(tags);
    let t = tag::hash_of_entry(packages[i].package_id, j).0;
    law_sorted_tags(tags);
    law_all_tags_listed(packages, class, i, j);
    assert(tags.to_multiset().count(t) > 0);
    assert(sorted.contains(t));
    assert(packages[i].entries@.len() <= 8192);
    tag::law_tag_parts(packages[i].package_id, j);
    sorted.index_of(t)
}

/// The row of a listing of tags is the row that is shown for the tag by itself.
pub proof fn law_listed_as_shown(catalog: Catalog, class: Option<u32>, k: int)
    requires
        0 <= k < catalog.tag_rows(class).len(),
        tags_of(catalog.packages@, class).len() <= usize::MAX,
    ensures
        exists|t: u32|
            #![trigger tags_of(catalog.packages@, class).contains(t)]
            tags_of(catalog.packages@, class).contains(t) && catalog.tag_rows(class)[k]
                == catalog.header_of(TagHash(t)),
{
    broadcast use vstd::seq_lib::group_to_multiset_ensures;

    let tags = tags_of(catalog.packages@, class);
    let sorted = sorted_tags(tags);
    law_sorted_tags(tags);
    assert(sorted.contains(sorted[k]));
    assert(tags.to_multiset().count(sorted[k]) > 0);
    assert(tags.contains(sorted[k]));
}

/// What a listing of packages gives: one row for each package, with its own
/// number and path, by number.
pub proof fn law_package_rows(paths: Seq<(u16, String)>) -> (at: Seq<int>)
    requires
        paths.len() <= usize::MAX,
    ensures
        order::positions_of(at, paths.len() as int, |i: int| true),
        package_rows_of(paths).len() == at.len() == paths.len(),
        forall|k: int|
            0 <= k < at.len() ==> {
                let row = #[trigger] package_rows_of(paths)[k];
                row.package_id == paths[at[k]].0 && row.path == paths[at[k]].1@
            },
        forall|k: int, l: int|
            0 <= k < l < at.len() ==> (#[trigger] package_rows_of(paths)[k]).package_id <= (
            #[trigger] package_rows_of(paths)[l]).package_id,
{
    let f = |p: (u16, String)| PackageRow { package_id: p.0, path: p.1@ };
    let unsorted = paths.map_values(f);
    let ranks = paths.map_values(|p: (u16, String)| p.0 as int);
    let rows = package_rows_of(paths);
    let at = order::law_sorted_from::<u16, PackageRow<Seq<char>>>(unsorted, ranks);
    assert forall|k: int| 0 <= k < at.len() implies {
        let row = #[trigger] rows[k];
        row.package_id == paths[at[k]].0 && row.path == paths[at[k]].1@
    } by {
        assert(rows[k] == unsorted[at[k]]);
    }
    assert forall|k: int, l: int| 0 <= k < l < at.len() implies (#[trigger] rows[k]).package_id <= (
    #[trigger] rows[l]).package_id by {
        assert(ranks[at[k]] <= ranks[at[l]]);
    }
    at
}

/// What a search in named tags gives: one row for each named tag whose name, in
/// lower case, contains the query in lower case, with its own hash and the
/// preview of its name, flagged exactly if that leaves something out; in the
/// order of their JSON texts.
pub proof fn law_named_rows(named: Seq<NamedTag>, query: Seq<char>) -> (at: Seq<int>)
    requires
        named.len() <= usize::MAX,
    ensures
        order::positions_of(
            at,
            named.len() as int,
            |i: int|
                text::text_contains(
                    text::lowercase_text(named[i].name@),
                    text::lowercase_text(query),
                ),
        ),
        named_rows_of(named, query).len() == at.len(),
        forall|k: int|
            0 <= k < at.len() ==> {
                let row = #[trigger] named_rows_of(named, query)[k];
                &&& row.tag == tag::tag_text(named[at[k]].hash)
                &&& text::is_preview(row.name, row.text_truncated, named[at[k]].name@)
            },
        forall|k: int, l: int|
            0 <= k < l < at.len() ==> text::text_le(
                json_of(#[trigger] named_rows_of(named, query)[k]),
                json_of(#[trigger] named_rows_of(named, query)[l]),
            ),
{
    let needle = text::lowercase_text(query);
    let f = |n: NamedTag| named_hit(n, needle);
    let found = named.filter_map(f);
    let g = |row: NamedRow<Seq<char>>| named_row_text(row);
    let ranks = found.map_values(g);
    let rows = named_rows_of(named, query);
    let at = order::lemma_picked_sorted::<String, NamedTag, NamedRow<Seq<char>>>(named, f, ranks);
    let wanted = |i: int| text::text_contains(text::lowercase_text(named[i].name@), needle);
    let some = |i: int| f(named[i]) is Some;
    assert forall|i: int| #[trigger] wanted(i) == some(i) by {
    }
    assert forall|k: int| 0 <= k < at.len() implies 0 <= #[trigger] at[k] < named.len() && wanted(
        at[k],
    ) by {
        assert(some(at[k]));
    }
    assert forall|i: int| 0 <= i < named.len() && #[trigger] wanted(i) implies at.contains(i) by {
        assert(some(i));
    }
    assert forall|k: int| 0 <= k < at.len() implies {
        let row = #[trigger] rows[k];
        &&& row.tag == tag::tag_text(named[at[k]].hash)
        &&& text::is_preview(row.name, row.text_truncated, named[at[k]].name@)
    } by {
        assert(f(named[at[k]]) == Some(rows[k]));
        text::law_preview(named[at[k]].name@);
    }
    order::lemma_filter_map_len(named, f);
    order::lemma_stable_order::<String>(ranks);
    let order = order::stable_order::<String>(ranks);
    let texts = order::sorted_by::<String, Seq<char>>(ranks, ranks);
    assert forall|k: int| 0 <= k < rows.len() implies #[trigger] texts[k] == json_of(rows[k]) by {
        assert(0 <= order[k] < found.len());
    }
    assert forall|k: int, l: int| 0 <= k < l < at.len() implies text::text_le(
        json_of(#[trigger] rows[k]),
        json_of(#[trigger] rows[l]),
    ) by {
        assert(at[k] == at[k] && at[l] == at[l]);
        assert(texts[k] == json_of(rows[k]) && texts[l] == json_of(rows[l]));
    }
    at
}

/// The JSON object with the fields of a row, in the order of their names.
pub open spec fn json_of(row: NamedRow<Seq<char>>) -> Seq<char> {
    "{\"name\":"@ + text::json_text(row.name) + ",\"tag\":"@ + text::json_text(row.tag)
        + if row.text_truncated {
        ",\"text_truncated\":true}"@
    } else {
        ",\"text_truncated\":false}"@
    }
}

} // verus!
