//! Keeps a cache bound to one installation and package snapshot.

use vstd::prelude::*;
use vstd::string::*;

use crate::error::QueryError;
use crate::order;
use crate::order::SortKey;
use crate::text;

verus! {

/// Version of the identity's own format.
pub const IDENTITY_SCHEMA: u32 = 1;

/// What a cache was made from.
#[derive(Debug)]
pub struct Identity {
    pub schema_version: u32,
    /// Canonical path of the package directory, component by component: two
    /// paths are the same if their components are, however they are spelled.
    pub packages: Vec<String>,
    pub game_version: String,
    /// Name, size and time of modification of each package file, in order. All
    /// patches matter, those too that a newer package reads older blocks from.
    pub files: Vec<(String, u64, u64)>,
    /// The custom signatures, if there are any.
    pub signatures: Option<String>,
    /// Size and time of modification of the local wordlist, if there is one.
    pub local_wordlist: Option<(u64, u64)>,
}

/// What an `Identity` holds.
#[verifier::ext_equal]
pub struct IdentityView {
    pub schema_version: u32,
    pub packages: Seq<Seq<char>>,
    pub game_version: Seq<char>,
    pub files: Seq<(Seq<char>, u64, u64)>,
    pub signatures: Option<Seq<char>>,
    pub local_wordlist: Option<(u64, u64)>,
}

/// What a package file's record holds.
pub open spec fn file_view(file: (String, u64, u64)) -> (Seq<char>, u64, u64) {
    (file.0@, file.1, file.2)
}

impl View for Identity {
    type V = IdentityView;

    open spec fn view(&self) -> IdentityView {
        IdentityView {
            schema_version: self.schema_version,
            packages: text::texts_of(self.packages@),
            game_version: self.game_version@,
            files: self.files@.map_values(|f: (String, u64, u64)| file_view(f)),
            signatures: text::optional_text(self.signatures),
            local_wordlist: self.local_wordlist,
        }
    }
}

/// A file of the package directory.
#[derive(Debug)]
pub struct FileEntry {
    pub name: String,
    pub len: u64,
    /// Time of modification, in nanoseconds since the epoch.
    pub modified_nanos: u128,
}

/// What is found beside a cache.
#[derive(Debug)]
pub enum StoredIdentity {
    /// Nothing can be opened there; the reason.
    Missing(String),
    /// What is there is no identity; the reason.
    Invalid(String),
    /// An identity.
    Found(Identity),
}

// ---------------------------------------------------------------------------
// Package files
// ---------------------------------------------------------------------------

/// A letter without its case, in ASCII.
pub open spec fn ascii_lower(c: char) -> char {
    if 'A' <= c <= 'Z' {
        (c as int - 'A' as int + 'a' as int) as char
    } else {
        c
    }
}

/// Whether a file name has the extension `pkg`, in any case; a name that is
/// nothing but an extension has none.
pub open spec fn is_package_name(name: Seq<char>) -> bool {
    let n = name.len() as int;
    &&& n > 4
    &&& name[n - 4] == '.'
    &&& ascii_lower(name[n - 3]) == 'p'
    &&& ascii_lower(name[n - 2]) == 'k'
    &&& ascii_lower(name[n - 1]) == 'g'
}

/// Whether `name` is that of a package file.
pub fn is_package(name: &str) -> (r: bool)
    ensures
        r == is_package_name(name@),
{
    let chars = text::chars_of(name);
    let n = chars.len();
    if n <= 4 {
        return false;
    }
    let p = chars[n - 3];
    let k = chars[n - 2];
    let g = chars[n - 1];
    chars[n - 4] == '.' && (p == 'p' || p == 'P') && (k == 'k' || k == 'K') && (g == 'g' || g
        == 'G')
}

impl SortKey for (String, u64, u64) {
    type Rank = (Seq<char>, u64, u64);

    open spec fn rank(&self) -> (Seq<char>, u64, u64) {
        file_view(*self)
    }

    open spec fn rank_le(a: (Seq<char>, u64, u64), b: (Seq<char>, u64, u64)) -> bool {
        if a.0 != b.0 {
            text::text_le(a.0, b.0)
        } else if a.1 != b.1 {
            a.1 < b.1
        } else {
            a.2 <= b.2
        }
    }

    proof fn rank_total(a: (Seq<char>, u64, u64), b: (Seq<char>, u64, u64)) {
        text::lemma_text_le_total(a.0, b.0);
    }

    proof fn rank_transitive(
        a: (Seq<char>, u64, u64),
        b: (Seq<char>, u64, u64),
        c: (Seq<char>, u64, u64),
    ) {
        if a.0 != b.0 && b.0 != c.0 {
            text::lemma_text_le_transitive(a.0, b.0, c.0);
            if a.0 == c.0 {
                text::lemma_text_le_antisymmetric(a.0, b.0);
            }
        }
    }

    fn le(&self, other: &Self) -> (r: bool) {
        if self.0 != other.0 {
            text::str_le(self.0.as_str(), other.0.as_str())
        } else if self.1 != other.1 {
            self.1 < other.1
        } else {
            self.2 <= other.2
        }
    }
}

/// The record of a file, if it is a package file.
pub open spec fn package_record(file: FileEntry) -> Option<(Seq<char>, u64, u64)> {
    if is_package_name(file.name@) {
        Some((file.name@, file.len, file.modified_nanos as u64))
    } else {
        None
    }
}

/// The records of the package files in a listing, as they are listed.
pub open spec fn package_records(listing: Seq<FileEntry>) -> Seq<(Seq<char>, u64, u64)> {
    listing.filter_map(|file: FileEntry| package_record(file))
}

/// Records in order: by name, then by size, then by time.
pub open spec fn sorted_records(records: Seq<(Seq<char>, u64, u64)>) -> Seq<(Seq<char>, u64, u64)> {
    order::sorted_by::<(String, u64, u64), (Seq<char>, u64, u64)>(records, records)
}

/// Whether the times of all package files in a listing, and that of the
/// wordlist, can be recorded.
pub open spec fn times_fit(listing: Seq<FileEntry>, wordlist: Option<(u64, u128)>) -> bool {
    &&& forall|i: int|
        0 <= i < listing.len() && is_package_name((#[trigger] listing[i]).name@)
            ==> listing[i].modified_nanos <= u64::MAX
    &&& wordlist matches Some(w) ==> w.1 <= u64::MAX
}

impl Identity {
    /// The identity of a dataset, from a listing of its package directory.
    pub fn from_directory(
        packages: Vec<String>,
        game_version: String,
        listing: Vec<FileEntry>,
        signatures: Option<String>,
        wordlist: Option<(u64, u128)>,
    ) -> (r: Result<Identity, QueryError<String>>)
        ensures
            match r {
                Ok(identity) => {
                    &&& times_fit(listing@, wordlist)
                    &&& identity@ == (IdentityView {
                        schema_version: IDENTITY_SCHEMA,
                        packages: text::texts_of(packages@),
                        game_version: game_version@,
                        files: sorted_records(package_records(listing@)),
                        signatures: text::optional_text(signatures),
                        local_wordlist: match wordlist {
                            Some(w) => Some((w.0, w.1 as u64)),
                            None => None,
                        },
                    })
                },
                Err(e) => !times_fit(listing@, wordlist) && e@
                    == QueryError::<Seq<char>>::Timestamp,
            },
    {
        let ghost record = |file: FileEntry| package_record(file);
        let mut kept: Vec<(String, u64, u64)> = Vec::new();
        let mut i: usize = 0;
        while i < listing.len()
            invariant
                record == (|file: FileEntry| package_record(file)),
                i <= listing.len(),
                order::ranks_of(kept@) == listing@.take(i as int).filter_map(record),
                forall|k: int|
                    0 <= k < i && is_package_name((#[trigger] listing@[k]).name@)
                        ==> listing@[k].modified_nanos <= u64::MAX,
            decreases listing.len() - i,
        {
            let ghost before = kept@;
            proof {
                listing@.lemma_filter_map_take_succ(record, i as int);
            }
            let file = &listing[i];
            if is_package(file.name.as_str()) {
                if file.modified_nanos > u64::MAX as u128 {
                    return Err(QueryError::Timestamp);
                }
                kept.push((file.name.clone(), file.len, file.modified_nanos as u64));
                assert(order::ranks_of(kept@) =~= order::ranks_of(before).push(
                    kept@.last().rank(),
                ));
            }
            i += 1;
        }
        assert(listing@.take(listing@.len() as int) =~= listing@);
        let local_wordlist: Option<(u64, u64)> = match wordlist {
            Some((len, nanos)) => {
                if nanos > u64::MAX as u128 {
                    return Err(QueryError::Timestamp);
                }
                Some((len, nanos as u64))
            },
            None => None,
        };
        let positions = order::sorted_positions(&kept);
        let ghost records = package_records(listing@);
        assert(order::ranks_of(kept@) == records);
        let mut files: Vec<(String, u64, u64)> = Vec::new();
        let mut j: usize = 0;
        while j < positions.len()
            invariant
                j <= positions.len(),
                j == files.len(),
                order::is_stable_order::<(String, u64, u64)>(records, positions@),
                records.len() == kept.len(),
                records == order::ranks_of(kept@),
                forall|k: int|
                    0 <= k < j ==> file_view(#[trigger] files@[k]) == records[positions@[k] as int],
            decreases positions.len() - j,
        {
            let file = &kept[positions[j]];
            files.push((file.0.clone(), file.1, file.2));
            j += 1;
        }
        let identity = Identity {
            schema_version: IDENTITY_SCHEMA,
            packages,
            game_version,
            files,
            signatures,
            local_wordlist,
        };
        assert(identity@.files =~= sorted_records(records));
        Ok(identity)
    }

    /// Whether two identities are the same.
    pub fn same(&self, other: &Identity) -> (r: bool)
        ensures
            r == (self@ == other@),
    {
        if self.schema_version != other.schema_version || !text::same_texts(
            &self.packages,
            &other.packages,
        ) || self.game_version != other.game_version {
            return false;
        }
        let signatures = match (&self.signatures, &other.signatures) {
            (Some(a), Some(b)) => *a == *b,
            (None, None) => true,
            _ => false,
        };
        let wordlists = match (&self.local_wordlist, &other.local_wordlist) {
            (Some(a), Some(b)) => a.0 == b.0 && a.1 == b.1,
            (None, None) => true,
            _ => false,
        };
        if !signatures || !wordlists {
            return false;
        }
        if self.files.len() != other.files.len() {
            assert(self@.files.len() != other@.files.len());
            return false;
        }
        let mut i: usize = 0;
        while i < self.files.len()
            invariant
                i <= self.files.len(),
                self.files.len() == other.files.len(),
                forall|k: int| 0 <= k < i ==> self@.files[k] == other@.files[k],
            decreases self.files.len() - i,
        {
            let a = &self.files[i];
            let b = &other.files[i];
            assert(self@.files[i as int] == file_view(*a));
            assert(other@.files[i as int] == file_view(*b));
            if a.0 != b.0 || a.1 != b.1 || a.2 != b.2 {
                return false;
            }
            i += 1;
        }
        assert(self@.files =~= other@.files);
        true
    }

    /// An identity that is the same.
    pub fn copy(&self) -> (copy: Identity)
        ensures
            copy@ == self@,
    {
        let mut files: Vec<(String, u64, u64)> = Vec::new();
        let mut i: usize = 0;
        while i < self.files.len()
            invariant
                i <= self.files.len(),
                i == files.len(),
                forall|k: int| 0 <= k < i ==> file_view(#[trigger] files@[k]) == self@.files[k],
            decreases self.files.len() - i,
        {
            let file = &self.files[i];
            assert(self@.files[i as int] == file_view(*file));
            files.push((file.0.clone(), file.1, file.2));
            i += 1;
        }
        let copy = Identity {
            schema_version: self.schema_version,
            packages: text::copy_texts(&self.packages),
            game_version: self.game_version.clone(),
            files,
            signatures: match &self.signatures {
                Some(s) => Some(s.clone()),
                None => None,
            },
            local_wordlist: self.local_wordlist,
        };
        assert(copy@.files =~= self@.files);
        copy
    }

    /// Whether what is stored beside a cache says that the cache was made from
    /// this dataset.
    pub fn verify(&self, stored: &StoredIdentity) -> (r: Result<(), QueryError<String>>)
        ensures
            match r {
                Ok(_) => verdict(self@, *stored) is Ok,
                Err(e) => verdict(self@, *stored) == Err::<(), QueryError<Seq<char>>>(e@),
            },
    {
        match stored {
            StoredIdentity::Missing(cause) => Err(QueryError::IdentityMissing(cause.clone())),
            StoredIdentity::Invalid(cause) => Err(QueryError::IdentityInvalid(cause.clone())),
            StoredIdentity::Found(identity) => {
                if identity.same(self) {
                    Ok(())
                } else {
                    Err(QueryError::OtherDataset)
                }
            },
        }
    }
}

/// Whether a cache that has `stored` beside it may be used with the dataset
/// `current`: only if the very same identity is stored.
pub open spec fn verdict(current: IdentityView, stored: StoredIdentity) -> Result<
    (),
    QueryError<Seq<char>>,
> {
    match stored {
        StoredIdentity::Missing(cause) => Err(QueryError::IdentityMissing(cause@)),
        StoredIdentity::Invalid(cause) => Err(QueryError::IdentityInvalid(cause@)),
        StoredIdentity::Found(identity) => if identity@ == current {
            Ok(())
        } else {
            Err(QueryError::OtherDataset)
        },
    }
}

/// Where the identity of a cache is stored.
pub open spec fn sidecar_path(cache: Seq<char>) -> Seq<char> {
    cache + ".dataset.json"@
}

/// Where the identity of the cache at `cache` is stored.
pub fn sidecar(cache: &str) -> (path: String)
    ensures
        path@ == sidecar_path(cache@),
{
    cache.to_owned().concat(".dataset.json")
}

// ---------------------------------------------------------------------------
// Laws
// ---------------------------------------------------------------------------

/// A cache is accepted with the identity that was stored for it, and with no
/// other: a different path, version, file name, size, time, signatures text or
/// wordlist is refused.
pub proof fn law_verdict(current: IdentityView, stored: Identity)
    ensures
        verdict(current, StoredIdentity::Found(stored)) is Ok <==> {
            &&& stored@.schema_version == current.schema_version
            &&& stored@.packages == current.packages
            &&& stored@.game_version == current.game_version
            &&& stored@.files == current.files
            &&& stored@.signatures == current.signatures
            &&& stored@.local_wordlist == current.local_wordlist
        },
        verdict(stored@, StoredIdentity::Found(stored)) is Ok,
{
}

/// Different caches have their identities in different places.
pub proof fn law_sidecar_injective(a: Seq<char>, b: Seq<char>)
    requires
        sidecar_path(a) == sidecar_path(b),
    ensures
        a == b,
{
    let suffix = ".dataset.json"@;
    assert(a.len() + suffix.len() == sidecar_path(a).len());
    assert(b.len() + suffix.len() == sidecar_path(b).len());
    assert(a =~= sidecar_path(a).take(a.len() as int));
    assert(b =~= sidecar_path(b).take(b.len() as int));
}

/// The order in which a directory lists its files leaves no trace: two listings
/// of the same files have the same sorted package records.
pub proof fn law_listing_order(a: Seq<FileEntry>, b: Seq<FileEntry>)
    requires
        a.to_multiset() == b.to_multiset(),
        a.len() <= usize::MAX,
    ensures
        sorted_records(package_records(a)) == sorted_records(package_records(b)),
{
    let record = |file: FileEntry| package_record(file);
    order::lemma_filter_map_multiset(a, b, record);
    let x = package_records(a);
    let y = package_records(b);
    order::lemma_filter_map_len(a, record);
    let g = |r: (Seq<char>, u64, u64)| r;
    assert(x.map_values(g) =~= x);
    assert(y.map_values(g) =~= y);
    assert forall|p: (Seq<char>, u64, u64), q: (Seq<char>, u64, u64)| #[trigger]
        x.contains(p) && #[trigger] x.contains(q) && <(String, u64, u64) as SortKey>::rank_le(
            g(p),
            g(q),
        ) && <(String, u64, u64) as SortKey>::rank_le(g(q), g(p)) implies p == q by {
        if p.0 != q.0 {
            text::lemma_text_le_antisymmetric(p.0, q.0);
        }
    }
    order::law_sorting_forgets_order::<(String, u64, u64), (Seq<char>, u64, u64)>(x, y, g);
}

/// Only package files are recorded: what else is in the directory can change
/// without a trace.
pub proof fn law_other_files_ignored(listing: Seq<FileEntry>, at: int, other: FileEntry)
    requires
        0 <= at <= listing.len(),
        !is_package_name(other.name@),
    ensures
        package_records(listing.insert(at, other)) == package_records(listing),
{
    let record = |file: FileEntry| package_record(file);
    let left = listing.subrange(0, at);
    let right = listing.subrange(at, listing.len() as int);
    assert(listing =~= left + right);
    order::lemma_filter_map_add(left.push(other), right, record);
    order::lemma_filter_map_add(left, right, record);
    assert(left.push(other).drop_last() =~= left);
}

/// A package file has a name that ends in a dot and the letters `pkg`, in upper
/// or lower case, behind at least one other character.
pub proof fn law_package_name(stem: Seq<char>, p: char, k: char, g: char)
    ensures
        is_package_name(stem + seq!['.', p, k, g]) <==> stem.len() > 0 && (p == 'p' || p == 'P')
            && (k == 'k' || k == 'K') && (g == 'g' || g == 'G'),
        is_package_name(stem) ==> stem.len() > 4 && stem[stem.len() - 4] == '.',
{
}

/// What an identity records of a listing: of each package file its own name,
/// size and time, once, and of no other file anything; by name, then by size,
/// then by time.
pub proof fn law_recorded_files(listing: Seq<FileEntry>) -> (at: Seq<int>)
    requires
        listing.len() <= usize::MAX,
        times_fit(listing, None),
    ensures
        order::positions_of(
            at,
            listing.len() as int,
            |i: int| is_package_name(listing[i].name@),
        ),
        sorted_records(package_records(listing)).len() == at.len(),
        forall|k: int|
            0 <= k < at.len() ==> {
                let file = #[trigger] sorted_records(package_records(listing))[k];
                &&& file.0 == listing[at[k]].name@
                &&& file.1 == listing[at[k]].len
                &&& file.2 == listing[at[k]].modified_nanos
            },
        forall|k: int, l: int|
            0 <= k < l < at.len() ==> {
                let a = #[trigger] sorted_records(package_records(listing))[k];
                let b = #[trigger] sorted_records(package_records(listing))[l];
                &&& text::text_le(a.0, b.0)
                &&& a.0 == b.0 ==> a.1 <= b.1
                &&& a.0 == b.0 && a.1 == b.1 ==> a.2 <= b.2
            },
{
    let f = |file: FileEntry| package_record(file);
    let records = package_records(listing);
    let sorted = sorted_records(records);
    let at = order::lemma_picked_sorted::<
        (String, u64, u64),
        FileEntry,
        (Seq<char>, u64, u64),
    >(listing, f, records);
    let wanted = |i: int| is_package_name(listing[i].name@);
    let some = |i: int| f(listing[i]) is Some;
    assert forall|i: int| #[trigger] wanted(i) == some(i) by {
    }
    assert forall|k: int| 0 <= k < at.len() implies 0 <= #[trigger] at[k] < listing.len() && wanted(
        at[k],
    ) by {
        assert(some(at[k]));
    }
    assert forall|i: int| 0 <= i < listing.len() && #[trigger] wanted(i) implies at.contains(
        i,
    ) by {
        assert(some(i));
    }
    assert forall|k: int| 0 <= k < at.len() implies {
        let file = #[trigger] sorted[k];
        &&& file.0 == listing[at[k]].name@
        &&& file.1 == listing[at[k]].len
        &&& file.2 == listing[at[k]].modified_nanos
    } by {
        assert(f(listing[at[k]]) == Some(sorted[k]));
        assert(wanted(at[k]));
    }
    assert forall|k: int, l: int| 0 <= k < l < at.len() implies {
        let a = #[trigger] sorted[k];
        let b = #[trigger] sorted[l];
        &&& text::text_le(a.0, b.0)
        &&& a.0 == b.0 ==> a.1 <= b.1
        &&& a.0 == b.0 && a.1 == b.1 ==> a.2 <= b.2
    } by {
        assert(at[k] == at[k] && at[l] == at[l]);
        text::lemma_text_le_total(sorted[k].0, sorted[k].0);
    }
    at
}

/// Times can be recorded exactly if none, of a package file or the wordlist, has
/// more than 64 bits.
pub proof fn law_times_fit(listing: Seq<FileEntry>, wordlist: Option<(u64, u128)>)
    ensures
        times_fit(listing, wordlist) <==> {
            &&& forall|i: int|
                0 <= i < listing.len() && is_package_name((#[trigger] listing[i]).name@)
                    ==> listing[i].modified_nanos < 0x1_0000_0000_0000_0000
            &&& wordlist is Some ==> (wordlist->0).1 < 0x1_0000_0000_0000_0000
        },
{
}

/// Whether two identities agree in every part: format, path, version, package
/// files, signatures and wordlist.
pub open spec fn agree(a: Identity, b: Identity) -> bool {
    &&& a.schema_version == b.schema_version
    &&& a.packages@.len() == b.packages@.len()
    &&& forall|i: int|
        0 <= i < a.packages@.len() ==> (#[trigger] a.packages@[i])@ == b.packages@[i]@
    &&& a.game_version@ == b.game_version@
    &&& a.files@.len() == b.files@.len()
    &&& forall|i: int|
        0 <= i < a.files@.len() ==> (#[trigger] a.files@[i]).0@ == b.files@[i].0@ && a.files@[i].1
            == b.files@[i].1 && a.files@[i].2 == b.files@[i].2
    &&& a.signatures is Some <==> b.signatures is Some
    &&& a.signatures is Some ==> a.signatures->0@ == b.signatures->0@
    &&& a.local_wordlist is Some <==> b.local_wordlist is Some
    &&& a.local_wordlist is Some ==> (a.local_wordlist->0).0 == (b.local_wordlist->0).0
        && (a.local_wordlist->0).1 == (b.local_wordlist->0).1
}

/// A cache may be used exactly if the identity beside it agrees with that of the
/// dataset in every part. One without an identity, or with one that cannot be
/// read, is refused for that reason, with its cause.
pub proof fn law_verdict_parts(current: Identity, stored: StoredIdentity)
    ensures
        match stored {
            StoredIdentity::Found(identity) => verdict(current@, stored) == if agree(
                current,
                identity,
            ) {
                Ok::<(), QueryError<Seq<char>>>(())
            } else {
                Err(QueryError::OtherDataset)
            },
            StoredIdentity::Missing(cause) => verdict(current@, stored) == Err::<
                (),
                QueryError<Seq<char>>,
            >(QueryError::IdentityMissing(cause@)),
            StoredIdentity::Invalid(cause) => verdict(current@, stored) == Err::<
                (),
                QueryError<Seq<char>>,
            >(QueryError::IdentityInvalid(cause@)),
        },
{
    if let StoredIdentity::Found(identity) = stored {
        let a = current;
        let b = identity;
        if agree(a, b) {
            assert(a@.packages =~= b@.packages);
            assert(a@.files =~= b@.files);
            assert(a@ =~= b@);
        }
        if a@ == b@ {
            assert(a@.packages.len() == a.packages@.len() && b@.packages.len() == b.packages@.len());
            assert(a@.files.len() == a.files@.len() && b@.files.len() == b.files@.len());
            assert forall|i: int| 0 <= i < a.packages@.len() implies (#[trigger] a.packages@[i])@
                == b.packages@[i]@ by {
                assert(a@.packages[i] == a.packages@[i]@);
                assert(b@.packages[i] == b.packages@[i]@);
            }
            assert forall|i: int| 0 <= i < a.files@.len() implies (#[trigger] a.files@[i]).0@
                == b.files@[i].0@ && a.files@[i].1 == b.files@[i].1 && a.files@[i].2
                == b.files@[i].2 by {
                assert(a@.files[i] == file_view(a.files@[i]));
                assert(b@.files[i] == file_view(b.files@[i]));
            }
        }
    }
}

/// The identity of a cache is stored beside it, under the cache's own path with
/// the ending `.dataset.json`.
pub proof fn law_sidecar(cache: Seq<char>)
    ensures
        sidecar_path(cache).len() == cache.len() + 13,
        sidecar_path(cache).take(cache.len() as int) == cache,
        sidecar_path(cache).skip(cache.len() as int) == ".dataset.json"@,
{
    reveal_strlit(".dataset.json");
    assert(sidecar_path(cache).take(cache.len() as int) =~= cache);
    assert(sidecar_path(cache).skip(cache.len() as int) =~= ".dataset.json"@);
}

} // verus!
