//! Rows and replies of the queries. `T` is the type of the texts in them:
//! `String`, or `Seq<char>` in specifications.

use vstd::prelude::*;
use vstd::string::*;

use crate::text;

verus! {

/// A named tag.
#[verifier::ext_equal]
#[derive(Debug)]
pub struct NamedRow<T> {
    pub tag: T,
    pub name: T,
    pub text_truncated: bool,
}

impl View for NamedRow<String> {
    type V = NamedRow<Seq<char>>;

    open spec fn view(&self) -> NamedRow<Seq<char>> {
        NamedRow { tag: self.tag@, name: self.name@, text_truncated: self.text_truncated }
    }
}

/// A place where a localized string's hash stands.
#[verifier::ext_equal]
#[derive(Debug)]
pub struct StringRefRow<T> {
    pub tag: T,
    pub offset: u64,
}

impl View for StringRefRow<String> {
    type V = StringRefRow<Seq<char>>;

    open spec fn view(&self) -> StringRefRow<Seq<char>> {
        StringRefRow { tag: self.tag@, offset: self.offset }
    }
}

impl<T> StringRefRow<T> {
    /// How the place was detected.
    pub fn basis(&self) -> (text: String)
        ensures
            text@ == "hash_match"@,
    {
        "hash_match".to_owned()
    }
}

/// A package.
#[verifier::ext_equal]
#[derive(Debug)]
pub struct PackageRow<T> {
    pub package_id: u16,
    pub path: T,
}

impl View for PackageRow<String> {
    type V = PackageRow<Seq<char>>;

    open spec fn view(&self) -> PackageRow<Seq<char>> {
        PackageRow { package_id: self.package_id, path: self.path@ }
    }
}

/// What is known of a tag from its package.
#[verifier::ext_equal]
#[derive(Debug)]
pub enum HeaderRow<T> {
    /// The tag's entry.
    Entry {
        tag: T,
        reference: T,
        file_type: u8,
        file_subtype: u8,
        size: u32,
        class_name: Option<T>,
    },
    /// No package has the tag.
    Missing { tag: T },
}

impl View for HeaderRow<String> {
    type V = HeaderRow<Seq<char>>;

    open spec fn view(&self) -> HeaderRow<Seq<char>> {
        match self {
            HeaderRow::Entry { tag, reference, file_type, file_subtype, size, class_name } =>
                HeaderRow::Entry {
                    tag: tag@,
                    reference: reference@,
                    file_type: *file_type,
                    file_subtype: *file_subtype,
                    size: *size,
                    class_name: text::optional_text(*class_name),
                },
            HeaderRow::Missing { tag } => HeaderRow::Missing { tag: tag@ },
        }
    }
}

/// What a scan found in a tag, in numbers.
#[verifier::ext_equal]
#[derive(Debug)]
pub struct ScanCounts<T> {
    pub successful: bool,
    pub outgoing32: usize,
    pub outgoing64: usize,
    pub incoming: usize,
    pub raw_strings: usize,
    pub string_hashes: usize,
    pub signatures: usize,
    pub secondary_class: Option<T>,
}

impl View for ScanCounts<String> {
    type V = ScanCounts<Seq<char>>;

    open spec fn view(&self) -> ScanCounts<Seq<char>> {
        ScanCounts {
            successful: self.successful,
            outgoing32: self.outgoing32,
            outgoing64: self.outgoing64,
            incoming: self.incoming,
            raw_strings: self.raw_strings,
            string_hashes: self.string_hashes,
            signatures: self.signatures,
            secondary_class: text::optional_text(self.secondary_class),
        }
    }
}

/// What a reply says of the scan of a tag.
#[verifier::ext_equal]
#[derive(Debug)]
pub enum ScanField<T> {
    /// Nothing: no cache was named.
    Absent,
    /// That the scan did not see the tag.
    NoData,
    /// What the scan found.
    Counts(ScanCounts<T>),
}

impl View for ScanField<String> {
    type V = ScanField<Seq<char>>;

    open spec fn view(&self) -> ScanField<Seq<char>> {
        match self {
            ScanField::Absent => ScanField::Absent,
            ScanField::NoData => ScanField::NoData,
            ScanField::Counts(counts) => ScanField::Counts(counts@),
        }
    }
}

/// A direct reference from one tag to another.
#[verifier::ext_equal]
#[derive(Debug)]
#[allow(inconsistent_fields)]
pub enum EdgeRow<T> {
    /// By a 32-bit hash. A reference in the tag's entry has no offset.
    Edge32 { source: T, target: T, offset: Option<u64> },
    /// By a 64-bit hash. One that no package resolves has no target.
    Edge64 { source: T, target: Option<T>, hash64: T, offset: u64 },
}

impl View for EdgeRow<String> {
    type V = EdgeRow<Seq<char>>;

    open spec fn view(&self) -> EdgeRow<Seq<char>> {
        match self {
            EdgeRow::Edge32 { source, target, offset } => EdgeRow::Edge32 {
                source: source@,
                target: target@,
                offset: *offset,
            },
            EdgeRow::Edge64 { source, target, hash64, offset } => EdgeRow::Edge64 {
                source: source@,
                target: text::optional_text(*target),
                hash64: hash64@,
                offset: *offset,
            },
        }
    }
}

impl<T> EdgeRow<T> {
    /// How the reference was detected.
    pub open spec fn basis_text(self) -> Seq<char> {
        match self {
            EdgeRow::Edge32 { offset: None, .. } => "entry_reference"@,
            EdgeRow::Edge32 { offset: Some(_), .. } => "scan_match32"@,
            EdgeRow::Edge64 { .. } => "scan_match64"@,
        }
    }

    /// How the reference was detected.
    pub fn basis(&self) -> (text: String)
        ensures
            text@ == self.basis_text(),
    {
        match self {
            EdgeRow::Edge32 { offset: None, .. } => "entry_reference".to_owned(),
            EdgeRow::Edge32 { offset: Some(_), .. } => "scan_match32".to_owned(),
            EdgeRow::Edge64 { .. } => "scan_match64".to_owned(),
        }
    }
}

/// A raw string of a tag.
#[verifier::ext_equal]
#[derive(Debug)]
pub struct RawStringRow<T> {
    pub tag: T,
    pub index: usize,
    pub text: T,
    pub text_truncated: bool,
}

impl View for RawStringRow<String> {
    type V = RawStringRow<Seq<char>>;

    open spec fn view(&self) -> RawStringRow<Seq<char>> {
        RawStringRow {
            tag: self.tag@,
            index: self.index,
            text: self.text@,
            text_truncated: self.text_truncated,
        }
    }
}

/// A localized string.
#[verifier::ext_equal]
#[derive(Debug)]
pub struct LocalizedRow<T> {
    pub string_hash: T,
    pub text: T,
    pub text_truncated: bool,
}

impl View for LocalizedRow<String> {
    type V = LocalizedRow<Seq<char>>;

    open spec fn view(&self) -> LocalizedRow<Seq<char>> {
        LocalizedRow {
            string_hash: self.string_hash@,
            text: self.text@,
            text_truncated: self.text_truncated,
        }
    }
}

/// Something that a scan found in a tag.
#[verifier::ext_equal]
#[derive(Debug)]
pub enum MatchRow<T> {
    /// The hash of a localized string.
    LocalizedHash { offset: u64, hash: T },
    /// The hash of a word of the wordlist.
    WordlistHash { offset: u64, hash: T },
    /// A signature.
    Signature { offset: u64, signature: T },
    /// A raw string.
    RawString { index: usize, text: T, text_truncated: bool },
}

impl View for MatchRow<String> {
    type V = MatchRow<Seq<char>>;

    open spec fn view(&self) -> MatchRow<Seq<char>> {
        match self {
            MatchRow::LocalizedHash { offset, hash } => MatchRow::LocalizedHash {
                offset: *offset,
                hash: hash@,
            },
            MatchRow::WordlistHash { offset, hash } => MatchRow::WordlistHash {
                offset: *offset,
                hash: hash@,
            },
            MatchRow::Signature { offset, signature } => MatchRow::Signature {
                offset: *offset,
                signature: signature@,
            },
            MatchRow::RawString { index, text, text_truncated } => MatchRow::RawString {
                index: *index,
                text: text@,
                text_truncated: *text_truncated,
            },
        }
    }
}

impl<T> MatchRow<T> {
    /// What was found.
    pub open spec fn kind_text(self) -> Seq<char> {
        match self {
            MatchRow::LocalizedHash { .. } => "localized_hash"@,
            MatchRow::WordlistHash { .. } => "wordlist_hash"@,
            MatchRow::Signature { .. } => "signature"@,
            MatchRow::RawString { .. } => "raw_string"@,
        }
    }

    /// How it was detected: a hash by its value alone, a signature by the value
    /// it stands for. A raw string is simply there.
    pub open spec fn basis_text(self) -> Option<Seq<char>> {
        match self {
            MatchRow::LocalizedHash { .. } | MatchRow::WordlistHash { .. } => Some("hash_match"@),
            MatchRow::Signature { .. } => Some("value_match"@),
            MatchRow::RawString { .. } => None,
        }
    }

    /// What was found.
    pub fn kind(&self) -> (text: String)
        ensures
            text@ == self.kind_text(),
    {
        match self {
            MatchRow::LocalizedHash { .. } => "localized_hash".to_owned(),
            MatchRow::WordlistHash { .. } => "wordlist_hash".to_owned(),
            MatchRow::Signature { .. } => "signature".to_owned(),
            MatchRow::RawString { .. } => "raw_string".to_owned(),
        }
    }

    /// How it was detected, if that is to be said.
    pub fn basis(&self) -> (text: Option<String>)
        ensures
            text::optional_text(text) == self.basis_text(),
    {
        match self {
            MatchRow::LocalizedHash { .. } | MatchRow::WordlistHash { .. } => Some(
                "hash_match".to_owned(),
            ),
            MatchRow::Signature { .. } => Some("value_match".to_owned()),
            MatchRow::RawString { .. } => None,
        }
    }
}

/// How a reference was detected: in the tag's entry, which is where it has no
/// offset, or by a match of 32 or of 64 bits.
pub proof fn law_edge_basis<T>(source: T, target: T, to: Option<T>, hash64: T, offset: u64)
    ensures
        (EdgeRow::Edge32 { source, target, offset: None }).basis_text() == "entry_reference"@,
        (EdgeRow::Edge32 { source, target, offset: Some(offset) }).basis_text() == "scan_match32"@,
        (EdgeRow::Edge64 { source, target: to, hash64, offset }).basis_text() == "scan_match64"@,
{
}

/// What was found, and how: hashes by their value, signatures by what they stand
/// for; of a raw string nothing is said.
pub proof fn law_match_kinds<T>(offset: u64, index: usize, t: T, text_truncated: bool)
    ensures
        (MatchRow::LocalizedHash { offset, hash: t }).kind_text() == "localized_hash"@,
        (MatchRow::WordlistHash { offset, hash: t }).kind_text() == "wordlist_hash"@,
        (MatchRow::Signature { offset, signature: t }).kind_text() == "signature"@,
        (MatchRow::RawString { index, text: t, text_truncated }).kind_text() == "raw_string"@,
        (MatchRow::LocalizedHash { offset, hash: t }).basis_text() == Some("hash_match"@),
        (MatchRow::WordlistHash { offset, hash: t }).basis_text() == Some("hash_match"@),
        (MatchRow::Signature { offset, signature: t }).basis_text() == Some("value_match"@),
        (MatchRow::RawString { index, text: t, text_truncated }).basis_text() is None,
{
}

/// A row holds what its own fields hold.
pub proof fn law_row_views(
    named: NamedRow<String>,
    string_ref: StringRefRow<String>,
    package: PackageRow<String>,
    raw: RawStringRow<String>,
    localized: LocalizedRow<String>,
)
    ensures
        named@.tag == named.tag@,
        named@.name == named.name@,
        named@.text_truncated == named.text_truncated,
        string_ref@.tag == string_ref.tag@,
        string_ref@.offset == string_ref.offset,
        package@.package_id == package.package_id,
        package@.path == package.path@,
        raw@.tag == raw.tag@,
        raw@.index == raw.index,
        raw@.text == raw.text@,
        raw@.text_truncated == raw.text_truncated,
        localized@.string_hash == localized.string_hash@,
        localized@.text == localized.text@,
        localized@.text_truncated == localized.text_truncated,
{
}

/// The row of a tag holds what its own fields hold.
pub proof fn law_header_views(row: HeaderRow<String>)
    ensures
        match (row, row@) {
            (
                HeaderRow::Entry { tag, reference, file_type, file_subtype, size, class_name },
                HeaderRow::Entry {
                    tag: t,
                    reference: r,
                    file_type: ft,
                    file_subtype: fs,
                    size: z,
                    class_name: c,
                },
            ) => {
                &&& t == tag@
                &&& r == reference@
                &&& ft == file_type
                &&& fs == file_subtype
                &&& z == size
                &&& class_name is Some <==> c is Some
                &&& class_name is Some ==> c->0 == class_name->0@
            },
            (HeaderRow::Missing { tag }, HeaderRow::Missing { tag: t }) => t == tag@,
            _ => false,
        },
{
}

/// The numbers of a scan hold what their own fields hold.
pub proof fn law_counts_views(counts: ScanCounts<String>, field: ScanField<String>)
    ensures
        counts@.successful == counts.successful,
        counts@.outgoing32 == counts.outgoing32,
        counts@.outgoing64 == counts.outgoing64,
        counts@.incoming == counts.incoming,
        counts@.raw_strings == counts.raw_strings,
        counts@.string_hashes == counts.string_hashes,
        counts@.signatures == counts.signatures,
        counts.secondary_class is Some <==> counts@.secondary_class is Some,
        counts.secondary_class is Some ==> counts@.secondary_class->0
            == counts.secondary_class->0@,
        match field {
            ScanField::Absent => field@ is Absent,
            ScanField::NoData => field@ is NoData,
            ScanField::Counts(c) => field@ == ScanField::Counts(c@),
        },
{
}

/// The row of a reference holds what its own fields hold.
pub proof fn law_edge_views(row: EdgeRow<String>)
    ensures
        match (row, row@) {
            (
                EdgeRow::Edge32 { source, target, offset },
                EdgeRow::Edge32 { source: s, target: t, offset: o },
            ) => s == source@ && t == target@ && o == offset,
            (
                EdgeRow::Edge64 { source, target, hash64, offset },
                EdgeRow::Edge64 { source: s, target: t, hash64: h, offset: o },
            ) => {
                &&& s == source@
                &&& target is Some <==> t is Some
                &&& target is Some ==> t->0 == target->0@
                &&& h == hash64@
                &&& o == offset
            },
            _ => false,
        },
{
}

/// The row of something found holds what its own fields hold.
pub proof fn law_match_views(row: MatchRow<String>)
    ensures
        match (row, row@) {
            (
                MatchRow::LocalizedHash { offset, hash },
                MatchRow::LocalizedHash { offset: o, hash: h },
            ) => o == offset && h == hash@,
            (
                MatchRow::WordlistHash { offset, hash },
                MatchRow::WordlistHash { offset: o, hash: h },
            ) => o == offset && h == hash@,
            (
                MatchRow::Signature { offset, signature },
                MatchRow::Signature { offset: o, signature: s },
            ) => o == offset && s == signature@,
            (
                MatchRow::RawString { index, text, text_truncated },
                MatchRow::RawString { index: i, text: t, text_truncated: u },
            ) => i == index && t == text@ && u == text_truncated,
            _ => false,
        },
{
}

} // verus!
