use quicktag_cli::catalog::{Catalog, EntryHeader, NamedTag, PackageEntries};
use quicktag_cli::dataset::{Identity, StoredIdentity};
use quicktag_cli::error::QueryError;
use quicktag_cli::page::Page;
use quicktag_cli::refs::Direction;
use quicktag_cli::reply::Reply;
use quicktag_cli::rows::{EdgeRow, HeaderRow, MatchRow, NamedRow, ScanField};
use quicktag_cli::scan::{ScanResult, ScannedHash, StringCache, TagCache};
use quicktag_cli::session::{
    Action, CacheRead, Command, Event, Session, Step, StringSource,
};
use quicktag_cli::tag::{tag_name, TagHash};
use std::collections::BTreeMap;

fn entry(reference: u32) -> EntryHeader {
    EntryHeader {
        reference,
        file_type: 8,
        file_subtype: 1,
        file_size: 100,
    }
}

fn catalog() -> Catalog {
    let mut tag64_entries = BTreeMap::new();
    tag64_entries.insert(0x1122334455667788u64, TagHash(0x80802001));
    let mut class_names = BTreeMap::new();
    class_names.insert(0x80800065u32, "s_strings".to_string());
    Catalog {
        package_dir: "/data/packages".to_string(),
        game_version: "D2Sk".to_string(),
        cache_key: "d2_sk_w64".to_string(),
        package_paths: vec![(7, "p7".to_string()), (1, "p1".to_string()), (3, "p3".to_string())],
        packages: vec![
            PackageEntries {
                package_id: 2,
                entries: vec![entry(0x80800065), entry(5)],
            },
            PackageEntries {
                package_id: 1,
                entries: vec![entry(5), entry(0x80800065), entry(6)],
            },
        ],
        tag64_entries,
        named_tags: vec![
            NamedTag {
                hash: TagHash(0x80802000),
                name: "Bray_B".to_string(),
            },
            NamedTag {
                hash: TagHash(0x80804000),
                name: "other".to_string(),
            },
            NamedTag {
                hash: TagHash(0x80802001),
                name: "a \"quoted\" bray".to_string(),
            },
            NamedTag {
                hash: TagHash(0x80802002),
                name: "BRAY_B".to_string(),
            },
        ],
        class_names,
    }
}

fn scan() -> ScanResult {
    ScanResult {
        successful: true,
        file_hashes: Vec::new(),
        file_hashes64: Vec::new(),
        string_hashes: Vec::new(),
        wordlist_hashes: Vec::new(),
        raw_strings: Vec::new(),
        signatures: Vec::new(),
        references: Vec::new(),
        secondary_class: None,
    }
}

fn at<H>(offset: u64, hash: H) -> ScannedHash<H> {
    ScannedHash { offset, hash }
}

const A: u32 = 0x80802000;
const B: u32 = 0x80802001;
const C: u32 = 0x80804000;

fn cache() -> TagCache {
    let mut a = scan();
    a.file_hashes = vec![at(u64::MAX, TagHash(C)), at(16, TagHash(B)), at(32, TagHash(C))];
    a.file_hashes64 = vec![at(48, 0x1122334455667788), at(56, 0xdead)];
    a.raw_strings = vec!["Ana BRAY".to_string(), "none".to_string(), "bray".repeat(100)];
    a.string_hashes = vec![at(4, 0x12345678), at(8, 1), at(12, 0x12345678)];
    let mut b = scan();
    b.successful = false;
    b.references = vec![TagHash(C), TagHash(A), TagHash(A), TagHash(0x80809999)];
    b.raw_strings = vec!["clovis bray".to_string()];
    let mut c = scan();
    c.file_hashes = vec![at(0, TagHash(B))];
    c.string_hashes = vec![at(20, 0x12345678)];
    c.wordlist_hashes = vec![at(24, 0xabcd)];
    c.signatures = vec![at(28, "Sig".to_string())];
    c.raw_strings = vec!["x".to_string()];
    c.secondary_class = Some(0x80800065);
    let mut hashes = BTreeMap::new();
    hashes.insert(C, c);
    hashes.insert(A, a);
    hashes.insert(B, b);
    TagCache { version: 9, hashes }
}

fn page(limit: usize, offset: usize) -> Page {
    Page { limit, offset }
}

fn session() -> Session {
    let mut session = Session::new(Some("/c".to_string()));
    session.cache = Some(cache());
    session
}

fn done(step: Step) -> Result<Reply, QueryError<String>> {
    match step {
        Step::Done(outcome) => outcome,
        Step::Perform(action) => panic!("{:?}", action),
    }
}

fn ask(session: &mut Session, command: Command) -> Result<Reply, QueryError<String>> {
    done(session.query(&catalog(), &command, Event::Asked))
}

fn identity(version: &str) -> Identity {
    Identity::from_directory(vec!["/".to_string(), "p".to_string()], version.to_string(), Vec::new(), None, None).unwrap()
}

fn loaded(stored: StoredIdentity) -> Event {
    Event::CacheLoaded {
        read: CacheRead::Loaded(cache()),
        current: Ok(identity("v")),
        stored,
    }
}

fn matches_a() -> Command {
    Command::Matches {
        hash: "00208080".to_string(),
        page: page(20, 0),
    }
}

#[test]
fn info_shows_the_dataset() {
    match ask(&mut session(), Command::Info).unwrap() {
        Reply::Info(info) => {
            assert_eq!(info.packages, "/data/packages");
            assert_eq!(info.game_version, "D2Sk");
            assert_eq!(info.cache_key, "d2_sk_w64");
            assert_eq!(info.cache.unwrap(), "/c");
            assert_eq!(info.numeric_hash_format, "0x-prefixed hex integers");
            assert_eq!(
                info.tag_hash_format,
                "8 hex digits in QuickTag display (little-endian byte) order"
            );
        }
        other => panic!("{:?}", other),
    }
}

fn json_of(row: &NamedRow<String>) -> String {
    let mut map = serde_json::Map::new();
    map.insert("tag".to_string(), serde_json::Value::from(row.tag.as_str()));
    map.insert("name".to_string(), serde_json::Value::from(row.name.as_str()));
    map.insert("text_truncated".to_string(), serde_json::Value::from(row.text_truncated));
    serde_json::Value::Object(map).to_string()
}

#[test]
fn named_tags_are_found_in_any_case_and_sorted_as_json() {
    let command = Command::Named {
        query: "bRaY".to_string(),
        page: page(20, 0),
    };
    match ask(&mut session(), command).unwrap() {
        Reply::Named(found) => {
            let names: Vec<&str> = found.items.iter().map(|r| r.name.as_str()).collect();
            assert_eq!(names, vec!["BRAY_B", "Bray_B", "a \"quoted\" bray"]);
            assert_eq!(found.total, 3);
            assert_eq!(found.items[0].tag, "02208080");
            let texts: Vec<String> = found.items.iter().map(json_of).collect();
            let mut sorted = texts.clone();
            sorted.sort();
            assert_eq!(texts, sorted);
        }
        other => panic!("{:?}", other),
    }
}

#[test]
fn row_text_is_that_of_serde_json() {
    let names = ["", "plain", "\"\\/", "\u{8}\t\n\u{c}\r\u{0}\u{1f}\u{7f}", "\u{d55c}\u{1f600}"];
    for name in names {
        for text_truncated in [false, true] {
            let row = NamedRow {
                tag: "00008080".to_string(),
                name: name.to_string(),
                text_truncated,
            };
            assert_eq!(row.json(), json_of(&row));
        }
    }
}

#[test]
fn search_folds_case_beyond_ascii() {
    let mut strings: StringCache = BTreeMap::new();
    strings.insert(5, vec!["\u{c9}TOILE".to_string(), "etoile".to_string()]);
    let mut session = session();
    session.strings = Some(strings);
    let command = Command::Strings {
        query: "\u{e9}toile".to_string(),
        source: StringSource::Localized,
        page: page(20, 0),
    };
    match ask(&mut session, command).unwrap() {
        Reply::LocalizedStrings(found) => {
            assert_eq!(found.total, 1);
            assert_eq!(found.items[0].string_hash, "0x00000005");
            assert_eq!(found.items[0].text, "\u{c9}TOILE");
        }
        other => panic!("{:?}", other),
    }
}

#[test]
fn packages_are_listed_by_number() {
    let command = Command::Packages { page: page(2, 0) };
    match ask(&mut session(), command).unwrap() {
        Reply::Packages(found) => {
            assert_eq!(found.items[0].package_id, 1);
            assert_eq!(found.items[0].path, "p1");
            assert_eq!(found.items[1].package_id, 3);
            assert_eq!(found.total, 3);
            assert_eq!(found.next_offset, Some(2));
        }
        other => panic!("{:?}", other),
    }
}

fn tag_of(row: &HeaderRow<String>) -> String {
    match row {
        HeaderRow::Entry { tag, .. } => tag.clone(),
        HeaderRow::Missing { .. } => panic!(),
    }
}

#[test]
fn tags_are_listed_in_ascending_order() {
    let command = Command::Tags {
        class: None,
        page: page(20, 0),
    };
    match ask(&mut session(), command).unwrap() {
        Reply::Tags(found) => {
            let tags: Vec<String> = found.items.iter().map(tag_of).collect();
            let wanted: Vec<String> = [0x80802000, 0x80802001, 0x80802002, 0x80804000, 0x80804001]
                .iter()
                .map(|t| tag_name(TagHash(*t)))
                .collect();
            assert_eq!(tags, wanted);
        }
        other => panic!("{:?}", other),
    }
}

#[test]
fn tags_are_filtered_by_class() {
    let command = |class: &str| Command::Tags {
        class: Some(class.to_string()),
        page: page(20, 0),
    };
    match ask(&mut session(), command("0x80800065")).unwrap() {
        Reply::Tags(found) => {
            assert_eq!(found.total, 2);
            match &found.items[0] {
                HeaderRow::Entry { tag, reference, file_type, file_subtype, size, class_name } => {
                    assert_eq!(tag, "01208080");
                    assert_eq!(reference, "0x80800065");
                    assert_eq!((*file_type, *file_subtype, *size), (8, 1, 100));
                    assert_eq!(class_name.as_deref(), Some("s_strings"));
                }
                other => panic!("{:?}", other),
            }
        }
        other => panic!("{:?}", other),
    }
    assert!(matches!(ask(&mut session(), command("nope")), Err(QueryError::Hex(_))));
}

#[test]
fn entry_numbers_wrap_at_8192() {
    let mut catalog = catalog();
    catalog.packages = vec![PackageEntries {
        package_id: 0xffff,
        entries: (0..8194).map(entry).collect(),
    }];
    let found = catalog.find_tags(Some(8193), page(20, 0)).unwrap();
    assert_eq!(tag_of(&found.items[0]), tag_name(TagHash(0x80800000 + 0xffff * 8192 + 1)));
    assert_eq!(
        catalog.get_entry(TagHash(0x80800000 + 0xffff * 8192 + 8191)).unwrap().reference,
        8191
    );
    assert!(catalog.get_entry(TagHash(0x80800000)).is_none());
    assert!(catalog.get_entry(TagHash(0)).is_none());
    assert!(matches!(catalog.header(TagHash(0)), HeaderRow::Missing { .. }));
}

#[test]
fn tag_shows_header_and_scan() {
    let command = |hash: &str| Command::Tag { hash: hash.to_string() };
    match ask(&mut session(), command("00208080")).unwrap() {
        Reply::Tag(HeaderRow::Entry { reference, class_name, .. }, ScanField::Counts(counts)) => {
            assert_eq!(reference, "0x00000005");
            assert!(class_name.is_none());
            assert!(counts.successful);
            assert_eq!((counts.outgoing32, counts.outgoing64, counts.incoming), (3, 2, 0));
            assert_eq!((counts.raw_strings, counts.string_hashes, counts.signatures), (3, 3, 0));
            assert!(counts.secondary_class.is_none());
        }
        other => panic!("{:?}", other),
    }
    match ask(&mut session(), command("02208080")).unwrap() {
        Reply::Tag(_, ScanField::NoData) => {}
        other => panic!("{:?}", other),
    }
    match ask(&mut Session::new(None), command("00208080")).unwrap() {
        Reply::Tag(_, ScanField::Absent) => {}
        other => panic!("{:?}", other),
    }
    let e = ask(&mut session(), command("FFFFFFFF")).unwrap_err();
    assert_eq!(e.message(), "tag not found");
}

#[test]
fn string_refs_go_tag_by_tag() {
    let command = |hash: &str| Command::StringRefs {
        hash: hash.to_string(),
        page: page(20, 0),
    };
    match ask(&mut session(), command("0x12345678")).unwrap() {
        Reply::StringRefs(found) => {
            assert!(found.items.iter().all(|r| r.basis() == "hash_match"));
            let rows: Vec<(String, u64)> =
                found.items.into_iter().map(|r| (r.tag, r.offset)).collect();
            let a = tag_name(TagHash(A));
            let c = tag_name(TagHash(C));
            assert_eq!(rows, vec![(a.clone(), 4), (a, 12), (c, 20)]);
        }
        other => panic!("{:?}", other),
    }
    assert!(matches!(ask(&mut session(), command("x")), Err(QueryError::Hex(_))));
}

fn refs(direction: Direction, tag: u32) -> Vec<EdgeRow<String>> {
    let command = Command::Refs {
        hash: tag_name(TagHash(tag)),
        direction,
        page: page(20, 0),
    };
    match ask(&mut session(), command).unwrap() {
        Reply::Refs(found) => found.items,
        other => panic!("{:?}", other),
    }
}

#[test]
fn outgoing_references_keep_offset_and_basis() {
    let rows = refs(Direction::Outgoing, A);
    assert_eq!(rows.len(), 5);
    let basis: Vec<String> = rows.iter().map(|r| r.basis()).collect();
    assert_eq!(
        basis,
        vec!["entry_reference", "scan_match32", "scan_match32", "scan_match64", "scan_match64"]
    );
    match &rows[0] {
        EdgeRow::Edge32 { source, target, offset } => {
            assert_eq!(source, &tag_name(TagHash(A)));
            assert_eq!(target, &tag_name(TagHash(C)));
            assert_eq!(*offset, None);
        }
        other => panic!("{:?}", other),
    }
    match &rows[3] {
        EdgeRow::Edge64 { target, hash64, offset, .. } => {
            assert_eq!(target.as_ref().unwrap(), &tag_name(TagHash(B)));
            assert_eq!(hash64, "0x1122334455667788");
            assert_eq!(*offset, 48);
        }
        other => panic!("{:?}", other),
    }
    match &rows[4] {
        EdgeRow::Edge64 { target, hash64, .. } => {
            assert!(target.is_none());
            assert_eq!(hash64, "0x000000000000DEAD");
        }
        other => panic!("{:?}", other),
    }
}

#[test]
fn incoming_references_come_from_each_source_once() {
    let rows = refs(Direction::Incoming, B);
    let seen: Vec<(String, String)> = rows
        .iter()
        .map(|r| match r {
            EdgeRow::Edge32 { source, .. } => (source.clone(), r.basis()),
            EdgeRow::Edge64 { source, .. } => (source.clone(), r.basis()),
        })
        .collect();
    let a = tag_name(TagHash(A));
    let c = tag_name(TagHash(C));
    assert_eq!(
        seen,
        vec![
            (a.clone(), "scan_match32".to_string()),
            (a, "scan_match64".to_string()),
            (c, "scan_match32".to_string()),
        ]
    );
    assert!(matches!(Direction::default(), Direction::Outgoing));
}

#[test]
fn tags_without_scan_data_are_refused() {
    let command = Command::Refs {
        hash: "02208080".to_string(),
        direction: Direction::Outgoing,
        page: page(20, 0),
    };
    let e = ask(&mut session(), command).unwrap_err();
    assert_eq!(e.message(), "tag has no scan data");
    let command = Command::Matches {
        hash: "02208080".to_string(),
        page: page(20, 0),
    };
    assert!(matches!(ask(&mut session(), command), Err(QueryError::NoScanData)));
}

#[test]
fn raw_strings_are_found() {
    let command = |limit: usize, offset: usize| Command::Strings {
        query: "Bray".to_string(),
        source: StringSource::default(),
        page: page(limit, offset),
    };
    match ask(&mut session(), command(20, 0)).unwrap() {
        Reply::RawStrings(found) => {
            assert_eq!(found.total, 3);
            assert_eq!(found.items[0].text, "Ana BRAY");
            assert_eq!(found.items[0].index, 0);
            assert_eq!(found.items[1].index, 2);
            assert_eq!(found.items[1].text.len(), 240);
            assert!(found.items[1].text_truncated);
            assert_eq!(found.items[2].tag, tag_name(TagHash(B)));
        }
        other => panic!("{:?}", other),
    }
    match ask(&mut session(), command(1, 1)).unwrap() {
        Reply::RawStrings(found) => {
            assert_eq!(found.items.len(), 1);
            assert_eq!(found.items[0].index, 2);
            assert_eq!(found.next_offset, Some(2));
        }
        other => panic!("{:?}", other),
    }
    assert!(matches!(ask(&mut session(), command(0, 0)), Err(QueryError::Limit)));
}

#[test]
fn matches_list_everything_found() {
    let command = Command::Matches {
        hash: tag_name(TagHash(C)),
        page: page(20, 0),
    };
    match ask(&mut session(), command).unwrap() {
        Reply::Matches(found) => {
            assert_eq!(found.total, 4);
            let kinds: Vec<String> = found.items.iter().map(|r| r.kind()).collect();
            assert_eq!(kinds, vec!["localized_hash", "wordlist_hash", "signature", "raw_string"]);
            let basis: Vec<Option<String>> = found.items.iter().map(|r| r.basis()).collect();
            assert_eq!(basis[0].as_deref(), Some("hash_match"));
            assert_eq!(basis[1].as_deref(), Some("hash_match"));
            assert_eq!(basis[2].as_deref(), Some("value_match"));
            assert_eq!(basis[3], None);
            match &found.items[0] {
                MatchRow::LocalizedHash { offset, hash } => {
                    assert_eq!((*offset, hash.as_str()), (20, "0x12345678"));
                }
                other => panic!("{:?}", other),
            }
            match &found.items[1] {
                MatchRow::WordlistHash { offset, hash } => {
                    assert_eq!((*offset, hash.as_str()), (24, "0x0000ABCD"));
                }
                other => panic!("{:?}", other),
            }
            match &found.items[2] {
                MatchRow::Signature { offset, signature } => {
                    assert_eq!((*offset, signature.as_str()), (28, "Sig"));
                }
                other => panic!("{:?}", other),
            }
            match &found.items[3] {
                MatchRow::RawString { index, text, text_truncated } => {
                    assert_eq!((*index, text.as_str(), *text_truncated), (0, "x", false));
                }
                other => panic!("{:?}", other),
            }
        }
        other => panic!("{:?}", other),
    }
}

#[test]
fn bytes_are_read_and_shown_in_hexadecimal() {
    let command = |offset: usize, length: usize| Command::Bytes {
        hash: "00208080".to_string(),
        offset,
        length,
    };
    let mut session = Session::new(None);
    let catalog = catalog();
    match session.query(&catalog, &command(1, 64), Event::Asked) {
        Step::Perform(Action::ReadTag { tag }) => assert_eq!(tag, TagHash(A)),
        other => panic!("{:?}", other),
    }
    let read = || Event::TagRead(Ok(vec![0x0a, 0xbc, 0xff]));
    match done(session.query(&catalog, &command(1, 64), read())).unwrap() {
        Reply::Bytes(b) => {
            assert_eq!(b.tag, "00208080");
            assert_eq!((b.offset, b.length, b.size), (1, 2, 3));
            assert_eq!(b.hex, "BCFF");
        }
        other => panic!("{:?}", other),
    }
    let e = done(session.query(&catalog, &command(4, 1), read())).unwrap_err();
    assert!(matches!(e, QueryError::Offset));
    for length in [0, 4097] {
        let e = done(session.query(&catalog, &command(0, length), Event::Asked)).unwrap_err();
        assert_eq!(e.message(), "length must be between 1 and 4096");
    }
    let failed = Event::TagRead(Err("no such package".to_string()));
    let e = done(session.query(&catalog, &command(0, 1), failed)).unwrap_err();
    assert_eq!(e.message(), "no such package");
}

#[test]
fn export_names_the_file() {
    let command = Command::Export {
        hash: "00208080".to_string(),
        output: "out.bin".to_string(),
    };
    let mut session = Session::new(None);
    let catalog = catalog();
    match session.query(&catalog, &command, Event::Asked) {
        Step::Perform(Action::Export { tag, output }) => {
            assert_eq!(tag, TagHash(A));
            assert_eq!(output, "out.bin");
        }
        other => panic!("{:?}", other),
    }
    let written = Event::Exported(Ok(("/tmp/out.bin".to_string(), 7)));
    match done(session.query(&catalog, &command, written)).unwrap() {
        Reply::Export(e) => {
            assert_eq!((e.tag.as_str(), e.output.as_str(), e.bytes), ("00208080", "/tmp/out.bin", 7));
        }
        other => panic!("{:?}", other),
    }
    let refused = Event::Exported(Err("File exists (os error 17)".to_string()));
    assert!(done(session.query(&catalog, &command, refused)).is_err());
}

#[test]
fn scan_queries_need_a_cache() {
    let e = ask(&mut Session::new(None), matches_a()).unwrap_err();
    assert_eq!(
        e.message(),
        "this query requires --cache; build it with index first"
    );
    let e = ask(&mut Session::new(None), Command::Index { rebuild: false }).unwrap_err();
    assert_eq!(e.message(), "index requires --cache");
}

#[test]
fn cache_is_loaded_once() {
    let mut session = Session::new(Some("/c".to_string()));
    let catalog = catalog();
    match session.query(&catalog, &matches_a(), Event::Asked) {
        Step::Perform(Action::LoadCache { path, sidecar }) => {
            assert_eq!(path, "/c");
            assert_eq!(sidecar, "/c.dataset.json");
        }
        other => panic!("{:?}", other),
    }
    let event = loaded(StoredIdentity::Found(identity("v")));
    assert!(done(session.query(&catalog, &matches_a(), event)).is_ok());
    assert!(session.cache.is_some());
    assert!(done(session.query(&catalog, &matches_a(), Event::Asked)).is_ok());
}

#[test]
fn cache_of_another_dataset_is_refused() {
    let mut session = Session::new(Some("/c".to_string()));
    let catalog = catalog();
    let events = [
        loaded(StoredIdentity::Found(identity("w"))),
        loaded(StoredIdentity::Missing("gone".to_string())),
        loaded(StoredIdentity::Invalid("bad".to_string())),
        Event::CacheLoaded {
            read: CacheRead::Rebuild,
            current: Ok(identity("v")),
            stored: StoredIdentity::Found(identity("v")),
        },
        Event::CacheLoaded {
            read: CacheRead::Failed("broken".to_string()),
            current: Ok(identity("v")),
            stored: StoredIdentity::Found(identity("v")),
        },
        Event::CacheLoaded {
            read: CacheRead::Loaded(cache()),
            current: Err(QueryError::Timestamp),
            stored: StoredIdentity::Found(identity("v")),
        },
    ];
    let mut texts = Vec::new();
    for event in events {
        texts.push(done(session.query(&catalog, &matches_a(), event)).unwrap_err().message());
        assert!(session.cache.is_none());
    }
    assert!(texts[0].starts_with("cache belongs to another dataset"));
    assert!(texts[1].starts_with("cache identity missing"));
    assert!(texts[2].starts_with("invalid cache identity"));
    assert_eq!(texts[3], "cache missing, stale or invalid; run index explicitly");
    assert_eq!(texts[4], "broken");
    assert_eq!(texts[5], "out of range integral type conversion attempted");
}

fn inspected(exists: bool, stored: StoredIdentity) -> Event {
    Event::CacheInspected {
        exists,
        current: Ok(identity("v")),
        stored,
    }
}

#[test]
fn index_builds_a_new_cache() {
    let mut session = Session::new(Some("/c".to_string()));
    let catalog = catalog();
    let index = Command::Index { rebuild: false };
    match session.query(&catalog, &index, Event::Asked) {
        Step::Perform(Action::InspectCache { path, sidecar }) => {
            assert_eq!((path.as_str(), sidecar.as_str()), ("/c", "/c.dataset.json"));
        }
        other => panic!("{:?}", other),
    }
    let event = inspected(false, StoredIdentity::Missing("gone".to_string()));
    match session.query(&catalog, &index, event) {
        Step::Perform(Action::BuildCache { path, sidecar, rebuild, identity: bound }) => {
            assert_eq!((path.as_str(), sidecar.as_str(), rebuild), ("/c", "/c.dataset.json", false));
            assert!(identity("v").verify(&StoredIdentity::Found(bound)).is_ok());
        }
        other => panic!("{:?}", other),
    }
    match done(session.query(&catalog, &index, Event::CacheBuilt(Ok(cache())))).unwrap() {
        Reply::Index(r) => {
            assert_eq!(r.cache, "/c");
            assert_eq!((r.tags, r.failed_tags, r.cache_version), (3, 1, 9));
        }
        other => panic!("{:?}", other),
    }
    assert!(session.inspected.is_none());
    assert!(done(session.query(&catalog, &matches_a(), Event::Asked)).is_ok());
}

#[test]
fn index_refuses_another_dataset_unless_rebuilding() {
    let mut session = Session::new(Some("/c".to_string()));
    let catalog = catalog();
    let index = Command::Index { rebuild: false };
    let event = inspected(true, StoredIdentity::Found(identity("w")));
    let e = done(session.query(&catalog, &index, event)).unwrap_err();
    assert!(matches!(e, QueryError::OtherDataset));
    let event = inspected(true, StoredIdentity::Missing("gone".to_string()));
    let e = done(session.query(&catalog, &index, event)).unwrap_err();
    assert!(matches!(e, QueryError::IdentityMissing(_)));
    let event = inspected(true, StoredIdentity::Found(identity("v")));
    assert!(matches!(
        session.query(&catalog, &index, event),
        Step::Perform(Action::BuildCache { rebuild: false, .. })
    ));
    let anew = Command::Index { rebuild: true };
    assert!(matches!(
        session.query(&catalog, &anew, Event::Asked),
        Step::Perform(Action::InspectCache { .. })
    ));
    let event = inspected(true, StoredIdentity::Found(identity("w")));
    match session.query(&catalog, &anew, event) {
        Step::Perform(Action::BuildCache { rebuild, identity: bound, .. }) => {
            assert!(rebuild);
            assert!(bound.same(&identity("v")));
        }
        other => panic!("{:?}", other),
    }
    let failed = Event::CacheBuilt(Err("disk full".to_string()));
    let e = done(session.query(&catalog, &anew, failed)).unwrap_err();
    assert_eq!(e.message(), "disk full");
    assert!(session.cache.is_none());
    let unknown = Event::CacheInspected {
        exists: false,
        current: Err(QueryError::Timestamp),
        stored: StoredIdentity::Missing("gone".to_string()),
    };
    let e = done(session.query(&catalog, &anew, unknown)).unwrap_err();
    assert!(matches!(e, QueryError::Timestamp));
}

#[test]
fn inspection_precedes_build() {
    let catalog = catalog();
    let index = || Command::Index { rebuild: false };
    let permitted = || inspected(false, StoredIdentity::Missing("gone".to_string()));
    let built = || Event::CacheBuilt(Ok(cache()));
    let mut session = Session::new(Some("/c".to_string()));
    let step = session.query(&catalog, &index(), built());
    assert!(matches!(step, Step::Perform(Action::InspectCache { .. })));
    session.query(&catalog, &Command::Index { rebuild: true }, permitted());
    let step = session.query(&catalog, &index(), built());
    assert!(matches!(step, Step::Perform(Action::InspectCache { .. })));
    session.query(&catalog, &index(), permitted());
    session.query(&catalog, &index(), Event::Asked);
    let step = session.query(&catalog, &index(), built());
    assert!(matches!(step, Step::Perform(Action::InspectCache { .. })));
    assert!(session.cache.is_none());
}

#[test]
fn cache_left_by_index_is_accepted() {
    let catalog = catalog();
    let mut session = Session::new(Some("/c".to_string()));
    let event = inspected(false, StoredIdentity::Missing("gone".to_string()));
    let bound = match session.query(&catalog, &Command::Index { rebuild: false }, event) {
        Step::Perform(Action::BuildCache { identity, .. }) => identity,
        other => panic!("{:?}", other),
    };
    let mut later = Session::new(Some("/c".to_string()));
    let event = loaded(StoredIdentity::Found(bound));
    assert!(done(later.query(&catalog, &matches_a(), event)).is_ok());
}

#[test]
fn localized_strings_are_collected_once() {
    let mut session = Session::new(None);
    let catalog = catalog();
    let command = Command::Strings {
        query: "a".to_string(),
        source: StringSource::Localized,
        page: page(20, 0),
    };
    assert!(matches!(
        session.query(&catalog, &command, Event::Asked),
        Step::Perform(Action::BuildStrings)
    ));
    let failed = Event::StringsBuilt(Err("no strings".to_string()));
    assert!(done(session.query(&catalog, &command, failed)).is_err());
    let mut strings: StringCache = BTreeMap::new();
    strings.insert(0xffffffff, vec!["A".to_string()]);
    strings.insert(1, vec!["b".to_string(), "ba".to_string()]);
    let built = Event::StringsBuilt(Ok(strings));
    match done(session.query(&catalog, &command, built)).unwrap() {
        Reply::LocalizedStrings(found) => {
            assert_eq!(found.items[0].string_hash, "0x00000001");
            assert_eq!(found.items[0].text, "ba");
            assert_eq!(found.items[1].string_hash, "0xFFFFFFFF");
        }
        other => panic!("{:?}", other),
    }
    assert!(done(session.query(&catalog, &command, Event::Asked)).is_ok());
}

#[test]
fn events_that_nothing_asked_for_change_nothing() {
    let mut session = Session::new(Some("/c".to_string()));
    let catalog = catalog();
    let step = session.query(&catalog, &Command::Info, Event::CacheBuilt(Ok(cache())));
    assert!(matches!(done(step), Ok(Reply::Info(_))));
    assert!(session.cache.is_none());
}

#[test]
fn serve_is_no_query() {
    let e = ask(&mut session(), Command::Serve).unwrap_err();
    assert_eq!(e.message(), "serve cannot be nested");
}

fn shown(reply: Reply) -> String {
    format!("{:?}", reply)
}

#[test]
fn order_of_the_dataset_leaves_no_trace() {
    let ahead = catalog();
    let mut back = catalog();
    back.packages.reverse();
    back.package_paths.reverse();
    back.named_tags.reverse();
    let commands = [
        Command::Tags {
            class: None,
            page: page(20, 0),
        },
        Command::Packages { page: page(20, 0) },
        Command::Named {
            query: "bray".to_string(),
            page: page(20, 0),
        },
    ];
    for command in commands {
        let mut session = session();
        let a = done(session.query(&ahead, &command, Event::Asked)).unwrap();
        let b = done(session.query(&back, &command, Event::Asked)).unwrap();
        assert_eq!(shown(a), shown(b));
    }
}

#[test]
fn directions_agree() {
    let b = tag_name(TagHash(B));
    let mut wanted = Vec::new();
    for source in [A, C] {
        for row in refs(Direction::Outgoing, source) {
            let to_b = match &row {
                EdgeRow::Edge32 { target, .. } => *target == b,
                EdgeRow::Edge64 { target, .. } => target.as_ref() == Some(&b),
            };
            if to_b {
                wanted.push(format!("{:?}", row));
            }
        }
    }
    let found: Vec<String> =
        refs(Direction::Incoming, B).iter().map(|r| format!("{:?}", r)).collect();
    assert_eq!(found, wanted);
}

#[test]
fn replies_are_bounded() {
    let mut session = session();
    let mut c = cache();
    let mut big = scan();
    big.raw_strings = (0..250).map(|_| "\u{d55c}".repeat(300)).collect();
    c.hashes.insert(0xfffffff0, big);
    session.cache = Some(c);
    let strings = |limit: usize| Command::Strings {
        query: "\u{d55c}".to_string(),
        source: StringSource::Raw,
        page: page(limit, 0),
    };
    match ask(&mut session, strings(200)).unwrap() {
        Reply::RawStrings(found) => {
            assert_eq!(found.items.len(), 200);
            assert_eq!(found.total, 250);
            assert_eq!(found.next_offset, Some(200));
            assert!(found.items.iter().all(|r| r.text.chars().count() == 240 && r.text_truncated));
        }
        other => panic!("{:?}", other),
    }
    assert!(matches!(ask(&mut session, strings(201)), Err(QueryError::Limit)));
    let command = Command::Bytes {
        hash: "00208080".to_string(),
        offset: 0,
        length: 4096,
    };
    let read = Event::TagRead(Ok(vec![0xab; 5000]));
    match done(session.query(&catalog(), &command, read)).unwrap() {
        Reply::Bytes(b) => {
            assert_eq!((b.length, b.size, b.hex.len()), (4096, 5000, 8192));
        }
        other => panic!("{:?}", other),
    }
}

#[test]
fn only_index_scans() {
    let mut session = Session::new(Some("/c".to_string()));
    let commands = [
        Command::Info,
        matches_a(),
        Command::Tag { hash: "00208080".to_string() },
        Command::StringRefs {
            hash: "1".to_string(),
            page: page(1, 0),
        },
        Command::Strings {
            query: String::new(),
            source: StringSource::Localized,
            page: page(1, 0),
        },
        Command::Serve,
    ];
    for command in commands {
        assert!(!matches!(
            session.query(&catalog(), &command, Event::Asked),
            Step::Perform(Action::BuildCache { .. }) | Step::Perform(Action::InspectCache { .. })
        ));
    }
}
