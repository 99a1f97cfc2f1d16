use quicktag_cli::dataset::{is_package, sidecar, FileEntry, Identity, StoredIdentity};
use quicktag_cli::error::QueryError;

fn file(name: &str, len: u64, modified_nanos: u128) -> FileEntry {
    FileEntry {
        name: name.to_string(),
        len,
        modified_nanos,
    }
}

fn parts(path: &str) -> Vec<String> {
    std::path::Path::new(path)
        .components()
        .map(|c| c.as_os_str().to_str().unwrap().to_string())
        .collect()
}

fn identity(version: &str, listing: Vec<FileEntry>) -> Identity {
    Identity::from_directory(parts("/data/packages"), version.to_string(), listing, None, None)
        .unwrap()
}

#[test]
fn rejects_changed_packages_and_other_versions() {
    let original = identity("d2_sk", vec![file("test.pkg", 3, 1000)]);
    let missing = StoredIdentity::Missing("No such file or directory (os error 2)".to_string());
    assert!(original.verify(&missing).is_err());
    let stored = StoredIdentity::Found(identity("d2_sk", vec![file("test.pkg", 3, 1000)]));
    original.verify(&stored).unwrap();
    assert!(identity("d2_eof", vec![file("test.pkg", 3, 1000)])
        .verify(&stored)
        .is_err());
    assert!(identity("d2_sk", vec![file("test.pkg", 4, 1000)])
        .verify(&stored)
        .is_err());
}

#[test]
fn every_part_of_an_identity_counts() {
    let make = |packages: &str, nanos: u128, signatures: Option<&str>, words: Option<(u64, u128)>| {
        Identity::from_directory(
            parts(packages),
            "d2_sk".to_string(),
            vec![file("a.pkg", 1, nanos)],
            signatures.map(|s| s.to_string()),
            words,
        )
        .unwrap()
    };
    let stored = || StoredIdentity::Found(make("/p", 5, Some("sig"), Some((2, 3))));
    assert!(make("/p", 5, Some("sig"), Some((2, 3))).verify(&stored()).is_ok());
    let others = [
        make("/q", 5, Some("sig"), Some((2, 3))),
        make("/p/q", 5, Some("sig"), Some((2, 3))),
        make("p", 5, Some("sig"), Some((2, 3))),
        make("/p", 6, Some("sig"), Some((2, 3))),
        make("/p", 5, Some("gis"), Some((2, 3))),
        make("/p", 5, None, Some((2, 3))),
        make("/p", 5, Some("sig"), Some((2, 4))),
        make("/p", 5, Some("sig"), Some((1, 3))),
        make("/p", 5, Some("sig"), None),
    ];
    for other in others {
        assert!(matches!(other.verify(&stored()), Err(QueryError::OtherDataset)));
    }
}

#[test]
fn identity_errors_have_texts() {
    let current = identity("d2_sk", vec![]);
    let text = |stored: StoredIdentity| current.verify(&stored).unwrap_err().message();
    assert_eq!(
        text(StoredIdentity::Missing("gone".to_string())),
        "cache identity missing; run index --rebuild to bind it to this dataset: gone"
    );
    assert_eq!(
        text(StoredIdentity::Invalid("bad".to_string())),
        "invalid cache identity; run index --rebuild: bad"
    );
    assert_eq!(
        text(StoredIdentity::Found(identity("d2_eof", vec![]))),
        "cache belongs to another dataset, package snapshot or signatures file; choose another cache or run index --rebuild"
    );
}

#[test]
fn listing_order_leaves_no_trace() {
    let a = identity(
        "v",
        vec![file("b.pkg", 1, 1), file("A.PKG", 2, 2), file("a.pkg", 3, 3), file("a.pkg", 3, 2)],
    );
    let b = identity(
        "v",
        vec![file("a.pkg", 3, 2), file("b.pkg", 1, 1), file("a.pkg", 3, 3), file("A.PKG", 2, 2)],
    );
    assert!(a.same(&b));
    assert_eq!(a.schema_version, 1);
    assert_eq!(
        a.files,
        vec![
            ("A.PKG".to_string(), 2, 2),
            ("a.pkg".to_string(), 3, 2),
            ("a.pkg".to_string(), 3, 3),
            ("b.pkg".to_string(), 1, 1),
        ]
    );
}

#[test]
fn only_package_files_are_recorded() {
    let a = identity(
        "v",
        vec![file("notes.txt", 1, u128::MAX), file("x.pkg", 1, 1), file("pkg", 1, 1)],
    );
    assert_eq!(a.files, vec![("x.pkg".to_string(), 1, 1)]);
}

#[test]
fn package_names_are_told_as_by_std() {
    let names = [
        "w64_a_0100_0.pkg", "a.PKG", "a.pKg", ".pkg", "pkg", "a.pkg.bak", "apkg", "..pkg", "a..pkg",
        "a.pkgs", "", "a.pk", "\u{d55c}.pkg", "a.\u{d55c}", ".x.pkg",
    ];
    for name in names {
        let std = std::path::Path::new(name)
            .extension()
            .is_some_and(|s| s.eq_ignore_ascii_case("pkg"));
        assert_eq!(is_package(name), std, "{:?}", name);
    }
}

#[test]
fn times_beyond_64_bits_are_refused() {
    let limit = u64::MAX as u128;
    let try_time = |time: u128, words: Option<(u64, u128)>| {
        Identity::from_directory(
            Vec::new(),
            String::new(),
            vec![file("a.pkg", 0, time)],
            None,
            words,
        )
    };
    assert!(try_time(limit, Some((0, limit))).is_ok());
    assert!(matches!(try_time(limit + 1, None), Err(QueryError::Timestamp)));
    let e = try_time(0, Some((0, limit + 1))).unwrap_err();
    assert_eq!(e.message(), "out of range integral type conversion attempted");
}

#[test]
fn sidecar_is_beside_the_cache() {
    assert_eq!(sidecar("/data/cache/sk.cache"), "/data/cache/sk.cache.dataset.json");
}

#[test]
fn spelling_of_the_path_does_not_count() {
    let at = |path: &str| {
        Identity::from_directory(parts(path), "v".to_string(), Vec::new(), None, None).unwrap()
    };
    for path in ["/data/pkgs", "/data/pkgs/", "/data//pkgs", "/data/./pkgs"] {
        assert!(at("/data/pkgs").verify(&StoredIdentity::Found(at(path))).is_ok());
    }
    for path in ["/data/Pkgs", "data/pkgs", "/data/pkgs/x", "/data/x/../pkgs"] {
        assert!(at("/data/pkgs").verify(&StoredIdentity::Found(at(path))).is_err());
    }
}

#[test]
fn copy_is_the_same() {
    let a = identity("v", vec![file("a.pkg", 1, 2), file("b.pkg", 3, 4)]);
    let b = a.copy();
    assert!(a.same(&b));
    assert_eq!(b.packages, vec!["/", "data", "packages"]);
    assert_eq!(b.files, a.files);
}
