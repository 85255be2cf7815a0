use cargo_lock::command::TranslateCmd;
use cargo_lock::dependency::Dependency;
use cargo_lock::error::{Error, Field};
use cargo_lock::lockfile::encoding::find_legacy_checksum;
use cargo_lock::lockfile::version::ResolveVersion;
use cargo_lock::lockfile::{Lockfile, Section};
use cargo_lock::metadata::{Entry, Metadata};
use cargo_lock::package::{to_records, Name, PackageId, PackageRecord, SourceId, Version};

fn wid(name: &str, version: &str, source: Option<&str>) -> PackageId {
    PackageId {
        name: Name::parse(name).unwrap(),
        version: Version::parse(version).unwrap(),
        source: source.map(|s| SourceId::parse(s).unwrap()),
    }
}

fn wrec(name: &str, version: &str, source: Option<&str>, checksum: Option<&str>, deps: &[&str]) -> PackageRecord {
    PackageRecord {
        id: wid(name, version, source),
        checksum: checksum.map(|c| c.to_string()),
        dependencies: deps.iter().map(|d| d.to_string()).collect(),
    }
}

fn went(key: &str, value: &str) -> Entry {
    Entry { key: key.to_string(), value: value.to_string() }
}

fn newest() -> Vec<Section> {
    vec![
        Section::Packages(vec![
            wrec("a", "1.0.0", Some("s"), Some("aa"), &[]),
            wrec("b", "1.0.0", None, None, &["a", "c 0.3.0 (t)"]),
            wrec("c", "0.3.0", Some("t"), Some("cc"), &[]),
        ]),
        Section::Metadata(vec![went("note", "kept")]),
        Section::Patch(vec![wrec("p", "0.1.0", Some("s"), None, &["a 1.0.0"])]),
    ]
}

fn oldest() -> Vec<Section> {
    vec![
        Section::Packages(vec![
            wrec("a", "1.0.0", Some("s"), None, &[]),
            wrec("b", "1.0.0", None, None, &["a 1.0.0 (s)"]),
        ]),
        Section::Root("b 1.0.0".to_string()),
        Section::Metadata(vec![went("checksum a 1.0.0 (s)", "aa"), went("note", "kept")]),
    ]
}

#[test]
fn a_canonical_document_is_written_as_it_was_read() {
    for doc in [newest(), oldest(), vec![Section::Packages(vec![])]] {
        let lf = Lockfile::from_document(&doc).unwrap();
        assert_eq!(lf.to_document(), doc);
    }
    let v2 = vec![Section::Packages(vec![
        wrec("a", "1.0.0", Some("s"), None, &[]),
        wrec("b", "1.0.0", None, None, &["a 1.0.0 (s)"]),
    ])];
    let lf = Lockfile::from_document(&v2).unwrap();
    assert_eq!(lf.version, ResolveVersion::V2);
    assert_eq!(lf.to_document(), v2);
}

#[test]
fn a_written_record_is_read_back() {
    for doc in [newest(), oldest()] {
        let lf = Lockfile::from_document(&doc).unwrap();
        assert_eq!(Lockfile::from_document(&lf.to_document()), Ok(lf));
    }
}

#[test]
fn translating_to_the_detected_revision_changes_nothing() {
    for doc in [newest(), oldest()] {
        let lf = Lockfile::from_document(&doc).unwrap();
        assert_eq!(lf.translate(lf.version), lf);
        assert_eq!((TranslateCmd { version: None }).run(&lf), doc);
        assert_eq!((TranslateCmd { version: Some(lf.version) }).run(&lf), doc);
    }
}

#[test]
fn checksums_move_into_the_metadata_for_v1() {
    let lf = Lockfile::from_document(&newest()).unwrap();
    let old = lf.translate(ResolveVersion::V1);
    assert_eq!(old.version, ResolveVersion::V1);
    assert!(old.packages.iter().all(|p| p.checksum.is_none()));
    assert_eq!(
        old.metadata.entries,
        vec![
            went("note", "kept"),
            went("checksum a 1.0.0 (s)", "aa"),
            went("checksum c 0.3.0 (t)", "cc"),
        ]
    );
    assert_eq!(old.packages[1].dependencies, lf.packages[1].dependencies);
    assert_eq!(old.patch, lf.patch);
    assert_eq!(
        (TranslateCmd { version: Some(ResolveVersion::V1) }).run(&lf),
        vec![
            Section::Packages(vec![
                wrec("a", "1.0.0", Some("s"), None, &[]),
                wrec("b", "1.0.0", None, None, &["a", "c 0.3.0 (t)"]),
                wrec("c", "0.3.0", Some("t"), None, &[]),
            ]),
            Section::Metadata(vec![
                went("note", "kept"),
                went("checksum a 1.0.0 (s)", "aa"),
                went("checksum c 0.3.0 (t)", "cc"),
            ]),
            Section::Patch(vec![wrec("p", "0.1.0", Some("s"), None, &["a 1.0.0"])]),
        ]
    );
    assert_eq!(Lockfile::from_document(&old.to_document()).unwrap().version, ResolveVersion::V1);
}

#[test]
fn checksums_move_onto_the_packages_for_later_revisions() {
    let lf = Lockfile::from_document(&oldest()).unwrap();
    for target in [ResolveVersion::V2, ResolveVersion::V3] {
        let new = lf.translate(target);
        assert_eq!(new.version, target);
        assert_eq!(new.packages[0].checksum, Some("aa".to_string()));
        assert_eq!(new.packages[1].checksum, None);
        assert_eq!(new.metadata.entries, vec![went("note", "kept")]);
        assert_eq!(new.root, Some(Dependency::parse("b 1.0.0").unwrap()));
        assert_eq!(
            new.to_document(),
            vec![
                Section::Packages(vec![
                    wrec("a", "1.0.0", Some("s"), Some("aa"), &[]),
                    wrec("b", "1.0.0", None, None, &["a 1.0.0 (s)"]),
                ]),
                Section::Metadata(vec![went("note", "kept")]),
            ]
        );
    }
}

#[test]
fn there_and_back_keeps_the_checksums() {
    let lf = Lockfile::from_document(&newest()).unwrap();
    let back = lf.translate(ResolveVersion::V1).translate(ResolveVersion::V3);
    assert_eq!(back, lf);
}

#[test]
fn the_root_is_written_for_v1_only() {
    let doc = vec![
        Section::Packages(vec![wrec("a", "1.0.0", None, Some("aa"), &[])]),
        Section::Root("a 1.0.0".to_string()),
    ];
    let lf = Lockfile::from_document(&doc).unwrap();
    assert_eq!(lf.version, ResolveVersion::V3);
    assert_eq!(lf.root, Some(Dependency::parse("a 1.0.0").unwrap()));
    assert_eq!(
        lf.to_document(),
        vec![Section::Packages(vec![wrec("a", "1.0.0", None, Some("aa"), &[])])]
    );
    assert_eq!(
        lf.translate(ResolveVersion::V1).to_document(),
        vec![
            Section::Packages(vec![wrec("a", "1.0.0", None, None, &[])]),
            Section::Root("a 1.0.0".to_string()),
            Section::Metadata(vec![went("checksum a 1.0.0", "aa")]),
        ]
    );
}

#[test]
fn a_package_keeps_its_own_checksum() {
    let lf = Lockfile {
        version: ResolveVersion::V3,
        packages: vec![cargo_lock::package::Package {
            id: wid("a", "1.0.0", Some("s")),
            checksum: Some("own".to_string()),
            dependencies: vec![],
        }],
        root: None,
        metadata: Metadata { entries: vec![went("checksum a 1.0.0 (s)", "table")] },
        patch: cargo_lock::lockfile::Patch::new(),
    };
    let new = lf.translate(ResolveVersion::V3);
    assert_eq!(new.packages[0].checksum, Some("own".to_string()));
    assert!(new.metadata.entries.is_empty());
    assert_eq!(
        find_legacy_checksum(&lf.metadata, &wid("a", "1.0.0", Some("s"))),
        Some("table".to_string())
    );
    assert_eq!(find_legacy_checksum(&lf.metadata, &wid("a", "1.0.0", None)), None);
}

#[test]
fn records_of_packages() {
    let lf = Lockfile::from_document(&newest()).unwrap();
    assert_eq!(
        to_records(&lf.packages),
        vec![
            wrec("a", "1.0.0", Some("s"), Some("aa"), &[]),
            wrec("b", "1.0.0", None, None, &["a", "c 0.3.0 (t)"]),
            wrec("c", "0.3.0", Some("t"), Some("cc"), &[]),
        ]
    );
}

#[test]
fn what_errors_say() {
    assert_eq!(Error::DuplicateSection(Field::Package).message(), "duplicate section `package`");
    assert_eq!(Error::MissingSection(Field::Package).message(), "missing section `package`");
    assert_eq!(
        Error::FormatConflict.message(),
        "checksums both on packages and in the metadata table"
    );
    assert_eq!(
        Error::UnresolvedDependency {
            from: wid("b", "1.0.0", None),
            reference: Dependency::parse("c").unwrap(),
        }
        .message(),
        "unresolved dependency `c` of `b 1.0.0`"
    );
    assert_eq!(
        Error::AmbiguousDependency {
            from: wid("b", "1.0.0", Some("s")),
            reference: Dependency::parse("a").unwrap(),
            candidates: vec![wid("a", "1.0.0", None), wid("a", "2.0.0", Some("t"))],
        }
        .message(),
        "ambiguous dependency `a` of `b 1.0.0 (s)`, which could be: a 1.0.0, a 2.0.0 (t)"
    );
    assert_eq!(
        Error::InvalidDependencyReference("x  y".to_string()).message(),
        "invalid dependency reference `x  y`"
    );
    assert_eq!(Error::NoPackageNames.message(), "no dependency names given");
    assert_eq!(
        Error::UnknownPackage("x".to_string()).message(),
        "invalid dependency name: `x`"
    );
    assert_eq!(
        Error::NoPackageNames.diagnostic(),
        "*** error: no dependency names given"
    );
    assert_eq!(
        Error::DuplicateSection(Field::Metadata).diagnostic(),
        "*** error: duplicate section `metadata`"
    );
}

#[test]
fn the_crate_root_names_the_main_types() {
    let lf = cargo_lock::Lockfile::from_document(&vec![cargo_lock::Section::Packages(vec![])]);
    assert_eq!(lf.unwrap().version, cargo_lock::ResolveVersion::V3);
    assert_eq!(
        cargo_lock::Dependency::parse("a 1.0.0").unwrap().name,
        cargo_lock::Name::parse("a").unwrap()
    );
    assert_eq!(cargo_lock::Error::FormatConflict, Error::FormatConflict);
}
