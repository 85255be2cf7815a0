use cargo_lock::dependency::Dependency;
use cargo_lock::error::{Error, Field};
use cargo_lock::lockfile::parser::{decode_packages, Builder};
use cargo_lock::lockfile::version::ResolveVersion;
use cargo_lock::lockfile::{Lockfile, Section};
use cargo_lock::metadata::{checksum_key_for, checksum_target, Entry, Metadata};
use cargo_lock::package::{Name, Package, PackageId, PackageRecord, SourceId, Version};

const REGISTRY: &str = "registry+https://github.com/rust-lang/crates.io-index";

fn pid(name: &str, version: &str, source: Option<&str>) -> PackageId {
    PackageId {
        name: Name::parse(name).unwrap(),
        version: Version::parse(version).unwrap(),
        source: source.map(|s| SourceId::parse(s).unwrap()),
    }
}

fn rec(name: &str, version: &str, source: Option<&str>, checksum: Option<&str>, deps: &[&str]) -> PackageRecord {
    PackageRecord {
        id: pid(name, version, source),
        checksum: checksum.map(|c| c.to_string()),
        dependencies: deps.iter().map(|d| d.to_string()).collect(),
    }
}

fn pkg(name: &str, version: &str, source: Option<&str>, checksum: Option<&str>, deps: &[&str]) -> Package {
    Package {
        id: pid(name, version, source),
        checksum: checksum.map(|c| c.to_string()),
        dependencies: deps.iter().map(|d| Dependency::parse(d).unwrap()).collect(),
    }
}

fn entry(key: &str, value: &str) -> Entry {
    Entry { key: key.to_string(), value: value.to_string() }
}

#[test]
fn field_keys() {
    assert_eq!(Field::from_key("package"), Some(Field::Package));
    assert_eq!(Field::from_key("root"), Some(Field::Root));
    assert_eq!(Field::from_key("metadata"), Some(Field::Metadata));
    assert_eq!(Field::from_key("patch"), Some(Field::Patch));
    assert_eq!(Field::from_key("version"), None);
    assert_eq!(Field::from_key("Package"), None);
    assert_eq!(Field::from_key(""), None);
    for f in [Field::Package, Field::Root, Field::Metadata, Field::Patch] {
        assert_eq!(Field::from_key(f.key()), Some(f));
    }
    assert_eq!(Section::Packages(vec![]).field(), Some(Field::Package));
    assert_eq!(Section::Root("a".to_string()).field(), Some(Field::Root));
    assert_eq!(Section::Metadata(vec![]).field(), Some(Field::Metadata));
    assert_eq!(Section::Patch(vec![]).field(), Some(Field::Patch));
    assert_eq!(Section::Other.field(), None);
}

#[test]
fn checksum_keys() {
    let id = pid("serde", "1.0.130", Some(REGISTRY));
    let key = checksum_key_for(&id);
    assert_eq!(
        key,
        "checksum serde 1.0.130 (registry+https://github.com/rust-lang/crates.io-index)"
    );
    assert_eq!(checksum_target(&key), Some(id));
    assert_eq!(checksum_key_for(&pid("a", "1.0.0", None)), "checksum a 1.0.0");
    assert_eq!(checksum_target("checksum a 1.0.0"), Some(pid("a", "1.0.0", None)));
    assert_eq!(checksum_target("checksum a"), None);
    assert_eq!(checksum_target("checksum a (s)"), None);
    assert_eq!(checksum_target("checksum  a 1.0.0"), None);
    assert_eq!(checksum_target("checksum"), None);
    assert_eq!(checksum_target("checksums a 1.0.0"), None);
    assert_eq!(checksum_target("a 1.0.0"), None);
}

#[test]
fn metadata_lookup_finds_first() {
    let m = Metadata { entries: vec![entry("k", "1"), entry("l", "2"), entry("k", "3")] };
    assert_eq!(m.get("k"), Some("1".to_string()));
    assert_eq!(m.get("l"), Some("2".to_string()));
    assert_eq!(m.get("m"), None);
    assert!(!m.has_checksum_key());
    assert!(Metadata { entries: vec![entry("k", "1"), entry("checksum a 1.0.0 (s)", "ff")] }
        .has_checksum_key());
    assert!(!Metadata::new().has_checksum_key());
    assert_eq!(m.clone(), m);
}

#[test]
fn detects_newest_for_inline_checksums_with_full_references() {
    let packages = vec![
        pkg("a", "1.0.0", Some(REGISTRY), Some("aa"), &[]),
        pkg("b", "1.0.0", Some(REGISTRY), Some("bb"),
            &["a 1.0.0 (registry+https://github.com/rust-lang/crates.io-index)"]),
    ];
    assert_eq!(ResolveVersion::detect(&packages, &Metadata::new()), Ok(ResolveVersion::V3));
}

#[test]
fn detects_newest_for_inline_checksums_with_compact_references() {
    let packages = vec![
        pkg("a", "1.0.0", Some(REGISTRY), Some("aa"), &[]),
        pkg("b", "1.0.0", Some(REGISTRY), Some("bb"), &["a"]),
    ];
    assert_eq!(ResolveVersion::detect(&packages, &Metadata::new()), Ok(ResolveVersion::V3));
}

#[test]
fn detects_v1_for_checksum_keys_in_metadata() {
    let packages = vec![
        pkg("a", "1.0.0", Some(REGISTRY), None, &[]),
        pkg("b", "1.0.0", None, None,
            &["a 1.0.0 (registry+https://github.com/rust-lang/crates.io-index)"]),
    ];
    let metadata = Metadata {
        entries: vec![entry(
            "checksum a 1.0.0 (registry+https://github.com/rust-lang/crates.io-index)",
            "aa",
        )],
    };
    assert_eq!(ResolveVersion::detect(&packages, &metadata), Ok(ResolveVersion::V1));
    assert_eq!(ResolveVersion::detect(&vec![], &metadata), Ok(ResolveVersion::V1));
}

#[test]
fn refuses_checksums_in_both_places() {
    let packages = vec![pkg("a", "1.0.0", Some(REGISTRY), Some("aa"), &[])];
    let metadata = Metadata { entries: vec![entry("checksum b 1.0.0 (s)", "bb")] };
    assert_eq!(ResolveVersion::detect(&packages, &metadata), Err(Error::FormatConflict));
}

#[test]
fn detects_v2_without_checksums_when_references_spell_sources() {
    let packages = vec![
        pkg("a", "1.0.0", Some("s"), None, &[]),
        pkg("b", "1.0.0", None, None, &["a 1.0.0 (s)"]),
    ];
    assert_eq!(ResolveVersion::detect(&packages, &Metadata::new()), Ok(ResolveVersion::V2));
    let mixed = vec![
        pkg("a", "1.0.0", Some("s"), None, &[]),
        pkg("b", "1.0.0", None, None, &["a 1.0.0 (s)", "a"]),
    ];
    assert_eq!(ResolveVersion::detect(&mixed, &Metadata::new()), Ok(ResolveVersion::V3));
}

#[test]
fn defaults_to_newest_when_nothing_tells() {
    assert_eq!(ResolveVersion::detect(&vec![], &Metadata::new()), Ok(ResolveVersion::V3));
    let packages = vec![pkg("a", "1.0.0", None, None, &[]), pkg("b", "1.0.0", None, None, &["a 1.0.0"])];
    assert_eq!(ResolveVersion::detect(&packages, &Metadata::new()), Ok(ResolveVersion::V3));
    let plain = Metadata { entries: vec![entry("note", "x"), entry("checksum", "y")] };
    assert_eq!(ResolveVersion::detect(&packages, &plain), Ok(ResolveVersion::V3));
    assert_eq!(ResolveVersion::default(), ResolveVersion::V3);
}

#[test]
fn revision_numbers() {
    assert_eq!(ResolveVersion::V1.number(), 1);
    assert_eq!(ResolveVersion::V2.number(), 2);
    assert_eq!(ResolveVersion::V3.number(), 3);
    assert_eq!(ResolveVersion::from_number(1), Some(ResolveVersion::V1));
    assert_eq!(ResolveVersion::from_number(2), Some(ResolveVersion::V2));
    assert_eq!(ResolveVersion::from_number(3), Some(ResolveVersion::V3));
    assert_eq!(ResolveVersion::from_number(0), None);
    assert_eq!(ResolveVersion::from_number(4), None);
}

#[test]
fn decodes_records_in_order() {
    let r = rec("b", "1.0.0", Some("s"), Some("bb"), &["a", "c 2.0.0 (t)"]);
    assert_eq!(
        Package::from_record(&r),
        Ok(pkg("b", "1.0.0", Some("s"), Some("bb"), &["a", "c 2.0.0 (t)"]))
    );
    let p = Package::from_record(&r).unwrap();
    assert_eq!(p.to_record(), r);
    assert_eq!(p.clone(), p);
    let bad = rec("b", "1.0.0", None, None, &["a", "x y z w", "also  bad"]);
    assert_eq!(
        Package::from_record(&bad),
        Err(Error::InvalidDependencyReference("x y z w".to_string()))
    );
    assert_eq!(
        decode_packages(&vec![r, bad]),
        Err(Error::InvalidDependencyReference("x y z w".to_string()))
    );
    assert_eq!(decode_packages(&vec![]), Ok(vec![]));
}

#[test]
fn reads_a_document() {
    let doc = vec![
        Section::Metadata(vec![entry("note", "x")]),
        Section::Other,
        Section::Packages(vec![
            rec("a", "1.0.0", Some("s"), Some("aa"), &[]),
            rec("b", "1.0.0", None, None, &["a"]),
        ]),
        Section::Patch(vec![rec("c", "0.1.0", None, None, &[])]),
    ];
    let lf = Lockfile::from_document(&doc).unwrap();
    assert_eq!(lf.version, ResolveVersion::V3);
    assert_eq!(
        lf.packages,
        vec![pkg("a", "1.0.0", Some("s"), Some("aa"), &[]), pkg("b", "1.0.0", None, None, &["a"])]
    );
    assert_eq!(lf.root, None);
    assert_eq!(lf.metadata.entries, vec![entry("note", "x")]);
    assert_eq!(lf.patch.unused, vec![pkg("c", "0.1.0", None, None, &[])]);
}

#[test]
fn metadata_and_patch_default_to_empty() {
    let lf = Lockfile::from_document(&vec![Section::Packages(vec![])]).unwrap();
    assert_eq!(lf.version, ResolveVersion::V3);
    assert!(lf.packages.is_empty());
    assert!(lf.metadata.entries.is_empty());
    assert!(lf.patch.unused.is_empty());
    assert_eq!(lf.root, None);
}

#[test]
fn reads_the_legacy_root() {
    let doc = vec![
        Section::Root("top 0.1.0".to_string()),
        Section::Packages(vec![rec("a", "1.0.0", Some("s"), None, &[])]),
        Section::Metadata(vec![entry("checksum a 1.0.0 (s)", "aa")]),
    ];
    let lf = Lockfile::from_document(&doc).unwrap();
    assert_eq!(lf.version, ResolveVersion::V1);
    assert_eq!(lf.root, Some(Dependency::parse("top 0.1.0").unwrap()));
    assert_eq!(lf.packages[0].checksum, None);
}

#[test]
fn two_package_sections_are_a_duplicate() {
    let doc = vec![Section::Packages(vec![]), Section::Packages(vec![])];
    assert_eq!(Lockfile::from_document(&doc), Err(Error::DuplicateSection(Field::Package)));
}

#[test]
fn every_recognised_section_may_come_once() {
    for (section, field) in [
        (Section::Root("a".to_string()), Field::Root),
        (Section::Metadata(vec![]), Field::Metadata),
        (Section::Patch(vec![]), Field::Patch),
    ] {
        let again = match field {
            Field::Root => Section::Root("b".to_string()),
            Field::Metadata => Section::Metadata(vec![entry("k", "v")]),
            _ => Section::Patch(vec![]),
        };
        let doc = vec![Section::Packages(vec![]), section, Section::Other, again];
        assert_eq!(Lockfile::from_document(&doc), Err(Error::DuplicateSection(field)));
    }
}

#[test]
fn a_duplicate_is_refused_whatever_it_holds() {
    let doc = vec![
        Section::Packages(vec![]),
        Section::Packages(vec![rec("a", "1.0.0", None, None, &["not a reference at all"])]),
    ];
    assert_eq!(Lockfile::from_document(&doc), Err(Error::DuplicateSection(Field::Package)));
}

#[test]
fn the_first_failure_decides() {
    let doc = vec![
        Section::Packages(vec![rec("a", "1.0.0", None, None, &["b  c"])]),
        Section::Packages(vec![]),
    ];
    assert_eq!(
        Lockfile::from_document(&doc),
        Err(Error::InvalidDependencyReference("b  c".to_string()))
    );
    let doc = vec![Section::Root("".to_string()), Section::Metadata(vec![]), Section::Metadata(vec![])];
    assert_eq!(
        Lockfile::from_document(&doc),
        Err(Error::InvalidDependencyReference("".to_string()))
    );
}

#[test]
fn no_package_section_is_missing() {
    assert_eq!(Lockfile::from_document(&vec![]), Err(Error::MissingSection(Field::Package)));
    let doc = vec![Section::Metadata(vec![]), Section::Other, Section::Patch(vec![])];
    assert_eq!(Lockfile::from_document(&doc), Err(Error::MissingSection(Field::Package)));
}

#[test]
fn unknown_sections_are_ignored() {
    let base = vec![Section::Packages(vec![rec("a", "1.0.0", None, None, &[])])];
    let noisy = vec![
        Section::Other,
        Section::Packages(vec![rec("a", "1.0.0", None, None, &[])]),
        Section::Other,
        Section::Other,
    ];
    assert_eq!(Lockfile::from_document(&noisy), Lockfile::from_document(&base));
}

#[test]
fn conflicting_checksums_fail_the_reading() {
    let doc = vec![
        Section::Packages(vec![rec("a", "1.0.0", Some("s"), Some("aa"), &[])]),
        Section::Metadata(vec![entry("checksum a 1.0.0 (s)", "aa")]),
    ];
    assert_eq!(Lockfile::from_document(&doc), Err(Error::FormatConflict));
}

#[test]
fn the_order_of_sections_does_not_matter() {
    let a = vec![
        Section::Packages(vec![rec("a", "1.0.0", Some("s"), None, &[])]),
        Section::Root("a 1.0.0 (s)".to_string()),
        Section::Metadata(vec![entry("checksum a 1.0.0 (s)", "aa")]),
        Section::Patch(vec![rec("p", "0.1.0", None, None, &[])]),
    ];
    let b = vec![
        Section::Patch(vec![rec("p", "0.1.0", None, None, &[])]),
        Section::Metadata(vec![entry("checksum a 1.0.0 (s)", "aa")]),
        Section::Root("a 1.0.0 (s)".to_string()),
        Section::Packages(vec![rec("a", "1.0.0", Some("s"), None, &[])]),
    ];
    assert!(Lockfile::from_document(&a).is_ok());
    assert_eq!(Lockfile::from_document(&a), Lockfile::from_document(&b));
}

#[test]
fn builder_reads_section_by_section() {
    let mut b = Builder::new();
    assert_eq!(b.expect(Field::Package), Ok(()));
    assert_eq!(b.accept(&Section::Other), Ok(()));
    assert_eq!(b.accept(&Section::Packages(vec![rec("a", "1.0.0", None, None, &[])])), Ok(()));
    assert_eq!(b.expect(Field::Package), Err(Error::DuplicateSection(Field::Package)));
    assert_eq!(b.expect(Field::Metadata), Ok(()));
    assert_eq!(
        b.accept(&Section::Root("x y z w".to_string())),
        Err(Error::InvalidDependencyReference("x y z w".to_string()))
    );
    assert_eq!(b.expect(Field::Root), Ok(()));
    assert_eq!(b.accept(&Section::Root("a".to_string())), Ok(()));
    assert_eq!(
        b.accept(&Section::Root("a".to_string())),
        Err(Error::DuplicateSection(Field::Root))
    );
    let lf = b.finish().unwrap();
    assert_eq!(lf.packages, vec![pkg("a", "1.0.0", None, None, &[])]);
    assert_eq!(lf.root, Some(Dependency::parse("a").unwrap()));
    assert_eq!(Builder::new().finish(), Err(Error::MissingSection(Field::Package)));
}

#[test]
fn detection_goes_by_the_first_rule_that_applies() {
    for legacy in [false, true] {
        for inline in [false, true] {
            for lacks in [false, true] {
                for names in [false, true] {
                    let mut deps: Vec<&str> = vec!["a 1.0.0"];
                    if lacks {
                        deps.push("a");
                    }
                    if names {
                        deps.push("a 1.0.0 (s)");
                    }
                    let packages = vec![
                        pkg("a", "1.0.0", Some("s"), if inline { Some("aa") } else { None }, &[]),
                        pkg("b", "1.0.0", None, None, &deps),
                    ];
                    let metadata = Metadata {
                        entries: if legacy {
                            vec![entry("note", "x"), entry("checksum a 1.0.0 (s)", "aa")]
                        } else {
                            vec![entry("note", "x")]
                        },
                    };
                    let expected = if legacy && inline {
                        Err(Error::FormatConflict)
                    } else if legacy {
                        Ok(ResolveVersion::V1)
                    } else if inline {
                        Ok(ResolveVersion::V3)
                    } else if !lacks && names {
                        Ok(ResolveVersion::V2)
                    } else {
                        Ok(ResolveVersion::V3)
                    };
                    assert_eq!(
                        ResolveVersion::detect(&packages, &metadata),
                        expected,
                        "{} {} {} {}",
                        legacy,
                        inline,
                        lacks,
                        names
                    );
                }
            }
        }
    }
}
