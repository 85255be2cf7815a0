use cargo_lock::dependency::Dependency;
use cargo_lock::error::Error;
use cargo_lock::package::{Name, PackageId, SourceId, Version};

fn dep(name: &str, version: Option<&str>, source: Option<&str>) -> Dependency {
    Dependency {
        name: Name::parse(name).unwrap(),
        version: version.map(|v| Version::parse(v).unwrap()),
        source: source.map(|s| SourceId::parse(s).unwrap()),
    }
}

#[test]
fn parses_name_only() {
    assert_eq!(Dependency::parse("serde"), Ok(dep("serde", None, None)));
}

#[test]
fn parses_name_and_version() {
    assert_eq!(Dependency::parse("serde 1.0.130"), Ok(dep("serde", Some("1.0.130"), None)));
}

#[test]
fn parses_name_and_source() {
    assert_eq!(
        Dependency::parse("serde (registry+https://example.com/index)"),
        Ok(dep("serde", None, Some("registry+https://example.com/index")))
    );
}

#[test]
fn parses_full_reference() {
    assert_eq!(
        Dependency::parse("serde 1.0.130 (registry+https://example.com/index)"),
        Ok(dep("serde", Some("1.0.130"), Some("registry+https://example.com/index")))
    );
}

#[test]
fn rejects_malformed_references() {
    for text in [
        "",
        " serde",
        "serde ",
        "serde  1.0.0",
        "serde one",
        "serde 1.0.0 source",
        "serde 1.0.0 (source",
        "serde 1.0.0 source)",
        "serde 1.0.0 ()",
        "serde 1.0.0 (a) b",
        "serde (a) 1.0.0",
        "(serde)",
        "serde 1.0.0 (a b)",
    ] {
        assert_eq!(
            Dependency::parse(text),
            Err(Error::InvalidDependencyReference(text.to_string())),
            "{:?}",
            text
        );
    }
}

#[test]
fn writes_compact_text() {
    assert_eq!(dep("serde", None, None).to_string(), "serde");
    assert_eq!(dep("serde", Some("1.0.0"), None).to_string(), "serde 1.0.0");
    assert_eq!(dep("serde", None, Some("src")).to_string(), "serde (src)");
    assert_eq!(dep("serde", Some("1.0.0"), Some("src")).to_string(), "serde 1.0.0 (src)");
}

#[test]
fn text_round_trips() {
    for text in ["a", "a 0.1.0", "a (s)", "a 0.1.0-pre+b (git+https://x/y#rev)"] {
        assert_eq!(Dependency::parse(text).unwrap().to_string(), text);
    }
    for d in [dep("a", None, None), dep("a", Some("1.2.3"), Some("s"))] {
        assert_eq!(Dependency::parse(&d.to_string()), Ok(d.clone()));
    }
}

#[test]
fn admits_by_the_parts_given() {
    let with_source = PackageId {
        name: Name::parse("a").unwrap(),
        version: Version::parse("1.0.0").unwrap(),
        source: Some(SourceId::parse("s").unwrap()),
    };
    let without_source = PackageId {
        name: Name::parse("a").unwrap(),
        version: Version::parse("1.0.0").unwrap(),
        source: None,
    };
    assert!(dep("a", None, None).admits(&with_source));
    assert!(dep("a", None, None).admits(&without_source));
    assert!(dep("a", Some("1.0.0"), None).admits(&with_source));
    assert!(!dep("a", Some("2.0.0"), None).admits(&with_source));
    assert!(dep("a", None, Some("s")).admits(&with_source));
    assert!(!dep("a", None, Some("t")).admits(&with_source));
    assert!(!dep("a", None, Some("s")).admits(&without_source));
    assert!(!dep("b", None, None).admits(&with_source));
}

#[test]
fn full_reference_names_every_part() {
    let id = PackageId {
        name: Name::parse("a").unwrap(),
        version: Version::parse("1.0.0").unwrap(),
        source: Some(SourceId::parse("s").unwrap()),
    };
    assert_eq!(Dependency::from_id(&id), dep("a", Some("1.0.0"), Some("s")));
    assert!(Dependency::from_id(&id).admits(&id));
    assert!(id.same(&id.clone()));
    assert!(dep("a", None, None).same(&dep("a", None, None)));
    assert!(!dep("a", None, None).same(&dep("a", Some("1.0.0"), None)));
}
