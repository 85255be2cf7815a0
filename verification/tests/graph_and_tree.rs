use cargo_lock::command::{find_package, ListCmd, TranslateCmd, TreeCmd};
use cargo_lock::dependency::graph::{has_unique_identities, EdgeDirection, Graph};
use cargo_lock::dependency::tree::{Tree, Visit};
use cargo_lock::dependency::Dependency;
use cargo_lock::error::Error;
use cargo_lock::lockfile::version::ResolveVersion;
use cargo_lock::lockfile::{Lockfile, Section};
use cargo_lock::package::{Name, Package, PackageId, PackageRecord, SourceId, Version};

fn gid(name: &str, version: &str, source: Option<&str>) -> PackageId {
    PackageId {
        name: Name::parse(name).unwrap(),
        version: Version::parse(version).unwrap(),
        source: source.map(|s| SourceId::parse(s).unwrap()),
    }
}

fn gpkg(name: &str, version: &str, source: Option<&str>, deps: &[&str]) -> Package {
    Package {
        id: gid(name, version, source),
        checksum: None,
        dependencies: deps.iter().map(|d| Dependency::parse(d).unwrap()).collect(),
    }
}

fn grec(name: &str, version: &str, deps: &[&str]) -> PackageRecord {
    PackageRecord {
        id: gid(name, version, None),
        checksum: None,
        dependencies: deps.iter().map(|d| d.to_string()).collect(),
    }
}

fn cycle() -> Vec<Package> {
    vec![
        gpkg("a", "1.0.0", None, &["b"]),
        gpkg("b", "1.0.0", None, &["c"]),
        gpkg("c", "1.0.0", None, &["a"]),
    ]
}

fn diamond() -> Vec<Package> {
    vec![
        gpkg("a", "1.0.0", None, &["c", "b"]),
        gpkg("b", "1.0.0", None, &["d"]),
        gpkg("c", "1.0.0", None, &["d"]),
        gpkg("d", "1.0.0", None, &[]),
    ]
}

fn visit(depth: usize, node: usize, repeated: bool) -> Visit {
    Visit { depth, node, repeated }
}

#[test]
fn a_name_alone_resolves_when_unique() {
    let packages = vec![gpkg("a", "1.0.0", None, &[]), gpkg("b", "1.0.0", None, &["a"])];
    let g = Graph::build(&packages).unwrap();
    assert_eq!(g.len(), 2);
    assert_eq!(g.neighbors(1, EdgeDirection::Outgoing), Some(&vec![0]));
    assert_eq!(g.neighbors(0, EdgeDirection::Outgoing), Some(&vec![]));
    assert_eq!(g.neighbors(0, EdgeDirection::Incoming), Some(&vec![1]));
    assert_eq!(g.neighbors(1, EdgeDirection::Incoming), Some(&vec![]));
    assert_eq!(g.neighbors(2, EdgeDirection::Incoming), None);
    assert_eq!(g.node(0), Some(&gid("a", "1.0.0", None)));
    assert_eq!(g.node(2), None);
    assert_eq!(g.nodes(), &vec![gid("a", "1.0.0", None), gid("b", "1.0.0", None)]);
}

#[test]
fn a_second_version_makes_the_name_ambiguous() {
    let packages = vec![
        gpkg("a", "1.0.0", None, &[]),
        gpkg("b", "1.0.0", None, &["a"]),
        gpkg("a", "2.0.0", None, &[]),
    ];
    assert_eq!(
        Graph::build(&packages),
        Err(Error::AmbiguousDependency {
            from: gid("b", "1.0.0", None),
            reference: Dependency::parse("a").unwrap(),
            candidates: vec![gid("a", "1.0.0", None), gid("a", "2.0.0", None)],
        })
    );
}

#[test]
fn a_version_settles_the_ambiguity() {
    let packages = vec![
        gpkg("a", "1.0.0", None, &[]),
        gpkg("b", "1.0.0", None, &["a 2.0.0"]),
        gpkg("a", "2.0.0", None, &[]),
    ];
    let g = Graph::build(&packages).unwrap();
    assert_eq!(g.neighbors(1, EdgeDirection::Outgoing), Some(&vec![2]));
    assert_eq!(g.neighbors(2, EdgeDirection::Incoming), Some(&vec![1]));
    assert_eq!(g.neighbors(0, EdgeDirection::Incoming), Some(&vec![]));
}

#[test]
fn sources_alone_leave_a_reference_ambiguous_unless_given() {
    let packages = vec![
        gpkg("a", "1.0.0", Some("s"), &[]),
        gpkg("a", "1.0.0", Some("t"), &[]),
        gpkg("b", "1.0.0", None, &["a 1.0.0"]),
    ];
    assert_eq!(
        Graph::build(&packages),
        Err(Error::AmbiguousDependency {
            from: gid("b", "1.0.0", None),
            reference: Dependency::parse("a 1.0.0").unwrap(),
            candidates: vec![gid("a", "1.0.0", Some("s")), gid("a", "1.0.0", Some("t"))],
        })
    );
    let packages = vec![
        gpkg("a", "1.0.0", Some("s"), &[]),
        gpkg("a", "1.0.0", Some("t"), &[]),
        gpkg("b", "1.0.0", None, &["a 1.0.0 (t)"]),
    ];
    let g = Graph::build(&packages).unwrap();
    assert_eq!(g.neighbors(2, EdgeDirection::Outgoing), Some(&vec![1]));
}

#[test]
fn a_reference_to_nothing_is_unresolved() {
    let packages = vec![gpkg("a", "1.0.0", None, &[]), gpkg("b", "1.0.0", None, &["c"])];
    assert_eq!(
        Graph::build(&packages),
        Err(Error::UnresolvedDependency {
            from: gid("b", "1.0.0", None),
            reference: Dependency::parse("c").unwrap(),
        })
    );
}

#[test]
fn the_first_failing_reference_is_reported() {
    let packages = vec![
        gpkg("a", "1.0.0", None, &["a", "x", "y"]),
        gpkg("b", "1.0.0", None, &["z"]),
    ];
    assert_eq!(
        Graph::build(&packages),
        Err(Error::UnresolvedDependency {
            from: gid("a", "1.0.0", None),
            reference: Dependency::parse("x").unwrap(),
        })
    );
}

#[test]
fn edges_keep_their_order() {
    let g = Graph::build(&diamond()).unwrap();
    assert_eq!(g.neighbors(0, EdgeDirection::Outgoing), Some(&vec![2, 1]));
    assert_eq!(g.neighbors(3, EdgeDirection::Incoming), Some(&vec![1, 2]));
    let twice = vec![gpkg("a", "1.0.0", None, &["b", "b 1.0.0"]), gpkg("b", "1.0.0", None, &[])];
    let g = Graph::build(&twice).unwrap();
    assert_eq!(g.neighbors(0, EdgeDirection::Outgoing), Some(&vec![1, 1]));
    assert_eq!(g.neighbors(1, EdgeDirection::Incoming), Some(&vec![0]));
}

#[test]
fn the_empty_list_has_the_empty_graph() {
    let g = Graph::build(&vec![]).unwrap();
    assert_eq!(g.len(), 0);
    assert_eq!(g.neighbors(0, EdgeDirection::Outgoing), None);
    let t = Tree::new(&vec![]).unwrap();
    assert_eq!(t.walk(0, EdgeDirection::Outgoing), None);
    assert_eq!(t.render(0, EdgeDirection::Outgoing), None);
}

#[test]
fn a_cycle_is_cut_where_it_closes() {
    let t = Tree::new(&cycle()).unwrap();
    assert_eq!(
        t.walk(0, EdgeDirection::Outgoing),
        Some(vec![visit(0, 0, false), visit(1, 1, false), visit(2, 2, false), visit(3, 0, true)])
    );
    assert_eq!(
        t.render(0, EdgeDirection::Outgoing),
        Some("a 1.0.0\n  b 1.0.0\n    c 1.0.0\n      a 1.0.0 (*)\n".to_string())
    );
    assert_eq!(
        t.walk(0, EdgeDirection::Incoming),
        Some(vec![visit(0, 0, false), visit(1, 2, false), visit(2, 1, false), visit(3, 0, true)])
    );
}

#[test]
fn a_package_that_depends_on_itself() {
    let t = Tree::new(&vec![gpkg("a", "1.0.0", None, &["a"])]).unwrap();
    assert_eq!(
        t.walk(0, EdgeDirection::Outgoing),
        Some(vec![visit(0, 0, false), visit(1, 0, true)])
    );
    assert_eq!(t.render(0, EdgeDirection::Incoming), Some("a 1.0.0\n  a 1.0.0 (*)\n".to_string()));
}

#[test]
fn a_node_reached_twice_is_drawn_twice() {
    let t = Tree::new(&diamond()).unwrap();
    assert_eq!(
        t.walk(0, EdgeDirection::Outgoing),
        Some(vec![
            visit(0, 0, false),
            visit(1, 2, false),
            visit(2, 3, false),
            visit(1, 1, false),
            visit(2, 3, false),
        ])
    );
    assert_eq!(
        t.render(0, EdgeDirection::Outgoing),
        Some("a 1.0.0\n  c 1.0.0\n    d 1.0.0\n  b 1.0.0\n    d 1.0.0\n".to_string())
    );
    assert_eq!(
        t.render(3, EdgeDirection::Incoming),
        Some("d 1.0.0\n  b 1.0.0\n    a 1.0.0\n  c 1.0.0\n    a 1.0.0\n".to_string())
    );
    assert_eq!(t.render(3, EdgeDirection::Outgoing), Some("d 1.0.0\n".to_string()));
    assert_eq!(t.render(4, EdgeDirection::Outgoing), None);
}

#[test]
fn lines_name_the_source() {
    let packages = vec![gpkg("a", "1.0.0", Some("s"), &[]), gpkg("b", "0.2.0", None, &["a"])];
    let t = Tree::new(&packages).unwrap();
    assert_eq!(
        t.render(1, EdgeDirection::Outgoing),
        Some("b 0.2.0\n  a 1.0.0 (s)\n".to_string())
    );
}

#[test]
fn nodes_are_found_by_identity() {
    let t = Tree::new(&diamond()).unwrap();
    assert_eq!(t.index_of(&gid("c", "1.0.0", None)), Some(2));
    assert_eq!(t.index_of(&gid("c", "1.0.1", None)), None);
    assert_eq!(t.index_of(&gid("c", "1.0.0", Some("s"))), None);
    assert_eq!(t.nodes().len(), 4);
    assert_eq!(t.graph().len(), 4);
}

fn lockfile_of(records: Vec<PackageRecord>) -> Lockfile {
    Lockfile::from_document(&vec![Section::Packages(records)]).unwrap()
}

#[test]
fn the_tree_of_a_record() {
    let lf = lockfile_of(vec![grec("a", "1.0.0", &[]), grec("b", "1.0.0", &["a"])]);
    let t = lf.dependency_tree().unwrap();
    assert_eq!(t.render(0, EdgeDirection::Incoming), Some("a 1.0.0\n  b 1.0.0\n".to_string()));
    let broken = lockfile_of(vec![grec("b", "1.0.0", &["a"])]);
    assert_eq!(
        broken.dependency_tree(),
        Err(Error::UnresolvedDependency {
            from: gid("b", "1.0.0", None),
            reference: Dependency::parse("a").unwrap(),
        })
    );
}

#[test]
fn listing_works_without_a_graph() {
    let broken = lockfile_of(vec![
        grec("b", "1.0.0", &["nowhere"]),
        PackageRecord { id: gid("a", "0.1.0", Some("s")), checksum: None, dependencies: vec![] },
    ]);
    assert_eq!(
        (ListCmd {}).run(&broken),
        vec!["b 1.0.0".to_string(), "a 0.1.0 (s)".to_string()]
    );
    assert_eq!((ListCmd {}).run(&lockfile_of(vec![])), Vec::<String>::new());
    let doc = (TranslateCmd { version: Some(ResolveVersion::V1) }).run(&broken);
    assert_eq!(doc.len(), 1);
}

#[test]
fn find_package_takes_the_first_of_a_name() {
    let packages = vec![
        gpkg("a", "1.0.0", None, &[]),
        gpkg("b", "1.0.0", None, &[]),
        gpkg("b", "2.0.0", None, &[]),
    ];
    assert_eq!(find_package(&packages, &Name::parse("b").unwrap()), Some(1));
    assert_eq!(find_package(&packages, &Name::parse("c").unwrap()), None);
}

fn names(list: &[&str]) -> Vec<Name> {
    list.iter().map(|n| Name::parse(n).unwrap()).collect()
}

#[test]
fn trees_of_named_packages() {
    let lf = lockfile_of(vec![
        grec("a", "1.0.0", &["c", "b"]),
        grec("b", "1.0.0", &["d"]),
        grec("c", "1.0.0", &["d"]),
        grec("d", "1.0.0", &[]),
    ]);
    let cmd = TreeCmd { dependencies: names(&["d", "b"]), direction: EdgeDirection::Incoming };
    assert_eq!(
        cmd.run(&lf),
        Ok("d 1.0.0\n  b 1.0.0\n    a 1.0.0\n  c 1.0.0\n    a 1.0.0\n\nb 1.0.0\n  a 1.0.0\n".to_string())
    );
    let cmd = TreeCmd { dependencies: names(&["a"]), direction: EdgeDirection::Outgoing };
    assert_eq!(
        cmd.run(&lf),
        Ok("a 1.0.0\n  c 1.0.0\n    d 1.0.0\n  b 1.0.0\n    d 1.0.0\n".to_string())
    );
}

#[test]
fn the_tree_command_fails_in_order() {
    let lf = lockfile_of(vec![grec("a", "1.0.0", &[]), grec("b", "1.0.0", &["a"])]);
    let none = TreeCmd { dependencies: vec![], direction: EdgeDirection::Incoming };
    assert_eq!(none.run(&lf), Err(Error::NoPackageNames));
    let unknown = TreeCmd { dependencies: names(&["a", "x", "y"]), direction: EdgeDirection::Incoming };
    assert_eq!(unknown.run(&lf), Err(Error::UnknownPackage("x".to_string())));
    let broken = lockfile_of(vec![grec("b", "1.0.0", &["a"])]);
    assert_eq!(
        none.run(&broken),
        Err(Error::UnresolvedDependency {
            from: gid("b", "1.0.0", None),
            reference: Dependency::parse("a").unwrap(),
        })
    );
}

#[test]
fn identities_are_ordered_by_name_version_source() {
    let ids = [
        gid("a", "1.0.0", None),
        gid("a", "1.0.0", Some("s")),
        gid("a", "1.0.0", Some("t")),
        gid("a", "1.0.1", None),
        gid("a", "1.2.0", None),
        gid("ab", "0.1.0", None),
        gid("b", "0.1.0", None),
    ];
    for i in 0..ids.len() {
        for j in 0..ids.len() {
            assert_eq!(ids[i].precedes(&ids[j]), i < j, "{} {}", i, j);
            assert_eq!(ids[i].precedes(&ids[j]), ids[i] < ids[j]);
            assert_eq!(ids[i].same(&ids[j]), i == j);
        }
    }
}

#[test]
fn unique_identities() {
    assert!(has_unique_identities(&vec![]));
    assert!(has_unique_identities(&diamond()));
    assert!(has_unique_identities(&vec![
        gpkg("a", "1.0.0", None, &[]),
        gpkg("a", "1.0.0", Some("s"), &[]),
        gpkg("a", "2.0.0", None, &[]),
    ]));
    assert!(!has_unique_identities(&vec![
        gpkg("a", "1.0.0", None, &[]),
        gpkg("b", "1.0.0", None, &[]),
        gpkg("a", "1.0.0", None, &["b"]),
    ]));
}

#[test]
fn a_full_reference_without_source_admits_a_sourced_twin() {
    let packages = vec![
        gpkg("a", "1.0.0", None, &[]),
        gpkg("a", "1.0.0", Some("s"), &[]),
        gpkg("b", "1.0.0", None, &["a 1.0.0 (s)"]),
    ];
    assert!(Graph::build(&packages).is_ok());
    let packages = vec![
        gpkg("a", "1.0.0", None, &[]),
        gpkg("a", "1.0.0", Some("s"), &[]),
        gpkg("b", "1.0.0", None, &["a 1.0.0"]),
    ];
    assert!(matches!(Graph::build(&packages), Err(Error::AmbiguousDependency { .. })));
}
