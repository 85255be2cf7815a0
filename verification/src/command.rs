//! What the three commands compute from a record: the list of its
//! packages, its document in a chosen revision, and the trees of named
//! packages.

use crate::dependency::graph::{graph_of, EdgeDirection, GraphView};
use crate::dependency::tree::{lines, walk};
use crate::dependency::{dep_text, full_reference, Dependency};
use crate::error::{Error, ErrorView};
use crate::lockfile::encoding::{encode, lemma_translate_twice};
use crate::lockfile::version::ResolveVersion;
use crate::lockfile::{Lockfile, LockfileView, Section};
use crate::package::{Name, Package, PackageView};
use crate::text::views;
use vstd::prelude::*;
use vstd::string::*;

verus! {

/// The line that lists a package: its name and version, and its source in
/// parentheses if it has one.
pub open spec fn list_line(p: PackageView) -> Seq<char> {
    dep_text(full_reference(p.id))
}

/// The lines that list the packages, in their order.
pub open spec fn list_lines(packages: Seq<PackageView>) -> Seq<Seq<char>> {
    Seq::new(packages.len(), |i: int| list_line(packages[i]))
}

/// The command that lists the packages of a record.
#[derive(Debug, PartialEq, Eq)]
pub struct ListCmd {}

impl ListCmd {
    /// One line for each package, in the order of the record.
    pub fn run(&self, lockfile: &Lockfile) -> (r: Vec<String>)
        ensures
            views(r@) == list_lines(lockfile@.packages),
    {
        let n: usize = lockfile.packages.len();
        let mut out: Vec<String> = Vec::new();
        let mut i: usize = 0;
        while i < n
            invariant
                i <= n,
                n == lockfile.packages.len(),
                out.len() == i,
                forall|j: int| 0 <= j < i ==> (#[trigger] out[j])@ == list_line(lockfile.packages[j]@),
            decreases n - i,
        {
            out.push(Dependency::from_id(&lockfile.packages[i].id).to_string());
            i += 1;
        }
        assert(views(out@) =~= list_lines(lockfile@.packages));
        out
    }
}

/// The command that writes a record in a revision: the given one, or that
/// of the record where none is given.
#[derive(Debug, PartialEq, Eq)]
pub struct TranslateCmd {
    pub version: Option<ResolveVersion>,
}

/// The revision that a translation writes.
pub open spec fn target_version(wanted: Option<ResolveVersion>, lf: LockfileView) -> ResolveVersion {
    match wanted {
        Some(v) => v,
        None => lf.version,
    }
}

impl TranslateCmd {
    /// The document of the record in the revision of the command.
    pub fn run(&self, lockfile: &Lockfile) -> (doc: Vec<Section>)
        ensures
            views(doc@) == encode(
                LockfileView { version: target_version(self.version, lockfile@), ..lockfile@ },
            ),
    {
        let target = match self.version {
            Some(v) => v,
            None => lockfile.version,
        };
        let doc = lockfile.translate(target).to_document();
        proof {
            lemma_translate_twice(lockfile@, target);
        }
        doc
    }
}

/// Some package has the name `name`.
pub open spec fn has_named(packages: Seq<PackageView>, name: Seq<char>) -> bool {
    exists|k: int| 0 <= k < packages.len() && (#[trigger] packages[k]).id.name == name
}

/// `k` is the first package with the name `name`.
pub open spec fn is_first_named(packages: Seq<PackageView>, name: Seq<char>, k: int) -> bool {
    &&& 0 <= k < packages.len()
    &&& packages[k].id.name == name
    &&& forall|j: int| 0 <= j < k ==> (#[trigger] packages[j]).id.name != name
}

/// The position of the first package with the name `name`.
pub open spec fn position_of(packages: Seq<PackageView>, name: Seq<char>) -> int {
    choose|k: int| is_first_named(packages, name, k)
}

/// `i` is the first of the names that no package has.
pub open spec fn is_first_unknown(packages: Seq<PackageView>, names: Seq<Seq<char>>, i: int) -> bool {
    &&& 0 <= i < names.len()
    &&& !has_named(packages, names[i])
    &&& forall|j: int| 0 <= j < i ==> has_named(packages, #[trigger] names[j])
}

/// The trees of the first `n` names, one after the other with an empty
/// line between neighbours: for each name the walk from the first package
/// of that name.
pub open spec fn trees_upto(
    g: GraphView,
    packages: Seq<PackageView>,
    names: Seq<Seq<char>>,
    dir: EdgeDirection,
    n: nat,
) -> Seq<char>
    decreases n,
{
    if n == 0 {
        Seq::empty()
    } else {
        trees_upto(g, packages, names, dir, (n - 1) as nat) + (if n > 1 {
            seq!['\n']
        } else {
            Seq::empty()
        }) + lines(g.nodes, walk(g, dir, position_of(packages, names[n - 1]), Seq::empty()))
    }
}

/// What the tree command reports: the failure of the graph if it cannot be
/// built; else a failure if no name is given; else a failure for the first
/// name that no package has; else the trees.
pub open spec fn tree_report(lf: LockfileView, names: Seq<Seq<char>>, dir: EdgeDirection) -> Result<
    Seq<char>,
    ErrorView,
> {
    match graph_of(lf.packages) {
        Err(e) => Err(e),
        Ok(g) => if names.len() == 0 {
            Err(ErrorView::NoPackageNames)
        } else if exists|i: int| is_first_unknown(lf.packages, names, i) {
            Err(
                ErrorView::UnknownPackage(
                    names[choose|i: int| is_first_unknown(lf.packages, names, i)],
                ),
            )
        } else {
            Ok(trees_upto(g, lf.packages, names, dir, names.len()))
        },
    }
}

/// The position of the first package with the name `name`.
pub fn find_package(packages: &Vec<Package>, name: &Name) -> (r: Option<usize>)
    ensures
        match r {
            Some(k) => is_first_named(views(packages@), name@, k as int),
            None => !has_named(views(packages@), name@),
        },
{
    let n: usize = packages.len();
    let mut i: usize = 0;
    while i < n
        invariant
            i <= n,
            n == packages.len(),
            forall|j: int| 0 <= j < i ==> (#[trigger] views(packages@)[j]).id.name != name@,
        decreases n - i,
    {
        assert(views(packages@)[i as int] == packages[i as int]@);
        if packages[i].id.name.same(name) {
            return Some(i);
        }
        i += 1;
    }
    None
}

/// The command that draws the trees of named packages.
#[derive(Debug, PartialEq, Eq)]
pub struct TreeCmd {
    pub dependencies: Vec<Name>,
    pub direction: EdgeDirection,
}

impl TreeCmd {
    /// The trees of the named packages of the record, as text.
    pub fn run(&self, lockfile: &Lockfile) -> (r: Result<String, Error>)
        ensures
            match r {
                Ok(text) => tree_report(lockfile@, views(self.dependencies@), self.direction)
                    == Ok::<Seq<char>, ErrorView>(text@),
                Err(e) => tree_report(lockfile@, views(self.dependencies@), self.direction) == Err::<
                    Seq<char>,
                    ErrorView,
                >(e@),
            },
    {
        let ghost ps = lockfile@.packages;
        let ghost names = views(self.dependencies@);
        let tree = match lockfile.dependency_tree() {
            Ok(tree) => tree,
            Err(e) => {
                return Err(e);
            },
        };
        let ghost g = tree@;
        let n: usize = self.dependencies.len();
        if n == 0 {
            return Err(Error::NoPackageNames);
        }
        let mut out = String::new();
        let mut i: usize = 0;
        while i < n
            invariant
                i <= n,
                n == self.dependencies.len(),
                ps == lockfile@.packages,
                ps == views(lockfile.packages@),
                names == views(self.dependencies@),
                g == tree@,
                graph_of(ps) == Ok::<GraphView, ErrorView>(g),
                forall|j: int| 0 <= j < i ==> has_named(ps, #[trigger] names[j]),
                out@ == trees_upto(g, ps, names, self.direction, i as nat),
            decreases n - i,
        {
            let name = &self.dependencies[i];
            assert(names[i as int] == name@);
            let index = match find_package(&lockfile.packages, name) {
                Some(k) => k,
                None => {
                    proof {
                        assert(is_first_unknown(ps, names, i as int));
                        let k = choose|k: int| is_first_unknown(ps, names, k);
                        assert(k == i);
                    }
                    return Err(Error::UnknownPackage(String::from_str(name.as_str())));
                },
            };
            proof {
                let k = position_of(ps, name@);
                assert(is_first_named(ps, name@, index as int));
                assert(is_first_named(ps, name@, k));
                assert(k == index);
            }
            if i > 0 {
                out.append("\n");
                proof {
                    reveal_strlit("\n");
                }
            }
            match tree.render(index, self.direction) {
                Some(text) => {
                    out.append(text.as_str());
                },
                None => {},
            }
            assert(out@ =~= trees_upto(g, ps, names, self.direction, (i + 1) as nat));
            i += 1;
        }
        proof {
            assert(!exists|k: int| is_first_unknown(ps, names, k));
        }
        Ok(out)
    }
}

} // verus!
