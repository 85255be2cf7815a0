//! The revisions of the document format, and how the revision of a
//! document is told from what it holds.

use crate::error::{Error, ErrorView};
use crate::metadata::{has_checksum_key, EntryView, Metadata};
use crate::package::{Package, PackageView};
use crate::text::views;
use vstd::prelude::*;

verus! {

/// A revision of the document format.
///
/// `V1` keeps checksums in the metadata table and writes the legacy root.
/// `V2` and `V3` keep each checksum on its package. `V3` is the newest.
#[derive(Debug, Clone, Copy, PartialEq, Eq, Structural, PartialOrd, Ord, Hash)]
pub enum ResolveVersion {
    V1,
    V2,
    V3,
}

/// Some package carries its checksum itself.
pub open spec fn has_inline_checksum(packages: Seq<PackageView>) -> bool {
    exists|i: int| 0 <= i < packages.len() && (#[trigger] packages[i]).checksum is Some
}

/// Dependency `j` of package `i` exists and gives no version.
pub open spec fn lacks_version_at(packages: Seq<PackageView>, i: int, j: int) -> bool {
    &&& 0 <= i < packages.len()
    &&& 0 <= j < packages[i].dependencies.len()
    &&& packages[i].dependencies[j].version is None
}

/// Dependency `j` of package `i` exists and gives a source.
pub open spec fn names_source_at(packages: Seq<PackageView>, i: int, j: int) -> bool {
    &&& 0 <= i < packages.len()
    &&& 0 <= j < packages[i].dependencies.len()
    &&& packages[i].dependencies[j].source is Some
}

/// Some dependency reference gives no version.
pub open spec fn some_reference_lacks_version(packages: Seq<PackageView>) -> bool {
    exists|i: int, j: int| lacks_version_at(packages, i, j)
}

/// Some dependency reference gives a source.
pub open spec fn some_reference_names_source(packages: Seq<PackageView>) -> bool {
    exists|i: int, j: int| names_source_at(packages, i, j)
}

/// The revision that a document with these packages and this metadata is
/// in. The rules, the first that applies deciding:
///
/// 1. checksums both in the metadata table and on packages contradict each
///    other: the document is refused;
/// 2. a checksum key in the metadata table marks `V1`;
/// 3. a checksum on a package marks the newest revision;
/// 4. without any checksum, references that all give a version and of which
///    one spells out a source are written in the way of `V2`, which names
///    its targets in full;
/// 5. anything else, the empty list of packages included, could be of more
///    than one revision and is taken for the newest.
pub open spec fn detect(packages: Seq<PackageView>, metadata: Seq<EntryView>) -> Result<
    ResolveVersion,
    ErrorView,
> {
    if has_checksum_key(metadata) && has_inline_checksum(packages) {
        Err(ErrorView::FormatConflict)
    } else if has_checksum_key(metadata) {
        Ok(ResolveVersion::V1)
    } else if has_inline_checksum(packages) {
        Ok(ResolveVersion::V3)
    } else if !some_reference_lacks_version(packages) && some_reference_names_source(packages) {
        Ok(ResolveVersion::V2)
    } else {
        Ok(ResolveVersion::V3)
    }
}

/// A document with checksums on its packages and none in its metadata is
/// told to be in the newest revision, however its references are written.
pub proof fn lemma_inline_checksums_mark_newest(
    packages: Seq<PackageView>,
    metadata: Seq<EntryView>,
)
    requires
        has_inline_checksum(packages),
        !has_checksum_key(metadata),
    ensures
        detect(packages, metadata) == Ok::<ResolveVersion, ErrorView>(ResolveVersion::V3),
{
}

/// A document with a checksum key in its metadata and no checksum on a
/// package is told to be in `V1`.
pub proof fn lemma_checksum_keys_mark_oldest(packages: Seq<PackageView>, metadata: Seq<EntryView>)
    requires
        has_checksum_key(metadata),
        !has_inline_checksum(packages),
    ensures
        detect(packages, metadata) == Ok::<ResolveVersion, ErrorView>(ResolveVersion::V1),
{
}

/// A document without packages and without checksum keys is told to be in
/// the newest revision.
pub proof fn lemma_empty_is_newest(metadata: Seq<EntryView>)
    requires
        !has_checksum_key(metadata),
    ensures
        detect(Seq::empty(), metadata) == Ok::<ResolveVersion, ErrorView>(ResolveVersion::V3),
{
}

fn has_inline_checksum_exec(packages: &Vec<Package>) -> (b: bool)
    ensures
        b == has_inline_checksum(views(packages@)),
{
    let n: usize = packages.len();
    let mut i: usize = 0;
    while i < n
        invariant
            i <= n,
            n == packages.len(),
            forall|k: int| 0 <= k < i ==> (#[trigger] views(packages@)[k]).checksum is None,
        decreases n - i,
    {
        assert(views(packages@)[i as int] == packages[i as int]@);
        if packages[i].checksum.is_some() {
            return true;
        }
        i += 1;
    }
    false
}

fn some_reference_lacks_version_exec(packages: &Vec<Package>) -> (b: bool)
    ensures
        b == some_reference_lacks_version(views(packages@)),
{
    let ghost ps = views(packages@);
    let n: usize = packages.len();
    let mut i: usize = 0;
    while i < n
        invariant
            i <= n,
            n == packages.len(),
            ps == views(packages@),
            forall|k: int, j: int| 0 <= k < i ==> !lacks_version_at(ps, k, j),
        decreases n - i,
    {
        assert(ps[i as int] == packages[i as int]@);
        let m: usize = packages[i].dependencies.len();
        let mut j: usize = 0;
        while j < m
            invariant
                i < n,
                n == packages.len(),
                ps == views(packages@),
                ps[i as int] == packages[i as int]@,
                j <= m,
                m == packages[i as int].dependencies.len(),
                forall|l: int| 0 <= l < j ==> !lacks_version_at(ps, i as int, l),
            decreases m - j,
        {
            assert(ps[i as int].dependencies[j as int] == packages[i as int].dependencies[j as int]@);
            if packages[i].dependencies[j].version.is_none() {
                assert(lacks_version_at(ps, i as int, j as int));
                return true;
            }
            j += 1;
        }
        i += 1;
    }
    false
}

fn some_reference_names_source_exec(packages: &Vec<Package>) -> (b: bool)
    ensures
        b == some_reference_names_source(views(packages@)),
{
    let ghost ps = views(packages@);
    let n: usize = packages.len();
    let mut i: usize = 0;
    while i < n
        invariant
            i <= n,
            n == packages.len(),
            ps == views(packages@),
            forall|k: int, j: int| 0 <= k < i ==> !names_source_at(ps, k, j),
        decreases n - i,
    {
        assert(ps[i as int] == packages[i as int]@);
        let m: usize = packages[i].dependencies.len();
        let mut j: usize = 0;
        while j < m
            invariant
                i < n,
                n == packages.len(),
                ps == views(packages@),
                ps[i as int] == packages[i as int]@,
                j <= m,
                m == packages[i as int].dependencies.len(),
                forall|l: int| 0 <= l < j ==> !names_source_at(ps, i as int, l),
            decreases m - j,
        {
            assert(ps[i as int].dependencies[j as int] == packages[i as int].dependencies[j as int]@);
            if packages[i].dependencies[j].source.is_some() {
                assert(names_source_at(ps, i as int, j as int));
                return true;
            }
            j += 1;
        }
        i += 1;
    }
    false
}

impl ResolveVersion {
    /// Tells the revision of a document from its packages and its metadata.
    pub fn detect(packages: &Vec<Package>, metadata: &Metadata) -> (r: Result<ResolveVersion, Error>)
        ensures
            result_version(r) == detect(views(packages@), metadata@),
    {
        let legacy = metadata.has_checksum_key();
        let inline = has_inline_checksum_exec(packages);
        if legacy && inline {
            Err(Error::FormatConflict)
        } else if legacy {
            Ok(ResolveVersion::V1)
        } else if inline {
            Ok(ResolveVersion::V3)
        } else if !some_reference_lacks_version_exec(packages) && some_reference_names_source_exec(
            packages,
        ) {
            Ok(ResolveVersion::V2)
        } else {
            Ok(ResolveVersion::V3)
        }
    }

    /// The number of the revision.
    pub fn number(&self) -> (n: u32)
        ensures
            n == match *self {
                ResolveVersion::V1 => 1u32,
                ResolveVersion::V2 => 2u32,
                ResolveVersion::V3 => 3u32,
            },
    {
        match self {
            ResolveVersion::V1 => 1,
            ResolveVersion::V2 => 2,
            ResolveVersion::V3 => 3,
        }
    }

    /// The revision with the given number, if there is one.
    pub fn from_number(n: u32) -> (r: Option<ResolveVersion>)
        ensures
            r == if n == 1 {
                Some(ResolveVersion::V1)
            } else if n == 2 {
                Some(ResolveVersion::V2)
            } else if n == 3 {
                Some(ResolveVersion::V3)
            } else {
                None
            },
    {
        if n == 1 {
            Some(ResolveVersion::V1)
        } else if n == 2 {
            Some(ResolveVersion::V2)
        } else if n == 3 {
            Some(ResolveVersion::V3)
        } else {
            None
        }
    }
}

impl Default for ResolveVersion {
    /// The newest revision.
    fn default() -> (r: Self)
        ensures
            r == ResolveVersion::V3,
    {
        ResolveVersion::V3
    }
}

/// The view of the result of a detection.
pub open spec fn result_version(r: Result<ResolveVersion, Error>) -> Result<
    ResolveVersion,
    ErrorView,
> {
    match r {
        Ok(v) => Ok(v),
        Err(e) => Err(e@),
    }
}

} // verus!
