//! The record model of a lock document, and the sections of the document
//! that it is read from.

pub mod encoding;
pub mod parser;
pub mod version;

use crate::dependency::{Dependency, DependencyView};
use crate::error::Field;
use crate::lockfile::version::ResolveVersion;
use crate::metadata::{Entry, EntryView, Metadata};
use crate::package::{opt_view, Package, PackageRecord, PackageRecordView, PackageView};
use crate::text::views;
use vstd::prelude::*;

verus! {

/// The packages that the patch section lists as unused.
#[derive(Debug, PartialEq, Eq)]
pub struct Patch {
    pub unused: Vec<Package>,
}

impl View for Patch {
    type V = Seq<PackageView>;

    open spec fn view(&self) -> Seq<PackageView> {
        views(self.unused@)
    }
}

impl Patch {
    /// The empty patch section.
    pub fn new() -> (r: Patch)
        ensures
            r@ == Seq::<PackageView>::empty(),
    {
        let r = Patch { unused: Vec::new() };
        assert(r@ =~= Seq::<PackageView>::empty());
        r
    }
}

/// A lock record: the packages of a resolved dependency snapshot with what
/// else the document recorded, and the revision of the format it is in.
#[derive(Debug, PartialEq, Eq)]
pub struct Lockfile {
    pub version: ResolveVersion,
    pub packages: Vec<Package>,
    pub root: Option<Dependency>,
    pub metadata: Metadata,
    pub patch: Patch,
}

/// The mathematical value of a `Lockfile`.
pub struct LockfileView {
    pub version: ResolveVersion,
    pub packages: Seq<PackageView>,
    pub root: Option<DependencyView>,
    pub metadata: Seq<EntryView>,
    pub patch: Seq<PackageView>,
}

impl View for Lockfile {
    type V = LockfileView;

    open spec fn view(&self) -> LockfileView {
        LockfileView {
            version: self.version,
            packages: views(self.packages@),
            root: opt_view(self.root),
            metadata: self.metadata@,
            patch: self.patch@,
        }
    }
}

/// One top-level section of a document. A document is a sequence of
/// sections, in which a key may occur more than once.
#[derive(Debug, PartialEq, Eq)]
pub enum Section {
    /// The list of packages.
    Packages(Vec<PackageRecord>),
    /// The legacy root: a compact dependency text.
    Root(String),
    /// The metadata table.
    Metadata(Vec<Entry>),
    /// The patch section: the packages it lists as unused.
    Patch(Vec<PackageRecord>),
    /// A section under any other key. What it holds is not read.
    Other,
}

/// The mathematical value of a `Section`.
pub enum SectionView {
    Packages(Seq<PackageRecordView>),
    Root(Seq<char>),
    Metadata(Seq<EntryView>),
    Patch(Seq<PackageRecordView>),
    Other,
}

impl View for Section {
    type V = SectionView;

    open spec fn view(&self) -> SectionView {
        match *self {
            Section::Packages(rs) => SectionView::Packages(views(rs@)),
            Section::Root(s) => SectionView::Root(s@),
            Section::Metadata(es) => SectionView::Metadata(views(es@)),
            Section::Patch(rs) => SectionView::Patch(views(rs@)),
            Section::Other => SectionView::Other,
        }
    }
}

/// The recognised field that a section belongs to, if any.
pub open spec fn field_of(s: SectionView) -> Option<Field> {
    match s {
        SectionView::Packages(_) => Some(Field::Package),
        SectionView::Root(_) => Some(Field::Root),
        SectionView::Metadata(_) => Some(Field::Metadata),
        SectionView::Patch(_) => Some(Field::Patch),
        SectionView::Other => None,
    }
}

impl Section {
    /// The recognised field that the section belongs to, if any.
    pub fn field(&self) -> (r: Option<Field>)
        ensures
            r == field_of(self@),
    {
        match self {
            Section::Packages(_) => Some(Field::Package),
            Section::Root(_) => Some(Field::Root),
            Section::Metadata(_) => Some(Field::Metadata),
            Section::Patch(_) => Some(Field::Patch),
            Section::Other => None,
        }
    }
}

} // verus!
