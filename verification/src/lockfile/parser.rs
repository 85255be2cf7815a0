//! Reading a document into the record model: each recognised section at
//! most once, the list of packages at least once, the revision told from
//! what was read.

use crate::dependency::{parse_dependency, Dependency, DependencyView};
use crate::error::{result_view, Error, ErrorView, Field};
use crate::lockfile::version::{detect, ResolveVersion};
use crate::lockfile::{field_of, Lockfile, LockfileView, Patch, Section, SectionView};
use crate::metadata::{Entry, EntryView, Metadata};
use crate::package::{decode_record, opt_view, Package, PackageRecord, PackageRecordView, PackageView};
use crate::text::views;
use vstd::prelude::*;

verus! {

/// Every record of the list decodes.
pub open spec fn records_valid(rs: Seq<PackageRecordView>) -> bool {
    forall|i: int| 0 <= i < rs.len() ==> decode_record(#[trigger] rs[i]) is Ok
}

/// `i` is the first record of the list that does not decode.
pub open spec fn is_first_invalid_record(rs: Seq<PackageRecordView>, i: int) -> bool {
    &&& 0 <= i < rs.len()
    &&& decode_record(rs[i]) is Err
    &&& forall|j: int| 0 <= j < i ==> decode_record(#[trigger] rs[j]) is Ok
}

/// The packages that a list of records stands for, or the error of the
/// first record that does not decode.
pub open spec fn decode_records(rs: Seq<PackageRecordView>) -> Result<Seq<PackageView>, ErrorView> {
    if records_valid(rs) {
        Ok(Seq::new(rs.len(), |i: int| decode_record(rs[i])->Ok_0))
    } else {
        let i = choose|i: int| is_first_invalid_record(rs, i);
        Err(decode_record(rs[i])->Err_0)
    }
}

/// Decodes a list of records, in order, and fails on the first that does
/// not decode.
pub fn decode_packages(records: &Vec<PackageRecord>) -> (r: Result<Vec<Package>, Error>)
    ensures
        match r {
            Ok(ps) => decode_records(views(records@)) == Ok::<Seq<PackageView>, ErrorView>(
                views(ps@),
            ),
            Err(e) => decode_records(views(records@)) == Err::<Seq<PackageView>, ErrorView>(e@),
        },
{
    let ghost rs = views(records@);
    let n: usize = records.len();
    let mut out: Vec<Package> = Vec::new();
    let mut i: usize = 0;
    while i < n
        invariant
            i <= n,
            n == records.len(),
            rs == views(records@),
            out.len() == i,
            forall|j: int| 0 <= j < i ==> decode_record(#[trigger] rs[j]) == Ok::<PackageView, ErrorView>(out[j]@),
        decreases n - i,
    {
        assert(rs[i as int] == records[i as int]@);
        match Package::from_record(&records[i]) {
            Ok(p) => {
                out.push(p);
            },
            Err(e) => {
                proof {
                    assert(is_first_invalid_record(rs, i as int));
                    let k = choose|k: int| is_first_invalid_record(rs, k);
                    assert(k == i);
                }
                return Err(e);
            },
        }
        i += 1;
    }
    proof {
        assert(records_valid(rs));
        assert(views(out@) =~= decode_records(rs)->Ok_0);
    }
    Ok(out)
}

/// What is wrong with the content of a section, if anything.
pub open spec fn content_error(s: SectionView) -> Option<ErrorView> {
    match s {
        SectionView::Packages(rs) => match decode_records(rs) {
            Ok(_) => None,
            Err(e) => Some(e),
        },
        SectionView::Patch(rs) => match decode_records(rs) {
            Ok(_) => None,
            Err(e) => Some(e),
        },
        SectionView::Root(text) => if parse_dependency(text) is None {
            Some(ErrorView::InvalidDependencyReference(text))
        } else {
            None
        },
        SectionView::Metadata(_) => None,
        SectionView::Other => None,
    }
}

/// Section `i` of the document belongs to a field that an earlier section
/// belongs to.
pub open spec fn seen_before(doc: Seq<SectionView>, i: int) -> bool {
    exists|j: int| 0 <= j < i && field_of(#[trigger] doc[j]) == field_of(doc[i])
}

/// What makes the reading fail at section `i`, if anything: a recognised
/// section that repeats an earlier one, or else content that does not
/// decode. Sections under other keys never fail.
pub open spec fn section_error(doc: Seq<SectionView>, i: int) -> Option<ErrorView> {
    match field_of(doc[i]) {
        None => None,
        Some(f) => if seen_before(doc, i) {
            Some(ErrorView::DuplicateSection(f))
        } else {
            content_error(doc[i])
        },
    }
}

/// Section `i` is the first at which the reading fails.
pub open spec fn is_first_failure(doc: Seq<SectionView>, i: int) -> bool {
    &&& 0 <= i < doc.len()
    &&& section_error(doc, i) is Some
    &&& forall|j: int| 0 <= j < i ==> section_error(doc, j) is None
}

/// The document has a section of the field `f`.
pub open spec fn has_section(doc: Seq<SectionView>, f: Field) -> bool {
    exists|j: int| 0 <= j < doc.len() && field_of(#[trigger] doc[j]) == Some(f)
}

/// A section of the field `f`: the only one, in a document whose reading
/// does not fail.
pub open spec fn section(doc: Seq<SectionView>, f: Field) -> SectionView {
    doc[choose|j: int| 0 <= j < doc.len() && field_of(#[trigger] doc[j]) == Some(f)]
}

/// The record model that a document stands for, or the error that reading
/// it ends in.
///
/// The reading fails at the first section that repeats a recognised field
/// or whose content does not decode. Otherwise the list of packages must be
/// there; metadata and patches are empty where the document has none; and
/// the revision is told from the packages and the metadata.
pub open spec fn normalize(doc: Seq<SectionView>) -> Result<LockfileView, ErrorView> {
    if exists|i: int| is_first_failure(doc, i) {
        Err(section_error(doc, choose|i: int| is_first_failure(doc, i))->0)
    } else if !has_section(doc, Field::Package) {
        Err(ErrorView::MissingSection(Field::Package))
    } else {
        let packages = decode_records(section(doc, Field::Package)->Packages_0)->Ok_0;
        let root = if has_section(doc, Field::Root) {
            parse_dependency(section(doc, Field::Root)->Root_0)
        } else {
            None
        };
        let metadata = if has_section(doc, Field::Metadata) {
            section(doc, Field::Metadata)->Metadata_0
        } else {
            Seq::empty()
        };
        let patch = if has_section(doc, Field::Patch) {
            decode_records(section(doc, Field::Patch)->Patch_0)->Ok_0
        } else {
            Seq::empty()
        };
        match detect(packages, metadata) {
            Ok(version) => Ok(LockfileView { version, packages, root, metadata, patch }),
            Err(e) => Err(e),
        }
    }
}

/// What has been read of a document so far: for each recognised field, what
/// its section held, once that section has been read.
pub struct Builder {
    packages: Option<Vec<Package>>,
    root: Option<Dependency>,
    metadata: Option<Metadata>,
    patch: Option<Patch>,
}

/// The mathematical value of a `Builder`.
pub struct BuilderView {
    pub packages: Option<Seq<PackageView>>,
    pub root: Option<DependencyView>,
    pub metadata: Option<Seq<EntryView>>,
    pub patch: Option<Seq<PackageView>>,
}

impl View for Builder {
    type V = BuilderView;

    closed spec fn view(&self) -> BuilderView {
        BuilderView {
            packages: match self.packages {
                Some(ps) => Some(views(ps@)),
                None => None,
            },
            root: opt_view(self.root),
            metadata: opt_view(self.metadata),
            patch: opt_view(self.patch),
        }
    }
}

/// A builder that has read nothing.
pub open spec fn empty_builder() -> BuilderView {
    BuilderView { packages: None, root: None, metadata: None, patch: None }
}

/// Whether the section of a field has been read.
pub open spec fn has_read(b: BuilderView, f: Field) -> bool {
    match f {
        Field::Package => b.packages is Some,
        Field::Root => b.root is Some,
        Field::Metadata => b.metadata is Some,
        Field::Patch => b.patch is Some,
    }
}

/// The builder after one more section, or the error that the section
/// gives: a section of a field that has been read is a duplicate, whatever
/// it holds.
pub open spec fn accept(b: BuilderView, s: SectionView) -> Result<BuilderView, ErrorView> {
    match field_of(s) {
        None => Ok(b),
        Some(f) => if has_read(b, f) {
            Err(ErrorView::DuplicateSection(f))
        } else {
            match s {
                SectionView::Packages(rs) => match decode_records(rs) {
                    Ok(ps) => Ok(BuilderView { packages: Some(ps), ..b }),
                    Err(e) => Err(e),
                },
                SectionView::Root(text) => match parse_dependency(text) {
                    Some(d) => Ok(BuilderView { root: Some(d), ..b }),
                    None => Err(ErrorView::InvalidDependencyReference(text)),
                },
                SectionView::Metadata(es) => Ok(BuilderView { metadata: Some(es), ..b }),
                SectionView::Patch(rs) => match decode_records(rs) {
                    Ok(ps) => Ok(BuilderView { patch: Some(ps), ..b }),
                    Err(e) => Err(e),
                },
                SectionView::Other => Ok(b),
            }
        },
    }
}

/// The record model that a builder gives once the document has ended.
pub open spec fn finish(b: BuilderView) -> Result<LockfileView, ErrorView> {
    match b.packages {
        None => Err(ErrorView::MissingSection(Field::Package)),
        Some(packages) => {
            let metadata = match b.metadata {
                Some(m) => m,
                None => Seq::empty(),
            };
            let patch = match b.patch {
                Some(p) => p,
                None => Seq::empty(),
            };
            match detect(packages, metadata) {
                Ok(version) => Ok(
                    LockfileView { version, packages, root: b.root, metadata, patch },
                ),
                Err(e) => Err(e),
            }
        },
    }
}

/// The builder `b` holds what the first `n` sections of `doc` give, none of
/// which failed.
pub open spec fn has_collected(b: BuilderView, doc: Seq<SectionView>, n: int) -> bool {
    &&& forall|j: int| 0 <= j < n ==> section_error(doc, j) is None
    &&& forall|f: Field|
        has_read(b, f) <==> exists|j: int| 0 <= j < n && field_of(#[trigger] doc[j]) == Some(f)
    &&& forall|j: int|
        0 <= j < n ==> match #[trigger] doc[j] {
            SectionView::Packages(rs) => decode_records(rs) == Ok::<Seq<PackageView>, ErrorView>(
                b.packages->0,
            ),
            SectionView::Root(text) => parse_dependency(text) == b.root,
            SectionView::Metadata(es) => b.metadata == Some(es),
            SectionView::Patch(rs) => decode_records(rs) == Ok::<Seq<PackageView>, ErrorView>(
                b.patch->0,
            ),
            SectionView::Other => true,
        }
}

/// A builder that has collected a whole document finishes as the document
/// is normalised.
pub proof fn lemma_finish_collected(b: BuilderView, doc: Seq<SectionView>)
    requires
        has_collected(b, doc, doc.len() as int),
    ensures
        finish(b) == normalize(doc),
{
    assert(!exists|i: int| is_first_failure(doc, i));
    assert(has_read(b, Field::Package) <==> has_section(doc, Field::Package));
    assert(has_read(b, Field::Root) <==> has_section(doc, Field::Root));
    assert(has_read(b, Field::Metadata) <==> has_section(doc, Field::Metadata));
    assert(has_read(b, Field::Patch) <==> has_section(doc, Field::Patch));
}

/// A document whose reading fails at section `i`, and not before, is
/// normalised to the error of that section.
pub proof fn lemma_normalize_fails(doc: Seq<SectionView>, i: int)
    requires
        is_first_failure(doc, i),
    ensures
        normalize(doc) == Err::<LockfileView, ErrorView>(section_error(doc, i)->0),
{
    let k = choose|k: int| is_first_failure(doc, k);
    assert(k == i);
}

impl Builder {
    /// A builder that has read nothing.
    pub fn new() -> (r: Builder)
        ensures
            r@ == empty_builder(),
    {
        Builder { packages: None, root: None, metadata: None, patch: None }
    }

    /// Whether the section of `field` may still come: fails with
    /// `DuplicateSection` when it has been read.
    pub fn expect(&self, field: Field) -> (r: Result<(), Error>)
        ensures
            match r {
                Ok(_) => !has_read(self@, field),
                Err(e) => has_read(self@, field) && e@ == ErrorView::DuplicateSection(field),
            },
    {
        let seen = match field {
            Field::Package => self.packages.is_some(),
            Field::Root => self.root.is_some(),
            Field::Metadata => self.metadata.is_some(),
            Field::Patch => self.patch.is_some(),
        };
        if seen {
            Err(Error::DuplicateSection(field))
        } else {
            Ok(())
        }
    }

    /// Reads one more section.
    pub fn accept(&mut self, section: &Section) -> (r: Result<(), Error>)
        ensures
            match accept(old(self)@, section@) {
                Ok(b) => r is Ok && final(self)@ == b,
                Err(e) => r matches Err(x) && x@ == e && final(self)@ == old(self)@,
            },
    {
        match section {
            Section::Other => Ok(()),
            Section::Packages(records) => {
                if self.packages.is_some() {
                    return Err(Error::DuplicateSection(Field::Package));
                }
                match decode_packages(records) {
                    Ok(ps) => {
                        self.packages = Some(ps);
                        Ok(())
                    },
                    Err(e) => Err(e),
                }
            },
            Section::Root(text) => {
                if self.root.is_some() {
                    return Err(Error::DuplicateSection(Field::Root));
                }
                match Dependency::parse(text.as_str()) {
                    Ok(d) => {
                        self.root = Some(d);
                        Ok(())
                    },
                    Err(e) => Err(e),
                }
            },
            Section::Metadata(entries) => {
                if self.metadata.is_some() {
                    return Err(Error::DuplicateSection(Field::Metadata));
                }
                let mut copy: Vec<Entry> = Vec::new();
                let n: usize = entries.len();
                let mut i: usize = 0;
                while i < n
                    invariant
                        i <= n,
                        n == entries.len(),
                        copy.len() == i,
                        forall|j: int| 0 <= j < i ==> (#[trigger] copy[j])@ == entries[j]@,
                    decreases n - i,
                {
                    copy.push(entries[i].clone());
                    i += 1;
                }
                assert(views(copy@) =~= views(entries@));
                self.metadata = Some(Metadata { entries: copy });
                Ok(())
            },
            Section::Patch(records) => {
                if self.patch.is_some() {
                    return Err(Error::DuplicateSection(Field::Patch));
                }
                match decode_packages(records) {
                    Ok(ps) => {
                        self.patch = Some(Patch { unused: ps });
                        Ok(())
                    },
                    Err(e) => Err(e),
                }
            },
        }
    }

    /// Ends the reading: the list of packages must have been read, and the
    /// revision must be told without conflict.
    pub fn finish(self) -> (r: Result<Lockfile, Error>)
        ensures
            result_view(r) == finish(self@),
    {
        let packages = match self.packages {
            Some(ps) => ps,
            None => {
                return Err(Error::MissingSection(Field::Package));
            },
        };
        let metadata = match self.metadata {
            Some(m) => m,
            None => Metadata::new(),
        };
        let patch = match self.patch {
            Some(p) => p,
            None => Patch::new(),
        };
        match ResolveVersion::detect(&packages, &metadata) {
            Ok(version) => Ok(Lockfile { version, packages, root: self.root, metadata, patch }),
            Err(e) => Err(e),
        }
    }
}

impl Lockfile {
    /// Reads a document into the record model.
    pub fn from_document(doc: &Vec<Section>) -> (r: Result<Lockfile, Error>)
        ensures
            result_view(r) == normalize(views(doc@)),
    {
        let ghost d = views(doc@);
        let mut builder = Builder::new();
        let n: usize = doc.len();
        let mut i: usize = 0;
        while i < n
            invariant
                i <= n,
                n == doc.len(),
                d == views(doc@),
                has_collected(builder@, d, i as int),
            decreases n - i,
        {
            assert(d[i as int] == doc[i as int]@);
            let ghost before = builder@;
            match builder.accept(&doc[i]) {
                Ok(_) => {
                    proof {
                        lemma_collect_step(before, d, i as int);
                    }
                },
                Err(e) => {
                    proof {
                        lemma_fail_step(before, d, i as int);
                        lemma_normalize_fails(d, i as int);
                    }
                    return Err(e);
                },
            }
            i += 1;
        }
        proof {
            lemma_finish_collected(builder@, d);
        }
        builder.finish()
    }
}

/// Accepting section `n` after having collected the first `n` collects the
/// first `n + 1`.
pub proof fn lemma_collect_step(b: BuilderView, doc: Seq<SectionView>, n: int)
    requires
        0 <= n < doc.len(),
        has_collected(b, doc, n),
        accept(b, doc[n]) is Ok,
    ensures
        has_collected(accept(b, doc[n])->Ok_0, doc, n + 1),
{
    let b2 = accept(b, doc[n])->Ok_0;
    let s = doc[n];
    match field_of(s) {
        None => {},
        Some(f) => {
            assert(!has_read(b, f));
            assert(!seen_before(doc, n));
        },
    }
    assert(section_error(doc, n) is None);
    assert forall|f: Field|
        has_read(b2, f) <==> exists|j: int|
            0 <= j < n + 1 && field_of(#[trigger] doc[j]) == Some(f) by {
        if has_read(b2, f) {
            if has_read(b, f) {
                let j = choose|j: int| 0 <= j < n && field_of(#[trigger] doc[j]) == Some(f);
                assert(0 <= j < n + 1 && field_of(doc[j]) == Some(f));
            } else {
                assert(field_of(doc[n]) == Some(f));
            }
        }
        if exists|j: int| 0 <= j < n + 1 && field_of(#[trigger] doc[j]) == Some(f) {
            let j = choose|j: int| 0 <= j < n + 1 && field_of(#[trigger] doc[j]) == Some(f);
            if j < n {
                assert(has_read(b, f));
            }
        }
    }
    assert forall|j: int| 0 <= j < n + 1 implies match #[trigger] doc[j] {
        SectionView::Packages(rs) => decode_records(rs) == Ok::<Seq<PackageView>, ErrorView>(
            b2.packages->0,
        ),
        SectionView::Root(text) => parse_dependency(text) == b2.root,
        SectionView::Metadata(es) => b2.metadata == Some(es),
        SectionView::Patch(rs) => decode_records(rs) == Ok::<Seq<PackageView>, ErrorView>(
            b2.patch->0,
        ),
        SectionView::Other => true,
    } by {
        if j < n {
            let g = field_of(doc[j]);
            if g is Some {
                assert(has_read(b, g->0));
            }
        }
    }
}

/// A section that the builder refuses after having collected the first `n`
/// is the first failure of the document, with the builder's error.
pub proof fn lemma_fail_step(b: BuilderView, doc: Seq<SectionView>, n: int)
    requires
        0 <= n < doc.len(),
        has_collected(b, doc, n),
        accept(b, doc[n]) is Err,
    ensures
        is_first_failure(doc, n),
        section_error(doc, n) == Some(accept(b, doc[n])->Err_0),
{
    let f = field_of(doc[n])->0;
    if has_read(b, f) {
        let j = choose|j: int| 0 <= j < n && field_of(#[trigger] doc[j]) == Some(f);
        assert(seen_before(doc, n));
    } else {
        assert(!seen_before(doc, n));
    }
}

/// Reading the sections from `i` on, one after the other, into the builder
/// `b`, and finishing at the end of the document.
pub open spec fn read_from(doc: Seq<SectionView>, i: int, b: BuilderView) -> Result<
    LockfileView,
    ErrorView,
>
    decreases doc.len() - i,
{
    if 0 <= i < doc.len() {
        match accept(b, doc[i]) {
            Ok(next) => read_from(doc, i + 1, next),
            Err(e) => Err(e),
        }
    } else {
        finish(b)
    }
}

/// Reading on from a builder that has collected the first `i` sections
/// ends as the document is normalised.
pub proof fn lemma_read_from(doc: Seq<SectionView>, i: int, b: BuilderView)
    requires
        0 <= i <= doc.len(),
        has_collected(b, doc, i),
    ensures
        read_from(doc, i, b) == normalize(doc),
    decreases doc.len() - i,
{
    if i < doc.len() {
        match accept(b, doc[i]) {
            Ok(next) => {
                lemma_collect_step(b, doc, i);
                lemma_read_from(doc, i + 1, next);
            },
            Err(e) => {
                lemma_fail_step(b, doc, i);
                lemma_normalize_fails(doc, i);
            },
        }
    } else {
        lemma_finish_collected(b, doc);
    }
}

/// Normalising a document is reading its sections in order into a builder
/// that starts empty.
pub proof fn lemma_normalize_reads(doc: Seq<SectionView>)
    ensures
        normalize(doc) == read_from(doc, 0, empty_builder()),
{
    lemma_read_from(doc, 0, empty_builder());
}

/// Where the reading fails at some section, there is a first section at
/// which it fails.
pub proof fn lemma_first_failure_exists(doc: Seq<SectionView>, i: int)
    requires
        0 <= i < doc.len(),
        section_error(doc, i) is Some,
    ensures
        exists|k: int| 0 <= k <= i && is_first_failure(doc, k),
    decreases i,
{
    if exists|j: int| 0 <= j < i && section_error(doc, j) is Some {
        let j = choose|j: int| 0 <= j < i && section_error(doc, j) is Some;
        lemma_first_failure_exists(doc, j);
    } else {
        assert(is_first_failure(doc, i));
    }
}

/// A document in which a recognised field occurs twice is refused.
pub proof fn lemma_repeated_field_fails(doc: Seq<SectionView>, i: int, j: int)
    requires
        0 <= i < j < doc.len(),
        field_of(doc[j]) is Some,
        field_of(doc[i]) == field_of(doc[j]),
    ensures
        normalize(doc) is Err,
{
    assert(seen_before(doc, j));
    lemma_first_failure_exists(doc, j);
}

/// A document whose first failure is a section that repeats the field `f`
/// is refused with `DuplicateSection(f)`.
pub proof fn lemma_duplicate_section(doc: Seq<SectionView>, i: int, j: int, f: Field)
    requires
        0 <= i < j < doc.len(),
        field_of(doc[i]) == Some(f),
        field_of(doc[j]) == Some(f),
        forall|k: int| 0 <= k < j ==> section_error(doc, k) is None,
    ensures
        normalize(doc) == Err::<LockfileView, ErrorView>(ErrorView::DuplicateSection(f)),
{
    assert(seen_before(doc, j));
    lemma_normalize_fails(doc, j);
}

/// A document without a list of packages, and in which nothing else fails,
/// is refused with `MissingSection`.
pub proof fn lemma_missing_section(doc: Seq<SectionView>)
    requires
        !has_section(doc, Field::Package),
        forall|k: int| 0 <= k < doc.len() ==> section_error(doc, k) is None,
    ensures
        normalize(doc) == Err::<LockfileView, ErrorView>(
            ErrorView::MissingSection(Field::Package),
        ),
{
}

/// A section under an unrecognised key changes nothing: the document reads
/// the same with it as without it.
pub proof fn lemma_other_section_ignored(doc: Seq<SectionView>, i: int)
    requires
        0 <= i <= doc.len(),
    ensures
        normalize(doc.insert(i, SectionView::Other)) == normalize(doc),
{
    let longer = doc.insert(i, SectionView::Other);
    lemma_normalize_reads(doc);
    lemma_normalize_reads(longer);
    lemma_read_inserted(doc, i, 0, empty_builder());
}

/// Reading a document with an unrecognised section inserted at `i`, from a
/// position `k` at or before it, ends as reading the document itself.
proof fn lemma_read_inserted(doc: Seq<SectionView>, i: int, k: int, b: BuilderView)
    requires
        0 <= k <= i <= doc.len(),
    ensures
        read_from(doc.insert(i, SectionView::Other), k, b) == read_from(doc, k, b),
    decreases i - k,
{
    let longer = doc.insert(i, SectionView::Other);
    if k < i {
        assert(longer[k] == doc[k]);
        match accept(b, doc[k]) {
            Ok(next) => {
                lemma_read_inserted(doc, i, k + 1, next);
            },
            Err(_) => {},
        }
    } else {
        assert(longer[i] == SectionView::Other);
        assert(accept(b, longer[i]) == Ok::<BuilderView, ErrorView>(b));
        lemma_read_shifted(doc, i, i, b);
    }
}

/// Past the inserted section, the longer document reads as the document
/// itself one position earlier.
proof fn lemma_read_shifted(doc: Seq<SectionView>, i: int, k: int, b: BuilderView)
    requires
        0 <= i <= k <= doc.len(),
    ensures
        read_from(doc.insert(i, SectionView::Other), k + 1, b) == read_from(doc, k, b),
    decreases doc.len() - k,
{
    let longer = doc.insert(i, SectionView::Other);
    if k < doc.len() {
        assert(longer[k + 1] == doc[k]);
        match accept(b, doc[k]) {
            Ok(next) => {
                lemma_read_shifted(doc, i, k + 1, next);
            },
            Err(_) => {},
        }
    }
}

/// In a document that is read without failure, no section fails.
pub proof fn lemma_no_failure_when_ok(doc: Seq<SectionView>)
    requires
        normalize(doc) is Ok,
    ensures
        forall|i: int| 0 <= i < doc.len() ==> section_error(doc, i) is None,
{
    assert forall|i: int| 0 <= i < doc.len() implies section_error(doc, i) is None by {
        if section_error(doc, i) is Some {
            lemma_first_failure_exists(doc, i);
        }
    }
}

/// No recognised field occurs twice in the document.
pub open spec fn fields_distinct(doc: Seq<SectionView>) -> bool {
    forall|i: int, j: int|
        0 <= i < j < doc.len() && field_of(#[trigger] doc[i]) is Some ==> field_of(doc[i])
            != field_of(#[trigger] doc[j])
}

/// The two documents hold the same recognised sections.
pub open spec fn same_sections(a: Seq<SectionView>, b: Seq<SectionView>) -> bool {
    forall|s: SectionView| field_of(s) is Some ==> (a.contains(s) <==> b.contains(s))
}

/// In a document without repeated fields, the section of a field is the
/// one section that belongs to it.
pub proof fn lemma_section_unique(doc: Seq<SectionView>, f: Field, i: int)
    requires
        fields_distinct(doc),
        0 <= i < doc.len(),
        field_of(doc[i]) == Some(f),
    ensures
        has_section(doc, f),
        section(doc, f) == doc[i],
{
    let j = choose|j: int| 0 <= j < doc.len() && field_of(#[trigger] doc[j]) == Some(f);
    if j < i {
        assert(field_of(doc[j]) != field_of(doc[i]));
    } else if i < j {
        assert(field_of(doc[i]) != field_of(doc[j]));
    }
}

/// The order of the sections does not matter: a document that holds the
/// recognised sections of one that is read without failure, each once and
/// in whatever order, reads as the same record.
pub proof fn lemma_order_insignificant(a: Seq<SectionView>, b: Seq<SectionView>)
    requires
        normalize(a) is Ok,
        same_sections(a, b),
        fields_distinct(b),
    ensures
        normalize(b) == normalize(a),
{
    lemma_no_failure_when_ok(a);
    assert(fields_distinct(a)) by {
        assert forall|i: int, j: int|
            0 <= i < j < a.len() && field_of(#[trigger] a[i]) is Some implies field_of(a[i])
            != field_of(#[trigger] a[j]) by {
            if field_of(a[i]) == field_of(a[j]) {
                assert(seen_before(a, j));
                assert(section_error(a, j) is Some);
            }
        }
    }
    assert forall|i: int| 0 <= i < b.len() implies section_error(b, i) is None by {
        if field_of(b[i]) is Some {
            assert(b.contains(b[i]));
            assert(a.contains(b[i]));
            let k = choose|k: int| 0 <= k < a.len() && a[k] == b[i];
            assert(section_error(a, k) is None);
            assert(content_error(a[k]) is None);
            if seen_before(b, i) {
                let j = choose|j: int| 0 <= j < i && field_of(#[trigger] b[j]) == field_of(b[i]);
                assert(field_of(b[j]) != field_of(b[i]));
            }
        }
    }
    assert(!exists|i: int| is_first_failure(a, i));
    assert(!exists|i: int| is_first_failure(b, i));
    assert forall|f: Field| has_section(a, f) == has_section(b, f) && (has_section(a, f)
        ==> section(a, f) == section(b, f)) by {
        if has_section(a, f) {
            let i = choose|i: int| 0 <= i < a.len() && field_of(#[trigger] a[i]) == Some(f);
            assert(a.contains(a[i]));
            assert(b.contains(a[i]));
            let j = choose|j: int| 0 <= j < b.len() && b[j] == a[i];
            lemma_section_unique(a, f, i);
            lemma_section_unique(b, f, j);
        }
        if has_section(b, f) {
            let j = choose|j: int| 0 <= j < b.len() && field_of(#[trigger] b[j]) == Some(f);
            assert(b.contains(b[j]));
            assert(a.contains(b[j]));
            let i = choose|i: int| 0 <= i < a.len() && a[i] == b[j];
            lemma_section_unique(a, f, i);
        }
    }
    assert(has_section(a, Field::Package) == has_section(b, Field::Package));
    assert(has_section(a, Field::Root) == has_section(b, Field::Root));
    assert(has_section(a, Field::Metadata) == has_section(b, Field::Metadata));
    assert(has_section(a, Field::Patch) == has_section(b, Field::Patch));
}

} // verus!
