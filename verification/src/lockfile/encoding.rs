//! Writing the record model back as a document, in the layout of a chosen
//! revision.

use crate::dependency::{
    clone_dependencies, clone_reference, dep_text, dep_wf, lemma_parse_text, lemma_text_parse,
    parse_dependency,
};
use crate::error::{ErrorView, Field};
use crate::lockfile::parser::{
    accept, decode_records, empty_builder, finish, has_section, lemma_no_failure_when_ok,
    lemma_normalize_reads, normalize, read_from, records_valid, section_error, BuilderView,
};
use crate::lockfile::version::{detect, has_inline_checksum, ResolveVersion};
use crate::lockfile::{field_of, Lockfile, LockfileView, Patch, Section, SectionView};
use crate::metadata::{
    checksum_key, checksum_key_for, checksum_target, has_checksum_key, is_checksum_key, key_target,
    Entry, EntryView, Metadata,
};
use crate::package::{
    all_valid, all_well_formed, clone_packages, decode_record, encode_package, encode_packages,
    opt_view, to_records, Package, PackageId, PackageIdView, PackageRecordView, PackageView,
};
use crate::text::views;
use vstd::prelude::*;

verus! {

/// The packages without their checksums.
pub open spec fn strip_checksums(packages: Seq<PackageView>) -> Seq<PackageView> {
    Seq::new(packages.len(), |i: int| PackageView { checksum: None, ..packages[i] })
}

/// The metadata entries that hold the checksums of the first `n` packages:
/// one for each package that carries a checksum, in the order of the
/// packages, under the checksum key of the package.
pub open spec fn synthesized_upto(packages: Seq<PackageView>, n: nat) -> Seq<EntryView>
    decreases n,
{
    if n == 0 {
        Seq::empty()
    } else {
        let before = synthesized_upto(packages, (n - 1) as nat);
        match packages[n - 1].checksum {
            Some(c) => before.push(EntryView { key: checksum_key(packages[n - 1].id), value: c }),
            None => before,
        }
    }
}

/// The checksum that the metadata table holds for the package `id`: the
/// value of the first entry whose key is the checksum key of `id`.
pub open spec fn legacy_checksum(metadata: Seq<EntryView>, id: PackageIdView) -> Option<Seq<char>>
    decreases metadata.len(),
{
    if metadata.len() == 0 {
        None
    } else if key_target(metadata[0].key) == Some(id) {
        Some(metadata[0].value)
    } else {
        legacy_checksum(metadata.skip(1), id)
    }
}

/// The first `n` entries of the table without those under checksum keys.
pub open spec fn plain_entries_upto(metadata: Seq<EntryView>, n: nat) -> Seq<EntryView>
    decreases n,
{
    if n == 0 {
        Seq::empty()
    } else {
        let before = plain_entries_upto(metadata, (n - 1) as nat);
        if is_checksum_key(metadata[n - 1].key) {
            before
        } else {
            before.push(metadata[n - 1])
        }
    }
}

/// The packages, each with the checksum that it carries or else the one
/// that the metadata table holds for it.
pub open spec fn inline_checksums(packages: Seq<PackageView>, metadata: Seq<EntryView>) -> Seq<
    PackageView,
> {
    Seq::new(
        packages.len(),
        |i: int|
            PackageView {
                checksum: match packages[i].checksum {
                    Some(c) => Some(c),
                    None => legacy_checksum(metadata, packages[i].id),
                },
                ..packages[i]
            },
    )
}

/// The record in the layout of the revision `target`.
///
/// For `V1` the checksums leave the packages and are added to the metadata
/// table. For the later revisions each package takes the checksum that the
/// table holds for it, unless it carries one, and the checksum keys leave
/// the table. Nothing else changes but the revision.
pub open spec fn translate(lf: LockfileView, target: ResolveVersion) -> LockfileView {
    match target {
        ResolveVersion::V1 => LockfileView {
            version: target,
            packages: strip_checksums(lf.packages),
            metadata: lf.metadata + synthesized_upto(lf.packages, lf.packages.len()),
            ..lf
        },
        _ => LockfileView {
            version: target,
            packages: inline_checksums(lf.packages, lf.metadata),
            metadata: plain_entries_upto(lf.metadata, lf.metadata.len()),
            ..lf
        },
    }
}

/// The document of canonical layout with these parts: the list of
/// packages, then the root if there is one, then the metadata table unless
/// it is empty, then the patch section unless it is empty.
pub open spec fn canonical_document(
    records: Seq<PackageRecordView>,
    root: Option<Seq<char>>,
    metadata: Seq<EntryView>,
    patch: Seq<PackageRecordView>,
) -> Seq<SectionView> {
    seq![SectionView::Packages(records)] + (match root {
        Some(text) => seq![SectionView::Root(text)],
        None => seq![],
    }) + (if metadata.len() > 0 {
        seq![SectionView::Metadata(metadata)]
    } else {
        seq![]
    }) + (if patch.len() > 0 {
        seq![SectionView::Patch(patch)]
    } else {
        seq![]
    })
}

/// The document that holds a record as it stands: the root is written for
/// `V1` only.
pub open spec fn layout(lf: LockfileView) -> Seq<SectionView> {
    canonical_document(
        encode_packages(lf.packages),
        match lf.root {
            Some(d) => if lf.version == ResolveVersion::V1 {
                Some(dep_text(d))
            } else {
                None
            },
            None => None,
        },
        lf.metadata,
        encode_packages(lf.patch),
    )
}

/// The document that a record is written as: the record brought into the
/// layout of its revision, then laid out.
pub open spec fn encode(lf: LockfileView) -> Seq<SectionView> {
    layout(translate(lf, lf.version))
}

/// The checksum that the table holds for the package `id`.
pub fn find_legacy_checksum(metadata: &Metadata, id: &PackageId) -> (r: Option<String>)
    ensures
        opt_view(r) == legacy_checksum(metadata@, id@),
{
    let n: usize = metadata.entries.len();
    let mut i: usize = 0;
    assert(metadata@.skip(0) =~= metadata@);
    while i < n
        invariant
            i <= n,
            n == metadata.entries.len(),
            legacy_checksum(metadata@, id@) == legacy_checksum(metadata@.skip(i as int), id@),
        decreases n - i,
    {
        let ghost rest = metadata@.skip(i as int);
        assert(rest[0] == metadata.entries[i as int]@);
        assert(rest.skip(1) =~= metadata@.skip(i + 1));
        match checksum_target(metadata.entries[i].key.as_str()) {
            Some(target) => {
                if target.same(id) {
                    return Some(metadata.entries[i].value.clone());
                }
            },
            None => {},
        }
        i += 1;
    }
    assert(metadata@.skip(n as int).len() == 0);
    None
}

impl Lockfile {
    /// Every reference of a record that exists at run time is well formed.
    pub fn well_formed(&self)
        ensures
            lockfile_wf(self@),
    {
        all_well_formed(&self.packages);
        all_well_formed(&self.patch.unused);
        if let Some(d) = &self.root {
            d.well_formed();
        }
    }

    /// Brings the record into the layout of the revision `target`.
    pub fn translate(&self, target: ResolveVersion) -> (r: Lockfile)
        ensures
            r@ == translate(self@, target),
    {
        let ghost ps = views(self.packages@);
        let ghost md = self.metadata@;
        let n: usize = self.packages.len();
        let mut packages: Vec<Package> = Vec::new();
        let mut entries: Vec<Entry> = Vec::new();
        match target {
            ResolveVersion::V1 => {
                entries = self.metadata.clone().entries;
                let mut i: usize = 0;
                assert(views(entries@) =~= md + synthesized_upto(ps, 0));
                while i < n
                    invariant
                        i <= n,
                        n == self.packages.len(),
                        ps == views(self.packages@),
                        packages.len() == i,
                        forall|j: int|
                            0 <= j < i ==> (#[trigger] packages[j])@ == strip_checksums(ps)[j],
                        views(entries@) == md + synthesized_upto(ps, i as nat),
                    decreases n - i,
                {
                    let p = &self.packages[i];
                    assert(ps[i as int] == p@);
                    let ghost sofar = views(entries@);
                    if let Some(c) = &p.checksum {
                        let e = Entry { key: checksum_key_for(&p.id), value: c.clone() };
                        entries.push(e);
                        assert(views(entries@) =~= sofar.push(e@));
                    }
                    packages.push(
                        Package {
                            id: p.id.clone(),
                            checksum: None,
                            dependencies: clone_dependencies(&p.dependencies),
                        },
                    );
                    assert(views(entries@) =~= md + synthesized_upto(ps, (i + 1) as nat));
                    i += 1;
                }
                assert(views(packages@) =~= strip_checksums(ps));
            },
            _ => {
                let mut i: usize = 0;
                while i < n
                    invariant
                        i <= n,
                        n == self.packages.len(),
                        ps == views(self.packages@),
                        md == self.metadata@,
                        packages.len() == i,
                        forall|j: int|
                            0 <= j < i ==> (#[trigger] packages[j])@ == inline_checksums(ps, md)[j],
                    decreases n - i,
                {
                    let p = &self.packages[i];
                    assert(ps[i as int] == p@);
                    let checksum = match &p.checksum {
                        Some(c) => Some(c.clone()),
                        None => find_legacy_checksum(&self.metadata, &p.id),
                    };
                    packages.push(
                        Package {
                            id: p.id.clone(),
                            checksum,
                            dependencies: clone_dependencies(&p.dependencies),
                        },
                    );
                    i += 1;
                }
                assert(views(packages@) =~= inline_checksums(ps, md));
                let m: usize = self.metadata.entries.len();
                let mut k: usize = 0;
                assert(views(entries@) =~= plain_entries_upto(md, 0));
                while k < m
                    invariant
                        k <= m,
                        m == self.metadata.entries.len(),
                        md == self.metadata@,
                        views(entries@) == plain_entries_upto(md, k as nat),
                    decreases m - k,
                {
                    let e = &self.metadata.entries[k];
                    assert(md[k as int] == e@);
                    let ghost sofar = views(entries@);
                    if checksum_target(e.key.as_str()).is_none() {
                        entries.push(e.clone());
                        assert(views(entries@) =~= sofar.push(e@));
                    }
                    k += 1;
                }
            },
        }
        Lockfile {
            version: target,
            packages,
            root: clone_reference(&self.root),
            metadata: Metadata { entries },
            patch: Patch { unused: clone_packages(&self.patch.unused) },
        }
    }

    /// Writes the record as a document in the layout of its revision.
    pub fn to_document(&self) -> (doc: Vec<Section>)
        ensures
            views(doc@) == encode(self@),
    {
        let t = self.translate(self.version);
        let mut doc: Vec<Section> = Vec::new();
        doc.push(Section::Packages(to_records(&t.packages)));
        if let Some(d) = &t.root {
            if t.version == ResolveVersion::V1 {
                doc.push(Section::Root(d.to_string()));
            }
        }
        if t.metadata.entries.len() > 0 {
            doc.push(Section::Metadata(t.metadata.entries));
        }
        if t.patch.unused.len() > 0 {
            doc.push(Section::Patch(to_records(&t.patch.unused)));
        }
        assert(views(doc@) =~= encode(self@));
        doc
    }
}

/// What reading a document of canonical layout comes to: the packages
/// decode, then the root, then the patch section, and then the revision is
/// told.
pub open spec fn read_canonical(
    records: Seq<PackageRecordView>,
    root: Option<Seq<char>>,
    metadata: Seq<EntryView>,
    patch: Seq<PackageRecordView>,
) -> Result<LockfileView, ErrorView> {
    match decode_records(records) {
        Err(e) => Err(e),
        Ok(packages) => if root is Some && parse_dependency(root->0) is None {
            Err(ErrorView::InvalidDependencyReference(root->0))
        } else {
            match decode_records(patch) {
                Err(e) => Err(e),
                Ok(unused) => match detect(packages, metadata) {
                    Err(e) => Err(e),
                    Ok(version) => Ok(
                        LockfileView {
                            version,
                            packages,
                            root: match root {
                                Some(text) => parse_dependency(text),
                                None => None,
                            },
                            metadata,
                            patch: unused,
                        },
                    ),
                },
            }
        },
    }
}

/// An empty list of records decodes to the empty list of packages.
pub proof fn lemma_decode_no_records(rs: Seq<PackageRecordView>)
    requires
        rs.len() == 0,
    ensures
        decode_records(rs) == Ok::<Seq<PackageView>, ErrorView>(Seq::empty()),
{
    assert(records_valid(rs));
    assert(decode_records(rs)->Ok_0 =~= Seq::<PackageView>::empty());
}

/// A document of canonical layout is normalised as `read_canonical` says.
pub proof fn lemma_normalize_canonical(
    records: Seq<PackageRecordView>,
    root: Option<Seq<char>>,
    metadata: Seq<EntryView>,
    patch: Seq<PackageRecordView>,
)
    ensures
        normalize(canonical_document(records, root, metadata, patch)) == read_canonical(
            records,
            root,
            metadata,
            patch,
        ),
{
    let doc = canonical_document(records, root, metadata, patch);
    let want = read_canonical(records, root, metadata, patch);
    lemma_normalize_reads(doc);
    if patch.len() == 0 {
        lemma_decode_no_records(patch);
    }
    if metadata.len() == 0 {
        assert(metadata =~= Seq::<EntryView>::empty());
    }
    let b0 = empty_builder();
    assert(doc[0] == SectionView::Packages(records));
    match decode_records(records) {
        Err(e) => {
            assert(accept(b0, doc[0]) == Err::<BuilderView, ErrorView>(e));
            assert(read_from(doc, 0, b0) == want);
        },
        Ok(packages) => {
            let b1 = BuilderView { packages: Some(packages), ..b0 };
            assert(accept(b0, doc[0]) == Ok::<BuilderView, ErrorView>(b1));
            let i2: int = if root is Some {
                2
            } else {
                1
            };
            let i3: int = if metadata.len() > 0 {
                i2 + 1
            } else {
                i2
            };
            let i4: int = if patch.len() > 0 {
                i3 + 1
            } else {
                i3
            };
            assert(doc.len() == i4);
            if root is Some {
                assert(doc[1] == SectionView::Root(root->0));
            }
            if metadata.len() > 0 {
                assert(doc[i2] == SectionView::Metadata(metadata));
            }
            if patch.len() > 0 {
                assert(doc[i3] == SectionView::Patch(patch));
            }
            assert(read_from(doc, 0, b0) == read_from(doc, 1, b1));
            if root is Some && parse_dependency(root->0) is None {
                assert(accept(b1, doc[1]) == Err::<BuilderView, ErrorView>(
                    ErrorView::InvalidDependencyReference(root->0),
                ));
                assert(read_from(doc, 1, b1) == want);
            } else {
                let b2 = BuilderView {
                    root: match root {
                        Some(text) => parse_dependency(text),
                        None => None,
                    },
                    ..b1
                };
                if root is Some {
                    assert(accept(b1, doc[1]) == Ok::<BuilderView, ErrorView>(b2));
                }
                assert(read_from(doc, 1, b1) == read_from(doc, i2, b2));
                let b3 = if metadata.len() > 0 {
                    BuilderView { metadata: Some(metadata), ..b2 }
                } else {
                    b2
                };
                if metadata.len() > 0 {
                    assert(accept(b2, doc[i2]) == Ok::<BuilderView, ErrorView>(b3));
                }
                assert(read_from(doc, i2, b2) == read_from(doc, i3, b3));
                match decode_records(patch) {
                    Err(e) => {
                        assert(accept(b3, doc[i3]) == Err::<BuilderView, ErrorView>(e));
                        assert(read_from(doc, i3, b3) == want);
                    },
                    Ok(unused) => {
                        let b4 = if patch.len() > 0 {
                            BuilderView { patch: Some(unused), ..b3 }
                        } else {
                            b3
                        };
                        if patch.len() > 0 {
                            assert(accept(b3, doc[i3]) == Ok::<BuilderView, ErrorView>(b4));
                        }
                        assert(read_from(doc, i3, b3) == read_from(doc, i4, b4));
                        assert(read_from(doc, i4, b4) == finish(b4));
                        assert(finish(b4) == want);
                    },
                }
            }
        },
    }
}

/// Without a checksum on any package, no entry is synthesized.
pub proof fn lemma_nothing_synthesized(packages: Seq<PackageView>, n: nat)
    requires
        n <= packages.len(),
        !has_inline_checksum(packages),
    ensures
        synthesized_upto(packages, n) == Seq::<EntryView>::empty(),
    decreases n,
{
    if n > 0 {
        lemma_nothing_synthesized(packages, (n - 1) as nat);
        assert(packages[n - 1].checksum is None);
    }
}

/// Without a checksum key in the table, the table holds no checksum for
/// any package.
pub proof fn lemma_no_legacy_checksum(metadata: Seq<EntryView>, id: PackageIdView)
    requires
        !has_checksum_key(metadata),
    ensures
        legacy_checksum(metadata, id) is None,
    decreases metadata.len(),
{
    if metadata.len() > 0 {
        assert(!is_checksum_key(metadata[0].key));
        let rest = metadata.skip(1);
        assert forall|i: int| 0 <= i < rest.len() implies !is_checksum_key(
            #[trigger] rest[i].key,
        ) by {
            assert(rest[i] == metadata[i + 1]);
            assert(!is_checksum_key(metadata[i + 1].key));
        }
        lemma_no_legacy_checksum(rest, id);
    }
}

/// Without a checksum key in the table, every entry is plain.
pub proof fn lemma_all_plain(metadata: Seq<EntryView>, n: nat)
    requires
        n <= metadata.len(),
        !has_checksum_key(metadata),
    ensures
        plain_entries_upto(metadata, n) == metadata.take(n as int),
    decreases n,
{
    if n > 0 {
        lemma_all_plain(metadata, (n - 1) as nat);
        assert(!is_checksum_key(metadata[n - 1].key));
        assert(metadata.take(n as int) =~= metadata.take(n - 1).push(metadata[n - 1]));
    } else {
        assert(metadata.take(0) =~= Seq::<EntryView>::empty());
    }
}

/// A record whose revision is the one that its packages and metadata are
/// told to be in is already in the layout of that revision: translating it
/// to its own revision changes nothing.
pub proof fn lemma_translate_settled(lf: LockfileView)
    requires
        detect(lf.packages, lf.metadata) == Ok::<ResolveVersion, ErrorView>(lf.version),
    ensures
        translate(lf, lf.version) == lf,
{
    let t = translate(lf, lf.version);
    if lf.version == ResolveVersion::V1 {
        lemma_nothing_synthesized(lf.packages, lf.packages.len());
        assert(t.packages =~= lf.packages) by {
            assert forall|i: int| 0 <= i < lf.packages.len() implies t.packages[i]
                == lf.packages[i] by {
                assert(lf.packages[i].checksum is None);
            }
        }
        assert(t.metadata =~= lf.metadata);
    } else {
        lemma_all_plain(lf.metadata, lf.metadata.len());
        assert(lf.metadata.take(lf.metadata.len() as int) =~= lf.metadata);
        assert(t.packages =~= lf.packages) by {
            assert forall|i: int| 0 <= i < lf.packages.len() implies t.packages[i]
                == lf.packages[i] by {
                lemma_no_legacy_checksum(lf.metadata, lf.packages[i].id);
            }
        }
    }
}

/// Translating the record of a document to the revision that was detected
/// for it changes nothing.
pub proof fn lemma_translate_detected(doc: Seq<SectionView>)
    requires
        normalize(doc) is Ok,
    ensures
        translate(normalize(doc)->Ok_0, normalize(doc)->Ok_0.version) == normalize(doc)->Ok_0,
{
    lemma_translate_settled(normalize(doc)->Ok_0);
}

/// A record that decodes is encoded as itself.
pub proof fn lemma_encode_decoded(r: PackageRecordView)
    requires
        decode_record(r) is Ok,
    ensures
        encode_package(decode_record(r)->Ok_0) == r,
{
    let p = decode_record(r)->Ok_0;
    assert forall|i: int| 0 <= i < r.dependencies.len() implies dep_text(p.dependencies[i])
        == r.dependencies[i] by {
        assert(parse_dependency(r.dependencies[i]) is Some);
        lemma_text_parse(r.dependencies[i]);
    }
    assert(encode_package(p).dependencies =~= r.dependencies);
}

/// Every reference of the package is well formed.
pub open spec fn references_wf(p: PackageView) -> bool {
    forall|j: int| 0 <= j < p.dependencies.len() ==> dep_wf(#[trigger] p.dependencies[j])
}

/// The record of a package with well-formed references decodes to the
/// package.
pub proof fn lemma_decode_encoded(p: PackageView)
    requires
        references_wf(p),
    ensures
        decode_record(encode_package(p)) == Ok::<PackageView, ErrorView>(p),
{
    let r = encode_package(p);
    assert forall|j: int| 0 <= j < r.dependencies.len() implies parse_dependency(
        #[trigger] r.dependencies[j],
    ) == Some(p.dependencies[j]) by {
        lemma_parse_text(p.dependencies[j]);
    }
    assert(all_valid(r.dependencies));
    assert(decode_record(r)->Ok_0.dependencies =~= p.dependencies);
}

/// Records that decode are encoded as themselves.
pub proof fn lemma_encode_decoded_all(rs: Seq<PackageRecordView>)
    requires
        decode_records(rs) is Ok,
    ensures
        encode_packages(decode_records(rs)->Ok_0) == rs,
{
    if !records_valid(rs) {
        assert(decode_records(rs) is Err);
    }
    assert forall|i: int| 0 <= i < rs.len() implies encode_packages(decode_records(rs)->Ok_0)[i]
        == rs[i] by {
        assert(decode_record(rs[i]) is Ok);
        lemma_encode_decoded(rs[i]);
    }
    assert(encode_packages(decode_records(rs)->Ok_0) =~= rs);
}

/// The records of packages with well-formed references decode to the
/// packages.
pub proof fn lemma_decode_encoded_all(ps: Seq<PackageView>)
    requires
        forall|i: int| 0 <= i < ps.len() ==> references_wf(#[trigger] ps[i]),
    ensures
        decode_records(encode_packages(ps)) == Ok::<Seq<PackageView>, ErrorView>(ps),
{
    let rs = encode_packages(ps);
    assert forall|i: int| 0 <= i < rs.len() implies decode_record(#[trigger] rs[i]) == Ok::<
        PackageView,
        ErrorView,
    >(ps[i]) by {
        lemma_decode_encoded(ps[i]);
    }
    assert(records_valid(rs));
    assert(decode_records(rs)->Ok_0 =~= ps);
}

/// Every reference of the record is well formed: those of the packages,
/// those of the patch section, and the root.
pub open spec fn lockfile_wf(lf: LockfileView) -> bool {
    &&& forall|i: int| 0 <= i < lf.packages.len() ==> references_wf(#[trigger] lf.packages[i])
    &&& forall|i: int| 0 <= i < lf.patch.len() ==> references_wf(#[trigger] lf.patch[i])
    &&& lf.root matches Some(d) ==> dep_wf(d)
}

/// Writing and reading back: a record with well-formed references, whose
/// revision is the one that its content is told to be in, and which has a
/// root only in `V1`, is read back from the document it is written as.
pub proof fn lemma_read_written(lf: LockfileView)
    requires
        lockfile_wf(lf),
        detect(lf.packages, lf.metadata) == Ok::<ResolveVersion, ErrorView>(lf.version),
        lf.root is Some ==> lf.version == ResolveVersion::V1,
    ensures
        normalize(encode(lf)) == Ok::<LockfileView, ErrorView>(lf),
{
    lemma_translate_settled(lf);
    let records = encode_packages(lf.packages);
    let root: Option<Seq<char>> = match lf.root {
        Some(d) => Some(dep_text(d)),
        None => None,
    };
    let patch = encode_packages(lf.patch);
    assert(encode(lf) == canonical_document(records, root, lf.metadata, patch));
    lemma_normalize_canonical(records, root, lf.metadata, patch);
    lemma_decode_encoded_all(lf.packages);
    lemma_decode_encoded_all(lf.patch);
    if let Some(d) = lf.root {
        lemma_parse_text(d);
    }
}

/// Reading and writing back: a document of canonical layout that reads as
/// a record, and that has a root only if it is told to be in `V1`, is the
/// document that the record is written as.
pub proof fn lemma_written_as_read(
    records: Seq<PackageRecordView>,
    root: Option<Seq<char>>,
    metadata: Seq<EntryView>,
    patch: Seq<PackageRecordView>,
)
    requires
        normalize(canonical_document(records, root, metadata, patch)) is Ok,
        root is Some ==> normalize(canonical_document(records, root, metadata, patch))->Ok_0.version
            == ResolveVersion::V1,
    ensures
        encode(normalize(canonical_document(records, root, metadata, patch))->Ok_0)
            == canonical_document(records, root, metadata, patch),
{
    let doc = canonical_document(records, root, metadata, patch);
    lemma_normalize_canonical(records, root, metadata, patch);
    let lf = normalize(doc)->Ok_0;
    lemma_translate_settled(lf);
    lemma_encode_decoded_all(records);
    lemma_encode_decoded_all(patch);
    if let Some(text) = root {
        lemma_text_parse(text);
    }
}

/// A record that has been brought into the layout of a revision is
/// settled in it: bringing it there again changes nothing. So the record
/// with its revision set to `target` is written as the translated record
/// is.
pub proof fn lemma_translate_twice(lf: LockfileView, target: ResolveVersion)
    ensures
        translate(translate(lf, target), target) == translate(lf, target),
        encode(translate(lf, target)) == encode(LockfileView { version: target, ..lf }),
{
    let once = translate(lf, target);
    let twice = translate(once, target);
    if target == ResolveVersion::V1 {
        assert(!has_inline_checksum(once.packages));
        lemma_nothing_synthesized(once.packages, once.packages.len());
        assert(twice.packages =~= once.packages);
        assert(twice.metadata =~= once.metadata);
    } else {
        lemma_plain_entries_plain(lf.metadata, lf.metadata.len());
        lemma_all_plain(once.metadata, once.metadata.len());
        assert(once.metadata.take(once.metadata.len() as int) =~= once.metadata);
        assert forall|i: int| 0 <= i < once.packages.len() implies twice.packages[i]
            == once.packages[i] by {
            lemma_no_legacy_checksum(once.metadata, once.packages[i].id);
        }
        assert(twice.packages =~= once.packages);
    }
    assert(translate(LockfileView { version: target, ..lf }, target) == once);
}

/// No plain entry is under a checksum key.
pub proof fn lemma_plain_entries_plain(metadata: Seq<EntryView>, n: nat)
    requires
        n <= metadata.len(),
    ensures
        !has_checksum_key(plain_entries_upto(metadata, n)),
    decreases n,
{
    if n > 0 {
        lemma_plain_entries_plain(metadata, (n - 1) as nat);
        let before = plain_entries_upto(metadata, (n - 1) as nat);
        let now = plain_entries_upto(metadata, n);
        assert forall|i: int| 0 <= i < now.len() implies !is_checksum_key(#[trigger] now[i].key) by {
            if i < before.len() {
                assert(now[i] == before[i]);
                assert(!is_checksum_key(before[i].key));
            }
        }
    }
}

/// The packages that records decode to have well-formed references.
pub proof fn lemma_decoded_wf(rs: Seq<PackageRecordView>)
    requires
        decode_records(rs) is Ok,
    ensures
        forall|i: int|
            0 <= i < decode_records(rs)->Ok_0.len() ==> references_wf(
                #[trigger] decode_records(rs)->Ok_0[i],
            ),
{
    if !records_valid(rs) {
        assert(decode_records(rs) is Err);
    }
    let ps = decode_records(rs)->Ok_0;
    assert forall|i: int| 0 <= i < ps.len() implies references_wf(#[trigger] ps[i]) by {
        assert(decode_record(rs[i]) is Ok);
        let p = ps[i];
        assert forall|j: int| 0 <= j < p.dependencies.len() implies dep_wf(
            #[trigger] p.dependencies[j],
        ) by {
            assert(parse_dependency(rs[i].dependencies[j]) is Some);
            lemma_text_parse(rs[i].dependencies[j]);
        }
    }
}

/// Every reference of a record that was read from a document is well
/// formed.
pub proof fn lemma_normalized_wf(doc: Seq<SectionView>)
    requires
        normalize(doc) is Ok,
    ensures
        lockfile_wf(normalize(doc)->Ok_0),
{
    lemma_no_failure_when_ok(doc);
    let i = choose|i: int| 0 <= i < doc.len() && field_of(#[trigger] doc[i]) == Some(Field::Package);
    assert(section_error(doc, i) is None);
    lemma_decoded_wf(doc[i]->Packages_0);
    if has_section(doc, Field::Patch) {
        let j = choose|j: int| 0 <= j < doc.len() && field_of(#[trigger] doc[j]) == Some(Field::Patch);
        assert(section_error(doc, j) is None);
        lemma_decoded_wf(doc[j]->Patch_0);
    }
    if has_section(doc, Field::Root) {
        let j = choose|j: int| 0 <= j < doc.len() && field_of(#[trigger] doc[j]) == Some(Field::Root);
        assert(section_error(doc, j) is None);
        lemma_text_parse(doc[j]->Root_0);
    }
}

/// Reading, writing and reading again: the record of a document, if it has
/// a root only in `V1`, is read back from the document that it is written
/// as, whatever the layout of the document it came from.
pub proof fn lemma_reread(doc: Seq<SectionView>)
    requires
        normalize(doc) is Ok,
        normalize(doc)->Ok_0.root is Some ==> normalize(doc)->Ok_0.version == ResolveVersion::V1,
    ensures
        normalize(encode(normalize(doc)->Ok_0)) == normalize(doc),
{
    lemma_normalized_wf(doc);
    lemma_read_written(normalize(doc)->Ok_0);
}

} // verus!
