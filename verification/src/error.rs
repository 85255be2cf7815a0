//! What can go wrong while a record is read or its graph is derived.

use crate::dependency::{dep_text, full_reference, Dependency, DependencyView};
use crate::package::{PackageId, PackageIdView};
use crate::text::{same_text, views};
use vstd::prelude::*;
use vstd::string::*;

verus! {

/// One of the recognised top-level sections of a document.
#[derive(Debug, Clone, Copy, PartialEq, Eq, Structural)]
pub enum Field {
    /// The list of packages.
    Package,
    /// The legacy root reference.
    Root,
    /// The metadata table.
    Metadata,
    /// The patch section.
    Patch,
}

/// The field that a top-level key names, if it names one.
pub open spec fn field_of_key(key: Seq<char>) -> Option<Field> {
    if key == "package"@ {
        Some(Field::Package)
    } else if key == "root"@ {
        Some(Field::Root)
    } else if key == "metadata"@ {
        Some(Field::Metadata)
    } else if key == "patch"@ {
        Some(Field::Patch)
    } else {
        None
    }
}

/// The key of a field.
pub open spec fn key_of(field: Field) -> Seq<char> {
    match field {
        Field::Package => "package"@,
        Field::Root => "root"@,
        Field::Metadata => "metadata"@,
        Field::Patch => "patch"@,
    }
}

impl Field {
    /// The field that a top-level key names. Any other key is to be
    /// ignored.
    pub fn from_key(key: &str) -> (r: Option<Field>)
        ensures
            r == field_of_key(key@),
    {
        if same_text(key, "package") {
            Some(Field::Package)
        } else if same_text(key, "root") {
            Some(Field::Root)
        } else if same_text(key, "metadata") {
            Some(Field::Metadata)
        } else if same_text(key, "patch") {
            Some(Field::Patch)
        } else {
            None
        }
    }

    /// The top-level key of the field.
    pub fn key(&self) -> (r: &'static str)
        ensures
            r@ == key_of(*self),
    {
        match self {
            Field::Package => "package",
            Field::Root => "root",
            Field::Metadata => "metadata",
            Field::Patch => "patch",
        }
    }
}

/// The key of a field names that field.
pub proof fn lemma_key_names_field(field: Field)
    ensures
        field_of_key(key_of(field)) == Some(field),
{
    reveal_strlit("package");
    reveal_strlit("root");
    reveal_strlit("metadata");
    reveal_strlit("patch");
    assert("package"@.len() == 7);
    assert("root"@.len() == 4);
    assert("metadata"@.len() == 8);
    assert("patch"@.len() == 5);
}

/// The failures of this library.
#[derive(Debug, PartialEq, Eq)]
pub enum Error {
    /// A recognised section occurs a second time.
    DuplicateSection(Field),
    /// A mandatory section is absent.
    MissingSection(Field),
    /// The document stores checksums in the way of two different revisions.
    FormatConflict,
    /// A dependency reference matches no package.
    UnresolvedDependency { from: PackageId, reference: Dependency },
    /// A dependency reference matches more than one package.
    AmbiguousDependency { from: PackageId, reference: Dependency, candidates: Vec<PackageId> },
    /// A compact dependency text is malformed.
    InvalidDependencyReference(String),
    /// A tree was asked for without naming a package.
    NoPackageNames,
    /// A tree was asked for a name that no package has.
    UnknownPackage(String),
}

/// The mathematical value of an `Error`.
pub enum ErrorView {
    DuplicateSection(Field),
    MissingSection(Field),
    FormatConflict,
    UnresolvedDependency { from: PackageIdView, reference: DependencyView },
    AmbiguousDependency {
        from: PackageIdView,
        reference: DependencyView,
        candidates: Seq<PackageIdView>,
    },
    InvalidDependencyReference(Seq<char>),
    NoPackageNames,
    UnknownPackage(Seq<char>),
}

impl View for Error {
    type V = ErrorView;

    open spec fn view(&self) -> ErrorView {
        match *self {
            Error::DuplicateSection(f) => ErrorView::DuplicateSection(f),
            Error::MissingSection(f) => ErrorView::MissingSection(f),
            Error::FormatConflict => ErrorView::FormatConflict,
            Error::UnresolvedDependency { from, reference } => ErrorView::UnresolvedDependency {
                from: from@,
                reference: reference@,
            },
            Error::AmbiguousDependency {
                from,
                reference,
                candidates,
            } => ErrorView::AmbiguousDependency {
                from: from@,
                reference: reference@,
                candidates: views(candidates@),
            },
            Error::InvalidDependencyReference(s) => ErrorView::InvalidDependencyReference(s@),
            Error::NoPackageNames => ErrorView::NoPackageNames,
            Error::UnknownPackage(s) => ErrorView::UnknownPackage(s@),
        }
    }
}

/// The view of a result: the view of what it holds on either side.
pub open spec fn result_view<T: View>(r: Result<T, Error>) -> Result<T::V, ErrorView> {
    match r {
        Ok(x) => Ok(x@),
        Err(e) => Err(e@),
    }
}

/// A package identity as text: the full reference to it.
pub open spec fn id_text(id: PackageIdView) -> Seq<char> {
    dep_text(full_reference(id))
}

/// The first `n` identities as text, with a comma and a space between
/// neighbours.
pub open spec fn listed_upto(ids: Seq<PackageIdView>, n: nat) -> Seq<char>
    decreases n,
{
    if n == 0 {
        Seq::empty()
    } else {
        listed_upto(ids, (n - 1) as nat) + (if n > 1 {
            ", "@
        } else {
            Seq::empty()
        }) + id_text(ids[n - 1])
    }
}

/// What an error says.
pub open spec fn message(e: ErrorView) -> Seq<char> {
    match e {
        ErrorView::DuplicateSection(f) => "duplicate section `"@ + key_of(f) + "`"@,
        ErrorView::MissingSection(f) => "missing section `"@ + key_of(f) + "`"@,
        ErrorView::FormatConflict => "checksums both on packages and in the metadata table"@,
        ErrorView::UnresolvedDependency { from, reference } => "unresolved dependency `"@
            + dep_text(reference) + "` of `"@ + id_text(from) + "`"@,
        ErrorView::AmbiguousDependency { from, reference, candidates } => "ambiguous dependency `"@
            + dep_text(reference) + "` of `"@ + id_text(from) + "`, which could be: "@
            + listed_upto(candidates, candidates.len()),
        ErrorView::InvalidDependencyReference(s) => "invalid dependency reference `"@ + s + "`"@,
        ErrorView::NoPackageNames => "no dependency names given"@,
        ErrorView::UnknownPackage(name) => "invalid dependency name: `"@ + name + "`"@,
    }
}

/// The line that reports an error: a fixed marker, then what the error
/// says.
pub open spec fn diagnostic(e: ErrorView) -> Seq<char> {
    "*** error: "@ + message(e)
}

impl Error {
    /// What the error says.
    pub fn message(&self) -> (r: String)
        ensures
            r@ == message(self@),
    {
        match self {
            Error::DuplicateSection(f) => {
                let mut out = String::from_str("duplicate section `");
                out.append(f.key());
                out.append("`");
                out
            },
            Error::MissingSection(f) => {
                let mut out = String::from_str("missing section `");
                out.append(f.key());
                out.append("`");
                out
            },
            Error::FormatConflict => String::from_str(
                "checksums both on packages and in the metadata table",
            ),
            Error::UnresolvedDependency { from, reference } => {
                let mut out = String::from_str("unresolved dependency `");
                out.append(reference.to_string().as_str());
                out.append("` of `");
                out.append(Dependency::from_id(from).to_string().as_str());
                out.append("`");
                out
            },
            Error::AmbiguousDependency { from, reference, candidates } => {
                let mut out = String::from_str("ambiguous dependency `");
                out.append(reference.to_string().as_str());
                out.append("` of `");
                out.append(Dependency::from_id(from).to_string().as_str());
                out.append("`, which could be: ");
                let ghost head = out@;
                let ghost ids = views(candidates@);
                let n: usize = candidates.len();
                let mut i: usize = 0;
                assert(out@ =~= head + listed_upto(ids, 0));
                while i < n
                    invariant
                        i <= n,
                        n == candidates.len(),
                        ids == views(candidates@),
                        out@ == head + listed_upto(ids, i as nat),
                    decreases n - i,
                {
                    if i > 0 {
                        out.append(", ");
                    }
                    assert(ids[i as int] == candidates[i as int]@);
                    out.append(Dependency::from_id(&candidates[i]).to_string().as_str());
                    assert(out@ =~= head + listed_upto(ids, (i + 1) as nat));
                    i += 1;
                }
                out
            },
            Error::InvalidDependencyReference(s) => {
                let mut out = String::from_str("invalid dependency reference `");
                out.append(s.as_str());
                out.append("`");
                out
            },
            Error::NoPackageNames => String::from_str("no dependency names given"),
            Error::UnknownPackage(name) => {
                let mut out = String::from_str("invalid dependency name: `");
                out.append(name.as_str());
                out.append("`");
                out
            },
        }
    }

    /// The line that reports the error.
    pub fn diagnostic(&self) -> (r: String)
        ensures
            r@ == diagnostic(self@),
    {
        let mut out = String::from_str("*** error: ");
        out.append(self.message().as_str());
        out
    }
}

} // verus!
