//! References from one package to another, and the compact text that a
//! document uses for them.

pub mod graph;
pub mod tree;

use crate::error::{Error, ErrorView};
use crate::package::{
    clone_source, is_version, opt_view, same_source, Name, PackageId, PackageIdView, SourceId,
    Version,
};
use crate::text::{
    free_of, is_word, join, lemma_join_cons, lemma_join_split, lemma_split_join, split, split_on,
    views,
};
use vstd::prelude::*;
use vstd::string::*;

verus! {

/// A reference to a package: its name and, where the document recorded
/// them, its version and its source.
#[derive(Debug, PartialEq, Eq, PartialOrd, Ord, Hash)]
pub struct Dependency {
    pub name: Name,
    pub version: Option<Version>,
    pub source: Option<SourceId>,
}

/// The mathematical value of a `Dependency`.
pub struct DependencyView {
    pub name: Seq<char>,
    pub version: Option<Seq<char>>,
    pub source: Option<Seq<char>>,
}

impl View for Dependency {
    type V = DependencyView;

    open spec fn view(&self) -> DependencyView {
        DependencyView {
            name: self.name@,
            version: opt_view(self.version),
            source: opt_view(self.source),
        }
    }
}

/// A reference whose parts are well formed.
pub open spec fn dep_wf(d: DependencyView) -> bool {
    &&& is_word(d.name)
    &&& d.version matches Some(v) ==> is_version(v)
    &&& d.source matches Some(s) ==> is_word(s)
}

/// A source locator as it stands in a compact text: in parentheses.
pub open spec fn source_field(source: Seq<char>) -> Seq<char> {
    seq!['('] + source + seq![')']
}

/// The locator that a field in parentheses holds.
pub open spec fn unwrap_source(f: Seq<char>) -> Option<Seq<char>> {
    if f.len() >= 2 && f[0] == '(' && f.last() == ')' && is_word(f.subrange(1, f.len() - 1)) {
        Some(f.subrange(1, f.len() - 1))
    } else {
        None
    }
}

/// The fields of the compact text of a reference: the name, then the
/// version if there is one, then the source in parentheses if there is one.
pub open spec fn dep_fields(d: DependencyView) -> Seq<Seq<char>> {
    seq![d.name] + (match d.version {
        Some(v) => seq![v],
        None => seq![],
    }) + (match d.source {
        Some(s) => seq![source_field(s)],
        None => seq![],
    })
}

/// The compact text of a reference: its fields with one space between
/// neighbours.
pub open spec fn dep_text(d: DependencyView) -> Seq<char> {
    join(dep_fields(d), ' ')
}

/// The reference that a list of fields stands for.
pub open spec fn dep_of_fields(fs: Seq<Seq<char>>) -> Option<DependencyView> {
    if fs.len() == 1 && is_word(fs[0]) {
        Some(DependencyView { name: fs[0], version: None, source: None })
    } else if fs.len() == 2 && is_word(fs[0]) && is_version(fs[1]) {
        Some(DependencyView { name: fs[0], version: Some(fs[1]), source: None })
    } else if fs.len() == 2 && is_word(fs[0]) && unwrap_source(fs[1]) is Some {
        Some(DependencyView { name: fs[0], version: None, source: unwrap_source(fs[1]) })
    } else if fs.len() == 3 && is_word(fs[0]) && is_version(fs[1]) && unwrap_source(fs[2]) is Some {
        Some(DependencyView { name: fs[0], version: Some(fs[1]), source: unwrap_source(fs[2]) })
    } else {
        None
    }
}

/// The reference that a compact text stands for, if it is well formed.
pub open spec fn parse_dependency(s: Seq<char>) -> Option<DependencyView> {
    dep_of_fields(split(s, ' '))
}

/// Whether a reference admits a package: the names agree, and so do the
/// version and the source as far as the reference gives them.
pub open spec fn admits(r: DependencyView, id: PackageIdView) -> bool {
    &&& r.name == id.name
    &&& r.version matches Some(v) ==> v == id.version
    &&& r.source matches Some(s) ==> id.source == Some(s)
}

/// The reference that names a package in full.
pub open spec fn full_reference(id: PackageIdView) -> DependencyView {
    DependencyView { name: id.name, version: Some(id.version), source: id.source }
}

/// Reading the compact text of a well-formed reference gives the reference
/// back.
pub proof fn lemma_parse_text(d: DependencyView)
    requires
        dep_wf(d),
    ensures
        parse_dependency(dep_text(d)) == Some(d),
{
    let fs = dep_fields(d);
    assert forall|k: int| 0 <= k < fs.len() implies free_of(#[trigger] fs[k], ' ') by {
        let f = fs[k];
        if k == 0 {
            assert(f == d.name);
        } else if d.version is Some && k == 1 {
            assert(f == d.version->0);
        } else {
            let s = d.source->0;
            assert(f == source_field(s));
            assert forall|i: int| 0 <= i < f.len() implies #[trigger] f[i] != ' ' by {
                if 0 < i < f.len() - 1 {
                    assert(f[i] == s[i - 1]);
                }
            }
        }
    }
    lemma_split_join(fs, ' ');
    if let Some(s) = d.source {
        let f = source_field(s);
        assert(f.subrange(1, f.len() - 1) =~= s);
        assert(unwrap_source(f) == Some(s));
        assert(!is_word(f));
    }
}

/// A text that reads as a reference is the compact text of that reference,
/// and the reference is well formed.
pub proof fn lemma_text_parse(s: Seq<char>)
    requires
        parse_dependency(s) is Some,
    ensures
        dep_wf(parse_dependency(s)->0),
        dep_text(parse_dependency(s)->0) == s,
{
    let fs = split(s, ' ');
    let d = parse_dependency(s)->0;
    lemma_join_split(s, ' ');
    if d.source is Some {
        let f = fs[fs.len() - 1];
        assert(source_field(f.subrange(1, f.len() - 1)) =~= f);
    }
    assert(dep_fields(d) =~= fs);
}

/// Reads the locator out of a field in parentheses.
fn parse_source_field(f: &str) -> (r: Option<SourceId>)
    ensures
        opt_view(r) == unwrap_source(f@),
{
    let n: usize = f.unicode_len();
    if n < 2 || f.get_char(0) != '(' || f.get_char(n - 1) != ')' {
        return None;
    }
    SourceId::parse(f.substring_char(1, n - 1))
}

impl Dependency {
    /// Reads a compact dependency text.
    pub fn parse(s: &str) -> (r: Result<Dependency, Error>)
        ensures
            match r {
                Ok(d) => parse_dependency(s@) == Some(d@),
                Err(e) => parse_dependency(s@) is None && e@ == ErrorView::InvalidDependencyReference(
                    s@,
                ),
            },
    {
        let fields = split_on(s, ' ');
        let n: usize = fields.len();
        let ghost fs = split(s@, ' ');
        assert(fs.len() == n);
        if n == 0 || n > 3 {
            return Err(Error::InvalidDependencyReference(String::from_str(s)));
        }
        assert(fs[0] == fields[0]@);
        let name = match Name::parse(fields[0].as_str()) {
            Some(name) => name,
            None => {
                return Err(Error::InvalidDependencyReference(String::from_str(s)));
            },
        };
        if n == 1 {
            return Ok(Dependency { name, version: None, source: None });
        }
        assert(fs[1] == fields[1]@);
        let version = Version::parse(fields[1].as_str());
        if n == 2 {
            if version.is_some() {
                return Ok(Dependency { name, version, source: None });
            }
            let source = parse_source_field(fields[1].as_str());
            if source.is_some() {
                return Ok(Dependency { name, version: None, source });
            }
            return Err(Error::InvalidDependencyReference(String::from_str(s)));
        }
        assert(fs[2] == fields[2]@);
        let source = parse_source_field(fields[2].as_str());
        if version.is_some() && source.is_some() {
            Ok(Dependency { name, version, source })
        } else {
            Err(Error::InvalidDependencyReference(String::from_str(s)))
        }
    }

    /// Writes the compact text of the reference.
    pub fn to_string(&self) -> (r: String)
        ensures
            r@ == dep_text(self@),
    {
        let mut out = String::from_str(self.name.as_str());
        let ghost tail: Seq<Seq<char>> = match self@.source {
            Some(s) => seq![source_field(s)],
            None => seq![],
        };
        let ghost mid: Seq<Seq<char>> = match self@.version {
            Some(v) => seq![v],
            None => seq![],
        };
        if let Some(v) = &self.version {
            out.append(" ");
            out.append(v.as_str());
        }
        if let Some(s) = &self.source {
            out.append(" (");
            out.append(s.as_str());
            out.append(")");
        }
        proof {
            reveal_strlit(" ");
            reveal_strlit(" (");
            reveal_strlit(")");
            assert(" "@ =~= seq![' ']);
            assert(" ("@ =~= seq![' ', '(']);
            assert(")"@ =~= seq![')']);
            assert(dep_fields(self@) =~= seq![self@.name] + (mid + tail));
            lemma_join_cons(self@.name, mid + tail, ' ');
            if self@.version is Some {
                assert(mid + tail =~= seq![self@.version->0] + tail);
                lemma_join_cons(self@.version->0, tail, ' ');
            } else {
                assert(mid + tail =~= tail);
            }
            if self@.source is Some {
                let f = source_field(self@.source->0);
                assert(tail =~= seq![f] + Seq::<Seq<char>>::empty());
                lemma_join_cons(f, Seq::empty(), ' ');
            }
            assert(out@ =~= dep_text(self@));
        }
        out
    }

    /// The reference that names a package in full.
    pub fn from_id(id: &PackageId) -> (r: Dependency)
        ensures
            r@ == full_reference(id@),
    {
        Dependency {
            name: id.name.clone(),
            version: Some(id.version.clone()),
            source: clone_source(&id.source),
        }
    }

    /// Whether the reference admits the package `id`.
    pub fn admits(&self, id: &PackageId) -> (b: bool)
        ensures
            b == admits(self@, id@),
    {
        if !self.name.same(&id.name) {
            return false;
        }
        if let Some(v) = &self.version {
            if !v.same(&id.version) {
                return false;
            }
        }
        if let Some(s) = &self.source {
            match &id.source {
                Some(t) => {
                    if !s.same(t) {
                        return false;
                    }
                },
                None => {
                    return false;
                },
            }
        }
        true
    }

    /// Every reference that exists at run time is well formed.
    pub fn well_formed(&self)
        ensures
            dep_wf(self@),
    {
        let _ = self.name.as_str();
        if let Some(v) = &self.version {
            let _ = v.as_str();
        }
        if let Some(s) = &self.source {
            let _ = s.as_str();
        }
    }

    /// Whether two references agree in every part.
    pub fn same(&self, other: &Dependency) -> (b: bool)
        ensures
            b == (self@ == other@),
    {
        let versions = match (&self.version, &other.version) {
            (Some(x), Some(y)) => x.same(y),
            (None, None) => true,
            _ => false,
        };
        self.name.same(&other.name) && versions && same_source(&self.source, &other.source)
    }
}

/// Copies a list of references.
pub fn clone_dependencies(v: &Vec<Dependency>) -> (r: Vec<Dependency>)
    ensures
        views(r@) == views(v@),
{
    let n: usize = v.len();
    let mut r: Vec<Dependency> = Vec::new();
    let mut i: usize = 0;
    while i < n
        invariant
            i <= n,
            n == v.len(),
            r.len() == i,
            forall|j: int| 0 <= j < i ==> (#[trigger] r[j])@ == v[j]@,
        decreases n - i,
    {
        r.push(v[i].clone());
        i += 1;
    }
    assert(views(r@) =~= views(v@));
    r
}

/// Copies an optional reference.
pub fn clone_reference(o: &Option<Dependency>) -> (r: Option<Dependency>)
    ensures
        opt_view(r) == opt_view(*o),
{
    match o {
        Some(d) => Some(d.clone()),
        None => None,
    }
}

impl Clone for Dependency {
    fn clone(&self) -> (r: Self)
        ensures
            r@ == self@,
    {
        Dependency {
            name: self.name.clone(),
            version: match &self.version {
                Some(v) => Some(v.clone()),
                None => None,
            },
            source: clone_source(&self.source),
        }
    }
}

} // verus!
