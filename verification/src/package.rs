//! Packages as a lock record lists them: names, versions, source locators,
//! identities and the package entries themselves.

use crate::dependency::{
    clone_dependencies, dep_text, dep_wf, parse_dependency, Dependency, DependencyView,
};
use crate::error::{result_view, Error, ErrorView};
use crate::text::{
    check_word, find_char, find_from, is_word, lemma_text_order_total,
    lemma_text_order_transitive, split, split_on, text_lt, text_precedes, views,
};
use vstd::prelude::*;
use vstd::string::*;

verus! {

/// A decimal digit.
pub open spec fn is_digit(c: char) -> bool {
    '0' <= c <= '9'
}

/// A character allowed in the pre-release and build parts of a version.
pub open spec fn is_ident_char(c: char) -> bool {
    is_digit(c) || ('a' <= c <= 'z') || ('A' <= c <= 'Z') || c == '-' || c == '.'
}

/// A decimal number without a superfluous leading zero.
pub open spec fn is_number(s: Seq<char>) -> bool {
    &&& s.len() > 0
    &&& forall|i: int| 0 <= i < s.len() ==> is_digit(#[trigger] s[i])
    &&& s.len() > 1 ==> s[0] != '0'
}

/// A non-empty run of identifier characters.
pub open spec fn is_ident_run(s: Seq<char>) -> bool {
    s.len() > 0 && forall|i: int| 0 <= i < s.len() ==> is_ident_char(#[trigger] s[i])
}

/// The text of a semantic version: a word of the form
/// `major.minor.patch`, optionally followed by `-` and a pre-release part,
/// optionally followed by `+` and a build part.
pub open spec fn is_version(s: Seq<char>) -> bool {
    let plus = find_from(s, '+', 0);
    let main = s.take(plus);
    let dash = find_from(main, '-', 0);
    let nums = split(main.take(dash), '.');
    &&& is_word(s)
    &&& plus < s.len() ==> is_ident_run(s.skip(plus + 1))
    &&& dash < main.len() ==> is_ident_run(main.skip(dash + 1))
    &&& nums.len() == 3
    &&& is_number(nums[0])
    &&& is_number(nums[1])
    &&& is_number(nums[2])
}

/// Decides whether `s` is a decimal number without a superfluous leading zero.
pub fn check_number(s: &str) -> (b: bool)
    ensures
        b == is_number(s@),
{
    let n: usize = s.unicode_len();
    if n == 0 {
        return false;
    }
    if n > 1 && s.get_char(0) == '0' {
        return false;
    }
    let mut i: usize = 0;
    while i < n
        invariant
            i <= n,
            n == s@.len(),
            forall|k: int| 0 <= k < i ==> is_digit(#[trigger] s@[k]),
        decreases n - i,
    {
        let c = s.get_char(i);
        if !('0' <= c && c <= '9') {
            return false;
        }
        i += 1;
    }
    true
}

/// Decides whether `s` is a non-empty run of identifier characters.
pub fn check_ident_run(s: &str) -> (b: bool)
    ensures
        b == is_ident_run(s@),
{
    let n: usize = s.unicode_len();
    if n == 0 {
        return false;
    }
    let mut i: usize = 0;
    while i < n
        invariant
            i <= n,
            n == s@.len(),
            forall|k: int| 0 <= k < i ==> is_ident_char(#[trigger] s@[k]),
        decreases n - i,
    {
        let c = s.get_char(i);
        let ok = ('0' <= c && c <= '9') || ('a' <= c && c <= 'z') || ('A' <= c && c <= 'Z') || c
            == '-' || c == '.';
        if !ok {
            return false;
        }
        i += 1;
    }
    true
}

/// Decides whether `s` is the text of a semantic version.
pub fn check_version(s: &str) -> (b: bool)
    ensures
        b == is_version(s@),
{
    if !check_word(s) {
        return false;
    }
    let n: usize = s.unicode_len();
    let plus = find_char(s, '+', 0);
    if plus < n && !check_ident_run(s.substring_char(plus + 1, n)) {
        return false;
    }
    let main = s.substring_char(0, plus);
    let dash = find_char(main, '-', 0);
    if dash < plus && !check_ident_run(main.substring_char(dash + 1, plus)) {
        return false;
    }
    let nums = split_on(main.substring_char(0, dash), '.');
    assert(views(nums@).len() == nums.len());
    if nums.len() != 3 {
        return false;
    }
    assert(views(nums@)[0] == nums[0]@);
    assert(views(nums@)[1] == nums[1]@);
    assert(views(nums@)[2] == nums[2]@);
    check_number(nums[0].as_str()) && check_number(nums[1].as_str()) && check_number(
        nums[2].as_str(),
    )
}

/// The name of a package: a word.
#[derive(Debug, PartialEq, Eq, PartialOrd, Ord, Hash)]
pub struct Name {
    text: String,
}

impl View for Name {
    type V = Seq<char>;

    closed spec fn view(&self) -> Seq<char> {
        self.text@
    }
}

impl Name {
    #[verifier::type_invariant]
    spec fn inv(self) -> bool {
        is_word(self.text@)
    }

    /// Accepts `s` as a name when it is a word.
    pub fn parse(s: &str) -> (r: Option<Name>)
        ensures
            r is Some <==> is_word(s@),
            r matches Some(n) ==> n@ == s@,
    {
        if check_word(s) {
            Some(Name { text: String::from_str(s) })
        } else {
            None
        }
    }

    /// The name as text.
    pub fn as_str(&self) -> (r: &str)
        ensures
            r@ == self@,
            is_word(self@),
    {
        proof {
            use_type_invariant(self);
        }
        self.text.as_str()
    }

    /// Whether two names are the same text.
    pub fn same(&self, other: &Name) -> (b: bool)
        ensures
            b == (self@ == other@),
    {
        self.text == other.text
    }
}

impl Clone for Name {
    fn clone(&self) -> (r: Self)
        ensures
            r@ == self@,
    {
        proof {
            use_type_invariant(self);
        }
        Name { text: self.text.clone() }
    }
}

/// A semantic version, held as the text that the record gives for it.
#[derive(Debug, PartialEq, Eq, PartialOrd, Ord, Hash)]
pub struct Version {
    text: String,
}

impl View for Version {
    type V = Seq<char>;

    closed spec fn view(&self) -> Seq<char> {
        self.text@
    }
}

impl Version {
    #[verifier::type_invariant]
    spec fn inv(self) -> bool {
        is_version(self.text@)
    }

    /// Accepts `s` as a version when it has the form of one.
    pub fn parse(s: &str) -> (r: Option<Version>)
        ensures
            r is Some <==> is_version(s@),
            r matches Some(v) ==> v@ == s@,
    {
        if check_version(s) {
            Some(Version { text: String::from_str(s) })
        } else {
            None
        }
    }

    /// The version as text.
    pub fn as_str(&self) -> (r: &str)
        ensures
            r@ == self@,
            is_version(self@),
    {
        proof {
            use_type_invariant(self);
        }
        self.text.as_str()
    }

    /// Whether two versions are the same text.
    pub fn same(&self, other: &Version) -> (b: bool)
        ensures
            b == (self@ == other@),
    {
        self.text == other.text
    }
}

impl Clone for Version {
    fn clone(&self) -> (r: Self)
        ensures
            r@ == self@,
    {
        proof {
            use_type_invariant(self);
        }
        Version { text: self.text.clone() }
    }
}

/// Where a package comes from: a word such as a registry or repository
/// locator.
#[derive(Debug, PartialEq, Eq, PartialOrd, Ord, Hash)]
pub struct SourceId {
    text: String,
}

impl View for SourceId {
    type V = Seq<char>;

    closed spec fn view(&self) -> Seq<char> {
        self.text@
    }
}

impl SourceId {
    #[verifier::type_invariant]
    spec fn inv(self) -> bool {
        is_word(self.text@)
    }

    /// Accepts `s` as a source locator when it is a word.
    pub fn parse(s: &str) -> (r: Option<SourceId>)
        ensures
            r is Some <==> is_word(s@),
            r matches Some(n) ==> n@ == s@,
    {
        if check_word(s) {
            Some(SourceId { text: String::from_str(s) })
        } else {
            None
        }
    }

    /// The locator as text.
    pub fn as_str(&self) -> (r: &str)
        ensures
            r@ == self@,
            is_word(self@),
    {
        proof {
            use_type_invariant(self);
        }
        self.text.as_str()
    }

    /// Whether two locators are the same text.
    pub fn same(&self, other: &SourceId) -> (b: bool)
        ensures
            b == (self@ == other@),
    {
        self.text == other.text
    }
}

impl Clone for SourceId {
    fn clone(&self) -> (r: Self)
        ensures
            r@ == self@,
    {
        proof {
            use_type_invariant(self);
        }
        SourceId { text: self.text.clone() }
    }
}

/// The view of an optional value.
pub open spec fn opt_view<T: View>(o: Option<T>) -> Option<T::V> {
    match o {
        Some(x) => Some(x@),
        None => None,
    }
}

/// Copies an optional source locator.
pub fn clone_source(o: &Option<SourceId>) -> (r: Option<SourceId>)
    ensures
        opt_view(r) == opt_view(*o),
{
    match o {
        Some(s) => Some(s.clone()),
        None => None,
    }
}

/// Copies an optional text.
pub fn clone_text(o: &Option<String>) -> (r: Option<String>)
    ensures
        opt_view(r) == opt_view(*o),
{
    match o {
        Some(s) => Some(s.clone()),
        None => None,
    }
}

/// Whether two optional source locators are both absent or the same text.
pub fn same_source(a: &Option<SourceId>, b: &Option<SourceId>) -> (r: bool)
    ensures
        r == (opt_view(*a) == opt_view(*b)),
{
    match (a, b) {
        (Some(x), Some(y)) => x.same(y),
        (None, None) => true,
        _ => false,
    }
}

/// What identifies a package within a record: its name, its version and,
/// where it has one, its source.
#[derive(Debug, PartialEq, Eq, PartialOrd, Ord, Hash)]
pub struct PackageId {
    pub name: Name,
    pub version: Version,
    pub source: Option<SourceId>,
}

/// The mathematical value of a `PackageId`.
pub struct PackageIdView {
    pub name: Seq<char>,
    pub version: Seq<char>,
    pub source: Option<Seq<char>>,
}

impl View for PackageId {
    type V = PackageIdView;

    open spec fn view(&self) -> PackageIdView {
        PackageIdView { name: self.name@, version: self.version@, source: opt_view(self.source) }
    }
}

/// An identity whose parts are well formed.
pub open spec fn id_wf(id: PackageIdView) -> bool {
    &&& is_word(id.name)
    &&& is_version(id.version)
    &&& id.source matches Some(s) ==> is_word(s)
}

/// The order of optional texts: an absent one comes before a present one,
/// and two present ones are ordered as texts.
pub open spec fn opt_lt(a: Option<Seq<char>>, b: Option<Seq<char>>) -> bool {
    match (a, b) {
        (None, Some(_)) => true,
        (Some(x), Some(y)) => text_lt(x, y),
        _ => false,
    }
}

/// The order of identities: by name, then by version, then by source, each
/// as text.
pub open spec fn id_lt(a: PackageIdView, b: PackageIdView) -> bool {
    ||| text_lt(a.name, b.name)
    ||| a.name == b.name && text_lt(a.version, b.version)
    ||| a.name == b.name && a.version == b.version && opt_lt(a.source, b.source)
}

/// No identity comes before itself, and of two different identities
/// exactly one comes before the other.
pub proof fn lemma_id_order_total(a: PackageIdView, b: PackageIdView)
    ensures
        !id_lt(a, a),
        a != b ==> (id_lt(a, b) <==> !id_lt(b, a)),
{
    lemma_text_order_total(a.name, b.name);
    lemma_text_order_total(a.version, b.version);
    lemma_text_order_total(a.name, a.name);
    lemma_text_order_total(a.version, a.version);
    match (a.source, b.source) {
        (Some(x), Some(y)) => {
            lemma_text_order_total(x, y);
        },
        _ => {},
    }
    if let Some(x) = a.source {
        lemma_text_order_total(x, x);
    }
}

/// The order of identities is transitive.
pub proof fn lemma_id_order_transitive(a: PackageIdView, b: PackageIdView, c: PackageIdView)
    requires
        id_lt(a, b),
        id_lt(b, c),
    ensures
        id_lt(a, c),
{
    lemma_text_order_total(a.name, b.name);
    lemma_text_order_total(b.name, c.name);
    lemma_text_order_total(a.version, b.version);
    lemma_text_order_total(b.version, c.version);
    if text_lt(a.name, b.name) && text_lt(b.name, c.name) {
        lemma_text_order_transitive(a.name, b.name, c.name);
    }
    if text_lt(a.version, b.version) && text_lt(b.version, c.version) {
        lemma_text_order_transitive(a.version, b.version, c.version);
    }
    match (a.source, b.source, c.source) {
        (Some(x), Some(y), Some(z)) => {
            if text_lt(x, y) && text_lt(y, z) {
                lemma_text_order_transitive(x, y, z);
            }
        },
        _ => {},
    }
}

impl PackageId {
    /// Whether the identity comes before `other` in the order of
    /// identities.
    pub fn precedes(&self, other: &PackageId) -> (b: bool)
        ensures
            b == id_lt(self@, other@),
    {
        if !self.name.same(&other.name) {
            return text_precedes(self.name.as_str(), other.name.as_str());
        }
        if !self.version.same(&other.version) {
            return text_precedes(self.version.as_str(), other.version.as_str());
        }
        proof {
            lemma_text_order_total(self@.name, other@.name);
            lemma_text_order_total(self@.version, other@.version);
        }
        match (&self.source, &other.source) {
            (None, Some(_)) => true,
            (Some(x), Some(y)) => text_precedes(x.as_str(), y.as_str()),
            _ => false,
        }
    }

    /// Every identity that exists at run time is well formed.
    pub fn well_formed(&self)
        ensures
            id_wf(self@),
    {
        let _ = self.name.as_str();
        let _ = self.version.as_str();
        if let Some(s) = &self.source {
            let _ = s.as_str();
        }
    }

    /// Whether two identities agree in name, version and source.
    pub fn same(&self, other: &PackageId) -> (b: bool)
        ensures
            b == (self@ == other@),
    {
        self.name.same(&other.name) && self.version.same(&other.version) && same_source(
            &self.source,
            &other.source,
        )
    }
}

impl Clone for PackageId {
    fn clone(&self) -> (r: Self)
        ensures
            r@ == self@,
    {
        PackageId {
            name: self.name.clone(),
            version: self.version.clone(),
            source: clone_source(&self.source),
        }
    }
}

/// A package entry as a document holds it: the dependencies are still the
/// compact texts that name them.
#[derive(Debug, PartialEq, Eq)]
pub struct PackageRecord {
    pub id: PackageId,
    pub checksum: Option<String>,
    pub dependencies: Vec<String>,
}

/// The mathematical value of a `PackageRecord`.
pub struct PackageRecordView {
    pub id: PackageIdView,
    pub checksum: Option<Seq<char>>,
    pub dependencies: Seq<Seq<char>>,
}

impl View for PackageRecord {
    type V = PackageRecordView;

    open spec fn view(&self) -> PackageRecordView {
        PackageRecordView {
            id: self.id@,
            checksum: opt_view(self.checksum),
            dependencies: views(self.dependencies@),
        }
    }
}

/// A package of the record model.
#[derive(Debug, PartialEq, Eq)]
pub struct Package {
    pub id: PackageId,
    pub checksum: Option<String>,
    pub dependencies: Vec<Dependency>,
}

/// The mathematical value of a `Package`.
pub struct PackageView {
    pub id: PackageIdView,
    pub checksum: Option<Seq<char>>,
    pub dependencies: Seq<DependencyView>,
}

impl View for Package {
    type V = PackageView;

    open spec fn view(&self) -> PackageView {
        PackageView {
            id: self.id@,
            checksum: opt_view(self.checksum),
            dependencies: views(self.dependencies@),
        }
    }
}

/// `i` is the first dependency text of `deps` that names no dependency.
pub open spec fn is_first_invalid(deps: Seq<Seq<char>>, i: int) -> bool {
    &&& 0 <= i < deps.len()
    &&& parse_dependency(deps[i]) is None
    &&& forall|j: int| 0 <= j < i ==> parse_dependency(#[trigger] deps[j]) is Some
}

/// Every dependency text of `deps` names a dependency.
pub open spec fn all_valid(deps: Seq<Seq<char>>) -> bool {
    forall|j: int| 0 <= j < deps.len() ==> parse_dependency(#[trigger] deps[j]) is Some
}

/// The package that a record stands for, or the error that its first
/// malformed dependency text gives.
pub open spec fn decode_record(r: PackageRecordView) -> Result<PackageView, ErrorView> {
    if all_valid(r.dependencies) {
        Ok(
            PackageView {
                id: r.id,
                checksum: r.checksum,
                dependencies: Seq::new(
                    r.dependencies.len(),
                    |i: int| parse_dependency(r.dependencies[i]).unwrap(),
                ),
            },
        )
    } else {
        let i = choose|i: int| is_first_invalid(r.dependencies, i);
        Err(ErrorView::InvalidDependencyReference(r.dependencies[i]))
    }
}

/// The record that stands for a package.
pub open spec fn encode_package(p: PackageView) -> PackageRecordView {
    PackageRecordView {
        id: p.id,
        checksum: p.checksum,
        dependencies: Seq::new(p.dependencies.len(), |i: int| dep_text(p.dependencies[i])),
    }
}

impl Package {
    /// Decodes a record: parses each of its dependency in order, and
    /// fails on the first that is malformed.
    pub fn from_record(record: &PackageRecord) -> (r: Result<Package, Error>)
        ensures
            result_view(r) == decode_record(record@),
    {
        let n: usize = record.dependencies.len();
        let mut deps: Vec<Dependency> = Vec::new();
        let mut i: usize = 0;
        let ghost texts_of = views(record.dependencies@);
        while i < n
            invariant
                i <= n,
                n == record.dependencies.len(),
                texts_of == views(record.dependencies@),
                deps.len() == i,
                forall|j: int| 0 <= j < i ==> parse_dependency(#[trigger] texts_of[j]) == Some(deps[j]@),
            decreases n - i,
        {
            assert(texts_of[i as int] == record.dependencies[i as int]@);
            match Dependency::parse(record.dependencies[i].as_str()) {
                Ok(d) => {
                    deps.push(d);
                },
                Err(e) => {
                    proof {
                        assert(is_first_invalid(texts_of, i as int));
                        let k = choose|k: int| is_first_invalid(texts_of, k);
                        assert(k == i);
                    }
                    return Err(e);
                },
            }
            i += 1;
        }
        let p = Package {
            id: record.id.clone(),
            checksum: clone_text(&record.checksum),
            dependencies: deps,
        };
        proof {
            assert(all_valid(texts_of));
            assert(p@.dependencies =~= decode_record(record@)->Ok_0.dependencies);
        }
        Ok(p)
    }

    /// Encodes the package as a record: writes each dependency as its
    /// compact text.
    pub fn to_record(&self) -> (r: PackageRecord)
        ensures
            r@ == encode_package(self@),
    {
        let n: usize = self.dependencies.len();
        let mut deps: Vec<String> = Vec::new();
        let mut i: usize = 0;
        while i < n
            invariant
                i <= n,
                n == self.dependencies.len(),
                deps.len() == i,
                forall|j: int| 0 <= j < i ==> (#[trigger] deps[j])@ == dep_text(self.dependencies[j]@),
            decreases n - i,
        {
            deps.push(self.dependencies[i].to_string());
            i += 1;
        }
        let r = PackageRecord {
            id: self.id.clone(),
            checksum: clone_text(&self.checksum),
            dependencies: deps,
        };
        proof {
            assert(r@.dependencies =~= encode_package(self@).dependencies);
        }
        r
    }
}

/// A package whose identity and references are well formed.
pub open spec fn package_wf(p: PackageView) -> bool {
    &&& id_wf(p.id)
    &&& forall|j: int| 0 <= j < p.dependencies.len() ==> dep_wf(#[trigger] p.dependencies[j])
}

impl Package {
    /// Every package that exists at run time is well formed.
    pub fn well_formed(&self)
        ensures
            package_wf(self@),
    {
        self.id.well_formed();
        let n: usize = self.dependencies.len();
        let mut j: usize = 0;
        while j < n
            invariant
                j <= n,
                n == self.dependencies.len(),
                forall|k: int| 0 <= k < j ==> dep_wf(#[trigger] self@.dependencies[k]),
            decreases n - j,
        {
            self.dependencies[j].well_formed();
            assert(self@.dependencies[j as int] == self.dependencies[j as int]@);
            j += 1;
        }
    }
}

/// Every package of the list is well formed.
pub fn all_well_formed(packages: &Vec<Package>)
    ensures
        forall|i: int| 0 <= i < packages.len() ==> package_wf(#[trigger] views(packages@)[i]),
{
    let n: usize = packages.len();
    let mut i: usize = 0;
    while i < n
        invariant
            i <= n,
            n == packages.len(),
            forall|k: int| 0 <= k < i ==> package_wf(#[trigger] views(packages@)[k]),
        decreases n - i,
    {
        packages[i].well_formed();
        assert(views(packages@)[i as int] == packages[i as int]@);
        i += 1;
    }
}

impl Clone for Package {
    fn clone(&self) -> (r: Self)
        ensures
            r@ == self@,
    {
        Package {
            id: self.id.clone(),
            checksum: clone_text(&self.checksum),
            dependencies: clone_dependencies(&self.dependencies),
        }
    }
}

/// Copies a list of packages.
pub fn clone_packages(v: &Vec<Package>) -> (r: Vec<Package>)
    ensures
        views(r@) == views(v@),
{
    let n: usize = v.len();
    let mut r: Vec<Package> = Vec::new();
    let mut i: usize = 0;
    while i < n
        invariant
            i <= n,
            n == v.len(),
            r.len() == i,
            forall|j: int| 0 <= j < i ==> (#[trigger] r[j])@ == v[j]@,
        decreases n - i,
    {
        r.push(v[i].clone());
        i += 1;
    }
    assert(views(r@) =~= views(v@));
    r
}

/// The records that stand for a list of packages.
pub open spec fn encode_packages(ps: Seq<PackageView>) -> Seq<PackageRecordView> {
    Seq::new(ps.len(), |i: int| encode_package(ps[i]))
}

/// Encodes each package of a list as a record.
pub fn to_records(v: &Vec<Package>) -> (r: Vec<PackageRecord>)
    ensures
        views(r@) == encode_packages(views(v@)),
{
    let n: usize = v.len();
    let mut r: Vec<PackageRecord> = Vec::new();
    let mut i: usize = 0;
    while i < n
        invariant
            i <= n,
            n == v.len(),
            r.len() == i,
            forall|j: int| 0 <= j < i ==> (#[trigger] r[j])@ == encode_package(v[j]@),
        decreases n - i,
    {
        r.push(v[i].to_record());
        i += 1;
    }
    assert(views(r@) =~= encode_packages(views(v@)));
    r
}

} // verus!
