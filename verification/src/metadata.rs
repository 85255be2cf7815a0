//! The metadata table of a record, and the keys under which the oldest
//! revision keeps checksums in it.

use crate::dependency::{
    dep_text, full_reference, lemma_parse_text, lemma_text_parse, parse_dependency, Dependency,
};
use crate::package::{id_wf, opt_view, PackageId, PackageIdView};
use crate::text::{same_text, starts_with, views};
use vstd::prelude::*;
use vstd::string::*;

verus! {

/// One entry of the metadata table: a key and its value.
#[derive(Debug, PartialEq, Eq)]
pub struct Entry {
    pub key: String,
    pub value: String,
}

/// The mathematical value of an `Entry`.
pub struct EntryView {
    pub key: Seq<char>,
    pub value: Seq<char>,
}

impl View for Entry {
    type V = EntryView;

    open spec fn view(&self) -> EntryView {
        EntryView { key: self.key@, value: self.value@ }
    }
}

impl Clone for Entry {
    fn clone(&self) -> (r: Self)
        ensures
            r@ == self@,
    {
        Entry { key: self.key.clone(), value: self.value.clone() }
    }
}

/// What every checksum key begins with.
pub open spec fn checksum_prefix() -> Seq<char> {
    "checksum "@
}

/// The key under which the oldest revision keeps the checksum of the
/// package `id`: the prefix, then the full reference to the package.
pub open spec fn checksum_key(id: PackageIdView) -> Seq<char> {
    checksum_prefix() + dep_text(full_reference(id))
}

/// The package whose checksum a key holds, if the key is a checksum key.
pub open spec fn key_target(key: Seq<char>) -> Option<PackageIdView> {
    if checksum_prefix().is_prefix_of(key) {
        match parse_dependency(key.skip(checksum_prefix().len() as int)) {
            Some(d) => match d.version {
                Some(v) => Some(PackageIdView { name: d.name, version: v, source: d.source }),
                None => None,
            },
            None => None,
        }
    } else {
        None
    }
}

/// Whether a key has the form of a checksum key.
pub open spec fn is_checksum_key(key: Seq<char>) -> bool {
    key_target(key) is Some
}

/// The checksum key of a well-formed identity leads back to the identity.
pub proof fn lemma_key_target(id: PackageIdView)
    requires
        id_wf(id),
    ensures
        key_target(checksum_key(id)) == Some(id),
{
    let d = full_reference(id);
    let k = checksum_key(id);
    lemma_parse_text(d);
    assert(k.subrange(0, checksum_prefix().len() as int) =~= checksum_prefix());
    assert(k.skip(checksum_prefix().len() as int) =~= dep_text(d));
}

/// A checksum key is the checksum key of the identity it leads to, and that
/// identity is well formed.
pub proof fn lemma_checksum_key(key: Seq<char>)
    requires
        is_checksum_key(key),
    ensures
        id_wf(key_target(key)->0),
        checksum_key(key_target(key)->0) == key,
{
    let rest = key.skip(checksum_prefix().len() as int);
    lemma_text_parse(rest);
    let d = parse_dependency(rest)->0;
    let id = key_target(key)->0;
    assert(full_reference(id) == d);
    assert(key.subrange(0, checksum_prefix().len() as int) == checksum_prefix());
    assert(checksum_prefix() + rest =~= key);
}

/// The package whose checksum `key` holds, if `key` is a checksum key.
pub fn checksum_target(key: &str) -> (r: Option<PackageId>)
    ensures
        opt_view(r) == key_target(key@),
{
    if !starts_with(key, "checksum ") {
        return None;
    }
    proof {
        reveal_strlit("checksum ");
    }
    let n: usize = key.unicode_len();
    assert("checksum "@.len() == 9);
    assert(key@.subrange(0, 9).len() == 9);
    match Dependency::parse(key.substring_char(9, n)) {
        Ok(d) => match d.version {
            Some(v) => Some(PackageId { name: d.name, version: v, source: d.source }),
            None => None,
        },
        Err(_) => None,
    }
}

/// The key under which the oldest revision keeps the checksum of `id`.
pub fn checksum_key_for(id: &PackageId) -> (r: String)
    ensures
        r@ == checksum_key(id@),
{
    let mut out = String::from_str("checksum ");
    let text = Dependency::from_id(id).to_string();
    out.append(text.as_str());
    out
}

/// The metadata table: entries in the order of the document.
#[derive(Debug, PartialEq, Eq)]
pub struct Metadata {
    pub entries: Vec<Entry>,
}

impl View for Metadata {
    type V = Seq<EntryView>;

    open spec fn view(&self) -> Seq<EntryView> {
        views(self.entries@)
    }
}

/// Some key of the table is a checksum key.
pub open spec fn has_checksum_key(table: Seq<EntryView>) -> bool {
    exists|i: int| 0 <= i < table.len() && is_checksum_key(#[trigger] table[i].key)
}

/// The value of the first entry under `key`, if there is one.
pub open spec fn lookup(table: Seq<EntryView>, key: Seq<char>) -> Option<Seq<char>>
    decreases table.len(),
{
    if table.len() == 0 {
        None
    } else if table[0].key == key {
        Some(table[0].value)
    } else {
        lookup(table.skip(1), key)
    }
}

impl Metadata {
    /// The empty table.
    pub fn new() -> (r: Metadata)
        ensures
            r@ == Seq::<EntryView>::empty(),
    {
        let r = Metadata { entries: Vec::new() };
        assert(r@ =~= Seq::<EntryView>::empty());
        r
    }

    /// Whether the table holds a checksum key.
    pub fn has_checksum_key(&self) -> (b: bool)
        ensures
            b == has_checksum_key(self@),
    {
        let n: usize = self.entries.len();
        let mut i: usize = 0;
        while i < n
            invariant
                i <= n,
                n == self.entries.len(),
                forall|j: int| 0 <= j < i ==> !is_checksum_key(#[trigger] self@[j].key),
            decreases n - i,
        {
            assert(self@[i as int] == self.entries[i as int]@);
            if checksum_target(self.entries[i].key.as_str()).is_some() {
                assert(is_checksum_key(self@[i as int].key));
                return true;
            }
            i += 1;
        }
        false
    }

    /// The value of the first entry under `key`.
    pub fn get(&self, key: &str) -> (r: Option<String>)
        ensures
            opt_view(r) == lookup(self@, key@),
    {
        let n: usize = self.entries.len();
        let mut i: usize = 0;
        assert(self@.skip(0) =~= self@);
        while i < n
            invariant
                i <= n,
                n == self.entries.len(),
                lookup(self@, key@) == lookup(self@.skip(i as int), key@),
            decreases n - i,
        {
            let ghost rest = self@.skip(i as int);
            assert(rest[0] == self.entries[i as int]@);
            assert(rest.skip(1) =~= self@.skip(i + 1));
            if same_text(self.entries[i].key.as_str(), key) {
                return Some(self.entries[i].value.clone());
            }
            i += 1;
        }
        assert(self@.skip(n as int).len() == 0);
        None
    }
}

impl Clone for Metadata {
    fn clone(&self) -> (r: Self)
        ensures
            r@ == self@,
    {
        let n: usize = self.entries.len();
        let mut entries: Vec<Entry> = Vec::new();
        let mut i: usize = 0;
        while i < n
            invariant
                i <= n,
                n == self.entries.len(),
                entries.len() == i,
                forall|j: int| 0 <= j < i ==> (#[trigger] entries[j])@ == self.entries[j]@,
            decreases n - i,
        {
            entries.push(self.entries[i].clone());
            i += 1;
        }
        let r = Metadata { entries };
        assert(r@ =~= self@);
        r
    }
}

} // verus!
