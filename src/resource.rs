//! The resource catalog: named resources with a unit value each.

use vstd::prelude::*;
use vstd::string::StringSliceAdditionalSpecFns;
use crate::doc::{Doc, parse_yaml, yaml_doc_of, yaml_bounded, yaml_is_bounded, key_text, int_of};

verus! {

/// A named resource and its unit value.
pub struct Resource {
    pub name: String,
    pub value: u32,
}

impl Resource {
    /// A copy of this resource.
    pub fn duplicate(&self) -> (r: Resource)
        ensures
            r.name@ == self.name@,
            r.value == self.value,
    {
        Resource { name: self.name.clone(), value: self.value }
    }
}

/// Whether the names of a catalog are non-empty and pairwise distinct.
pub open spec fn catalog_wf(c: Seq<(Seq<char>, u32)>) -> bool {
    &&& forall|i: int| 0 <= i < c.len() ==> (#[trigger] c[i]).0.len() > 0
    &&& forall|i: int, j: int| 0 <= i < j < c.len() ==> (#[trigger] c[i]).0 != (#[trigger] c[j]).0
}

/// The value of the resource called `name`, if the catalog holds one.
pub open spec fn lookup(c: Seq<(Seq<char>, u32)>, name: Seq<char>) -> Option<u32>
    decreases c.len(),
{
    if c.len() == 0 {
        None
    } else if c.last().0 == name {
        Some(c.last().1)
    } else {
        lookup(c.drop_last(), name)
    }
}

/// The catalog: resources in source order, each name at most once.
pub struct ResourceMap {
    resources: Vec<Resource>,
}

impl View for ResourceMap {
    /// Name and value of each resource, in source order.
    type V = Seq<(Seq<char>, u32)>;

    closed spec fn view(&self) -> Seq<(Seq<char>, u32)> {
        self.resources@.map_values(|r: Resource| (r.name@, r.value))
    }
}

/// Why a catalog source was refused.
#[derive(Debug)]
pub enum CatalogError {
    /// The text has a line longer than `MAX_LINE` bytes or a `*` (an alias),
    /// which the YAML loader is not given.
    Unsupported,
    /// The text is not a YAML document.
    NotParsed,
    /// The document is not a mapping of names to values.
    NotAMapping,
    /// The key of the entry at this position is not a non-empty string.
    BadName { index: usize },
    /// The value of this resource is missing, not an integer, or out of range.
    BadValue { name: String },
    /// This resource is named twice. A catalog read from YAML text never
    /// gives it: the YAML loader merges a repeated key into one entry that
    /// holds the last value, at the place of the last occurrence.
    Duplicate { name: String },
}

/// Whether the name of entry `i` is a non-empty string.
pub open spec fn name_ok(es: Seq<(Doc, Doc)>, i: int) -> bool {
    es[i].0 is Text && key_text(es[i].0).len() > 0
}

/// Whether the value of entry `i` is an integer that fits a `u32`.
pub open spec fn value_ok(es: Seq<(Doc, Doc)>, i: int) -> bool {
    int_of(es[i].1) is Some && 0 <= int_of(es[i].1)->0 <= u32::MAX
}

/// Whether entry `i` is well formed and names no resource named before it.
pub open spec fn entry_ok(es: Seq<(Doc, Doc)>, i: int) -> bool {
    &&& name_ok(es, i)
    &&& value_ok(es, i)
    &&& forall|j: int| 0 <= j < i ==> key_text(#[trigger] es[j].0) != key_text(es[i].0)
}

/// Whether `e` is the error that reports entry `i`, the first entry that is not `entry_ok`.
pub open spec fn reports(e: CatalogError, es: Seq<(Doc, Doc)>, i: int) -> bool {
    if !name_ok(es, i) {
        e == CatalogError::BadName { index: i as usize }
    } else if !value_ok(es, i) {
        e matches CatalogError::BadValue { name } && name@ == key_text(es[i].0)
    } else {
        e matches CatalogError::Duplicate { name } && name@ == key_text(es[i].0)
    }
}

/// The catalog that a valid list of entries describes.
pub open spec fn catalog_of(es: Seq<(Doc, Doc)>) -> Seq<(Seq<char>, u32)> {
    es.map_values(|e: (Doc, Doc)| (key_text(e.0), (int_of(e.1)->0) as u32))
}

/// What reading a catalog document gives: the catalog when it is valid, or
/// the error that reports its first faulty entry.
pub open spec fn catalog_result(d: Doc, r: Result<ResourceMap, CatalogError>) -> bool {
    match d {
        Doc::Mapping(es) => {
            &&& r matches Ok(m) ==> m@ == catalog_of(es@)
                && forall|i: int| 0 <= i < es@.len() ==> entry_ok(es@, i)
            &&& r matches Err(e) ==> exists|i: int|
                0 <= i < es@.len() && !entry_ok(es@, i)
                && (forall|j: int| 0 <= j < i ==> entry_ok(es@, j))
                && #[trigger] reports(e, es@, i)
        },
        _ => r matches Err(CatalogError::NotAMapping),
    }
}

impl ResourceMap {
    /// Whether the catalog's names are non-empty and distinct.
    pub open spec fn wf(&self) -> bool {
        catalog_wf(self@)
    }

    /// Reads a catalog from YAML text: a mapping of resource names to
    /// non-negative integer values. A name given twice in the text is not
    /// reported: the YAML loader keeps its last value.
    pub fn load(text: &str) -> (r: Result<ResourceMap, CatalogError>)
        ensures
            !yaml_bounded(text.spec_bytes()) ==> r matches Err(CatalogError::Unsupported),
            yaml_bounded(text.spec_bytes()) ==> match yaml_doc_of(text@) {
                Some(d) => catalog_result(d, r),
                None => r matches Err(CatalogError::NotParsed),
            },
            r matches Ok(m) ==> m.wf(),
    {
        if !yaml_is_bounded(text) {
            return Err(CatalogError::Unsupported);
        }
        match parse_yaml(text) {
            Some(d) => read_resources(&d),
            None => Err(CatalogError::NotParsed),
        }
    }

    /// The number of resources.
    pub fn len(&self) -> (r: usize)
        ensures
            r == self@.len(),
    {
        self.resources.len()
    }

    /// The resource at position `i`, in source order.
    pub fn resource_at(&self, i: usize) -> (r: &Resource)
        requires
            i < self@.len(),
        ensures
            (r.name@, r.value) == self@[i as int],
    {
        &self.resources[i]
    }

    /// The resource called `name`, if there is one.
    pub fn get(&self, name: &str) -> (r: Option<&Resource>)
        ensures
            match r {
                Some(res) => lookup(self@, name@) == Some(res.value) && res.name@ == name@,
                None => lookup(self@, name@) is None,
            },
    {
        let target = name.to_owned();
        let mut i: usize = self.resources.len();
        assert(self@.take(i as int) =~= self@);
        while i > 0
            invariant
                i <= self.resources@.len(),
                target@ == name@,
                lookup(self@, name@) == lookup(self@.take(i as int), name@),
            decreases i,
        {
            assert(self@.take(i as int).drop_last() =~= self@.take(i as int - 1));
            assert(self@[i - 1] == (self.resources@[i - 1].name@, self.resources@[i - 1].value));
            assert(self@.take(i as int).last() == self@[i - 1]);
            assert(self@.take(i as int).len() == i);
            assert(lookup(self@.take(i as int), name@) == if self@[i - 1].0 == name@ {
                Some(self@[i - 1].1)
            } else {
                lookup(self@.take(i as int - 1), name@)
            });
            if self.resources[i - 1].name == target {
                return Some(&self.resources[i - 1]);
            }
            i -= 1;
        }
        None
    }
}

/// Builds the catalog from a document: a mapping of resource names to values.
pub fn read_resources(d: &Doc) -> (r: Result<ResourceMap, CatalogError>)
    ensures
        catalog_result(*d, r),
        r matches Ok(m) ==> m.wf(),
{
    let es = match d {
        Doc::Mapping(es) => es,
        _ => { return Err(CatalogError::NotAMapping); },
    };
    let mut resources: Vec<Resource> = Vec::new();
    let mut i: usize = 0;
    while i < es.len()
        invariant
            i <= es@.len(),
            *d == Doc::Mapping(*es),
            resources@.len() == i,
            forall|k: int| 0 <= k < i ==> entry_ok(es@, k),
            forall|k: int| #![trigger resources@[k]] 0 <= k < i ==>
                resources@[k].name@ == key_text(es@[k].0)
                && resources@[k].value == (int_of(es@[k].1)->0) as u32,
        decreases es.len() - i,
    {
        let name = match &es[i].0 {
            Doc::Text(s) => {
                if s.as_str().is_empty() {
                    let e = CatalogError::BadName { index: i };
                    proof { lemma_first_fault(*d, es@, i as int, e); }
                    return Err(e);
                }
                s
            },
            _ => {
                let e = CatalogError::BadName { index: i };
                proof { lemma_first_fault(*d, es@, i as int, e); }
                return Err(e);
            },
        };
        let value: u32 = match &es[i].1 {
            Doc::Integer(v) => {
                if *v < 0 || *v > u32::MAX as i64 {
                    let e = CatalogError::BadValue { name: name.clone() };
                    proof { lemma_first_fault(*d, es@, i as int, e); }
                    return Err(e);
                }
                *v as u32
            },
            _ => {
                let e = CatalogError::BadValue { name: name.clone() };
                proof { lemma_first_fault(*d, es@, i as int, e); }
                return Err(e);
            },
        };
        let mut j: usize = 0;
        while j < i
            invariant
                j <= i,
                i < es@.len(),
                *d == Doc::Mapping(*es),
                resources@.len() == i,
                name@ == key_text(es@[i as int].0),
                name_ok(es@, i as int),
                value_ok(es@, i as int),
                forall|k: int| 0 <= k < i ==> entry_ok(es@, k),
                forall|k: int| #![trigger resources@[k]] 0 <= k < i ==>
                    resources@[k].name@ == key_text(es@[k].0),
                forall|k: int| 0 <= k < j ==> key_text(#[trigger] es@[k].0) != key_text(es@[i as int].0),
            decreases i - j,
        {
            if resources[j].name == *name {
                assert(key_text(es@[j as int].0) == key_text(es@[i as int].0));
                let e = CatalogError::Duplicate { name: name.clone() };
                proof { lemma_first_fault(*d, es@, i as int, e); }
                return Err(e);
            }
            j += 1;
        }
        resources.push(Resource { name: name.clone(), value });
        i += 1;
    }
    let m = ResourceMap { resources };
    assert(m@ =~= catalog_of(es@));
    proof { lemma_catalog_wf(es@); }
    Ok(m)
}

/// An error that reports the first faulty entry reports a faulty entry with none before it.
proof fn lemma_first_fault(d: Doc, es: Seq<(Doc, Doc)>, i: int, e: CatalogError)
    requires
        d matches Doc::Mapping(v) && v@ == es,
        0 <= i < es.len(),
        !entry_ok(es, i),
        forall|j: int| 0 <= j < i ==> entry_ok(es, j),
        reports(e, es, i),
    ensures
        catalog_result(d, Err(e)),
{
    let r: Result<ResourceMap, CatalogError> = Err(e);
    assert(r matches Err(e2) && e2 == e);
}

/// A valid list of entries describes a well-formed catalog.
proof fn lemma_catalog_wf(es: Seq<(Doc, Doc)>)
    requires
        forall|i: int| 0 <= i < es.len() ==> entry_ok(es, i),
    ensures
        catalog_wf(catalog_of(es)),
{
    let c = catalog_of(es);
    assert forall|i: int, j: int| 0 <= i < j < c.len() implies (#[trigger] c[i]).0 != (#[trigger] c[j]).0 by {
        assert(entry_ok(es, j));
    }
    assert forall|i: int| 0 <= i < c.len() implies (#[trigger] c[i]).0.len() > 0 by {
        assert(entry_ok(es, i));
    }
}

/// In a catalog with distinct names, each name finds its own value.
proof fn lemma_lookup_unique(c: Seq<(Seq<char>, u32)>, i: int)
    requires
        0 <= i < c.len(),
        forall|a: int, b: int| 0 <= a < b < c.len() ==> (#[trigger] c[a]).0 != (#[trigger] c[b]).0,
    ensures
        lookup(c, c[i].0) == Some(c[i].1),
    decreases c.len(),
{
    if i < c.len() - 1 {
        let p = c.drop_last();
        assert(c.last() == c[c.len() - 1]);
        assert(p[i] == c[i]);
        lemma_lookup_unique(p, i);
    }
}

/// A name that a catalog finds is one of its names.
proof fn lemma_lookup_found(c: Seq<(Seq<char>, u32)>, name: Seq<char>)
    requires
        lookup(c, name) is Some,
    ensures
        exists|i: int| 0 <= i < c.len() && (#[trigger] c[i]).0 == name,
    decreases c.len(),
{
    if c.last().0 != name {
        lemma_lookup_found(c.drop_last(), name);
        let i = choose|i: int| 0 <= i < c.drop_last().len() && (#[trigger] c.drop_last()[i]).0 == name;
        assert(c[i] == c.drop_last()[i]);
    } else {
        assert(c[c.len() - 1] == c.last());
    }
}

/// A valid catalog source gives a catalog in which each of its names finds
/// exactly the source's value, and no other name finds anything.
pub proof fn lemma_catalog_integrity(es: Seq<(Doc, Doc)>)
    requires
        forall|i: int| 0 <= i < es.len() ==> entry_ok(es, i),
    ensures
        catalog_wf(catalog_of(es)),
        forall|i: int| 0 <= i < es.len() ==>
            lookup(catalog_of(es), key_text(#[trigger] es[i].0)) == Some((int_of(es[i].1)->0) as u32),
        forall|name: Seq<char>|
            (forall|i: int| 0 <= i < es.len() ==> key_text(#[trigger] es[i].0) != name)
            ==> lookup(catalog_of(es), name) is None,
{
    lemma_catalog_wf(es);
    let c = catalog_of(es);
    assert forall|i: int| 0 <= i < es.len() implies
        lookup(c, key_text(#[trigger] es[i].0)) == Some((int_of(es[i].1)->0) as u32) by {
        lemma_lookup_unique(c, i);
    }
    assert forall|name: Seq<char>|
        (forall|i: int| 0 <= i < es.len() ==> key_text(#[trigger] es[i].0) != name)
        implies lookup(c, name) is None by {
        if lookup(c, name) is Some {
            lemma_lookup_found(c, name);
            let k = choose|k: int| 0 <= k < c.len() && (#[trigger] c[k]).0 == name;
            assert(key_text(es[k].0) == name);
        }
    }
}

} // verus!
