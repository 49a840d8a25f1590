//! Structured documents as plain values, and the YAML reader that yields them.

use vstd::prelude::*;
use vstd::string::StringSliceAdditionalSpecFns;
use yaml_rust::{Yaml, YamlLoader};

verus! {

/// One node of a structured document.
pub enum Doc {
    Integer(i64),
    Text(String),
    /// Key/value pairs, in the order in which the source gives them.
    Mapping(Vec<(Doc, Doc)>),
    Sequence(Vec<Doc>),
    /// Any other scalar (a float, a boolean, null, an alias).
    Other,
}

/// The node type of `yaml_rust`, opaque here: it is only converted into a `Doc`.
#[verifier::external_type_specification]
#[verifier::external_body]
pub struct ExYaml(Yaml);

/// The longest line, in bytes, that a YAML text given to the loader may hold.
pub const MAX_LINE: usize = 128;

/// The byte `*`, which starts a YAML alias.
pub const ALIAS_BYTE: u8 = 42;

/// The byte of a line break.
pub const NEWLINE_BYTE: u8 = 10;

/// The number of bytes after the last line break of `b`.
pub open spec fn line_tail(b: Seq<u8>) -> nat
    decreases b.len(),
{
    if b.len() == 0 {
        0
    } else if b.last() == NEWLINE_BYTE {
        0
    } else {
        line_tail(b.drop_last()) + 1
    }
}

/// Whether a YAML text stays within the bounds under which the loader is
/// given it: no line longer than `MAX_LINE` bytes and no `*`. The YAML loader
/// recurses once per level of nesting and has no limit on block nesting, and
/// each alias copies the node it names. Under these bounds block nesting
/// grows at most a few levels per column of a line, flow nesting is capped by
/// the loader itself, and no alias is read, so the recursion stays shallow.
pub open spec fn yaml_bounded(b: Seq<u8>) -> bool {
    &&& forall|i: int| 0 <= i <= b.len() ==> #[trigger] line_tail(b.take(i)) <= MAX_LINE
    &&& forall|i: int| 0 <= i < b.len() ==> b[i] != ALIAS_BYTE
}

/// Whether a text is within the bounds under which it is given to the YAML loader.
pub fn yaml_is_bounded(text: &str) -> (r: bool)
    ensures
        r == yaml_bounded(text.spec_bytes()),
{
    let b = text.as_bytes();
    let mut run: usize = 0;
    let mut i: usize = 0;
    assert(b@.take(0) =~= Seq::<u8>::empty());
    while i < b.len()
        invariant
            b@ == text.spec_bytes(),
            i <= b@.len(),
            run == line_tail(b@.take(i as int)),
            forall|k: int| 0 <= k <= i ==> #[trigger] line_tail(b@.take(k)) <= MAX_LINE,
            forall|k: int| 0 <= k < i ==> b@[k] != ALIAS_BYTE,
        decreases b.len() - i,
    {
        assert(b@.take(i as int + 1).drop_last() =~= b@.take(i as int));
        assert(b@.take(i as int + 1).last() == b@[i as int]);
        let byte = b[i];
        if byte == ALIAS_BYTE {
            return false;
        }
        if byte == NEWLINE_BYTE {
            run = 0;
        } else {
            if run == MAX_LINE {
                assert(line_tail(b@.take(i as int + 1)) > MAX_LINE);
                return false;
            }
            run = run + 1;
        }
        i += 1;
    }
    assert(b@.take(i as int) =~= b@);
    true
}

/// The first document of a YAML text as the YAML loader reads it, converted
/// node for node into a `Doc`; `None` when the text does not parse or holds
/// no document.
pub uninterp spec fn yaml_doc_of(text: Seq<char>) -> Option<Doc>;

/// Relies on `yaml_rust::YamlLoader::load_from_str`: its result depends on the
/// text alone; the first document is taken. The bound keeps the loader's
/// recursion, and that of the conversion, shallow.
#[verifier::external_body]
pub(crate) fn parse_yaml(text: &str) -> (r: Option<Doc>)
    requires
        yaml_bounded(text.spec_bytes()),
    ensures
        r == yaml_doc_of(text@),
{
    match YamlLoader::load_from_str(text) {
        Ok(docs) => docs.first().map(doc_of_yaml),
        Err(_) => None,
    }
}

/// Converts a node of `yaml_rust` into a `Doc`, variant for variant; the
/// conversion half of `parse_yaml`, apart because it recurses. It is given
/// only documents read from texts within `yaml_bounded`, so it recurses as
/// shallowly as the loader.
#[verifier::external_body]
fn doc_of_yaml(y: &Yaml) -> Doc {
    match y {
        Yaml::Integer(i) => Doc::Integer(*i),
        Yaml::String(s) => Doc::Text(s.clone()),
        Yaml::Hash(h) => Doc::Mapping(h.iter().map(|(k, v)| (doc_of_yaml(k), doc_of_yaml(v))).collect()),
        Yaml::Array(a) => Doc::Sequence(a.iter().map(doc_of_yaml).collect()),
        _ => Doc::Other,
    }
}

/// The text of a key, or the empty text when the key is not a string.
pub open spec fn key_text(d: Doc) -> Seq<char> {
    match d {
        Doc::Text(s) => s@,
        _ => Seq::empty(),
    }
}

/// The integer that a node holds, if it holds one.
pub open spec fn int_of(d: Doc) -> Option<int> {
    match d {
        Doc::Integer(i) => Some(i as int),
        _ => None,
    }
}

/// Whether `d` is the text `k`.
pub open spec fn is_text(d: Doc, k: Seq<char>) -> bool {
    match d {
        Doc::Text(s) => s@ == k,
        _ => false,
    }
}

/// The value under the first key of `es` that is the text `k`.
pub open spec fn field(es: Seq<(Doc, Doc)>, k: Seq<char>) -> Option<Doc>
    decreases es.len(),
{
    if es.len() == 0 {
        None
    } else {
        match field(es.drop_last(), k) {
            Some(v) => Some(v),
            None => if is_text(es.last().0, k) {
                Some(es.last().1)
            } else {
                None
            },
        }
    }
}

/// Whether a node is the text `k`.
pub fn doc_is_text(d: &Doc, k: &str) -> (r: bool)
    ensures
        r == is_text(*d, k@),
{
    match d {
        Doc::Text(s) => {
            let owned = k.to_owned();
            *s == owned
        },
        _ => false,
    }
}

/// The value under the first key of a mapping that is the text `k`.
pub fn find_field<'a>(es: &'a Vec<(Doc, Doc)>, k: &str) -> (r: Option<&'a Doc>)
    ensures
        match r {
            Some(v) => field(es@, k@) == Some(*v),
            None => field(es@, k@) is None,
        },
{
    let mut i: usize = 0;
    while i < es.len()
        invariant
            i <= es.len(),
            field(es@.take(i as int), k@) is None,
        decreases es.len() - i,
    {
        assert(es@.take(i as int + 1).drop_last() =~= es@.take(i as int));
        if doc_is_text(&es[i].0, k) {
            proof { lemma_field_prefix(es@, k@, i as int + 1); }
            return Some(&es[i].1);
        }
        i += 1;
    }
    assert(es@.take(i as int) =~= es@);
    None
}

/// A match found in a prefix is the match of the whole sequence.
proof fn lemma_field_prefix(es: Seq<(Doc, Doc)>, k: Seq<char>, n: int)
    requires
        0 <= n <= es.len(),
        field(es.take(n), k) is Some,
    ensures
        field(es, k) == field(es.take(n), k),
    decreases es.len() - n,
{
    if n < es.len() {
        assert(es.take(n + 1).drop_last() =~= es.take(n));
        lemma_field_prefix(es, k, n + 1);
    } else {
        assert(es.take(n) =~= es);
    }
}

} // verus!
