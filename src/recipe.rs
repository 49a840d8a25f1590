//! Recipes, their profitability, and the structured (YAML) recipe source.

use vstd::prelude::*;
use vstd::string::StringSliceAdditionalSpecFns;
use crate::doc::{Doc, parse_yaml, yaml_doc_of, yaml_bounded, yaml_is_bounded, key_text, int_of, field, find_field};
use crate::resource::{Resource, ResourceMap, lookup};

verus! {

/// The most inputs that one recipe may hold.
pub const MAX_INPUTS: usize = 4294967295;

/// A quantity of one resource that a recipe consumes or produces.
pub struct InputOutput {
    pub resource: Resource,
    pub qty: u32,
}

/// A named conversion of input resources into one output resource.
pub struct Recipe {
    pub name: String,
    pub inputs: Vec<InputOutput>,
    pub output: InputOutput,
}

/// An input or output as plain values: resource name, unit value, quantity.
pub struct IoView {
    pub name: Seq<char>,
    pub value: u32,
    pub qty: u32,
}

/// A recipe as plain values.
pub struct RecipeView {
    pub name: Seq<char>,
    pub inputs: Seq<IoView>,
    pub output: IoView,
}

impl View for InputOutput {
    type V = IoView;

    open spec fn view(&self) -> IoView {
        IoView { name: self.resource.name@, value: self.resource.value, qty: self.qty }
    }
}

impl View for Recipe {
    type V = RecipeView;

    open spec fn view(&self) -> RecipeView {
        RecipeView {
            name: self.name@,
            inputs: self.inputs@.map_values(|io: InputOutput| io@),
            output: self.output@,
        }
    }
}

/// Unit value times quantity.
pub open spec fn worth(io: IoView) -> int {
    io.value * io.qty
}

/// The summed worth of a sequence of inputs.
pub open spec fn sum_worth(s: Seq<IoView>) -> int
    decreases s.len(),
{
    if s.len() == 0 {
        0
    } else {
        sum_worth(s.drop_last()) + worth(s.last())
    }
}

/// The summed quantity of a sequence of inputs.
pub open spec fn sum_qty(s: Seq<IoView>) -> int
    decreases s.len(),
{
    if s.len() == 0 {
        0
    } else {
        sum_qty(s.drop_last()) + s.last().qty
    }
}

/// What a recipe's output is worth.
pub open spec fn output_value_of(r: RecipeView) -> int {
    worth(r.output)
}

/// What a recipe's inputs are worth together.
pub open spec fn input_value_of(r: RecipeView) -> int {
    sum_worth(r.inputs)
}

/// How many input units a recipe consumes.
pub open spec fn input_qty_of(r: RecipeView) -> int {
    sum_qty(r.inputs)
}

/// Output value minus input value; negative for a loss-making recipe.
pub open spec fn profit_of(r: RecipeView) -> int {
    output_value_of(r) - input_value_of(r)
}

/// Whether an input or output names a resource of the catalog, with its
/// value, and a positive quantity.
pub open spec fn resolves(io: IoView, cat: Seq<(Seq<char>, u32)>) -> bool {
    io.qty > 0 && lookup(cat, io.name) == Some(io.value)
}

/// Whether a recipe is well formed against a catalog: a non-empty name, one
/// to `MAX_INPUTS` inputs, and every resource resolved with a positive quantity.
pub open spec fn recipe_wf(r: RecipeView, cat: Seq<(Seq<char>, u32)>) -> bool {
    &&& r.name.len() > 0
    &&& 1 <= r.inputs.len() <= MAX_INPUTS
    &&& forall|i: int| 0 <= i < r.inputs.len() ==> resolves(#[trigger] r.inputs[i], cat)
    &&& resolves(r.output, cat)
}

proof fn lemma_worth_bound(io: IoView)
    ensures
        0 <= worth(io) <= u64::MAX,
{
    assert(0 <= io.value * io.qty <= u64::MAX) by (nonlinear_arith)
        requires
            io.value <= u32::MAX,
            io.qty <= u32::MAX,
    ;
}

impl Recipe {
    /// Unit value of the output resource times the output quantity.
    pub fn output_value(&self) -> (r: u64)
        ensures
            r == output_value_of(self@),
    {
        proof { lemma_worth_bound(self.output@); }
        self.output.resource.value as u64 * self.output.qty as u64
    }

    /// The sum over the inputs of unit value times quantity.
    pub fn input_value(&self) -> (r: u128)
        requires
            self.inputs@.len() <= MAX_INPUTS,
        ensures
            r == input_value_of(self@),
    {
        let ghost ins = self@.inputs;
        let mut total: u128 = 0;
        let mut i: usize = 0;
        while i < self.inputs.len()
            invariant
                i <= self.inputs@.len() <= MAX_INPUTS,
                ins == self@.inputs,
                total == sum_worth(ins.take(i as int)),
                total <= i * 0x1_0000_0000_0000_0000,
            decreases self.inputs.len() - i,
        {
            assert(ins.take(i as int + 1).drop_last() =~= ins.take(i as int));
            proof { lemma_worth_bound(ins[i as int]); }
            let io = &self.inputs[i];
            total = total + io.resource.value as u64 as u128 * io.qty as u128;
            i += 1;
        }
        assert(ins.take(i as int) =~= ins);
        total
    }

    /// The sum of the input quantities.
    pub fn input_qty(&self) -> (r: u64)
        requires
            self.inputs@.len() <= MAX_INPUTS,
        ensures
            r == input_qty_of(self@),
    {
        let ghost ins = self@.inputs;
        let mut total: u64 = 0;
        let mut i: usize = 0;
        while i < self.inputs.len()
            invariant
                i <= self.inputs@.len() <= MAX_INPUTS,
                ins == self@.inputs,
                total == sum_qty(ins.take(i as int)),
                total <= i * 0xffff_ffff,
            decreases self.inputs.len() - i,
        {
            assert(ins.take(i as int + 1).drop_last() =~= ins.take(i as int));
            total = total + self.inputs[i].qty as u64;
            i += 1;
        }
        assert(ins.take(i as int) =~= ins);
        total
    }

    /// Output value minus input value.
    pub fn profit(&self) -> (r: i128)
        requires
            self.inputs@.len() <= MAX_INPUTS,
        ensures
            r == profit_of(self@),
    {
        let out = self.output_value();
        let inp = self.input_value();
        proof { lemma_sum_worth_bound(self@.inputs); }
        out as i128 - inp as i128
    }
}

proof fn lemma_sum_worth_bound(s: Seq<IoView>)
    ensures
        0 <= sum_worth(s) <= s.len() * 0x1_0000_0000_0000_0000,
    decreases s.len(),
{
    if s.len() > 0 {
        lemma_sum_worth_bound(s.drop_last());
        lemma_worth_bound(s.last());
    }
}

/// The part of a structured record that is missing or has the wrong shape.
#[derive(PartialEq, Eq, Structural, Clone, Copy, Debug)]
pub enum Part {
    Record,
    Name,
    Inputs,
    Output,
}

/// Why a structured recipe source was refused; the index is the record's position.
#[derive(Debug)]
pub enum RecipeError {
    /// The text has a line longer than `MAX_LINE` bytes or a `*` (an alias),
    /// which the YAML loader is not given.
    Unsupported,
    /// The text is not a YAML document.
    NotParsed,
    /// The document is not a list of records.
    NotAList,
    /// A record lacks a part, or it has the wrong shape.
    Malformed { index: usize, part: Part },
    /// A record names a resource that the catalog lacks.
    UnresolvedResource { index: usize, resource: String },
    /// A record gives a quantity that is not a positive integer that fits a `u32`.
    BadQuantity { index: usize, resource: String },
}

/// A `RecipeError` as plain values.
pub enum RecipeFault {
    Unsupported,
    NotParsed,
    NotAList,
    Malformed { index: int, part: Part },
    UnresolvedResource { index: int, resource: Seq<char> },
    BadQuantity { index: int, resource: Seq<char> },
}

impl View for RecipeError {
    type V = RecipeFault;

    open spec fn view(&self) -> RecipeFault {
        match self {
            RecipeError::Unsupported => RecipeFault::Unsupported,
            RecipeError::NotParsed => RecipeFault::NotParsed,
            RecipeError::NotAList => RecipeFault::NotAList,
            RecipeError::Malformed { index, part } => RecipeFault::Malformed { index: *index as int, part: *part },
            RecipeError::UnresolvedResource { index, resource } =>
                RecipeFault::UnresolvedResource { index: *index as int, resource: resource@ },
            RecipeError::BadQuantity { index, resource } =>
                RecipeFault::BadQuantity { index: *index as int, resource: resource@ },
        }
    }
}

/// Why one name/quantity pair does not resolve.
pub enum PairFault {
    Unresolved(Seq<char>),
    BadQuantity(Seq<char>),
}

/// The pair of a mapping that holds exactly one.
pub open spec fn single_entry(d: Doc) -> Option<(Doc, Doc)> {
    match d {
        Doc::Mapping(es) => if es@.len() == 1 {
            Some(es@[0])
        } else {
            None
        },
        _ => None,
    }
}

/// The name/quantity pairs of an `inputs` node, in source order: the pairs of
/// a mapping, or of a list of single-entry mappings.
pub open spec fn input_pairs(d: Doc) -> Option<Seq<(Doc, Doc)>> {
    match d {
        Doc::Mapping(es) => Some(es@),
        Doc::Sequence(items) => if forall|k: int| 0 <= k < items@.len() ==> (#[trigger] single_entry(items@[k])) is Some {
            Some(items@.map_values(|it: Doc| single_entry(it)->0))
        } else {
            None
        },
        _ => None,
    }
}

/// A name/quantity pair resolved against the catalog.
pub open spec fn resolve_pair(p: (Doc, Doc), cat: Seq<(Seq<char>, u32)>) -> Result<IoView, PairFault> {
    let name = key_text(p.0);
    match lookup(cat, name) {
        None => Err(PairFault::Unresolved(name)),
        Some(v) => match int_of(p.1) {
            Some(q) => if 1 <= q <= u32::MAX {
                Ok(IoView { name, value: v, qty: q as u32 })
            } else {
                Err(PairFault::BadQuantity(name))
            },
            None => Err(PairFault::BadQuantity(name)),
        },
    }
}

/// Pairs resolved in order; the first one that fails decides the fault.
pub open spec fn resolve_all(ps: Seq<(Doc, Doc)>, cat: Seq<(Seq<char>, u32)>) -> Result<Seq<IoView>, PairFault>
    decreases ps.len(),
{
    if ps.len() == 0 {
        Ok(Seq::empty())
    } else {
        match resolve_all(ps.drop_last(), cat) {
            Err(f) => Err(f),
            Ok(ios) => match resolve_pair(ps.last(), cat) {
                Err(f) => Err(f),
                Ok(io) => Ok(ios.push(io)),
            },
        }
    }
}

/// The fault of a pair, placed at a record.
pub open spec fn fault_at(f: PairFault, index: int) -> RecipeFault {
    match f {
        PairFault::Unresolved(n) => RecipeFault::UnresolvedResource { index, resource: n },
        PairFault::BadQuantity(n) => RecipeFault::BadQuantity { index, resource: n },
    }
}

/// The text of a non-empty `name` field.
pub open spec fn name_field(es: Seq<(Doc, Doc)>) -> Option<Seq<char>> {
    match field(es, "name"@) {
        Some(Doc::Text(n)) => if n@.len() > 0 {
            Some(n@)
        } else {
            None
        },
        _ => None,
    }
}

/// The input pairs of an `inputs` field, when there are one to `MAX_INPUTS` of them.
pub open spec fn inputs_field(es: Seq<(Doc, Doc)>) -> Option<Seq<(Doc, Doc)>> {
    match field(es, "inputs"@) {
        Some(d) => match input_pairs(d) {
            Some(ps) => if 1 <= ps.len() <= MAX_INPUTS {
                Some(ps)
            } else {
                None
            },
            None => None,
        },
        None => None,
    }
}

/// The one pair of an `output` field.
pub open spec fn output_field(es: Seq<(Doc, Doc)>) -> Option<(Doc, Doc)> {
    match field(es, "output"@) {
        Some(d) => single_entry(d),
        None => None,
    }
}

/// What the structured record at `index` gives: its recipe, or the first fault
/// in the order record shape, name, inputs, output, then each input and the
/// output resolved in turn.
pub open spec fn record_spec(d: Doc, index: int, cat: Seq<(Seq<char>, u32)>) -> Result<RecipeView, RecipeFault> {
    match d {
        Doc::Mapping(es) => {
            let es = es@;
            if name_field(es) is None {
                Err(RecipeFault::Malformed { index, part: Part::Name })
            } else if inputs_field(es) is None {
                Err(RecipeFault::Malformed { index, part: Part::Inputs })
            } else if output_field(es) is None {
                Err(RecipeFault::Malformed { index, part: Part::Output })
            } else {
                match resolve_all(inputs_field(es)->0, cat) {
                    Err(f) => Err(fault_at(f, index)),
                    Ok(ins) => match resolve_pair(output_field(es)->0, cat) {
                        Err(f) => Err(fault_at(f, index)),
                        Ok(out) => Ok(RecipeView { name: name_field(es)->0, inputs: ins, output: out }),
                    },
                }
            }
        },
        _ => Err(RecipeFault::Malformed { index, part: Part::Record }),
    }
}

/// The recipes of a list of structured records, in order, or the fault of the first bad record.
pub open spec fn records_spec(items: Seq<Doc>, cat: Seq<(Seq<char>, u32)>) -> Result<Seq<RecipeView>, RecipeFault>
    decreases items.len(),
{
    if items.len() == 0 {
        Ok(Seq::empty())
    } else {
        match records_spec(items.drop_last(), cat) {
            Err(f) => Err(f),
            Ok(rs) => match record_spec(items.last(), items.len() - 1, cat) {
                Err(f) => Err(f),
                Ok(r) => Ok(rs.push(r)),
            },
        }
    }
}

/// What a structured recipe document gives.
pub open spec fn recipes_spec(d: Doc, cat: Seq<(Seq<char>, u32)>) -> Result<Seq<RecipeView>, RecipeFault> {
    match d {
        Doc::Sequence(items) => records_spec(items@, cat),
        _ => Err(RecipeFault::NotAList),
    }
}

/// A list of recipes as plain values.
pub open spec fn recipes_view(v: Seq<Recipe>) -> Seq<RecipeView> {
    v.map_values(|r: Recipe| r@)
}

/// A result of structured ingestion as plain values.
pub open spec fn result_view(r: Result<Vec<Recipe>, RecipeError>) -> Result<Seq<RecipeView>, RecipeFault> {
    match r {
        Ok(v) => Ok(recipes_view(v@)),
        Err(e) => Err(e@),
    }
}

/// A resolution error in a prefix of the pairs is the error of all of them.
proof fn lemma_resolve_all_prefix(ps: Seq<(Doc, Doc)>, m: int, cat: Seq<(Seq<char>, u32)>)
    requires
        0 <= m <= ps.len(),
        resolve_all(ps.take(m), cat) is Err,
    ensures
        resolve_all(ps, cat) == resolve_all(ps.take(m), cat),
    decreases ps.len() - m,
{
    if m < ps.len() {
        assert(ps.take(m + 1).drop_last() =~= ps.take(m));
        lemma_resolve_all_prefix(ps, m + 1, cat);
    } else {
        assert(ps.take(m) =~= ps);
    }
}

/// A bad record in a prefix of the list is the fault of the whole list.
proof fn lemma_records_prefix(items: Seq<Doc>, m: int, cat: Seq<(Seq<char>, u32)>)
    requires
        0 <= m <= items.len(),
        records_spec(items.take(m), cat) is Err,
    ensures
        records_spec(items, cat) == records_spec(items.take(m), cat),
    decreases items.len() - m,
{
    if m < items.len() {
        assert(items.take(m + 1).drop_last() =~= items.take(m));
        lemma_records_prefix(items, m + 1, cat);
    } else {
        assert(items.take(m) =~= items);
    }
}

/// The one pair of a single-entry mapping.
fn single_entry_of(d: &Doc) -> (r: Option<&(Doc, Doc)>)
    ensures
        match r {
            Some(p) => single_entry(*d) == Some(*p),
            None => single_entry(*d) is None,
        },
{
    match d {
        Doc::Mapping(es) => if es.len() == 1 {
            Some(&es[0])
        } else {
            None
        },
        _ => None,
    }
}

/// How many name/quantity pairs an `inputs` node holds, when it has one of the two accepted shapes.
fn input_count(d: &Doc) -> (r: Option<usize>)
    ensures
        match r {
            Some(n) => input_pairs(*d) matches Some(ps) && ps.len() == n,
            None => input_pairs(*d) is None,
        },
{
    match d {
        Doc::Mapping(es) => Some(es.len()),
        Doc::Sequence(items) => {
            let mut k: usize = 0;
            while k < items.len()
                invariant
                    k <= items@.len(),
                    *d == Doc::Sequence(*items),
                    forall|j: int| 0 <= j < k ==> (#[trigger] single_entry(items@[j])) is Some,
                decreases items.len() - k,
            {
                if single_entry_of(&items[k]).is_none() {
                    return None;
                }
                k += 1;
            }
            Some(items.len())
        },
        _ => None,
    }
}

/// The name/quantity pair at position `k` of an `inputs` node.
fn input_pair_at(d: &Doc, k: usize) -> (r: Option<&(Doc, Doc)>)
    requires
        input_pairs(*d) matches Some(ps) && k < ps.len(),
    ensures
        r matches Some(p) && *p == input_pairs(*d)->0[k as int],
{
    match d {
        Doc::Mapping(es) => Some(&es[k]),
        Doc::Sequence(items) => {
            assert(single_entry(items@[k as int]) is Some);
            single_entry_of(&items[k])
        },
        _ => None,
    }
}

/// Resolves one name/quantity pair of the record at `index` against the catalog.
fn resolve_entry(p: &(Doc, Doc), index: usize, resources: &ResourceMap) -> (r: Result<InputOutput, RecipeError>)
    ensures
        match resolve_pair(*p, resources@) {
            Ok(io) => r matches Ok(x) && x@ == io,
            Err(f) => r matches Err(e) && e@ == fault_at(f, index as int),
        },
{
    let name: String = match &p.0 {
        Doc::Text(s) => s.clone(),
        _ => String::new(),
    };
    let res = match resources.get(name.as_str()) {
        Some(res) => res,
        None => { return Err(RecipeError::UnresolvedResource { index, resource: name }); },
    };
    let qty: u32 = match &p.1 {
        Doc::Integer(q) => {
            if *q < 1 || *q > u32::MAX as i64 {
                return Err(RecipeError::BadQuantity { index, resource: name });
            }
            *q as u32
        },
        _ => { return Err(RecipeError::BadQuantity { index, resource: name }); },
    };
    Ok(InputOutput { resource: res.duplicate(), qty })
}

/// Reads the structured record at position `index`.
fn read_record(d: &Doc, index: usize, resources: &ResourceMap) -> (r: Result<Recipe, RecipeError>)
    ensures
        match record_spec(*d, index as int, resources@) {
            Ok(rv) => r matches Ok(x) && x@ == rv,
            Err(f) => r matches Err(e) && e@ == f,
        },
{
    let es = match d {
        Doc::Mapping(es) => es,
        _ => { return Err(RecipeError::Malformed { index, part: Part::Record }); },
    };
    let name: String = match find_field(es, "name") {
        Some(Doc::Text(n)) => {
            if n.as_str().is_empty() {
                return Err(RecipeError::Malformed { index, part: Part::Name });
            }
            n.clone()
        },
        _ => { return Err(RecipeError::Malformed { index, part: Part::Name }); },
    };
    let inputs_doc = match find_field(es, "inputs") {
        Some(x) => x,
        None => { return Err(RecipeError::Malformed { index, part: Part::Inputs }); },
    };
    let n = match input_count(inputs_doc) {
        Some(n) => n,
        None => { return Err(RecipeError::Malformed { index, part: Part::Inputs }); },
    };
    if n == 0 || n > MAX_INPUTS {
        return Err(RecipeError::Malformed { index, part: Part::Inputs });
    }
    let out_pair = match find_field(es, "output") {
        Some(o) => match single_entry_of(o) {
            Some(p) => p,
            None => { return Err(RecipeError::Malformed { index, part: Part::Output }); },
        },
        None => { return Err(RecipeError::Malformed { index, part: Part::Output }); },
    };
    let ghost ps = input_pairs(*inputs_doc)->0;
    let ghost cat = resources@;
    assert(inputs_field(es@) == Some(ps));
    let mut inputs: Vec<InputOutput> = Vec::new();
    let mut k: usize = 0;
    assert(ps.take(0) =~= Seq::<(Doc, Doc)>::empty());
    assert(inputs@.map_values(|io: InputOutput| io@) =~= Seq::<IoView>::empty());
    while k < n
        invariant
            k <= n,
            n == ps.len(),
            cat == resources@,
            *d == Doc::Mapping(*es),
            name_field(es@) == Some(name@),
            inputs_field(es@) == Some(ps),
            output_field(es@) == Some(*out_pair),
            input_pairs(*inputs_doc) == Some(ps),
            resolve_all(ps.take(k as int), cat) == Ok::<Seq<IoView>, PairFault>(inputs@.map_values(|io: InputOutput| io@)),
        decreases n - k,
    {
        assert(ps.take(k as int + 1).drop_last() =~= ps.take(k as int));
        let p = input_pair_at(inputs_doc, k).unwrap();
        match resolve_entry(p, index, resources) {
            Ok(io) => {
                let ghost before = inputs@;
                inputs.push(io);
                assert(inputs@.map_values(|io: InputOutput| io@) =~= before.map_values(|io: InputOutput| io@).push(io@));
            },
            Err(e) => {
                proof { lemma_resolve_all_prefix(ps, k as int + 1, cat); }
                return Err(e);
            },
        }
        k += 1;
    }
    assert(ps.take(n as int) =~= ps);
    let output = match resolve_entry(out_pair, index, resources) {
        Ok(io) => io,
        Err(e) => { return Err(e); },
    };
    Ok(Recipe { name, inputs, output })
}

/// Reads recipes from a structured document: a list of records, each with a
/// `name`, its `inputs` (a mapping, or a list of single-entry mappings, of
/// resource names to quantities) and one `output`. The first bad record
/// fails the whole source.
pub fn recipes_from_doc(d: &Doc, resources: &ResourceMap) -> (r: Result<Vec<Recipe>, RecipeError>)
    ensures
        result_view(r) == recipes_spec(*d, resources@),
{
    let items = match d {
        Doc::Sequence(items) => items,
        _ => { return Err(RecipeError::NotAList); },
    };
    let ghost cat = resources@;
    let mut result: Vec<Recipe> = Vec::new();
    let mut i: usize = 0;
    assert(items@.take(0) =~= Seq::<Doc>::empty());
    assert(recipes_view(result@) =~= Seq::<RecipeView>::empty());
    while i < items.len()
        invariant
            i <= items@.len(),
            cat == resources@,
            *d == Doc::Sequence(*items),
            records_spec(items@.take(i as int), cat) == Ok::<Seq<RecipeView>, RecipeFault>(recipes_view(result@)),
        decreases items.len() - i,
    {
        assert(items@.take(i as int + 1).drop_last() =~= items@.take(i as int));
        match read_record(&items[i], i, resources) {
            Ok(rec) => {
                let ghost before = result@;
                result.push(rec);
                assert(recipes_view(result@) =~= recipes_view(before).push(rec@));
            },
            Err(e) => {
                proof { lemma_records_prefix(items@, i as int + 1, cat); }
                return Err(e);
            },
        }
        i += 1;
    }
    assert(items@.take(i as int) =~= items@);
    Ok(result)
}

/// Reads recipes from a structured YAML text against the catalog.
pub fn read_recipes(text: &str, resources: &ResourceMap) -> (r: Result<Vec<Recipe>, RecipeError>)
    ensures
        !yaml_bounded(text.spec_bytes()) ==> r matches Err(RecipeError::Unsupported),
        yaml_bounded(text.spec_bytes()) ==> match yaml_doc_of(text@) {
            Some(d) => result_view(r) == recipes_spec(d, resources@),
            None => r matches Err(RecipeError::NotParsed),
        },
{
    if !yaml_is_bounded(text) {
        return Err(RecipeError::Unsupported);
    }
    match parse_yaml(text) {
        Some(d) => recipes_from_doc(&d, resources),
        None => Err(RecipeError::NotParsed),
    }
}

/// A structured source with a record that does not resolve, or is malformed,
/// fails as a whole: no recipe of it is read. When the records before it
/// read, the error is that record's own: for an unknown resource, the record's
/// position and the resource's name.
pub proof fn lemma_fatal_propagation(items: Seq<Doc>, i: int, cat: Seq<(Seq<char>, u32)>)
    requires
        0 <= i < items.len(),
        record_spec(items[i], i, cat) is Err,
    ensures
        records_spec(items, cat) is Err,
        (forall|j: int| 0 <= j < i ==> (#[trigger] record_spec(items[j], j, cat)) is Ok)
            ==> records_spec(items, cat) == Err::<Seq<RecipeView>, RecipeFault>(
            record_spec(items[i], i, cat)->Err_0,
        ),
{
    let pre = items.take(i + 1);
    assert(pre.drop_last() =~= items.take(i));
    assert(pre.last() == items[i]);
    if forall|j: int| 0 <= j < i ==> (#[trigger] record_spec(items[j], j, cat)) is Ok {
        lemma_records_ok_prefix(items, i, cat);
    }
    assert(records_spec(pre, cat) is Err);
    lemma_records_prefix(items, i + 1, cat);
}

/// Records that all read make a prefix that reads.
proof fn lemma_records_ok_prefix(items: Seq<Doc>, m: int, cat: Seq<(Seq<char>, u32)>)
    requires
        0 <= m <= items.len(),
        forall|j: int| 0 <= j < m ==> (#[trigger] record_spec(items[j], j, cat)) is Ok,
    ensures
        records_spec(items.take(m), cat) is Ok,
    decreases m,
{
    if m > 0 {
        assert(items.take(m).drop_last() =~= items.take(m - 1));
        assert(items.take(m).last() == items[m - 1]);
        assert(record_spec(items[m - 1], m - 1, cat) is Ok);
        lemma_records_ok_prefix(items, m - 1, cat);
    }
}

/// A recipe whose output is worth less than its inputs has a negative profit.
pub proof fn lemma_loss_is_negative(r: RecipeView)
    requires
        output_value_of(r) < input_value_of(r),
    ensures
        profit_of(r) < 0,
{
}

/// A structured source that reads gives one recipe per record, in record
/// order, whatever its profit.
pub proof fn lemma_records_all_kept(items: Seq<Doc>, cat: Seq<(Seq<char>, u32)>)
    requires
        records_spec(items, cat) is Ok,
    ensures
        records_spec(items, cat)->Ok_0.len() == items.len(),
        forall|i: int| 0 <= i < items.len() ==> (#[trigger] record_spec(items[i], i, cat)) is Ok
            && records_spec(items, cat)->Ok_0[i] == record_spec(items[i], i, cat)->Ok_0,
    decreases items.len(),
{
    if items.len() > 0 {
        let pre = items.drop_last();
        lemma_records_all_kept(pre, cat);
        assert forall|i: int| 0 <= i < items.len() implies (#[trigger] record_spec(items[i], i, cat)) is Ok
            && records_spec(items, cat)->Ok_0[i] == record_spec(items[i], i, cat)->Ok_0 by {
            if i < items.len() - 1 {
                assert(pre[i] == items[i]);
                assert(record_spec(pre[i], i, cat) is Ok);
            }
        }
    }
}

/// Resolved pairs name catalog resources with positive quantities, one per pair.
proof fn lemma_resolve_all_ok(ps: Seq<(Doc, Doc)>, cat: Seq<(Seq<char>, u32)>)
    requires
        resolve_all(ps, cat) is Ok,
    ensures
        resolve_all(ps, cat)->Ok_0.len() == ps.len(),
        forall|i: int| 0 <= i < ps.len() ==> resolves(#[trigger] resolve_all(ps, cat)->Ok_0[i], cat),
    decreases ps.len(),
{
    if ps.len() > 0 {
        lemma_resolve_all_ok(ps.drop_last(), cat);
    }
}

/// Every recipe that a structured record gives is well formed against the catalog.
pub proof fn lemma_record_wf(d: Doc, index: int, cat: Seq<(Seq<char>, u32)>)
    requires
        record_spec(d, index, cat) is Ok,
    ensures
        recipe_wf(record_spec(d, index, cat)->Ok_0, cat),
{
    let es = d->Mapping_0@;
    lemma_resolve_all_ok(inputs_field(es)->0, cat);
}

/// A well-formed recipe consumes at least one input unit.
pub proof fn lemma_input_qty_positive(r: RecipeView, cat: Seq<(Seq<char>, u32)>)
    requires
        recipe_wf(r, cat),
    ensures
        input_qty_of(r) > 0,
{
    lemma_sum_qty_positive(r.inputs, cat);
}

proof fn lemma_sum_qty_positive(s: Seq<IoView>, cat: Seq<(Seq<char>, u32)>)
    requires
        s.len() > 0,
        forall|i: int| 0 <= i < s.len() ==> resolves(#[trigger] s[i], cat),
    ensures
        sum_qty(s) > 0,
    decreases s.len(),
{
    assert(resolves(s[s.len() - 1], cat));
    assert(s.last() == s[s.len() - 1]);
    assert(sum_qty(s) == sum_qty(s.drop_last()) + s.last().qty);
    if s.len() == 1 {
        assert(sum_qty(s.drop_last()) == 0);
    } else {
        let p = s.drop_last();
        assert forall|i: int| 0 <= i < p.len() implies resolves(#[trigger] p[i], cat) by {
            assert(p[i] == s[i]);
        }
        lemma_sum_qty_positive(p, cat);
    }
}

} // verus!
