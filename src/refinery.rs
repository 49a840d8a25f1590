//! The tabular (CSV) refinery recipe source, read row by row: a bad row is
//! skipped with a diagnostic and the rows after it are still read.

use vstd::prelude::*;
use crate::recipe::{InputOutput, IoView, Recipe, RecipeView, recipes_view, output_value_of, input_value_of, profit_of, recipe_wf, resolves};
use crate::resource::{ResourceMap, lookup};

verus! {

/// Rows at the top of the source that hold titles and notes.
pub const HEADER_ROWS: usize = 3;

/// Columns that a recipe row must have: through column 11, the third input's name.
pub const MIN_COLUMNS: usize = 12;

/// Columns of a row that gives a third input: through column 12, its quantity.
pub const COLUMNS: usize = 13;

/// Column of the recipe name.
pub const NAME_COL: usize = 6;

/// Whether a character is an ASCII decimal digit.
pub open spec fn is_digit(c: char) -> bool {
    '0' <= c <= '9'
}

/// The number that a string of decimal digits spells.
pub open spec fn digits_value(s: Seq<char>) -> int
    decreases s.len(),
{
    if s.len() == 0 {
        0
    } else {
        digits_value(s.drop_last()) * 10 + (s.last() as int - '0' as int)
    }
}

/// What follows an optional leading `+`.
pub open spec fn unsigned_digits(s: Seq<char>) -> Seq<char> {
    if s.len() > 0 && s[0] == '+' {
        s.drop_first()
    } else {
        s
    }
}

/// A `u32` written in decimal: an optional `+`, then one or more digits, with
/// a value that fits.
pub open spec fn decimal_u32(s: Seq<char>) -> Option<u32> {
    let d = unsigned_digits(s);
    if d.len() > 0 && (forall|i: int| 0 <= i < d.len() ==> is_digit(#[trigger] d[i])) && digits_value(d)
        <= u32::MAX {
        Some(digits_value(d) as u32)
    } else {
        None
    }
}

/// A string of digits spells at least what any prefix of it spells.
proof fn lemma_digits_prefix(d: Seq<char>, k: int)
    requires
        0 <= k <= d.len(),
        forall|i: int| 0 <= i < d.len() ==> is_digit(#[trigger] d[i]),
    ensures
        digits_value(d) >= digits_value(d.take(k)) >= 0,
    decreases d.len(),
{
    if k == d.len() {
        assert(d.take(k) =~= d);
        if d.len() > 0 {
            lemma_digits_prefix(d.drop_last(), 0);
        }
    } else {
        let p = d.drop_last();
        assert(p.take(k) =~= d.take(k));
        assert forall|i: int| 0 <= i < p.len() implies is_digit(#[trigger] p[i]) by {
            assert(p[i] == d[i]);
        }
        lemma_digits_prefix(p, k);
        assert(is_digit(d[d.len() - 1]));
    }
}

/// Reads a `u32` written in decimal, as `u32::from_str` does: an optional
/// `+`, then one or more digits, refused on overflow.
fn parse_u32(s: &str) -> (r: Option<u32>)
    ensures
        r == decimal_u32(s@),
{
    let ghost c = s@;
    if !s.is_ascii() {
        proof {
            let k = choose|k: int| 0 <= k < c.len() && !('\0' <= #[trigger] c[k] <= '\u{7f}');
            let d = unsigned_digits(c);
            if c.len() > 0 && c[0] == '+' {
                assert(k > 0);
                assert(d[k - 1] == c[k]);
                assert(!is_digit(d[k - 1]));
            } else {
                assert(!is_digit(d[k]));
            }
        }
        return None;
    }
    proof { vstd::string::is_ascii_spec_bytes(s); }
    let b = s.as_bytes();
    assert(forall|i: int| 0 <= i < c.len() ==> '\0' <= #[trigger] c[i] <= '\u{7f}');
    assert(b@.len() == c.len());
    assert(forall|i: int| 0 <= i < c.len() ==> b@[i] == #[trigger] c[i] as u8);
    let mut start: usize = 0;
    if b.len() > 0 && b[0] == 43u8 {
        start = 1;
    }
    let ghost d = unsigned_digits(c);
    assert(d =~= c.subrange(start as int, c.len() as int));
    if start == b.len() {
        return None;
    }
    let mut v: u64 = 0;
    let mut i: usize = start;
    assert(d.take(0) =~= Seq::<char>::empty());
    while i < b.len()
        invariant
            start <= i <= b@.len(),
            c == s@,
            b@.len() == c.len(),
            forall|k: int| 0 <= k < c.len() ==> '\0' <= #[trigger] c[k] <= '\u{7f}',
            forall|k: int| 0 <= k < c.len() ==> b@[k] == #[trigger] c[k] as u8,
            d =~= c.subrange(start as int, c.len() as int),
            d == unsigned_digits(c),
            d.len() > 0,
            forall|k: int| 0 <= k < i - start ==> is_digit(#[trigger] d[k]),
            v == digits_value(d.take(i - start)),
            v <= u32::MAX,
        decreases b.len() - i,
    {
        let x = b[i];
        assert(d[i - start] == c[i as int]);
        if x < 48u8 || x > 57u8 {
            assert(!is_digit(d[i - start]));
            return None;
        }
        assert(is_digit(d[i - start]));
        assert(d.take(i - start + 1).drop_last() =~= d.take(i - start));
        assert(d.take(i - start + 1).last() == d[i - start]);
        assert(c[i as int] as int - '0' as int == x as int - 48);
        v = v * 10 + (x - 48u8) as u64;
        if v > u32::MAX as u64 {
            proof {
                if forall|k: int| 0 <= k < d.len() ==> is_digit(#[trigger] d[k]) {
                    lemma_digits_prefix(d, i - start + 1);
                }
            }
            return None;
        }
        i += 1;
    }
    assert(d.take(i - start) =~= d);
    Some(v as u32)
}

/// The records of a CSV text, read with no header row and rows of any
/// length: the fields of each record, or `None` for a record that cannot be
/// read.
pub uninterp spec fn csv_rows_of(data: Seq<u8>) -> Seq<Option<Seq<Seq<char>>>>;

/// A table of records as plain values.
pub open spec fn table_view(rows: Seq<Option<Vec<String>>>) -> Seq<Option<Seq<Seq<char>>>> {
    rows.map_values(|row: Option<Vec<String>>| match row {
        Some(v) => Some(row_view(v@)),
        None => None,
    })
}

/// A row of strings as plain values.
pub open spec fn row_view(row: Seq<String>) -> Seq<Seq<char>> {
    row.map_values(|s: String| s@)
}

/// Relies on `csv::ReaderBuilder` and `csv::Reader::records`: the records of
/// the data, read without a header row and with rows of any length; a record
/// that cannot be read yields an error and reading goes on with the next.
/// The result depends on the bytes alone.
#[verifier::external_body]
fn parse_csv(data: &[u8]) -> (r: Vec<Option<Vec<String>>>)
    ensures
        table_view(r@) == csv_rows_of(data@),
{
    let mut reader = csv::ReaderBuilder::new().has_headers(false).flexible(true).from_reader(data);
    reader.records().map(|rec| rec.ok().map(|rec| rec.iter().map(String::from).collect())).collect()
}

/// Why one row was skipped.
#[derive(Debug)]
pub enum RowError {
    /// The row has fewer than `MIN_COLUMNS` columns, or gives a third input
    /// but has fewer than `COLUMNS`.
    ShortRow,
    /// The record at this position of the source could not be read.
    Unreadable { row: usize },
    /// The row names a resource that the catalog lacks.
    UnknownResource { resource: String },
    /// The quantity given for a resource is not a positive decimal `u32`.
    BadQuantity { resource: String, text: String },
}

/// A `RowError` as plain values.
pub enum RowFault {
    ShortRow,
    Unreadable(int),
    UnknownResource(Seq<char>),
    BadQuantity(Seq<char>, Seq<char>),
}

impl View for RowError {
    type V = RowFault;

    open spec fn view(&self) -> RowFault {
        match self {
            RowError::ShortRow => RowFault::ShortRow,
            RowError::Unreadable { row } => RowFault::Unreadable(*row as int),
            RowError::UnknownResource { resource } => RowFault::UnknownResource(resource@),
            RowError::BadQuantity { resource, text } => RowFault::BadQuantity(resource@, text@),
        }
    }
}

/// A row that was skipped: the recipe name it gave (empty for a record that
/// could not be read) and the reason.
pub struct Skipped {
    pub name: String,
    pub reason: RowError,
}

/// A skipped row as plain values.
pub struct SkipView {
    pub name: Seq<char>,
    pub reason: RowFault,
}

impl View for Skipped {
    type V = SkipView;

    open spec fn view(&self) -> SkipView {
        SkipView { name: self.name@, reason: self.reason@ }
    }
}

/// What reading a tabular source gives: the recipes of the rows that parsed,
/// in row order, and one diagnostic for each row that did not.
pub struct Refinery {
    pub recipes: Vec<Recipe>,
    pub skipped: Vec<Skipped>,
}

/// A `Refinery` as plain values.
pub open spec fn refinery_view(r: Refinery) -> (Seq<RecipeView>, Seq<SkipView>) {
    (recipes_view(r.recipes@), r.skipped@.map_values(|s: Skipped| s@))
}

/// A resource name and a quantity cell resolved against the catalog.
pub open spec fn ingredient_spec(cat: Seq<(Seq<char>, u32)>, name: Seq<char>, qty: Seq<char>) -> Result<IoView, RowFault> {
    match lookup(cat, name) {
        None => Err(RowFault::UnknownResource(name)),
        Some(v) => match decimal_u32(qty) {
            Some(q) => if q > 0 {
                Ok(IoView { name, value: v, qty: q })
            } else {
                Err(RowFault::BadQuantity(name, qty))
            },
            None => Err(RowFault::BadQuantity(name, qty)),
        },
    }
}

/// An input in columns `col` and `col + 1` that is present only when the name cell is not empty.
pub open spec fn optional_spec(cat: Seq<(Seq<char>, u32)>, row: Seq<Seq<char>>, col: int) -> Result<Seq<IoView>, RowFault> {
    if row[col].len() == 0 {
        Ok(Seq::empty())
    } else {
        match ingredient_spec(cat, row[col], row[col + 1]) {
            Ok(io) => Ok(seq![io]),
            Err(f) => Err(f),
        }
    }
}

/// Whether a row is a spacer: it has no recipe name.
pub open spec fn is_blank(row: Seq<Seq<char>>) -> bool {
    row.len() <= NAME_COL || row[NAME_COL as int].len() == 0
}

/// Whether a row lacks a column that its roles need: every row needs
/// columns 0 to 11, and column 12 too when column 11 names a third input.
pub open spec fn is_short(row: Seq<Seq<char>>) -> bool {
    row.len() < MIN_COLUMNS || (row.len() < COLUMNS && row[11].len() > 0)
}

/// What a non-blank row gives: a recipe with the output of columns 2 and 3,
/// the input of columns 7 and 8, and those of columns 9 and 10 and of 11 and
/// 12 where given; or the first fault in that order.
pub open spec fn row_spec(row: Seq<Seq<char>>, cat: Seq<(Seq<char>, u32)>) -> Result<RecipeView, RowFault> {
    if is_short(row) {
        Err(RowFault::ShortRow)
    } else {
        let out = ingredient_spec(cat, row[2], row[3]);
        let first = ingredient_spec(cat, row[7], row[8]);
        let second = optional_spec(cat, row, 9);
        let third = optional_spec(cat, row, 11);
        if out is Err {
            Err(out->Err_0)
        } else if first is Err {
            Err(first->Err_0)
        } else if second is Err {
            Err(second->Err_0)
        } else if third is Err {
            Err(third->Err_0)
        } else {
            Ok(RecipeView {
                name: row[NAME_COL as int],
                inputs: seq![first->Ok_0] + second->Ok_0 + third->Ok_0,
                output: out->Ok_0,
            })
        }
    }
}

/// The recipes and diagnostics of a table, in row order: the header rows
/// give nothing, a blank row gives nothing, and every other row gives its
/// recipe or one diagnostic.
pub open spec fn rows_spec(rows: Seq<Option<Seq<Seq<char>>>>, cat: Seq<(Seq<char>, u32)>) -> (Seq<RecipeView>, Seq<SkipView>)
    decreases rows.len(),
{
    if rows.len() <= HEADER_ROWS {
        (Seq::empty(), Seq::empty())
    } else {
        let prev = rows_spec(rows.drop_last(), cat);
        match rows.last() {
            None => (prev.0, prev.1.push(
                SkipView { name: Seq::empty(), reason: RowFault::Unreadable(rows.len() - 1) },
            )),
            Some(row) => if is_blank(row) {
                prev
            } else {
                match row_spec(row, cat) {
                    Ok(r) => (prev.0.push(r), prev.1),
                    Err(f) => (prev.0, prev.1.push(SkipView { name: row[NAME_COL as int], reason: f })),
                }
            },
        }
    }
}

/// Resolves a resource name and a quantity cell of a tabular row.
pub fn read_refinery_ingredient(resources: &ResourceMap, resource: &str, qty: &str) -> (r: Result<InputOutput, RowError>)
    ensures
        match ingredient_spec(resources@, resource@, qty@) {
            Ok(io) => r matches Ok(x) && x@ == io,
            Err(f) => r matches Err(e) && e@ == f,
        },
{
    let res = match resources.get(resource) {
        Some(res) => res,
        None => { return Err(RowError::UnknownResource { resource: resource.to_owned() }); },
    };
    let q = match parse_u32(qty) {
        Some(q) => q,
        None => { return Err(RowError::BadQuantity { resource: resource.to_owned(), text: qty.to_owned() }); },
    };
    if q == 0 {
        return Err(RowError::BadQuantity { resource: resource.to_owned(), text: qty.to_owned() });
    }
    Ok(InputOutput { resource: res.duplicate(), qty: q })
}

/// Reads one non-blank tabular row as a recipe.
pub fn read_refinery_record(resources: &ResourceMap, record: &Vec<String>) -> (r: Result<Recipe, RowError>)
    ensures
        match row_spec(row_view(record@), resources@) {
            Ok(rv) => r matches Ok(x) && x@ == rv,
            Err(f) => r matches Err(e) && e@ == f,
        },
{
    let ghost row = row_view(record@);
    if record.len() < MIN_COLUMNS || (record.len() < COLUMNS && !record[11].as_str().is_empty()) {
        return Err(RowError::ShortRow);
    }
    let output = match read_refinery_ingredient(resources, record[2].as_str(), record[3].as_str()) {
        Ok(io) => io,
        Err(e) => { return Err(e); },
    };
    let first = match read_refinery_ingredient(resources, record[7].as_str(), record[8].as_str()) {
        Ok(io) => io,
        Err(e) => { return Err(e); },
    };
    let mut inputs: Vec<InputOutput> = Vec::new();
    inputs.push(first);
    if !record[9].as_str().is_empty() {
        match read_refinery_ingredient(resources, record[9].as_str(), record[10].as_str()) {
            Ok(io) => { inputs.push(io); },
            Err(e) => { return Err(e); },
        }
    }
    if !record[11].as_str().is_empty() {
        match read_refinery_ingredient(resources, record[11].as_str(), record[12].as_str()) {
            Ok(io) => { inputs.push(io); },
            Err(e) => { return Err(e); },
        }
    }
    let rec = Recipe { name: record[NAME_COL].clone(), inputs, output };
    assert(rec@.inputs =~= seq![ingredient_spec(resources@, row[7], row[8])->Ok_0] + optional_spec(
        resources@,
        row,
        9,
    )->Ok_0 + optional_spec(resources@, row, 11)->Ok_0);
    Ok(rec)
}

/// Reads a table of records: the header rows and blank rows are passed
/// over, rows that parse give recipes, and every other row, an unreadable
/// record included, gives a diagnostic.
pub fn read_refinery_rows(rows: &Vec<Option<Vec<String>>>, resources: &ResourceMap) -> (r: Refinery)
    ensures
        refinery_view(r) == rows_spec(table_view(rows@), resources@),
{
    let ghost all = table_view(rows@);
    let ghost cat = resources@;
    let mut recipes: Vec<Recipe> = Vec::new();
    let mut skipped: Vec<Skipped> = Vec::new();
    assert(recipes_view(recipes@) =~= Seq::<RecipeView>::empty());
    assert(skipped@.map_values(|s: Skipped| s@) =~= Seq::<SkipView>::empty());
    if rows.len() <= HEADER_ROWS {
        return Refinery { recipes, skipped };
    }
    let mut i: usize = HEADER_ROWS;
    while i < rows.len()
        invariant
            HEADER_ROWS <= i <= rows@.len(),
            all == table_view(rows@),
            cat == resources@,
            (recipes_view(recipes@), skipped@.map_values(|s: Skipped| s@)) == rows_spec(all.take(i as int), cat),
        decreases rows.len() - i,
    {
        assert(all.take(i as int + 1).drop_last() =~= all.take(i as int));
        assert(all.take(i as int + 1).last() == all[i as int]);
        match &rows[i] {
            None => {
                let ghost before = skipped@;
                skipped.push(Skipped { name: String::new(), reason: RowError::Unreadable { row: i } });
                assert(skipped@.map_values(|s: Skipped| s@) =~= before.map_values(|s: Skipped| s@).push(
                    skipped@.last()@));
            },
            Some(record) => {
                assert(all[i as int] == Some(row_view(record@)));
                let blank = record.len() <= NAME_COL || record[NAME_COL].as_str().is_empty();
                if !blank {
                    match read_refinery_record(resources, record) {
                        Ok(rec) => {
                            let ghost before = recipes@;
                            recipes.push(rec);
                            assert(recipes_view(recipes@) =~= recipes_view(before).push(rec@));
                        },
                        Err(e) => {
                            let ghost before = skipped@;
                            skipped.push(Skipped { name: record[NAME_COL].clone(), reason: e });
                            assert(skipped@.map_values(|s: Skipped| s@) =~= before.map_values(
                                |s: Skipped| s@,
                            ).push(skipped@.last()@));
                        },
                    }
                }
            },
        }
        i += 1;
    }
    assert(all.take(i as int) =~= all);
    Refinery { recipes, skipped }
}

/// Reads refinery recipes from CSV data: the first `HEADER_ROWS` records are
/// titles and notes; a record that cannot be read is skipped like any other
/// bad row.
pub fn read_refinery(data: &[u8], resources: &ResourceMap) -> (r: Refinery)
    ensures
        refinery_view(r) == rows_spec(csv_rows_of(data@), resources@),
{
    let rows = parse_csv(data);
    read_refinery_rows(&rows, resources)
}

/// A row whose column 9 is given and whose column 11 is empty gives a recipe
/// with two inputs; a row with both empty gives a recipe with one.
pub proof fn lemma_optional_columns(row: Seq<Seq<char>>, cat: Seq<(Seq<char>, u32)>)
    requires
        row_spec(row, cat) is Ok,
    ensures
        row[9].len() > 0 && row[11].len() == 0 ==> (row_spec(row, cat)->Ok_0).inputs.len() == 2,
        row[9].len() == 0 && row[11].len() == 0 ==> (row_spec(row, cat)->Ok_0).inputs.len() == 1,
{
}

/// A blank row adds neither a recipe nor a diagnostic.
pub proof fn lemma_blank_row_silent(rows: Seq<Option<Seq<Seq<char>>>>, row: Seq<Seq<char>>, cat: Seq<(Seq<char>, u32)>)
    requires
        rows.len() >= HEADER_ROWS,
        is_blank(row),
    ensures
        rows_spec(rows.push(Some(row)), cat) == rows_spec(rows, cat),
{
    assert(rows.push(Some(row)).drop_last() =~= rows);
}

/// A record that cannot be read adds no recipe and one diagnostic that gives
/// its position; the rows after it are still read.
pub proof fn lemma_unreadable_row_skipped(rows: Seq<Option<Seq<Seq<char>>>>, cat: Seq<(Seq<char>, u32)>)
    requires
        rows.len() >= HEADER_ROWS,
    ensures
        rows_spec(rows.push(None), cat).0 == rows_spec(rows, cat).0,
        rows_spec(rows.push(None), cat).1 == rows_spec(rows, cat).1.push(
            SkipView { name: Seq::empty(), reason: RowFault::Unreadable(rows.len() as int) },
        ),
{
    assert(rows.push(None).drop_last() =~= rows);
}

/// Every non-blank data row that parses gives its recipe, whatever its
/// profit: a recipe whose output is worth less than its inputs is kept, with
/// a negative profit.
pub proof fn lemma_row_recipe_kept(rows: Seq<Option<Seq<Seq<char>>>>, i: int, cat: Seq<(Seq<char>, u32)>)
    requires
        HEADER_ROWS <= i < rows.len(),
        rows[i] matches Some(row) && !is_blank(row) && row_spec(row, cat) is Ok,
    ensures
        rows_spec(rows, cat).0.contains(row_spec(rows[i]->0, cat)->Ok_0),
        output_value_of(row_spec(rows[i]->0, cat)->Ok_0) < input_value_of(row_spec(rows[i]->0, cat)->Ok_0)
            ==> profit_of(row_spec(rows[i]->0, cat)->Ok_0) < 0,
    decreases rows.len(),
{
    let r = row_spec(rows[i]->0, cat)->Ok_0;
    let prev = rows_spec(rows.drop_last(), cat);
    if i == rows.len() - 1 {
        assert(rows.last() == rows[i]);
        assert(rows_spec(rows, cat).0 == prev.0.push(r));
        assert(rows_spec(rows, cat).0[prev.0.len() as int] == r);
    } else {
        assert(rows.drop_last()[i] == rows[i]);
        lemma_row_recipe_kept(rows.drop_last(), i, cat);
        let k = choose|k: int| 0 <= k < prev.0.len() && prev.0[k] == r;
        lemma_spec_prefix_kept(rows, cat);
        assert(rows_spec(rows, cat).0[k] == r);
    }
}

/// The recipes of a prefix of the rows stay at the front of those of all the rows.
proof fn lemma_spec_prefix_kept(rows: Seq<Option<Seq<Seq<char>>>>, cat: Seq<(Seq<char>, u32)>)
    requires
        rows.len() > HEADER_ROWS,
    ensures
        rows_spec(rows.drop_last(), cat).0.len() <= rows_spec(rows, cat).0.len(),
        forall|k: int| 0 <= k < rows_spec(rows.drop_last(), cat).0.len() ==>
            rows_spec(rows, cat).0[k] == #[trigger] rows_spec(rows.drop_last(), cat).0[k],
{
}

/// Every recipe that a non-blank row gives is well formed against the catalog.
pub proof fn lemma_row_wf(row: Seq<Seq<char>>, cat: Seq<(Seq<char>, u32)>)
    requires
        !is_blank(row),
        row_spec(row, cat) is Ok,
    ensures
        recipe_wf(row_spec(row, cat)->Ok_0, cat),
{
    let r = row_spec(row, cat)->Ok_0;
    assert forall|i: int| 0 <= i < r.inputs.len() implies resolves(#[trigger] r.inputs[i], cat) by {
    }
}

} // verus!
