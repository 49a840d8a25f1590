use refinery::recipe::{read_recipes, Part, Recipe, RecipeError};
use refinery::refinery::{read_refinery, read_refinery_ingredient, RowError};
use refinery::resource::{CatalogError, ResourceMap};

fn catalog(text: &str) -> ResourceMap {
    ResourceMap::load(text).unwrap()
}

fn row(out: &str, out_qty: &str, name: &str, inputs: [&str; 6]) -> String {
    format!(
        ",,{},{},,,{},{},{},{},{},{},{}\n",
        out, out_qty, name, inputs[0], inputs[1], inputs[2], inputs[3], inputs[4], inputs[5]
    )
}

fn header() -> String {
    "title,,,,,,,,,,,,\nnotes,,,,,,,,,,,,\ncolumns,,,,,,,,,,,,\n".to_string()
}

fn profit_ea(r: &Recipe) -> f64 {
    r.profit() as f64 / r.input_qty() as f64
}

#[test]
fn catalog_values_and_lookup() {
    let c = catalog("Carbon: 12\nCondensed Carbon: 24\n");
    assert_eq!(c.len(), 2);
    assert_eq!(c.get("Carbon").unwrap().value, 12);
    assert_eq!(c.get("Condensed Carbon").unwrap().value, 24);
    assert_eq!(c.get("Condensed Carbon").unwrap().name, "Condensed Carbon");
    assert!(c.get("Iron").is_none());
    assert!(c.get("").is_none());
    assert_eq!(c.resource_at(0).name, "Carbon");
    assert_eq!(c.resource_at(1).value, 24);
}

#[test]
fn catalog_empty_mapping() {
    let c = catalog("{}");
    assert_eq!(c.len(), 0);
}

#[test]
fn catalog_value_missing() {
    assert!(matches!(ResourceMap::load("Carbon: 12\nIron:\n"), Err(CatalogError::BadValue { name }) if name == "Iron"));
}

#[test]
fn catalog_value_not_numeric() {
    assert!(matches!(ResourceMap::load("Carbon: lots\n"), Err(CatalogError::BadValue { name }) if name == "Carbon"));
}

#[test]
fn catalog_value_negative_or_too_large() {
    assert!(matches!(ResourceMap::load("Carbon: -1\n"), Err(CatalogError::BadValue { .. })));
    assert!(matches!(ResourceMap::load("Carbon: 4294967296\n"), Err(CatalogError::BadValue { .. })));
    assert_eq!(catalog("Carbon: 4294967295\n").get("Carbon").unwrap().value, 4294967295);
}

#[test]
fn catalog_name_not_a_string() {
    assert!(matches!(ResourceMap::load("Carbon: 1\n5: 10\n"), Err(CatalogError::BadName { index: 1 })));
}

#[test]
fn catalog_not_a_mapping() {
    assert!(matches!(ResourceMap::load("- Carbon\n- Iron\n"), Err(CatalogError::NotAMapping)));
}

#[test]
fn catalog_not_yaml() {
    assert!(matches!(ResourceMap::load("a: [unclosed\n"), Err(CatalogError::NotParsed)));
    assert!(matches!(ResourceMap::load(""), Err(CatalogError::NotParsed)));
}

#[test]
fn structured_round_trip() {
    let c = catalog("A: 10\nB: 30\n");
    let rs = read_recipes("- name: \"Make B\"\n  inputs:\n    A: 2\n  output:\n    B: 1\n", &c).unwrap();
    assert_eq!(rs.len(), 1);
    let r = &rs[0];
    assert_eq!(r.name, "Make B");
    assert_eq!(r.output_value(), 30);
    assert_eq!(r.input_value(), 20);
    assert_eq!(r.profit(), 10);
    assert_eq!(r.input_qty(), 2);
    assert_eq!(profit_ea(r), 5.0);
}

#[test]
fn multi_input_profit() {
    let c = catalog("A: 6\nB: 34\nC: 50000\n");
    let rs = read_recipes("- name: Make C\n  inputs:\n    A: 50\n    B: 50\n  output:\n    C: 1\n", &c).unwrap();
    let r = &rs[0];
    assert_eq!(r.inputs.len(), 2);
    assert_eq!(r.inputs[0].resource.name, "A");
    assert_eq!(r.inputs[1].resource.name, "B");
    assert_eq!(r.input_value(), 2000);
    assert_eq!(r.output_value(), 50000);
    assert_eq!(r.profit(), 48000);
    assert_eq!(r.input_qty(), 100);
    assert_eq!(profit_ea(r), 480.0);
}

#[test]
fn structured_inputs_as_list() {
    let c = catalog("A: 6\nB: 34\nC: 50000\n");
    let text = "- name: Make C\n  inputs:\n    - B: 3\n    - A: 4\n  output:\n    C: 2\n";
    let rs = read_recipes(text, &c).unwrap();
    let r = &rs[0];
    assert_eq!(r.inputs.len(), 2);
    assert_eq!(r.inputs[0].resource.name, "B");
    assert_eq!(r.inputs[0].qty, 3);
    assert_eq!(r.inputs[1].resource.name, "A");
    assert_eq!(r.inputs[1].qty, 4);
    assert_eq!(r.output.qty, 2);
    assert_eq!(r.output_value(), 100000);
}

#[test]
fn structured_keeps_record_order_and_losses() {
    let c = catalog("A: 10\nB: 30\n");
    let text = "- name: Up\n  inputs:\n    A: 2\n  output:\n    B: 1\n- name: Down\n  inputs:\n    B: 1\n  output:\n    A: 1\n";
    let rs = read_recipes(text, &c).unwrap();
    assert_eq!(rs.len(), 2);
    assert_eq!(rs[0].name, "Up");
    assert_eq!(rs[1].name, "Down");
    assert_eq!(rs[1].profit(), -20);
    assert!(profit_ea(&rs[1]) < 0.0);
}

#[test]
fn structured_unknown_resource_is_fatal() {
    let c = catalog("A: 10\nB: 30\n");
    let text = "- name: Good\n  inputs:\n    A: 2\n  output:\n    B: 1\n- name: Bad\n  inputs:\n    Z: 2\n  output:\n    B: 1\n";
    let r = read_recipes(text, &c);
    assert!(matches!(r, Err(RecipeError::UnresolvedResource { index: 1, resource }) if resource == "Z"));
}

#[test]
fn structured_unknown_output_is_fatal() {
    let c = catalog("A: 10\n");
    let text = "- name: Bad\n  inputs:\n    A: 2\n  output:\n    Q: 1\n";
    assert!(matches!(read_recipes(text, &c), Err(RecipeError::UnresolvedResource { index: 0, resource }) if resource == "Q"));
}

#[test]
fn structured_bad_quantity() {
    let c = catalog("A: 10\nB: 30\n");
    for qty in ["0", "-2", "two", "4294967296"] {
        let text = format!("- name: R\n  inputs:\n    A: {}\n  output:\n    B: 1\n", qty);
        assert!(matches!(read_recipes(&text, &c), Err(RecipeError::BadQuantity { index: 0, resource }) if resource == "A"));
    }
}

#[test]
fn structured_malformed_records() {
    let c = catalog("A: 10\nB: 30\n");
    let no_name = "- inputs:\n    A: 2\n  output:\n    B: 1\n";
    assert!(matches!(read_recipes(no_name, &c), Err(RecipeError::Malformed { index: 0, part: Part::Name })));
    let no_inputs = "- name: R\n  output:\n    B: 1\n";
    assert!(matches!(read_recipes(no_inputs, &c), Err(RecipeError::Malformed { index: 0, part: Part::Inputs })));
    let empty_inputs = "- name: R\n  inputs: {}\n  output:\n    B: 1\n";
    assert!(matches!(read_recipes(empty_inputs, &c), Err(RecipeError::Malformed { index: 0, part: Part::Inputs })));
    let no_output = "- name: R\n  inputs:\n    A: 2\n";
    assert!(matches!(read_recipes(no_output, &c), Err(RecipeError::Malformed { index: 0, part: Part::Output })));
    let two_outputs = "- name: R\n  inputs:\n    A: 2\n  output:\n    A: 1\n    B: 1\n";
    assert!(matches!(read_recipes(two_outputs, &c), Err(RecipeError::Malformed { index: 0, part: Part::Output })));
    let not_record = "- just text\n";
    assert!(matches!(read_recipes(not_record, &c), Err(RecipeError::Malformed { index: 0, part: Part::Record })));
    assert!(matches!(read_recipes("name: R\n", &c), Err(RecipeError::NotAList)));
    assert!(matches!(read_recipes("[", &c), Err(RecipeError::NotParsed)));
}

#[test]
fn tabular_optional_columns() {
    let c = catalog("Ore: 5\nGas: 7\nWater: 1\nMetal: 100\n");
    let mut data = header();
    data += &row("Metal", "1", "Two", ["Ore", "3", "Gas", "2", "", ""]);
    data += &row("Metal", "1", "One", ["Ore", "3", "", "", "", ""]);
    data += &row("Metal", "2", "Three", ["Ore", "3", "Gas", "2", "Water", "10"]);
    let out = read_refinery(data.as_bytes(), &c);
    assert!(out.skipped.is_empty());
    assert_eq!(out.recipes.len(), 3);
    assert_eq!(out.recipes[0].name, "Two");
    assert_eq!(out.recipes[0].inputs.len(), 2);
    assert_eq!(out.recipes[1].inputs.len(), 1);
    assert_eq!(out.recipes[2].inputs.len(), 3);
    assert_eq!(out.recipes[2].inputs[2].resource.name, "Water");
    assert_eq!(out.recipes[2].inputs[2].qty, 10);
    assert_eq!(out.recipes[2].output.qty, 2);
    assert_eq!(out.recipes[2].input_value(), 15 + 14 + 10);
    assert_eq!(out.recipes[2].profit(), 200 - 39);
}

#[test]
fn tabular_partial_failure() {
    let c = catalog("Ore: 5\nMetal: 100\n");
    let mut data = header();
    data += &row("Metal", "1", "First", ["Ore", "3", "", "", "", ""]);
    data += &row("Metal", "1", "Second", ["Unobtainium", "3", "", "", "", ""]);
    data += &row("Metal", "1", "Third", ["Ore", "4", "", "", "", ""]);
    let out = read_refinery(data.as_bytes(), &c);
    assert_eq!(out.recipes.len(), 2);
    assert_eq!(out.recipes[0].name, "First");
    assert_eq!(out.recipes[1].name, "Third");
    assert_eq!(out.skipped.len(), 1);
    assert_eq!(out.skipped[0].name, "Second");
    assert!(matches!(&out.skipped[0].reason, RowError::UnknownResource { resource } if resource == "Unobtainium"));
}

#[test]
fn tabular_blank_row_is_silent() {
    let c = catalog("Ore: 5\nMetal: 100\n");
    let mut data = header();
    data += &row("Metal", "1", "", ["Nothing", "x", "", "", "", ""]);
    data += &row("Metal", "1", "Real", ["Ore", "3", "", "", "", ""]);
    data += ",,,,,,,,,,,,\n";
    let out = read_refinery(data.as_bytes(), &c);
    assert!(out.skipped.is_empty());
    assert_eq!(out.recipes.len(), 1);
    assert_eq!(out.recipes[0].name, "Real");
}

#[test]
fn tabular_headers_are_skipped() {
    let c = catalog("Ore: 5\nMetal: 100\n");
    let mut data = String::new();
    data += &row("Metal", "1", "H1", ["Ore", "3", "", "", "", ""]);
    data += &row("Metal", "1", "H2", ["Ore", "3", "", "", "", ""]);
    data += &row("Metal", "1", "H3", ["Ore", "3", "", "", "", ""]);
    let out = read_refinery(data.as_bytes(), &c);
    assert!(out.recipes.is_empty());
    assert!(out.skipped.is_empty());
    data += &row("Metal", "1", "Data", ["Ore", "3", "", "", "", ""]);
    let out = read_refinery(data.as_bytes(), &c);
    assert_eq!(out.recipes.len(), 1);
    assert_eq!(out.recipes[0].name, "Data");
}

#[test]
fn tabular_loss_is_kept() {
    let c = catalog("Ore: 50\nScrap: 1\n");
    let mut data = header();
    data += &row("Scrap", "1", "Waste", ["Ore", "2", "", "", "", ""]);
    let out = read_refinery(data.as_bytes(), &c);
    assert_eq!(out.recipes.len(), 1);
    assert_eq!(out.recipes[0].profit(), 1 - 100);
    assert_eq!(profit_ea(&out.recipes[0]), -49.5);
}

#[test]
fn tabular_row_errors() {
    let c = catalog("Ore: 5\nMetal: 100\n");
    let mut data = header();
    data += &row("Metal", "many", "BadOut", ["Ore", "3", "", "", "", ""]);
    data += &row("Metal", "1", "ZeroIn", ["Ore", "0", "", "", "", ""]);
    data += &row("Gold", "1", "NoGold", ["Ore", "1", "", "", "", ""]);
    data += &row("Metal", "1", "BadThird", ["Ore", "1", "", "", "Ore", "-1"]);
    data += ",,,,,,Short,Ore\n";
    let out = read_refinery(data.as_bytes(), &c);
    assert!(out.recipes.is_empty());
    assert_eq!(out.skipped.len(), 5);
    assert!(matches!(&out.skipped[0].reason, RowError::BadQuantity { resource, text } if resource == "Metal" && text == "many"));
    assert!(matches!(&out.skipped[1].reason, RowError::BadQuantity { text, .. } if text == "0"));
    assert!(matches!(&out.skipped[2].reason, RowError::UnknownResource { resource } if resource == "Gold"));
    assert!(matches!(&out.skipped[3].reason, RowError::BadQuantity { text, .. } if text == "-1"));
    assert_eq!(out.skipped[4].name, "Short");
    assert!(matches!(&out.skipped[4].reason, RowError::ShortRow));
}

#[test]
fn tabular_unreadable_record_is_skipped() {
    let c = catalog("Ore: 5\nMetal: 100\n");
    let mut data = header().into_bytes();
    data.extend_from_slice(row("Metal", "1", "First", ["Ore", "3", "", "", "", ""]).as_bytes());
    data.extend_from_slice(&[b',', b',', 0xff, 0xfe, b'\n']);
    data.extend_from_slice(row("Metal", "1", "Third", ["Ore", "4", "", "", "", ""]).as_bytes());
    let out = read_refinery(&data, &c);
    assert_eq!(out.recipes.len(), 2);
    assert_eq!(out.recipes[0].name, "First");
    assert_eq!(out.recipes[1].name, "Third");
    assert_eq!(out.skipped.len(), 1);
    assert_eq!(out.skipped[0].name, "");
    assert!(matches!(out.skipped[0].reason, RowError::Unreadable { row: 4 }));
}

#[test]
fn tabular_twelve_column_rows() {
    let c = catalog("Ore: 5\nGas: 7\nMetal: 100\n");
    let mut data = header();
    data += ",,Metal,1,,,One,Ore,3,,,\n";
    data += ",,Metal,1,,,Two,Ore,3,Gas,2,\n";
    data += ",,Metal,1,,,Three,Ore,3,Gas,2,Ore\n";
    let out = read_refinery(data.as_bytes(), &c);
    assert_eq!(out.recipes.len(), 2);
    assert_eq!(out.recipes[0].name, "One");
    assert_eq!(out.recipes[0].inputs.len(), 1);
    assert_eq!(out.recipes[1].name, "Two");
    assert_eq!(out.recipes[1].inputs.len(), 2);
    assert_eq!(out.skipped.len(), 1);
    assert_eq!(out.skipped[0].name, "Three");
    assert!(matches!(out.skipped[0].reason, RowError::ShortRow));
}

#[test]
fn yaml_with_alias_is_unsupported() {
    assert!(matches!(ResourceMap::load("A: &v 10\nB: *v\n"), Err(CatalogError::Unsupported)));
    let c = catalog("A: 10\nB: 30\n");
    let text = "- name: R\n  inputs:\n    A: 2\n  output:\n    B: 1\n- *r\n";
    assert!(matches!(read_recipes(text, &c), Err(RecipeError::Unsupported)));
}

#[test]
fn yaml_with_long_line_is_unsupported() {
    let long = format!("A: 1\n{}: 2\n", "x".repeat(200));
    assert!(matches!(ResourceMap::load(&long), Err(CatalogError::Unsupported)));
    let deep = format!("{}1\n", "- ".repeat(5000));
    assert!(matches!(ResourceMap::load(&deep), Err(CatalogError::Unsupported)));
    let c = catalog("A: 10\n");
    assert!(matches!(read_recipes(&deep, &c), Err(RecipeError::Unsupported)));
    let fits = format!("{}: 7\n", "y".repeat(125));
    assert_eq!(catalog(&fits).get(&"y".repeat(125)).unwrap().value, 7);
}

#[test]
fn ingredient_quantity_forms() {
    let c = catalog("Ore: 5\n");
    assert_eq!(read_refinery_ingredient(&c, "Ore", "12").unwrap().qty, 12);
    assert_eq!(read_refinery_ingredient(&c, "Ore", "+7").unwrap().qty, 7);
    assert_eq!(read_refinery_ingredient(&c, "Ore", "4294967295").unwrap().qty, 4294967295);
    assert!(read_refinery_ingredient(&c, "Ore", "4294967296").is_err());
    assert!(read_refinery_ingredient(&c, "Ore", " 3").is_err());
    assert!(read_refinery_ingredient(&c, "Ore", "").is_err());
    assert!(read_refinery_ingredient(&c, "Ore", "+").is_err());
    assert_eq!(read_refinery_ingredient(&c, "Ore", "007").unwrap().qty, 7);
    assert!(read_refinery_ingredient(&c, "Ore", "-0").is_err());
    assert!(read_refinery_ingredient(&c, "Ore", "1a").is_err());
    assert!(read_refinery_ingredient(&c, "Ore", "\u{ff13}").is_err());
    assert!(read_refinery_ingredient(&c, "Ore", "++1").is_err());
    assert!(matches!(read_refinery_ingredient(&c, "Iron", "3"), Err(RowError::UnknownResource { .. })));
    assert_eq!(read_refinery_ingredient(&c, "Ore", "3").unwrap().resource.value, 5);
}
