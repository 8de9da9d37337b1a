use catacraft::labels::parse_spoils_in_bad;
use catacraft::loading::{
    add_usings, has_type, is_canned_variant, is_item_group_record, is_loadable, is_recipe_record,
    load_records, recipe_survives, surviving_recipes, water_record,
};
use catacraft::resolver::ResolveError;
use catacraft::plots::{
    checked_enc_at_full, checked_total_storage, enc_at_empty, enc_at_full, total_storage,
};
use catacraft::records::{Field, FieldValue, Record};
use catacraft::schema::{
    Armor, Autolearn, CataItem, ComponentDesc, ComponentDescRaw, GenericItemEnum,
    GenericItemHeader, Name, PocketAmmo, PocketData, PocketNormal, Recipe, RecipeTime,
    UnsupportedShape, Volume, Weight,
};
use catacraft::units::{ends_with, thousandfold, thousandth_of, UnitError};
use catacraft::table::Table;
use catacraft::text::{decimal, join, pad_left};

fn s(x: &str) -> String {
    x.to_string()
}

fn record(fields: &[(&str, FieldValue)]) -> Record {
    Record {
        fields: fields.iter().map(|(k, v)| Field { key: s(k), value: v.clone() }).collect(),
    }
}

fn text(value: &str) -> FieldValue {
    FieldValue::Text(s(value))
}

fn recipe(result: &str, suffix: Option<&str>) -> Recipe {
    Recipe {
        result: s(result),
        id_suffix: suffix.map(s),
        skill_used: s(""),
        skills_required: vec![],
        difficulty: 0,
        time: RecipeTime::default(),
        charges: None,
        result_mult: None,
        components: vec![],
        qualities: vec![],
        autolearn: Autolearn::default(),
        reversible: false,
    }
}

fn pocket(ml: i32) -> PocketData {
    PocketData::Normal(PocketNormal {
        max_contains_volume: Volume { ml },
        max_contains_weight: s("1 kg"),
        moves: 0,
        flag_restriction: vec![],
    })
}

fn armor(encumbrance: i32, max_encumbrance: Option<i32>, pockets: Vec<PocketData>) -> Armor {
    Armor {
        covers: vec![],
        coverage: 0,
        encumbrance,
        max_encumbrance,
        warmth: 0,
        material_thickness: 0,
        environmental_protection: 0,
        material: vec![],
        pocket_data: pockets,
    }
}

fn item(flags: &[&str], inner: GenericItemEnum) -> CataItem {
    CataItem {
        header: GenericItemHeader {
            typ: s("ARMOR"),
            id: s("belt"),
            name: Name::Plain(s("belt")),
            flags: flags.iter().map(|f| s(f)).collect(),
            volume: None,
            weight: None,
            category: None,
            cutting: 0,
            bashing: 0,
        },
        inner,
    }
}

#[test]
fn decimal_forms() {
    assert_eq!(decimal(0), "0");
    assert_eq!(decimal(7), "7");
    assert_eq!(decimal(10), "10");
    assert_eq!(decimal(-12), "-12");
    assert_eq!(decimal(2147483647), "2147483647");
    assert_eq!(decimal(-2147483648), "-2147483648");
    assert_eq!(decimal(9007199254740993), "9007199254740993");
}

#[test]
fn padding_and_joining() {
    assert_eq!(pad_left("ab", 5), "   ab");
    assert_eq!(pad_left("ab", 2), "ab");
    assert_eq!(pad_left("abc", 1), "abc");
    assert_eq!(pad_left("", 2), "  ");
    assert_eq!(join(&vec![s("a"), s("b"), s("c")], ", "), "a, b, c");
    assert_eq!(join(&vec![s("a")], ", "), "a");
    assert_eq!(join(&vec![], ", "), "");
    assert_eq!(join(&vec![s(""), s("")], "-"), "-");
}

#[test]
fn table_is_set_in_columns() {
    let mut t = Table::new();
    t.set_headers(vec![s("id"), s("name")]);
    t.add_row(vec![s("1"), s("one")]);
    t.add_row(vec![s("22")]);
    assert_eq!(t.format(), "id name\n 1  one\n22\nid name");
}

#[test]
fn table_breaks_lines_at_the_line_width() {
    let mut t = Table::new();
    t.line_width = 5;
    t.set_headers(vec![s("aaa"), s("bbb"), s("c")]);
    assert_eq!(t.format(), "aaa\nbbb c\naaa");
    t.add_row(vec![s("1"), s("22"), s("3"), s("4444")]);
    assert_eq!(t.format(), "aaa\nbbb c\n  1\n 22 3 4444\naaa");
}

#[test]
fn empty_table_is_two_empty_lines() {
    assert_eq!(Table::new().format(), "\n");
}

#[test]
fn table_widths_count_bytes() {
    let mut t = Table::new();
    t.set_headers(vec![s("é"), s("x")]);
    t.add_row(vec![s("a"), s("y")]);
    assert_eq!(t.format(), " é x\n a y\n é x");
}

#[test]
fn recipe_time_in_seconds() {
    assert_eq!(RecipeTime::Human(s("1 h 30 m")).to_seconds(), 5400);
    assert_eq!(RecipeTime::Human(s("45 s")).to_seconds(), 45);
    assert_eq!(RecipeTime::Human(s("10 m")).to_seconds(), 600);
    assert_eq!(RecipeTime::Human(s("2h")).to_seconds(), 7200);
    assert_eq!(RecipeTime::Human(s("12")).to_seconds(), 12);
    assert_eq!(RecipeTime::Human(s("")).to_seconds(), 0);
    assert_eq!(RecipeTime::Human(s("1 m 5 s")).checked_seconds(), Some(65));
    assert_eq!(RecipeTime::Human(s("1 day")).checked_seconds(), None);
    assert_eq!(RecipeTime::Human(s("9999999999 s")).checked_seconds(), None);
    assert_eq!(RecipeTime::Human(s("2147483647")).checked_seconds(), Some(2147483647));
    assert_eq!(RecipeTime::Human(s("2147483648")).checked_seconds(), None);
    assert_eq!(RecipeTime::Human(s("00000000000000000000000000000000000000001 s")).to_seconds(), 1);
    assert_eq!(RecipeTime::Human(s("10000000000 s")).checked_seconds(), None);
    assert_eq!(RecipeTime::Human(s("596523 h")).checked_seconds(), Some(2147482800));
    assert_eq!(RecipeTime::Human(s("596524 h")).checked_seconds(), None);
    assert_eq!(RecipeTime::Human(s("214748364")).checked_seconds(), Some(214748364));
    assert_eq!(RecipeTime::TicksMaybe(5).checked_seconds(), None);
}

#[test]
fn recipe_time_for_people() {
    assert_eq!(RecipeTime::Human(s("1 h")).to_human(), "1 h");
    assert_eq!(RecipeTime::TicksMaybe(5).to_human(), " ??? 5 ticks ???");
    assert_eq!(RecipeTime::TicksMaybe(-40).to_human(), " ??? -40 ticks ???");
    assert_eq!(RecipeTime::default(), RecipeTime::TicksMaybe(0));
    assert_eq!(Autolearn::default(), Autolearn::No);
}

#[test]
fn written_alternatives() {
    assert_eq!(
        ComponentDesc::from_raw(ComponentDescRaw::Two(s("wood"), 2)),
        Ok(ComponentDesc::Plain(s("wood"), 2))
    );
    assert_eq!(
        ComponentDesc::from_raw(ComponentDescRaw::Three(s("cordage"), 1, s("LIST"))),
        Ok(ComponentDesc::List(s("cordage"), 1))
    );
    assert_eq!(
        ComponentDesc::from_raw(ComponentDescRaw::Three(s("glue"), 3, s("NO_RECOVER"))),
        Ok(ComponentDesc::List(s("glue"), 3))
    );
    assert_eq!(
        ComponentDesc::from_raw(ComponentDescRaw::Three(s("glue"), 3, s("list"))),
        Err(UnsupportedShape)
    );
    assert_eq!(
        ComponentDesc::from_raw(ComponentDescRaw::ThreeList(s("glue"), 3, vec![s("LIST")])),
        Err(UnsupportedShape)
    );
}

#[test]
fn records_that_are_loaded() {
    let tool = record(&[("type", text("TOOL")), ("id", text("saw"))]);
    assert_eq!(is_loadable(&tool), Ok(true));
    assert_eq!(is_loadable(&record(&[("type", text("harvest"))])), Ok(false));
    assert_eq!(is_loadable(&record(&[("type", text("overmap_terrain"))])), Ok(false));
    assert_eq!(is_loadable(&record(&[("id", text("saw"))])), Ok(true));
    assert_eq!(is_loadable(&record(&[("abstract", text("base_tool"))])), Ok(true));
    assert_eq!(is_loadable(&record(&[("id", text("debug_backpack"))])), Ok(false));
    assert_eq!(is_loadable(&record(&[("obsolete", FieldValue::Flag(true))])), Ok(false));
    assert_eq!(is_loadable(&record(&[("type", FieldValue::Integer(3))])), Ok(true));
    assert_eq!(
        is_loadable(&record(&[("type", text("TOOL")), ("obsolete", FieldValue::Flag(true))])),
        Ok(false)
    );
    assert_eq!(
        is_loadable(&record(&[("type", text("TOOL")), ("obsolete", FieldValue::Flag(false))])),
        Ok(true)
    );
    assert_eq!(
        is_loadable(&record(&[("type", text("TOOL")), ("id", text("debug_backpack"))])),
        Ok(false)
    );
    assert_eq!(is_loadable(&record(&[("type", text("recipe"))])), Err(UnsupportedShape));
    assert_eq!(
        is_loadable(&record(&[("type", text("recipe")), ("result", text("crude_picklock"))])),
        Ok(false)
    );
    assert_eq!(
        is_loadable(&record(&[
            ("type", text("recipe")),
            ("result", text("crude_picklock")),
            ("id_suffix", text("from wire")),
        ])),
        Ok(false)
    );
    assert_eq!(
        is_loadable(&record(&[
            ("type", text("recipe")),
            ("result", text("crude_picklock")),
            ("id_suffix", text("from pins")),
        ])),
        Ok(true)
    );
    assert_eq!(
        is_loadable(&record(&[("type", text("recipe")), ("result", text("icecream_choc"))])),
        Ok(true)
    );
    assert_eq!(
        is_loadable(&record(&[
            ("type", text("recipe")),
            ("result", text("icecream_choc")),
            ("id_suffix", text("from_bags")),
        ])),
        Ok(false)
    );
    assert_eq!(
        is_loadable(&record(&[("type", text("TOOL")), ("result", text("crude_picklock"))])),
        Ok(true)
    );
}

#[test]
fn recipes_that_survive_projection() {
    let recipes = vec![
        recipe("jam", Some("canned")),
        recipe("jam", None),
        recipe("rope", None),
        recipe("rope", Some("fast")),
        recipe("rope", None),
        recipe("jam", Some("jarred")),
        recipe("jam", Some("jarred_3l")),
    ];
    let kept: Vec<bool> = (0..recipes.len()).map(|i| recipe_survives(&recipes, i)).collect();
    assert_eq!(kept, vec![false, true, false, true, false, false, false]);
    assert!(is_canned_variant(&recipes[0]));
    assert!(!is_canned_variant(&recipes[3]));
}

#[test]
fn storage_and_encumbrance() {
    let pockets = vec![
        pocket(1000),
        PocketData::Ammo(PocketAmmo { ammo_restriction: vec![(s("9mm"), 30)] }),
        pocket(500),
    ];
    let a = armor(3, None, pockets.clone());
    assert_eq!(total_storage(&a), Volume { ml: 1500 });
    assert_eq!(checked_total_storage(&a), Some(Volume { ml: 1500 }));
    assert_eq!(enc_at_full(&item(&[], GenericItemEnum::Armor(a.clone()))), 9);
    assert_eq!(enc_at_full(&item(&["VARSIZE"], GenericItemEnum::Armor(a.clone()))), 4);
    assert_eq!(enc_at_empty(&item(&[], GenericItemEnum::Armor(a.clone()))), 3);
    assert_eq!(enc_at_empty(&item(&["WATERPROOF", "VARSIZE"], GenericItemEnum::Armor(a))), 1);
    let capped = armor(3, Some(7), pockets);
    assert_eq!(enc_at_full(&item(&[], GenericItemEnum::Armor(capped.clone()))), 7);
    assert_eq!(enc_at_full(&item(&["VARSIZE"], GenericItemEnum::Armor(capped))), 3);
    let odd = armor(-3, None, vec![pocket(249)]);
    assert_eq!(enc_at_full(&item(&["VARSIZE"], GenericItemEnum::Armor(odd.clone()))), -1);
    assert_eq!(enc_at_empty(&item(&["VARSIZE"], GenericItemEnum::Armor(odd))), -1);
    let huge = armor(0, None, vec![pocket(i32::MAX), pocket(1)]);
    assert_eq!(checked_total_storage(&huge), None);
    assert_eq!(checked_enc_at_full(&item(&[], GenericItemEnum::Armor(huge))), None);
    assert_eq!(checked_enc_at_full(&item(&[], GenericItemEnum::Tool)), None);
    assert_eq!(total_storage(&armor(0, None, vec![])), Volume { ml: 0 });
}

#[test]
fn pockets_and_items_by_kind() {
    let normal = pocket(10);
    let ammo = PocketData::Ammo(PocketAmmo { ammo_restriction: vec![] });
    assert!(normal.as_normal().is_some());
    assert!(normal.as_ammo().is_none());
    assert!(ammo.as_ammo().is_some());
    assert!(ammo.as_normal().is_none());
    let a = armor(1, None, vec![]);
    let it = item(&[], GenericItemEnum::Armor(a.clone()));
    assert_eq!(it.armor(), Some(&a));
    assert_eq!(it.as_armor(), &a);
    assert_eq!(item(&[], GenericItemEnum::Generic).armor(), None);
}

#[test]
fn spoiling_labels() {
    assert_eq!(parse_spoils_in_bad(&FieldValue::Integer(5)), Some(s("5h")));
    assert_eq!(parse_spoils_in_bad(&FieldValue::Integer(0)), Some(s("0h")));
    assert_eq!(parse_spoils_in_bad(&FieldValue::Integer(23)), Some(s("23h")));
    assert_eq!(parse_spoils_in_bad(&FieldValue::Integer(24)), Some(s("1d")));
    assert_eq!(parse_spoils_in_bad(&FieldValue::Integer(49)), Some(s("2d")));
    assert_eq!(parse_spoils_in_bad(&FieldValue::Integer(-30)), Some(s("-1d")));
    assert_eq!(parse_spoils_in_bad(&FieldValue::Integer(-5)), Some(s("0d")));
    assert_eq!(parse_spoils_in_bad(&text("3 days")), Some(s("3 days")));
    assert_eq!(parse_spoils_in_bad(&FieldValue::Flag(true)), None);
    assert_eq!(parse_spoils_in_bad(&FieldValue::Other(serde_json::Value::Null)), None);
}

#[test]
fn written_volumes() {
    assert_eq!(Volume::parse("250 ml"), Ok(Volume { ml: 250 }));
    assert_eq!(Volume::parse("250ml"), Ok(Volume { ml: 250 }));
    assert_eq!(Volume::parse("2 L"), Ok(Volume { ml: 2000 }));
    assert_eq!(Volume::parse("-3 L"), Ok(Volume { ml: -3000 }));
    assert_eq!(Volume::parse("1.5 L"), Err(UnitError::NotANumber));
    assert_eq!(Volume::parse("ml"), Err(UnitError::NotANumber));
    assert_eq!(Volume::parse("3 gallons"), Err(UnitError::UnknownUnit));
    assert_eq!(Volume::parse(""), Err(UnitError::UnknownUnit));
    assert_eq!(Volume::parse("3000000 L"), Err(UnitError::TooLarge));
    assert_eq!(Volume::parse("2147483 L"), Ok(Volume { ml: 2147483000 }));
}

#[test]
fn written_weights() {
    assert_eq!(Weight::parse("500 g"), Ok(Weight { g: 500 }));
    assert_eq!(Weight::parse("2 kg"), Ok(Weight { g: 2000 }));
    assert_eq!(Weight::parse("1500 mg"), Ok(Weight { g: 1 }));
    assert_eq!(Weight::parse("-1500 mg"), Ok(Weight { g: -1 }));
    assert_eq!(Weight::parse("999 mg"), Ok(Weight { g: 0 }));
    assert_eq!(Weight::parse("500g"), Err(UnitError::UnknownUnit));
    assert_eq!(Weight::parse("x kg"), Err(UnitError::NotANumber));
    assert_eq!(Weight::parse("3000000 kg"), Err(UnitError::TooLarge));
    assert!(ends_with("12 kg", " kg"));
    assert!(ends_with("kg", ""));
    assert!(!ends_with("kg", " kg"));
    assert!(!ends_with("12 kg ", " kg"));
}

#[test]
fn records_that_are_projected() {
    let plain = record(&[("type", text("recipe")), ("result", text("rope"))]);
    let camp = record(&[("type", text("recipe")), ("category", text("CC_BUILDING"))]);
    let craft = record(&[("type", text("recipe")), ("category", text("CC_FOOD"))]);
    assert!(is_recipe_record(&plain));
    assert!(!is_recipe_record(&camp));
    assert!(is_recipe_record(&craft));
    assert!(!is_recipe_record(&record(&[("type", text("TOOL"))])));
    assert!(has_type(&plain, "recipe"));
    assert!(!has_type(&plain, "requirement"));
    assert!(!has_type(&record(&[("id", text("x"))]), "recipe"));
    assert!(is_item_group_record(&record(&[("type", text("item_group"))])));
    assert!(is_item_group_record(&record(&[
        ("type", text("item_group")),
        ("subtype", text("distribution")),
    ])));
    assert!(!is_item_group_record(&record(&[
        ("type", text("item_group")),
        ("subtype", text("collection")),
    ])));
    assert!(!is_item_group_record(&record(&[("type", text("recipe"))])));
}

#[test]
fn usings_become_groups_of_one_reference() {
    let mut components = vec![vec![ComponentDesc::Plain(s("wood"), 2)]];
    let usings = vec![ComponentDesc::Plain(s("sewing"), 3), ComponentDesc::List(s("welding"), 1)];
    add_usings(&mut components, &usings);
    assert_eq!(
        components,
        vec![
            vec![ComponentDesc::Plain(s("wood"), 2)],
            vec![ComponentDesc::List(s("sewing"), 3)],
            vec![ComponentDesc::List(s("welding"), 1)],
        ]
    );
    add_usings(&mut components, &vec![]);
    assert_eq!(components.len(), 3);
}

fn sorted_keys(r: &Record) -> Vec<String> {
    let mut v: Vec<String> = r.fields.iter().map(|f| f.key.clone()).collect();
    v.sort();
    v
}

#[test]
fn surviving_recipes_keep_their_order() {
    let recipes = vec![
        recipe("jam", Some("canned")),
        recipe("jam", None),
        recipe("rope", None),
        recipe("rope", Some("fast")),
        recipe("rope", None),
        recipe("axe", None),
    ];
    let kept = surviving_recipes(recipes);
    assert_eq!(kept, vec![recipe("jam", None), recipe("rope", Some("fast")), recipe("axe", None)]);
    assert_eq!(surviving_recipes(vec![]), vec![]);
    assert_eq!(surviving_recipes(vec![recipe("a", None), recipe("a", None)]), vec![]);
}

#[test]
fn water_is_a_drink() {
    let water = water_record();
    assert_eq!(water.get("type"), Some(&text("COMESTIBLE")));
    assert_eq!(water.get("id"), Some(&text("water")));
    assert_eq!(water.get("name"), Some(&text("water")));
    assert_eq!(water.get("description"), Some(&text("get me from data/core/basic.json")));
    assert_eq!(water.get("comestible_type"), Some(&text("DRINK")));
    assert_eq!(water.get("quench"), Some(&FieldValue::Integer(60)));
    assert_eq!(water.fields.len(), 6);
}

#[test]
fn loading_filters_resolves_and_adds_water() {
    let read = vec![
        record(&[
            ("abstract", text("base_tool")),
            ("type", text("TOOL")),
            ("weight", text("500 g")),
            ("volume", text("250 ml")),
        ]),
        record(&[("type", text("harvest")), ("id", text("hay"))]),
        record(&[
            ("type", text("TOOL")),
            ("id", text("hammer")),
            ("copy-from", text("base_tool")),
            ("name", text("hammer")),
        ]),
        record(&[("type", text("COMESTIBLE")), ("id", text("tea")), ("copy-from", text("water"))]),
        record(&[("type", text("TOOL")), ("id", text("old")), ("obsolete", FieldValue::Flag(true))]),
    ];
    let usable = load_records(read).unwrap();
    assert_eq!(usable.len(), 3);
    assert_eq!(usable[0].get("id"), Some(&text("hammer")));
    assert_eq!(usable[0].get("weight"), Some(&text("500 g")));
    assert_eq!(usable[0].get("volume"), Some(&text("250 ml")));
    assert_eq!(usable[0].get("name"), Some(&text("hammer")));
    assert_eq!(usable[0].get("type"), Some(&text("TOOL")));
    assert_eq!(sorted_keys(&usable[0]), vec!["id", "name", "type", "volume", "weight"]);
    assert_eq!(usable[1].get("id"), Some(&text("tea")));
    assert_eq!(usable[1].get("copy-from"), Some(&text("water")));
    assert_eq!(usable[2], water_record());
    assert_eq!(load_records(vec![]), Ok(vec![water_record()]));
}

#[test]
fn loading_merges_a_child_onto_a_template_without_type() {
    let read = vec![
        record(&[
            ("abstract", text("base_tool")),
            ("weight", text("500 g")),
            ("volume", text("250 ml")),
        ]),
        record(&[
            ("type", text("TOOL")),
            ("id", text("hammer")),
            ("copy-from", text("base_tool")),
            ("name", text("hammer")),
        ]),
    ];
    let usable = load_records(read).unwrap();
    assert_eq!(usable.len(), 2);
    assert_eq!(sorted_keys(&usable[0]), vec!["id", "name", "type", "volume", "weight"]);
    assert_eq!(usable[0].get("type"), Some(&text("TOOL")));
    assert_eq!(usable[0].get("id"), Some(&text("hammer")));
    assert_eq!(usable[0].get("name"), Some(&text("hammer")));
    assert_eq!(usable[0].get("weight"), Some(&text("500 g")));
    assert_eq!(usable[0].get("volume"), Some(&text("250 ml")));
    assert_eq!(usable[1], water_record());
    for r in &usable {
        assert!(!r.has("abstract"));
        assert!(!r.has("copy-from"));
    }
}

#[test]
fn loading_fails_on_what_cannot_be_judged_or_resolved() {
    assert_eq!(
        load_records(vec![record(&[("type", text("recipe")), ("id", text("no result"))])]),
        Err(ResolveError::UnsupportedShape)
    );
    assert_eq!(
        load_records(vec![record(&[("id", text("untyped")), ("copy-from", text("water_2"))])]),
        Err(ResolveError::UnsupportedShape)
    );
    assert_eq!(
        load_records(vec![record(&[("id", text("untyped"))])]),
        Ok(vec![record(&[("id", text("untyped"))]), water_record()])
    );
    assert_eq!(
        load_records(vec![record(&[("type", text("TOOL")), ("copy-from", text("nothing"))])]),
        Err(ResolveError::MissingReference(s("nothing")))
    );
    assert!(load_records(vec![record(&[("type", text("harvest")), ("copy-from", text("nothing"))])])
        .is_ok());
}

#[test]
fn thousands() {
    assert_eq!(thousandfold(2), Ok(2000));
    assert_eq!(thousandfold(-2147483), Ok(-2147483000));
    assert_eq!(thousandfold(2147484), Err(UnitError::TooLarge));
    assert_eq!(thousandfold(-2147484), Err(UnitError::TooLarge));
    assert_eq!(thousandth_of(1999), 1);
    assert_eq!(thousandth_of(-1999), -1);
    assert_eq!(thousandth_of(999), 0);
    assert_eq!(thousandth_of(-999), 0);
    assert_eq!(thousandth_of(i32::MIN), -2147483);
    assert_eq!(thousandth_of(i32::MAX), 2147483);
}

#[test]
fn numbers_before_a_unit() {
    assert_eq!(Volume::parse("+5 ml"), Ok(Volume { ml: 5 }));
    assert_eq!(Volume::parse("-0 ml"), Ok(Volume { ml: 0 }));
    assert_eq!(Volume::parse("0000000000000000000012 ml"), Ok(Volume { ml: 12 }));
    assert_eq!(Volume::parse("2147483647 ml"), Ok(Volume { ml: 2147483647 }));
    assert_eq!(Volume::parse("-2147483648 ml"), Ok(Volume { ml: -2147483648 }));
    assert_eq!(Volume::parse("2147483648 ml"), Err(UnitError::NotANumber));
    assert_eq!(Volume::parse("-2147483649 ml"), Err(UnitError::NotANumber));
    assert_eq!(Volume::parse(" ml"), Err(UnitError::NotANumber));
    assert_eq!(Volume::parse("+ ml"), Err(UnitError::NotANumber));
    assert_eq!(Volume::parse("- ml"), Err(UnitError::NotANumber));
    assert_eq!(Volume::parse("+-5 ml"), Err(UnitError::NotANumber));
    assert_eq!(Volume::parse("5+ ml"), Err(UnitError::NotANumber));
    assert_eq!(Volume::parse("5_0 ml"), Err(UnitError::NotANumber));
    assert_eq!(Volume::parse("5 0 ml"), Err(UnitError::NotANumber));
    assert_eq!(Volume::parse("0x10 ml"), Err(UnitError::NotANumber));
    assert_eq!(Volume::parse("\u{663} ml"), Err(UnitError::NotANumber));
    assert_eq!(Volume::parse("\t 7 \n ml"), Ok(Volume { ml: 7 }));
}
