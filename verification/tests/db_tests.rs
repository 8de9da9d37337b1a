use catacraft::db::{to_node, to_node_list, Db, LookupError, LookupFailure};
use catacraft::graphs::Node;
use catacraft::records::{Field, FieldValue, Record};
use catacraft::schema::{
    Autolearn, ItemGroup, ItemGroupItem, ItemGroupItemType, Name, Recipe, RecipeTime, Requirement,
};

fn s(x: &str) -> String {
    x.to_string()
}

fn record(fields: &[(&str, &str)]) -> Record {
    Record {
        fields: fields
            .iter()
            .map(|(k, v)| Field { key: s(k), value: FieldValue::Text(s(v)) })
            .collect(),
    }
}

fn recipe(result: &str, suffix: Option<&str>) -> Recipe {
    Recipe {
        result: s(result),
        id_suffix: suffix.map(s),
        skill_used: s(""),
        skills_required: vec![],
        difficulty: 0,
        time: RecipeTime::TicksMaybe(0),
        charges: None,
        result_mult: None,
        components: vec![],
        qualities: vec![],
        autolearn: Autolearn::No,
        reversible: false,
    }
}

fn sample() -> Db {
    Db {
        raw: vec![
            record(&[("type", "TOOL"), ("id", "hammer")]),
            record(&[("type", "material"), ("id", "steel")]),
            record(&[("type", "GENERIC"), ("id", "steel")]),
            record(&[("type", "requirement"), ("id", "hammer")]),
            record(&[("type", "GENERIC"), ("id", "twin")]),
            record(&[("type", "TOOL"), ("id", "twin")]),
            record(&[("type", "GENERIC")]),
        ],
        names: vec![
            Some(Name::Plain(s("claw hammer"))),
            Some(Name::Same { str_sp: s("steel") }),
            Some(Name::WithPlural { str: s("lump of steel"), str_pl: None }),
            Some(Name::Plain(s("claw hammer"))),
            Some(Name::Plain(s("twin"))),
            Some(Name::Plain(s("twin"))),
            Some(Name::Plain(s("nameless thing"))),
        ],
        recipes: vec![recipe("rope", None), recipe("rope", Some("fast")), recipe("twin", None), recipe("twin", None)],
        requirements: vec![
            Requirement { id: s("cordage"), comment: None, components: vec![] },
            Requirement { id: s("double"), comment: None, components: vec![] },
            Requirement { id: s("double"), comment: None, components: vec![] },
        ],
        materials: vec![],
        itemgroups: vec![ItemGroup {
            id: s("shed"),
            subtype: None,
            items: vec![
                (ItemGroupItem { typ: ItemGroupItemType::Item, id: s("nail") }, 10),
                (ItemGroupItem { typ: ItemGroupItemType::Group, id: s("tools") }, 5),
            ],
        }],
    }
}

#[test]
fn item_lookup_skips_requirements_and_materials() {
    let db = sample();
    assert!(db.well_formed());
    assert_eq!(db.lookup_item("hammer"), Ok(Some(&db.raw[0])));
    assert_eq!(db.lookup_item("steel"), Ok(Some(&db.raw[2])));
    assert_eq!(db.lookup_item("nothing"), Ok(None));
    assert_eq!(db.lookup_item("twin"), Err(LookupError::LookupViolation));
    assert_eq!(db.item_position("hammer"), Ok(Some(0)));
    assert_eq!(db.item_position("steel"), Ok(Some(2)));
    assert_eq!(db.item_position("cordage"), Ok(None));
    assert_eq!(db.item_position("twin"), Err(LookupError::LookupViolation));
}

#[test]
fn name_lookup_skips_requirements_only() {
    let db = sample();
    assert_eq!(db.lookup_item_by_name("claw hammer"), Ok(Some(&db.raw[0])));
    assert_eq!(db.lookup_item_by_name("steel"), Ok(Some(&db.raw[1])));
    assert_eq!(db.lookup_item_by_name("lump of steel"), Ok(Some(&db.raw[2])));
    assert_eq!(db.lookup_item_by_name("hammer"), Ok(None));
    assert_eq!(db.lookup_item_by_name("twin"), Err(LookupError::LookupViolation));
}

#[test]
fn recipe_lookup_wants_exactly_one() {
    let db = sample();
    assert_eq!(db.lookup_recipe("rope", None), Ok(&db.recipes[0]));
    assert_eq!(db.lookup_recipe("rope", Some("fast")), Ok(&db.recipes[1]));
    assert_eq!(db.lookup_recipe("rope", Some("slow")), Err(LookupError::Missing));
    assert_eq!(db.lookup_recipe("twin", None), Err(LookupError::LookupViolation));
}

#[test]
fn requirement_lookup_wants_exactly_one() {
    let db = sample();
    assert_eq!(db.lookup_requirement("cordage"), Ok(&db.requirements[0]));
    assert_eq!(db.lookup_requirement("rope"), Err(LookupError::Missing));
    assert_eq!(db.lookup_requirement("double"), Err(LookupError::LookupViolation));
}

#[test]
fn obtainable_by_recipe_or_item_group() {
    let db = sample();
    assert!(db.is_obtainable("rope"));
    assert!(db.is_obtainable("nail"));
    assert!(!db.is_obtainable("tools"));
    assert!(!db.is_obtainable("hammer"));
}

#[test]
fn words_name_items_by_identifier_or_display_name() {
    let db = sample();
    assert_eq!(to_node("hammer", &db), Ok(Node::Item(s("hammer"))));
    assert_eq!(to_node("claw hammer", &db), Ok(Node::Item(s("hammer"))));
    assert_eq!(to_node("lump of steel", &db), Ok(Node::Item(s("steel"))));
    assert_eq!(to_node("nothing", &db), Err(LookupError::Missing));
    assert_eq!(to_node("twin", &db), Err(LookupError::LookupViolation));
    assert_eq!(to_node("nameless thing", &db), Err(LookupError::UnsupportedShape));
    assert_eq!(
        to_node_list(&[s("hammer"), s("lump of steel")], &db),
        Ok(vec![Node::Item(s("hammer")), Node::Item(s("steel"))])
    );
    assert_eq!(
        to_node_list(&[s("hammer"), s("nothing"), s("twin")], &db),
        Err(LookupFailure { error: LookupError::Missing, id: s("nothing") })
    );
}

#[test]
fn database_without_types_is_not_well_formed() {
    let mut db = sample();
    db.raw.push(record(&[("id", "odd")]));
    db.names.push(None);
    assert!(!db.well_formed());
    let mut db = sample();
    db.names.pop();
    assert!(!db.well_formed());
}
