use catacraft::schema::{Autolearn, ComponentDesc, Name, Recipe, RecipeTime};
use catacraft::table::{Row, Table};
use catacraft::graphs::Node;
use catacraft::train::{recipe_is_known, recipe_trains};
use catacraft::units::starts_with;

fn s(x: &str) -> String {
    x.to_string()
}

fn recipe(autolearn: Autolearn) -> Recipe {
    Recipe {
        result: s("rope"),
        id_suffix: None,
        skill_used: s("tailor"),
        skills_required: vec![],
        difficulty: 3,
        time: RecipeTime::TicksMaybe(0),
        charges: None,
        result_mult: None,
        components: vec![],
        qualities: vec![],
        autolearn,
        reversible: false,
    }
}

#[test]
fn component_name_and_amount() {
    let p = ComponentDesc::Plain(s("wood"), 2);
    let l = ComponentDesc::List(s("cordage"), 5);
    assert_eq!(p.name(), "wood");
    assert_eq!(p.amount(), 2);
    assert_eq!(l.name(), "cordage");
    assert_eq!(l.amount(), 5);
}

#[test]
fn name_text_is_the_singular() {
    assert_eq!(Name::Plain(s("a")).as_str(), "a");
    assert_eq!(Name::Same { str_sp: s("b") }.as_str(), "b");
    assert_eq!(Name::WithPlural { str: s("c"), str_pl: Some(s("cs")) }.as_str(), "c");
    assert_eq!(Name::WithPlural { str: s("c"), str_pl: None }.to_string(), "c");
    assert_eq!(Name::Plain(s("a")).to_string(), "a");
    assert_eq!(Name::Same { str_sp: s("b") }.to_string(), "b");
}

#[test]
fn table_collects_headers_and_rows() {
    let mut t = Table::new();
    assert!(t.headers.is_empty());
    assert!(t.rows.is_empty());
    assert_eq!(t.line_width, 100);
    t.set_headers(vec![s("id"), s("name")]);
    t.add_row(vec![s("1"), s("one")]);
    t.add_row(vec![s("2")]);
    assert_eq!(t.headers, vec![s("id"), s("name")]);
    assert_eq!(t.rows, vec![Row { cells: vec![s("1"), s("one")] }, Row { cells: vec![s("2")] }]);
    t.set_headers(vec![]);
    assert!(t.headers.is_empty());
    assert_eq!(t.rows.len(), 2);
}

#[test]
fn recipe_known_by_skill() {
    let skills = [(s("tailor"), 3), (s("cooking"), 0)];
    assert!(!recipe_is_known(&recipe(Autolearn::No), &skills));
    assert!(recipe_is_known(&recipe(Autolearn::Yes), &skills));
    assert!(!recipe_is_known(&recipe(Autolearn::Yes), &[(s("tailor"), 2)]));
    assert!(recipe_is_known(&recipe(Autolearn::Yes), &[(s("cooking"), 0)]));
    assert!(recipe_is_known(&recipe(Autolearn::Yes), &[]));
    let complex = Autolearn::Complex(vec![(s("tailor"), 1), (s("cooking"), 1)]);
    assert!(!recipe_is_known(&recipe(complex.clone()), &skills));
    assert!(recipe_is_known(&recipe(complex), &[(s("tailor"), 1), (s("cooking"), 4)]));
}

#[test]
fn recipe_that_trains_a_skill() {
    let tailor = s("tailor");
    let skills = [(s("tailor"), 3)];
    let mut good = recipe(Autolearn::Yes);
    good.components = vec![vec![ComponentDesc::Plain(s("thread"), 1), ComponentDesc::Plain(s("yarn"), 1)]];
    assert!(recipe_trains(&good, &tailor, &skills, &[]));
    assert!(recipe_trains(&good, &tailor, &skills, &[Node::Item(s("thread"))]));
    assert!(!recipe_trains(&good, &tailor, &skills, &[Node::Item(s("thread")), Node::Item(s("yarn"))]));
    assert!(!recipe_trains(&good, &s("cooking"), &skills, &[]));
    assert!(!recipe_trains(&good, &tailor, &[(s("tailor"), 2)], &[]));
    let mut seed = good.clone();
    seed.result = s("seed_flax");
    assert!(!recipe_trains(&seed, &tailor, &skills, &[]));
    let mut sharpened = good.clone();
    sharpened.result = s("needle_sharpened");
    assert!(!recipe_trains(&sharpened, &tailor, &skills, &[]));
    let mut near = good.clone();
    near.result = s("sharpened_seed");
    assert!(recipe_trains(&near, &tailor, &skills, &[]));
    assert!(starts_with("seed_oats", "seed_"));
    assert!(!starts_with("see", "seed_"));
    assert!(starts_with("x", ""));
}
