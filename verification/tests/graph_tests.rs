use catacraft::engine::{close, close_counted, strictly_satisfied, Production};
use catacraft::graphs::{contains_edge, contains_node, CraftableGraph, Edge, Node};
use catacraft::reachability::{
    contains_name, excluded_by_quality, expand_pantry, expand_pantry_counted,
    find_everything_craftable_from, forward_reachable, forward_reachable_counted,
    get_ingredient_multiplicity, has_enough_components, has_mandatory_ingredient,
    node_matches_component_desc, unobtainable_nodes,
};
use catacraft::schema::{Autolearn, ComponentDesc, Quality, Recipe, RecipeTime, Requirement};

fn s(x: &str) -> String {
    x.to_string()
}

fn plain(name: &str, amount: i32) -> ComponentDesc {
    ComponentDesc::Plain(s(name), amount)
}

fn list(name: &str, amount: i32) -> ComponentDesc {
    ComponentDesc::List(s(name), amount)
}

fn item(name: &str) -> Node {
    Node::Item(s(name))
}

fn req_node(name: &str) -> Node {
    Node::RequirementItem(s(name))
}

fn edge(source: Node, dest: Node, suffix: Option<&str>) -> Edge {
    Edge { source, dest, recipe_suffix: suffix.map(s) }
}

fn recipe(result: &str, suffix: Option<&str>, components: Vec<Vec<ComponentDesc>>) -> Recipe {
    Recipe {
        result: s(result),
        id_suffix: suffix.map(s),
        skill_used: s("fabrication"),
        skills_required: vec![],
        difficulty: 0,
        time: RecipeTime::TicksMaybe(0),
        charges: None,
        result_mult: None,
        components,
        qualities: vec![],
        autolearn: Autolearn::No,
        reversible: false,
    }
}

fn requirement(id: &str, components: Vec<Vec<ComponentDesc>>) -> Requirement {
    Requirement { id: s(id), comment: None, components }
}

fn sorted_nodes(g: &CraftableGraph) -> Vec<Node> {
    let mut v = g.nodes.clone();
    v.sort();
    v
}

fn sorted_edges(g: &CraftableGraph) -> Vec<Edge> {
    let mut v = g.edges.clone();
    v.sort();
    v
}

fn sorted<T: Ord>(mut v: Vec<T>) -> Vec<T> {
    v.sort();
    v
}

fn plank_world() -> (Vec<Recipe>, Vec<Requirement>) {
    let recipes = vec![recipe("plank", None, vec![vec![plain("wood", 2)]])];
    let requirements =
        vec![requirement("box_req", vec![vec![plain("plank", 4)], vec![plain("nail", 10)]])];
    (recipes, requirements)
}

#[test]
fn forward_reachability_is_loose_across_groups() {
    let (recipes, requirements) = plank_world();
    let g = find_everything_craftable_from(&[s("wood")], &recipes, &requirements, &[], &[]);
    assert_eq!(
        sorted_nodes(&g),
        sorted(vec![item("wood"), item("plank"), req_node("box_req")])
    );
    assert_eq!(
        sorted_edges(&g),
        sorted(vec![
            edge(item("wood"), item("plank"), None),
            edge(item("plank"), req_node("box_req"), None),
        ])
    );
}

#[test]
fn pantry_expansion_is_strict_across_groups() {
    let (recipes, requirements) = plank_world();
    let g = expand_pantry(&[item("wood")], &requirements, &recipes, &[]);
    assert_eq!(sorted_nodes(&g), sorted(vec![item("wood"), item("plank")]));
    assert_eq!(sorted_edges(&g), vec![edge(item("wood"), item("plank"), None)]);
}

#[test]
fn pantry_expansion_adds_requirement_once_every_group_is_met() {
    let (recipes, requirements) = plank_world();
    let g = expand_pantry(&[item("wood"), item("nail")], &requirements, &recipes, &[]);
    assert_eq!(
        sorted_nodes(&g),
        sorted(vec![item("wood"), item("nail"), item("plank"), req_node("box_req")])
    );
    assert_eq!(
        sorted_edges(&g),
        sorted(vec![
            edge(item("wood"), item("plank"), None),
            edge(item("plank"), req_node("box_req"), None),
            edge(item("nail"), req_node("box_req"), None),
        ])
    );
}

#[test]
fn modes_diverge_on_two_groups_with_one_at_hand() {
    let requirements = vec![requirement("r", vec![vec![plain("a", 1)], vec![plain("b", 1)]])];
    let loose = find_everything_craftable_from(&[s("a")], &[], &requirements, &[], &[]);
    assert!(contains_node(&loose.nodes, &req_node("r")));
    let strict = expand_pantry(&[item("a")], &requirements, &[], &[]);
    assert!(!contains_node(&strict.nodes, &req_node("r")));
    let both = expand_pantry(&[item("a"), item("b")], &requirements, &[], &[]);
    assert!(contains_node(&both.nodes, &req_node("r")));
}

#[test]
fn unobtainable_requirement_excludes_recipes_that_need_it() {
    let requirements = vec![requirement("rare_part_req", vec![vec![plain("rare_ore", 1)]])];
    let recipes = vec![
        recipe("gadget", None, vec![vec![list("rare_part_req", 1)], vec![plain("wood", 1)]]),
        recipe("stick", None, vec![vec![plain("wood", 1)]]),
    ];
    let unobtainable = unobtainable_nodes(&requirements, &[s("rare_ore")]);
    assert!(contains_node(&unobtainable, &req_node("rare_part_req")));
    assert!(contains_node(&unobtainable, &item("rare_ore")));
    assert!(contains_node(&unobtainable, &req_node("rare_ore")));
    let g =
        find_everything_craftable_from(&[s("wood")], &recipes, &requirements, &[], &[s("rare_ore")]);
    assert_eq!(sorted_nodes(&g), sorted(vec![item("wood"), item("stick")]));
    assert_eq!(sorted_edges(&g), vec![edge(item("wood"), item("stick"), None)]);
    let free = find_everything_craftable_from(&[s("wood")], &recipes, &requirements, &[], &[]);
    assert!(contains_node(&free.nodes, &item("gadget")));
}

#[test]
fn unobtainable_closure_does_not_depend_on_the_order_of_the_table() {
    let requirements = vec![
        requirement("outer", vec![vec![list("inner", 1)]]),
        requirement("inner", vec![vec![plain("ore", 1)]]),
        requirement("free", vec![vec![plain("ore", 1), plain("wood", 1)]]),
    ];
    let found = unobtainable_nodes(&requirements, &[s("ore")]);
    assert!(contains_node(&found, &req_node("inner")));
    assert!(contains_node(&found, &req_node("outer")));
    assert!(!contains_node(&found, &req_node("free")));
    let reversed =
        vec![requirements[2].clone(), requirements[1].clone(), requirements[0].clone()];
    let again = unobtainable_nodes(&reversed, &[s("ore")]);
    assert_eq!(sorted(found), sorted(again));
}

#[test]
fn recipe_behind_a_chain_of_unobtainable_requirements_is_excluded() {
    let requirements = vec![
        requirement("r2", vec![vec![list("r1", 1)]]),
        requirement("r1", vec![vec![plain("rare_ore", 1)]]),
    ];
    let recipes = vec![recipe("x", None, vec![vec![list("r2", 1)], vec![plain("wood", 1)]])];
    let g =
        find_everything_craftable_from(&[s("wood")], &recipes, &requirements, &[], &[s("rare_ore")]);
    assert_eq!(g.nodes, vec![item("wood")]);
    assert!(g.edges.is_empty());
}

#[test]
fn blacklisted_targets_never_become_nodes() {
    let (recipes, requirements) = plank_world();
    let g = find_everything_craftable_from(&[s("wood")], &recipes, &requirements, &[s("plank")], &[]);
    assert_eq!(sorted_nodes(&g), vec![item("wood")]);
    assert!(g.edges.is_empty());
    let g = find_everything_craftable_from(
        &[s("wood")],
        &recipes,
        &requirements,
        &[s("box_req")],
        &[],
    );
    assert_eq!(sorted_nodes(&g), sorted(vec![item("wood"), item("plank")]));
    let g = expand_pantry(&[item("wood")], &requirements, &recipes, &[s("plank")]);
    assert_eq!(sorted_nodes(&g), vec![item("wood")]);
}

#[test]
fn chemistry_at_level_two_excludes_a_recipe() {
    let mut strong = recipe("acid", None, vec![vec![plain("wood", 1)]]);
    strong.qualities = vec![Quality { id: s("CHEM"), level: 2 }];
    let mut weak = recipe("soap", None, vec![vec![plain("wood", 1)]]);
    weak.qualities = vec![Quality { id: s("CHEM"), level: 1 }];
    let recipes = vec![strong, weak];
    let g = find_everything_craftable_from(&[s("wood")], &recipes, &[], &[], &[]);
    assert_eq!(sorted_nodes(&g), sorted(vec![item("wood"), item("soap")]));
    let g = forward_reachable(&[s("wood")], &recipes, &[], &[], &[], &[]);
    assert_eq!(sorted_nodes(&g), sorted(vec![item("wood"), item("soap"), item("acid")]));
    let ban = vec![Quality { id: s("CHEM"), level: 1 }];
    let g = forward_reachable(&[s("wood")], &recipes, &[], &[], &[], &ban);
    assert_eq!(sorted_nodes(&g), vec![item("wood")]);
    assert!(excluded_by_quality(&recipes[0].qualities, &ban));
    assert!(!excluded_by_quality(&vec![Quality { id: s("CUT"), level: 9 }], &ban));
}

#[test]
fn forward_edges_carry_the_recipe_suffix_and_every_alternative_at_hand() {
    let recipes = vec![
        recipe("rope", Some("from_vines"), vec![vec![plain("vine", 3), plain("string", 6)]]),
        recipe("rope", None, vec![vec![plain("string", 6)]]),
    ];
    let g = find_everything_craftable_from(&[s("vine"), s("string")], &recipes, &[], &[], &[]);
    assert_eq!(sorted_nodes(&g), sorted(vec![item("vine"), item("string"), item("rope")]));
    assert_eq!(
        sorted_edges(&g),
        sorted(vec![
            edge(item("vine"), item("rope"), Some("from_vines")),
            edge(item("string"), item("rope"), Some("from_vines")),
            edge(item("string"), item("rope"), None),
        ])
    );
}

#[test]
fn seeds_are_kept_once() {
    let g = find_everything_craftable_from(&[s("wood"), s("wood")], &[], &[], &[], &[]);
    assert_eq!(g.nodes, vec![item("wood")]);
    let g = expand_pantry(&[req_node("r"), item("r"), req_node("r")], &[], &[], &[]);
    assert_eq!(sorted_nodes(&g), sorted(vec![item("r"), req_node("r")]));
}

#[test]
fn pantry_adds_a_target_without_ingredients() {
    let requirements = vec![requirement("tools_only", vec![])];
    let g = expand_pantry(&[], &requirements, &[], &[]);
    assert_eq!(g.nodes, vec![req_node("tools_only")]);
    assert!(g.edges.is_empty());
    let g = find_everything_craftable_from(&[], &[], &requirements, &[], &[]);
    assert!(g.nodes.is_empty());
}

#[test]
fn closure_chains_through_requirements() {
    let requirements = vec![requirement("cordage", vec![vec![plain("rope", 1), plain("vine", 2)]])];
    let recipes = vec![
        recipe("raft", None, vec![vec![list("cordage", 2)], vec![plain("log", 4)]]),
        recipe("rope", None, vec![vec![plain("string", 6)]]),
    ];
    let g = expand_pantry(&[item("string"), item("log")], &requirements, &recipes, &[]);
    assert_eq!(
        sorted_nodes(&g),
        sorted(vec![item("string"), item("log"), item("rope"), req_node("cordage"), item("raft")])
    );
    assert_eq!(
        sorted_edges(&g),
        sorted(vec![
            edge(item("string"), item("rope"), None),
            edge(item("rope"), req_node("cordage"), None),
            edge(req_node("cordage"), item("raft"), None),
            edge(item("log"), item("raft"), None),
        ])
    );
    let before = expand_pantry(&[item("string")], &requirements, &recipes, &[]);
    for n in &before.nodes {
        assert!(contains_node(&g.nodes, n));
    }
    for e in &before.edges {
        assert!(contains_edge(&g.edges, &e.source, &e.dest, &e.recipe_suffix));
    }
}

#[test]
fn engine_runs_productions_given_by_hand() {
    let groups = vec![vec![plain("a", 1)], vec![list("b", 1)]];
    let prods = vec![Production {
        enabled: true,
        target: item("t"),
        suffix: Some(s("x")),
        groups: &groups,
    }];
    let g = close(&[item("a")], &prods, false);
    assert_eq!(sorted_nodes(&g), sorted(vec![item("a"), item("t")]));
    assert_eq!(g.edges, vec![edge(item("a"), item("t"), Some("x"))]);
    let g = close(&[item("a")], &prods, true);
    assert_eq!(g.nodes, vec![item("a")]);
    let off = vec![Production { enabled: false, target: item("t"), suffix: None, groups: &groups }];
    let g = close(&[item("a"), req_node("b")], &off, true);
    assert_eq!(g.nodes.len(), 2);
    assert!(strictly_satisfied(&[item("a"), req_node("b")], &groups));
    assert!(!strictly_satisfied(&[item("a"), item("b")], &groups));
}

#[test]
fn mandatory_ingredient_needs_a_whole_group() {
    let components = vec![vec![plain("a", 1), list("b", 1)], vec![plain("c", 1)]];
    assert!(!has_mandatory_ingredient(&[item("a")], &components));
    assert!(has_mandatory_ingredient(&[item("a"), req_node("b")], &components));
    assert!(!has_mandatory_ingredient(&[item("a"), item("b")], &components));
    assert!(has_mandatory_ingredient(&[item("c")], &components));
    assert!(!has_mandatory_ingredient(&[req_node("c")], &components));
    assert!(!has_mandatory_ingredient(&[item("c")], &vec![]));
    assert!(has_mandatory_ingredient(&[], &vec![vec![]]));
}

#[test]
fn enough_components_collects_every_alternative_at_hand() {
    let components = vec![vec![plain("a", 1), list("b", 1)], vec![plain("c", 1)]];
    assert_eq!(has_enough_components(&[item("a")], &components), None);
    assert_eq!(has_enough_components(&[item("c")], &components), None);
    let found = has_enough_components(&[item("c"), req_node("b"), item("a"), item("z")], &components);
    assert_eq!(sorted(found.unwrap()), sorted(vec![item("a"), req_node("b"), item("c")]));
    assert_eq!(has_enough_components(&[], &vec![]), Some(vec![]));
}

#[test]
fn node_matches_alternative_of_its_own_kind() {
    assert!(node_matches_component_desc(&item("a"), &plain("a", 3)));
    assert!(!node_matches_component_desc(&item("a"), &list("a", 3)));
    assert!(node_matches_component_desc(&req_node("a"), &list("a", 3)));
    assert!(!node_matches_component_desc(&req_node("a"), &plain("a", 3)));
    assert!(!node_matches_component_desc(&item("a"), &plain("b", 3)));
}

#[test]
fn ingredient_multiplicity_is_that_of_the_first_match() {
    let components = vec![vec![plain("a", 1), list("b", 2)], vec![plain("b", 7), plain("c", 5)]];
    assert_eq!(get_ingredient_multiplicity(&components, "a"), Some(1));
    assert_eq!(get_ingredient_multiplicity(&components, "b"), Some(2));
    assert_eq!(get_ingredient_multiplicity(&components, "c"), Some(5));
    assert_eq!(get_ingredient_multiplicity(&components, "d"), None);
}

#[test]
fn node_and_edge_builders() {
    let rec = recipe("rope", Some("long"), vec![]);
    let req = requirement("cordage", vec![]);
    assert_eq!(Node::from_recipe(&rec), item("rope"));
    assert_eq!(Node::from_requirement(&req), req_node("cordage"));
    assert_eq!(Edge::from_recipe(&item("a"), &rec), edge(item("a"), item("rope"), Some("long")));
    assert_eq!(
        Edge::from_requirement(&item("a"), &req),
        edge(item("a"), req_node("cordage"), None)
    );
    assert_eq!(item("a").as_item(), Some(&s("a")));
    assert_eq!(item("a").as_requirement_item(), None);
    assert_eq!(req_node("b").as_requirement_item(), Some(&s("b")));
    assert_eq!(req_node("b").as_item(), None);
    assert_eq!(req_node("b").name(), "b");
    assert!(item("a").same(&item("a")));
    assert!(!item("a").same(&req_node("a")));
    assert_eq!(item("a").duplicate(), item("a"));
    assert_eq!(Node::from_component(&list("x", 1)), req_node("x"));
    assert!(contains_name(&[s("a"), s("b")], &s("b")));
    assert!(!contains_name(&[s("a"), s("b")], &s("c")));
}

#[test]
fn passes_are_counted_and_bounded() {
    let groups = vec![vec![plain("a", 1), plain("b", 1), plain("c", 1)]];
    let prods =
        vec![Production { enabled: true, target: item("t"), suffix: None, groups: &groups }];
    let seeds = [item("a"), item("b"), item("c")];
    let (g, passes, growing) = close_counted(&seeds, &prods, false);
    assert_eq!(g.nodes.len(), 4);
    assert_eq!(g.edges.len(), 3);
    assert_eq!(passes, 4);
    assert_eq!(growing, 1);
    assert!(passes <= (g.nodes.len() + g.edges.len() + 1) as u128);
    let (g, passes, growing) = close_counted(&seeds, &prods, true);
    assert_eq!(g.edges.len(), 3);
    assert_eq!(passes, 2);
    assert_eq!(growing, 1);
    let (g, passes, growing) = close_counted(&[], &prods, true);
    assert!(g.nodes.is_empty());
    assert_eq!(passes, 1);
    assert_eq!(growing, 0);
}

#[test]
fn both_modes_return_on_recipes_that_need_each_other() {
    let recipes = vec![
        recipe("a", None, vec![vec![plain("b", 1)]]),
        recipe("b", None, vec![vec![plain("a", 1)]]),
    ];
    let (g, passes, growing) =
        forward_reachable_counted(&[s("a")], &recipes, &[], &[], &[], &[]);
    assert_eq!(sorted_nodes(&g), sorted(vec![item("a"), item("b")]));
    assert_eq!(
        sorted_edges(&g),
        sorted(vec![edge(item("a"), item("b"), None), edge(item("b"), item("a"), None)])
    );
    assert_eq!(passes, 3);
    assert_eq!(growing, 1);
    assert!(growing <= recipes.len());
    let (g, passes, growing) = expand_pantry_counted(&[item("a")], &[], &recipes, &[]);
    assert_eq!(sorted_nodes(&g), sorted(vec![item("a"), item("b")]));
    assert_eq!(g.edges.len(), 2);
    assert_eq!(passes, 3);
    assert_eq!(growing, 1);
    let (g, passes, growing) = expand_pantry_counted(&[item("z")], &[], &recipes, &[]);
    assert_eq!(g.nodes, vec![item("z")]);
    assert_eq!(passes, 1);
    assert_eq!(growing, 0);
}

#[test]
fn graph_without_repeats_is_well_formed() {
    let good = CraftableGraph {
        nodes: vec![item("a"), req_node("a")],
        edges: vec![edge(item("a"), req_node("a"), None), edge(item("a"), req_node("a"), Some("x"))],
    };
    assert!(good.well_formed());
    let twice = CraftableGraph { nodes: vec![item("a"), item("a")], edges: vec![] };
    assert!(!twice.well_formed());
    let edge_twice = CraftableGraph {
        nodes: vec![item("a")],
        edges: vec![edge(item("a"), item("b"), None), edge(item("a"), item("b"), None)],
    };
    assert!(!edge_twice.well_formed());
    let (recipes, requirements) = plank_world();
    assert!(find_everything_craftable_from(&[s("wood")], &recipes, &requirements, &[], &[])
        .well_formed());
}

#[test]
fn tables_of_single_alternatives_take_no_more_passes_than_entries() {
    let requirements = vec![
        requirement("r3", vec![vec![list("r2", 1)]]),
        requirement("r2", vec![vec![list("r1", 1)]]),
        requirement("r1", vec![vec![plain("a", 1)]]),
    ];
    let recipes = vec![recipe("x", None, vec![vec![list("r3", 1)]])];
    let (g, passes, growing) =
        forward_reachable_counted(&[s("a")], &recipes, &requirements, &[], &[], &[]);
    assert_eq!(g.nodes.len(), 5);
    assert_eq!(g.edges.len(), 4);
    assert_eq!(passes, 4);
    assert_eq!(growing, 3);
    assert!(passes <= (requirements.len() + recipes.len() + 1) as u128);
    assert!(passes <= (g.edges.len() + 1) as u128);
}
