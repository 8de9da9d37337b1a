//! Which recipes a character knows by skill alone.

use vstd::prelude::*;
use crate::schema::{Autolearn, Recipe};
use crate::graphs::{Node, node_ids, expression_model};
use crate::closure::mandatory_unobtainable;
use crate::reachability::has_mandatory_ingredient;
use crate::units::{begins_with, ends_in, starts_with, ends_with};

verus! {

/// The skill levels at which a recipe is learnt by itself, if it is.
pub open spec fn needed_skills(recipe: Recipe) -> Option<Seq<(Seq<char>, i32)>> {
    match recipe.autolearn {
        Autolearn::No => None,
        Autolearn::Yes => Some(seq![(recipe.skill_used@, recipe.difficulty)]),
        Autolearn::Complex(v) => Some(v@.map_values(|p: (String, i32)| (p.0@, p.1))),
    }
}

/// The recipe is learnt by itself, and no listed skill is below a level
/// that the recipe needs of it.
pub open spec fn known(recipe: Recipe, skills: Seq<(String, i32)>) -> bool {
    needed_skills(recipe).is_some() && forall|i: int, j: int|
        0 <= i < skills.len() && 0 <= j < needed_skills(recipe).unwrap().len() ==> !((
        #[trigger] skills[i]).0@ == (#[trigger] needed_skills(recipe).unwrap()[j]).0 && skills[i].1
            < needed_skills(recipe).unwrap()[j].1)
}

/// Whether a level of a skill is below what a needed skill asks.
fn falls_short(name: &String, level: i32, need_name: &String, need_level: i32) -> (r: bool)
    ensures
        r == (name@ == need_name@ && level < need_level),
{
    *name == *need_name && level < need_level
}

/// Whether a character with the given skill levels knows the recipe
/// without a book.
pub fn recipe_is_known(recipe: &Recipe, skills: &[(String, i32)]) -> (r: bool)
    ensures
        r == known(*recipe, skills@),
{
    let ghost need = needed_skills(*recipe);
    if let Autolearn::No = recipe.autolearn {
        return false;
    }
    let mut i: usize = 0;
    while i < skills.len()
        invariant
            i <= skills.len(),
            need == needed_skills(*recipe),
            need.is_some(),
            forall|h: int, j: int|
                0 <= h < i && 0 <= j < need.unwrap().len() ==> !((#[trigger] skills@[h]).0@ == (
                #[trigger] need.unwrap()[j]).0 && skills@[h].1 < need.unwrap()[j].1),
        decreases skills.len() - i,
    {
        match &recipe.autolearn {
            Autolearn::No => {},
            Autolearn::Yes => {
                if falls_short(&skills[i].0, skills[i].1, &recipe.skill_used, recipe.difficulty) {
                    assert(need.unwrap()[0] == (recipe.skill_used@, recipe.difficulty));
                    return false;
                }
            },
            Autolearn::Complex(v) => {
                let mut j: usize = 0;
                while j < v.len()
                    invariant
                        i < skills.len(),
                        j <= v.len(),
                        need == needed_skills(*recipe),
                        need.is_some(),
                        recipe.autolearn == Autolearn::Complex(*v),
                        forall|k: int|
                            0 <= k < j ==> !(skills@[i as int].0@ == (#[trigger] need.unwrap()[k]).0
                                && skills@[i as int].1 < need.unwrap()[k].1),
                    decreases v.len() - j,
                {
                    assert(need.unwrap()[j as int] == (v@[j as int].0@, v@[j as int].1));
                    if falls_short(&skills[i].0, skills[i].1, &v[j].0, v[j].1) {
                        return false;
                    }
                    j += 1;
                }
            },
        }
        i += 1;
    }
    true
}

/// The recipe can serve to train the skill: it is neither for seeds nor
/// for sharpening, it uses the skill, the character knows it, and none of
/// its ingredient groups is made of forbidden nodes alone.
pub open spec fn trains(
    recipe: Recipe,
    want_skill: Seq<char>,
    skills: Seq<(String, i32)>,
    forbidden: Seq<Node>,
) -> bool {
    &&& !begins_with(recipe.result@, "seed_"@)
    &&& !ends_in(recipe.result@, "_sharpened"@)
    &&& recipe.skill_used@ == want_skill
    &&& known(recipe, skills)
    &&& !mandatory_unobtainable(expression_model(recipe.components@), node_ids(forbidden).to_set())
}

/// Whether the recipe can serve to train the skill.
pub fn recipe_trains(
    recipe: &Recipe,
    want_skill: &String,
    skills: &[(String, i32)],
    forbidden: &[Node],
) -> (r: bool)
    ensures
        r == trains(*recipe, want_skill@, skills@, forbidden@),
{
    !starts_with(recipe.result.as_str(), "seed_") && !ends_with(
        recipe.result.as_str(),
        "_sharpened",
    ) && recipe.skill_used == *want_skill && recipe_is_known(recipe, skills)
        && !has_mandatory_ingredient(forbidden, &recipe.components)
}

} // verus!
