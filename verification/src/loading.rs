//! What is let into a database: which raw records are loaded at all, and
//! which recipes survive the projection.

use vstd::prelude::*;
use crate::records::{Record, RecordModel, FieldModel, FieldValue, text_of};
use crate::resolver::{
    RecordStore, ResolveError, ResolveFailure, resolved, resolved_all, record_models, kept_before,
    lemma_one_record_per_input,
};
use crate::resolver::reads;
use crate::schema::{ComponentDesc, Recipe, UnsupportedShape};
use crate::graphs::{suffix_view, same_suffix};

verus! {

/// The types that are never loaded.
pub open spec fn is_excluded_type(t: Seq<char>) -> bool {
    t == "ascii_art"@ || t == "ammo_effect"@ || t == "json_flag"@ || t == "clothing_mod"@ || t
        == "harvest"@ || t == "effect_type"@ || t == "MIGRATION"@ || t == "ammunition_type"@ || t
        == "vehicle_part"@ || t == "ITEM_CATEGORY"@ || t == "item_action"@ || t
        == "overmap_land_use_code"@ || t == "overmap_location"@ || t == "overmap_terrain"@
}

/// The recipes, by result and suffix, that are never loaded.
pub open spec fn is_excluded_recipe(result: Seq<char>, suffix: Option<Seq<char>>) -> bool {
    ||| result == "icecream_choc"@ && suffix == Some("from_bags"@)
    ||| result == "sleeveless_duster_faux_fur"@ && suffix.is_none()
    ||| result == "crude_picklock"@ && suffix.is_none()
    ||| result == "crude_picklock"@ && suffix == Some("from wire"@)
}

/// The record is marked obsolete.
pub open spec fn is_obsolete(rec: RecordModel) -> bool {
    rec.contains_key("obsolete"@) && rec["obsolete"@] == FieldModel::Flag(true)
}

/// The record has one of the types that are never loaded. A record
/// without a type has none of them.
pub open spec fn has_excluded_type(rec: RecordModel) -> bool {
    text_of(rec, "type"@).is_some() && is_excluded_type(text_of(rec, "type"@).unwrap())
}

/// Whether a raw record is loaded; nothing where it is a recipe whose
/// result cannot be read. A record without a type, such as a template, is
/// loaded unless it is obsolete or barred by its identifier.
pub open spec fn loadable(rec: RecordModel) -> Option<bool> {
    if has_excluded_type(rec) || is_obsolete(rec) {
        Some(false)
    } else if text_of(rec, "type"@) == Some("recipe"@) && text_of(rec, "result"@).is_none() {
        None
    } else if text_of(rec, "type"@) == Some("recipe"@) && is_excluded_recipe(
        text_of(rec, "result"@).unwrap(),
        text_of(rec, "id_suffix"@),
    ) {
        Some(false)
    } else {
        Some(text_of(rec, "id"@) != Some("debug_backpack"@))
    }
}

fn excluded_type(t: &String) -> (r: bool)
    ensures
        r == is_excluded_type(t@),
{
    reads(t, "ascii_art") || reads(t, "ammo_effect") || reads(t, "json_flag") || reads(
        t,
        "clothing_mod",
    ) || reads(t, "harvest") || reads(t, "effect_type") || reads(t, "MIGRATION") || reads(
        t,
        "ammunition_type",
    ) || reads(t, "vehicle_part") || reads(t, "ITEM_CATEGORY") || reads(t, "item_action") || reads(
        t,
        "overmap_land_use_code",
    ) || reads(t, "overmap_location") || reads(t, "overmap_terrain")
}

fn excluded_recipe(result: &String, suffix: Option<&String>) -> (r: bool)
    ensures
        r == is_excluded_recipe(
            result@,
            match suffix {
                Some(s) => Some(s@),
                None => None,
            },
        ),
{
    match suffix {
        Some(s) => (reads(result, "icecream_choc") && reads(s, "from_bags")) || (reads(
            result,
            "crude_picklock",
        ) && reads(s, "from wire")),
        None => reads(result, "sleeveless_duster_faux_fur") || reads(result, "crude_picklock"),
    }
}

/// Whether a raw record is loaded.
pub fn is_loadable(record: &Record) -> (r: Result<bool, UnsupportedShape>)
    ensures
        match r {
            Ok(b) => loadable(record@) == Some(b),
            Err(_) => loadable(record@).is_none(),
        },
{
    let typ = record.text("type");
    if let Some(t) = typ {
        if excluded_type(t) {
            return Ok(false);
        }
    }
    if let Some(FieldValue::Flag(true)) = record.get("obsolete") {
        return Ok(false);
    }
    if has_type(record, "recipe") {
        let result = match record.text("result") {
            Some(x) => x,
            None => {
                return Err(UnsupportedShape);
            },
        };
        if excluded_recipe(result, record.text("id_suffix")) {
            return Ok(false);
        }
    }
    match record.text("id") {
        Some(id) => Ok(!reads(id, "debug_backpack")),
        None => Ok(true),
    }
}

/// The recipe is a canning or jarring variant.
pub open spec fn is_canned(recipe: Recipe) -> bool {
    suffix_view(recipe.id_suffix) == Some("jarred_3l"@) || suffix_view(recipe.id_suffix) == Some(
        "jarred"@,
    ) || suffix_view(recipe.id_suffix) == Some("canned"@)
}

/// The two recipes have the same result and the same suffix.
pub open spec fn same_variant(a: Recipe, b: Recipe) -> bool {
    a.result@ == b.result@ && suffix_view(a.id_suffix) == suffix_view(b.id_suffix)
}

/// Recipe `i` survives the projection: it is no canning variant, and no
/// other recipe has its result and suffix.
pub open spec fn survives(recipes: Seq<Recipe>, i: int) -> bool {
    !is_canned(recipes[i]) && forall|j: int|
        0 <= j < recipes.len() && j != i ==> !same_variant(recipes[i], #[trigger] recipes[j])
}

/// Whether the recipe is a canning or jarring variant.
pub fn is_canned_variant(recipe: &Recipe) -> (r: bool)
    ensures
        r == is_canned(*recipe),
{
    match &recipe.id_suffix {
        Some(s) => reads(s, "jarred_3l") || reads(s, "jarred") || reads(s, "canned"),
        None => false,
    }
}

/// Whether recipe `i` survives the projection.
pub fn recipe_survives(recipes: &[Recipe], i: usize) -> (r: bool)
    requires
        i < recipes.len(),
    ensures
        r == survives(recipes@, i as int),
{
    if is_canned_variant(&recipes[i]) {
        return false;
    }
    let mut j: usize = 0;
    while j < recipes.len()
        invariant
            j <= recipes.len(),
            i < recipes.len(),
            forall|k: int|
                0 <= k < j && k != i ==> !same_variant(recipes@[i as int], #[trigger] recipes@[k]),
        decreases recipes.len() - j,
    {
        if j != i && recipes[j].result == recipes[i].result && same_suffix(
            &recipes[j].id_suffix,
            &recipes[i].id_suffix,
        ) {
            return false;
        }
        j += 1;
    }
    true
}

/// The record is a recipe that is projected: recipes for buildings of a
/// camp are not.
pub open spec fn is_crafting_recipe(rec: RecordModel) -> bool {
    text_of(rec, "type"@) == Some("recipe"@) && text_of(rec, "category"@) != Some("CC_BUILDING"@)
}

/// The record is an item group that is projected: collections are not.
pub open spec fn is_distribution(rec: RecordModel) -> bool {
    text_of(rec, "type"@) == Some("item_group"@) && text_of(rec, "subtype"@) != Some(
        "collection"@,
    )
}

/// Whether the record has the type.
pub fn has_type(record: &Record, typ: &str) -> (r: bool)
    ensures
        r == (text_of(record@, "type"@) == Some(typ@)),
{
    match record.text("type") {
        Some(t) => reads(t, typ),
        None => false,
    }
}

/// Whether the record is a recipe that is projected.
pub fn is_recipe_record(record: &Record) -> (r: bool)
    ensures
        r == is_crafting_recipe(record@),
{
    has_type(record, "recipe") && match record.text("category") {
        Some(c) => !reads(c, "CC_BUILDING"),
        None => true,
    }
}

/// Whether the record is an item group that is projected.
pub fn is_item_group_record(record: &Record) -> (r: bool)
    ensures
        r == is_distribution(record@),
{
    has_type(record, "item_group") && match record.text("subtype") {
        Some(c) => !reads(c, "collection"),
        None => true,
    }
}

/// The groups that stand for what a recipe is said to be `using`: one group
/// for each entry, with a reference to the requirement of that name as its
/// only alternative.
pub open spec fn using_groups(usings: Seq<ComponentDesc>) -> Seq<Seq<ComponentDesc>> {
    Seq::new(
        usings.len(),
        |j: int| seq![ComponentDesc::List(match usings[j] {
            ComponentDesc::Plain(s, _) => s,
            ComponentDesc::List(s, _) => s,
        }, usings[j].spec_amount())],
    )
}

/// The groups of a list of components, in order.
pub open spec fn group_views(components: Seq<Vec<ComponentDesc>>) -> Seq<Seq<ComponentDesc>> {
    components.map_values(|g: Vec<ComponentDesc>| g@)
}

/// Appends to the components of a recipe the groups that stand for what it
/// is said to be `using`.
pub fn add_usings(components: &mut Vec<Vec<ComponentDesc>>, usings: &Vec<ComponentDesc>)
    ensures
        group_views(final(components)@) == group_views(old(components)@) + using_groups(usings@),
{
    let ghost before = group_views(components@);
    let mut j: usize = 0;
    assert(group_views(components@) =~= before + using_groups(usings@).take(0));
    while j < usings.len()
        invariant
            j <= usings.len(),
            group_views(components@) == before + using_groups(usings@).take(j as int),
        decreases usings.len() - j,
    {
        let ghost so_far = group_views(components@);
        let reference = match &usings[j] {
            ComponentDesc::Plain(s, i) => ComponentDesc::List(s.clone(), *i),
            ComponentDesc::List(s, i) => ComponentDesc::List(s.clone(), *i),
        };
        let mut group: Vec<ComponentDesc> = Vec::new();
        group.push(reference);
        assert(group@ =~= using_groups(usings@)[j as int]);
        components.push(group);
        assert(group_views(components@) =~= so_far.push(using_groups(usings@)[j as int]));
        assert(using_groups(usings@).take(j + 1) =~= using_groups(usings@).take(j as int).push(
            using_groups(usings@)[j as int],
        ));
        assert(group_views(components@) =~= before + using_groups(usings@).take(j + 1));
        j += 1;
    }
    assert(using_groups(usings@).take(usings.len() as int) =~= using_groups(usings@));
}

/// The recipes from position `from` on that survive the projection, in
/// order.
pub open spec fn survivors(recipes: Seq<Recipe>, from: int) -> Seq<Recipe>
    decreases recipes.len() - from,
{
    if from < 0 || from >= recipes.len() {
        Seq::empty()
    } else if survives(recipes, from) {
        seq![recipes[from]] + survivors(recipes, from + 1)
    } else {
        survivors(recipes, from + 1)
    }
}

/// The recipes that survive the projection, in order.
pub fn surviving_recipes(recipes: Vec<Recipe>) -> (r: Vec<Recipe>)
    ensures
        r@ == survivors(recipes@, 0),
{
    let ghost all = recipes@;
    let n = recipes.len();
    let mut keep: Vec<bool> = Vec::new();
    let mut k: usize = 0;
    while k < n
        invariant
            k <= n,
            n == recipes.len(),
            keep.len() == k,
            forall|j: int| 0 <= j < k ==> keep@[j] == survives(recipes@, j),
        decreases n - k,
    {
        keep.push(recipe_survives(recipes.as_slice(), k));
        k += 1;
    }
    let mut rest = recipes;
    let mut backwards: Vec<Recipe> = Vec::new();
    let mut i: usize = n;
    assert(backwards@.reverse() =~= survivors(all, n as int));
    while i > 0
        invariant
            i <= n,
            n == all.len(),
            keep.len() == n,
            forall|j: int| 0 <= j < n ==> keep@[j] == survives(all, j),
            rest@ == all.take(i as int),
            backwards@.reverse() == survivors(all, i as int),
        decreases i,
    {
        let ghost before = backwards@;
        let last = rest.pop();
        i -= 1;
        assert(rest@ =~= all.take(i as int));
        match last {
            Some(recipe) => {
                assert(recipe == all[i as int]);
                if keep[i] {
                    backwards.push(recipe);
                    assert(backwards@.reverse() =~= seq![recipe] + before.reverse());
                }
            },
            None => {},
        }
    }
    let mut forwards: Vec<Recipe> = Vec::new();
    assert(forwards@ + backwards@.reverse() =~= survivors(all, 0));
    while backwards.len() > 0
        invariant
            forwards@ + backwards@.reverse() == survivors(all, 0),
        decreases backwards.len(),
    {
        let ghost before = backwards@;
        let ghost done = forwards@;
        let last = backwards.pop();
        match last {
            Some(recipe) => {
                assert(before =~= backwards@.push(recipe));
                assert(before.reverse() =~= seq![recipe] + backwards@.reverse());
                forwards.push(recipe);
                assert(forwards@ + backwards@.reverse() =~= done + before.reverse());
            },
            None => {},
        }
    }
    assert(backwards@.reverse() =~= Seq::<Recipe>::empty());
    assert(forwards@ + Seq::<Recipe>::empty() =~= forwards@);
    forwards
}

/// The record of water, which no file holds and every database has.
pub open spec fn water_model() -> RecordModel {
    Map::<Seq<char>, FieldModel>::empty().insert("type"@, FieldModel::Text("COMESTIBLE"@)).insert(
        "id"@,
        FieldModel::Text("water"@),
    ).insert("name"@, FieldModel::Text("water"@)).insert(
        "description"@,
        FieldModel::Text("get me from data/core/basic.json"@),
    ).insert("comestible_type"@, FieldModel::Text("DRINK"@)).insert(
        "quench"@,
        FieldModel::Integer(60),
    )
}

/// The record of water.
pub fn water_record() -> (r: Record)
    ensures
        r@ == water_model(),
{
    let mut r = Record::new();
    r.insert("type".to_owned(), FieldValue::Text("COMESTIBLE".to_owned()));
    r.insert("id".to_owned(), FieldValue::Text("water".to_owned()));
    r.insert("name".to_owned(), FieldValue::Text("water".to_owned()));
    r.insert(
        "description".to_owned(),
        FieldValue::Text("get me from data/core/basic.json".to_owned()),
    );
    r.insert("comestible_type".to_owned(), FieldValue::Text("DRINK".to_owned()));
    r.insert("quench".to_owned(), FieldValue::Integer(60));
    r
}

/// The records among the first `upto` that are loaded, in order; nothing
/// where one of them cannot be judged.
pub open spec fn loaded(read: Seq<Record>, upto: int) -> Option<Seq<RecordModel>>
    decreases upto,
{
    if upto <= 0 {
        Some(Seq::empty())
    } else {
        match loaded(read, upto - 1) {
            None => None,
            Some(done) => match loadable(read[upto - 1]@) {
                None => None,
                Some(true) => Some(done.push(read[upto - 1]@)),
                Some(false) => Some(done),
            },
        }
    }
}

/// What loading makes of the records that were read: those that are
/// loaded, and water after them, form the store; every record of the store
/// is resolved, and the templates are left out.
pub open spec fn load_result(read: Seq<Record>) -> Result<Seq<RecordModel>, ResolveFailure> {
    match loaded(read, read.len() as int) {
        None => Err(ResolveFailure::Unsupported),
        Some(kept) => resolved_all(kept.push(water_model()), kept.len() as int + 1),
    }
}

proof fn lemma_kept_of_prefix(kept: Seq<RecordModel>, more: RecordModel, upto: int)
    requires
        0 <= upto <= kept.len(),
    ensures
        kept_before(kept.push(more), upto) == kept_before(kept, upto),
    decreases upto,
{
    if upto > 0 {
        lemma_kept_of_prefix(kept, more, upto - 1);
    }
}

/// A load that succeeds gives one record for every loaded record that is
/// no template, each the resolved form of its record and in the order in
/// which they were read, and the record of water after them.
pub proof fn lemma_load_is_one_to_one(
    read: Seq<Record>,
    kept: Seq<RecordModel>,
    usable: Seq<RecordModel>,
)
    requires
        loaded(read, read.len() as int) == Some(kept),
        load_result(read) == Ok::<Seq<RecordModel>, ResolveFailure>(usable),
    ensures
        usable.len() == kept_before(kept, kept.len() as int) + 1,
        usable.last() == water_model(),
        forall|i: int|
            0 <= i < kept.len() && !(#[trigger] kept[i]).contains_key("abstract"@) ==> 0
                <= kept_before(kept, i) < usable.len() - 1 && resolved(
                kept.push(water_model()),
                kept[i],
                kept.len() + 1,
            ) == Ok::<RecordModel, ResolveFailure>(usable[kept_before(kept, i)]),
{
    let store = kept.push(water_model());
    let n = kept.len() as int;
    reveal_strlit("abstract");
    reveal_strlit("copy-from");
    reveal_strlit("type");
    reveal_strlit("id");
    reveal_strlit("name");
    reveal_strlit("description");
    reveal_strlit("comestible_type");
    reveal_strlit("quench");
    assert("abstract"@.len() == 8);
    assert("copy-from"@.len() == 9);
    assert(!water_model().contains_key("abstract"@));
    assert(!water_model().contains_key("copy-from"@));
    lemma_one_record_per_input(store, n + 1, usable);
    lemma_kept_of_prefix(kept, water_model(), n);
    assert(store[n] == water_model());
    assert(kept_before(store, n + 1) == kept_before(store, n) + 1);
    assert(resolved(store, store[n], store.len()) == Ok::<RecordModel, ResolveFailure>(
        water_model(),
    ));
    assert forall|i: int|
        0 <= i < kept.len() && !(#[trigger] kept[i]).contains_key("abstract"@) implies 0
            <= kept_before(kept, i) < usable.len() - 1 && resolved(store, kept[i], kept.len() + 1)
            == Ok::<RecordModel, ResolveFailure>(usable[kept_before(kept, i)]) by {
        assert(store[i] == kept[i]);
        lemma_kept_of_prefix(kept, water_model(), i);
        lemma_kept_grows(kept, i + 1, n);
    }
}

proof fn lemma_kept_grows(kept: Seq<RecordModel>, from: int, upto: int)
    requires
        0 <= from <= upto,
    ensures
        kept_before(kept, from) <= kept_before(kept, upto),
    decreases upto - from,
{
    if from < upto {
        lemma_kept_grows(kept, from, upto - 1);
    }
}

proof fn lemma_unjudged_stays(read: Seq<Record>, upto: int, all: int)
    requires
        0 <= upto <= all,
        loaded(read, upto).is_none(),
    ensures
        loaded(read, all).is_none(),
    decreases all - upto,
{
    if upto < all {
        lemma_unjudged_stays(read, upto + 1, all);
    }
}

/// Builds the usable records from the records that were read.
pub fn load_records(read: Vec<Record>) -> (r: Result<Vec<Record>, ResolveError>)
    ensures
        match r {
            Ok(usable) => load_result(read@) == Ok::<Seq<RecordModel>, ResolveFailure>(
                record_models(usable@),
            ),
            Err(e) => load_result(read@) == Err::<Seq<RecordModel>, ResolveFailure>(e@),
        },
{
    let mut kept: Vec<Record> = Vec::new();
    let mut i: usize = 0;
    assert(record_models(kept@) =~= Seq::<RecordModel>::empty());
    while i < read.len()
        invariant
            i <= read.len(),
            loaded(read@, i as int) == Some(record_models(kept@)),
        decreases read.len() - i,
    {
        match is_loadable(&read[i]) {
            Err(_) => {
                proof {
                    lemma_unjudged_stays(read@, i + 1, read.len() as int);
                }
                return Err(ResolveError::UnsupportedShape);
            },
            Ok(true) => {
                let ghost before = record_models(kept@);
                kept.push(read[i].duplicate());
                assert(record_models(kept@) =~= before.push(read@[i as int]@));
            },
            Ok(false) => {},
        }
        i += 1;
    }
    let ghost before = record_models(kept@);
    kept.push(water_record());
    assert(record_models(kept@) =~= before.push(water_model()));
    let store = RecordStore { records: kept };
    store.resolve_all()
}

} // verus!
