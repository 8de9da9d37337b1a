//! The database of resolved records and of the entities projected from
//! them, with the lookups that the graph code relies on.

use vstd::prelude::*;
use crate::records::{Record, RecordModel, FieldModel, text_of};
use crate::schema::{Name, Recipe, Requirement, Material, ItemGroup, ItemGroupItemType};
use crate::graphs::{suffix_view, Node, NodeId};

verus! {

/// Why a lookup fails.
#[derive(Clone, Copy, Debug, PartialEq, Eq, Structural)]
pub enum LookupError {
    /// Nothing answers where exactly one entry is expected.
    Missing,
    /// More than one entry answers where at most one is expected.
    LookupViolation,
    /// A field that is read does not hold a value of the expected kind.
    UnsupportedShape,
}

/// A lookup that failed, with the identifier or word at fault.
#[derive(Clone, Debug, PartialEq, Eq)]
pub struct LookupFailure {
    pub error: LookupError,
    pub id: String,
}

/// The resolved records, the display name decoded from each of them (in
/// the order of the records; a record beyond the list has none), and the
/// typed entities.
#[derive(Clone, Debug, PartialEq)]
pub struct Db {
    pub raw: Vec<Record>,
    pub names: Vec<Option<Name>>,
    pub recipes: Vec<Recipe>,
    pub requirements: Vec<Requirement>,
    pub materials: Vec<Material>,
    pub itemgroups: Vec<ItemGroup>,
}

/// The positions before `upto` that satisfy `pred`, in rising order.
pub open spec fn matching(upto: int, pred: spec_fn(int) -> bool) -> Seq<int>
    decreases upto,
{
    if upto <= 0 {
        Seq::empty()
    } else if pred(upto - 1) {
        matching(upto - 1, pred).push(upto - 1)
    } else {
        matching(upto - 1, pred)
    }
}

/// The record is an item with the identifier: it has the identifier and is
/// neither a requirement nor a material.
pub open spec fn is_item(rec: RecordModel, id: Seq<char>) -> bool {
    text_of(rec, "type"@) != Some("requirement"@) && text_of(rec, "type"@) != Some("material"@)
        && text_of(rec, "id"@) == Some(id)
}

/// The display name decoded for record `i`, if there is one.
pub open spec fn name_text(names: Seq<Option<Name>>, i: int) -> Option<Seq<char>> {
    if 0 <= i < names.len() {
        match names[i] {
            Some(n) => Some(n.text()),
            None => None,
        }
    } else {
        None
    }
}

/// The optional text as characters.
pub open spec fn str_view(s: Option<&str>) -> Option<Seq<char>> {
    match s {
        Some(t) => Some(t@),
        None => None,
    }
}

/// The `healthy` attribute of an item: absent counts as zero.
pub open spec fn healthy_of(rec: RecordModel) -> Option<i64> {
    if rec.contains_key("healthy"@) {
        match rec["healthy"@] {
            FieldModel::Integer(i) => Some(i),
            _ => None,
        }
    } else {
        Some(0i64)
    }
}

impl Db {
    /// Every record has a type, and every record has its entry of decoded
    /// names.
    pub open spec fn wf(&self) -> bool {
        &&& self.names.len() == self.raw.len()
        &&& forall|i: int|
            0 <= i < self.raw.len() ==> text_of((#[trigger] self.raw@[i])@, "type"@).is_some()
    }

    /// The positions of the items with the identifier.
    pub open spec fn item_positions(&self, id: Seq<char>) -> Seq<int> {
        matching(self.raw.len() as int, |i: int| is_item(self.raw@[i]@, id))
    }

    /// The positions of the records, other than requirements, with the
    /// display name.
    pub open spec fn named_positions(&self, name: Seq<char>) -> Seq<int> {
        matching(
            self.raw.len() as int,
            |i: int|
                text_of(self.raw@[i]@, "type"@) != Some("requirement"@) && name_text(self.names@, i)
                    == Some(name),
        )
    }

    /// The positions of the recipes with the result and the suffix.
    pub open spec fn recipe_positions(&self, result: Seq<char>, suffix: Option<Seq<char>>) -> Seq<
        int,
    > {
        matching(
            self.recipes.len() as int,
            |i: int| self.recipes@[i].result@ == result && suffix_view(self.recipes@[i].id_suffix)
                == suffix,
        )
    }

    /// The positions of the requirements with the identifier.
    pub open spec fn requirement_positions(&self, id: Seq<char>) -> Seq<int> {
        matching(self.requirements.len() as int, |i: int| self.requirements@[i].id@ == id)
    }

    /// Some recipe yields the identifier, or some item group lists it as an
    /// item.
    pub open spec fn obtainable(&self, id: Seq<char>) -> bool {
        ||| exists|i: int| 0 <= i < self.recipes.len() && (#[trigger] self.recipes@[i]).result@ == id
        ||| exists|g: int, k: int|
            0 <= g < self.itemgroups.len() && 0 <= k < self.itemgroups@[g].items.len() && (
            #[trigger] self.itemgroups@[g].items@[k]).0.typ == ItemGroupItemType::Item
                && self.itemgroups@[g].items@[k].0.id@ == id
    }

    /// Whether the database is well formed.
    pub fn well_formed(&self) -> (r: bool)
        ensures
            r == self.wf(),
    {
        if self.names.len() != self.raw.len() {
            return false;
        }
        let mut i: usize = 0;
        while i < self.raw.len()
            invariant
                i <= self.raw.len(),
                forall|j: int|
                    0 <= j < i ==> text_of((#[trigger] self.raw@[j])@, "type"@).is_some(),
            decreases self.raw.len() - i,
        {
            if self.raw[i].text("type").is_none() {
                return false;
            }
            i += 1;
        }
        true
    }

    /// The position of the item with the identifier, if there is one. More
    /// than one is a violation.
    pub fn item_position(&self, id: &str) -> (r: Result<Option<usize>, LookupError>)
        ensures
            match r {
                Ok(Some(p)) => self.item_positions(id@).len() == 1 && p < self.raw.len() && p
                    == self.item_positions(id@).last(),
                Ok(None) => self.item_positions(id@).len() == 0,
                Err(e) => self.item_positions(id@).len() > 1 && e == LookupError::LookupViolation,
            },
    {
        let wanted = id.to_owned();
        let requirement = "requirement".to_owned();
        let material = "material".to_owned();
        let ghost pred = |i: int| is_item(self.raw@[i]@, id@);
        let mut count: usize = 0;
        let mut last: usize = 0;
        let mut i: usize = 0;
        while i < self.raw.len()
            invariant
                i <= self.raw.len(),
                count <= i,
                wanted@ == id@,
                requirement@ == "requirement"@,
                material@ == "material"@,
                pred == (|i: int| is_item(self.raw@[i]@, id@)),
                count == matching(i as int, pred).len(),
                count > 0 ==> last < i && last == matching(i as int, pred).last(),
            decreases self.raw.len() - i,
        {
            let record = &self.raw[i];
            let plain = match record.text("type") {
                Some(t) => !(*t == requirement) && !(*t == material),
                None => true,
            };
            let id_matches = match record.text("id") {
                Some(own) => *own == wanted,
                None => false,
            };
            if plain && id_matches {
                count += 1;
                last = i;
            }
            i += 1;
        }
        if count == 0 {
            Ok(None)
        } else if count == 1 {
            Ok(Some(last))
        } else {
            Err(LookupError::LookupViolation)
        }
    }

    /// The item with the identifier, if there is one. More than one is a
    /// violation.
    pub fn lookup_item(&self, id: &str) -> (r: Result<Option<&Record>, LookupError>)
        ensures
            match r {
                Ok(Some(rec)) => self.item_positions(id@).len() == 1 && *rec == self.raw@[self.item_positions(
                    id@,
                ).last()],
                Ok(None) => self.item_positions(id@).len() == 0,
                Err(e) => self.item_positions(id@).len() > 1 && e == LookupError::LookupViolation,
            },
    {
        match self.item_position(id) {
            Ok(Some(p)) => Ok(Some(&self.raw[p])),
            Ok(None) => Ok(None),
            Err(e) => Err(e),
        }
    }

    /// The record, other than a requirement, with the display name, if
    /// there is one. More than one is a violation.
    pub fn lookup_item_by_name(&self, want_name: &str) -> (r: Result<Option<&Record>, LookupError>)
        ensures
            match r {
                Ok(Some(rec)) => self.named_positions(want_name@).len() == 1 && *rec
                    == self.raw@[self.named_positions(want_name@).last()],
                Ok(None) => self.named_positions(want_name@).len() == 0,
                Err(e) => self.named_positions(want_name@).len() > 1 && e
                    == LookupError::LookupViolation,
            },
    {
        let wanted = want_name.to_owned();
        let requirement = "requirement".to_owned();
        let ghost pred = |i: int|
            text_of(self.raw@[i]@, "type"@) != Some("requirement"@) && name_text(self.names@, i)
                == Some(want_name@);
        let mut count: usize = 0;
        let mut last: usize = 0;
        let mut i: usize = 0;
        while i < self.raw.len()
            invariant
                i <= self.raw.len(),
                count <= i,
                wanted@ == want_name@,
                requirement@ == "requirement"@,
                pred == (|i: int|
                    text_of(self.raw@[i]@, "type"@) != Some("requirement"@) && name_text(
                        self.names@,
                        i,
                    ) == Some(want_name@)),
                count == matching(i as int, pred).len(),
                count > 0 ==> last < i && last == matching(i as int, pred).last(),
            decreases self.raw.len() - i,
        {
            let record = &self.raw[i];
            let plain = match record.text("type") {
                Some(t) => !(*t == requirement),
                None => true,
            };
            let name_matches = if i < self.names.len() {
                match &self.names[i] {
                    Some(n) => n.as_str().to_owned() == wanted,
                    None => false,
                }
            } else {
                false
            };
            if plain && name_matches {
                count += 1;
                last = i;
            }
            i += 1;
        }
        if count == 0 {
            Ok(None)
        } else if count == 1 {
            Ok(Some(&self.raw[last]))
        } else {
            Err(LookupError::LookupViolation)
        }
    }

    /// The one recipe with the result and the suffix.
    pub fn lookup_recipe(&self, result: &str, id_suffix: Option<&str>) -> (r: Result<
        &Recipe,
        LookupError,
    >)
        ensures
            match r {
                Ok(rec) => self.recipe_positions(result@, str_view(id_suffix)).len() == 1 && *rec
                    == self.recipes@[self.recipe_positions(result@, str_view(id_suffix)).last()],
                Err(e) => if self.recipe_positions(result@, str_view(id_suffix)).len() == 0 {
                    e == LookupError::Missing
                } else {
                    self.recipe_positions(result@, str_view(id_suffix)).len() > 1 && e
                        == LookupError::LookupViolation
                },
            },
    {
        let wanted = result.to_owned();
        let wanted_suffix: Option<String> = match id_suffix {
            Some(s) => Some(s.to_owned()),
            None => None,
        };
        let ghost pred = |i: int|
            self.recipes@[i].result@ == result@ && suffix_view(self.recipes@[i].id_suffix)
                == str_view(id_suffix);
        let mut count: usize = 0;
        let mut last: usize = 0;
        let mut i: usize = 0;
        while i < self.recipes.len()
            invariant
                i <= self.recipes.len(),
                count <= i,
                wanted@ == result@,
                suffix_view(wanted_suffix) == str_view(id_suffix),
                pred == (|i: int|
                    self.recipes@[i].result@ == result@ && suffix_view(self.recipes@[i].id_suffix)
                        == str_view(id_suffix)),
                count == matching(i as int, pred).len(),
                count > 0 ==> last < i && last == matching(i as int, pred).last(),
            decreases self.recipes.len() - i,
        {
            let rec = &self.recipes[i];
            if rec.result == wanted && crate::graphs::same_suffix(&rec.id_suffix, &wanted_suffix) {
                count += 1;
                last = i;
            }
            i += 1;
        }
        if count == 0 {
            Err(LookupError::Missing)
        } else if count == 1 {
            Ok(&self.recipes[last])
        } else {
            Err(LookupError::LookupViolation)
        }
    }

    /// The one requirement with the identifier.
    pub fn lookup_requirement(&self, id: &str) -> (r: Result<&Requirement, LookupError>)
        ensures
            match r {
                Ok(req) => self.requirement_positions(id@).len() == 1 && *req
                    == self.requirements@[self.requirement_positions(id@).last()],
                Err(e) => if self.requirement_positions(id@).len() == 0 {
                    e == LookupError::Missing
                } else {
                    self.requirement_positions(id@).len() > 1 && e == LookupError::LookupViolation
                },
            },
    {
        let wanted = id.to_owned();
        let ghost pred = |i: int| self.requirements@[i].id@ == id@;
        let mut count: usize = 0;
        let mut last: usize = 0;
        let mut i: usize = 0;
        while i < self.requirements.len()
            invariant
                i <= self.requirements.len(),
                count <= i,
                wanted@ == id@,
                pred == (|i: int| self.requirements@[i].id@ == id@),
                count == matching(i as int, pred).len(),
                count > 0 ==> last < i && last == matching(i as int, pred).last(),
            decreases self.requirements.len() - i,
        {
            if self.requirements[i].id == wanted {
                count += 1;
                last = i;
            }
            i += 1;
        }
        if count == 0 {
            Err(LookupError::Missing)
        } else if count == 1 {
            Ok(&self.requirements[last])
        } else {
            Err(LookupError::LookupViolation)
        }
    }

    /// Whether the identifier can be had: some recipe yields it, or some
    /// item group lists it as an item.
    pub fn is_obtainable(&self, id: &str) -> (r: bool)
        ensures
            r == self.obtainable(id@),
    {
        let wanted = id.to_owned();
        let mut i: usize = 0;
        while i < self.recipes.len()
            invariant
                i <= self.recipes.len(),
                wanted@ == id@,
                forall|j: int| 0 <= j < i ==> (#[trigger] self.recipes@[j]).result@ != id@,
            decreases self.recipes.len() - i,
        {
            if self.recipes[i].result == wanted {
                return true;
            }
            i += 1;
        }
        let mut g: usize = 0;
        while g < self.itemgroups.len()
            invariant
                g <= self.itemgroups.len(),
                wanted@ == id@,
                forall|j: int| 0 <= j < self.recipes.len() ==> (#[trigger] self.recipes@[j]).result@
                    != id@,
                forall|h: int, k: int|
                    0 <= h < g && 0 <= k < self.itemgroups@[h].items.len() ==> !((
                    #[trigger] self.itemgroups@[h].items@[k]).0.typ == ItemGroupItemType::Item
                        && self.itemgroups@[h].items@[k].0.id@ == id@),
            decreases self.itemgroups.len() - g,
        {
            let group = &self.itemgroups[g];
            let mut k: usize = 0;
            while k < group.items.len()
                invariant
                    g < self.itemgroups.len(),
                    k <= group.items.len(),
                    group == &self.itemgroups@[g as int],
                    wanted@ == id@,
                    forall|j: int| 0 <= j < k ==> !((#[trigger] group.items@[j]).0.typ
                        == ItemGroupItemType::Item && group.items@[j].0.id@ == id@),
                decreases group.items.len() - k,
            {
                if group.items[k].0.typ == ItemGroupItemType::Item && group.items[k].0.id
                    == wanted {
                    return true;
                }
                k += 1;
            }
            g += 1;
        }
        false
    }
}

/// What a user's word for an item names: the item with that identifier,
/// or else the identifier of the record with that display name.
pub open spec fn named_item(db: Db, word: Seq<char>) -> Result<NodeId, LookupError> {
    let by_id = db.item_positions(word);
    let by_name = db.named_positions(word);
    if by_id.len() > 1 {
        Err(LookupError::LookupViolation)
    } else if by_id.len() == 1 {
        Ok(NodeId::Item(word))
    } else if by_name.len() > 1 {
        Err(LookupError::LookupViolation)
    } else if by_name.len() == 1 {
        match text_of(db.raw@[by_name.last()]@, "id"@) {
            Some(id) => Ok(NodeId::Item(id)),
            None => Err(LookupError::UnsupportedShape),
        }
    } else {
        Err(LookupError::Missing)
    }
}

/// The item node that a user's word names.
pub fn to_node(from: &str, db: &Db) -> (r: Result<Node, LookupError>)
    ensures
        match r {
            Ok(n) => named_item(*db, from@) == Ok::<NodeId, LookupError>(n@),
            Err(e) => named_item(*db, from@) == Err::<NodeId, LookupError>(e),
        },
{
    match db.lookup_item(from) {
        Err(e) => Err(e),
        Ok(Some(_)) => Ok(Node::Item(from.to_owned())),
        Ok(None) => match db.lookup_item_by_name(from) {
            Err(e) => Err(e),
            Ok(Some(rec)) => match rec.text("id") {
                Some(id) => Ok(Node::Item(id.clone())),
                None => Err(LookupError::UnsupportedShape),
            },
            Ok(None) => Err(LookupError::Missing),
        },
    }
}

/// The item nodes that a list of words names, in order; the first word
/// that names none decides the failure.
pub fn to_node_list(from: &[String], db: &Db) -> (r: Result<Vec<Node>, LookupFailure>)
    ensures
        match r {
            Ok(nodes) => nodes.len() == from.len() && forall|i: int|
                0 <= i < from.len() ==> named_item(*db, (#[trigger] from@[i])@) == Ok::<
                    NodeId,
                    LookupError,
                >(nodes@[i]@),
            Err(f) => exists|i: int|
                0 <= i < from.len() && (#[trigger] from@[i])@ == f.id@ && named_item(*db, from@[i]@)
                    == Err::<NodeId, LookupError>(f.error) && forall|j: int|
                    0 <= j < i ==> named_item(*db, (#[trigger] from@[j])@).is_ok(),
        },
{
    let mut nodes: Vec<Node> = Vec::new();
    let mut i: usize = 0;
    while i < from.len()
        invariant
            i <= from.len(),
            nodes.len() == i,
            forall|j: int|
                0 <= j < i ==> named_item(*db, (#[trigger] from@[j])@) == Ok::<NodeId, LookupError>(
                    nodes@[j]@,
                ),
        decreases from.len() - i,
    {
        match to_node(from[i].as_str(), db) {
            Ok(n) => {
                nodes.push(n);
            },
            Err(e) => {
                return Err(LookupFailure { error: e, id: from[i].clone() });
            },
        }
        i += 1;
    }
    Ok(nodes)
}

} // verus!
