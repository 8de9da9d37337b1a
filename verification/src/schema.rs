//! Typed entities that the graph engine and the reports work on.

use vstd::prelude::*;
use vstd::string::{StringExecFns, StrSliceExecFns};
use crate::text::{decimal, decimal_text};

verus! {

/// How a record spells its display name.
#[derive(Clone, Debug, PartialEq, Eq)]
pub enum Name {
    Plain(String),
    Same { str_sp: String },
    WithPlural { str: String, str_pl: Option<String> },
}

impl Name {
    /// The singular display text.
    pub open spec fn text(&self) -> Seq<char> {
        match self {
            Name::Plain(s) => s@,
            Name::Same { str_sp } => str_sp@,
            Name::WithPlural { str, .. } => str@,
        }
    }

    /// The singular display text, taken out of the name.
    pub fn to_string(self) -> (r: String)
        ensures
            r@ == self.text(),
    {
        match self {
            Name::Plain(s) => s,
            Name::Same { str_sp } => str_sp,
            Name::WithPlural { str, .. } => str,
        }
    }

    /// The singular display text.
    pub fn as_str(&self) -> (r: &str)
        ensures
            r@ == self.text(),
    {
        match self {
            Name::Plain(s) => s.as_str(),
            Name::Same { str_sp } => str_sp.as_str(),
            Name::WithPlural { str, .. } => str.as_str(),
        }
    }
}

/// One alternative of an ingredient group: a named, quantified demand that
/// is either a plain item or a reference to a shared requirement bundle.
#[derive(Clone, Debug, PartialEq, Eq)]
pub enum ComponentDesc {
    Plain(String, i32),
    List(String, i32),
}

impl ComponentDesc {
    /// The name of the ingredient.
    pub open spec fn spec_name(&self) -> Seq<char> {
        match self {
            ComponentDesc::Plain(s, _) => s@,
            ComponentDesc::List(s, _) => s@,
        }
    }

    /// The quantity asked for.
    pub open spec fn spec_amount(&self) -> i32 {
        match self {
            ComponentDesc::Plain(_, i) => *i,
            ComponentDesc::List(_, i) => *i,
        }
    }

    /// The name of the ingredient.
    pub fn name(&self) -> (r: &str)
        ensures
            r@ == self.spec_name(),
    {
        match self {
            ComponentDesc::Plain(s, _) => s.as_str(),
            ComponentDesc::List(s, _) => s.as_str(),
        }
    }

    /// The quantity asked for.
    pub fn amount(&self) -> (r: i32)
        ensures
            r == self.spec_amount(),
    {
        match self {
            ComponentDesc::Plain(_, i) => *i,
            ComponentDesc::List(_, i) => *i,
        }
    }
}

/// A tool quality and the level a recipe asks of it.
#[derive(Clone, Debug, PartialEq, Eq)]
pub struct Quality {
    pub id: String,
    pub level: i32,
}

/// Whether, and from which skill levels, a recipe is learnt by itself.
#[derive(Clone, Debug, PartialEq, Eq)]
pub enum Autolearn {
    No,
    Yes,
    Complex(Vec<(String, i32)>),
}

/// How long a recipe takes: as written, or as a bare tick count.
#[derive(Clone, Debug, PartialEq, Eq)]
pub enum RecipeTime {
    Human(String),
    TicksMaybe(i32),
}

/// A way to make `result`: what it takes, and who knows it.
#[derive(Clone, Debug, PartialEq, Eq)]
pub struct Recipe {
    pub result: String,
    pub id_suffix: Option<String>,
    pub skill_used: String,
    pub skills_required: Vec<(String, i32)>,
    pub difficulty: i32,
    pub time: RecipeTime,
    pub charges: Option<i32>,
    pub result_mult: Option<i32>,
    pub components: Vec<Vec<ComponentDesc>>,
    pub qualities: Vec<Quality>,
    pub autolearn: Autolearn,
    pub reversible: bool,
}

/// A named bundle of ingredient groups that recipes refer to.
#[derive(Clone, Debug, PartialEq, Eq)]
pub struct Requirement {
    pub id: String,
    pub comment: Option<String>,
    pub components: Vec<Vec<ComponentDesc>>,
}

/// A material and how well it resists damage.
#[derive(Clone, Debug, PartialEq, Eq)]
pub struct Material {
    pub typ: String,
    pub id: String,
    pub name: String,
    pub bash_resist: i32,
    pub cut_resist: i32,
    pub acid_resist: i32,
    pub elec_resist: i32,
    pub chip_resist: i32,
}

/// What an entry of an item group names: an item, or another group.
#[derive(Clone, Copy, Debug, PartialEq, Eq, Structural)]
pub enum ItemGroupItemType {
    Item,
    Group,
}

/// One entry of an item group.
#[derive(Clone, Debug, PartialEq, Eq)]
pub struct ItemGroupItem {
    pub typ: ItemGroupItemType,
    pub id: String,
}

/// A group of items that the world hands out, each with its weight.
#[derive(Clone, Debug, PartialEq, Eq)]
pub struct ItemGroup {
    pub id: String,
    pub subtype: Option<String>,
    pub items: Vec<(ItemGroupItem, i32)>,
}

/// An ingredient alternative as it is written down: a name and a
/// quantity, with an optional marker or list of markers behind them.
#[derive(Clone, Debug, PartialEq, Eq)]
pub enum ComponentDescRaw {
    Two(String, i32),
    Three(String, i32, String),
    ThreeList(String, i32, Vec<String>),
}

/// A written value that has none of the shapes that are understood.
#[derive(Clone, Copy, Debug, PartialEq, Eq, Structural)]
pub struct UnsupportedShape;

impl ComponentDescRaw {
    /// What the written alternative means, if it means anything: a pair is
    /// a plain item, and a triple marked `LIST` or `NO_RECOVER` refers to a
    /// requirement.
    pub open spec fn meaning(self) -> Option<ComponentDesc> {
        match self {
            ComponentDescRaw::Two(s, i) => Some(ComponentDesc::Plain(s, i)),
            ComponentDescRaw::Three(s, i, which) => if which@ == "LIST"@ || which@
                == "NO_RECOVER"@ {
                Some(ComponentDesc::List(s, i))
            } else {
                None
            },
            ComponentDescRaw::ThreeList(_, _, _) => None,
        }
    }
}

impl ComponentDesc {
    /// Reads a written alternative.
    pub fn from_raw(raw: ComponentDescRaw) -> (r: Result<ComponentDesc, UnsupportedShape>)
        ensures
            match r {
                Ok(c) => raw.meaning() == Some(c),
                Err(_) => raw.meaning().is_none(),
            },
    {
        match raw {
            ComponentDescRaw::Two(s, i) => Ok(ComponentDesc::Plain(s, i)),
            ComponentDescRaw::Three(s, i, which) => {
                if which == "LIST".to_owned() || which == "NO_RECOVER".to_owned() {
                    Ok(ComponentDesc::List(s, i))
                } else {
                    Err(UnsupportedShape)
                }
            },
            ComponentDescRaw::ThreeList(_, _, _) => Err(UnsupportedShape),
        }
    }
}

impl Default for RecipeTime {
    fn default() -> (r: RecipeTime)
        ensures
            r == RecipeTime::TicksMaybe(0),
    {
        RecipeTime::TicksMaybe(0)
    }
}

impl Default for Autolearn {
    fn default() -> (r: Autolearn)
        ensures
            r == Autolearn::No,
    {
        Autolearn::No
    }
}

/// What one more character, read from the right, makes of the seconds
/// counted so far and of the worth of the next digit. A unit letter sets
/// the worth, a digit adds to the count and makes the next digit worth ten
/// times as much, a space changes nothing. Any other character, and a
/// count that no longer fits, ends the reading.
pub open spec fn time_step(state: (int, int), c: char) -> Option<(int, int)> {
    if c == 's' {
        Some((state.0, 1int))
    } else if c == 'm' {
        Some((state.0, 60int))
    } else if c == 'h' {
        Some((state.0, 3600int))
    } else if c == ' ' {
        Some(state)
    } else if '0' <= c && c <= '9' {
        let count = state.0 + (c as int - '0' as int) * state.1;
        if count <= i32::MAX {
            Some((count, state.1 * 10))
        } else {
            None
        }
    } else {
        None
    }
}

/// The seconds counted and the worth of the next digit after reading the
/// characters from the right end down to position `from`.
pub open spec fn time_read(s: Seq<char>, from: int) -> Option<(int, int)>
    decreases s.len() - from,
{
    if from >= s.len() {
        Some((0int, 1int))
    } else {
        match time_read(s, from + 1) {
            None => None,
            Some(state) => time_step(state, s[from]),
        }
    }
}

impl RecipeTime {
    /// The time as a person reads it.
    pub open spec fn human_text(&self) -> Seq<char> {
        match self {
            RecipeTime::Human(h) => h@,
            RecipeTime::TicksMaybe(t) => " ??? "@ + decimal_text(*t as int) + " ticks ???"@,
        }
    }

    /// The time as a person reads it: the text as written, or the tick
    /// count between question marks.
    pub fn to_human(&self) -> (r: String)
        ensures
            r@ == self.human_text(),
    {
        match self {
            RecipeTime::Human(h) => h.clone(),
            RecipeTime::TicksMaybe(t) => {
                let ticks = decimal(*t as i64);
                String::from_str(" ??? ").concat(ticks.as_str()).concat(" ticks ???")
            },
        }
    }

    /// The time in seconds, where the text is made of digits, unit letters
    /// and spaces and the count fits; otherwise nothing.
    pub fn checked_seconds(&self) -> (r: Option<i32>)
        ensures
            match r {
                Some(x) => time_read(self.human_text(), 0) == Some((x as int, time_read(
                    self.human_text(),
                    0,
                ).unwrap().1)),
                None => time_read(self.human_text(), 0).is_none(),
            },
    {
        let text = self.to_human();
        let len = text.as_str().unicode_len();
        let mut count: i64 = 0;
        let mut worth: i64 = 1;
        let mut beyond = false;
        let ghost mut exact: int = 1;
        let mut from: usize = len;
        while from > 0
            invariant
                from <= len,
                len == text@.len(),
                text@ == self.human_text(),
                0 <= count <= i32::MAX,
                1 <= worth <= i32::MAX,
                !beyond ==> exact == worth,
                beyond ==> exact > i32::MAX,
                time_read(text@, from as int) == Some((count as int, exact)),
            decreases from,
        {
            let c = text.as_str().get_char(from - 1);
            if c == 's' {
                worth = 1;
                beyond = false;
                proof {
                    exact = 1;
                }
            } else if c == 'm' {
                worth = 60;
                beyond = false;
                proof {
                    exact = 60;
                }
            } else if c == 'h' {
                worth = 3600;
                beyond = false;
                proof {
                    exact = 3600;
                }
            } else if c == ' ' {
            } else if '0' <= c && c <= '9' {
                let d: i64 = (c as u32 - '0' as u32) as i64;
                assert(0 <= d <= 9);
                if d > 0 && beyond {
                    proof {
                        assert(d * exact >= exact) by (nonlinear_arith)
                            requires
                                d >= 1,
                                exact >= 0,
                        ;
                        lemma_reading_ended(text@, (from - 1) as int);
                    }
                    return None;
                }
                let added: i64 = if d == 0 {
                    0
                } else {
                    assert(0 <= d * worth <= 9 * worth) by (nonlinear_arith)
                        requires
                            0 <= d <= 9,
                            1 <= worth,
                    ;
                    d * worth
                };
                assert(added == d * exact) by (nonlinear_arith)
                    requires
                        d == 0 && added == 0 || added == d * worth && exact == worth,
                ;
                let next = count + added;
                if next > i32::MAX as i64 {
                    proof {
                        lemma_reading_ended(text@, (from - 1) as int);
                    }
                    return None;
                }
                count = next;
                if !beyond {
                    if worth * 10 > i32::MAX as i64 {
                        beyond = true;
                    } else {
                        worth = worth * 10;
                    }
                }
                proof {
                    assert(exact * 10 > exact) by (nonlinear_arith)
                        requires
                            exact >= 1,
                    ;
                    exact = exact * 10;
                }
            } else {
                proof {
                    lemma_reading_ended(text@, (from - 1) as int);
                }
                return None;
            }
            from -= 1;
        }
        Some(count as i32)
    }

    /// The time in seconds. The text must be made of digits, unit letters
    /// and spaces, and the count must fit.
    pub fn to_seconds(&self) -> (r: i32)
        requires
            time_read(self.human_text(), 0).is_some(),
        ensures
            time_read(self.human_text(), 0).unwrap().0 == r,
    {
        match self.checked_seconds() {
            Some(x) => x,
            None => 0,
        }
    }
}

/// Once the reading has ended, reading further to the left does not bring
/// it back.
proof fn lemma_reading_ended(s: Seq<char>, from: int)
    requires
        0 <= from <= s.len(),
        time_read(s, from).is_none(),
    ensures
        time_read(s, 0).is_none(),
    decreases from,
{
    if from > 0 {
        lemma_reading_ended(s, from - 1);
    }
}

/// A volume in millilitres.
#[derive(Clone, Copy, Debug, Default, PartialEq, Eq)]
pub struct Volume {
    pub ml: i32,
}

/// A weight in grams.
#[derive(Clone, Copy, Debug, Default, PartialEq, Eq)]
pub struct Weight {
    pub g: i32,
}

/// Something to eat or drink.
#[derive(Clone, Debug, PartialEq, Eq)]
pub struct Comestible {
    pub id: String,
    pub name: Name,
    pub description: String,
    pub comestible_type: String,
    pub quench: i32,
    pub healthy: i32,
    pub calories: i32,
    pub fun: i32,
}

/// A pocket that holds things up to a volume.
#[derive(Clone, Debug, PartialEq, Eq)]
pub struct PocketNormal {
    pub max_contains_volume: Volume,
    pub max_contains_weight: String,
    pub moves: i32,
    pub flag_restriction: Vec<String>,
}

/// A pocket that holds ammunition of given kinds.
#[derive(Clone, Debug, PartialEq, Eq)]
pub struct PocketAmmo {
    pub ammo_restriction: Vec<(String, i32)>,
}

/// A pocket of either kind.
#[derive(Clone, Debug, PartialEq, Eq)]
pub enum PocketData {
    Normal(PocketNormal),
    Ammo(PocketAmmo),
}

impl PocketData {
    /// The pocket, if it is a normal one.
    pub fn as_normal(&self) -> (r: Option<&PocketNormal>)
        ensures
            r == (match *self {
                PocketData::Normal(p) => Some(&p),
                PocketData::Ammo(_) => None,
            }),
    {
        match self {
            PocketData::Normal(p) => Some(p),
            PocketData::Ammo(_) => None,
        }
    }

    /// The pocket, if it holds ammunition.
    pub fn as_ammo(&self) -> (r: Option<&PocketAmmo>)
        ensures
            r == (match *self {
                PocketData::Ammo(p) => Some(&p),
                PocketData::Normal(_) => None,
            }),
    {
        match self {
            PocketData::Ammo(p) => Some(p),
            PocketData::Normal(_) => None,
        }
    }
}

/// What is worn: what it covers, how it protects and encumbers, and its
/// pockets.
#[derive(Clone, Debug, PartialEq, Eq)]
pub struct Armor {
    pub covers: Vec<String>,
    pub coverage: i32,
    pub encumbrance: i32,
    pub max_encumbrance: Option<i32>,
    pub warmth: i32,
    pub material_thickness: i32,
    pub environmental_protection: i32,
    pub material: Vec<String>,
    pub pocket_data: Vec<PocketData>,
}

/// What an item is beyond its header.
#[derive(Clone, Debug, PartialEq, Eq)]
pub enum GenericItemEnum {
    Armor(Armor),
    Comestible(Comestible),
    Generic,
    Tool,
}

/// What every item states of itself.
#[derive(Clone, Debug, PartialEq, Eq)]
pub struct GenericItemHeader {
    pub typ: String,
    pub id: String,
    pub name: Name,
    pub flags: Vec<String>,
    pub volume: Option<Volume>,
    pub weight: Option<Weight>,
    pub category: Option<String>,
    pub cutting: i32,
    pub bashing: i32,
}

/// An item: its header and what it is beyond that.
#[derive(Clone, Debug, PartialEq, Eq)]
pub struct CataItem {
    pub header: GenericItemHeader,
    pub inner: GenericItemEnum,
}

impl CataItem {
    /// The item is a piece of armor.
    pub open spec fn is_armor(&self) -> bool {
        self.inner is Armor
    }

    /// The armor that the item is, if it is one.
    pub fn armor(&self) -> (r: Option<&Armor>)
        ensures
            r == (match self.inner {
                GenericItemEnum::Armor(a) => Some(&a),
                _ => None,
            }),
    {
        match &self.inner {
            GenericItemEnum::Armor(a) => Some(a),
            _ => None,
        }
    }

    /// The armor that the item is.
    pub fn as_armor(&self) -> (r: &Armor)
        requires
            self.is_armor(),
        ensures
            self.inner == GenericItemEnum::Armor(*r),
    {
        match &self.inner {
            GenericItemEnum::Armor(a) => a,
            _ => vstd::pervasive::unreached(),
        }
    }
}

} // verus!
