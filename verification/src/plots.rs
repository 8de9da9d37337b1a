//! Storage and encumbrance of armor.

use vstd::prelude::*;
use crate::schema::{Armor, CataItem, GenericItemEnum, PocketData, Volume};
use crate::reachability::{string_ids, contains_name};

verus! {

/// The volumes of the normal pockets among the first `upto`, added up.
pub open spec fn storage_sum(pockets: Seq<PocketData>, upto: int) -> int
    decreases upto,
{
    if upto <= 0 {
        0
    } else {
        storage_sum(pockets, upto - 1) + match pockets[upto - 1] {
            PocketData::Normal(p) => p.max_contains_volume.ml as int,
            PocketData::Ammo(_) => 0,
        }
    }
}

/// Every sum on the way to the total fits.
pub open spec fn storage_fits(pockets: Seq<PocketData>) -> bool {
    forall|k: int|
        0 <= k <= pockets.len() ==> i32::MIN <= #[trigger] storage_sum(pockets, k) <= i32::MAX
}

/// Half of a number, rounded towards zero.
pub open spec fn halved(x: int) -> int {
    if x >= 0 {
        x / 2
    } else {
        -((-x) / 2)
    }
}

/// A two hundred and fiftieth of a number, rounded towards zero.
pub open spec fn per_250(x: int) -> int {
    if x >= 0 {
        x / 250
    } else {
        -((-x) / 250)
    }
}

/// The item comes in sizes.
pub open spec fn is_varsize(item: CataItem) -> bool {
    string_ids(item.header.flags@).contains("VARSIZE"@)
}

/// The encumbrance of armor that is full, before sizes are accounted for.
pub open spec fn full_base(armor: Armor) -> int {
    match armor.max_encumbrance {
        Some(max) => max as int,
        None => armor.encumbrance + per_250(storage_sum(armor.pocket_data@, armor.pocket_data.len() as int)),
    }
}

/// The encumbrance of armor that is full.
pub open spec fn full_encumbrance(item: CataItem, armor: Armor) -> int {
    if is_varsize(item) {
        halved(full_base(armor))
    } else {
        full_base(armor)
    }
}

/// The encumbrance of armor that is empty.
pub open spec fn empty_encumbrance(item: CataItem, armor: Armor) -> int {
    if is_varsize(item) {
        halved(armor.encumbrance as int)
    } else {
        armor.encumbrance as int
    }
}

fn half(x: i32) -> (r: i32)
    ensures
        r == halved(x as int),
{
    let wide = x as i64;
    if wide >= 0 {
        (wide / 2) as i32
    } else {
        (-((-wide) / 2)) as i32
    }
}

/// What the normal pockets of the armor hold together, where every sum on
/// the way fits.
pub fn checked_total_storage(item: &Armor) -> (r: Option<Volume>)
    ensures
        r.is_some() <==> storage_fits(item.pocket_data@),
        r.is_some() ==> r.unwrap().ml == storage_sum(
            item.pocket_data@,
            item.pocket_data.len() as int,
        ),
{
    let mut total: i32 = 0;
    let mut i: usize = 0;
    while i < item.pocket_data.len()
        invariant
            i <= item.pocket_data.len(),
            total == storage_sum(item.pocket_data@, i as int),
            forall|k: int|
                0 <= k <= i ==> i32::MIN <= #[trigger] storage_sum(item.pocket_data@, k)
                    <= i32::MAX,
        decreases item.pocket_data.len() - i,
    {
        if let PocketData::Normal(pocket) = &item.pocket_data[i] {
            let next = total as i64 + pocket.max_contains_volume.ml as i64;
            if next < i32::MIN as i64 || next > i32::MAX as i64 {
                assert(storage_sum(item.pocket_data@, i + 1) == next);
                return None;
            }
            total = next as i32;
        }
        i += 1;
    }
    Some(Volume { ml: total })
}

/// What the normal pockets of the armor hold together.
pub fn total_storage(item: &Armor) -> (r: Volume)
    requires
        storage_fits(item.pocket_data@),
    ensures
        r.ml == storage_sum(item.pocket_data@, item.pocket_data.len() as int),
{
    match checked_total_storage(item) {
        Some(v) => v,
        None => Volume { ml: 0 },
    }
}

/// The encumbrance of a full piece of armor: its stated maximum, or else
/// its own encumbrance and one more for every quarter litre it holds; half
/// of that where the item comes in sizes. Nothing where the item is no
/// armor or a number does not fit.
pub fn checked_enc_at_full(item: &CataItem) -> (r: Option<i32>)
    ensures
        match r {
            Some(x) => item.is_armor() && item.inner == GenericItemEnum::Armor(
                item.inner->Armor_0,
            ) && x == full_encumbrance(*item, item.inner->Armor_0),
            None => !item.is_armor() || (item.inner->Armor_0.max_encumbrance.is_none() && (
            !storage_fits(item.inner->Armor_0.pocket_data@) || !(i32::MIN <= full_base(
                item.inner->Armor_0,
            ) <= i32::MAX))),
        },
{
    let armor = match item.armor() {
        Some(a) => a,
        None => {
            return None;
        },
    };
    let base: i32 = match armor.max_encumbrance {
        Some(max) => max,
        None => {
            let held = match checked_total_storage(armor) {
                Some(v) => v.ml as i64,
                None => {
                    return None;
                },
            };
            let share: i64 = if held >= 0 {
                held / 250
            } else {
                -((-held) / 250)
            };
            let sum = armor.encumbrance as i64 + share;
            if sum < i32::MIN as i64 || sum > i32::MAX as i64 {
                return None;
            }
            sum as i32
        },
    };
    let varsize = "VARSIZE".to_owned();
    if contains_name(item.header.flags.as_slice(), &varsize) {
        Some(half(base))
    } else {
        Some(base)
    }
}

/// The encumbrance of a full piece of armor.
pub fn enc_at_full(item: &CataItem) -> (r: i32)
    requires
        item.is_armor(),
        item.inner->Armor_0.max_encumbrance.is_none() ==> storage_fits(
            item.inner->Armor_0.pocket_data@,
        ) && i32::MIN <= full_base(item.inner->Armor_0) <= i32::MAX,
    ensures
        r == full_encumbrance(*item, item.inner->Armor_0),
{
    match checked_enc_at_full(item) {
        Some(x) => x,
        None => 0,
    }
}

/// The encumbrance of an empty piece of armor: its own encumbrance, or
/// half of it where the item comes in sizes.
pub fn enc_at_empty(item: &CataItem) -> (r: i32)
    requires
        item.is_armor(),
    ensures
        r == empty_encumbrance(*item, item.inner->Armor_0),
{
    let armor = item.as_armor();
    let varsize = "VARSIZE".to_owned();
    if contains_name(item.header.flags.as_slice(), &varsize) {
        half(armor.encumbrance)
    } else {
        armor.encumbrance
    }
}

} // verus!
