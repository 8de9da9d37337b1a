//! Labels of the nodes of a rendered graph.

use vstd::prelude::*;
use vstd::string::StringExecFns;
use crate::records::{FieldValue, FieldModel};
use crate::text::{decimal, decimal_text};

verus! {

/// How long an item keeps, as a label: a text as it stands; a number of
/// hours below a day in hours, any other in whole days, rounded towards
/// zero.
pub open spec fn spoils_label(v: FieldModel) -> Option<Seq<char>> {
    match v {
        FieldModel::Text(s) => Some(s),
        FieldModel::Integer(hours) => if 0 <= hours <= 23 {
            Some(decimal_text(hours as int) + "h"@)
        } else if hours >= 0 {
            Some(decimal_text(hours as int / 24) + "d"@)
        } else {
            Some(decimal_text(-((-(hours as int)) / 24)) + "d"@)
        },
        _ => None,
    }
}

/// The label for how long an item keeps, where the value is a text or an
/// integer.
pub fn parse_spoils_in_bad(time_v: &FieldValue) -> (r: Option<String>)
    ensures
        match r {
            Some(s) => spoils_label(time_v@) == Some(s@),
            None => spoils_label(time_v@).is_none(),
        },
{
    match time_v {
        FieldValue::Text(s) => Some(s.clone()),
        FieldValue::Integer(hours) => {
            let hours: i64 = *hours;
            if 0 <= hours && hours <= 23 {
                Some(decimal(hours).concat("h"))
            } else if hours >= 0 {
                Some(decimal(hours / 24).concat("d"))
            } else {
                let days: i64 = -(((-(hours as i128)) / 24) as i64);
                Some(decimal(days).concat("d"))
            }
        },
        _ => None,
    }
}

} // verus!
