//! Volumes and weights as they are written: a number and a unit.

use vstd::prelude::*;
use vstd::string::StrSliceExecFns;
use crate::schema::{Volume, Weight};

verus! {

/// Why a written quantity cannot be read.
#[derive(Clone, Copy, Debug, PartialEq, Eq, Structural)]
pub enum UnitError {
    /// The text ends in no unit that is known.
    UnknownUnit,
    /// What stands before the unit is no number.
    NotANumber,
    /// The quantity does not fit.
    TooLarge,
}

/// What `str::trim` gives for a text.
pub uninterp spec fn trimmed(s: Seq<char>) -> Seq<char>;

/// The number that a text of decimal digits spells; nothing where one of
/// its characters is no digit from `0` to `9`.
pub open spec fn digits_value(s: Seq<char>) -> Option<int>
    decreases s.len(),
{
    if s.len() == 0 {
        Some(0int)
    } else if '0' <= s.last() && s.last() <= '9' {
        match digits_value(s.drop_last()) {
            Some(v) => Some(v * 10 + (s.last() as int - '0' as int)),
            None => None,
        }
    } else {
        None
    }
}

/// The text begins with a plus or a minus sign.
pub open spec fn is_signed(s: Seq<char>) -> bool {
    s.len() > 0 && (s[0] == '+' || s[0] == '-')
}

/// The number that a text spells in decimal: an optional sign, then at
/// least one digit and nothing else. Nothing where the text has another
/// form, or where the number does not fit.
pub open spec fn parsed_i32(s: Seq<char>) -> Option<i32> {
    let digits = if is_signed(s) {
        s.subrange(1, s.len() as int)
    } else {
        s
    };
    if digits.len() == 0 {
        None
    } else {
        match digits_value(digits) {
            None => None,
            Some(v) => {
                let n = if is_signed(s) && s[0] == '-' {
                    -v
                } else {
                    v
                };
                if i32::MIN <= n <= i32::MAX {
                    Some(n as i32)
                } else {
                    None
                }
            },
        }
    }
}

/// `str::trim`: the text without the whitespace at its two ends. The
/// result is named, not described.
#[verifier::external_body]
fn trim(s: &str) -> (r: &str)
    ensures
        r@ == trimmed(s@),
{
    s.trim()
}

/// `str::parse::<i32>`: the number that an optional sign and decimal
/// digits spell, where it fits in an `i32`; an error, which is dropped
/// here, for every other text.
#[verifier::external_body]
fn parse_i32(s: &str) -> (r: Option<i32>)
    ensures
        r == parsed_i32(s@),
{
    s.parse::<i32>().ok()
}

/// The text ends in the unit.
pub open spec fn ends_in(s: Seq<char>, unit: Seq<char>) -> bool {
    s.len() >= unit.len() && s.subrange(s.len() - unit.len(), s.len() as int) == unit
}

/// The number that stands before the last `cut` characters.
pub open spec fn amount_before(s: Seq<char>, cut: int) -> Option<i32> {
    parsed_i32(trimmed(s.subrange(0, s.len() - cut)))
}

/// A thousandth of a number, rounded towards zero.
pub open spec fn thousandth(x: int) -> int {
    if x >= 0 {
        x / 1000
    } else {
        -((-x) / 1000)
    }
}

/// The millilitres that a written volume stands for: a number of
/// millilitres before `ml`, or of litres before `L`.
pub open spec fn volume_of(s: Seq<char>) -> Result<int, UnitError> {
    if ends_in(s, "ml"@) {
        match amount_before(s, 2) {
            Some(n) => Ok(n as int),
            None => Err(UnitError::NotANumber),
        }
    } else if ends_in(s, "L"@) {
        match amount_before(s, 1) {
            Some(n) => if i32::MIN <= n * 1000 <= i32::MAX {
                Ok(n * 1000)
            } else {
                Err(UnitError::TooLarge)
            },
            None => Err(UnitError::NotANumber),
        }
    } else {
        Err(UnitError::UnknownUnit)
    }
}

/// The grams that a written weight stands for: a number of kilograms
/// before ` kg`, of milligrams before ` mg`, or of grams before ` g`.
/// Milligrams are rounded to whole grams towards zero.
pub open spec fn weight_of(s: Seq<char>) -> Result<int, UnitError> {
    if ends_in(s, " kg"@) {
        match amount_before(s, 3) {
            Some(n) => if i32::MIN <= n * 1000 <= i32::MAX {
                Ok(n * 1000)
            } else {
                Err(UnitError::TooLarge)
            },
            None => Err(UnitError::NotANumber),
        }
    } else if ends_in(s, " mg"@) {
        match amount_before(s, 2) {
            Some(n) => Ok(thousandth(n as int)),
            None => Err(UnitError::NotANumber),
        }
    } else if ends_in(s, " g"@) {
        match amount_before(s, 1) {
            Some(n) => Ok(n as int),
            None => Err(UnitError::NotANumber),
        }
    } else {
        Err(UnitError::UnknownUnit)
    }
}

/// The text begins with the prefix.
pub open spec fn begins_with(s: Seq<char>, prefix: Seq<char>) -> bool {
    s.len() >= prefix.len() && s.subrange(0, prefix.len() as int) == prefix
}

/// Whether the text begins with the prefix.
pub fn starts_with(s: &str, prefix: &str) -> (r: bool)
    ensures
        r == begins_with(s@, prefix@),
{
    let len = s.unicode_len();
    let prefix_len = prefix.unicode_len();
    if len < prefix_len {
        return false;
    }
    let ghost head = s@.subrange(0, prefix_len as int);
    let mut i: usize = 0;
    while i < prefix_len
        invariant
            i <= prefix_len,
            prefix_len <= len,
            len == s@.len(),
            prefix_len == prefix@.len(),
            head == s@.subrange(0, prefix_len as int),
            forall|j: int| 0 <= j < i ==> head[j] == prefix@[j],
        decreases prefix_len - i,
    {
        if s.get_char(i) != prefix.get_char(i) {
            assert(head[i as int] != prefix@[i as int]);
            return false;
        }
        i += 1;
    }
    assert(head =~= prefix@);
    true
}

/// Whether the text ends in the unit.
pub fn ends_with(s: &str, unit: &str) -> (r: bool)
    ensures
        r == ends_in(s@, unit@),
{
    let len = s.unicode_len();
    let unit_len = unit.unicode_len();
    if len < unit_len {
        return false;
    }
    let start = len - unit_len;
    let ghost tail = s@.subrange(start as int, len as int);
    let mut i: usize = 0;
    while i < unit_len
        invariant
            i <= unit_len,
            len == s@.len(),
            unit_len == unit@.len(),
            start == len - unit_len,
            tail == s@.subrange(start as int, len as int),
            forall|j: int| 0 <= j < i ==> tail[j] == unit@[j],
        decreases unit_len - i,
    {
        if s.get_char(start + i) != unit.get_char(i) {
            assert(tail[i as int] != unit@[i as int]);
            return false;
        }
        i += 1;
    }
    assert(tail =~= unit@);
    true
}

/// The number that stands before the last `cut` characters of the text.
fn number_before(s: &str, cut: usize) -> (r: Option<i32>)
    requires
        cut <= s@.len(),
    ensures
        r == amount_before(s@, cut as int),
{
    let len = s.unicode_len();
    parse_i32(trim(s.substring_char(0, len - cut)))
}

/// A thousand times the number, where that fits.
pub fn thousandfold(n: i32) -> (r: Result<i32, UnitError>)
    ensures
        match r {
            Ok(x) => x == n * 1000,
            Err(e) => e == UnitError::TooLarge && !(i32::MIN <= n * 1000 <= i32::MAX),
        },
{
    let wide = n as i64 * 1000;
    if wide < i32::MIN as i64 || wide > i32::MAX as i64 {
        Err(UnitError::TooLarge)
    } else {
        Ok(wide as i32)
    }
}

/// A thousandth of the number, rounded towards zero.
pub fn thousandth_of(n: i32) -> (r: i32)
    ensures
        r == thousandth(n as int),
{
    let wide = n as i64;
    let part: i64 = if wide >= 0 {
        wide / 1000
    } else {
        -((-wide) / 1000)
    };
    part as i32
}

impl Volume {
    /// Reads a written volume.
    pub fn parse(s: &str) -> (r: Result<Volume, UnitError>)
        ensures
            match r {
                Ok(v) => volume_of(s@) == Ok::<int, UnitError>(v.ml as int),
                Err(e) => volume_of(s@) == Err::<int, UnitError>(e),
            },
    {
        proof {
            reveal_strlit("ml");
            reveal_strlit("L");
        }
        if ends_with(s, "ml") {
            match number_before(s, 2) {
                Some(n) => Ok(Volume { ml: n }),
                None => Err(UnitError::NotANumber),
            }
        } else if ends_with(s, "L") {
            match number_before(s, 1) {
                Some(n) => match thousandfold(n) {
                    Ok(ml) => Ok(Volume { ml }),
                    Err(e) => Err(e),
                },
                None => Err(UnitError::NotANumber),
            }
        } else {
            Err(UnitError::UnknownUnit)
        }
    }
}

impl Weight {
    /// Reads a written weight.
    pub fn parse(s: &str) -> (r: Result<Weight, UnitError>)
        ensures
            match r {
                Ok(w) => weight_of(s@) == Ok::<int, UnitError>(w.g as int),
                Err(e) => weight_of(s@) == Err::<int, UnitError>(e),
            },
    {
        proof {
            reveal_strlit(" kg");
            reveal_strlit(" mg");
            reveal_strlit(" g");
        }
        if ends_with(s, " kg") {
            match number_before(s, 3) {
                Some(n) => match thousandfold(n) {
                    Ok(g) => Ok(Weight { g }),
                    Err(e) => Err(e),
                },
                None => Err(UnitError::NotANumber),
            }
        } else if ends_with(s, " mg") {
            match number_before(s, 2) {
                Some(n) => Ok(Weight { g: thousandth_of(n) }),
                None => Err(UnitError::NotANumber),
            }
        } else if ends_with(s, " g") {
            match number_before(s, 1) {
                Some(n) => Ok(Weight { g: n }),
                None => Err(UnitError::NotANumber),
            }
        } else {
            Err(UnitError::UnknownUnit)
        }
    }
}

} // verus!
