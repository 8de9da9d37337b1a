//! Building text: decimal numbers, padding and joining.

use vstd::prelude::*;
use vstd::string::{StringExecFns, StrSliceExecFns};

verus! {

/// The character of a decimal digit.
pub open spec fn digit_text(d: int) -> Seq<char> {
    if d == 0 {
        "0"@
    } else if d == 1 {
        "1"@
    } else if d == 2 {
        "2"@
    } else if d == 3 {
        "3"@
    } else if d == 4 {
        "4"@
    } else if d == 5 {
        "5"@
    } else if d == 6 {
        "6"@
    } else if d == 7 {
        "7"@
    } else if d == 8 {
        "8"@
    } else {
        "9"@
    }
}

/// The decimal digits of a natural number, without leading zeros.
pub open spec fn natural_text(n: nat) -> Seq<char>
    decreases n,
{
    if n < 10 {
        digit_text(n as int)
    } else {
        natural_text(n / 10) + digit_text((n % 10) as int)
    }
}

/// The decimal form of an integer, with a minus sign before a negative one.
pub open spec fn decimal_text(n: int) -> Seq<char> {
    if n < 0 {
        "-"@ + natural_text((-n) as nat)
    } else {
        natural_text(n as nat)
    }
}

fn digit(d: u64) -> (r: &'static str)
    requires
        d < 10,
    ensures
        r@ == digit_text(d as int),
{
    if d == 0 {
        "0"
    } else if d == 1 {
        "1"
    } else if d == 2 {
        "2"
    } else if d == 3 {
        "3"
    } else if d == 4 {
        "4"
    } else if d == 5 {
        "5"
    } else if d == 6 {
        "6"
    } else if d == 7 {
        "7"
    } else if d == 8 {
        "8"
    } else {
        "9"
    }
}

/// The decimal form of a number.
pub fn decimal(n: i64) -> (r: String)
    ensures
        r@ == decimal_text(n as int),
{
    let magnitude: u64 = if n < 0 {
        (-(n as i128)) as u64
    } else {
        n as u64
    };
    let mut out = String::from_str(digit(magnitude % 10));
    let mut rest: u64 = magnitude / 10;
    while rest > 0
        invariant
            natural_text(magnitude as nat) == (if rest > 0 {
                natural_text(rest as nat)
            } else {
                Seq::<char>::empty()
            }) + out@,
        decreases rest,
    {
        let ghost before = out@;
        out = String::from_str(digit(rest % 10)).concat(out.as_str());
        proof {
            let d = digit_text((rest % 10) as int);
            if rest >= 10 {
                assert((natural_text((rest / 10) as nat) + d) + before =~= natural_text(
                    (rest / 10) as nat,
                ) + (d + before));
            } else {
                assert(Seq::<char>::empty() + (d + before) =~= d + before);
            }
        }
        rest = rest / 10;
    }
    assert(Seq::<char>::empty() + out@ =~= out@);
    if n < 0 {
        String::from_str("-").concat(out.as_str())
    } else {
        out
    }
}

/// `n` spaces.
pub open spec fn spaces(n: int) -> Seq<char>
    decreases n,
{
    if n <= 0 {
        Seq::empty()
    } else {
        spaces(n - 1) + " "@
    }
}

/// The text set flush right in a field of `width` characters; a longer
/// text is left as it is.
pub open spec fn padded(s: Seq<char>, width: int) -> Seq<char> {
    spaces(width - s.len()) + s
}

/// Sets a text flush right in a field of `width` characters.
pub fn pad_left(s: &str, width: usize) -> (r: String)
    ensures
        r@ == padded(s@, width as int),
{
    let len = s.unicode_len();
    let mut out = String::from_str("");
    let mut i: usize = len;
    proof {
        reveal_strlit("");
        assert(out@ =~= spaces(0));
    }
    while i < width
        invariant
            len <= i,
            i <= width || i == len,
            len == s@.len(),
            out@ == spaces(i - len),
        decreases width - i,
    {
        out.append(" ");
        i += 1;
    }
    assert(out@ == spaces(width as int - s@.len())) by {
        if width <= len {
            assert(spaces(0) == spaces(width as int - len as int));
        }
    }
    out.append(s);
    out
}

/// The parts in order, with `sep` between neighbours.
pub open spec fn joined(parts: Seq<Seq<char>>, sep: Seq<char>) -> Seq<char>
    decreases parts.len(),
{
    if parts.len() == 0 {
        Seq::empty()
    } else if parts.len() == 1 {
        parts[0]
    } else {
        joined(parts.drop_last(), sep) + sep + parts.last()
    }
}

/// The characters of each string of a list, in order.
pub open spec fn texts(v: Seq<String>) -> Seq<Seq<char>> {
    v.map_values(|s: String| s@)
}

/// Joins the parts with `sep` between neighbours.
pub fn join(parts: &Vec<String>, sep: &str) -> (r: String)
    ensures
        r@ == joined(texts(parts@), sep@),
{
    let mut out = String::from_str("");
    proof {
        reveal_strlit("");
        assert(out@ =~= Seq::<char>::empty());
        assert(texts(parts@).take(0) =~= Seq::<Seq<char>>::empty());
    }
    let mut i: usize = 0;
    while i < parts.len()
        invariant
            i <= parts.len(),
            out@ == joined(texts(parts@).take(i as int), sep@),
        decreases parts.len() - i,
    {
        let ghost before = out@;
        if i > 0 {
            out.append(sep);
        }
        out.append(parts[i].as_str());
        proof {
            let next = texts(parts@).take(i + 1);
            assert(next.drop_last() =~= texts(parts@).take(i as int));
            assert(next.last() == parts@[i as int]@);
            if i == 0 {
                assert(out@ =~= parts@[0]@);
            }
        }
        i += 1;
    }
    assert(texts(parts@).take(parts.len() as int) =~= texts(parts@));
    out
}

} // verus!
