//! Human-readable rendering of byte counts, and the decimal notation
//! it is built from.

use vstd::prelude::*;
use vstd::string::*;

verus! {

/// The decimal digit character for `d` (meaningful for `0 <= d <= 9`).
pub open spec fn digit_char(d: int) -> char {
    if d == 0 {
        '0'
    } else if d == 1 {
        '1'
    } else if d == 2 {
        '2'
    } else if d == 3 {
        '3'
    } else if d == 4 {
        '4'
    } else if d == 5 {
        '5'
    } else if d == 6 {
        '6'
    } else if d == 7 {
        '7'
    } else if d == 8 {
        '8'
    } else {
        '9'
    }
}

/// The usual decimal notation of a non-negative integer, without
/// leading zeros (a single `'0'` for zero).
pub open spec fn dec_spec(n: int) -> Seq<char>
    decreases n,
{
    if n < 10 {
        seq![digit_char(n)]
    } else {
        dec_spec(n / 10).push(digit_char(n % 10))
    }
}

/// A value scaled by a unit: the decimal notation of
/// `round(n / d * 100) / 100` with exactly two digits after the
/// point, rounding half away from zero.
pub open spec fn scaled_string(n: int, d: int) -> Seq<char> {
    let scaled = (n * 100 + d / 2) / d;
    dec_spec(scaled / 100) + "."@ + seq![
        digit_char((scaled % 100) / 10),
        digit_char(scaled % 10),
    ]
}

/// The human-readable form of a byte count: plain bytes up to 1024,
/// then KB, MB and GB with two decimal places, each band selected by
/// an inclusive upper bound on the byte count itself.
pub open spec fn size_string(n: u64) -> Seq<char> {
    if n <= 1024 {
        dec_spec(n as int) + " Bytes"@
    } else if n <= 1048576 {
        scaled_string(n as int, 1024) + " KB"@
    } else if n <= 1073741824 {
        scaled_string(n as int, 1048576) + " MB"@
    } else {
        scaled_string(n as int, 1073741824) + " GB"@
    }
}

/// The one-character string for a decimal digit.
fn digit_str(d: u64) -> (s: &'static str)
    requires
        d < 10,
    ensures
        s@ =~= seq![digit_char(d as int)],
{
    proof {
        reveal_strlit("0");
        reveal_strlit("1");
        reveal_strlit("2");
        reveal_strlit("3");
        reveal_strlit("4");
        reveal_strlit("5");
        reveal_strlit("6");
        reveal_strlit("7");
        reveal_strlit("8");
        reveal_strlit("9");
    }
    if d == 0 {
        "0"
    } else if d == 1 {
        "1"
    } else if d == 2 {
        "2"
    } else if d == 3 {
        "3"
    } else if d == 4 {
        "4"
    } else if d == 5 {
        "5"
    } else if d == 6 {
        "6"
    } else if d == 7 {
        "7"
    } else if d == 8 {
        "8"
    } else {
        "9"
    }
}

/// Decimal notation of `n`.
pub fn u64_to_dec(n: u64) -> (s: String)
    ensures
        s@ == dec_spec(n as int),
    decreases n,
{
    if n < 10 {
        digit_str(n).to_owned()
    } else {
        let mut s = u64_to_dec(n / 10);
        s.append(digit_str(n % 10));
        proof {
            assert(s@ =~= dec_spec(n as int));
        }
        s
    }
}

/// Decimal notation of `n / d`, with two digits after the point.
fn scaled_str(n: u64, d: u64) -> (s: String)
    requires
        d == 1024 || d == 1048576 || d == 1073741824,
    ensures
        s@ == scaled_string(n as int, d as int),
{
    let wide: u128 = (n as u128) * 100 + ((d / 2) as u128);
    let scaled_wide: u128 = wide / (d as u128);
    proof {
        assert(scaled_wide <= u64::MAX as u128) by {
            assert(wide <= (u64::MAX as u128) * 100 + 536870912);
            if d == 1024 {
                assert(wide / 1024 <= u64::MAX as u128);
            } else if d == 1048576 {
                assert(wide / 1048576 <= u64::MAX as u128);
            } else {
                assert(wide / 1073741824 <= u64::MAX as u128);
            }
        }
    }
    let scaled: u64 = scaled_wide as u64;
    let mut s = u64_to_dec(scaled / 100);
    s.append(".");
    s.append(digit_str((scaled % 100) / 10));
    s.append(digit_str(scaled % 10));
    proof {
        assert(scaled as int == (n as int * 100 + d as int / 2) / (d as int));
        assert((scaled % 100) % 10 == scaled % 10) by {
            assert(scaled % 100 == scaled - 100 * (scaled / 100));
        }
        assert(s@ =~= scaled_string(n as int, d as int));
    }
    s
}

/// The size of an entry in a human readable format: `"{n} Bytes"` up
/// to 1024 bytes, then KB, MB and GB with two decimal places.
pub fn get_entry_size(size: &u64) -> (s: String)
    ensures
        s@ == size_string(*size),
{
    if *size <= 1024 {
        let mut s = u64_to_dec(*size);
        s.append(" Bytes");
        proof {
            assert(s@ =~= size_string(*size));
        }
        s
    } else if *size <= 1048576 {
        let mut s = scaled_str(*size, 1024);
        s.append(" KB");
        s
    } else if *size <= 1073741824 {
        let mut s = scaled_str(*size, 1048576);
        s.append(" MB");
        s
    } else {
        let mut s = scaled_str(*size, 1073741824);
        s.append(" GB");
        s
    }
}

} // verus!
