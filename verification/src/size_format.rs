//! Rendering of byte counts with thousands separators.
//!
//! A number is split into groups of three decimal digits from the least
//! significant end; groups are joined with commas and only the most
//! significant group drops its leading zeros. Zero renders as "0".

use vstd::prelude::*;
use vstd::string::*;

verus! {

/// The decimal digit character for `d` (`d < 10`).
pub open spec fn digit_char(d: nat) -> char {
    if d == 0 {
        '0'
    } else if d == 1 {
        '1'
    } else if d == 2 {
        '2'
    } else if d == 3 {
        '3'
    } else if d == 4 {
        '4'
    } else if d == 5 {
        '5'
    } else if d == 6 {
        '6'
    } else if d == 7 {
        '7'
    } else if d == 8 {
        '8'
    } else {
        '9'
    }
}

/// The plain decimal representation of `n`, without separators.
pub open spec fn dec_rep(n: nat) -> Seq<char>
    decreases n,
{
    if n < 10 {
        seq![digit_char(n)]
    } else {
        dec_rep(n / 10).push(digit_char(n % 10))
    }
}

/// A zero-padded group of exactly three decimal digits (`n < 1000`).
pub open spec fn group3(n: nat) -> Seq<char> {
    seq![
        digit_char(n / 100 % 10),
        digit_char(n / 10 % 10),
        digit_char(n % 10),
    ]
}

/// The comma-grouped decimal representation of `n`: groups of three
/// digits from the least significant end, the most significant group
/// unpadded.
pub open spec fn format_size_spec(n: nat) -> Seq<char>
    decreases n,
{
    if n < 1000 {
        dec_rep(n)
    } else {
        format_size_spec(n / 1000) + seq![','] + group3(n % 1000)
    }
}

/// A one-character string slice for the digit `d`.
fn digit_str(d: u64) -> (r: &'static str)
    requires
        d < 10,
    ensures
        r@ == seq![digit_char(d as nat)],
{
    if d == 0 {
        proof {
            reveal_strlit("0");
        }
        assert(("0")@ =~= seq![digit_char(0)]);
        "0"
    } else if d == 1 {
        proof {
            reveal_strlit("1");
        }
        assert(("1")@ =~= seq![digit_char(1)]);
        "1"
    } else if d == 2 {
        proof {
            reveal_strlit("2");
        }
        assert(("2")@ =~= seq![digit_char(2)]);
        "2"
    } else if d == 3 {
        proof {
            reveal_strlit("3");
        }
        assert(("3")@ =~= seq![digit_char(3)]);
        "3"
    } else if d == 4 {
        proof {
            reveal_strlit("4");
        }
        assert(("4")@ =~= seq![digit_char(4)]);
        "4"
    } else if d == 5 {
        proof {
            reveal_strlit("5");
        }
        assert(("5")@ =~= seq![digit_char(5)]);
        "5"
    } else if d == 6 {
        proof {
            reveal_strlit("6");
        }
        assert(("6")@ =~= seq![digit_char(6)]);
        "6"
    } else if d == 7 {
        proof {
            reveal_strlit("7");
        }
        assert(("7")@ =~= seq![digit_char(7)]);
        "7"
    } else if d == 8 {
        proof {
            reveal_strlit("8");
        }
        assert(("8")@ =~= seq![digit_char(8)]);
        "8"
    } else {
        proof {
            reveal_strlit("9");
        }
        assert(("9")@ =~= seq![digit_char(9)]);
        "9"
    }
}

/// The plain decimal rendering of `n`.
fn dec_string(n: u64) -> (r: String)
    ensures
        r@ == dec_rep(n as nat),
    decreases n,
{
    if n < 10 {
        let mut s = String::new();
        s.append(digit_str(n));
        assert(s@ =~= dec_rep(n as nat));
        s
    } else {
        let mut s = dec_string(n / 10);
        s.append(digit_str(n % 10));
        assert(s@ =~= dec_rep(n as nat));
        s
    }
}

/// Renders `n` in decimal with commas between groups of three digits,
/// zero-padding every group but the most significant one.
pub fn format_size(n: u64) -> (r: String)
    ensures
        r@ == format_size_spec(n as nat),
    decreases n,
{
    if n < 1000 {
        dec_string(n)
    } else {
        let mut s = format_size(n / 1000);
        s.append(",");
        let g = n % 1000;
        s.append(digit_str(g / 100 % 10));
        s.append(digit_str(g / 10 % 10));
        s.append(digit_str(g % 10));
        proof {
            reveal_strlit(",");
        }
        assert(s@ =~= format_size_spec(n as nat));
        s
    }
}

} // verus!
