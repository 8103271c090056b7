//! Text for the file selector.

use vstd::arithmetic::div_mod::lemma_div_is_ordered_by_denominator;
use vstd::prelude::*;
use vstd::string::StringExecFns;

verus! {

/// The decimal digit `d`, for `d < 10`.
pub open spec fn digit_char(d: nat) -> char {
    if d == 0 {
        '0'
    } else if d == 1 {
        '1'
    } else if d == 2 {
        '2'
    } else if d == 3 {
        '3'
    } else if d == 4 {
        '4'
    } else if d == 5 {
        '5'
    } else if d == 6 {
        '6'
    } else if d == 7 {
        '7'
    } else if d == 8 {
        '8'
    } else {
        '9'
    }
}

/// `n` written in decimal, without leading zeros.
pub open spec fn decimal(n: nat) -> Seq<char>
    decreases n,
{
    if n < 10 {
        seq![digit_char(n)]
    } else {
        decimal(n / 10) + seq![digit_char(n % 10)]
    }
}

/// `num / den` rounded to the nearest integer, ties to the even one.
pub open spec fn round_half_even(num: nat, den: nat) -> nat {
    let q = num / den;
    let r = num % den;
    if 2 * r > den || (2 * r == den && q % 2 == 1) {
        q + 1
    } else {
        q
    }
}

/// `size` bytes for people to read: a whole number of bytes below 1024, and
/// above that the number of KiB, MiB or GiB (powers of 1024) rounded to two
/// decimals, ties to even.
pub open spec fn size_text(size: nat) -> Seq<char> {
    if size < 1024 {
        decimal(size) + seq![' ', 'B']
    } else {
        let (unit, name) = if size < 1024 * 1024 {
            (1024nat, seq!['K', 'i', 'B'])
        } else if size < 1024 * 1024 * 1024 {
            (1024 * 1024nat, seq!['M', 'i', 'B'])
        } else {
            (1024 * 1024 * 1024nat, seq!['G', 'i', 'B'])
        };
        let h = round_half_even(size * 100, unit);
        decimal(h / 100) + seq!['.', digit_char((h % 100) / 10), digit_char(h % 10), ' '] + name
    }
}

/// The text of the digit `d`.
fn digit_str(d: u64) -> (r: &'static str)
    requires
        d < 10,
    ensures
        r@ == seq![digit_char(d as nat)],
{
    proof {
        reveal_strlit("0");
        reveal_strlit("1");
        reveal_strlit("2");
        reveal_strlit("3");
        reveal_strlit("4");
        reveal_strlit("5");
        reveal_strlit("6");
        reveal_strlit("7");
        reveal_strlit("8");
        reveal_strlit("9");
    }
    if d == 0 {
        "0"
    } else if d == 1 {
        "1"
    } else if d == 2 {
        "2"
    } else if d == 3 {
        "3"
    } else if d == 4 {
        "4"
    } else if d == 5 {
        "5"
    } else if d == 6 {
        "6"
    } else if d == 7 {
        "7"
    } else if d == 8 {
        "8"
    } else {
        "9"
    }
}

/// Appends `n` in decimal to `s`.
fn push_decimal(s: &mut String, n: u64)
    ensures
        final(s)@ == old(s)@ + decimal(n as nat),
    decreases n,
{
    if n >= 10 {
        push_decimal(s, n / 10);
    }
    s.append(digit_str(n % 10));
    proof {
        if n >= 10 {
            assert(final(s)@ =~= old(s)@ + decimal(n as nat));
        }
    }
}

/// A byte size for people to read (see `size_text`).
pub fn format_size(size: u64) -> (r: String)
    ensures
        r@ == size_text(size as nat),
{
    let mut s = String::new();
    if size < 1024 {
        push_decimal(&mut s, size);
        proof {
            reveal_strlit(" B");
        }
        s.append(" B");
        return s;
    }
    let (unit, name): (u128, &str) = if size < 1024 * 1024 {
        (1024, " KiB")
    } else if size < 1024 * 1024 * 1024 {
        (1024 * 1024, " MiB")
    } else {
        (1024 * 1024 * 1024, " GiB")
    };
    let num = size as u128 * 100;
    let q = num / unit;
    let rem = num % unit;
    let h = if 2 * rem > unit || (2 * rem == unit && q % 2 == 1) {
        q + 1
    } else {
        q
    };
    proof {
        assert(q <= num / 1024) by {
            lemma_div_is_ordered_by_denominator(num as int, 1024, unit as int);
        }
        assert(num / 1024 < 0x8000_0000_0000_0000int);
    }
    let h = h as u64;
    push_decimal(&mut s, h / 100);
    s.append(".");
    s.append(digit_str((h % 100) / 10));
    s.append(digit_str(h % 10));
    s.append(name);
    proof {
        reveal_strlit(".");
        reveal_strlit(" KiB");
        reveal_strlit(" MiB");
        reveal_strlit(" GiB");
        assert(s@ =~= size_text(size as nat));
    }
    s
}

} // verus!
