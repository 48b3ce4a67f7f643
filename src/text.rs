//! Decimal text of integers and of document coordinates.
use vstd::prelude::*;

verus! {

/// Grid units in one unit of the output document (twice the grid size).
pub const DOC_SCALE: u64 = 32;

/// The character of a decimal digit.
pub open spec fn digit_char(d: nat) -> char {
    if d == 0 {
        '0'
    } else if d == 1 {
        '1'
    } else if d == 2 {
        '2'
    } else if d == 3 {
        '3'
    } else if d == 4 {
        '4'
    } else if d == 5 {
        '5'
    } else if d == 6 {
        '6'
    } else if d == 7 {
        '7'
    } else if d == 8 {
        '8'
    } else {
        '9'
    }
}

/// Decimal digits of `n`, most significant first, without leading zeros.
pub open spec fn decimal(n: nat) -> Seq<char>
    decreases n,
{
    if n < 10 {
        seq![digit_char(n)]
    } else {
        decimal(n / 10).push(digit_char(n % 10))
    }
}

/// The digits after the decimal point of `r / DOC_SCALE`, at most `steps` of
/// them; none when `r` is zero.
pub open spec fn fraction_digits(r: nat, steps: nat) -> Seq<char>
    decreases steps,
{
    if r == 0 || steps == 0 {
        seq![]
    } else {
        seq![digit_char((r * 10) / DOC_SCALE as nat)] + fraction_digits(
            (r * 10) % DOC_SCALE as nat,
            (steps - 1) as nat,
        )
    }
}

/// The text of the number `num / DOC_SCALE`, written exactly and as short as
/// possible: no fractional part when it is whole, no trailing zeros
/// otherwise (`-5`, `0.5`, `-0.03125`). Five digits always suffice, since
/// `DOC_SCALE` divides `10^5`.
pub open spec fn scaled_text(num: int) -> Seq<char> {
    let a = if num < 0 {
        -num
    } else {
        num
    };
    let whole = decimal((a / DOC_SCALE as int) as nat);
    let frac = (a % DOC_SCALE as int) as nat;
    let body = if frac == 0 {
        whole
    } else {
        whole + seq!['.'] + fraction_digits(frac, 5)
    };
    if num < 0 {
        seq!['-'] + body
    } else {
        body
    }
}

fn digit_str(d: u128) -> (r: &'static str)
    requires
        d < 10,
    ensures
        r@ == seq![digit_char(d as nat)],
{
    proof {
        reveal_strlit("0");
        reveal_strlit("1");
        reveal_strlit("2");
        reveal_strlit("3");
        reveal_strlit("4");
        reveal_strlit("5");
        reveal_strlit("6");
        reveal_strlit("7");
        reveal_strlit("8");
        reveal_strlit("9");
    }
    if d == 0 {
        "0"
    } else if d == 1 {
        "1"
    } else if d == 2 {
        "2"
    } else if d == 3 {
        "3"
    } else if d == 4 {
        "4"
    } else if d == 5 {
        "5"
    } else if d == 6 {
        "6"
    } else if d == 7 {
        "7"
    } else if d == 8 {
        "8"
    } else {
        "9"
    }
}

/// The decimal text of `n`.
pub fn decimal_string(n: u128) -> (r: String)
    ensures
        r@ == decimal(n as nat),
    decreases n,
{
    if n < 10 {
        String::from_str(digit_str(n))
    } else {
        let mut s = decimal_string(n / 10);
        s.append(digit_str(n % 10));
        s
    }
}

fn fraction_string(r: u128, steps: u128) -> (s: String)
    requires
        r < DOC_SCALE,
    ensures
        s@ == fraction_digits(r as nat, steps as nat),
    decreases steps,
{
    if r == 0 || steps == 0 {
        String::new()
    } else {
        let mut s = String::from_str(digit_str((r * 10) / 32));
        let rest = fraction_string((r * 10) % 32, steps - 1);
        s.append(rest.as_str());
        s
    }
}

/// The text of `num / DOC_SCALE`, as `scaled_text` describes it.
pub fn scaled_string(num: i128) -> (r: String)
    requires
        num > i128::MIN,
    ensures
        r@ == scaled_text(num as int),
{
    let a: u128 = if num < 0 {
        (-num) as u128
    } else {
        num as u128
    };
    let whole = decimal_string(a / 32);
    let frac = a % 32;
    let mut body = whole;
    if frac != 0 {
        proof {
            reveal_strlit(".");
        }
        body.append(".");
        let f = fraction_string(frac, 5);
        body.append(f.as_str());
    }
    if num < 0 {
        proof {
            reveal_strlit("-");
        }
        let mut s = String::from_str("-");
        s.append(body.as_str());
        s
    } else {
        body
    }
}

} // verus!
