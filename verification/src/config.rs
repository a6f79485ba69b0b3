//! Configuration checks on integer ranges, with their error messages.
use vstd::prelude::*;

verus! {

/// The decimal digit character for `d` (below ten).
pub open spec fn digit_char(d: nat) -> char {
    if d == 0 {
        '0'
    } else if d == 1 {
        '1'
    } else if d == 2 {
        '2'
    } else if d == 3 {
        '3'
    } else if d == 4 {
        '4'
    } else if d == 5 {
        '5'
    } else if d == 6 {
        '6'
    } else if d == 7 {
        '7'
    } else if d == 8 {
        '8'
    } else {
        '9'
    }
}

/// Decimal rendering of `n`, without leading zeros.
pub open spec fn decimal(n: nat) -> Seq<char>
    decreases n,
{
    if n < 10 {
        seq![digit_char(n)]
    } else {
        decimal(n / 10).push(digit_char(n % 10))
    }
}

/// Message reported for a range whose minimum exceeds its maximum.
pub open spec fn range_message(name: Seq<char>, lo: u32, hi: u32) -> Seq<char> {
    name + ": min ("@ + decimal(lo as nat) + ") must be <= max ("@ + decimal(hi as nat) + ")"@
}

fn digit_str(d: u32) -> (s: &'static str)
    requires
        d < 10,
    ensures
        s@ == seq![digit_char(d as nat)],
{
    if d == 0 {
        proof { reveal_strlit("0"); }
        "0"
    } else if d == 1 {
        proof { reveal_strlit("1"); }
        "1"
    } else if d == 2 {
        proof { reveal_strlit("2"); }
        "2"
    } else if d == 3 {
        proof { reveal_strlit("3"); }
        "3"
    } else if d == 4 {
        proof { reveal_strlit("4"); }
        "4"
    } else if d == 5 {
        proof { reveal_strlit("5"); }
        "5"
    } else if d == 6 {
        proof { reveal_strlit("6"); }
        "6"
    } else if d == 7 {
        proof { reveal_strlit("7"); }
        "7"
    } else if d == 8 {
        proof { reveal_strlit("8"); }
        "8"
    } else {
        proof { reveal_strlit("9"); }
        "9"
    }
}

/// Append the decimal rendering of `n` to `s`.
fn push_decimal(s: &mut String, n: u32)
    ensures
        final(s)@ == old(s)@ + decimal(n as nat),
    decreases n,
{
    if n >= 10 {
        push_decimal(s, n / 10);
    }
    s.append(digit_str(n % 10));
    proof {
        if n >= 10 {
            assert(old(s)@ + decimal((n / 10) as nat) + seq![digit_char((n % 10) as nat)] == old(s)@ + decimal(
                n as nat,
            ));
        } else {
            assert(decimal(n as nat) == seq![digit_char(n as nat)]);
        }
    }
}

/// Record an error when a `[min, max]` range has `min > max`.
pub fn validate_range_u32(errors: &mut Vec<String>, name: &str, range: &[u32; 2])
    ensures
        range@[0] > range@[1] ==> final(errors)@.len() == old(errors)@.len() + 1 && final(errors)@.subrange(
            0,
            old(errors)@.len() as int,
        ) == old(errors)@ && final(errors)@.last()@ == range_message(name@, range@[0], range@[1]),
        range@[0] <= range@[1] ==> final(errors)@ == old(errors)@,
{
    if range[0] > range[1] {
        let mut msg = String::new();
        msg.append(name);
        msg.append(": min (");
        push_decimal(&mut msg, range[0]);
        msg.append(") must be <= max (");
        push_decimal(&mut msg, range[1]);
        msg.append(")");
        proof {
            assert(msg@ =~= range_message(name@, range@[0], range@[1]));
        }
        errors.push(msg);
        assert(errors@.subrange(0, old(errors)@.len() as int) =~= old(errors)@);
    }
}

} // verus!
