//! Decimal digits and decimal rendering.
//!
//! The specification side gives the decimal digit sequence of a number and
//! the numeric value of a digit string; the executable side renders a `u32`
//! onto a `String` and is proved to produce exactly that digit sequence.

use vstd::prelude::*;
use vstd::string::StringExecFns;

verus! {

/// True of the ten ascii digit characters `'0'` through `'9'`.
pub open spec fn is_digit(c: char) -> bool {
    ('0' as u32) <= (c as u32) && (c as u32) <= ('9' as u32)
}

/// The numeric value of a digit character (`'7'` is 7).
pub open spec fn digit_val(c: char) -> nat {
    (c as u32 - '0' as u32) as nat
}

/// The digit character of a value below ten (7 is `'7'`).
pub open spec fn digit_char(d: nat) -> char {
    if d == 0 {
        '0'
    } else if d == 1 {
        '1'
    } else if d == 2 {
        '2'
    } else if d == 3 {
        '3'
    } else if d == 4 {
        '4'
    } else if d == 5 {
        '5'
    } else if d == 6 {
        '6'
    } else if d == 7 {
        '7'
    } else if d == 8 {
        '8'
    } else {
        '9'
    }
}

/// The decimal rendering of a number: its digit characters, most
/// significant first, with no sign and no leading zero (except for 0
/// itself, rendered as the single digit `'0'`).
pub open spec fn dec_seq(n: nat) -> Seq<char>
    decreases n,
{
    if n < 10 {
        seq![digit_char(n)]
    } else {
        dec_seq(n / 10) + seq![digit_char(n % 10)]
    }
}

/// The numeric value of a string of digit characters, read most
/// significant first; leading zeros are allowed and do not change it.
pub open spec fn part_num(p: Seq<char>) -> nat
    decreases p.len(),
{
    if p.len() == 0 {
        0
    } else {
        part_num(p.drop_last()) * 10 + digit_val(p.last())
    }
}

/// A digit string that may still grow into a valid part: every character
/// so far is a digit, and the value so far fits in a `u32`.
pub open spec fn part_pending_ok(p: Seq<char>) -> bool {
    (forall|i: int| 0 <= i < p.len() ==> is_digit(#[trigger] p[i])) && part_num(p) <= u32::MAX
}

/// The digit characters of a split part: the part itself, with a single
/// leading `'+'` removed if it has one (a `u32` parse accepts one).
pub open spec fn part_digits(p: Seq<char>) -> Seq<char> {
    if p.len() > 0 && p[0] == '+' {
        p.skip(1)
    } else {
        p
    }
}

/// A split part that parses as a `u32`: an optional single leading `'+'`,
/// then one or more digits, whose value fits.
pub open spec fn part_ok(p: Seq<char>) -> bool {
    part_digits(p).len() > 0 && part_pending_ok(part_digits(p))
}

proof fn lemma_digit_char_val(d: nat)
    requires
        d < 10,
    ensures
        is_digit(digit_char(d)),
        digit_val(digit_char(d)) == d,
        digit_char(d) != 'd',
{
}

/// The decimal rendering of a number is a non-empty string of digit
/// characters whose value is that number.
pub proof fn lemma_dec_seq_props(n: nat)
    ensures
        dec_seq(n).len() >= 1,
        forall|i: int| 0 <= i < dec_seq(n).len() ==> is_digit(#[trigger] dec_seq(n)[i]),
        part_num(dec_seq(n)) == n,
    decreases n,
{
    if n < 10 {
        lemma_digit_char_val(n);
        assert(dec_seq(n) =~= seq![digit_char(n)]);
        assert(dec_seq(n).drop_last() =~= Seq::<char>::empty());
        assert(part_num(dec_seq(n)) == part_num(Seq::<char>::empty()) * 10 + digit_val(
            digit_char(n),
        ));
    } else {
        lemma_dec_seq_props(n / 10);
        lemma_digit_char_val(n % 10);
        assert(dec_seq(n).drop_last() =~= dec_seq(n / 10));
        assert(dec_seq(n).last() == digit_char(n % 10));
        assert(part_num(dec_seq(n)) == part_num(dec_seq(n / 10)) * 10 + digit_val(
            digit_char(n % 10),
        ));
        vstd::arithmetic::div_mod::lemma_fundamental_div_mod(n as int, 10);
    }
}

/// The single-character string of a digit value below ten.
fn digit_str(d: u32) -> (r: &'static str)
    requires
        d < 10,
    ensures
        r@ == seq![digit_char(d as nat)],
{
    proof {
        reveal_strlit("0");
        reveal_strlit("1");
        reveal_strlit("2");
        reveal_strlit("3");
        reveal_strlit("4");
        reveal_strlit("5");
        reveal_strlit("6");
        reveal_strlit("7");
        reveal_strlit("8");
        reveal_strlit("9");
    }
    let r = match d {
        0 => "0",
        1 => "1",
        2 => "2",
        3 => "3",
        4 => "4",
        5 => "5",
        6 => "6",
        7 => "7",
        8 => "8",
        _ => "9",
    };
    proof {
        assert(r@ =~= seq![digit_char(d as nat)]);
    }
    r
}

/// Appends the decimal rendering of `n` to `out`.
pub fn push_decimal(out: &mut String, n: u32)
    ensures
        final(out)@ == old(out)@ + dec_seq(n as nat),
    decreases n,
{
    if n >= 10 {
        push_decimal(out, n / 10);
        out.append(digit_str(n % 10));
        proof {
            assert(out@ =~= old(out)@ + dec_seq(n as nat));
        }
    } else {
        out.append(digit_str(n));
        proof {
            assert(out@ =~= old(out)@ + dec_seq(n as nat));
        }
    }
}

} // verus!
