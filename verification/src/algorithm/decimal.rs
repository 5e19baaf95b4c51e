//! Decimal notation for integers.

use vstd::prelude::*;
use vstd::string::StringExecFns;

verus! {

/// The character for a single decimal digit.
pub open spec fn digit_char(d: int) -> char {
    if d == 0 {
        '0'
    } else if d == 1 {
        '1'
    } else if d == 2 {
        '2'
    } else if d == 3 {
        '3'
    } else if d == 4 {
        '4'
    } else if d == 5 {
        '5'
    } else if d == 6 {
        '6'
    } else if d == 7 {
        '7'
    } else if d == 8 {
        '8'
    } else {
        '9'
    }
}

/// Decimal notation of a natural number, without leading zeros.
pub open spec fn decimal_nat(n: nat) -> Seq<char>
    decreases n,
{
    if n < 10 {
        seq![digit_char(n as int)]
    } else {
        decimal_nat(n / 10).push(digit_char((n % 10) as int))
    }
}

/// Decimal notation of an integer, with a leading minus sign when negative.
pub open spec fn decimal(v: int) -> Seq<char> {
    if v < 0 {
        seq!['-'] + decimal_nat((-v) as nat)
    } else {
        decimal_nat(v as nat)
    }
}

/// The digits of `n`, least significant first.
pub open spec fn digits_of(n: nat) -> Seq<u8>
    decreases n,
{
    if n < 10 {
        seq![n as u8]
    } else {
        seq![(n % 10) as u8] + digits_of(n / 10)
    }
}

/// The text that shows a little-endian digit sequence most significant
/// digit first.
pub open spec fn digits_text(digits: Seq<u8>) -> Seq<char> {
    Seq::new(digits.len(), |i: int| digit_char(digits[digits.len() - 1 - i] as int))
}

pub open spec fn all_digits(digits: Seq<u8>) -> bool {
    forall|i: int| 0 <= i < digits.len() ==> #[trigger] digits[i] < 10
}

pub proof fn lemma_digits_of(n: nat)
    ensures
        digits_of(n).len() >= 1,
        all_digits(digits_of(n)),
        digits_text(digits_of(n)) == decimal_nat(n),
    decreases n,
{
    if n >= 10 {
        lemma_digits_of(n / 10);
        let rest = digits_of(n / 10);
        let all = digits_of(n);
        assert(all =~= seq![(n % 10) as u8] + rest);
        assert(digits_text(all) =~= digits_text(rest).push(digit_char((n % 10) as int)));
    } else {
        assert(digits_text(digits_of(n)) =~= seq![digit_char(n as int)]);
    }
}

/// The one-character text of a digit.
fn digit_str(d: u8) -> (r: &'static str)
    requires
        d < 10,
    ensures
        r@ == seq![digit_char(d as int)],
{
    proof {
        reveal_strlit("0");
        reveal_strlit("1");
        reveal_strlit("2");
        reveal_strlit("3");
        reveal_strlit("4");
        reveal_strlit("5");
        reveal_strlit("6");
        reveal_strlit("7");
        reveal_strlit("8");
        reveal_strlit("9");
    }
    let r = if d == 0 {
        "0"
    } else if d == 1 {
        "1"
    } else if d == 2 {
        "2"
    } else if d == 3 {
        "3"
    } else if d == 4 {
        "4"
    } else if d == 5 {
        "5"
    } else if d == 6 {
        "6"
    } else if d == 7 {
        "7"
    } else if d == 8 {
        "8"
    } else {
        "9"
    };
    assert(r@ =~= seq![digit_char(d as int)]);
    r
}

/// Appends to `out` the text of a little-endian digit sequence, most
/// significant digit first.
pub fn append_digits(out: &mut String, digits: &Vec<u8>)
    requires
        all_digits(digits@),
    ensures
        final(out)@ == old(out)@ + digits_text(digits@),
{
    let n = digits.len();
    let mut i: usize = 0;
    while i < n
        invariant
            i <= n,
            n == digits.len(),
            all_digits(digits@),
            out@ == old(out)@ + digits_text(digits@).take(i as int),
        decreases n - i,
    {
        let d = digits[n - 1 - i];
        let ghost before = out@;
        out.append(digit_str(d));
        proof {
            assert(digits_text(digits@).take(i + 1) =~= digits_text(digits@).take(i as int).push(
                digit_char(d as int),
            ));
            assert(out@ =~= old(out)@ + digits_text(digits@).take(i + 1));
        }
        i = i + 1;
    }
    proof {
        assert(digits_text(digits@).take(n as int) =~= digits_text(digits@));
    }
}

/// The digits of `n`, least significant first.
pub fn digits_of_u64(n: u64) -> (digits: Vec<u8>)
    ensures
        digits@ == digits_of(n as nat),
{
    let mut digits: Vec<u8> = Vec::new();
    let mut rest: u64 = n;
    digits.push((rest % 10) as u8);
    rest = rest / 10;
    proof {
        reveal_with_fuel(digits_of, 2);
        if n >= 10 {
            assert(digits_of(n as nat) =~= digits@ + digits_of(rest as nat));
        } else {
            assert(digits_of(n as nat) =~= digits@);
        }
    }
    while rest > 0
        invariant
            digits_of(n as nat) == if rest > 0 {
                digits@ + digits_of(rest as nat)
            } else {
                digits@
            },
        decreases rest,
    {
        let ghost before = digits@;
        let ghost r0 = rest as nat;
        digits.push((rest % 10) as u8);
        rest = rest / 10;
        proof {
            if r0 >= 10 {
                assert(digits_of(r0) =~= seq![(r0 % 10) as u8] + digits_of(r0 / 10));
                assert(before + digits_of(r0) =~= digits@ + digits_of(rest as nat));
            } else {
                assert(digits_of(r0) =~= seq![r0 as u8]);
                assert(before + digits_of(r0) =~= digits@);
            }
        }
    }
    digits
}

/// The decimal notation of `v`.
pub fn to_decimal(v: i64) -> (s: String)
    ensures
        s@ == decimal(v as int),
{
    let mut s = String::new();
    let magnitude: u64 = if v < 0 {
        proof {
            reveal_strlit("-");
        }
        s.append("-");
        (-(v as i128)) as u64
    } else {
        v as u64
    };
    let digits = digits_of_u64(magnitude);
    proof {
        lemma_digits_of(magnitude as nat);
    }
    append_digits(&mut s, &digits);
    proof {
        if v < 0 {
            assert(s@ =~= seq!['-'] + decimal_nat((-v) as nat));
        } else {
            assert(s@ =~= decimal_nat(v as nat));
        }
    }
    s
}

} // verus!
