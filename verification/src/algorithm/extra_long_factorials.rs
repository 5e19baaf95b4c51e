//! Factorials of any size, in decimal notation.

use crate::algorithm::decimal::{
    all_digits, append_digits, decimal_nat, digits_of, digits_text, lemma_digits_of,
};
use vstd::prelude::*;

verus! {

/// `n!`.
pub open spec fn factorial(n: nat) -> nat
    decreases n,
{
    if n == 0 {
        1
    } else {
        n * factorial((n - 1) as nat)
    }
}

/// Ten to the power `e`.
pub open spec fn pow10(e: nat) -> nat
    decreases e,
{
    if e == 0 {
        1
    } else {
        10 * pow10((e - 1) as nat)
    }
}

/// The number that a little-endian digit sequence stands for.
pub open spec fn number(digits: Seq<u8>) -> nat
    decreases digits.len(),
{
    if digits.len() == 0 {
        0
    } else {
        number(digits.drop_last()) + digits.last() as nat * pow10((digits.len() - 1) as nat)
    }
}

/// The number whose decimal notation `extra_long_factorials` returns.
pub open spec fn shown(n: i32) -> nat {
    if n == 0 {
        0
    } else if n < 0 {
        1
    } else {
        factorial(n as nat)
    }
}

pub proof fn lemma_number_bounded(digits: Seq<u8>)
    requires
        all_digits(digits),
    ensures
        number(digits) < pow10(digits.len()),
        digits.len() > 0 && digits.last() != 0 ==> number(digits) >= pow10(
            (digits.len() - 1) as nat,
        ),
    decreases digits.len(),
{
    if digits.len() > 0 {
        let rest = digits.drop_last();
        assert(all_digits(rest)) by {
            assert forall|i: int| 0 <= i < rest.len() implies #[trigger] rest[i] < 10 by {
                assert(rest[i] == digits[i]);
            }
        }
        lemma_number_bounded(rest);
        let p = pow10((digits.len() - 1) as nat);
        let d = digits.last() as nat;
        assert(digits[digits.len() - 1] < 10);
        assert(d * p <= 9 * p) by (nonlinear_arith)
            requires
                d <= 9,
                p >= 0,
        ;
        if d != 0 {
            assert(d * p >= p) by (nonlinear_arith)
                requires
                    d >= 1,
                    p >= 0,
            ;
        }
    }
}

/// The number of a digit sequence splits at its lowest digit.
pub proof fn lemma_number_low(digits: Seq<u8>)
    requires
        digits.len() > 0,
    ensures
        number(digits) == digits[0] as nat + 10 * number(digits.drop_first()),
    decreases digits.len(),
{
    if digits.len() == 1 {
        assert(digits.drop_last() =~= Seq::<u8>::empty());
        assert(digits.drop_first() =~= Seq::<u8>::empty());
        assert(number(Seq::<u8>::empty()) == 0);
        assert(pow10(0) == 1);
        assert(digits.last() == digits[0]);
        assert(number(digits) == number(digits.drop_last()) + digits.last() as nat * pow10(0));
    } else {
        let rest = digits.drop_last();
        let tail = digits.drop_first();
        lemma_number_low(rest);
        assert(rest.drop_first() =~= tail.drop_last());
        assert(rest[0] == digits[0]);
        let e = (digits.len() - 1) as nat;
        let d = digits.last() as nat;
        assert(tail.last() == digits.last());
        assert(number(digits) == number(rest) + d * pow10(e));
        assert(number(tail) == number(tail.drop_last()) + d * pow10((e - 1) as nat));
        assert(pow10(e) == 10 * pow10((e - 1) as nat));
        assert(d * (10 * pow10((e - 1) as nat)) == 10 * (d * pow10((e - 1) as nat)))
            by (nonlinear_arith);
    }
}

/// Digits without a leading zero are the digits of their number.
pub proof fn lemma_canonical(digits: Seq<u8>)
    requires
        all_digits(digits),
        digits.len() > 0,
        digits.last() != 0,
    ensures
        digits == digits_of(number(digits)),
    decreases digits.len(),
{
    lemma_number_low(digits);
    let rest = digits.drop_first();
    assert(digits[0] < 10);
    if digits.len() == 1 {
        assert(rest =~= Seq::<u8>::empty());
        assert(digits =~= seq![digits[0]]);
    } else {
        assert(all_digits(rest)) by {
            assert forall|i: int| 0 <= i < rest.len() implies #[trigger] rest[i] < 10 by {
                assert(rest[i] == digits[i + 1]);
            }
        }
        assert(rest.last() == digits.last());
        lemma_canonical(rest);
        lemma_number_bounded(rest);
        let n = number(digits);
        let m = number(rest);
        assert(m >= 1) by {
            assert(pow10((rest.len() - 1) as nat) >= 1) by {
                lemma_pow10_positive((rest.len() - 1) as nat);
            }
        }
        assert(n / 10 == m && n % 10 == digits[0] as nat) by (nonlinear_arith)
            requires
                n == digits[0] as nat + 10 * m,
                digits[0] < 10,
        ;
        assert(digits =~= seq![digits[0]] + rest);
    }
}

pub proof fn lemma_pow10_positive(e: nat)
    ensures
        pow10(e) >= 1,
    decreases e,
{
    if e > 0 {
        lemma_pow10_positive((e - 1) as nat);
    }
}

/// Multiplies the number held in `digits` by `factor`.
pub fn multiply(digits: &mut Vec<u8>, factor: u32)
    requires
        all_digits(old(digits)@),
        old(digits)@.len() > 0,
        old(digits)@.last() != 0,
        factor >= 1,
    ensures
        all_digits(final(digits)@),
        final(digits)@.len() > 0,
        final(digits)@.last() != 0,
        number(final(digits)@) == factor * number(old(digits)@),
{
    let ghost before = digits@;
    let len = digits.len();
    let mut carry: u64 = 0;
    let mut i: usize = 0;
    proof {
        assert(digits@.take(0) =~= Seq::<u8>::empty());
        assert(number(digits@.take(0)) == 0);
        assert(factor * number(before.take(0)) == 0) by (nonlinear_arith)
            requires
                number(before.take(0)) == 0,
        ;
        assert(carry * pow10(0) == 0) by (nonlinear_arith)
            requires
                carry == 0,
        ;
    }
    while i < len
        invariant
            i <= len,
            len == before.len(),
            digits@.len() == len,
            all_digits(before),
            forall|j: int| 0 <= j < i ==> #[trigger] digits@[j] < 10,
            forall|j: int| i <= j < len ==> #[trigger] digits@[j] == before[j],
            carry < factor,
            factor >= 1,
            number(digits@.take(i as int)) + carry * pow10(i as nat) == factor * number(
                before.take(i as int),
            ),
        decreases len - i,
    {
        let ghost d = before[i as int];
        assert(before[i as int] < 10);
        assert(digits@[i as int] == d);
        assert(d as u64 * factor as u64 <= 9 * factor as u64) by (nonlinear_arith)
            requires
                d <= 9,
        ;
        let product: u64 = digits[i] as u64 * factor as u64 + carry;
        let ghost taken = digits@.take(i as int);
        digits[i] = (product % 10) as u8;
        let ghost sum_before = carry as nat;
        carry = product / 10;
        proof {
            assert(digits@.take(i + 1).drop_last() =~= taken);
            assert(before.take(i + 1).drop_last() =~= before.take(i as int));
            let p = pow10(i as nat);
            let f = factor as nat;
            let low = (product % 10) as nat;
            let high = (product / 10) as nat;
            let nb = number(before.take(i as int));
            assert(pow10((i + 1) as nat) == 10 * p);
            assert(low * p + high * (10 * p) == (d as nat * f + sum_before) * p)
                by (nonlinear_arith)
                requires
                    low + 10 * high == d as nat * f + sum_before,
            ;
            assert(f * (nb + d as nat * p) == f * nb + (d as nat * f) * p) by (nonlinear_arith);
            assert((d as nat * f + sum_before) * p == (d as nat * f) * p + sum_before * p)
                by (nonlinear_arith);
        }
        i = i + 1;
    }
    proof {
        assert(digits@.take(len as int) =~= digits@);
        assert(before.take(len as int) =~= before);
        lemma_number_bounded(before);
        if carry == 0 {
            // the product is no less than the number was, so its top digit stands
            lemma_number_bounded(digits@);
            let top = digits@.last();
            let rest = digits@.drop_last();
            assert(all_digits(rest)) by {
                assert forall|j: int| 0 <= j < rest.len() implies #[trigger] rest[j] < 10 by {
                    assert(rest[j] == digits@[j]);
                }
            }
            lemma_number_bounded(rest);
            let f = factor as nat;
            let nb = number(before);
            assert(f * nb >= nb) by (nonlinear_arith)
                requires
                    f >= 1,
            ;
            if top == 0 {
                assert(top as nat * pow10((len - 1) as nat) == 0) by (nonlinear_arith)
                    requires
                        top == 0,
                ;
                assert(false);
            }
        }
    }
    while carry > 0
        invariant
            all_digits(digits@),
            digits@.len() > 0,
            carry == 0 ==> digits@.last() != 0,
            number(digits@) + carry * pow10(digits@.len()) == factor * number(before),
        decreases carry,
    {
        let ghost held = digits@;
        let ghost c = carry as nat;
        digits.push((carry % 10) as u8);
        carry = carry / 10;
        proof {
            assert(digits@.drop_last() =~= held);
            let p = pow10(held.len());
            let low = (c % 10) as nat;
            let high = (c / 10) as nat;
            assert(pow10(digits@.len()) == 10 * p);
            assert(low * p + high * (10 * p) == c * p) by (nonlinear_arith)
                requires
                    low + 10 * high == c,
            ;
        }
    }
}

/// The decimal notation of `n!` for `n >= 1`; `"0"` for zero and `"1"` for a
/// negative `n`.
pub fn extra_long_factorials(n: i32) -> (text: String)
    ensures
        text@ == decimal_nat(shown(n)),
{
    let mut digits: Vec<u8> = Vec::new();
    if n == 0 {
        digits.push(0);
        proof {
            assert(digits@ =~= digits_of(0));
            lemma_digits_of(0);
        }
    } else {
        digits.push(1);
        proof {
            assert(digits@.drop_last() =~= Seq::<u8>::empty());
            assert(number(Seq::<u8>::empty()) == 0);
            assert(pow10(0) == 1);
            assert(number(digits@) == number(digits@.drop_last()) + digits@.last() as nat * pow10(
                0,
            ));
            assert(number(digits@) == 1);
            assert(factorial(1) == 1) by {
                reveal_with_fuel(factorial, 2);
            }
        }
        let mut factor: i32 = 1;
        while factor < n
            invariant
                1 <= factor,
                n < 0 || factor <= n,
                all_digits(digits@),
                digits@.len() > 0,
                digits@.last() != 0,
                number(digits@) == if n < 0 {
                    1
                } else {
                    factorial(factor as nat)
                },
            decreases n - factor,
        {
            factor = factor + 1;
            multiply(&mut digits, factor as u32);
        }
        proof {
            lemma_canonical(digits@);
            lemma_digits_of(number(digits@));
        }
    }
    let mut text = String::new();
    append_digits(&mut text, &digits);
    proof {
        assert(text@ =~= digits_text(digits@));
    }
    text
}

} // verus!
