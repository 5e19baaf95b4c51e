//! Counting, for ranges of a text, the longest palindromes that the letters
//! of the range can be arranged into, modulo a prime.

use crate::algorithm::string_construction::all_letters;
use crate::algorithm::text::{
    chars_of, is_letter, lemma_letters, letter, letter_index, letter_index_of, tally,
};
use vstd::arithmetic::div_mod::lemma_mul_mod_noop_general;
use vstd::arithmetic::power::{lemma_pow_mod_noop, lemma_pow_multiplies, lemma_square_is_pow2, pow};
use vstd::prelude::*;

verus! {

/// The modulus of all counts.
pub const MOD: i64 = 1000000007;

/// The largest number of letter pairs a range may hold.
pub const MAX_PAIRS: usize = 100000;

/// `n!` modulo `MOD`.
pub open spec fn factorial_mod(n: nat) -> int
    decreases n,
{
    if n == 0 {
        1
    } else {
        (factorial_mod((n - 1) as nat) * n) % (MOD as int)
    }
}

/// What `mod_pow` returns: one for an exponent that is not positive, and
/// otherwise the power reduced by the modulus.
pub open spec fn power_mod(base: int, exp: int, modulo: int) -> int {
    if exp <= 0 {
        1
    } else {
        pow(base, exp as nat) % modulo
    }
}

/// The factor that stands for dividing by `n!`: one for zero, and
/// otherwise `n!` raised to `MOD - 2`.
pub open spec fn inverse_factorial_mod(n: nat) -> int {
    if n == 0 {
        1
    } else {
        power_mod(factorial_mod(n), MOD - 2, MOD as int)
    }
}

proof fn lemma_square_step(r: int, b: int, q: nat, m: int)
    requires
        m > 0,
    ensures
        (r * pow((b * b) % m, q)) % m == (r * pow(b, 2 * q)) % m,
{
    lemma_mul_mod_noop_general(r, pow((b * b) % m, q), m);
    lemma_pow_mod_noop(b * b, q, m);
    lemma_mul_mod_noop_general(r, pow(b * b, q), m);
    lemma_square_is_pow2(b);
    lemma_pow_multiplies(b, 2, q);
}

/// `base` to the power `exp`, modulo `modulo`, by repeated squaring.
pub fn mod_pow(base: i64, exp: i64, modulo: i64) -> (result: i64)
    requires
        base >= 0,
        modulo >= 1,
        (modulo - 1) * (modulo - 1) <= i64::MAX,
    ensures
        result == power_mod(base as int, exp as int, modulo as int),
{
    let ghost given = base as int;
    let mut result: i64 = 1;
    let mut base: i64 = base % modulo;
    let mut exp: i64 = exp;
    if exp <= 0 {
        return result;
    }
    let ghost start = base as int;
    let ghost e0 = exp as nat;
    proof {
        assert(1 * pow(start, e0) == pow(start, e0));
    }
    while exp > 0
        invariant
            modulo >= 1,
            (modulo - 1) * (modulo - 1) <= i64::MAX,
            0 <= base < modulo,
            0 <= exp,
            0 <= result,
            result < modulo || (result == 1 && exp > 0),
            (result * pow(base as int, exp as nat)) % (modulo as int) == pow(start, e0) % (
            modulo as int),
        decreases exp,
    {
        let ghost r = result as int;
        let ghost b = base as int;
        let ghost e = exp as nat;
        let ghost m = modulo as int;
        let ghost q = (e / 2) as nat;
        proof {
            assert(0 <= result * base <= (modulo - 1) * (modulo - 1)) by (nonlinear_arith)
                requires
                    0 <= result < modulo || result == 1,
                    0 <= base < modulo,
                    modulo >= 1,
                    base == 0 || modulo >= 2,
            ;
            assert(0 <= base * base <= (modulo - 1) * (modulo - 1)) by (nonlinear_arith)
                requires
                    0 <= base < modulo,
            ;
        }
        if exp % 2 == 1 {
            result = (result * base) % modulo;
            proof {
                assert(e == 2 * q + 1);
                assert(pow(b, e) == b * pow(b, (2 * q) as nat)) by {
                    reveal(pow);
                }
                assert(r * (b * pow(b, (2 * q) as nat)) == (r * b) * pow(b, (2 * q) as nat))
                    by (nonlinear_arith);
                lemma_square_step(r * b, b, q, m);
                lemma_mul_mod_noop_general(r * b, pow((b * b) % m, q), m);
            }
        } else {
            proof {
                assert(e == 2 * q);
                lemma_square_step(r, b, q, m);
            }
        }
        exp = exp / 2;
        base = (base * base) % modulo;
    }
    proof {
        assert(pow(base as int, 0) == 1) by {
            reveal(pow);
        }
        assert(result * 1 == result);
        lemma_pow_mod_noop(given, e0, modulo as int);
        assert((result as int) % (modulo as int) == result) by (nonlinear_arith)
            requires
                0 <= result < modulo,
        ;
    }
    result
}

/// The factor that undoes a multiplication by `a` modulo `modulo`, when
/// `modulo` is prime and does not divide `a`: `a` to the power `modulo - 2`.
pub fn mod_inverse(a: i64, modulo: i64) -> (result: i64)
    requires
        a >= 0,
        modulo >= 1,
        (modulo - 1) * (modulo - 1) <= i64::MAX,
    ensures
        result == power_mod(a as int, modulo - 2, modulo as int),
{
    mod_pow(a, modulo - 2, modulo)
}

/// How many pairs of the `k`-th letter `t` holds.
pub open spec fn pairs_of(t: Seq<char>, k: int) -> int {
    tally(t, letter(k)) as int / 2
}

/// How many pairs of the first `n` letters of the alphabet `t` holds.
pub open spec fn total_pairs(t: Seq<char>, n: nat) -> int
    decreases n,
{
    if n == 0 {
        0
    } else {
        total_pairs(t, (n - 1) as nat) + pairs_of(t, n - 1)
    }
}

/// How many of the first `n` letters occur an odd number of times in `t`.
pub open spec fn odd_letters(t: Seq<char>, n: nat) -> int
    decreases n,
{
    if n == 0 {
        0
    } else {
        odd_letters(t, (n - 1) as nat) + if tally(t, letter(n - 1)) % 2 == 1 {
            1int
        } else {
            0int
        }
    }
}

/// The factorial of the number of pairs, divided in turn by the factorial
/// of the number of pairs of each of the first `n` letters.
pub open spec fn divided(t: Seq<char>, n: nat) -> int
    decreases n,
{
    if n == 0 {
        factorial_mod(total_pairs(t, 26) as nat)
    } else {
        let so_far = divided(t, (n - 1) as nat);
        if pairs_of(t, n - 1) > 0 {
            (so_far * inverse_factorial_mod(pairs_of(t, n - 1) as nat)) % (MOD as int)
        } else {
            so_far
        }
    }
}

/// The count for the letters `t`: the arrangements of the pairs, times the
/// choices for the middle letter where one is left over; zero for no
/// letter at all.
pub open spec fn arrangements(t: Seq<char>) -> int {
    let odd = odd_letters(t, 26);
    if total_pairs(t, 26) == 0 && odd == 0 {
        0
    } else if odd > 0 {
        (divided(t, 26) * odd) % (MOD as int)
    } else {
        divided(t, 26)
    }
}

pub proof fn lemma_tally_concat(a: Seq<char>, b: Seq<char>, c: char)
    ensures
        tally(a + b, c) == tally(a, c) + tally(b, c),
    decreases b.len(),
{
    if b.len() == 0 {
        assert(a + b =~= a);
    } else {
        lemma_tally_concat(a, b.drop_last(), c);
        assert((a + b).drop_last() =~= a + b.drop_last());
    }
}

proof fn lemma_factorial_mod_range(n: nat)
    ensures
        0 <= factorial_mod(n) < MOD,
    decreases n,
{
    if n > 0 {
        lemma_factorial_mod_range((n - 1) as nat);
    }
}

proof fn lemma_divided_range(t: Seq<char>, n: nat)
    requires
        total_pairs(t, 26) >= 0,
    ensures
        0 <= divided(t, n) < MOD,
    decreases n,
{
    if n > 0 {
        lemma_divided_range(t, (n - 1) as nat);
    } else {
        lemma_factorial_mod_range(total_pairs(t, 26) as nat);
    }
}

proof fn lemma_total_pairs_monotone(t: Seq<char>, m: nat, n: nat)
    requires
        m <= n,
    ensures
        0 <= total_pairs(t, m) <= total_pairs(t, n),
        0 <= odd_letters(t, m) <= m,
    decreases n,
{
    if m < n {
        lemma_total_pairs_monotone(t, m, (n - 1) as nat);
    } else if m > 0 {
        lemma_total_pairs_monotone(t, (m - 1) as nat, (m - 1) as nat);
    }
}

/// A text prepared for counting the palindromes of its ranges.
pub struct PalindromeCounter {
    /// For each letter, how often it occurs in each prefix of the text.
    prefix_counts: Vec<Vec<i32>>,
    /// Factorials modulo `MOD`.
    factorials: Vec<i64>,
    /// The factors that divide by a factorial modulo `MOD`.
    inv_factorials: Vec<i64>,
    text: Ghost<Seq<char>>,
}

impl PalindromeCounter {
    /// The text that was prepared.
    pub closed spec fn text(&self) -> Seq<char> {
        self.text@
    }

    /// How often the `k`-th letter occurs among the first `j` symbols,
    /// as tabulated.
    pub closed spec fn prefix_count(&self, k: int, j: int) -> int {
        self.prefix_counts@[k]@[j] as int
    }

    /// The tabulated factorial of `i`.
    pub closed spec fn factorial_entry(&self, i: int) -> int {
        self.factorials@[i] as int
    }

    /// The tabulated factor that divides by the factorial of `i`.
    pub closed spec fn inverse_entry(&self, i: int) -> int {
        self.inv_factorials@[i] as int
    }

    /// The tables hold the counts of the letters in the prefixes of the
    /// text, the factorials modulo `MOD`, and the factors that divide by
    /// them.
    pub proof fn lemma_tables(&self)
        requires
            self.wf(),
        ensures
            forall|k: int, j: int|
                0 <= k < 26 && 0 <= j <= self.text().len() ==> #[trigger] self.prefix_count(k, j)
                    == tally(self.text().take(j), letter(k)),
            forall|i: int|
                0 <= i <= MAX_PAIRS ==> #[trigger] self.factorial_entry(i) == factorial_mod(
                    i as nat,
                ),
            forall|i: int|
                0 <= i <= MAX_PAIRS ==> #[trigger] self.inverse_entry(i) == inverse_factorial_mod(
                    i as nat,
                ),
    {
    }

    /// The tables hold what their descriptions say.
    pub closed spec fn wf(&self) -> bool {
        &&& self.text@.len() < i32::MAX
        &&& self.prefix_counts@.len() == 26
        &&& forall|k: int|
            0 <= k < 26 ==> (#[trigger] self.prefix_counts@[k])@.len() == self.text@.len() + 1
        &&& forall|k: int, j: int|
            0 <= k < 26 && 0 <= j <= self.text@.len() ==> #[trigger] self.prefix_counts@[k]@[j]
                == tally(self.text@.take(j), letter(k))
        &&& self.factorials@.len() == MAX_PAIRS + 1
        &&& self.inv_factorials@.len() == MAX_PAIRS + 1
        &&& forall|i: int|
            0 <= i <= MAX_PAIRS ==> #[trigger] self.factorials@[i] == factorial_mod(i as nat)
        &&& forall|i: int|
            0 <= i <= MAX_PAIRS ==> #[trigger] self.inv_factorials@[i] == inverse_factorial_mod(
                i as nat,
            )
    }

    /// Prepares a text of lower-case letters: counts each letter in every
    /// prefix, and tabulates the factorials and the factors that divide by
    /// them.
    pub fn initialize(s: &str) -> (counter: Self)
        requires
            all_letters(s@),
            s@.len() < i32::MAX,
        ensures
            counter.wf(),
            counter.text() == s@,
    {
        let chars = chars_of(s);
        let n = chars.len();
        let mut prefix_counts: Vec<Vec<i32>> = Vec::new();
        let mut k: usize = 0;
        while k < 26
            invariant
                k <= 26,
                n == chars@.len(),
                chars@ == s@,
                n < i32::MAX,
                prefix_counts@.len() == k,
                forall|a: int| 0 <= a < k ==> (#[trigger] prefix_counts@[a])@.len() == n + 1,
                forall|a: int, j: int|
                    0 <= a < k && 0 <= j <= n ==> #[trigger] prefix_counts@[a]@[j] == tally(
                        s@.take(j),
                        letter(a),
                    ),
            decreases 26 - k,
        {
            let mut row: Vec<i32> = Vec::new();
            row.push(0);
            proof {
                assert(s@.take(0) =~= Seq::<char>::empty());
            }
            let mut i: usize = 0;
            while i < n
                invariant
                    i <= n,
                    k < 26,
                    n == chars@.len(),
                    chars@ == s@,
                    n < i32::MAX,
                    row@.len() == i + 1,
                    forall|j: int|
                        0 <= j <= i ==> #[trigger] row@[j] == tally(s@.take(j), letter(k as int)),
                    0 <= row@[i as int] <= i,
                decreases n - i,
            {
                let here = match letter_index(chars[i]) {
                    Some(at) => at == k,
                    None => false,
                };
                proof {
                    assert(s@.take(i + 1).drop_last() =~= s@.take(i as int));
                    lemma_letters(k as int, k as int);
                    if is_letter(chars@[i as int]) {
                        lemma_letters(letter_index_of(chars@[i as int]), k as int);
                    }
                }
                let next = if here {
                    row[i] + 1
                } else {
                    row[i]
                };
                row.push(next);
                i = i + 1;
            }
            prefix_counts.push(row);
            k = k + 1;
        }
        let mut factorials: Vec<i64> = Vec::new();
        let mut inv_factorials: Vec<i64> = Vec::new();
        factorials.push(1);
        inv_factorials.push(1);
        let mut i: usize = 1;
        while i <= MAX_PAIRS
            invariant
                1 <= i <= MAX_PAIRS + 1,
                factorials@.len() == i,
                inv_factorials@.len() == i,
                forall|a: int| 0 <= a < i ==> #[trigger] factorials@[a] == factorial_mod(a as nat),
                forall|a: int|
                    0 <= a < i ==> #[trigger] inv_factorials@[a] == inverse_factorial_mod(a as nat),
            decreases MAX_PAIRS + 1 - i,
        {
            proof {
                lemma_factorial_mod_range((i - 1) as nat);
                lemma_factorial_mod_range(i as nat);
                assert(factorials@[i - 1] * i <= MOD * (MAX_PAIRS + 1)) by (nonlinear_arith)
                    requires
                        0 <= factorials@[i - 1] < MOD,
                        1 <= i <= MAX_PAIRS + 1,
                ;
            }
            let value = (factorials[i - 1] * i as i64) % MOD;
            factorials.push(value);
            inv_factorials.push(mod_inverse(value, MOD));
            i = i + 1;
        }
        PalindromeCounter { prefix_counts, factorials, inv_factorials, text: Ghost(s@) }
    }

    /// The count for the range from the `l`-th to the `r`-th symbol of the
    /// text, counting from one.
    #[allow(non_snake_case)]
    pub fn answerQuery(&self, l: i32, r: i32) -> (count: i32)
        requires
            self.wf(),
            1 <= l,
            l - 1 <= r <= self.text().len(),
            total_pairs(self.text().subrange(l - 1, r as int), 26) <= MAX_PAIRS,
        ensures
            count == arrangements(self.text().subrange(l - 1, r as int)),
    {
        let left = (l - 1) as usize;
        let right = r as usize;
        let ghost range = self.text@.subrange(left as int, right as int);
        let mut char_counts: Vec<i32> = Vec::new();
        let mut i: usize = 0;
        while i < 26
            invariant
                i <= 26,
                self.wf(),
                left <= right <= self.text@.len(),
                range == self.text@.subrange(left as int, right as int),
                char_counts@.len() == i,
                forall|k: int| 0 <= k < i ==> #[trigger] char_counts@[k] == tally(range, letter(k)),
            decreases 26 - i,
        {
            proof {
                let full = self.text@;
                assert(full.take(right as int) =~= full.take(left as int) + range);
                lemma_tally_concat(full.take(left as int), range, letter(i as int));
                assert(self.prefix_counts@[i as int]@[right as int] == tally(
                    full.take(right as int),
                    letter(i as int),
                ));
                assert(self.prefix_counts@[i as int]@[left as int] == tally(
                    full.take(left as int),
                    letter(i as int),
                ));
            }
            let row = &self.prefix_counts[i];
            char_counts.push(row[right] - row[left]);
            i = i + 1;
        }
        let mut pairs_total: i32 = 0;
        let mut odd_count: i32 = 0;
        let mut i: usize = 0;
        while i < 26
            invariant
                i <= 26,
                char_counts@.len() == 26,
                forall|k: int| 0 <= k < 26 ==> #[trigger] char_counts@[k] == tally(range, letter(k)),
                total_pairs(range, 26) <= MAX_PAIRS,
                pairs_total == total_pairs(range, i as nat),
                odd_count == odd_letters(range, i as nat),
            decreases 26 - i,
        {
            proof {
                lemma_total_pairs_monotone(range, i as nat, i as nat);
                lemma_total_pairs_monotone(range, (i + 1) as nat, 26);
            }
            let count = char_counts[i];
            pairs_total = pairs_total + count / 2;
            if count % 2 == 1 {
                odd_count = odd_count + 1;
            }
            i = i + 1;
        }
        if pairs_total == 0 && odd_count == 0 {
            return 0;
        }
        proof {
            lemma_total_pairs_monotone(range, 26, 26);
        }
        let mut result: i64 = self.factorials[pairs_total as usize];
        let mut i: usize = 0;
        while i < 26
            invariant
                i <= 26,
                self.wf(),
                char_counts@.len() == 26,
                forall|k: int| 0 <= k < 26 ==> #[trigger] char_counts@[k] == tally(range, letter(k)),
                0 <= total_pairs(range, 26) <= MAX_PAIRS,
                result == divided(range, i as nat),
            decreases 26 - i,
        {
            proof {
                lemma_divided_range(range, i as nat);
                lemma_divided_range(range, (i + 1) as nat);
                lemma_total_pairs_monotone(range, i as nat, i as nat);
                lemma_total_pairs_monotone(range, (i + 1) as nat, 26);
            }
            let pairs = char_counts[i] / 2;
            if pairs > 0 {
                let ghost p = pairs as nat;
                proof {
                    assert(0 <= inverse_factorial_mod(p) < MOD);
                    assert(result * self.inv_factorials@[pairs as int] <= MOD * MOD)
                        by (nonlinear_arith)
                        requires
                            0 <= result < MOD,
                            0 <= self.inv_factorials@[pairs as int] < MOD,
                    ;
                }
                result = (result * self.inv_factorials[pairs as usize]) % MOD;
            }
            i = i + 1;
        }
        proof {
            lemma_divided_range(range, 26);
            lemma_total_pairs_monotone(range, 26, 26);
            assert(result * odd_count <= MOD * 26) by (nonlinear_arith)
                requires
                    0 <= result < MOD,
                    0 <= odd_count <= 26,
            ;
        }
        if odd_count > 0 {
            result = (result * odd_count as i64) % MOD;
        }
        result as i32
    }
}

} // verus!
