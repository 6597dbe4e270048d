//! The trial-division test and the last decimal digit.

use crate::sqrt::{floor_sqrt, integer_sqrt, lemma_below_floor_sqrt, lemma_floor_sqrt_exists};
use vstd::prelude::*;

verus! {

/// No candidate in `[2, floor_sqrt(n))` divides `n`.
///
/// The candidates stop one short of the integer square root, so besides the
/// primes this holds of 0, 1, of 4, 6 and 8, and of every composite whose
/// smallest factor is its integer square root (9, 15, 25, 35, ...).
pub open spec fn passes_trial_division(n: nat) -> bool {
    forall|i: nat| 2 <= i < floor_sqrt(n) ==> #[trigger] (n % i) != 0
}

/// `n` is at least 2 and has no divisor strictly between 1 and itself.
pub open spec fn is_prime_number(n: nat) -> bool {
    n >= 2 && forall|d: nat| 2 <= d < n ==> #[trigger] (n % d) != 0
}

/// Numbers below 9 have no candidate divisors at all, so they all pass.
pub proof fn lemma_below_nine_passes(n: nat)
    requires
        n < 9,
    ensures
        passes_trial_division(n),
{
    assert forall|i: nat| 2 <= i < floor_sqrt(n) implies #[trigger] (n % i) != 0 by {
        lemma_below_floor_sqrt(n, i);
        assert((i + 1) * (i + 1) >= 9) by (nonlinear_arith)
            requires
                i >= 2,
        ;
    }
}

/// The test never rejects a prime.
pub proof fn lemma_primes_pass(n: nat)
    requires
        is_prime_number(n),
    ensures
        passes_trial_division(n),
{
    assert forall|i: nat| 2 <= i < floor_sqrt(n) implies #[trigger] (n % i) != 0 by {
        lemma_below_floor_sqrt(n, i);
        assert(i < n) by (nonlinear_arith)
            requires
                (i + 1) * (i + 1) <= n,
        ;
    }
}

/// A number from 2 on that passes the test is prime, unless its integer
/// square root is a proper divisor of it.
pub proof fn lemma_passing_is_prime(n: nat)
    requires
        n >= 2,
        passes_trial_division(n),
        floor_sqrt(n) >= 2 ==> n % floor_sqrt(n) != 0,
    ensures
        is_prime_number(n),
{
    let r = floor_sqrt(n);
    lemma_floor_sqrt_exists(n);
    assert forall|d: nat| 2 <= d < n implies #[trigger] (n % d) != 0 by {
        if n % d == 0 {
            let e = n / d;
            assert(n == d * e) by {
                vstd::arithmetic::div_mod::lemma_fundamental_div_mod(n as int, d as int);
            }
            assert(2 <= e < n) by (nonlinear_arith)
                requires
                    n == d * e,
                    2 <= d < n,
            ;
            let m = if d <= e { d } else { e };
            assert(n % m == 0) by {
                if d <= e {
                } else {
                    assert(n == e * d) by (nonlinear_arith)
                        requires
                            n == d * e,
                    ;
                    vstd::arithmetic::div_mod::lemma_mod_multiples_basic(d as int, e as int);
                }
            }
            assert(m * m <= n) by (nonlinear_arith)
                requires
                    n == d * e,
                    m <= d,
                    m <= e,
            ;
            assert(m <= r) by (nonlinear_arith)
                requires
                    m * m <= n,
                    n < (r + 1) * (r + 1),
            ;
        }
    }
}

/// Tests `number` by trial division with the candidates `2, 3, ...` below the
/// integer square root of `number`.
pub fn is_prime(number: u64) -> (prime: bool)
    ensures
        prime == passes_trial_division(number as nat),
        number < 9 ==> prime,
{
    let limit = integer_sqrt(number);
    let mut i: u64 = 2;
    while i < limit
        invariant
            2 <= i,
            limit == floor_sqrt(number as nat),
            forall|j: nat| 2 <= j < i ==> #[trigger] (number as nat % j) != 0,
        decreases limit - i,
    {
        if number % i == 0 {
            proof {
                if number < 9 {
                    lemma_below_nine_passes(number as nat);
                }
            }
            return false;
        }
        i += 1;
    }
    proof {
        if number < 9 {
            lemma_below_nine_passes(number as nat);
        }
    }
    true
}

/// The last decimal digit of `number`.
pub fn last_digit(number: u64) -> (digit: u64)
    ensures
        digit == number % 10,
{
    number % 10
}

} // verus!
