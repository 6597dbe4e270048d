//! The sequential scan that sorts the passing candidates into four buckets.

use crate::primality::{is_prime, last_digit, passes_trial_division};
use vstd::prelude::*;

verus! {

/// `n` passes the trial division and ends in `digit`.
pub open spec fn belongs(n: nat, digit: nat) -> bool {
    passes_trial_division(n) && n % 10 == digit
}

/// [`belongs`] as a predicate on the elements of a bucket.
pub open spec fn in_bucket(digit: nat) -> spec_fn(u64) -> bool {
    |v: u64| belongs(v as nat, digit)
}

/// The candidates of a scan up to `bound`: `1, 2, ..., bound - 1`.
pub open spec fn candidates(bound: nat) -> Seq<u64>
    recommends
        bound <= u64::MAX,
{
    Seq::new(
        if bound >= 1 {
            (bound - 1) as nat
        } else {
            0
        },
        |k: int| (k + 1) as u64,
    )
}

/// The candidates below `bound` that belong to `digit`, in ascending order.
pub open spec fn bucket(bound: nat, digit: nat) -> Seq<u64>
    recommends
        bound <= u64::MAX,
{
    candidates(bound).filter(in_bucket(digit))
}

/// `out` holds, in this order, the buckets of the digits 1, 3, 7 and 9 for
/// the candidates below `bound`.
pub open spec fn is_scan_of(bound: nat, out: (Vec<u64>, Vec<u64>, Vec<u64>, Vec<u64>)) -> bool {
    &&& out.0@ == bucket(bound, 1)
    &&& out.1@ == bucket(bound, 3)
    &&& out.2@ == bucket(bound, 7)
    &&& out.3@ == bucket(bound, 9)
}

/// With no candidate to scan every bucket is empty.
pub proof fn lemma_bucket_start(bound: nat, digit: nat)
    requires
        bound <= 1,
    ensures
        bucket(bound, digit) == Seq::<u64>::empty(),
{
    reveal(Seq::filter);
}

/// Raising the bound by one appends the old bound to the bucket it belongs
/// to and leaves the other buckets as they were.
pub proof fn lemma_bucket_step(bound: nat, digit: nat)
    requires
        1 <= bound < u64::MAX,
    ensures
        bucket(bound + 1, digit) == if belongs(bound, digit) {
            bucket(bound, digit).push(bound as u64)
        } else {
            bucket(bound, digit)
        },
{
    assert(candidates(bound + 1) =~= candidates(bound).push(bound as u64));
    candidates(bound).lemma_filter_push(bound as u64, in_bucket(digit));
}

/// A bucket holds exactly the candidates below the bound that belong to its
/// digit.
pub proof fn lemma_bucket_members(bound: nat, digit: nat, v: u64)
    requires
        bound <= u64::MAX,
    ensures
        bucket(bound, digit).contains(v) <==> 1 <= v < bound && belongs(v as nat, digit),
    decreases bound,
{
    if bound <= 1 {
        lemma_bucket_start(bound, digit);
    } else {
        let below = (bound - 1) as nat;
        lemma_bucket_members(below, digit, v);
        lemma_bucket_step(below, digit);
        let rest = bucket(below, digit);
        if belongs(below, digit) {
            let grown = rest.push(below as u64);
            assert(grown[rest.len() as int] == below);
            if rest.contains(v) {
                let at = choose|at: int| 0 <= at < rest.len() && rest[at] == v;
                assert(grown[at] == v);
            }
        }
    }
}

/// A bucket is in strictly ascending order, so it holds nothing twice.
pub proof fn lemma_bucket_ascending(bound: nat, digit: nat)
    requires
        bound <= u64::MAX,
    ensures
        forall|i: int, j: int|
            0 <= i < j < bucket(bound, digit).len() ==> bucket(bound, digit)[i] < bucket(
                bound,
                digit,
            )[j],
    decreases bound,
{
    if bound <= 1 {
        lemma_bucket_start(bound, digit);
    } else {
        let below = (bound - 1) as nat;
        lemma_bucket_ascending(below, digit);
        lemma_bucket_step(below, digit);
        let rest = bucket(below, digit);
        assert forall|i: int| 0 <= i < rest.len() implies rest[i] < below by {
            lemma_bucket_members(below, digit, rest[i]);
        }
    }
}

/// No candidate is in two buckets.
pub proof fn lemma_buckets_disjoint(bound: nat, digit: nat, other: nat, v: u64)
    requires
        bound <= u64::MAX,
        digit != other,
    ensures
        !(bucket(bound, digit).contains(v) && bucket(bound, other).contains(v)),
{
    lemma_bucket_members(bound, digit, v);
    lemma_bucket_members(bound, other, v);
}

/// A sequence in strictly ascending order that holds exactly the candidates
/// below the bound that belong to a digit is the bucket of that digit.
pub proof fn lemma_bucket_unique(bound: nat, digit: nat, s: Seq<u64>)
    requires
        bound <= u64::MAX,
        forall|i: int, j: int| 0 <= i < j < s.len() ==> s[i] < s[j],
        forall|v: u64| s.contains(v) <==> 1 <= v < bound && belongs(v as nat, digit),
    ensures
        s == bucket(bound, digit),
    decreases bound,
{
    if bound <= 1 {
        lemma_bucket_start(bound, digit);
        if s.len() > 0 {
            assert(s.contains(s[0]));
        }
    } else {
        let below = (bound - 1) as nat;
        let top = below as u64;
        lemma_bucket_step(below, digit);
        if belongs(below, digit) {
            let at = choose|at: int| 0 <= at < s.len() && s[at] == top;
            if at + 1 < s.len() {
                assert(s.contains(s[at + 1]));
            }
            let front = s.drop_last();
            assert forall|v: u64| front.contains(v) <==> 1 <= v < below && belongs(
                v as nat,
                digit,
            ) by {
                if front.contains(v) {
                    let k = choose|k: int| 0 <= k < front.len() && front[k] == v;
                    assert(s.contains(v));
                }
                if 1 <= v < below && belongs(v as nat, digit) {
                    let k = choose|k: int| 0 <= k < s.len() && s[k] == v;
                    assert(front[k] == v);
                }
            }
            lemma_bucket_unique(below, digit, front);
        } else {
            assert forall|v: u64| s.contains(v) <==> 1 <= v < below && belongs(
                v as nat,
                digit,
            ) by {}
            lemma_bucket_unique(below, digit, s);
        }
    }
}

/// Two scans up to one bound give the same four sequences.
pub proof fn lemma_scan_deterministic(
    bound: nat,
    first: (Vec<u64>, Vec<u64>, Vec<u64>, Vec<u64>),
    second: (Vec<u64>, Vec<u64>, Vec<u64>, Vec<u64>),
)
    requires
        is_scan_of(bound, first),
        is_scan_of(bound, second),
    ensures
        first.0@ == second.0@,
        first.1@ == second.1@,
        first.2@ == second.2@,
        first.3@ == second.3@,
{
}

/// Scans the candidates `1, 2, ..., number - 1` in ascending order and
/// appends each one that passes [`is_prime`] to the bucket of its last digit.
/// Candidates ending in another digit than 1, 3, 7 or 9 are dropped.
pub fn prime_buckets(number: u64) -> (out: (Vec<u64>, Vec<u64>, Vec<u64>, Vec<u64>))
    ensures
        is_scan_of(number as nat, out),
{
    let mut bucket_end1: Vec<u64> = Vec::new();
    let mut bucket_end3: Vec<u64> = Vec::new();
    let mut bucket_end7: Vec<u64> = Vec::new();
    let mut bucket_end9: Vec<u64> = Vec::new();
    let mut i: u64 = 1;
    proof {
        lemma_bucket_start(1, 1);
        lemma_bucket_start(1, 3);
        lemma_bucket_start(1, 7);
        lemma_bucket_start(1, 9);
    }
    while i < number
        invariant
            1 <= i,
            i <= number || i == 1,
            bucket_end1@ == bucket(i as nat, 1),
            bucket_end3@ == bucket(i as nat, 3),
            bucket_end7@ == bucket(i as nat, 7),
            bucket_end9@ == bucket(i as nat, 9),
        decreases number - i,
    {
        proof {
            lemma_bucket_step(i as nat, 1);
            lemma_bucket_step(i as nat, 3);
            lemma_bucket_step(i as nat, 7);
            lemma_bucket_step(i as nat, 9);
        }
        if is_prime(i) {
            let digit = last_digit(i);
            if digit == 1 {
                bucket_end1.push(i);
            } else if digit == 3 {
                bucket_end3.push(i);
            } else if digit == 7 {
                bucket_end7.push(i);
            } else if digit == 9 {
                bucket_end9.push(i);
            }
        }
        i += 1;
    }
    proof {
        if number == 0 {
            lemma_bucket_start(0, 1);
            lemma_bucket_start(0, 3);
            lemma_bucket_start(0, 7);
            lemma_bucket_start(0, 9);
        }
    }
    (bucket_end1, bucket_end3, bucket_end7, bucket_end9)
}

} // verus!
