//! The same scan with the trial divisions spread over a pool of threads.

use crate::primality::{is_prime, last_digit, passes_trial_division};
use crate::order::{ascending, lemma_ascending_unique};
use crate::sieve::{bucket, candidates, in_bucket, is_scan_of, lemma_bucket_ascending};
use rayon::iter::{IntoParallelIterator, ParallelIterator};
use vstd::multiset::Multiset;
use vstd::prelude::*;

verus! {

/// The trial division as a predicate on candidates.
pub open spec fn passing() -> spec_fn(u64) -> bool {
    |v: u64| passes_trial_division(v as nat)
}

/// Ending in `digit`, as a predicate on candidates.
pub open spec fn ending_in(digit: nat) -> spec_fn(u64) -> bool {
    |v: u64| v as nat % 10 == digit
}

/// `out` holds, in this order, the buckets of the digits 1, 3, 7 and 9 for
/// the candidates below `bound`, each in some order of its elements.
pub open spec fn is_unordered_scan_of(
    bound: nat,
    out: (Vec<u64>, Vec<u64>, Vec<u64>, Vec<u64>),
) -> bool {
    &&& out.0@.to_multiset() == bucket(bound, 1).to_multiset()
    &&& out.1@.to_multiset() == bucket(bound, 3).to_multiset()
    &&& out.2@.to_multiset() == bucket(bound, 7).to_multiset()
    &&& out.3@.to_multiset() == bucket(bound, 9).to_multiset()
}

/// `found` split by last digit: the elements ending in 1, in 3, in 7 and in
/// 9, each group in the order in which `found` holds them.
pub open spec fn is_split_of(found: Seq<u64>, out: (Vec<u64>, Vec<u64>, Vec<u64>, Vec<u64>)) -> bool {
    &&& out.0@ == found.filter(ending_in(1))
    &&& out.1@ == found.filter(ending_in(3))
    &&& out.2@ == found.filter(ending_in(7))
    &&& out.3@ == found.filter(ending_in(9))
}

/// Filtering keeps every occurrence of an element that satisfies the
/// predicate and none of the others.
pub proof fn lemma_filter_count(s: Seq<u64>, pred: spec_fn(u64) -> bool, v: u64)
    ensures
        s.filter(pred).to_multiset().count(v) == if pred(v) {
            s.to_multiset().count(v)
        } else {
            0
        },
    decreases s.len(),
{
    broadcast use vstd::multiset::group_multiset_axioms;

    if s.len() == 0 {
        reveal(Seq::filter);
        s.to_multiset_ensures();
    } else {
        let front = s.drop_last();
        let last = s.last();
        assert(s =~= front.push(last));
        lemma_filter_count(front, pred, v);
        front.lemma_filter_push(last, pred);
        vstd::seq_lib::to_multiset_build(front, last);
        if pred(last) {
            vstd::seq_lib::to_multiset_build(front.filter(pred), last);
        }
    }
}

/// Picking the passing elements and then those ending in `digit` gives, up
/// to order, the bucket of `digit`.
pub proof fn lemma_split_of_passing(bound: nat, digit: nat, found: Seq<u64>)
    requires
        found.to_multiset() == candidates(bound).filter(passing()).to_multiset(),
    ensures
        found.filter(ending_in(digit)).to_multiset() == bucket(bound, digit).to_multiset(),
{
    let left = found.filter(ending_in(digit)).to_multiset();
    let right = bucket(bound, digit).to_multiset();
    assert forall|v: u64| left.count(v) == right.count(v) by {
        lemma_filter_count(found, ending_in(digit), v);
        lemma_filter_count(candidates(bound), passing(), v);
        lemma_filter_count(candidates(bound), in_bucket(digit), v);
    }
}

/// Everything that the four buckets of `out` hold, each element as often as
/// it occurs.
pub open spec fn all_elements(out: (Vec<u64>, Vec<u64>, Vec<u64>, Vec<u64>)) -> Multiset<u64> {
    out.0@.to_multiset().add(out.1@.to_multiset()).add(out.2@.to_multiset()).add(
        out.3@.to_multiset(),
    )
}

/// A scan on the thread pool and a sequential scan up to the same bound
/// agree: each bucket of the first, put in ascending order, is the bucket of
/// the second, the buckets have the same lengths, and together they hold the
/// same elements.
pub proof fn lemma_parallel_matches_sequential(
    bound: nat,
    sequential: (Vec<u64>, Vec<u64>, Vec<u64>, Vec<u64>),
    parallel: (Vec<u64>, Vec<u64>, Vec<u64>, Vec<u64>),
)
    requires
        bound <= u64::MAX,
        is_scan_of(bound, sequential),
        is_unordered_scan_of(bound, parallel),
    ensures
        ascending(parallel.0@) == sequential.0@,
        ascending(parallel.1@) == sequential.1@,
        ascending(parallel.2@) == sequential.2@,
        ascending(parallel.3@) == sequential.3@,
        parallel.0@.len() == sequential.0@.len(),
        parallel.1@.len() == sequential.1@.len(),
        parallel.2@.len() == sequential.2@.len(),
        parallel.3@.len() == sequential.3@.len(),
        all_elements(parallel) == all_elements(sequential),
{
    lemma_bucket_ascending(bound, 1);
    lemma_bucket_ascending(bound, 3);
    lemma_bucket_ascending(bound, 7);
    lemma_bucket_ascending(bound, 9);
    lemma_ascending_unique(parallel.0@, sequential.0@);
    lemma_ascending_unique(parallel.1@, sequential.1@);
    lemma_ascending_unique(parallel.2@, sequential.2@);
    lemma_ascending_unique(parallel.3@, sequential.3@);
    vstd::seq_lib::to_multiset_len(parallel.0@);
    vstd::seq_lib::to_multiset_len(parallel.1@);
    vstd::seq_lib::to_multiset_len(parallel.2@);
    vstd::seq_lib::to_multiset_len(parallel.3@);
    vstd::seq_lib::to_multiset_len(sequential.0@);
    vstd::seq_lib::to_multiset_len(sequential.1@);
    vstd::seq_lib::to_multiset_len(sequential.2@);
    vstd::seq_lib::to_multiset_len(sequential.3@);
}

/// Runs [`is_prime`] on the candidates `1, 2, ..., bound - 1` through
/// rayon: `into_par_iter` on the range, `filter` with the test, `collect`
/// into a vector.
///
/// Trusted: the vector holds every candidate on which the test returned
/// `true`, each once, and nothing else. Nothing is claimed of their order.
#[verifier::external_body]
fn passing_in_parallel(bound: u64) -> (found: Vec<u64>)
    ensures
        found@.to_multiset() == candidates(bound as nat).filter(passing()).to_multiset(),
{
    (1..bound).into_par_iter().filter(|i| is_prime(*i)).collect()
}

/// Sorts the elements of `found` into four buckets by last digit, keeping
/// their order. Elements ending in another digit than 1, 3, 7 or 9 are
/// dropped.
pub fn split_by_last_digit(found: &Vec<u64>) -> (out: (Vec<u64>, Vec<u64>, Vec<u64>, Vec<u64>))
    ensures
        is_split_of(found@, out),
{
    let mut bucket_end1: Vec<u64> = Vec::new();
    let mut bucket_end3: Vec<u64> = Vec::new();
    let mut bucket_end7: Vec<u64> = Vec::new();
    let mut bucket_end9: Vec<u64> = Vec::new();
    let mut k: usize = 0;
    proof {
        reveal(Seq::filter);
    }
    while k < found.len()
        invariant
            k <= found.len(),
            bucket_end1@ == found@.take(k as int).filter(ending_in(1)),
            bucket_end3@ == found@.take(k as int).filter(ending_in(3)),
            bucket_end7@ == found@.take(k as int).filter(ending_in(7)),
            bucket_end9@ == found@.take(k as int).filter(ending_in(9)),
        decreases found.len() - k,
    {
        let value = found[k];
        proof {
            let seen = found@.take(k as int);
            assert(found@.take(k + 1) =~= seen.push(value));
            seen.lemma_filter_push(value, ending_in(1));
            seen.lemma_filter_push(value, ending_in(3));
            seen.lemma_filter_push(value, ending_in(7));
            seen.lemma_filter_push(value, ending_in(9));
        }
        let digit = last_digit(value);
        if digit == 1 {
            bucket_end1.push(value);
        } else if digit == 3 {
            bucket_end3.push(value);
        } else if digit == 7 {
            bucket_end7.push(value);
        } else if digit == 9 {
            bucket_end9.push(value);
        }
        k += 1;
    }
    assert(found@.take(k as int) =~= found@);
    (bucket_end1, bucket_end3, bucket_end7, bucket_end9)
}

/// Tests the candidates `1, 2, ..., number - 1` on a pool of threads and
/// sorts those that pass into the buckets of their last digits. Each bucket
/// holds what [`crate::sieve::prime_buckets`] puts there; the order of its
/// elements depends on the scheduling.
pub fn prime_buckets_par(number: u64) -> (out: (Vec<u64>, Vec<u64>, Vec<u64>, Vec<u64>))
    ensures
        is_unordered_scan_of(number as nat, out),
{
    let found = passing_in_parallel(number);
    let out = split_by_last_digit(&found);
    proof {
        lemma_split_of_passing(number as nat, 1, found@);
        lemma_split_of_passing(number as nat, 3, found@);
        lemma_split_of_passing(number as nat, 7, found@);
        lemma_split_of_passing(number as nat, 9, found@);
    }
    out
}

} // verus!
