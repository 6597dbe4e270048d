//! Putting a bucket in ascending order.

use vstd::prelude::*;

verus! {

/// The usual order of the unsigned integers.
pub open spec fn at_most() -> spec_fn(u64, u64) -> bool {
    |a: u64, b: u64| a <= b
}

/// No element of `s` is followed by a smaller one.
pub open spec fn is_ascending(s: Seq<u64>) -> bool {
    forall|i: int, j: int| 0 <= i < j < s.len() ==> s[i] <= s[j]
}

/// The elements of `s`, each as often as `s` holds it, in ascending order.
pub open spec fn ascending(s: Seq<u64>) -> Seq<u64> {
    s.sort_by(at_most())
}

/// [`ascending`] rearranges its argument into ascending order.
pub proof fn lemma_ascending(s: Seq<u64>)
    ensures
        is_ascending(ascending(s)),
        ascending(s).to_multiset() == s.to_multiset(),
        ascending(s).len() == s.len(),
{
    s.lemma_sort_by_ensures(at_most());
    let t = ascending(s);
    assert forall|i: int, j: int| 0 <= i < j < t.len() implies t[i] <= t[j] by {
        assert(at_most()(t[i], t[j]));
    }
    vstd::seq_lib::to_multiset_len(s);
    vstd::seq_lib::to_multiset_len(ascending(s));
}

/// There is one ascending arrangement of a given collection of elements.
pub proof fn lemma_ascending_unique(s: Seq<u64>, t: Seq<u64>)
    requires
        is_ascending(t),
        t.to_multiset() == s.to_multiset(),
    ensures
        t == ascending(s),
{
    lemma_ascending(s);
    vstd::seq_lib::lemma_sorted_unique(t, ascending(s), at_most());
}

/// Calls `sort` of std's slices on the vector.
///
/// Trusted: afterwards the vector is in ascending order and holds the
/// elements it held before, each as often as before.
#[verifier::external_body]
fn sort_in_place(values: &mut Vec<u64>)
    ensures
        is_ascending(final(values)@),
        final(values)@.to_multiset() == old(values)@.to_multiset(),
{
    values.sort();
}

/// Puts `bucket` in ascending order.
pub fn sort_bucket(bucket: &mut Vec<u64>)
    ensures
        final(bucket)@ == ascending(old(bucket)@),
        is_ascending(final(bucket)@),
        final(bucket)@.to_multiset() == old(bucket)@.to_multiset(),
{
    sort_in_place(bucket);
    proof {
        lemma_ascending_unique(old(bucket)@, bucket@);
    }
}

} // verus!
