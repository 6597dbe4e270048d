//! The text that a bucket is dumped as: its elements in decimal, separated
//! by a comma and a space.

use crate::order::{ascending, sort_bucket};
use vstd::prelude::*;

verus! {

/// The ASCII code of the decimal digit `d`.
pub open spec fn digit_byte(d: nat) -> u8
    recommends
        d < 10,
{
    (48 + d) as u8
}

/// The separator between two elements: a comma and a space.
pub open spec fn separator() -> Seq<u8> {
    seq![44u8, 32u8]
}

/// `n` in decimal, without leading zeros.
pub open spec fn decimal(n: nat) -> Seq<u8>
    decreases n,
{
    if n < 10 {
        seq![digit_byte(n)]
    } else {
        decimal(n / 10).push(digit_byte(n % 10))
    }
}

/// The elements of `values` in decimal with a [`separator`] between each two
/// neighbours, and none at either end.
pub open spec fn joined(values: Seq<u64>) -> Seq<u8>
    decreases values.len(),
{
    if values.len() == 0 {
        Seq::empty()
    } else if values.len() == 1 {
        decimal(values[0] as nat)
    } else {
        joined(values.drop_last()) + separator() + decimal(values.last() as nat)
    }
}

/// The number that a string of decimal digits stands for.
pub open spec fn decimal_value(digits: Seq<u8>) -> nat
    decreases digits.len(),
{
    if digits.len() == 0 {
        0
    } else {
        10 * decimal_value(digits.drop_last()) + (digits.last() - 48) as nat
    }
}

/// Where the first [`separator`] in `text` begins; the length of `text`
/// where it holds none.
pub open spec fn first_separator(text: Seq<u8>) -> int
    decreases text.len(),
{
    if text.len() < 2 {
        text.len() as int
    } else if text[0] == 44 && text[1] == 32 {
        0
    } else {
        1 + first_separator(text.drop_first())
    }
}

/// The pieces that the separators cut `text` into, from left to right.
pub open spec fn pieces(text: Seq<u8>) -> Seq<Seq<u8>>
    decreases text.len(),
{
    let at = first_separator(text);
    if 0 <= at && at + 2 <= text.len() {
        seq![text.take(at)] + pieces(text.skip(at + 2))
    } else {
        seq![text]
    }
}

/// The numbers that a dump holds: none where the text is empty, else the
/// values of its pieces.
pub open spec fn reading(text: Seq<u8>) -> Seq<nat> {
    if text.len() == 0 {
        Seq::empty()
    } else {
        pieces(text).map_values(|piece: Seq<u8>| decimal_value(piece))
    }
}

/// A number in decimal is a string of one or more digits.
pub proof fn lemma_decimal_digits(n: nat)
    ensures
        decimal(n).len() >= 1,
        forall|k: int| 0 <= k < decimal(n).len() ==> 48 <= #[trigger] decimal(n)[k] <= 57,
    decreases n,
{
    if n >= 10 {
        lemma_decimal_digits(n / 10);
    }
}

/// Reading a number written in decimal gives the number back.
pub proof fn lemma_decimal_value(n: nat)
    ensures
        decimal_value(decimal(n)) == n,
    decreases n,
{
    if n < 10 {
        assert(decimal_value(decimal(n).drop_last()) == 0);
    } else {
        lemma_decimal_value(n / 10);
        assert(decimal(n).drop_last() =~= decimal(n / 10));
    }
}

/// A run of bytes without a comma holds no separator, and none begins in it.
proof fn lemma_first_separator_after(run: Seq<u8>, rest: Seq<u8>)
    requires
        forall|k: int| 0 <= k < run.len() ==> run[k] != 44,
    ensures
        first_separator(run + rest) == run.len() + first_separator(rest),
    decreases run.len(),
{
    if run.len() > 0 {
        assert((run + rest).drop_first() =~= run.drop_first() + rest);
        lemma_first_separator_after(run.drop_first(), rest);
    }
}

/// A dump of two or more elements is the first of them, a separator, and
/// the dump of the others.
proof fn lemma_joined_front(values: Seq<u64>)
    requires
        values.len() >= 2,
    ensures
        joined(values) == decimal(values[0] as nat) + separator() + joined(values.drop_first()),
    decreases values.len(),
{
    let front = values.drop_last();
    let tail = values.drop_first();
    if values.len() == 2 {
        assert(joined(front) == decimal(values[0] as nat));
    } else {
        lemma_joined_front(front);
        assert(front.drop_first() =~= tail.drop_last());
    }
}

/// The separators cut a dump into its elements in decimal.
pub proof fn lemma_pieces_of_joined(values: Seq<u64>)
    requires
        values.len() >= 1,
    ensures
        pieces(joined(values)) == values.map_values(|v: u64| decimal(v as nat)),
    decreases values.len(),
{
    let text = joined(values);
    let first = decimal(values[0] as nat);
    lemma_decimal_digits(values[0] as nat);
    if values.len() == 1 {
        lemma_first_separator_after(first, Seq::empty());
    } else {
        let tail = values.drop_first();
        lemma_joined_front(values);
        let after = separator() + joined(tail);
        assert(text =~= first + after);
        lemma_first_separator_after(first, after);
        assert(text.take(first.len() as int) =~= first);
        assert(text.skip(first.len() as int + 2) =~= joined(tail));
        lemma_pieces_of_joined(tail);
    }
}

/// A dump can be read back: cut at its separators, with each piece read as
/// a decimal number, it gives the elements that were dumped, in their order.
/// The text of an empty bucket is empty, and no other text is: it ends in
/// the last digit of the last element, never in a separator.
pub proof fn lemma_dump_round_trip(values: Seq<u64>)
    ensures
        reading(joined(values)) == values.map_values(|v: u64| v as nat),
        values.len() == 0 <==> joined(values).len() == 0,
        values.len() > 0 ==> 48 <= joined(values).last() <= 57,
{
    let text = joined(values);
    let expected = values.map_values(|v: u64| v as nat);
    if values.len() > 0 {
        lemma_decimal_digits(values.last() as nat);
        lemma_pieces_of_joined(values);
        assert forall|k: int| 0 <= k < values.len() implies reading(text)[k] == expected[k] by {
            lemma_decimal_value(values[k] as nat);
        }
    }
}

/// Appends `n` in decimal to `out`.
pub fn push_decimal(n: u64, out: &mut Vec<u8>)
    ensures
        final(out)@ == old(out)@ + decimal(n as nat),
    decreases n,
{
    if n >= 10 {
        push_decimal(n / 10, out);
    }
    let digit: u8 = (n % 10) as u8;
    out.push(48 + digit);
}

/// The text of a bucket's dump.
pub fn render_bucket(bucket: &Vec<u64>) -> (text: Vec<u8>)
    ensures
        text@ == joined(bucket@),
{
    let mut text: Vec<u8> = Vec::new();
    let mut k: usize = 0;
    while k < bucket.len()
        invariant
            k <= bucket.len(),
            text@ == joined(bucket@.take(k as int)),
        decreases bucket.len() - k,
    {
        if k > 0 {
            text.push(44);
            text.push(32);
        }
        push_decimal(bucket[k], &mut text);
        proof {
            let seen = bucket@.take(k + 1);
            assert(seen.drop_last() =~= bucket@.take(k as int));
        }
        k += 1;
    }
    assert(bucket@.take(k as int) =~= bucket@);
    text
}

/// Puts `bucket` in ascending order and gives the text of its dump.
pub fn dump_bucket(bucket: &mut Vec<u64>) -> (text: Vec<u8>)
    ensures
        final(bucket)@ == ascending(old(bucket)@),
        text@ == joined(ascending(old(bucket)@)),
{
    sort_bucket(bucket);
    render_bucket(bucket)
}

} // verus!
