//! Hexadecimal size tokens: which bytes may appear in one and what number a
//! token denotes.

use vstd::prelude::*;

verus! {

/// Bytes allowed in a chunk-size token: ASCII hexadecimal digits, either case.
pub open spec fn is_hex_digit(b: u8) -> bool {
    (48 <= b && b <= 57) || (65 <= b && b <= 70) || (97 <= b && b <= 102)
}

/// Numeric value of a single hexadecimal digit byte.
pub open spec fn hex_digit_value(b: u8) -> nat
    recommends
        is_hex_digit(b),
{
    if 48 <= b && b <= 57 {
        (b - 48) as nat
    } else if 65 <= b && b <= 70 {
        (b - 55) as nat
    } else {
        (b - 87) as nat
    }
}

/// Every byte of `t` is a hexadecimal digit.
pub open spec fn all_hex_digits(t: Seq<u8>) -> bool {
    forall|i: int| 0 <= i < t.len() ==> is_hex_digit(#[trigger] t[i])
}

/// The number `t` denotes in base 16, most significant digit first.
pub open spec fn hex_value(t: Seq<u8>) -> nat
    decreases t.len(),
{
    if t.len() == 0 {
        0
    } else {
        hex_value(t.drop_last()) * 16 + hex_digit_value(t.last())
    }
}

/// One more digit multiplies the value by 16 and adds the digit.
pub proof fn lemma_hex_value_step(t: Seq<u8>, k: int)
    requires
        0 <= k < t.len(),
    ensures
        hex_value(t.take(k + 1)) == hex_value(t.take(k)) * 16 + hex_digit_value(t[k]),
{
    assert(t.take(k + 1).drop_last() =~= t.take(k));
    assert(t.take(k + 1).last() == t[k]);
}

/// A token denotes at least as much as any of its prefixes.
pub proof fn lemma_hex_value_prefix_le(t: Seq<u8>, k: int)
    requires
        0 <= k <= t.len(),
    ensures
        hex_value(t.take(k)) <= hex_value(t),
    decreases t.len() - k,
{
    if k == t.len() {
        assert(t.take(k) =~= t);
    } else {
        lemma_hex_value_step(t, k);
        assert(hex_value(t.take(k)) <= hex_value(t.take(k + 1)));
        lemma_hex_value_prefix_le(t, k + 1);
    }
}

} // verus!
