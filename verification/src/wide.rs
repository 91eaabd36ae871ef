//! Arithmetic on 256-bit numbers held as 32 big-endian bytes.

use crate::bytes::{be_value, pow256};
use crate::types::StorageKey;
use alloy_primitives::U256;
use vstd::arithmetic::power2::pow2;
use vstd::prelude::*;

verus! {

/// A string that starts with `n` zero bytes spells zero on its first `n`
/// bytes.
proof fn lemma_leading_zeros(bytes: Seq<u8>, n: int)
    requires
        0 <= n <= bytes.len(),
        forall|i: int| 0 <= i < n ==> bytes[i] == 0,
    ensures
        be_value(bytes.take(n)) == 0,
    decreases n,
{
    if n > 0 {
        lemma_leading_zeros(bytes, n - 1);
        assert(bytes.take(n).drop_last() == bytes.take(n - 1));
    }
}

/// The 32-byte big-endian form of a 16-bit number.
pub fn to_b256(value: u16) -> (r: StorageKey)
    ensures
        be_value(r@) == value,
{
    let mut buf = [0u8;32];
    let ghost zeros = buf@;
    buf[30] = (value / 256) as u8;
    buf[31] = (value % 256) as u8;
    proof {
        let s = buf@;
        assert forall|i: int| 0 <= i < 30 implies s[i] == 0 by {
            assert(s[i] == zeros[i]);
        }
        assert(s.len() == 32);
        lemma_leading_zeros(s, 30);
        let upper = s.drop_last();
        assert(upper.drop_last() == s.take(30));
        assert(upper.last() == s[30]);
        assert(be_value(upper) == be_value(upper.drop_last()) * 256 + upper.last() as nat);
        assert(be_value(s) == be_value(upper) * 256 + s.last() as nat);
    }
    buf
}

/// `Uint::overflowing_shr` of ruint on a 256-bit number read from and written
/// to big-endian bytes: the result is the number divided by two to the power
/// `bits`, rounded down. The flag that tells whether bits were lost is
/// dropped.
#[verifier::external_body]
pub(crate) fn shift_right(value: &StorageKey, bits: usize) -> (r: StorageKey)
    ensures
        be_value(r@) == be_value(value@) / pow2(bits as nat),
{
    U256::from_be_bytes::<32>(*value).overflowing_shr(bits).0.to_be_bytes::<32>()
}

/// `Uint::checked_add` of ruint on two 256-bit numbers read from and written
/// to big-endian bytes: the sum where it fits in 32 bytes, nothing where it
/// does not.
#[verifier::external_body]
pub(crate) fn checked_add(a: &StorageKey, b: &StorageKey) -> (r: Option<StorageKey>)
    ensures
        match r {
            Some(sum) => be_value(sum@) == be_value(a@) + be_value(b@),
            None => be_value(a@) + be_value(b@) >= pow256(32),
        },
{
    match U256::from_be_bytes::<32>(*a).checked_add(U256::from_be_bytes::<32>(*b)) {
        Some(sum) => Some(sum.to_be_bytes::<32>()),
        None => None,
    }
}

} // verus!
