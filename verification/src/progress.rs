//! Where a traversal stands, as a position between 0 and 65535.

use crate::hashing::{hash_bytes, hash_of};
use crate::types::Address;
use vstd::prelude::*;

verus! {

/// The number of positions on the progress scale.
pub const PROGRESS_SCALE: u64 = 0x10000;

/// The position that the first two bytes of `bytes` spell.
pub open spec fn position_of(bytes: Seq<u8>) -> nat
    recommends
        bytes.len() >= 2,
{
    bytes[0] as nat * 256 + bytes[1] as nat
}

/// The bytes by which progress is measured at the account `address`: its
/// hash where the traversal goes by hash, the address itself where not.
pub open spec fn progress_bytes(address: Address, hash_on_progress: bool) -> Seq<u8> {
    if hash_on_progress {
        hash_of(address@)@
    } else {
        address@
    }
}

/// The bytes by which progress is measured at the account `address`.
pub fn progress_value(address: &Address, hash_on_progress: bool) -> (r: Vec<u8>)
    ensures
        r@ == progress_bytes(*address, hash_on_progress),
{
    if hash_on_progress {
        let hash = hash_bytes(address.as_slice());
        vstd::slice::slice_to_vec(hash.as_slice())
    } else {
        vstd::slice::slice_to_vec(address.as_slice())
    }
}

/// The position on the progress scale at the account `address`.
pub fn progress_position(address: &Address, hash_on_progress: bool) -> (r: u64)
    ensures
        r == position_of(progress_bytes(*address, hash_on_progress)),
        r < PROGRESS_SCALE,
{
    if hash_on_progress {
        let hash = hash_bytes(address.as_slice());
        hash[0] as u64 * 256 + hash[1] as u64
    } else {
        address[0] as u64 * 256 + address[1] as u64
    }
}

} // verus!
