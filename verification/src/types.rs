//! The identifiers that every part of the library works on.

use vstd::prelude::*;

verus! {

/// A 20-byte account identifier.
pub type Address = [u8; 20];

/// A 32-byte storage slot identifier.
pub type StorageKey = [u8; 32];

/// The unit that every traversal emits.
#[derive(Clone, Copy, Debug, PartialEq, Eq)]
pub enum AccountStorageItem {
    Account(Address),
    StorageSlot(Address, StorageKey),
}

/// Why a configuration was refused before any pass over the state.
#[derive(Clone, Copy, Debug, PartialEq, Eq, Structural)]
pub enum ConfigurationError {
    /// The group size is not a power of two.
    GroupSizeNotPowerOfTwo,
    /// The lower half of a group has no room for the header positions.
    GroupSizeTooSmall,
    /// The prefix is longer than a storage key.
    PrefixTooLong,
}

} // verus!
