//! Analysis of account and storage state: traversal orderings, stem
//! partitioning, prefix frequencies and the preimage stream.
//!
//! The state is read through traversals, which yield accounts and storage
//! slots in the plain order of the tables ([`plain`]) or in the order of
//! the hashes of addresses and keys ([`eip7748`]). Each traversal is a state
//! machine that is told what the cursors of a state source read; for a
//! state held in memory ([`source`]) the library drives the machines
//! itself. The preimage stream of a traversal is written and confirmed in
//! [`codec`], the stem records of accounts are built in [`partition`] from
//! the rules of [`stems`] and summed up in [`report`] with the statistics
//! of [`stats`], and the frequency of key prefixes is counted in
//! [`frequency`].

pub mod bytes;
pub mod codec;
pub mod eip7748;
pub mod frequency;
pub mod hashing;
pub mod heap;
pub mod iterators;
pub mod ordering;
pub mod partition;
pub mod plain;
pub mod progress;
pub mod report;
pub mod source;
pub mod stats;
pub mod stems;
pub mod types;
pub mod wide;
