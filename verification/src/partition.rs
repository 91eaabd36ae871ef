//! Building one account's stem record from its code length and its storage
//! slots, taken in ascending key order.

use crate::bytes::{
    be_value, bytes_eq, bytes_lt, lemma_be_value_bound, lemma_lex_lt_is_numeric, pow256,
};
use crate::source::{keys_of, rows_of, AccountRecord, SlotRecord, StateSnapshot};
use crate::stems::{
    code_stems, group_of, group_runs, header_count, header_resident, header_slot_capacity,
    is_power_of_two, last_group, stem_stats, strictly_ascending, valid_group_size, StemConfig,
    StemStatsView, CODE_CHUNK_BYTES,
};
use crate::types::{Address, ConfigurationError, StorageKey};
use crate::wide::{checked_add, shift_right, to_b256};
use vstd::arithmetic::div_mod::{lemma_div_is_ordered_by_denominator, lemma_fundamental_div_mod};
use vstd::arithmetic::power2::{lemma2_to64, lemma_pow2_pos};
use vstd::pervasive::unreached;
use vstd::prelude::*;

verus! {

/// What the partitioner records of one account.
#[derive(Clone, Debug, PartialEq, Eq)]
pub struct AccountStemStats {
    pub address: Address,
    pub bytecode_len: usize,
    pub account_stem: u16,
    pub ss_stems: Vec<u16>,
    pub code_stems: usize,
    pub num_storage_slots: usize,
}

impl View for AccountStemStats {
    type V = StemStatsView;

    open spec fn view(&self) -> StemStatsView {
        StemStatsView {
            address: self.address@,
            bytecode_len: self.bytecode_len as nat,
            account_stem: self.account_stem as nat,
            ss_stems: self.ss_stems@.map_values(|c: u16| c as nat),
            code_stems: self.code_stems as nat,
            num_storage_slots: self.num_storage_slots as nat,
        }
    }
}

/// Why a slot was refused.
#[derive(Clone, Copy, Debug, PartialEq, Eq, Structural)]
pub enum StemError {
    /// The slot's key is not larger than the key of the slot before it.
    UnorderedSlot,
    /// The account already holds as many slots as can be counted.
    SlotCountOverflow,
}

/// In a strictly ascending sequence two keys differ by at least the distance
/// of their positions.
pub proof fn lemma_ascending_gap(keys: Seq<nat>, i: int, j: int)
    requires
        strictly_ascending(keys),
        0 <= i <= j < keys.len(),
    ensures
        keys[j] - keys[i] >= j - i,
    decreases j - i,
{
    if i < j {
        lemma_ascending_gap(keys, i, j - 1);
    }
}

/// Of strictly ascending keys no more are header-resident than the header
/// has room for.
pub proof fn lemma_header_count_bound(g: nat, keys: Seq<nat>)
    requires
        strictly_ascending(keys),
    ensures
        header_count(g, keys) <= header_slot_capacity(g),
        header_count(g, keys) <= keys.len(),
    decreases keys.len(),
{
    if keys.len() > 0 {
        lemma_header_count_bound(g, keys.drop_last());
        if header_resident(g, keys.last()) {
            lemma_ascending_gap(keys, 0, keys.len() - 1);
        }
    }
}

/// What holds of the group counts of strictly ascending keys.
pub open spec fn runs_bounded(g: nat, keys: Seq<nat>) -> bool {
    let runs = group_runs(g, keys);
    let n = keys.len() as int;
    &&& runs.len() == 0 <==> last_group(g, keys) == 0
    &&& forall|i: int| 0 <= i < runs.len() ==> 1 <= #[trigger] runs[i] <= g
    &&& runs.len() > 0 ==> {
        &&& 1 <= runs.last() <= n
        &&& !header_resident(g, keys[n - 1])
        &&& group_of(g, keys[n - runs.last()]) == last_group(g, keys)
    }
}

/// With strictly ascending keys every group count lies between one and the
/// group size, and the last count belongs to the group of the last key.
pub proof fn lemma_runs_bounded(g: nat, keys: Seq<nat>)
    requires
        g > 0,
        strictly_ascending(keys),
    ensures
        runs_bounded(g, keys),
    decreases keys.len(),
{
    if keys.len() > 0 {
        let n = keys.len() as int;
        let before_keys = keys.drop_last();
        let before = group_runs(g, before_keys);
        let k = keys.last();
        lemma_runs_bounded(g, before_keys);
        if header_resident(g, k) {
            if before.len() > 0 {
                assert(before_keys[n - 2] == keys[n - 2]);
                assert(keys[n - 2] < keys[n - 1]);
            }
        } else if group_of(g, k) != last_group(g, before_keys) {
            let runs = before.push(1);
            assert forall|i: int| 0 <= i < runs.len() implies 1 <= #[trigger] runs[i] <= g by {
                if i < before.len() {
                    assert(runs[i] == before[i]);
                }
            }
        } else {
            let c = before.last();
            let runs = before.update(before.len() - 1, c + 1);
            let first = before_keys[n - 1 - c];
            assert(first == keys[n - 1 - c]);
            lemma_ascending_gap(keys, n - 1 - c, n - 1);
            lemma_fundamental_div_mod(first as int, g as int);
            lemma_fundamental_div_mod(k as int, g as int);
            let q = (k / g) as int;
            assert(first / g == q);
            assert(g * q <= first);
            assert(k < g * q + g);
            assert forall|i: int| 0 <= i < runs.len() implies 1 <= #[trigger] runs[i] <= g by {
                if i < before.len() - 1 {
                    assert(runs[i] == before[i]);
                }
            }
        }
    }
}

/// An account's record while its slots are still coming in.
pub struct StemAccumulator {
    config: StemConfig,
    header_limit: StorageKey,
    one: StorageKey,
    stats: AccountStemStats,
    curr_group: StorageKey,
    last_key: Option<StorageKey>,
    keys: Ghost<Seq<nat>>,
}

impl StemAccumulator {
    /// The numeric keys of the slots taken so far, in the order they came.
    pub closed spec fn keys(&self) -> Seq<nat> {
        self.keys@
    }

    /// The group size in use.
    pub closed spec fn group_size(&self) -> nat {
        self.config.size()
    }

    /// The account the record is for.
    pub closed spec fn address(&self) -> Seq<u8> {
        self.stats.address@
    }

    /// The account's code length in bytes.
    pub closed spec fn bytecode_len(&self) -> nat {
        self.stats.bytecode_len as nat
    }

    /// The record agrees with the slots taken so far, which are strictly
    /// ascending.
    pub closed spec fn wf(&self) -> bool {
        &&& self.config.wf()
        &&& be_value(self.header_limit@) == header_slot_capacity(self.config.size())
        &&& be_value(self.one@) == 1
        &&& strictly_ascending(self.keys@)
        &&& self.stats@ == stem_stats(
            self.config.size(),
            self.stats.address@,
            self.stats.bytecode_len as nat,
            self.keys@,
        )
        &&& be_value(self.curr_group@) == last_group(self.config.size(), self.keys@)
        &&& match self.last_key {
            Some(k) => self.keys@.len() > 0 && be_value(k@) == self.keys@.last(),
            None => self.keys@.len() == 0,
        }
    }

    /// Starts the record of the account `address` with `bytecode_len` bytes
    /// of code and no slot yet.
    pub fn new(config: StemConfig, address: Address, bytecode_len: usize) -> (r: StemAccumulator)
        requires
            config.wf(),
        ensures
            r.wf(),
            r.keys() == Seq::<nat>::empty(),
            r.group_size() == config.size(),
            r.address() == address@,
            r.bytecode_len() == bytecode_len,
    {
        proof {
            config.lemma_wf_valid();
        }
        let group_size = config.group_size() as usize;
        let full_chunks = bytecode_len / CODE_CHUNK_BYTES;
        let chunks = if bytecode_len % CODE_CHUNK_BYTES == 0 {
            full_chunks
        } else {
            full_chunks + 1
        };
        let header_room = group_size - group_size / 2;
        let in_header = if chunks <= header_room {
            chunks
        } else {
            header_room
        };
        let outside = chunks - in_header;
        let code_groups = if outside % group_size == 0 {
            outside / group_size
        } else {
            outside / group_size + 1
        };
        let stats = AccountStemStats {
            address,
            bytecode_len,
            account_stem: 2 + in_header as u16,
            ss_stems: Vec::new(),
            code_stems: code_groups,
            num_storage_slots: 0,
        };
        let r = StemAccumulator {
            config,
            header_limit: to_b256(config.header_slot_capacity()),
            one: to_b256(1),
            stats,
            curr_group: to_b256(0),
            last_key: None,
            keys: Ghost(Seq::empty()),
        };
        proof {
            assert(r.stats@.ss_stems =~= group_runs(config.size(), Seq::<nat>::empty()));
        }
        r
    }

    /// Takes the next slot of the account. A slot whose key is not larger
    /// than that of the slot before it is refused, and so is a slot beyond
    /// the number that can be counted; a refused slot leaves the record as
    /// it was.
    pub fn push_slot(&mut self, key: &StorageKey) -> (r: Result<(), StemError>)
        requires
            old(self).wf(),
        ensures
            final(self).wf(),
            final(self).group_size() == old(self).group_size(),
            final(self).address() == old(self).address(),
            final(self).bytecode_len() == old(self).bytecode_len(),
            r is Ok <==> (old(self).keys().len() == 0 || old(self).keys().last() < be_value(key@))
                && old(self).keys().len() < usize::MAX,
            r is Ok ==> final(self).keys() == old(self).keys().push(be_value(key@)),
            r is Err ==> final(self).keys() == old(self).keys(),
            r == Err::<(), StemError>(StemError::UnorderedSlot) <==> old(self).keys().len() > 0
                && be_value(key@) <= old(self).keys().last(),
            r == Err::<(), StemError>(StemError::SlotCountOverflow) <==> old(self).keys().len()
                == usize::MAX && be_value(key@) > old(self).keys().last(),
    {
        if let Some(prev) = self.last_key {
            if !bytes_lt(prev.as_slice(), key.as_slice()) {
                return Err(StemError::UnorderedSlot);
            }
        }
        if self.stats.num_storage_slots == usize::MAX {
            return Err(StemError::SlotCountOverflow);
        }
        let ghost g = self.config.size();
        let ghost old_keys = self.keys@;
        let ghost k = be_value(key@);
        let ghost new_keys = old_keys.push(k);
        proof {
            self.config.lemma_wf_valid();
            assert(new_keys.drop_last() == old_keys);
            assert(strictly_ascending(new_keys)) by {
                assert forall|i: int, j: int| 0 <= i < j < new_keys.len() implies new_keys[i]
                    < new_keys[j] by {
                    if j == new_keys.len() - 1 && i < j {
                        assert(old_keys[i] <= old_keys.last());
                    }
                }
            }
            lemma_header_count_bound(g, new_keys);
            lemma_runs_bounded(g, new_keys);
            lemma_runs_bounded(g, old_keys);
        }
        self.stats.num_storage_slots = self.stats.num_storage_slots + 1;
        if bytes_lt(key.as_slice(), self.header_limit.as_slice()) {
            self.stats.account_stem = self.stats.account_stem + 1;
        } else {
            let bits = self.config.group_size_bits();
            let shifted = shift_right(key, bits as usize);
            proof {
                lemma_be_value_bound(key@);
                lemma_pow2_pos(bits as nat);
                lemma2_to64();
                lemma_div_is_ordered_by_denominator(k as int, 2, g as int);
                assert(pow256(32) >= 256) by {
                    reveal_with_fuel(pow256, 2);
                    lemma_be_value_bound(key@.take(31));
                }
            }
            let group = match checked_add(&shifted, &self.one) {
                Some(group) => group,
                None => unreached(),
            };
            proof {
                lemma_lex_lt_is_numeric(group@, self.curr_group@);
            }
            if !bytes_eq(group.as_slice(), self.curr_group.as_slice()) {
                self.curr_group = group;
                self.stats.ss_stems.push(1);
            } else {
                let last = self.stats.ss_stems.len() - 1;
                let count = self.stats.ss_stems[last];
                self.stats.ss_stems.set(last, count + 1);
            }
        }
        self.last_key = Some(*key);
        self.keys = Ghost(new_keys);
        proof {
            assert(self.stats@.ss_stems =~= group_runs(g, new_keys));
        }
        Ok(())
    }

    /// Closes the record.
    pub fn finish(self) -> (r: AccountStemStats)
        requires
            self.wf(),
        ensures
            r@ == stem_stats(self.group_size(), self.address(), self.bytecode_len(), self.keys()),
    {
        self.stats
    }
}

/// The numeric keys of `slots`, in their order.
pub open spec fn key_values(slots: Seq<StorageKey>) -> Seq<nat> {
    slots.map_values(|k: StorageKey| be_value(k@))
}

/// The stem record of the account `address` with `bytecode_len` bytes of
/// code and the storage slots `slots`, which must come in strictly ascending
/// key order.
pub fn account_stem_stats(
    config: &StemConfig,
    address: Address,
    bytecode_len: usize,
    slots: &[StorageKey],
) -> (r: Result<AccountStemStats, StemError>)
    requires
        config.wf(),
    ensures
        r is Ok <==> strictly_ascending(key_values(slots@)),
        r matches Ok(stats) ==> stats@ == stem_stats(
            config.size(),
            address@,
            bytecode_len as nat,
            key_values(slots@),
        ),
        r matches Err(e) ==> e == StemError::UnorderedSlot,
{
    let mut acc = StemAccumulator::new(*config, address, bytecode_len);
    let mut i: usize = 0;
    while i < slots.len()
        invariant
            0 <= i <= slots@.len(),
            acc.wf(),
            acc.keys() == key_values(slots@).take(i as int),
            acc.group_size() == config.size(),
            acc.address() == address@,
            acc.bytecode_len() == bytecode_len,
        decreases slots@.len() - i,
    {
        let ghost before = acc.keys();
        match acc.push_slot(&slots[i]) {
            Ok(()) => {},
            Err(e) => {
                proof {
                    let all = key_values(slots@);
                    assert(before.last() == all[i - 1]);
                    assert(all[i as int] == be_value(slots@[i as int]@));
                }
                return Err(e);
            },
        }
        proof {
            let all = key_values(slots@);
            assert(all.take(i + 1) == all.take(i as int).push(all[i as int]));
        }
        i += 1;
    }
    proof {
        let all = key_values(slots@);
        assert(all.take(i as int) == all);
    }
    Ok(acc.finish())
}

/// The stem record of the account `account` in a state with the storage
/// rows `slots`.
pub open spec fn account_record(g: nat, account: AccountRecord, slots: Seq<SlotRecord>)
    -> StemStatsView {
    stem_stats(
        g,
        account.address@,
        account.code_len as nat,
        key_values(keys_of(rows_of(slots, account.address))),
    )
}

/// The stem record of one account of the state.
fn account_stats_of(config: &StemConfig, state: &StateSnapshot, account: &AccountRecord) -> (r:
    AccountStemStats)
    requires
        config.wf(),
        state.wf(),
    ensures
        r@ == account_record(config.size(), *account, state.slot_rows()),
{
    let rows = state.storage_of(&account.address);
    let ghost keys = key_values(keys_of(rows@));
    let mut acc = StemAccumulator::new(*config, account.address, account.code_len);
    let mut i: usize = 0;
    while i < rows.len()
        invariant
            0 <= i <= rows@.len(),
            keys == key_values(keys_of(rows@)),
            strictly_ascending(keys),
            acc.wf(),
            acc.keys() == keys.take(i as int),
            acc.group_size() == config.size(),
            acc.address() == account.address@,
            acc.bytecode_len() == account.code_len,
        decreases rows@.len() - i,
    {
        proof {
            assert(keys[i as int] == be_value(rows@[i as int].key@));
            assert(acc.keys().len() == i);
            if i > 0 {
                assert(keys.take(i as int).last() == keys[i - 1]);
                assert(keys[i - 1] < keys[i as int]);
            }
            assert(keys.take(i + 1) == keys.take(i as int).push(keys[i as int]));
        }
        match acc.push_slot(&rows[i].key) {
            Ok(()) => {},
            Err(_) => unreached(),
        }
        i += 1;
    }
    proof {
        assert(keys.take(i as int) == keys);
    }
    acc.finish()
}

/// The stem records of all accounts of the state under the group size
/// `group_size`, in the order of the account table. The group size is
/// checked before any account is read.
pub fn account_stats(state: &StateSnapshot, group_size: u16) -> (r: Result<
    Vec<AccountStemStats>,
    ConfigurationError,
>)
    requires
        state.wf(),
    ensures
        r is Ok <==> valid_group_size(group_size as nat),
        r matches Err(e) ==> e == (if is_power_of_two(group_size as nat) {
            ConfigurationError::GroupSizeTooSmall
        } else {
            ConfigurationError::GroupSizeNotPowerOfTwo
        }),
        r matches Ok(records) ==> records@.len() == state.account_rows().len() && forall|i: int|
            0 <= i < records@.len() ==> (#[trigger] records@[i])@ == account_record(
                group_size as nat,
                state.account_rows()[i],
                state.slot_rows(),
            ),
{
    let config = match StemConfig::new(group_size) {
        Ok(config) => config,
        Err(e) => {
            return Err(e);
        },
    };
    let accounts = state.accounts();
    let mut records: Vec<AccountStemStats> = Vec::new();
    let mut i: usize = 0;
    while i < accounts.len()
        invariant
            0 <= i <= accounts@.len(),
            accounts@ == state.account_rows(),
            config.wf(),
            config.size() == group_size,
            state.wf(),
            records@.len() == i,
            forall|j: int|
                0 <= j < i ==> (#[trigger] records@[j])@ == account_record(
                    group_size as nat,
                    state.account_rows()[j],
                    state.slot_rows(),
                ),
        decreases accounts@.len() - i,
    {
        let record = account_stats_of(&config, state, &accounts[i]);
        records.push(record);
        i += 1;
    }
    Ok(records)
}

} // verus!
