//! The stem partitioner: how many fixed-size groups an account's header,
//! code and storage slots occupy.

use crate::types::ConfigurationError;
use vstd::arithmetic::div_mod::*;
use vstd::arithmetic::power2::*;
use vstd::prelude::*;

verus! {

/// The number of header positions that precede the storage slots kept in the
/// header group.
pub const HEADER_STORAGE_OFFSET: u16 = 64;

/// The number of code bytes in one code chunk.
pub const CODE_CHUNK_BYTES: usize = 31;

/// `a / b`, rounded up.
pub open spec fn ceil_div(a: nat, b: nat) -> nat
    recommends
        b > 0,
{
    if a % b == 0 {
        a / b
    } else {
        a / b + 1
    }
}

/// A group size is a power of two.
pub open spec fn is_power_of_two(g: nat) -> bool {
    exists|e: nat| g == pow2(e)
}

/// A group size that the partitioner accepts: a power of two whose lower half
/// has room for the header positions.
pub open spec fn valid_group_size(g: nat) -> bool {
    is_power_of_two(g) && g >= 2 * HEADER_STORAGE_OFFSET
}

/// The position in the header group at which code chunks start.
pub open spec fn code_offset(g: nat) -> nat {
    g / 2
}

/// The number of storage slots that fit in the header group.
pub open spec fn header_slot_capacity(g: nat) -> nat {
    (code_offset(g) - HEADER_STORAGE_OFFSET) as nat
}

/// The number of chunks that code of `code_len` bytes is cut into.
pub open spec fn code_chunk_count(code_len: nat) -> nat {
    ceil_div(code_len, CODE_CHUNK_BYTES as nat)
}

/// The number of code chunks that live in the header group.
pub open spec fn code_chunks_in_header(g: nat, code_len: nat) -> nat {
    if code_chunk_count(code_len) <= g - code_offset(g) {
        code_chunk_count(code_len)
    } else {
        (g - code_offset(g)) as nat
    }
}

/// The header items of an account before any storage slot: the basic data,
/// the code hash, and the code chunks in the header group.
pub open spec fn account_stem_base(g: nat, code_len: nat) -> nat {
    2 + code_chunks_in_header(g, code_len)
}

/// The number of further groups that the code outside the header fills.
pub open spec fn code_stems(g: nat, code_len: nat) -> nat {
    ceil_div((code_chunk_count(code_len) - code_chunks_in_header(g, code_len)) as nat, g)
}

/// Whether the slot with numeric key `key` lives in the header group.
pub open spec fn header_resident(g: nat, key: nat) -> bool {
    key < header_slot_capacity(g)
}

/// The group of a slot outside the header; group zero is never given out.
pub open spec fn group_of(g: nat, key: nat) -> nat {
    key / g + 1
}

/// The number of header-resident slots among `keys`.
pub open spec fn header_count(g: nat, keys: Seq<nat>) -> nat
    decreases keys.len(),
{
    if keys.len() == 0 {
        0
    } else if header_resident(g, keys.last()) {
        header_count(g, keys.drop_last()) + 1
    } else {
        header_count(g, keys.drop_last())
    }
}

/// The group of the last slot of `keys` that lies outside the header, or zero
/// if there is none.
pub open spec fn last_group(g: nat, keys: Seq<nat>) -> nat
    decreases keys.len(),
{
    if keys.len() == 0 {
        0
    } else if header_resident(g, keys.last()) {
        last_group(g, keys.drop_last())
    } else {
        group_of(g, keys.last())
    }
}

/// The slot counts of the groups outside the header, in the order in which
/// `keys` visits them: a slot whose group differs from that of the slot
/// before it opens a new count, any other adds to the last one.
pub open spec fn group_runs(g: nat, keys: Seq<nat>) -> Seq<nat>
    decreases keys.len(),
{
    if keys.len() == 0 {
        Seq::empty()
    } else {
        let before = group_runs(g, keys.drop_last());
        if header_resident(g, keys.last()) {
            before
        } else if group_of(g, keys.last()) != last_group(g, keys.drop_last()) {
            before.push(1)
        } else {
            before.update(before.len() - 1, before.last() + 1)
        }
    }
}

/// Each key is larger than the one before it.
pub open spec fn strictly_ascending(keys: Seq<nat>) -> bool {
    forall|i: int, j: int| 0 <= i < j < keys.len() ==> keys[i] < keys[j]
}

/// What the partitioner records of one account, in numbers.
pub struct StemStatsView {
    pub address: Seq<u8>,
    pub bytecode_len: nat,
    pub account_stem: nat,
    pub ss_stems: Seq<nat>,
    pub code_stems: nat,
    pub num_storage_slots: nat,
}

/// The record of the account `address` with `code_len` bytes of code and the
/// slots `keys`, under group size `g`.
pub open spec fn stem_stats(g: nat, address: Seq<u8>, code_len: nat, keys: Seq<nat>)
    -> StemStatsView {
    StemStatsView {
        address,
        bytecode_len: code_len,
        account_stem: account_stem_base(g, code_len) + header_count(g, keys),
        ss_stems: group_runs(g, keys),
        code_stems: code_stems(g, code_len),
        num_storage_slots: keys.len(),
    }
}

impl StemStatsView {
    /// The number of groups the account occupies: the header group, the
    /// storage groups and the code groups.
    pub open spec fn total_stems(self) -> nat {
        1 + self.ss_stems.len() + self.code_stems
    }
}

/// The sum of the counts.
pub open spec fn total_of(counts: Seq<nat>) -> nat
    decreases counts.len(),
{
    if counts.len() == 0 {
        0
    } else {
        total_of(counts.drop_last()) + counts.last()
    }
}

/// Changing the last count changes the sum by as much.
proof fn lemma_total_of_last(counts: Seq<nat>, last: nat)
    requires
        counts.len() > 0,
    ensures
        total_of(counts.update(counts.len() - 1, last)) + counts.last() == total_of(counts) + last,
{
    let changed = counts.update(counts.len() - 1, last);
    assert(changed.drop_last() == counts.drop_last());
}

/// Every slot is counted once: in the header, or in the count of its group.
pub proof fn lemma_slots_accounted(g: nat, keys: Seq<nat>)
    requires
        g > 0,
    ensures
        header_count(g, keys) + total_of(group_runs(g, keys)) == keys.len(),
        group_runs(g, keys).len() == 0 <==> last_group(g, keys) == 0,
    decreases keys.len(),
{
    if keys.len() > 0 {
        let before = group_runs(g, keys.drop_last());
        lemma_slots_accounted(g, keys.drop_last());
        lemma_div_pos_is_pos(keys.last() as int, g as int);
        if header_resident(g, keys.last()) {
        } else if group_of(g, keys.last()) != last_group(g, keys.drop_last()) {
            assert(before.push(1).drop_last() == before);
        } else {
            lemma_total_of_last(before, before.last() + 1);
        }
    }
}

/// A larger key lies in no lower group.
pub proof fn lemma_group_monotone(g: nat, a: nat, b: nat)
    requires
        g > 0,
        a <= b,
    ensures
        group_of(g, a) <= group_of(g, b),
{
    lemma_div_is_ordered(a as int, b as int, g as int);
}

/// An account without code and without storage slots holds the two fixed
/// header items and occupies the header group alone.
pub proof fn lemma_empty_account(g: nat, address: Seq<u8>)
    requires
        valid_group_size(g),
    ensures
        stem_stats(g, address, 0, Seq::empty()).account_stem == 2,
        stem_stats(g, address, 0, Seq::empty()).ss_stems.len() == 0,
        stem_stats(g, address, 0, Seq::empty()).code_stems == 0,
        stem_stats(g, address, 0, Seq::empty()).total_stems() == 1,
{
    assert(0nat % 31 == 0 && 0nat / 31 == 0);
    lemma_div_of0(g as int);
    lemma_small_mod(0, g);
}

/// The header's room for slots ends exclusively: the slot whose key equals
/// the capacity lies outside the header and adds nothing to the header
/// count, the slot one below it lies inside and adds one.
pub proof fn lemma_header_boundary(g: nat, keys: Seq<nat>)
    requires
        valid_group_size(g),
    ensures
        !header_resident(g, header_slot_capacity(g)),
        header_count(g, keys.push(header_slot_capacity(g))) == header_count(g, keys),
        header_slot_capacity(g) > 0 ==> header_resident(
            g,
            (header_slot_capacity(g) - 1) as nat,
        ) && header_count(g, keys.push((header_slot_capacity(g) - 1) as nat)) == header_count(
            g,
            keys,
        ) + 1,
{
    let cap = header_slot_capacity(g);
    assert(keys.push(cap).drop_last() == keys);
    if cap > 0 {
        assert(keys.push((cap - 1) as nat).drop_last() == keys);
    }
}

/// A validated group size.
#[derive(Clone, Copy, Debug)]
pub struct StemConfig {
    group_size: u16,
    group_size_bits: u32,
}

impl StemConfig {
    /// The group size in numbers.
    pub closed spec fn size(&self) -> nat {
        self.group_size as nat
    }

    /// The group size is valid and the recorded exponent is its logarithm.
    pub closed spec fn wf(&self) -> bool {
        &&& self.group_size as nat == pow2(self.group_size_bits as nat)
        &&& 7 <= self.group_size_bits <= 15
    }

    /// A well-formed configuration holds a valid group size that fits 16 bits.
    pub proof fn lemma_wf_valid(&self)
        requires
            self.wf(),
        ensures
            valid_group_size(self.size()),
            128 <= self.size() <= 32768,
            self.size() % 2 == 0,
    {
        lemma2_to64();
        let e = self.group_size_bits as nat;
        if e > 7 {
            lemma_pow2_strictly_increases(7, e);
        }
        lemma_pow2_unfold(e);
    }

    /// Accepts `group_size` if it is a power of two of at least twice the
    /// header offset.
    pub fn new(group_size: u16) -> (r: Result<StemConfig, ConfigurationError>)
        ensures
            r is Ok <==> valid_group_size(group_size as nat),
            r matches Ok(c) ==> c.wf() && c.size() == group_size,
            r == Err::<StemConfig, ConfigurationError>(
                ConfigurationError::GroupSizeNotPowerOfTwo,
            ) <==> !is_power_of_two(group_size as nat),
            r == Err::<StemConfig, ConfigurationError>(ConfigurationError::GroupSizeTooSmall)
                <==> is_power_of_two(group_size as nat) && group_size < 2
                * HEADER_STORAGE_OFFSET,
    {
        let mut power: u16 = 1;
        let mut bits: u32 = 0;
        proof {
            lemma2_to64();
        }
        while power < group_size && bits < 15
            invariant
                power as nat == pow2(bits as nat),
                bits <= 15,
                bits > 0 ==> pow2((bits - 1) as nat) < group_size,
            decreases 15 - bits,
        {
            proof {
                lemma2_to64();
                lemma_pow2_unfold((bits + 1) as nat);
                if bits < 14 {
                    lemma_pow2_strictly_increases((bits + 1) as nat, 15);
                }
            }
            power = power * 2;
            bits = bits + 1;
        }
        if power != group_size {
            proof {
                lemma2_to64();
                assert forall|e: nat| group_size as nat != pow2(e) by {
                    if e < bits {
                        if e < bits - 1 {
                            lemma_pow2_strictly_increases(e, (bits - 1) as nat);
                        }
                    } else if power > group_size {
                        if e > bits {
                            lemma_pow2_strictly_increases(bits as nat, e);
                        }
                    } else {
                        lemma_pow2_strictly_increases(15, 16);
                        if e > 16 {
                            lemma_pow2_strictly_increases(16, e);
                        }
                    }
                }
            }
            return Err(ConfigurationError::GroupSizeNotPowerOfTwo);
        }
        if group_size < 2 * HEADER_STORAGE_OFFSET {
            return Err(ConfigurationError::GroupSizeTooSmall);
        }
        proof {
            lemma2_to64();
            if bits < 7 {
                lemma_pow2_strictly_increases(bits as nat, 7);
            }
        }
        Ok(StemConfig { group_size, group_size_bits: bits })
    }

    /// The group size.
    pub fn group_size(&self) -> (r: u16)
        ensures
            r == self.size(),
    {
        self.group_size
    }

    /// The base-two logarithm of the group size.
    pub fn group_size_bits(&self) -> (r: u32)
        requires
            self.wf(),
        ensures
            self.size() == pow2(r as nat),
    {
        self.group_size_bits
    }

    /// The position in the header group at which code chunks start.
    pub fn code_offset(&self) -> (r: u16)
        ensures
            r == code_offset(self.size()),
    {
        self.group_size / 2
    }

    /// The number of storage slots that fit in the header group.
    pub fn header_slot_capacity(&self) -> (r: u16)
        requires
            self.wf(),
        ensures
            r == header_slot_capacity(self.size()),
    {
        proof {
            self.lemma_wf_valid();
        }
        self.group_size / 2 - HEADER_STORAGE_OFFSET
    }
}

} // verus!
