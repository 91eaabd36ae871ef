//! The figures of the account report, drawn from the stem records of all
//! accounts.

use crate::partition::AccountStemStats;
use crate::stats::{calculate_stats, summary, Stats, StatsError};
use vstd::prelude::*;

verus! {

/// An account with code.
pub open spec fn is_contract() -> spec_fn(AccountStemStats) -> bool {
    |s: AccountStemStats| s.bytecode_len > 0
}

/// An account without code.
pub open spec fn is_eoa() -> spec_fn(AccountStemStats) -> bool {
    |s: AccountStemStats| s.bytecode_len == 0
}

/// The code lengths of the accounts with code.
pub open spec fn code_lengths(stats: Seq<AccountStemStats>) -> Seq<u64> {
    stats.filter(is_contract()).map_values(|s: AccountStemStats| s.bytecode_len as u64)
}

/// The numbers of storage slots of the accounts with code.
pub open spec fn contract_slot_counts(stats: Seq<AccountStemStats>) -> Seq<u64> {
    stats.filter(is_contract()).map_values(|s: AccountStemStats| s.num_storage_slots as u64)
}

/// The numbers of header items of all accounts.
pub open spec fn header_items(stats: Seq<AccountStemStats>) -> Seq<u64> {
    stats.map_values(|s: AccountStemStats| s.account_stem as u64)
}

/// The slot counts of one account's storage groups.
pub open spec fn widened(counts: Seq<u16>) -> Seq<u64> {
    counts.map_values(|c: u16| c as u64)
}

/// The slot counts of the storage groups of all accounts, account after
/// account.
pub open spec fn group_counts(stats: Seq<AccountStemStats>) -> Seq<u64> {
    stats.map_values(|s: AccountStemStats| widened(s.ss_stems@)).flatten()
}

/// A storage group with one slot.
pub open spec fn is_single() -> spec_fn(u64) -> bool {
    |c: u64| c == 1
}

/// The number of code groups of all accounts.
pub open spec fn code_stem_total(stats: Seq<AccountStemStats>) -> nat
    decreases stats.len(),
{
    if stats.len() == 0 {
        0
    } else {
        code_stem_total(stats.drop_last()) + stats.last().code_stems as nat
    }
}

/// The figures of the account report.
#[derive(Clone, Copy, Debug, PartialEq, Eq)]
pub struct StemReport {
    /// The number of accounts without code.
    pub eoas: usize,
    /// The number of accounts with code.
    pub contracts: usize,
    /// The number of accounts.
    pub total_accounts: usize,
    /// The distribution of the code lengths of the accounts with code.
    pub code_length: Result<Stats, StatsError>,
    /// The distribution of the slot counts of the accounts with code.
    pub contract_storage_slots: Result<Stats, StatsError>,
    /// The number of header groups: one for each account.
    pub header_stems: usize,
    /// The number of storage groups.
    pub storage_slot_stems: usize,
    /// The number of code groups.
    pub code_chunk_stems: u128,
    /// The number of groups of all three kinds.
    pub total_stems: u128,
    /// The distribution of the numbers of header items.
    pub header_values: Result<Stats, StatsError>,
    /// The distribution of the slot counts of the storage groups.
    pub storage_values: Result<Stats, StatsError>,
    /// The number of storage groups with one slot.
    pub single_slot_stems: usize,
}

/// The report that the records `stats` give.
pub open spec fn report_of(stats: Seq<AccountStemStats>) -> StemReport {
    StemReport {
        eoas: stats.filter(is_eoa()).len() as usize,
        contracts: stats.filter(is_contract()).len() as usize,
        total_accounts: stats.len() as usize,
        code_length: summary(code_lengths(stats)),
        contract_storage_slots: summary(contract_slot_counts(stats)),
        header_stems: stats.len() as usize,
        storage_slot_stems: group_counts(stats).len() as usize,
        code_chunk_stems: code_stem_total(stats) as u128,
        total_stems: (stats.len() + group_counts(stats).len() + code_stem_total(stats)) as u128,
        header_values: summary(header_items(stats)),
        storage_values: summary(group_counts(stats)),
        single_slot_stems: group_counts(stats).filter(is_single()).len() as usize,
    }
}

/// The code lengths and the slot counts of the accounts with code.
fn contract_figures(stats: &Vec<AccountStemStats>) -> (r: (Vec<u64>, Vec<u64>))
    ensures
        r.0@ == code_lengths(stats@),
        r.1@ == contract_slot_counts(stats@),
        r.0@.len() == stats@.filter(is_contract()).len(),
        stats@.filter(is_eoa()).len() == stats@.len() - r.0@.len(),
{
    let mut lengths: Vec<u64> = Vec::new();
    let mut slots: Vec<u64> = Vec::new();
    let mut i: usize = 0;
    proof {
        assert(stats@.take(0) =~= Seq::<AccountStemStats>::empty());
        reveal(Seq::filter);
        assert(code_lengths(stats@.take(0)) =~= Seq::<u64>::empty());
        assert(contract_slot_counts(stats@.take(0)) =~= Seq::<u64>::empty());
    }
    while i < stats.len()
        invariant
            0 <= i <= stats@.len(),
            lengths@ == code_lengths(stats@.take(i as int)),
            slots@ == contract_slot_counts(stats@.take(i as int)),
            lengths@.len() == stats@.take(i as int).filter(is_contract()).len(),
            stats@.take(i as int).filter(is_eoa()).len() == i - lengths@.len(),
        decreases stats@.len() - i,
    {
        proof {
            let front = stats@.take(i as int);
            let s = stats@[i as int];
            assert(stats@.take(i + 1) == front.push(s));
            front.lemma_filter_push(s, is_contract());
            front.lemma_filter_push(s, is_eoa());
            if is_contract()(s) {
                assert(code_lengths(front.push(s)) =~= code_lengths(front).push(
                    s.bytecode_len as u64,
                ));
                assert(contract_slot_counts(front.push(s)) =~= contract_slot_counts(front).push(
                    s.num_storage_slots as u64,
                ));
            }
        }
        if stats[i].bytecode_len > 0 {
            lengths.push(stats[i].bytecode_len as u64);
            slots.push(stats[i].num_storage_slots as u64);
        }
        i += 1;
    }
    proof {
        assert(stats@.take(i as int) == stats@);
    }
    (lengths, slots)
}

/// The numbers of header items of all accounts.
fn header_figures(stats: &Vec<AccountStemStats>) -> (r: Vec<u64>)
    ensures
        r@ == header_items(stats@),
{
    let mut items: Vec<u64> = Vec::new();
    let mut i: usize = 0;
    while i < stats.len()
        invariant
            0 <= i <= stats@.len(),
            items@ == header_items(stats@.take(i as int)),
        decreases stats@.len() - i,
    {
        proof {
            let front = stats@.take(i as int);
            assert(stats@.take(i + 1) == front.push(stats@[i as int]));
            assert(header_items(front.push(stats@[i as int])) =~= header_items(front).push(
                stats@[i as int].account_stem as u64,
            ));
        }
        items.push(stats[i].account_stem as u64);
        i += 1;
    }
    proof {
        assert(stats@.take(i as int) == stats@);
    }
    items
}

/// The slot counts of the storage groups of all accounts, the number of
/// groups with one slot, and the number of code groups.
fn group_figures(stats: &Vec<AccountStemStats>) -> (r: (Vec<u64>, usize, u128))
    ensures
        r.0@ == group_counts(stats@),
        r.1 == group_counts(stats@).filter(is_single()).len(),
        r.2 == code_stem_total(stats@),
        r.2 <= stats@.len() * u64::MAX,
{
    let mut counts: Vec<u64> = Vec::new();
    let mut singles: usize = 0;
    let mut code_groups: u128 = 0;
    let mut i: usize = 0;
    proof {
        assert(stats@.take(0) =~= Seq::<AccountStemStats>::empty());
        reveal(Seq::filter);
    }
    while i < stats.len()
        invariant
            0 <= i <= stats@.len(),
            counts@ == group_counts(stats@.take(i as int)),
            singles == counts@.filter(is_single()).len(),
            code_groups == code_stem_total(stats@.take(i as int)),
            code_groups <= i * u64::MAX,
        decreases stats@.len() - i,
    {
        let account = &stats[i];
        let ghost front = stats@.take(i as int);
        let ghost before = counts@;
        let ghost own = widened(account.ss_stems@);
        proof {
            assert(stats@.take(i + 1) == front.push(stats@[i as int]));
            assert(stats@.take(i + 1).drop_last() == front);
            let lists = front.map_values(|s: AccountStemStats| widened(s.ss_stems@));
            assert(front.push(stats@[i as int]).map_values(
                |s: AccountStemStats| widened(s.ss_stems@),
            ) =~= lists.push(own));
            lists.lemma_flatten_push(own);
        }
        let mut j: usize = 0;
        while j < account.ss_stems.len()
            invariant
                0 <= j <= account.ss_stems@.len(),
                own == widened(account.ss_stems@),
                counts@ == before + own.take(j as int),
                singles == counts@.filter(is_single()).len(),
            decreases account.ss_stems@.len() - j,
        {
            let c = account.ss_stems[j] as u64;
            let ghost held = counts@;
            counts.push(c);
            proof {
                assert(own.take(j + 1) == own.take(j as int).push(own[j as int]));
                assert(before + own.take(j + 1) == (before + own.take(j as int)).push(c));
                held.lemma_filter_push(c, is_single());
                counts@.lemma_filter_len(is_single());
            }
            let filled = counts.len();
            if c == 1 {
                assert(singles < filled);
                singles = singles + 1;
            }
            j += 1;
        }
        proof {
            assert(own.take(j as int) == own);
        }
        code_groups = code_groups + account.code_stems as u128;
        i += 1;
    }
    proof {
        assert(stats@.take(i as int) == stats@);
    }
    (counts, singles, code_groups)
}

/// The account report over the stem records of all accounts.
pub fn stem_report(stats: &Vec<AccountStemStats>) -> (r: StemReport)
    ensures
        r == report_of(stats@),
{
    let (mut lengths, mut slots) = contract_figures(stats);
    let mut items = header_figures(stats);
    let (mut counts, singles, code_groups) = group_figures(stats);
    let contracts = lengths.len();
    let storage_groups = counts.len();
    StemReport {
        eoas: stats.len() - contracts,
        contracts,
        total_accounts: stats.len(),
        code_length: calculate_stats(&mut lengths),
        contract_storage_slots: calculate_stats(&mut slots),
        header_stems: stats.len(),
        storage_slot_stems: storage_groups,
        code_chunk_stems: code_groups,
        total_stems: stats.len() as u128 + storage_groups as u128 + code_groups,
        header_values: calculate_stats(&mut items),
        storage_values: calculate_stats(&mut counts),
        single_slot_stems: singles,
    }
}

} // verus!
