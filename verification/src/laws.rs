//! The contract's laws: every commit's revert restores the exact prior
//! state, and every complete operation keeps the balance equation
//! `total_balance == sum of active and inactive balances`.
//!
//! Sortedness of the active table, uniqueness of its addresses and
//! positivity of all stored balances are the `wf` predicate, which every
//! mutator's contract carries in and out; the lemmas here add what `wf`
//! does not say.

use vstd::prelude::*;
use crate::types::{AccountError, ActiveStakeV, Address, Coin, InactiveStake, TransactionV};
use crate::seqs::{
    active_find, active_has, active_remove, addrs_has, addrs_remove, inact_find, inact_remove,
    lemma_active_find_contains, lemma_active_insert_props, lemma_active_insert_remove,
    lemma_active_remove_insert, lemma_active_remove_props, lemma_addrs_insert_props,
    lemma_addrs_insert_remove, lemma_addrs_remove_insert, lemma_addrs_remove_props,
    lemma_inact_find_contains, lemma_inact_insert_props, lemma_inact_insert_remove,
    lemma_inact_remove_insert, lemma_inact_remove_props,
};
use crate::contract::{
    StakingContractV, addrs_set_insert, balanced, spec_retire_recipient, spec_retire_sender,
    spec_revert_retire_recipient, spec_revert_retire_sender, spec_revert_stake,
    spec_revert_unpark_recipient, spec_revert_unpark_sender, spec_revert_unstake, spec_stake,
    spec_unpark_recipient, spec_unpark_sender, spec_unstake, wf,
};

verus! {

// ---------------------------------------------------------------------------
// Revert laws: reverting a commit restores the state byte-exactly.
// ---------------------------------------------------------------------------

/// Reverting a stake commit with its receipt restores the prior state
/// exactly, order of the active table included.
pub proof fn lemma_stake_revert(
    v: StakingContractV,
    staker: Address,
    value: Coin,
    key: Seq<u8>,
    reward: Option<Address>,
)
    requires
        wf(v),
        value > 0,
        spec_stake(v, staker, value, key, reward) is Ok,
    ensures
        ({
            let (v2, rv) = spec_stake(v, staker, value, key, reward)->Ok_0;
            spec_revert_stake(v2, staker, value, rv) == Ok::<StakingContractV, AccountError>(v)
        }),
{
    let (v2, rv) = spec_stake(v, staker, value, key, reward)->Ok_0;
    match active_find(v.active, staker) {
        Some(e) => {
            lemma_active_find_contains(v.active, staker);
            let s1 = active_remove(v.active, staker);
            let new_e = ActiveStakeV {
                staker_address: staker,
                balance: (e.balance + value) as u64,
                validator_key: key,
                reward_address: reward,
            };
            lemma_active_remove_props(v.active, staker);
            lemma_active_insert_props(s1, new_e);
            lemma_active_remove_insert(s1, new_e);
            lemma_active_insert_remove(v.active, staker);
            let rebuilt = ActiveStakeV {
                staker_address: staker,
                balance: (new_e.balance - value) as u64,
                validator_key: rv->Some_0.validator_key,
                reward_address: rv->Some_0.reward_address,
            };
            assert(rebuilt =~= e);
            assert(spec_revert_stake(v2, staker, value, rv)->Ok_0 =~= v);
        },
        None => {
            let new_e = ActiveStakeV {
                staker_address: staker,
                balance: value,
                validator_key: key,
                reward_address: reward,
            };
            lemma_active_insert_props(v.active, new_e);
            lemma_active_remove_insert(v.active, new_e);
            assert(spec_revert_stake(v2, staker, value, rv)->Ok_0 =~= v);
        },
    }
}

/// Reverting a retire-sender commit with its receipt restores the prior
/// state exactly.
pub proof fn lemma_retire_sender_revert(v: StakingContractV, staker: Address, total_value: Coin)
    requires
        wf(v),
        total_value > 0,
        spec_retire_sender(v, staker, total_value) is Ok,
    ensures
        ({
            let (v1, rv) = spec_retire_sender(v, staker, total_value)->Ok_0;
            spec_revert_retire_sender(v1, staker, total_value, rv) == Ok::<
                StakingContractV,
                AccountError,
            >(v)
        }),
{
    let (v1, rv) = spec_retire_sender(v, staker, total_value)->Ok_0;
    let e = active_find(v.active, staker)->Some_0;
    lemma_active_find_contains(v.active, staker);
    lemma_active_remove_props(v.active, staker);
    let s1 = active_remove(v.active, staker);
    if e.balance > total_value {
        let new_e = ActiveStakeV {
            staker_address: staker,
            balance: (e.balance - total_value) as u64,
            validator_key: e.validator_key,
            reward_address: e.reward_address,
        };
        lemma_active_insert_props(s1, new_e);
        lemma_active_remove_insert(s1, new_e);
        lemma_active_insert_remove(v.active, staker);
        let rebuilt = ActiveStakeV {
            staker_address: staker,
            balance: (new_e.balance + total_value) as u64,
            validator_key: new_e.validator_key,
            reward_address: new_e.reward_address,
        };
        assert(rebuilt =~= e);
        assert(spec_revert_retire_sender(v1, staker, total_value, rv)->Ok_0 =~= v);
    } else {
        let rebuilt = ActiveStakeV {
            staker_address: staker,
            balance: total_value,
            validator_key: rv->Some_0.validator_key,
            reward_address: rv->Some_0.reward_address,
        };
        assert(rebuilt =~= e);
        lemma_active_insert_remove(v.active, staker);
        assert(spec_revert_retire_sender(v1, staker, total_value, rv)->Ok_0 =~= v);
    }
}

/// Reverting a retire-recipient commit with its receipt restores the prior
/// state exactly, the old retire time included.
pub proof fn lemma_retire_recipient_revert(
    v: StakingContractV,
    staker: Address,
    value: Coin,
    block_height: u32,
)
    requires
        wf(v),
        value > 0,
        spec_retire_recipient(v, staker, value, block_height) is Ok,
    ensures
        ({
            let (v1, rc) = spec_retire_recipient(v, staker, value, block_height)->Ok_0;
            spec_revert_retire_recipient(v1, staker, value, rc) == Ok::<
                StakingContractV,
                AccountError,
            >(v)
        }),
{
    let (v1, rc) = spec_retire_recipient(v, staker, value, block_height)->Ok_0;
    match inact_find(v.inactive, staker) {
        Some(st) => {
            lemma_inact_find_contains(v.inactive, staker);
            lemma_inact_remove_props(v.inactive, staker);
            let s1 = inact_remove(v.inactive, staker);
            let new_st = InactiveStake {
                balance: (st.balance + value) as u64,
                retire_time: block_height,
            };
            lemma_inact_insert_props(s1, (staker, new_st));
            lemma_inact_remove_insert(s1, (staker, new_st));
            lemma_inact_insert_remove(v.inactive, staker);
            let m = choose|m: int|
                0 <= m < v.inactive.len() && v.inactive[m] == (staker, st);
            assert(v.inactive[m].1.balance > 0);
            assert(new_st.balance > value);
            let rebuilt = InactiveStake {
                balance: (new_st.balance - value) as u64,
                retire_time: rc->Some_0.retire_time,
            };
            assert(rebuilt == st);
            assert(spec_revert_retire_recipient(v1, staker, value, rc)->Ok_0 =~= v);
        },
        None => {
            let new_st = InactiveStake { balance: value, retire_time: block_height };
            lemma_inact_insert_props(v.inactive, (staker, new_st));
            lemma_inact_remove_insert(v.inactive, (staker, new_st));
            assert(spec_revert_retire_recipient(v1, staker, value, rc)->Ok_0 =~= v);
        },
    }
}

/// Reverting an unstake commit with its receipt restores the prior state
/// exactly.
pub proof fn lemma_unstake_revert(v: StakingContractV, staker: Address, total_value: Coin)
    requires
        wf(v),
        total_value > 0,
        spec_unstake(v, staker, total_value) is Ok,
    ensures
        ({
            let (v1, rc) = spec_unstake(v, staker, total_value)->Ok_0;
            spec_revert_unstake(v1, staker, total_value, rc) == Ok::<
                StakingContractV,
                AccountError,
            >(v)
        }),
{
    let (v1, rc) = spec_unstake(v, staker, total_value)->Ok_0;
    let st = inact_find(v.inactive, staker)->Some_0;
    lemma_inact_find_contains(v.inactive, staker);
    lemma_inact_remove_props(v.inactive, staker);
    let s1 = inact_remove(v.inactive, staker);
    if st.balance > total_value {
        let new_st = InactiveStake {
            balance: (st.balance - total_value) as u64,
            retire_time: st.retire_time,
        };
        lemma_inact_insert_props(s1, (staker, new_st));
        lemma_inact_remove_insert(s1, (staker, new_st));
        lemma_inact_insert_remove(v.inactive, staker);
        let rebuilt = InactiveStake {
            balance: (new_st.balance + total_value) as u64,
            retire_time: new_st.retire_time,
        };
        assert(rebuilt == st);
        assert(spec_revert_unstake(v1, staker, total_value, rc)->Ok_0 =~= v);
    } else {
        let rebuilt = InactiveStake { balance: total_value, retire_time: rc->Some_0.retire_time };
        assert(rebuilt == st);
        lemma_inact_insert_remove(v.inactive, staker);
        assert(spec_revert_unstake(v1, staker, total_value, rc)->Ok_0 =~= v);
    }
}

/// Reverting an unpark-sender commit restores the prior state exactly.
pub proof fn lemma_unpark_sender_revert(
    v: StakingContractV,
    staker: Address,
    total_value: Coin,
    fee: Coin,
)
    requires
        wf(v),
        fee < total_value,
        spec_unpark_sender(v, staker, total_value, fee) is Ok,
    ensures
        spec_revert_unpark_sender(
            spec_unpark_sender(v, staker, total_value, fee)->Ok_0,
            staker,
            total_value,
            fee,
        ) == Ok::<StakingContractV, AccountError>(v),
{
    let v1 = spec_unpark_sender(v, staker, total_value, fee)->Ok_0;
    let e = active_find(v.active, staker)->Some_0;
    lemma_active_find_contains(v.active, staker);
    lemma_active_remove_props(v.active, staker);
    let s1 = active_remove(v.active, staker);
    let new_e = ActiveStakeV {
        staker_address: staker,
        balance: (total_value - fee) as u64,
        validator_key: e.validator_key,
        reward_address: e.reward_address,
    };
    lemma_active_insert_props(s1, new_e);
    lemma_active_remove_insert(s1, new_e);
    lemma_active_insert_remove(v.active, staker);
    let rebuilt = ActiveStakeV {
        staker_address: staker,
        balance: total_value,
        validator_key: new_e.validator_key,
        reward_address: new_e.reward_address,
    };
    assert(rebuilt =~= e);
    assert(spec_revert_unpark_sender(v1, staker, total_value, fee)->Ok_0 =~= v);
}

/// Reverting an unpark-recipient commit with its receipt restores the
/// prior state exactly, both parking sets included.
pub proof fn lemma_unpark_recipient_revert(v: StakingContractV, staker: Address, value: Coin)
    requires
        wf(v),
        spec_unpark_recipient(v, staker, value) is Ok,
    ensures
        ({
            let (v1, rc) = spec_unpark_recipient(v, staker, value)->Ok_0;
            spec_revert_unpark_recipient(v1, staker, value, rc) == Ok::<
                StakingContractV,
                AccountError,
            >(v)
        }),
{
    let (v1, rc) = spec_unpark_recipient(v, staker, value)->Ok_0;
    lemma_addrs_remove_props(v.current_parking, staker);
    lemma_addrs_remove_props(v.previous_parking, staker);
    if rc.current_epoch {
        lemma_addrs_insert_remove(v.current_parking, staker);
    }
    if rc.previous_epoch {
        lemma_addrs_insert_remove(v.previous_parking, staker);
    }
    assert(spec_revert_unpark_recipient(v1, staker, value, rc)->Ok_0 =~= v);
}

/// Removing a freshly parked address un-parks it exactly: the slash revert
/// law at the level of the parking set.
pub proof fn lemma_slash_revert(current: Seq<Address>, a: Address)
    requires
        crate::seqs::addrs_sorted(current),
        !addrs_has(current, a),
    ensures
        addrs_has(addrs_set_insert(current, a), a),
        addrs_remove(addrs_set_insert(current, a), a) == current,
{
    lemma_addrs_insert_props(current, a);
    lemma_addrs_remove_insert(current, a);
}

// ---------------------------------------------------------------------------
// Revert laws through the engine, receipts as bytes.
// ---------------------------------------------------------------------------

/// The key stored under a found address has the canonical length.
proof fn lemma_found_key_len(s: Seq<ActiveStakeV>, a: Address)
    requires
        crate::seqs::active_ok(s),
        active_has(s, a),
    ensures
        active_find(s, a)->Some_0.balance > 0,
        active_find(s, a)->Some_0.validator_key.len() == crate::types::VALIDATOR_KEY_SIZE,
{
    lemma_active_find_contains(s, a);
    let e = active_find(s, a)->Some_0;
    let m = choose|m: int| 0 <= m < s.len() && s[m] == e;
    assert(s[m].balance > 0);
}

/// Reverting a committed incoming transaction with the receipt bytes the
/// commit produced restores the prior state exactly.
pub proof fn lemma_commit_revert_incoming(v: StakingContractV, t: TransactionV, block_height: u32)
    requires
        wf(v),
        t.value > 0,
        crate::engine::spec_commit_incoming(v, t, block_height) is Ok,
    ensures
        ({
            let (v2, rb) = crate::engine::spec_commit_incoming(v, t, block_height)->Ok_0;
            crate::engine::spec_revert_incoming(v2, t, rb) == Ok::<StakingContractV, AccountError>(
                v,
            )
        }),
{
    let (v2, rb) = crate::engine::spec_commit_incoming(v, t, block_height)->Ok_0;
    if t.sender != t.recipient {
        let (key, reward) = crate::codec::parse_staking_data(t.data)->Some_0;
        let rv = spec_stake(v, t.sender, t.value, key, reward)->Ok_0.1;
        lemma_stake_revert(v, t.sender, t.value, key, reward);
        match rv {
            Some(rcv) => {
                lemma_found_key_len(v.active, t.sender);
                crate::codec::lemma_asr_roundtrip(rcv);
            },
            None => {},
        }
    } else if t.data[0] == 1 {
        let rc = spec_retire_recipient(v, t.signer, t.value, block_height)->Ok_0.1;
        lemma_retire_recipient_revert(v, t.signer, t.value, block_height);
        match rc {
            Some(rcc) => {
                crate::codec::lemma_isr_roundtrip(rcc);
            },
            None => {},
        }
    } else {
        let rc = spec_unpark_recipient(v, t.signer, t.value)->Ok_0.1;
        lemma_unpark_recipient_revert(v, t.signer, t.value);
        crate::codec::lemma_upr_roundtrip(rc);
    }
}

/// Reverting a committed outgoing transaction with the receipt bytes the
/// commit produced restores the prior state exactly.
pub proof fn lemma_commit_revert_outgoing(v: StakingContractV, t: TransactionV, block_height: u32)
    requires
        wf(v),
        t.value > 0,
        crate::engine::spec_commit_outgoing(v, t, block_height) is Ok,
    ensures
        ({
            let (v2, rb) = crate::engine::spec_commit_outgoing(v, t, block_height)->Ok_0;
            crate::engine::spec_revert_outgoing(v2, t, rb) == Ok::<StakingContractV, AccountError>(
                v,
            )
        }),
{
    let total = (t.value + t.fee) as u64;
    if t.sender != t.recipient {
        let rc = spec_unstake(v, t.signer, total)->Ok_0.1;
        lemma_unstake_revert(v, t.signer, total);
        match rc {
            Some(rcc) => {
                crate::codec::lemma_isr_roundtrip(rcc);
            },
            None => {},
        }
    } else if t.data[0] == 1 {
        let rv = spec_retire_sender(v, t.signer, total)->Ok_0.1;
        lemma_retire_sender_revert(v, t.signer, total);
        match rv {
            Some(rcv) => {
                lemma_found_key_len(v.active, t.signer);
                crate::codec::lemma_asr_roundtrip(rcv);
            },
            None => {},
        }
    } else {
        lemma_unpark_sender_revert(v, t.signer, total, t.fee);
    }
}

/// Reverting a committed slash inherent with the receipt bytes the commit
/// produced restores the prior state exactly.
pub proof fn lemma_commit_revert_slash(v: StakingContractV, inh: crate::types::InherentV, block_height: u32)
    requires
        wf(v),
        inh.ty == crate::types::InherentType::Slash,
        crate::engine::spec_commit_inherent(v, inh, block_height) is Ok,
    ensures
        ({
            let (v2, rb) = crate::engine::spec_commit_inherent(v, inh, block_height)->Ok_0;
            crate::engine::spec_revert_inherent(v2, inh, rb) == Ok::<StakingContractV, AccountError>(
                v,
            )
        }),
{
    let (v2, rb) = crate::engine::spec_commit_inherent(v, inh, block_height)->Ok_0;
    let a = crate::codec::addr_of_bytes(inh.data.subrange(0, crate::types::ADDRESS_SIZE as int));
    let newly = !addrs_has(v.current_parking, a);
    let rc = crate::types::SlashReceipt { newly_slashed: newly };
    crate::codec::lemma_slash_roundtrip(rc);
    if newly {
        lemma_addrs_insert_props(v.current_parking, a);
        lemma_addrs_remove_insert(v.current_parking, a);
        assert(crate::engine::spec_revert_inherent(v2, inh, rb)->Ok_0 =~= v);
    } else {
        assert(v2 =~= v);
    }
}

// ---------------------------------------------------------------------------
// The balance equation across complete operations.
// ---------------------------------------------------------------------------

/// A stake commit keeps the balance equation.
pub proof fn lemma_stake_keeps_balance(
    v: StakingContractV,
    staker: Address,
    value: Coin,
    key: Seq<u8>,
    reward: Option<Address>,
)
    requires
        wf(v),
        balanced(v),
        spec_stake(v, staker, value, key, reward) is Ok,
    ensures
        balanced(spec_stake(v, staker, value, key, reward)->Ok_0.0),
{
    match active_find(v.active, staker) {
        Some(e) => {
            lemma_active_remove_props(v.active, staker);
            let s1 = active_remove(v.active, staker);
            let new_e = ActiveStakeV {
                staker_address: staker,
                balance: (e.balance + value) as u64,
                validator_key: key,
                reward_address: reward,
            };
            lemma_active_insert_props(s1, new_e);
        },
        None => {
            let new_e = ActiveStakeV {
                staker_address: staker,
                balance: value,
                validator_key: key,
                reward_address: reward,
            };
            lemma_active_insert_props(v.active, new_e);
        },
    }
}

/// An unstake commit keeps the balance equation.
pub proof fn lemma_unstake_keeps_balance(v: StakingContractV, staker: Address, total_value: Coin)
    requires
        wf(v),
        balanced(v),
        spec_unstake(v, staker, total_value) is Ok,
    ensures
        balanced(spec_unstake(v, staker, total_value)->Ok_0.0),
{
    let st = inact_find(v.inactive, staker)->Some_0;
    lemma_inact_remove_props(v.inactive, staker);
    let s1 = inact_remove(v.inactive, staker);
    if st.balance > total_value {
        let new_st = InactiveStake {
            balance: (st.balance - total_value) as u64,
            retire_time: st.retire_time,
        };
        lemma_inact_insert_props(s1, (staker, new_st));
    }
}

/// A complete retire self-transaction (sender side with `value + fee`,
/// then recipient side with `value`) moves the fee out of the contract and
/// keeps the balance equation.
pub proof fn lemma_retire_pair_keeps_balance(
    v: StakingContractV,
    staker: Address,
    value: Coin,
    fee: Coin,
    block_height: u32,
)
    requires
        wf(v),
        balanced(v),
        value + fee <= u64::MAX,
        value > 0,
        spec_retire_sender(v, staker, (value + fee) as u64) is Ok,
        spec_retire_recipient(
            spec_retire_sender(v, staker, (value + fee) as u64)->Ok_0.0,
            staker,
            value,
            block_height,
        ) is Ok,
    ensures
        balanced(
            spec_retire_recipient(
                spec_retire_sender(v, staker, (value + fee) as u64)->Ok_0.0,
                staker,
                value,
                block_height,
            )->Ok_0.0,
        ),
{
    let total = (value + fee) as u64;
    let e = active_find(v.active, staker)->Some_0;
    lemma_active_remove_props(v.active, staker);
    let s1 = active_remove(v.active, staker);
    if e.balance > total {
        let new_e = ActiveStakeV {
            staker_address: staker,
            balance: (e.balance - total) as u64,
            validator_key: e.validator_key,
            reward_address: e.reward_address,
        };
        lemma_active_insert_props(s1, new_e);
    }
    let v1 = spec_retire_sender(v, staker, total)->Ok_0.0;
    match inact_find(v1.inactive, staker) {
        Some(st) => {
            lemma_inact_remove_props(v1.inactive, staker);
            let t1 = inact_remove(v1.inactive, staker);
            let new_st = InactiveStake {
                balance: (st.balance + value) as u64,
                retire_time: block_height,
            };
            lemma_inact_insert_props(t1, (staker, new_st));
        },
        None => {
            let new_st = InactiveStake { balance: value, retire_time: block_height };
            lemma_inact_insert_props(v1.inactive, (staker, new_st));
        },
    }
}

/// A complete unpark self-transaction (sender side with `value + fee`,
/// then recipient side with `value`) moves the fee out of the contract and
/// keeps the balance equation.
pub proof fn lemma_unpark_pair_keeps_balance(
    v: StakingContractV,
    staker: Address,
    value: Coin,
    fee: Coin,
)
    requires
        wf(v),
        balanced(v),
        value + fee <= u64::MAX,
        value > 0,
        spec_unpark_sender(v, staker, (value + fee) as u64, fee) is Ok,
        spec_unpark_recipient(
            spec_unpark_sender(v, staker, (value + fee) as u64, fee)->Ok_0,
            staker,
            value,
        ) is Ok,
    ensures
        balanced(
            spec_unpark_recipient(
                spec_unpark_sender(v, staker, (value + fee) as u64, fee)->Ok_0,
                staker,
                value,
            )->Ok_0.0,
        ),
{
    let total = (value + fee) as u64;
    let e = active_find(v.active, staker)->Some_0;
    lemma_active_remove_props(v.active, staker);
    let s1 = active_remove(v.active, staker);
    let new_e = ActiveStakeV {
        staker_address: staker,
        balance: (total - fee) as u64,
        validator_key: e.validator_key,
        reward_address: e.reward_address,
    };
    lemma_active_insert_props(s1, new_e);
}

} // verus!
