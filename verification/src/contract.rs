//! The staking contract state and its core mutators.
//!
//! Every mutator is specified against a pure transform on the contract's
//! mathematical view (`spec_stake`, `spec_retire_sender`, ...): on success
//! the new state is exactly the transform's output, on failure the state is
//! unchanged.  The transforms compose, so the revert laws are stated and
//! proved over them in `laws`.

use vstd::prelude::*;
use crate::types::{
    AccountError, ActiveStake, ActiveStakeReceipt, ActiveStakeReceiptV, ActiveStakeV, Address,
    Coin, InactiveStake, InactiveStakeReceipt, UnparkReceipt, balance_add, balance_sub,
    VALIDATOR_KEY_SIZE,
};
use crate::types::addr_lt;
use crate::seqs::{
    active_find, active_has, active_insert, active_lt, active_ok, active_remove, active_sorted,
    active_sum, active_unique, addrs_has, addrs_insert, addrs_remove, addrs_sorted,
    inact_find, inact_has, inact_insert, inact_ok, inact_remove, inact_sorted, inact_sum,
    InactiveEntry, lemma_active_find_at, lemma_active_find_none, lemma_active_insert_at,
    lemma_active_insert_ok, lemma_active_insert_props, lemma_active_insert_unique,
    lemma_active_remove_ok, lemma_active_remove_props, lemma_active_sum_bounds,
    lemma_addrs_at, lemma_addrs_insert_at, lemma_addrs_insert_props, lemma_addrs_none,
    lemma_addrs_remove_props, lemma_inact_find_at, lemma_inact_find_none, lemma_inact_insert_at,
    lemma_inact_insert_ok, lemma_inact_insert_props, lemma_inact_remove_ok,
    lemma_inact_remove_props, lemma_inact_sum_bounds,
};

verus! {

/// Mathematical view of the whole contract state.
#[verifier::ext_equal]
pub struct StakingContractV {
    pub balance: Coin,
    pub active: Seq<ActiveStakeV>,
    pub inactive: Seq<InactiveEntry>,
    pub current_parking: Seq<Address>,
    pub previous_parking: Seq<Address>,
}

/// The staking contract.
///
/// The active table has a single owner, the balance-sorted vector; lookups
/// by address scan it, so the "same tuples in both containers" invariant of
/// the two-container presentation holds by construction.
#[derive(Clone, Debug, PartialEq, Eq)]
pub struct StakingContract {
    pub balance: Coin,
    pub active_stake_sorted: Vec<ActiveStake>,
    pub inactive_stake_by_address: Vec<(Address, InactiveStake)>,
    pub current_epoch_parking: Vec<Address>,
    pub previous_epoch_parking: Vec<Address>,
}

/// View of a vector of active stakes.
pub open spec fn av(s: Seq<ActiveStake>) -> Seq<ActiveStakeV> {
    Seq::new(s.len(), |i: int| s[i]@)
}

impl View for StakingContract {
    type V = StakingContractV;

    open spec fn view(&self) -> StakingContractV {
        StakingContractV {
            balance: self.balance,
            active: av(self.active_stake_sorted@),
            inactive: self.inactive_stake_by_address@,
            current_parking: self.current_epoch_parking@,
            previous_parking: self.previous_epoch_parking@,
        }
    }
}

/// Structural well-formedness: the tables are strictly sorted, addresses
/// unique, all stored balances positive, all keys of canonical length.
pub open spec fn wf(v: StakingContractV) -> bool {
    &&& active_sorted(v.active)
    &&& active_unique(v.active)
    &&& active_ok(v.active)
    &&& inact_sorted(v.inactive)
    &&& inact_ok(v.inactive)
    &&& addrs_sorted(v.current_parking)
    &&& addrs_sorted(v.previous_parking)
}

/// The top-level balance equation: the contract balance is the sum of all
/// active and inactive balances.  It holds between complete operations; the
/// sender half of a self-transaction leaves it to the recipient half to
/// restore.
pub open spec fn balanced(v: StakingContractV) -> bool {
    v.balance == active_sum(v.active) + inact_sum(v.inactive)
}

/// Active balance of `a` (zero when absent).
pub open spec fn active_balance_of(v: StakingContractV, a: Address) -> Coin {
    match active_find(v.active, a) {
        Some(e) => e.balance,
        None => 0,
    }
}

/// Inactive balance of `a` (zero when absent).
pub open spec fn inactive_balance_of(v: StakingContractV, a: Address) -> Coin {
    match inact_find(v.inactive, a) {
        Some(e) => e.balance,
        None => 0,
    }
}

/// View of an optional active-stake receipt.
pub open spec fn asr_opt_view(r: Option<ActiveStakeReceipt>) -> Option<ActiveStakeReceiptV> {
    match r {
        Some(x) => Some(x@),
        None => None,
    }
}

// ---------------------------------------------------------------------------
// Sorted-vector helpers.
// ---------------------------------------------------------------------------

/// Decides the active-table order.
pub(crate) fn active_stake_before(a: &ActiveStake, b: &ActiveStake) -> (r: bool)
    ensures
        r == active_lt(a@, b@),
{
    b.balance < a.balance || (a.balance == b.balance && a.staker_address.lt(&b.staker_address))
}

/// Index of the entry of `a` in the active table, if any.
pub(crate) fn find_active_index(v: &Vec<ActiveStake>, a: &Address) -> (r: Option<usize>)
    ensures
        match r {
            Some(i) => i < v@.len() && v@[i as int].staker_address == *a && active_find(
                av(v@),
                *a,
            ) == Some(v@[i as int]@) && active_remove(av(v@), *a) == av(v@).remove(i as int),
            None => !active_has(av(v@), *a),
        },
{
    let mut i: usize = 0;
    while i < v.len()
        invariant
            i <= v@.len(),
            forall|j: int| 0 <= j < i ==> av(v@)[j].staker_address != *a,
        decreases v@.len() - i,
    {
        if v[i].staker_address == *a {
            proof {
                lemma_active_find_at(av(v@), *a, i as int);
            }
            return Some(i);
        }
        i = i + 1;
    }
    proof {
        lemma_active_find_none(av(v@), *a);
    }
    None
}

/// Inserts `e` at its sorted position.
pub(crate) fn insert_active(v: &mut Vec<ActiveStake>, e: ActiveStake)
    ensures
        av(final(v)@) == active_insert(av(old(v)@), e@),
{
    let ghost s0 = av(v@);
    let mut i: usize = 0;
    while i < v.len() && !active_stake_before(&e, &v[i])
        invariant
            i <= v@.len(),
            v@ == old(v)@,
            s0 == av(v@),
            forall|j: int| 0 <= j < i ==> !active_lt(e@, #[trigger] s0[j]),
        decreases v@.len() - i,
    {
        i = i + 1;
    }
    proof {
        lemma_active_insert_at(s0, e@, i as int);
    }
    v.insert(i, e);
    proof {
        assert(av(v@) =~= s0.insert(i as int, e@));
    }
}

/// Index of the row of `a` in the inactive table, if any.
pub(crate) fn find_inactive_index(v: &Vec<(Address, InactiveStake)>, a: &Address) -> (r: Option<usize>)
    ensures
        match r {
            Some(i) => i < v@.len() && v@[i as int].0 == *a && inact_find(v@, *a) == Some(
                v@[i as int].1,
            ) && inact_remove(v@, *a) == v@.remove(i as int),
            None => !inact_has(v@, *a),
        },
{
    let mut i: usize = 0;
    while i < v.len()
        invariant
            i <= v@.len(),
            forall|j: int| 0 <= j < i ==> v@[j].0 != *a,
        decreases v@.len() - i,
    {
        if v[i].0 == *a {
            proof {
                lemma_inact_find_at(v@, *a, i as int);
            }
            return Some(i);
        }
        i = i + 1;
    }
    proof {
        lemma_inact_find_none(v@, *a);
    }
    None
}

/// Inserts the row `e` at its sorted position.
pub(crate) fn insert_inactive(v: &mut Vec<(Address, InactiveStake)>, e: (Address, InactiveStake))
    ensures
        final(v)@ == inact_insert(old(v)@, e),
{
    let ghost s0 = v@;
    let mut i: usize = 0;
    while i < v.len() && !e.0.lt(&v[i].0)
        invariant
            i <= v@.len(),
            v@ == old(v)@,
            s0 == v@,
            forall|j: int| 0 <= j < i ==> !addr_lt(e.0, #[trigger] s0[j].0),
        decreases v@.len() - i,
    {
        i = i + 1;
    }
    proof {
        lemma_inact_insert_at(s0, e, i as int);
    }
    v.insert(i, e);
}

/// Index of `a` in an address set, if present.
pub(crate) fn find_addr_index(v: &Vec<Address>, a: &Address) -> (r: Option<usize>)
    ensures
        match r {
            Some(i) => i < v@.len() && v@[i as int] == *a && addrs_has(v@, *a) && addrs_remove(
                v@,
                *a,
            ) == v@.remove(i as int),
            None => !addrs_has(v@, *a),
        },
{
    let mut i: usize = 0;
    while i < v.len()
        invariant
            i <= v@.len(),
            forall|j: int| 0 <= j < i ==> v@[j] != *a,
        decreases v@.len() - i,
    {
        if v[i] == *a {
            proof {
                lemma_addrs_at(v@, *a, i as int);
            }
            return Some(i);
        }
        i = i + 1;
    }
    proof {
        lemma_addrs_none(v@, *a);
    }
    None
}

/// Inserts `a` at its sorted position.
pub(crate) fn insert_addr(v: &mut Vec<Address>, a: Address)
    ensures
        final(v)@ == addrs_insert(old(v)@, a),
{
    let ghost s0 = v@;
    let mut i: usize = 0;
    while i < v.len() && !a.lt(&v[i])
        invariant
            i <= v@.len(),
            v@ == old(v)@,
            s0 == v@,
            forall|j: int| 0 <= j < i ==> !addr_lt(a, #[trigger] s0[j]),
        decreases v@.len() - i,
    {
        i = i + 1;
    }
    proof {
        lemma_addrs_insert_at(s0, a, i as int);
    }
    v.insert(i, a);
}

/// The inactive stake of `a`, if the table holds one.
pub fn find_inactive(v: &Vec<(Address, InactiveStake)>, a: &Address) -> (r: Option<InactiveStake>)
    ensures
        r == inact_find(v@, *a),
{
    match find_inactive_index(v, a) {
        Some(i) => Some(v[i].1),
        None => None,
    }
}

/// The active balance of `a`, if the table holds an entry.
pub fn find_active_balance(v: &Vec<ActiveStake>, a: &Address) -> (r: Option<Coin>)
    ensures
        r == match active_find(av(v@), *a) {
            Some(e) => Some(e.balance),
            None => None::<Coin>,
        },
{
    match find_active_index(v, a) {
        Some(i) => Some(v[i].balance),
        None => None,
    }
}

/// Whether the sorted address set holds `a`.
pub fn addr_set_contains(v: &Vec<Address>, a: &Address) -> (r: bool)
    ensures
        r == addrs_has(v@, *a),
{
    match find_addr_index(v, a) {
        Some(_) => true,
        None => false,
    }
}

// ---------------------------------------------------------------------------
// Construction and read access.
// ---------------------------------------------------------------------------

impl Default for StakingContract {
    /// The empty contract: no stakes, no parked stakers, zero balance.
    fn default() -> (r: StakingContract)
        ensures
            wf(r@),
            balanced(r@),
            r@.balance == 0,
            r@.active == Seq::<ActiveStakeV>::empty(),
            r@.inactive == Seq::<InactiveEntry>::empty(),
            r@.current_parking == Seq::<Address>::empty(),
            r@.previous_parking == Seq::<Address>::empty(),
    {
        let r = StakingContract {
            balance: 0,
            active_stake_sorted: Vec::new(),
            inactive_stake_by_address: Vec::new(),
            current_epoch_parking: Vec::new(),
            previous_epoch_parking: Vec::new(),
        };
        proof {
            assert(r@.active =~= Seq::<ActiveStakeV>::empty());
        }
        r
    }
}

impl StakingContract {
    /// Active balance of a staker; zero when the staker has no active entry.
    pub fn get_active_balance(&self, staker_address: &Address) -> (r: Coin)
        ensures
            r == active_balance_of(self@, *staker_address),
    {
        match find_active_index(&self.active_stake_sorted, staker_address) {
            Some(i) => self.active_stake_sorted[i].balance,
            None => 0,
        }
    }

    /// Inactive balance of a staker; zero when the staker has no inactive
    /// entry.
    pub fn get_inactive_balance(&self, staker_address: &Address) -> (r: Coin)
        ensures
            r == inactive_balance_of(self@, *staker_address),
    {
        match find_inactive_index(&self.inactive_stake_by_address, staker_address) {
            Some(i) => self.inactive_stake_by_address[i].1,
            None => InactiveStake { balance: 0, retire_time: 0 },
        }.balance
    }

    /// Total balance of a staker: the sum of the active and the inactive
    /// balance.
    pub fn get_balance(&self, staker_address: &Address) -> (r: Coin)
        requires
            wf(self@),
            balanced(self@),
        ensures
            r == active_balance_of(self@, *staker_address) + inactive_balance_of(
                self@,
                *staker_address,
            ),
    {
        proof {
            lemma_active_sum_bounds(self@.active, *staker_address);
            lemma_inact_sum_bounds(self@.inactive, *staker_address);
        }
        self.get_active_balance(staker_address) + self.get_inactive_balance(staker_address)
    }

}

// ---------------------------------------------------------------------------
// Stake.
// ---------------------------------------------------------------------------

/// Transform of a stake commit: adds `value` to the contract balance and to
/// the staker's active entry, creating it if absent.  A replaced entry's key
/// and reward address are returned in a receipt.  Overflow of either sum
/// fails and leaves the state unchanged.
pub open spec fn spec_stake(
    v: StakingContractV,
    staker: Address,
    value: Coin,
    key: Seq<u8>,
    reward: Option<Address>,
) -> Result<(StakingContractV, Option<ActiveStakeReceiptV>), AccountError> {
    if v.balance + value > u64::MAX {
        Err(AccountError::InvalidCoinValue)
    } else {
        match active_find(v.active, staker) {
            Some(old_e) => if old_e.balance + value > u64::MAX {
                Err(AccountError::InvalidCoinValue)
            } else {
                let new_e = ActiveStakeV {
                    staker_address: staker,
                    balance: (old_e.balance + value) as u64,
                    validator_key: key,
                    reward_address: reward,
                };
                Ok(
                    (
                        StakingContractV {
                            balance: (v.balance + value) as u64,
                            active: active_insert(active_remove(v.active, staker), new_e),
                            ..v
                        },
                        Some(
                            ActiveStakeReceiptV {
                                validator_key: old_e.validator_key,
                                reward_address: old_e.reward_address,
                            },
                        ),
                    ),
                )
            },
            None => {
                let new_e = ActiveStakeV {
                    staker_address: staker,
                    balance: value,
                    validator_key: key,
                    reward_address: reward,
                };
                Ok(
                    (
                        StakingContractV {
                            balance: (v.balance + value) as u64,
                            active: active_insert(v.active, new_e),
                            ..v
                        },
                        None,
                    ),
                )
            },
        }
    }
}

impl StakingContract {
    /// Adds funds to the stake of `staker_address`, overwriting the stored
    /// validator key and reward address with the new ones.
    pub fn stake(
        &mut self,
        staker_address: &Address,
        value: Coin,
        validator_key: Vec<u8>,
        reward_address: Option<Address>,
    ) -> (r: Result<Option<ActiveStakeReceipt>, AccountError>)
        requires
            wf(old(self)@),
            value > 0,
            validator_key@.len() == VALIDATOR_KEY_SIZE,
        ensures
            wf(final(self)@),
            match spec_stake(old(self)@, *staker_address, value, validator_key@, reward_address) {
                Ok((v2, rv)) => r is Ok && asr_opt_view(r->Ok_0) == rv && final(self)@ == v2,
                Err(e) => r == Err::<Option<ActiveStakeReceipt>, AccountError>(e) && final(self)@
                    == old(self)@,
            },
    {
        let ghost v0 = self@;
        let new_total = match balance_add(self.balance, value) {
            Ok(b) => b,
            Err(e) => {
                return Err(e);
            },
        };
        match find_active_index(&self.active_stake_sorted, staker_address) {
            Some(i) => {
                let old_balance = self.active_stake_sorted[i].balance;
                let new_balance = match balance_add(old_balance, value) {
                    Ok(b) => b,
                    Err(e) => {
                        return Err(e);
                    },
                };
                let old_entry = self.active_stake_sorted.remove(i);
                let receipt = ActiveStakeReceipt {
                    validator_key: old_entry.validator_key,
                    reward_address: old_entry.reward_address,
                };
                let new_entry = ActiveStake {
                    staker_address: *staker_address,
                    balance: new_balance,
                    validator_key,
                    reward_address,
                };
                proof {
                    assert(av(self.active_stake_sorted@) =~= av(
                        old(self).active_stake_sorted@,
                    ).remove(i as int));
                    lemma_active_remove_props(v0.active, *staker_address);
                    lemma_active_remove_ok(v0.active, *staker_address);
                    lemma_active_insert_props(active_remove(v0.active, *staker_address), new_entry@);
                    lemma_active_insert_unique(
                        active_remove(v0.active, *staker_address),
                        new_entry@,
                    );
                    lemma_active_insert_ok(active_remove(v0.active, *staker_address), new_entry@);
                }
                insert_active(&mut self.active_stake_sorted, new_entry);
                self.balance = new_total;
                proof {
                    assert(self@ =~= spec_stake(
                        v0,
                        *staker_address,
                        value,
                        new_entry@.validator_key,
                        reward_address,
                    )->Ok_0.0);
                }
                Ok(Some(receipt))
            },
            None => {
                let new_entry = ActiveStake {
                    staker_address: *staker_address,
                    balance: value,
                    validator_key,
                    reward_address,
                };
                proof {
                    lemma_active_insert_props(v0.active, new_entry@);
                    lemma_active_insert_unique(v0.active, new_entry@);
                    lemma_active_insert_ok(v0.active, new_entry@);
                }
                insert_active(&mut self.active_stake_sorted, new_entry);
                self.balance = new_total;
                proof {
                    assert(self@ =~= spec_stake(
                        v0,
                        *staker_address,
                        value,
                        new_entry@.validator_key,
                        reward_address,
                    )->Ok_0.0);
                }
                Ok(None)
            },
        }
    }
}

// ---------------------------------------------------------------------------
// Revert of stake.
// ---------------------------------------------------------------------------

/// Transform of a stake revert: subtracts `value` from the contract balance
/// and from the staker's entry.  A receipt must be present exactly when the
/// entry survives (its key and reward address are restored from it); a
/// balance below `value` is inconsistent with any receipt.
pub open spec fn spec_revert_stake(
    v: StakingContractV,
    staker: Address,
    value: Coin,
    receipt: Option<ActiveStakeReceiptV>,
) -> Result<StakingContractV, AccountError> {
    if value > v.balance {
        Err(AccountError::InvalidCoinValue)
    } else {
        match active_find(v.active, staker) {
            None => Err(AccountError::InvalidForRecipient),
            Some(e) => if e.balance > value {
                match receipt {
                    None => Err(AccountError::InvalidReceipt),
                    Some(rc) => {
                        let new_e = ActiveStakeV {
                            staker_address: staker,
                            balance: (e.balance - value) as u64,
                            validator_key: rc.validator_key,
                            reward_address: rc.reward_address,
                        };
                        Ok(
                            StakingContractV {
                                balance: (v.balance - value) as u64,
                                active: active_insert(active_remove(v.active, staker), new_e),
                                ..v
                            },
                        )
                    },
                }
            } else if e.balance == value {
                match receipt {
                    Some(_) => Err(AccountError::InvalidReceipt),
                    None => Ok(
                        StakingContractV {
                            balance: (v.balance - value) as u64,
                            active: active_remove(v.active, staker),
                            ..v
                        },
                    ),
                }
            } else {
                Err(AccountError::InvalidReceipt)
            },
        }
    }
}

impl StakingContract {
    /// Reverts a stake commit with the receipt it produced.
    pub fn revert_stake(
        &mut self,
        staker_address: &Address,
        value: Coin,
        receipt: Option<ActiveStakeReceipt>,
    ) -> (r: Result<(), AccountError>)
        requires
            wf(old(self)@),
            value > 0,
            receipt matches Some(rc) ==> rc.validator_key@.len() == VALIDATOR_KEY_SIZE,
        ensures
            wf(final(self)@),
            match spec_revert_stake(old(self)@, *staker_address, value, asr_opt_view(receipt)) {
                Ok(v2) => r is Ok && final(self)@ == v2,
                Err(e) => r == Err::<(), AccountError>(e) && final(self)@ == old(self)@,
            },
    {
        let ghost v0 = self@;
        let new_total = match balance_sub(self.balance, value) {
            Ok(b) => b,
            Err(e) => {
                return Err(e);
            },
        };
        let i = match find_active_index(&self.active_stake_sorted, staker_address) {
            Some(i) => i,
            None => {
                return Err(AccountError::InvalidForRecipient);
            },
        };
        let old_balance = self.active_stake_sorted[i].balance;
        if old_balance > value {
            let rc = match receipt {
                Some(rc) => rc,
                None => {
                    return Err(AccountError::InvalidReceipt);
                },
            };
            let old_entry = self.active_stake_sorted.remove(i);
            let new_entry = ActiveStake {
                staker_address: *staker_address,
                balance: old_balance - value,
                validator_key: rc.validator_key,
                reward_address: rc.reward_address,
            };
            proof {
                assert(av(self.active_stake_sorted@) =~= active_remove(v0.active, *staker_address));
                lemma_active_remove_props(v0.active, *staker_address);
                lemma_active_remove_ok(v0.active, *staker_address);
                lemma_active_insert_props(active_remove(v0.active, *staker_address), new_entry@);
                lemma_active_insert_unique(active_remove(v0.active, *staker_address), new_entry@);
                lemma_active_insert_ok(active_remove(v0.active, *staker_address), new_entry@);
            }
            insert_active(&mut self.active_stake_sorted, new_entry);
            self.balance = new_total;
            proof {
                assert(self@ =~= spec_revert_stake(
                    v0,
                    *staker_address,
                    value,
                    asr_opt_view(Some(rc)),
                )->Ok_0);
            }
            Ok(())
        } else if old_balance == value {
            if receipt.is_some() {
                return Err(AccountError::InvalidReceipt);
            }
            let _old_entry = self.active_stake_sorted.remove(i);
            self.balance = new_total;
            proof {
                assert(av(self.active_stake_sorted@) =~= active_remove(v0.active, *staker_address));
                lemma_active_remove_props(v0.active, *staker_address);
                lemma_active_remove_ok(v0.active, *staker_address);
                assert(self@ =~= spec_revert_stake(
                    v0,
                    *staker_address,
                    value,
                    asr_opt_view(receipt),
                )->Ok_0);
            }
            Ok(())
        } else {
            Err(AccountError::InvalidReceipt)
        }
    }
}

// ---------------------------------------------------------------------------
// Retire, sender side.
// ---------------------------------------------------------------------------

/// Transform of a retire-sender commit: deducts `total_value` from the
/// contract balance and from the staker's active entry.  Removing the whole
/// balance removes the entry and emits a receipt with its key and reward
/// address; removing less emits none.  A missing entry or an insufficient
/// active balance fails with `InvalidForSender`.
pub open spec fn spec_retire_sender(
    v: StakingContractV,
    staker: Address,
    total_value: Coin,
) -> Result<(StakingContractV, Option<ActiveStakeReceiptV>), AccountError> {
    if total_value > v.balance {
        Err(AccountError::InvalidCoinValue)
    } else {
        match active_find(v.active, staker) {
            None => Err(AccountError::InvalidForSender),
            Some(e) => if e.balance > total_value {
                let new_e = ActiveStakeV {
                    staker_address: staker,
                    balance: (e.balance - total_value) as u64,
                    validator_key: e.validator_key,
                    reward_address: e.reward_address,
                };
                Ok(
                    (
                        StakingContractV {
                            balance: (v.balance - total_value) as u64,
                            active: active_insert(active_remove(v.active, staker), new_e),
                            ..v
                        },
                        None,
                    ),
                )
            } else if e.balance == total_value {
                Ok(
                    (
                        StakingContractV {
                            balance: (v.balance - total_value) as u64,
                            active: active_remove(v.active, staker),
                            ..v
                        },
                        Some(
                            ActiveStakeReceiptV {
                                validator_key: e.validator_key,
                                reward_address: e.reward_address,
                            },
                        ),
                    ),
                )
            } else {
                Err(AccountError::InvalidForSender)
            },
        }
    }
}

impl StakingContract {
    /// Removes `total_value` from the staker's active stake, dropping the
    /// entry entirely when the whole balance retires.
    pub fn retire_sender(
        &mut self,
        staker_address: &Address,
        total_value: Coin,
    ) -> (r: Result<Option<ActiveStakeReceipt>, AccountError>)
        requires
            wf(old(self)@),
            total_value > 0,
        ensures
            wf(final(self)@),
            match spec_retire_sender(old(self)@, *staker_address, total_value) {
                Ok((v2, rv)) => r is Ok && asr_opt_view(r->Ok_0) == rv && final(self)@ == v2,
                Err(e) => r == Err::<Option<ActiveStakeReceipt>, AccountError>(e) && final(self)@
                    == old(self)@,
            },
    {
        let ghost v0 = self@;
        let new_total = match balance_sub(self.balance, total_value) {
            Ok(b) => b,
            Err(e) => {
                return Err(e);
            },
        };
        let i = match find_active_index(&self.active_stake_sorted, staker_address) {
            Some(i) => i,
            None => {
                return Err(AccountError::InvalidForSender);
            },
        };
        let old_balance = self.active_stake_sorted[i].balance;
        if old_balance > total_value {
            let old_entry = self.active_stake_sorted.remove(i);
            let new_entry = ActiveStake {
                staker_address: *staker_address,
                balance: old_balance - total_value,
                validator_key: old_entry.validator_key,
                reward_address: old_entry.reward_address,
            };
            proof {
                assert(av(self.active_stake_sorted@) =~= active_remove(v0.active, *staker_address));
                assert(old_entry@ == v0.active[i as int]);
                assert(v0.active[i as int].balance > 0 && v0.active[i as int].validator_key.len()
                    == VALIDATOR_KEY_SIZE);
                lemma_active_remove_props(v0.active, *staker_address);
                lemma_active_remove_ok(v0.active, *staker_address);
                lemma_active_insert_props(active_remove(v0.active, *staker_address), new_entry@);
                lemma_active_insert_unique(active_remove(v0.active, *staker_address), new_entry@);
                lemma_active_insert_ok(active_remove(v0.active, *staker_address), new_entry@);
            }
            insert_active(&mut self.active_stake_sorted, new_entry);
            self.balance = new_total;
            proof {
                assert(self@ =~= spec_retire_sender(v0, *staker_address, total_value)->Ok_0.0);
            }
            Ok(None)
        } else if old_balance == total_value {
            let old_entry = self.active_stake_sorted.remove(i);
            let receipt = ActiveStakeReceipt {
                validator_key: old_entry.validator_key,
                reward_address: old_entry.reward_address,
            };
            self.balance = new_total;
            proof {
                assert(av(self.active_stake_sorted@) =~= active_remove(v0.active, *staker_address));
                lemma_active_remove_props(v0.active, *staker_address);
                lemma_active_remove_ok(v0.active, *staker_address);
                assert(self@ =~= spec_retire_sender(v0, *staker_address, total_value)->Ok_0.0);
            }
            Ok(Some(receipt))
        } else {
            Err(AccountError::InvalidForSender)
        }
    }
}

// ---------------------------------------------------------------------------
// Revert of retire, sender side.
// ---------------------------------------------------------------------------

/// Transform of a retire-sender revert: restores `total_value` to the
/// contract balance and to the staker's active entry.  A receipt must be
/// present exactly when the entry was removed (it is re-created from it).
pub open spec fn spec_revert_retire_sender(
    v: StakingContractV,
    staker: Address,
    total_value: Coin,
    receipt: Option<ActiveStakeReceiptV>,
) -> Result<StakingContractV, AccountError> {
    if v.balance + total_value > u64::MAX {
        Err(AccountError::InvalidCoinValue)
    } else {
        match active_find(v.active, staker) {
            Some(e) => match receipt {
                Some(_) => Err(AccountError::InvalidReceipt),
                None => if e.balance + total_value > u64::MAX {
                    Err(AccountError::InvalidCoinValue)
                } else {
                    let new_e = ActiveStakeV {
                        staker_address: staker,
                        balance: (e.balance + total_value) as u64,
                        validator_key: e.validator_key,
                        reward_address: e.reward_address,
                    };
                    Ok(
                        StakingContractV {
                            balance: (v.balance + total_value) as u64,
                            active: active_insert(active_remove(v.active, staker), new_e),
                            ..v
                        },
                    )
                },
            },
            None => match receipt {
                None => Err(AccountError::InvalidReceipt),
                Some(rc) => {
                    let new_e = ActiveStakeV {
                        staker_address: staker,
                        balance: total_value,
                        validator_key: rc.validator_key,
                        reward_address: rc.reward_address,
                    };
                    Ok(
                        StakingContractV {
                            balance: (v.balance + total_value) as u64,
                            active: active_insert(v.active, new_e),
                            ..v
                        },
                    )
                },
            },
        }
    }
}

impl StakingContract {
    /// Reverts a retire-sender commit with the receipt it produced.
    pub fn revert_retire_sender(
        &mut self,
        staker_address: &Address,
        total_value: Coin,
        receipt: Option<ActiveStakeReceipt>,
    ) -> (r: Result<(), AccountError>)
        requires
            wf(old(self)@),
            total_value > 0,
            receipt matches Some(rc) ==> rc.validator_key@.len() == VALIDATOR_KEY_SIZE,
        ensures
            wf(final(self)@),
            match spec_revert_retire_sender(
                old(self)@,
                *staker_address,
                total_value,
                asr_opt_view(receipt),
            ) {
                Ok(v2) => r is Ok && final(self)@ == v2,
                Err(e) => r == Err::<(), AccountError>(e) && final(self)@ == old(self)@,
            },
    {
        let ghost v0 = self@;
        let new_total = match balance_add(self.balance, total_value) {
            Ok(b) => b,
            Err(e) => {
                return Err(e);
            },
        };
        match find_active_index(&self.active_stake_sorted, staker_address) {
            Some(i) => {
                if receipt.is_some() {
                    return Err(AccountError::InvalidReceipt);
                }
                let old_balance = self.active_stake_sorted[i].balance;
                let new_balance = match balance_add(old_balance, total_value) {
                    Ok(b) => b,
                    Err(e) => {
                        return Err(e);
                    },
                };
                let old_entry = self.active_stake_sorted.remove(i);
                let new_entry = ActiveStake {
                    staker_address: *staker_address,
                    balance: new_balance,
                    validator_key: old_entry.validator_key,
                    reward_address: old_entry.reward_address,
                };
                proof {
                    assert(av(self.active_stake_sorted@) =~= active_remove(
                        v0.active,
                        *staker_address,
                    ));
                    assert(old_entry@ == v0.active[i as int]);
                    assert(v0.active[i as int].balance > 0 && v0.active[
                        i as int
                    ].validator_key.len() == VALIDATOR_KEY_SIZE);
                    lemma_active_remove_props(v0.active, *staker_address);
                    lemma_active_remove_ok(v0.active, *staker_address);
                    lemma_active_insert_props(
                        active_remove(v0.active, *staker_address),
                        new_entry@,
                    );
                    lemma_active_insert_unique(
                        active_remove(v0.active, *staker_address),
                        new_entry@,
                    );
                    lemma_active_insert_ok(active_remove(v0.active, *staker_address), new_entry@);
                }
                insert_active(&mut self.active_stake_sorted, new_entry);
                self.balance = new_total;
                proof {
                    assert(self@ =~= spec_revert_retire_sender(
                        v0,
                        *staker_address,
                        total_value,
                        asr_opt_view(receipt),
                    )->Ok_0);
                }
                Ok(())
            },
            None => {
                let rc = match receipt {
                    Some(rc) => rc,
                    None => {
                        return Err(AccountError::InvalidReceipt);
                    },
                };
                let new_entry = ActiveStake {
                    staker_address: *staker_address,
                    balance: total_value,
                    validator_key: rc.validator_key,
                    reward_address: rc.reward_address,
                };
                proof {
                    lemma_active_insert_props(v0.active, new_entry@);
                    lemma_active_insert_unique(v0.active, new_entry@);
                    lemma_active_insert_ok(v0.active, new_entry@);
                }
                insert_active(&mut self.active_stake_sorted, new_entry);
                self.balance = new_total;
                proof {
                    assert(self@ =~= spec_revert_retire_sender(
                        v0,
                        *staker_address,
                        total_value,
                        asr_opt_view(Some(rc)),
                    )->Ok_0);
                }
                Ok(())
            },
        }
    }
}

// ---------------------------------------------------------------------------
// Retire, recipient side.
// ---------------------------------------------------------------------------

/// Transform of a retire-recipient commit: adds `value` to the contract
/// balance and merges it into the staker's inactive entry, setting the
/// retire time to the current block height.  Merging into an existing entry
/// resets its retire time (extending the withdrawal wait) and emits a
/// receipt carrying the old one.
pub open spec fn spec_retire_recipient(
    v: StakingContractV,
    staker: Address,
    value: Coin,
    block_height: u32,
) -> Result<(StakingContractV, Option<InactiveStakeReceipt>), AccountError> {
    if v.balance + value > u64::MAX {
        Err(AccountError::InvalidCoinValue)
    } else {
        match inact_find(v.inactive, staker) {
            Some(st) => if st.balance + value > u64::MAX {
                Err(AccountError::InvalidCoinValue)
            } else {
                let new_st = InactiveStake {
                    balance: (st.balance + value) as u64,
                    retire_time: block_height,
                };
                Ok(
                    (
                        StakingContractV {
                            balance: (v.balance + value) as u64,
                            inactive: inact_insert(inact_remove(v.inactive, staker), (staker, new_st)),
                            ..v
                        },
                        Some(InactiveStakeReceipt { retire_time: st.retire_time }),
                    ),
                )
            },
            None => {
                let new_st = InactiveStake { balance: value, retire_time: block_height };
                Ok(
                    (
                        StakingContractV {
                            balance: (v.balance + value) as u64,
                            inactive: inact_insert(v.inactive, (staker, new_st)),
                            ..v
                        },
                        None,
                    ),
                )
            },
        }
    }
}

impl StakingContract {
    /// Adds `value` to the staker's inactive stake at `block_height`.
    pub fn retire_recipient(
        &mut self,
        staker_address: &Address,
        value: Coin,
        block_height: u32,
    ) -> (r: Result<Option<InactiveStakeReceipt>, AccountError>)
        requires
            wf(old(self)@),
            value > 0,
        ensures
            wf(final(self)@),
            match spec_retire_recipient(old(self)@, *staker_address, value, block_height) {
                Ok((v2, rv)) => r == Ok::<Option<InactiveStakeReceipt>, AccountError>(rv)
                    && final(self)@ == v2,
                Err(e) => r == Err::<Option<InactiveStakeReceipt>, AccountError>(e)
                    && final(self)@ == old(self)@,
            },
    {
        let ghost v0 = self@;
        let new_total = match balance_add(self.balance, value) {
            Ok(b) => b,
            Err(e) => {
                return Err(e);
            },
        };
        match find_inactive_index(&self.inactive_stake_by_address, staker_address) {
            Some(i) => {
                let old_stake = self.inactive_stake_by_address[i].1;
                let new_balance = match balance_add(old_stake.balance, value) {
                    Ok(b) => b,
                    Err(e) => {
                        return Err(e);
                    },
                };
                let _removed = self.inactive_stake_by_address.remove(i);
                let new_stake = InactiveStake { balance: new_balance, retire_time: block_height };
                proof {
                    lemma_inact_remove_props(v0.inactive, *staker_address);
                    lemma_inact_remove_ok(v0.inactive, *staker_address);
                    lemma_inact_insert_props(
                        inact_remove(v0.inactive, *staker_address),
                        (*staker_address, new_stake),
                    );
                    lemma_inact_insert_ok(
                        inact_remove(v0.inactive, *staker_address),
                        (*staker_address, new_stake),
                    );
                }
                insert_inactive(&mut self.inactive_stake_by_address, (*staker_address, new_stake));
                self.balance = new_total;
                proof {
                    assert(self@ =~= spec_retire_recipient(
                        v0,
                        *staker_address,
                        value,
                        block_height,
                    )->Ok_0.0);
                }
                Ok(Some(InactiveStakeReceipt { retire_time: old_stake.retire_time }))
            },
            None => {
                let new_stake = InactiveStake { balance: value, retire_time: block_height };
                proof {
                    lemma_inact_insert_props(v0.inactive, (*staker_address, new_stake));
                    lemma_inact_insert_ok(v0.inactive, (*staker_address, new_stake));
                }
                insert_inactive(&mut self.inactive_stake_by_address, (*staker_address, new_stake));
                self.balance = new_total;
                proof {
                    assert(self@ =~= spec_retire_recipient(
                        v0,
                        *staker_address,
                        value,
                        block_height,
                    )->Ok_0.0);
                }
                Ok(None)
            },
        }
    }
}

// ---------------------------------------------------------------------------
// Revert of retire, recipient side.
// ---------------------------------------------------------------------------

/// Transform of a retire-recipient revert: subtracts `value` from the
/// contract balance and from the staker's inactive entry.  A receipt must be
/// present exactly when the entry survives (its retire time is restored from
/// it); a balance below `value` is inconsistent with any receipt.
pub open spec fn spec_revert_retire_recipient(
    v: StakingContractV,
    staker: Address,
    value: Coin,
    receipt: Option<InactiveStakeReceipt>,
) -> Result<StakingContractV, AccountError> {
    if value > v.balance {
        Err(AccountError::InvalidCoinValue)
    } else {
        match inact_find(v.inactive, staker) {
            None => Err(AccountError::InvalidForRecipient),
            Some(st) => if st.balance > value {
                match receipt {
                    None => Err(AccountError::InvalidReceipt),
                    Some(rc) => {
                        let new_st = InactiveStake {
                            balance: (st.balance - value) as u64,
                            retire_time: rc.retire_time,
                        };
                        Ok(
                            StakingContractV {
                                balance: (v.balance - value) as u64,
                                inactive: inact_insert(
                                    inact_remove(v.inactive, staker),
                                    (staker, new_st),
                                ),
                                ..v
                            },
                        )
                    },
                }
            } else if st.balance == value {
                match receipt {
                    Some(_) => Err(AccountError::InvalidReceipt),
                    None => Ok(
                        StakingContractV {
                            balance: (v.balance - value) as u64,
                            inactive: inact_remove(v.inactive, staker),
                            ..v
                        },
                    ),
                }
            } else {
                Err(AccountError::InvalidReceipt)
            },
        }
    }
}

impl StakingContract {
    /// Reverts a retire-recipient commit with the receipt it produced.
    pub fn revert_retire_recipient(
        &mut self,
        staker_address: &Address,
        value: Coin,
        receipt: Option<InactiveStakeReceipt>,
    ) -> (r: Result<(), AccountError>)
        requires
            wf(old(self)@),
            value > 0,
        ensures
            wf(final(self)@),
            match spec_revert_retire_recipient(old(self)@, *staker_address, value, receipt) {
                Ok(v2) => r is Ok && final(self)@ == v2,
                Err(e) => r == Err::<(), AccountError>(e) && final(self)@ == old(self)@,
            },
    {
        let ghost v0 = self@;
        let new_total = match balance_sub(self.balance, value) {
            Ok(b) => b,
            Err(e) => {
                return Err(e);
            },
        };
        let i = match find_inactive_index(&self.inactive_stake_by_address, staker_address) {
            Some(i) => i,
            None => {
                return Err(AccountError::InvalidForRecipient);
            },
        };
        let old_stake = self.inactive_stake_by_address[i].1;
        if old_stake.balance > value {
            let rc = match receipt {
                Some(rc) => rc,
                None => {
                    return Err(AccountError::InvalidReceipt);
                },
            };
            let _removed = self.inactive_stake_by_address.remove(i);
            let new_stake = InactiveStake {
                balance: old_stake.balance - value,
                retire_time: rc.retire_time,
            };
            proof {
                lemma_inact_remove_props(v0.inactive, *staker_address);
                lemma_inact_remove_ok(v0.inactive, *staker_address);
                lemma_inact_insert_props(
                    inact_remove(v0.inactive, *staker_address),
                    (*staker_address, new_stake),
                );
                lemma_inact_insert_ok(
                    inact_remove(v0.inactive, *staker_address),
                    (*staker_address, new_stake),
                );
            }
            insert_inactive(&mut self.inactive_stake_by_address, (*staker_address, new_stake));
            self.balance = new_total;
            proof {
                assert(self@ =~= spec_revert_retire_recipient(
                    v0,
                    *staker_address,
                    value,
                    Some(rc),
                )->Ok_0);
            }
            Ok(())
        } else if old_stake.balance == value {
            if receipt.is_some() {
                return Err(AccountError::InvalidReceipt);
            }
            let _removed = self.inactive_stake_by_address.remove(i);
            self.balance = new_total;
            proof {
                lemma_inact_remove_props(v0.inactive, *staker_address);
                lemma_inact_remove_ok(v0.inactive, *staker_address);
                assert(self@ =~= spec_revert_retire_recipient(
                    v0,
                    *staker_address,
                    value,
                    receipt,
                )->Ok_0);
            }
            Ok(())
        } else {
            Err(AccountError::InvalidReceipt)
        }
    }
}

// ---------------------------------------------------------------------------
// Unstake.
// ---------------------------------------------------------------------------

/// Transform of an unstake commit: removes `total_value` from the contract
/// balance and from the staker's inactive entry; zeroing the entry removes
/// it and emits a receipt carrying its retire time.  A missing entry or an
/// insufficient inactive balance fails with `InvalidForSender`.
pub open spec fn spec_unstake(
    v: StakingContractV,
    staker: Address,
    total_value: Coin,
) -> Result<(StakingContractV, Option<InactiveStakeReceipt>), AccountError> {
    if total_value > v.balance {
        Err(AccountError::InvalidCoinValue)
    } else {
        match inact_find(v.inactive, staker) {
            None => Err(AccountError::InvalidForSender),
            Some(st) => if st.balance > total_value {
                let new_st = InactiveStake {
                    balance: (st.balance - total_value) as u64,
                    retire_time: st.retire_time,
                };
                Ok(
                    (
                        StakingContractV {
                            balance: (v.balance - total_value) as u64,
                            inactive: inact_insert(inact_remove(v.inactive, staker), (staker, new_st)),
                            ..v
                        },
                        None,
                    ),
                )
            } else if st.balance == total_value {
                Ok(
                    (
                        StakingContractV {
                            balance: (v.balance - total_value) as u64,
                            inactive: inact_remove(v.inactive, staker),
                            ..v
                        },
                        Some(InactiveStakeReceipt { retire_time: st.retire_time }),
                    ),
                )
            } else {
                Err(AccountError::InvalidForSender)
            },
        }
    }
}

impl StakingContract {
    /// Withdraws `total_value` from the staker's inactive stake.
    pub fn unstake(
        &mut self,
        staker_address: &Address,
        total_value: Coin,
    ) -> (r: Result<Option<InactiveStakeReceipt>, AccountError>)
        requires
            wf(old(self)@),
            total_value > 0,
        ensures
            wf(final(self)@),
            match spec_unstake(old(self)@, *staker_address, total_value) {
                Ok((v2, rv)) => r == Ok::<Option<InactiveStakeReceipt>, AccountError>(rv)
                    && final(self)@ == v2,
                Err(e) => r == Err::<Option<InactiveStakeReceipt>, AccountError>(e)
                    && final(self)@ == old(self)@,
            },
    {
        let ghost v0 = self@;
        let new_total = match balance_sub(self.balance, total_value) {
            Ok(b) => b,
            Err(e) => {
                return Err(e);
            },
        };
        let i = match find_inactive_index(&self.inactive_stake_by_address, staker_address) {
            Some(i) => i,
            None => {
                return Err(AccountError::InvalidForSender);
            },
        };
        let old_stake = self.inactive_stake_by_address[i].1;
        if old_stake.balance > total_value {
            let _removed = self.inactive_stake_by_address.remove(i);
            let new_stake = InactiveStake {
                balance: old_stake.balance - total_value,
                retire_time: old_stake.retire_time,
            };
            proof {
                lemma_inact_remove_props(v0.inactive, *staker_address);
                lemma_inact_remove_ok(v0.inactive, *staker_address);
                lemma_inact_insert_props(
                    inact_remove(v0.inactive, *staker_address),
                    (*staker_address, new_stake),
                );
                lemma_inact_insert_ok(
                    inact_remove(v0.inactive, *staker_address),
                    (*staker_address, new_stake),
                );
            }
            insert_inactive(&mut self.inactive_stake_by_address, (*staker_address, new_stake));
            self.balance = new_total;
            proof {
                assert(self@ =~= spec_unstake(v0, *staker_address, total_value)->Ok_0.0);
            }
            Ok(None)
        } else if old_stake.balance == total_value {
            let _removed = self.inactive_stake_by_address.remove(i);
            self.balance = new_total;
            proof {
                lemma_inact_remove_props(v0.inactive, *staker_address);
                lemma_inact_remove_ok(v0.inactive, *staker_address);
                assert(self@ =~= spec_unstake(v0, *staker_address, total_value)->Ok_0.0);
            }
            Ok(Some(InactiveStakeReceipt { retire_time: old_stake.retire_time }))
        } else {
            Err(AccountError::InvalidForSender)
        }
    }
}

// ---------------------------------------------------------------------------
// Revert of unstake.
// ---------------------------------------------------------------------------

/// Transform of an unstake revert: restores `total_value` to the contract
/// balance and to the staker's inactive entry.  A receipt must be present
/// exactly when the entry was removed (it is re-created with the receipt's
/// retire time).
pub open spec fn spec_revert_unstake(
    v: StakingContractV,
    staker: Address,
    total_value: Coin,
    receipt: Option<InactiveStakeReceipt>,
) -> Result<StakingContractV, AccountError> {
    if v.balance + total_value > u64::MAX {
        Err(AccountError::InvalidCoinValue)
    } else {
        match inact_find(v.inactive, staker) {
            Some(st) => match receipt {
                Some(_) => Err(AccountError::InvalidReceipt),
                None => if st.balance + total_value > u64::MAX {
                    Err(AccountError::InvalidCoinValue)
                } else {
                    let new_st = InactiveStake {
                        balance: (st.balance + total_value) as u64,
                        retire_time: st.retire_time,
                    };
                    Ok(
                        StakingContractV {
                            balance: (v.balance + total_value) as u64,
                            inactive: inact_insert(inact_remove(v.inactive, staker), (staker, new_st)),
                            ..v
                        },
                    )
                },
            },
            None => match receipt {
                None => Err(AccountError::InvalidReceipt),
                Some(rc) => {
                    let new_st = InactiveStake {
                        balance: total_value,
                        retire_time: rc.retire_time,
                    };
                    Ok(
                        StakingContractV {
                            balance: (v.balance + total_value) as u64,
                            inactive: inact_insert(v.inactive, (staker, new_st)),
                            ..v
                        },
                    )
                },
            },
        }
    }
}

impl StakingContract {
    /// Reverts an unstake commit with the receipt it produced.
    pub fn revert_unstake(
        &mut self,
        staker_address: &Address,
        total_value: Coin,
        receipt: Option<InactiveStakeReceipt>,
    ) -> (r: Result<(), AccountError>)
        requires
            wf(old(self)@),
            total_value > 0,
        ensures
            wf(final(self)@),
            match spec_revert_unstake(old(self)@, *staker_address, total_value, receipt) {
                Ok(v2) => r is Ok && final(self)@ == v2,
                Err(e) => r == Err::<(), AccountError>(e) && final(self)@ == old(self)@,
            },
    {
        let ghost v0 = self@;
        let new_total = match balance_add(self.balance, total_value) {
            Ok(b) => b,
            Err(e) => {
                return Err(e);
            },
        };
        match find_inactive_index(&self.inactive_stake_by_address, staker_address) {
            Some(i) => {
                if receipt.is_some() {
                    return Err(AccountError::InvalidReceipt);
                }
                let old_stake = self.inactive_stake_by_address[i].1;
                let new_balance = match balance_add(old_stake.balance, total_value) {
                    Ok(b) => b,
                    Err(e) => {
                        return Err(e);
                    },
                };
                let _removed = self.inactive_stake_by_address.remove(i);
                let new_stake = InactiveStake {
                    balance: new_balance,
                    retire_time: old_stake.retire_time,
                };
                proof {
                    lemma_inact_remove_props(v0.inactive, *staker_address);
                    lemma_inact_remove_ok(v0.inactive, *staker_address);
                    lemma_inact_insert_props(
                        inact_remove(v0.inactive, *staker_address),
                        (*staker_address, new_stake),
                    );
                    lemma_inact_insert_ok(
                        inact_remove(v0.inactive, *staker_address),
                        (*staker_address, new_stake),
                    );
                }
                insert_inactive(&mut self.inactive_stake_by_address, (*staker_address, new_stake));
                self.balance = new_total;
                proof {
                    assert(self@ =~= spec_revert_unstake(
                        v0,
                        *staker_address,
                        total_value,
                        receipt,
                    )->Ok_0);
                }
                Ok(())
            },
            None => {
                let rc = match receipt {
                    Some(rc) => rc,
                    None => {
                        return Err(AccountError::InvalidReceipt);
                    },
                };
                let new_stake = InactiveStake {
                    balance: total_value,
                    retire_time: rc.retire_time,
                };
                proof {
                    lemma_inact_insert_props(v0.inactive, (*staker_address, new_stake));
                    lemma_inact_insert_ok(v0.inactive, (*staker_address, new_stake));
                }
                insert_inactive(&mut self.inactive_stake_by_address, (*staker_address, new_stake));
                self.balance = new_total;
                proof {
                    assert(self@ =~= spec_revert_unstake(
                        v0,
                        *staker_address,
                        total_value,
                        Some(rc),
                    )->Ok_0);
                }
                Ok(())
            },
        }
    }
}

// ---------------------------------------------------------------------------
// Unpark, sender side.
// ---------------------------------------------------------------------------

/// Transform of an unpark-sender commit: the staker's whole active stake
/// must equal `total_value`; the fee is deducted from it, and the contract
/// balance drops by `total_value` (the recipient side re-credits the value).
pub open spec fn spec_unpark_sender(
    v: StakingContractV,
    staker: Address,
    total_value: Coin,
    fee: Coin,
) -> Result<StakingContractV, AccountError> {
    if total_value > v.balance {
        Err(AccountError::InvalidCoinValue)
    } else {
        match active_find(v.active, staker) {
            None => Err(AccountError::InvalidForSender),
            Some(e) => if e.balance != total_value {
                Err(AccountError::InvalidForSender)
            } else {
                let new_e = ActiveStakeV {
                    staker_address: staker,
                    balance: (total_value - fee) as u64,
                    validator_key: e.validator_key,
                    reward_address: e.reward_address,
                };
                Ok(
                    StakingContractV {
                        balance: (v.balance - total_value) as u64,
                        active: active_insert(active_remove(v.active, staker), new_e),
                        ..v
                    },
                )
            },
        }
    }
}

impl StakingContract {
    /// Routes the staker's whole active stake through the contract, keeping
    /// it minus the fee.
    pub fn unpark_sender(
        &mut self,
        staker_address: &Address,
        total_value: Coin,
        fee: Coin,
    ) -> (r: Result<(), AccountError>)
        requires
            wf(old(self)@),
            fee < total_value,
        ensures
            wf(final(self)@),
            match spec_unpark_sender(old(self)@, *staker_address, total_value, fee) {
                Ok(v2) => r is Ok && final(self)@ == v2,
                Err(e) => r == Err::<(), AccountError>(e) && final(self)@ == old(self)@,
            },
    {
        let ghost v0 = self@;
        let new_total = match balance_sub(self.balance, total_value) {
            Ok(b) => b,
            Err(e) => {
                return Err(e);
            },
        };
        let i = match find_active_index(&self.active_stake_sorted, staker_address) {
            Some(i) => i,
            None => {
                return Err(AccountError::InvalidForSender);
            },
        };
        let old_balance = self.active_stake_sorted[i].balance;
        if old_balance != total_value {
            return Err(AccountError::InvalidForSender);
        }
        let old_entry = self.active_stake_sorted.remove(i);
        let new_entry = ActiveStake {
            staker_address: *staker_address,
            balance: total_value - fee,
            validator_key: old_entry.validator_key,
            reward_address: old_entry.reward_address,
        };
        proof {
            assert(av(self.active_stake_sorted@) =~= active_remove(v0.active, *staker_address));
            assert(old_entry@ == v0.active[i as int]);
            assert(v0.active[i as int].balance > 0 && v0.active[i as int].validator_key.len()
                == VALIDATOR_KEY_SIZE);
            lemma_active_remove_props(v0.active, *staker_address);
            lemma_active_remove_ok(v0.active, *staker_address);
            lemma_active_insert_props(active_remove(v0.active, *staker_address), new_entry@);
            lemma_active_insert_unique(active_remove(v0.active, *staker_address), new_entry@);
            lemma_active_insert_ok(active_remove(v0.active, *staker_address), new_entry@);
        }
        insert_active(&mut self.active_stake_sorted, new_entry);
        self.balance = new_total;
        proof {
            assert(self@ =~= spec_unpark_sender(v0, *staker_address, total_value, fee)->Ok_0);
        }
        Ok(())
    }
}

// ---------------------------------------------------------------------------
// Revert of unpark, sender side.
// ---------------------------------------------------------------------------

/// Transform of an unpark-sender revert: re-credits `total_value` to the
/// contract balance and adds the fee back onto the staker's entry, whose new
/// balance must then equal `total_value`.
pub open spec fn spec_revert_unpark_sender(
    v: StakingContractV,
    staker: Address,
    total_value: Coin,
    fee: Coin,
) -> Result<StakingContractV, AccountError> {
    if v.balance + total_value > u64::MAX {
        Err(AccountError::InvalidCoinValue)
    } else {
        match active_find(v.active, staker) {
            None => Err(AccountError::InvalidForSender),
            Some(e) => if e.balance + fee > u64::MAX {
                Err(AccountError::InvalidCoinValue)
            } else if e.balance + fee != total_value {
                Err(AccountError::InvalidForSender)
            } else {
                let new_e = ActiveStakeV {
                    staker_address: staker,
                    balance: total_value,
                    validator_key: e.validator_key,
                    reward_address: e.reward_address,
                };
                Ok(
                    StakingContractV {
                        balance: (v.balance + total_value) as u64,
                        active: active_insert(active_remove(v.active, staker), new_e),
                        ..v
                    },
                )
            },
        }
    }
}

impl StakingContract {
    /// Reverts an unpark-sender commit.
    pub fn revert_unpark_sender(
        &mut self,
        staker_address: &Address,
        total_value: Coin,
        fee: Coin,
    ) -> (r: Result<(), AccountError>)
        requires
            wf(old(self)@),
            fee < total_value,
        ensures
            wf(final(self)@),
            match spec_revert_unpark_sender(old(self)@, *staker_address, total_value, fee) {
                Ok(v2) => r is Ok && final(self)@ == v2,
                Err(e) => r == Err::<(), AccountError>(e) && final(self)@ == old(self)@,
            },
    {
        let ghost v0 = self@;
        let new_total = match balance_add(self.balance, total_value) {
            Ok(b) => b,
            Err(e) => {
                return Err(e);
            },
        };
        let i = match find_active_index(&self.active_stake_sorted, staker_address) {
            Some(i) => i,
            None => {
                return Err(AccountError::InvalidForSender);
            },
        };
        let old_balance = self.active_stake_sorted[i].balance;
        let new_balance = match balance_add(old_balance, fee) {
            Ok(b) => b,
            Err(e) => {
                return Err(e);
            },
        };
        if new_balance != total_value {
            return Err(AccountError::InvalidForSender);
        }
        let old_entry = self.active_stake_sorted.remove(i);
        let new_entry = ActiveStake {
            staker_address: *staker_address,
            balance: new_balance,
            validator_key: old_entry.validator_key,
            reward_address: old_entry.reward_address,
        };
        proof {
            assert(av(self.active_stake_sorted@) =~= active_remove(v0.active, *staker_address));
            assert(old_entry@ == v0.active[i as int]);
            assert(v0.active[i as int].balance > 0 && v0.active[i as int].validator_key.len()
                == VALIDATOR_KEY_SIZE);
            lemma_active_remove_props(v0.active, *staker_address);
            lemma_active_remove_ok(v0.active, *staker_address);
            lemma_active_insert_props(active_remove(v0.active, *staker_address), new_entry@);
            lemma_active_insert_unique(active_remove(v0.active, *staker_address), new_entry@);
            lemma_active_insert_ok(active_remove(v0.active, *staker_address), new_entry@);
        }
        insert_active(&mut self.active_stake_sorted, new_entry);
        self.balance = new_total;
        proof {
            assert(self@ =~= spec_revert_unpark_sender(
                v0,
                *staker_address,
                total_value,
                fee,
            )->Ok_0);
        }
        Ok(())
    }
}

// ---------------------------------------------------------------------------
// Unpark, recipient side.
// ---------------------------------------------------------------------------

/// Inserts `a` unless already present.
pub open spec fn addrs_set_insert(s: Seq<Address>, a: Address) -> Seq<Address> {
    if addrs_has(s, a) {
        s
    } else {
        addrs_insert(s, a)
    }
}

/// Transform of an unpark-recipient commit: re-credits `value` and clears
/// the staker from both parking sets.  At least one removal must take
/// effect, else `InvalidForRecipient`; the receipt records which did.
pub open spec fn spec_unpark_recipient(
    v: StakingContractV,
    staker: Address,
    value: Coin,
) -> Result<(StakingContractV, UnparkReceipt), AccountError> {
    if v.balance + value > u64::MAX {
        Err(AccountError::InvalidCoinValue)
    } else {
        let cur = addrs_has(v.current_parking, staker);
        let prev = addrs_has(v.previous_parking, staker);
        if !cur && !prev {
            Err(AccountError::InvalidForRecipient)
        } else {
            Ok(
                (
                    StakingContractV {
                        balance: (v.balance + value) as u64,
                        current_parking: addrs_remove(v.current_parking, staker),
                        previous_parking: addrs_remove(v.previous_parking, staker),
                        ..v
                    },
                    UnparkReceipt { current_epoch: cur, previous_epoch: prev },
                ),
            )
        }
    }
}

impl StakingContract {
    /// Removes the staker from the parking sets.
    pub fn unpark_recipient(
        &mut self,
        staker_address: &Address,
        value: Coin,
    ) -> (r: Result<UnparkReceipt, AccountError>)
        requires
            wf(old(self)@),
        ensures
            wf(final(self)@),
            match spec_unpark_recipient(old(self)@, *staker_address, value) {
                Ok((v2, rv)) => r == Ok::<UnparkReceipt, AccountError>(rv) && final(self)@ == v2,
                Err(e) => r == Err::<UnparkReceipt, AccountError>(e) && final(self)@ == old(self)@,
            },
    {
        let ghost v0 = self@;
        let new_total = match balance_add(self.balance, value) {
            Ok(b) => b,
            Err(e) => {
                return Err(e);
            },
        };
        proof {
            lemma_addrs_remove_props(v0.current_parking, *staker_address);
            lemma_addrs_remove_props(v0.previous_parking, *staker_address);
        }
        let cur = match find_addr_index(&self.current_epoch_parking, staker_address) {
            Some(i) => {
                let _ = self.current_epoch_parking.remove(i);
                true
            },
            None => false,
        };
        let prev = match find_addr_index(&self.previous_epoch_parking, staker_address) {
            Some(i) => {
                let _ = self.previous_epoch_parking.remove(i);
                true
            },
            None => false,
        };
        if !cur && !prev {
            return Err(AccountError::InvalidForRecipient);
        }
        self.balance = new_total;
        proof {
            assert(self@.current_parking == addrs_remove(v0.current_parking, *staker_address));
            assert(self@.previous_parking == addrs_remove(v0.previous_parking, *staker_address));
            assert(self@ =~= spec_unpark_recipient(v0, *staker_address, value)->Ok_0.0);
        }
        Ok(UnparkReceipt { current_epoch: cur, previous_epoch: prev })
    }
}

// ---------------------------------------------------------------------------
// Revert of unpark, recipient side.
// ---------------------------------------------------------------------------

/// Transform of an unpark-recipient revert: debits `value` and re-inserts
/// the staker into whichever parking sets the receipt marks.
pub open spec fn spec_revert_unpark_recipient(
    v: StakingContractV,
    staker: Address,
    value: Coin,
    receipt: UnparkReceipt,
) -> Result<StakingContractV, AccountError> {
    if value > v.balance {
        Err(AccountError::InvalidCoinValue)
    } else {
        Ok(
            StakingContractV {
                balance: (v.balance - value) as u64,
                current_parking: if receipt.current_epoch {
                    addrs_set_insert(v.current_parking, staker)
                } else {
                    v.current_parking
                },
                previous_parking: if receipt.previous_epoch {
                    addrs_set_insert(v.previous_parking, staker)
                } else {
                    v.previous_parking
                },
                ..v
            },
        )
    }
}

impl StakingContract {
    /// Reverts an unpark-recipient commit with the receipt it produced.
    pub fn revert_unpark_recipient(
        &mut self,
        staker_address: &Address,
        value: Coin,
        receipt: UnparkReceipt,
    ) -> (r: Result<(), AccountError>)
        requires
            wf(old(self)@),
        ensures
            wf(final(self)@),
            match spec_revert_unpark_recipient(old(self)@, *staker_address, value, receipt) {
                Ok(v2) => r is Ok && final(self)@ == v2,
                Err(e) => r == Err::<(), AccountError>(e) && final(self)@ == old(self)@,
            },
    {
        let ghost v0 = self@;
        let new_total = match balance_sub(self.balance, value) {
            Ok(b) => b,
            Err(e) => {
                return Err(e);
            },
        };
        if receipt.current_epoch {
            match find_addr_index(&self.current_epoch_parking, staker_address) {
                Some(_) => {},
                None => {
                    proof {
                        lemma_addrs_insert_props(v0.current_parking, *staker_address);
                    }
                    insert_addr(&mut self.current_epoch_parking, *staker_address);
                },
            }
        }
        if receipt.previous_epoch {
            match find_addr_index(&self.previous_epoch_parking, staker_address) {
                Some(_) => {},
                None => {
                    proof {
                        lemma_addrs_insert_props(v0.previous_parking, *staker_address);
                    }
                    insert_addr(&mut self.previous_epoch_parking, *staker_address);
                },
            }
        }
        self.balance = new_total;
        proof {
            assert(self@ =~= spec_revert_unpark_recipient(
                v0,
                *staker_address,
                value,
                receipt,
            )->Ok_0);
        }
        Ok(())
    }
}

} // verus!
