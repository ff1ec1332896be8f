//! The transition engine: commit and revert of the transaction sides and
//! inherents the contract accepts.
//!
//! A transaction whose sender differs from its recipient is a stake (in) or
//! unstake (out); one whose sender equals its recipient is a self-operation
//! whose kind is the single byte in `data` (retire or unpark), and whose
//! staker is the address the signature proof recovers.  Receipts cross this
//! layer as canonical bytes.

use vstd::prelude::*;
use crate::types::{
    AccountError, ActiveStakeReceipt, ActiveStakeReceiptV, Address, Coin, Inherent, InherentType,
    InherentV, InactiveStakeReceipt, SlashReceipt, Transaction, TransactionV, UnparkReceipt,
    ADDRESS_SIZE, UNSTAKING_DELAY, macro_block_after, spec_macro_block_after,
};
use crate::seqs::{
    active_find, active_has, addrs_has, addrs_remove, inact_find, inact_has, inact_remove,
    lemma_active_sum_bounds, lemma_addrs_remove_props, lemma_addrs_insert_props,
    lemma_active_remove_props, lemma_inact_remove_props, lemma_inact_insert_props,
    lemma_inact_sum_bounds,
};
use crate::contract::{
    StakingContract, StakingContractV, addrs_set_insert, balanced, spec_retire_recipient,
    spec_retire_sender, spec_revert_retire_recipient, spec_revert_retire_sender,
    spec_revert_stake, spec_revert_unpark_recipient, spec_revert_unpark_sender,
    spec_revert_unstake, spec_stake, spec_unpark_recipient, spec_unpark_sender, spec_unstake, wf,
    active_balance_of,
};
use crate::codec::{
    addr_of_bytes, parse_asr, parse_isr, parse_slash, parse_staking_data, parse_upr, read_addr,
    read_staking_data, ser_asr, ser_isr, ser_slash, ser_upr,
};

verus! {

/// View of optional receipt bytes.
pub open spec fn opt_bytes(o: Option<Vec<u8>>) -> Option<Seq<u8>> {
    match o {
        Some(b) => Some(b@),
        None => None,
    }
}

/// View of borrowed optional receipt bytes.
pub open spec fn opt_ref_bytes(o: Option<&Vec<u8>>) -> Option<Seq<u8>> {
    match o {
        Some(b) => Some(b@),
        None => None,
    }
}

/// Receipt bytes of an optional active-stake receipt.
pub open spec fn opt_asr_bytes(o: Option<ActiveStakeReceiptV>) -> Option<Seq<u8>> {
    match o {
        Some(rv) => Some(ser_asr(rv)),
        None => None,
    }
}

/// Receipt bytes of an optional inactive-stake receipt.
pub open spec fn opt_isr_bytes(o: Option<InactiveStakeReceipt>) -> Option<Seq<u8>> {
    match o {
        Some(rc) => Some(ser_isr(rc)),
        None => None,
    }
}

// ---------------------------------------------------------------------------
// Incoming transactions.
// ---------------------------------------------------------------------------

/// Static validity of an incoming transaction: a stake payload must decode;
/// a self-transaction's data must be exactly one known type byte.
pub open spec fn spec_check_incoming(t: TransactionV) -> Result<(), AccountError> {
    if t.sender != t.recipient {
        match parse_staking_data(t.data) {
            Some(_) => Ok(()),
            None => Err(AccountError::InvalidSerialization),
        }
    } else {
        if t.data.len() == 0 {
            Err(AccountError::InvalidSerialization)
        } else if t.data[0] != 1 && t.data[0] != 2 {
            Err(AccountError::InvalidSerialization)
        } else if t.data.len() != 1 {
            Err(AccountError::InvalidForTarget)
        } else {
            Ok(())
        }
    }
}

/// Transform of an incoming commit: stake for an ordinary transaction,
/// retire-recipient or unpark-recipient for a self-transaction, with the
/// produced receipt as canonical bytes.
pub open spec fn spec_commit_incoming(
    v: StakingContractV,
    t: TransactionV,
    block_height: u32,
) -> Result<(StakingContractV, Option<Seq<u8>>), AccountError> {
    if t.sender != t.recipient {
        match parse_staking_data(t.data) {
            None => Err(AccountError::InvalidSerialization),
            Some((key, reward)) => match spec_stake(v, t.sender, t.value, key, reward) {
                Err(e) => Err(e),
                Ok((v2, rv)) => Ok((v2, opt_asr_bytes(rv))),
            },
        }
    } else {
        if t.data.len() == 0 {
            Err(AccountError::InvalidSerialization)
        } else if t.data[0] == 1 {
            match spec_retire_recipient(v, t.signer, t.value, block_height) {
                Err(e) => Err(e),
                Ok((v2, rc)) => Ok((v2, opt_isr_bytes(rc))),
            }
        } else if t.data[0] == 2 {
            match spec_unpark_recipient(v, t.signer, t.value) {
                Err(e) => Err(e),
                Ok((v2, rc)) => Ok((v2, Some(ser_upr(rc)))),
            }
        } else {
            Err(AccountError::InvalidSerialization)
        }
    }
}

/// Transform of an incoming revert, consuming the commit's receipt bytes.
pub open spec fn spec_revert_incoming(
    v: StakingContractV,
    t: TransactionV,
    rb: Option<Seq<u8>>,
) -> Result<StakingContractV, AccountError> {
    if t.sender != t.recipient {
        match rb {
            None => spec_revert_stake(v, t.sender, t.value, None),
            Some(b) => match parse_asr(b) {
                None => Err(AccountError::InvalidSerialization),
                Some(rv) => spec_revert_stake(v, t.sender, t.value, Some(rv)),
            },
        }
    } else {
        if t.data.len() == 0 {
            Err(AccountError::InvalidSerialization)
        } else if t.data[0] == 1 {
            match rb {
                None => spec_revert_retire_recipient(v, t.signer, t.value, None),
                Some(b) => match parse_isr(b) {
                    None => Err(AccountError::InvalidSerialization),
                    Some(rc) => spec_revert_retire_recipient(v, t.signer, t.value, Some(rc)),
                },
            }
        } else if t.data[0] == 2 {
            match rb {
                None => Err(AccountError::InvalidReceipt),
                Some(b) => match parse_upr(b) {
                    None => Err(AccountError::InvalidSerialization),
                    Some(rc) => spec_revert_unpark_recipient(v, t.signer, t.value, rc),
                },
            }
        } else {
            Err(AccountError::InvalidSerialization)
        }
    }
}

impl StakingContract {
    /// The staker a transaction's signature proof recovers.  Verifying the
    /// proof itself is outside the contract; the block executor hands the
    /// recovered address in.
    pub fn get_signer(transaction: &Transaction) -> (r: Address)
        ensures
            r == transaction.signer,
    {
        transaction.signer
    }

    /// Statically checks an incoming transaction.
    pub fn check_incoming_transaction(transaction: &Transaction, _block_height: u32) -> (r:
        Result<(), AccountError>)
        ensures
            r == spec_check_incoming(transaction@),
    {
        if transaction.sender != transaction.recipient {
            match read_staking_data(&transaction.data) {
                Ok(_) => Ok(()),
                Err(e) => Err(e),
            }
        } else {
            if transaction.data.len() == 0 {
                return Err(AccountError::InvalidSerialization);
            }
            let tag = transaction.data[0];
            if tag != 1 && tag != 2 {
                return Err(AccountError::InvalidSerialization);
            }
            if transaction.data.len() != 1 {
                return Err(AccountError::InvalidForTarget);
            }
            Ok(())
        }
    }

    /// Commits the incoming side of a transaction.
    pub fn commit_incoming_transaction(
        &mut self,
        transaction: &Transaction,
        block_height: u32,
    ) -> (r: Result<Option<Vec<u8>>, AccountError>)
        requires
            wf(old(self)@),
            transaction.value > 0,
        ensures
            wf(final(self)@),
            match spec_commit_incoming(old(self)@, transaction@, block_height) {
                Ok((v2, rb)) => r is Ok && opt_bytes(r->Ok_0) == rb && final(self)@ == v2,
                Err(e) => r == Err::<Option<Vec<u8>>, AccountError>(e) && final(self)@ == old(
                    self,
                )@,
            },
    {
        if transaction.sender != transaction.recipient {
            let (key, reward) = match read_staking_data(&transaction.data) {
                Ok(v) => v,
                Err(e) => {
                    return Err(e);
                },
            };
            match self.stake(&transaction.sender, transaction.value, key, reward) {
                Ok(Some(rc)) => Ok(Some(rc.serialize_to_vec())),
                Ok(None) => Ok(None),
                Err(e) => Err(e),
            }
        } else {
            if transaction.data.len() == 0 {
                return Err(AccountError::InvalidSerialization);
            }
            let tag = transaction.data[0];
            let staker_address = Self::get_signer(transaction);
            if tag == 1 {
                match self.retire_recipient(&staker_address, transaction.value, block_height) {
                    Ok(Some(rc)) => Ok(Some(rc.serialize_to_vec())),
                    Ok(None) => Ok(None),
                    Err(e) => Err(e),
                }
            } else if tag == 2 {
                match self.unpark_recipient(&staker_address, transaction.value) {
                    Ok(rc) => Ok(Some(rc.serialize_to_vec())),
                    Err(e) => Err(e),
                }
            } else {
                Err(AccountError::InvalidSerialization)
            }
        }
    }

    /// Reverts the incoming side of a transaction with the receipt its
    /// commit produced.
    pub fn revert_incoming_transaction(
        &mut self,
        transaction: &Transaction,
        _block_height: u32,
        receipt: Option<&Vec<u8>>,
    ) -> (r: Result<(), AccountError>)
        requires
            wf(old(self)@),
            transaction.value > 0,
        ensures
            wf(final(self)@),
            match spec_revert_incoming(old(self)@, transaction@, opt_ref_bytes(receipt)) {
                Ok(v2) => r is Ok && final(self)@ == v2,
                Err(e) => r == Err::<(), AccountError>(e) && final(self)@ == old(self)@,
            },
    {
        if transaction.sender != transaction.recipient {
            let rc = match receipt {
                None => None,
                Some(b) => match ActiveStakeReceipt::deserialize(b) {
                    Ok(rc) => Some(rc),
                    Err(e) => {
                        return Err(e);
                    },
                },
            };
            self.revert_stake(&transaction.sender, transaction.value, rc)
        } else {
            if transaction.data.len() == 0 {
                return Err(AccountError::InvalidSerialization);
            }
            let tag = transaction.data[0];
            let staker_address = Self::get_signer(transaction);
            if tag == 1 {
                let rc = match receipt {
                    None => None,
                    Some(b) => match InactiveStakeReceipt::deserialize(b) {
                        Ok(rc) => Some(rc),
                        Err(e) => {
                            return Err(e);
                        },
                    },
                };
                self.revert_retire_recipient(&staker_address, transaction.value, rc)
            } else if tag == 2 {
                let rc = match receipt {
                    None => {
                        return Err(AccountError::InvalidReceipt);
                    },
                    Some(b) => match UnparkReceipt::deserialize(b) {
                        Ok(rc) => rc,
                        Err(e) => {
                            return Err(e);
                        },
                    },
                };
                self.revert_unpark_recipient(&staker_address, transaction.value, rc)
            } else {
                Err(AccountError::InvalidSerialization)
            }
        }
    }
}

// ---------------------------------------------------------------------------
// Outgoing transactions.
// ---------------------------------------------------------------------------

/// Validity of an outgoing transaction against the current state: unstake
/// needs a ripe inactive entry covering `value + fee`; retire needs an
/// active entry covering it; unpark needs the active balance to equal it
/// and the staker to be parked.
pub open spec fn spec_check_outgoing(
    v: StakingContractV,
    t: TransactionV,
    block_height: u32,
) -> Result<(), AccountError> {
    let staker = t.signer;
    if t.sender != t.recipient {
        match inact_find(v.inactive, staker) {
            None => Err(AccountError::InvalidForSender),
            Some(st) => if (block_height as int) < spec_macro_block_after(st.retire_time)
                + UNSTAKING_DELAY {
                Err(AccountError::InvalidForSender)
            } else if t.value + t.fee > u64::MAX {
                Err(AccountError::InvalidCoinValue)
            } else if st.balance < t.value + t.fee {
                Err(AccountError::InvalidForSender)
            } else {
                Ok(())
            },
        }
    } else {
        if t.data.len() == 0 {
            Err(AccountError::InvalidSerialization)
        } else if t.data[0] != 1 && t.data[0] != 2 {
            Err(AccountError::InvalidSerialization)
        } else {
            match active_find(v.active, staker) {
                None => Err(AccountError::InvalidForSender),
                Some(e) => if t.data[0] == 1 {
                    if t.value + t.fee > u64::MAX {
                        Err(AccountError::InvalidCoinValue)
                    } else if e.balance < t.value + t.fee {
                        Err(AccountError::InvalidForSender)
                    } else {
                        Ok(())
                    }
                } else {
                    if t.value + t.fee > u64::MAX {
                        Err(AccountError::InvalidCoinValue)
                    } else if e.balance != t.value + t.fee {
                        Err(AccountError::InvalidForSender)
                    } else if !addrs_has(v.current_parking, staker) && !addrs_has(
                        v.previous_parking,
                        staker,
                    ) {
                        Err(AccountError::InvalidForSender)
                    } else {
                        Ok(())
                    }
                },
            }
        }
    }
}

/// Transform of an outgoing commit: the static and state checks first, then
/// unstake, retire-sender or unpark-sender.
pub open spec fn spec_commit_outgoing(
    v: StakingContractV,
    t: TransactionV,
    block_height: u32,
) -> Result<(StakingContractV, Option<Seq<u8>>), AccountError> {
    match spec_check_outgoing(v, t, block_height) {
        Err(e) => Err(e),
        Ok(_) => {
            let total = (t.value + t.fee) as u64;
            if t.sender != t.recipient {
                match spec_unstake(v, t.signer, total) {
                    Err(e) => Err(e),
                    Ok((v2, rc)) => Ok((v2, opt_isr_bytes(rc))),
                }
            } else if t.data[0] == 1 {
                match spec_retire_sender(v, t.signer, total) {
                    Err(e) => Err(e),
                    Ok((v2, rv)) => Ok((v2, opt_asr_bytes(rv))),
                }
            } else {
                match spec_unpark_sender(v, t.signer, total, t.fee) {
                    Err(e) => Err(e),
                    Ok(v2) => Ok((v2, None)),
                }
            }
        },
    }
}

/// Transform of an outgoing revert, consuming the commit's receipt bytes.
/// An unpark-sender commit produces no receipt, so handing one to its
/// revert is an error.
pub open spec fn spec_revert_outgoing(
    v: StakingContractV,
    t: TransactionV,
    rb: Option<Seq<u8>>,
) -> Result<StakingContractV, AccountError> {
    if t.sender != t.recipient {
        if t.value + t.fee > u64::MAX {
            Err(AccountError::InvalidCoinValue)
        } else {
            let total = (t.value + t.fee) as u64;
            match rb {
                None => spec_revert_unstake(v, t.signer, total, None),
                Some(b) => match parse_isr(b) {
                    None => Err(AccountError::InvalidSerialization),
                    Some(rc) => spec_revert_unstake(v, t.signer, total, Some(rc)),
                },
            }
        }
    } else {
        if t.data.len() == 0 {
            Err(AccountError::InvalidSerialization)
        } else if t.data[0] == 1 {
            if t.value + t.fee > u64::MAX {
                Err(AccountError::InvalidCoinValue)
            } else {
                let total = (t.value + t.fee) as u64;
                match rb {
                    None => spec_revert_retire_sender(v, t.signer, total, None),
                    Some(b) => match parse_asr(b) {
                        None => Err(AccountError::InvalidSerialization),
                        Some(rv) => spec_revert_retire_sender(v, t.signer, total, Some(rv)),
                    },
                }
            }
        } else if t.data[0] == 2 {
            match rb {
                Some(_) => Err(AccountError::InvalidReceipt),
                None => if t.value + t.fee > u64::MAX {
                    Err(AccountError::InvalidCoinValue)
                } else {
                    spec_revert_unpark_sender(v, t.signer, (t.value + t.fee) as u64, t.fee)
                },
            }
        } else {
            Err(AccountError::InvalidSerialization)
        }
    }
}

impl StakingContract {
    /// Checks the outgoing side of a transaction against the current state.
    pub fn check_outgoing_transaction(
        &self,
        transaction: &Transaction,
        block_height: u32,
    ) -> (r: Result<(), AccountError>)
        requires
            wf(self@),
        ensures
            r == spec_check_outgoing(self@, transaction@, block_height),
    {
        let staker_address = Self::get_signer(transaction);
        if transaction.sender != transaction.recipient {
            let st = match crate::contract::find_inactive(
                &self.inactive_stake_by_address,
                &staker_address,
            ) {
                Some(st) => st,
                None => {
                    return Err(AccountError::InvalidForSender);
                },
            };
            if (block_height as u64) < macro_block_after(st.retire_time) + (
            UNSTAKING_DELAY as u64) {
                return Err(AccountError::InvalidForSender);
            }
            let total = match transaction.total_value() {
                Ok(tv) => tv,
                Err(e) => {
                    return Err(e);
                },
            };
            if st.balance < total {
                return Err(AccountError::InvalidForSender);
            }
            Ok(())
        } else {
            if transaction.data.len() == 0 {
                return Err(AccountError::InvalidSerialization);
            }
            let tag = transaction.data[0];
            if tag != 1 && tag != 2 {
                return Err(AccountError::InvalidSerialization);
            }
            let active_balance = match crate::contract::find_active_balance(
                &self.active_stake_sorted,
                &staker_address,
            ) {
                Some(b) => b,
                None => {
                    return Err(AccountError::InvalidForSender);
                },
            };
            let total = match transaction.total_value() {
                Ok(tv) => tv,
                Err(e) => {
                    return Err(e);
                },
            };
            if tag == 1 {
                if active_balance < total {
                    return Err(AccountError::InvalidForSender);
                }
                Ok(())
            } else {
                if active_balance != total {
                    return Err(AccountError::InvalidForSender);
                }
                let cur = crate::contract::addr_set_contains(
                    &self.current_epoch_parking,
                    &staker_address,
                );
                let prev = crate::contract::addr_set_contains(
                    &self.previous_epoch_parking,
                    &staker_address,
                );
                if !cur && !prev {
                    return Err(AccountError::InvalidForSender);
                }
                Ok(())
            }
        }
    }

    /// Commits the outgoing side of a transaction.
    pub fn commit_outgoing_transaction(
        &mut self,
        transaction: &Transaction,
        block_height: u32,
    ) -> (r: Result<Option<Vec<u8>>, AccountError>)
        requires
            wf(old(self)@),
            transaction.value > 0,
        ensures
            wf(final(self)@),
            match spec_commit_outgoing(old(self)@, transaction@, block_height) {
                Ok((v2, rb)) => r is Ok && opt_bytes(r->Ok_0) == rb && final(self)@ == v2,
                Err(e) => r == Err::<Option<Vec<u8>>, AccountError>(e) && final(self)@ == old(
                    self,
                )@,
            },
    {
        match self.check_outgoing_transaction(transaction, block_height) {
            Ok(_) => {},
            Err(e) => {
                return Err(e);
            },
        }
        let staker_address = Self::get_signer(transaction);
        let total = match transaction.total_value() {
            Ok(tv) => tv,
            Err(e) => {
                return Err(e);
            },
        };
        if transaction.sender != transaction.recipient {
            match self.unstake(&staker_address, total) {
                Ok(Some(rc)) => Ok(Some(rc.serialize_to_vec())),
                Ok(None) => Ok(None),
                Err(e) => Err(e),
            }
        } else {
            let tag = transaction.data[0];
            if tag == 1 {
                match self.retire_sender(&staker_address, total) {
                    Ok(Some(rc)) => Ok(Some(rc.serialize_to_vec())),
                    Ok(None) => Ok(None),
                    Err(e) => Err(e),
                }
            } else {
                match self.unpark_sender(&staker_address, total, transaction.fee) {
                    Ok(_) => Ok(None),
                    Err(e) => Err(e),
                }
            }
        }
    }

    /// Reverts the outgoing side of a transaction with the receipt its
    /// commit produced.
    pub fn revert_outgoing_transaction(
        &mut self,
        transaction: &Transaction,
        _block_height: u32,
        receipt: Option<&Vec<u8>>,
    ) -> (r: Result<(), AccountError>)
        requires
            wf(old(self)@),
            transaction.value > 0,
        ensures
            wf(final(self)@),
            match spec_revert_outgoing(old(self)@, transaction@, opt_ref_bytes(receipt)) {
                Ok(v2) => r is Ok && final(self)@ == v2,
                Err(e) => r == Err::<(), AccountError>(e) && final(self)@ == old(self)@,
            },
    {
        let staker_address = Self::get_signer(transaction);
        if transaction.sender != transaction.recipient {
            let total = match transaction.total_value() {
                Ok(tv) => tv,
                Err(e) => {
                    return Err(e);
                },
            };
            let rc = match receipt {
                None => None,
                Some(b) => match InactiveStakeReceipt::deserialize(b) {
                    Ok(rc) => Some(rc),
                    Err(e) => {
                        return Err(e);
                    },
                },
            };
            self.revert_unstake(&staker_address, total, rc)
        } else {
            if transaction.data.len() == 0 {
                return Err(AccountError::InvalidSerialization);
            }
            let tag = transaction.data[0];
            if tag == 1 {
                let total = match transaction.total_value() {
                    Ok(tv) => tv,
                    Err(e) => {
                        return Err(e);
                    },
                };
                let rc = match receipt {
                    None => None,
                    Some(b) => match ActiveStakeReceipt::deserialize(b) {
                        Ok(rc) => Some(rc),
                        Err(e) => {
                            return Err(e);
                        },
                    },
                };
                self.revert_retire_sender(&staker_address, total, rc)
            } else if tag == 2 {
                if receipt.is_some() {
                    return Err(AccountError::InvalidReceipt);
                }
                let total = match transaction.total_value() {
                    Ok(tv) => tv,
                    Err(e) => {
                        return Err(e);
                    },
                };
                self.revert_unpark_sender(&staker_address, total, transaction.fee)
            } else {
                Err(AccountError::InvalidSerialization)
            }
        }
    }

    /// Contract creation by transaction is not supported.
    pub fn new_contract(
        _balance: Coin,
        _transaction: &Transaction,
        _block_height: u32,
    ) -> (r: Result<StakingContract, AccountError>)
        ensures
            r is Err && r->Err_0 == AccountError::InvalidForRecipient,
    {
        Err(AccountError::InvalidForRecipient)
    }

    /// Contract creation by transaction is not supported.
    pub fn create(
        _balance: Coin,
        _transaction: &Transaction,
        _block_height: u32,
    ) -> (r: Result<StakingContract, AccountError>)
        ensures
            r is Err && r->Err_0 == AccountError::InvalidForRecipient,
    {
        Err(AccountError::InvalidForRecipient)
    }
}

// ---------------------------------------------------------------------------
// Inherents.
// ---------------------------------------------------------------------------

/// Validity of an inherent: slashes carry no value and exactly one address,
/// which must have stake; epoch finalization carries no value and no data;
/// rewards are not for this contract.
pub open spec fn spec_check_inherent(v: StakingContractV, inh: InherentV) -> Result<
    (),
    AccountError,
> {
    if inh.value != 0 {
        Err(AccountError::InvalidInherent)
    } else {
        match inh.ty {
            InherentType::Slash => if inh.data.len() != ADDRESS_SIZE {
                Err(AccountError::InvalidInherent)
            } else {
                let a = addr_of_bytes(inh.data.subrange(0, ADDRESS_SIZE as int));
                if !active_has(v.active, a) && !inact_has(v.inactive, a) {
                    Err(AccountError::InvalidInherent)
                } else {
                    Ok(())
                }
            },
            InherentType::FinalizeEpoch => if inh.data.len() != 0 {
                Err(AccountError::InvalidInherent)
            } else {
                Ok(())
            },
            InherentType::Reward => Err(AccountError::InvalidForTarget),
        }
    }
}

/// The epoch-finalization sweep: for each address, in ascending order, with
/// a positive active balance, the whole balance retires (a retire-sender
/// then a retire-recipient at the closing block's height).
pub open spec fn spec_finalize_drop(
    v: StakingContractV,
    addrs: Seq<Address>,
    block_height: u32,
) -> Result<StakingContractV, AccountError>
    decreases addrs.len(),
{
    if addrs.len() == 0 {
        Ok(v)
    } else {
        let a = addrs[0];
        let bal = active_balance_of(v, a);
        if bal > 0 {
            match spec_retire_sender(v, a, bal) {
                Err(e) => Err(e),
                Ok((v1, _)) => match spec_retire_recipient(v1, a, bal, block_height) {
                    Err(e) => Err(e),
                    Ok((v2, _)) => spec_finalize_drop(v2, addrs.drop_first(), block_height),
                },
            }
        } else {
            spec_finalize_drop(v, addrs.drop_first(), block_height)
        }
    }
}

/// Transform of epoch finalization: the parking sets rotate (current
/// becomes previous, current empties), and every staker of the dropped
/// previous set with remaining active stake is retired in full.
pub open spec fn spec_finalize(v: StakingContractV, block_height: u32) -> Result<
    StakingContractV,
    AccountError,
> {
    let rotated = StakingContractV {
        current_parking: Seq::<Address>::empty(),
        previous_parking: v.current_parking,
        ..v
    };
    spec_finalize_drop(rotated, v.previous_parking, block_height)
}

/// Transform of an inherent commit.
pub open spec fn spec_commit_inherent(
    v: StakingContractV,
    inh: InherentV,
    block_height: u32,
) -> Result<(StakingContractV, Option<Seq<u8>>), AccountError> {
    match spec_check_inherent(v, inh) {
        Err(e) => Err(e),
        Ok(_) => match inh.ty {
            InherentType::Slash => {
                let a = addr_of_bytes(inh.data.subrange(0, ADDRESS_SIZE as int));
                let newly = !addrs_has(v.current_parking, a);
                Ok(
                    (
                        StakingContractV {
                            current_parking: addrs_set_insert(v.current_parking, a),
                            ..v
                        },
                        Some(ser_slash(SlashReceipt { newly_slashed: newly })),
                    ),
                )
            },
            InherentType::FinalizeEpoch => match spec_finalize(v, block_height) {
                Err(e) => Err(e),
                Ok(v2) => Ok((v2, None)),
            },
            InherentType::Reward => Err(AccountError::InvalidForTarget),
        },
    }
}

/// Transform of an inherent revert.  Epoch finalization is irreversible:
/// its revert is a hard error.
pub open spec fn spec_revert_inherent(
    v: StakingContractV,
    inh: InherentV,
    rb: Option<Seq<u8>>,
) -> Result<StakingContractV, AccountError> {
    match inh.ty {
        InherentType::Slash => match rb {
            None => Err(AccountError::InvalidReceipt),
            Some(b) => match parse_slash(b) {
                None => Err(AccountError::InvalidSerialization),
                Some(rc) => if inh.data.len() < ADDRESS_SIZE {
                    Err(AccountError::InvalidSerialization)
                } else {
                    let a = addr_of_bytes(inh.data.subrange(0, ADDRESS_SIZE as int));
                    if rc.newly_slashed {
                        if !addrs_has(v.current_parking, a) {
                            Err(AccountError::InvalidInherent)
                        } else {
                            Ok(
                                StakingContractV {
                                    current_parking: addrs_remove(v.current_parking, a),
                                    ..v
                                },
                            )
                        }
                    } else {
                        Ok(v)
                    }
                },
            },
        },
        InherentType::FinalizeEpoch => Err(AccountError::InvalidForTarget),
        InherentType::Reward => Err(AccountError::InvalidForTarget),
    }
}

/// Under the balance equation, one finalization step cannot fail: the
/// staker's whole active balance fits both coin subtractions and additions,
/// and the equation holds again afterwards.
pub proof fn lemma_finalize_step(v: StakingContractV, a: Address, block_height: u32)
    requires
        wf(v),
        balanced(v),
        active_balance_of(v, a) > 0,
    ensures
        spec_retire_sender(v, a, active_balance_of(v, a)) is Ok,
        ({
            let bal = active_balance_of(v, a);
            let v1 = spec_retire_sender(v, a, bal)->Ok_0.0;
            &&& spec_retire_recipient(v1, a, bal, block_height) is Ok
            &&& balanced(spec_retire_recipient(v1, a, bal, block_height)->Ok_0.0)
        }),
{
    let bal = active_balance_of(v, a);
    lemma_active_sum_bounds(v.active, a);
    lemma_inact_sum_bounds(v.inactive, a);
    let e = active_find(v.active, a)->Some_0;
    assert(e.balance == bal);
    assert(bal <= v.balance);
    let v1 = spec_retire_sender(v, a, bal)->Ok_0.0;
    lemma_active_remove_props(v.active, a);
    assert(v1.balance == v.balance - bal);
    assert(v1.inactive == v.inactive);
    match inact_find(v.inactive, a) {
        Some(st) => {
            assert(st.balance + bal <= v.balance);
            let new_st = crate::types::InactiveStake {
                balance: (st.balance + bal) as u64,
                retire_time: block_height,
            };
            lemma_inact_remove_props(v.inactive, a);
            lemma_inact_insert_props(inact_remove(v.inactive, a), (a, new_st));
        },
        None => {
            let new_st = crate::types::InactiveStake { balance: bal, retire_time: block_height };
            lemma_inact_insert_props(v.inactive, (a, new_st));
        },
    }
}

impl StakingContract {
    /// Checks an inherent against the current state.
    pub fn check_inherent(&self, inherent: &Inherent, _block_height: u32) -> (r: Result<
        (),
        AccountError,
    >)
        ensures
            r == spec_check_inherent(self@, inherent@),
    {
        if inherent.value != 0 {
            return Err(AccountError::InvalidInherent);
        }
        match inherent.ty {
            InherentType::Slash => {
                if inherent.data.len() != ADDRESS_SIZE {
                    return Err(AccountError::InvalidInherent);
                }
                let (a, _) = match read_addr(&inherent.data, 0) {
                    Some(v) => v,
                    None => {
                        return Err(AccountError::InvalidInherent);
                    },
                };
                proof {
                    assert(inherent.data@.subrange(0, ADDRESS_SIZE as int) =~= inherent.data@);
                }
                let has_active = crate::contract::find_active_balance(
                    &self.active_stake_sorted,
                    &a,
                ).is_some();
                let has_inactive = crate::contract::find_inactive(
                    &self.inactive_stake_by_address,
                    &a,
                ).is_some();
                if !has_active && !has_inactive {
                    return Err(AccountError::InvalidInherent);
                }
                Ok(())
            },
            InherentType::FinalizeEpoch => {
                if inherent.data.len() != 0 {
                    return Err(AccountError::InvalidInherent);
                }
                Ok(())
            },
            InherentType::Reward => Err(AccountError::InvalidForTarget),
        }
    }

    /// Commits an inherent.  Epoch finalization asks for the balance
    /// equation because its sweep moves whole balances between the tables;
    /// inherents run between complete operations, where it always holds.
    pub fn commit_inherent(&mut self, inherent: &Inherent, block_height: u32) -> (r: Result<
        Option<Vec<u8>>,
        AccountError,
    >)
        requires
            wf(old(self)@),
            inherent.ty == InherentType::FinalizeEpoch ==> balanced(old(self)@),
        ensures
            wf(final(self)@),
            balanced(old(self)@) ==> balanced(final(self)@),
            match spec_commit_inherent(old(self)@, inherent@, block_height) {
                Ok((v2, rb)) => r is Ok && opt_bytes(r->Ok_0) == rb && final(self)@ == v2,
                Err(e) => r == Err::<Option<Vec<u8>>, AccountError>(e) && final(self)@ == old(
                    self,
                )@,
            },
    {
        let ghost v0 = self@;
        match self.check_inherent(inherent, block_height) {
            Ok(_) => {},
            Err(e) => {
                return Err(e);
            },
        }
        match inherent.ty {
            InherentType::Slash => {
                let (a, _) = match read_addr(&inherent.data, 0) {
                    Some(v) => v,
                    None => {
                        return Err(AccountError::InvalidInherent);
                    },
                };
                let newly = !crate::contract::addr_set_contains(&self.current_epoch_parking, &a);
                if newly {
                    proof {
                        lemma_addrs_insert_props(v0.current_parking, a);
                    }
                    crate::contract::insert_addr(&mut self.current_epoch_parking, a);
                }
                let rc = SlashReceipt { newly_slashed: newly };
                proof {
                    assert(self@ =~= spec_commit_inherent(v0, inherent@, block_height)->Ok_0.0);
                }
                Ok(Some(rc.serialize_to_vec()))
            },
            InherentType::FinalizeEpoch => {
                let mut rotated: Vec<Address> = Vec::new();
                core::mem::swap(&mut rotated, &mut self.current_epoch_parking);
                core::mem::swap(&mut rotated, &mut self.previous_epoch_parking);
                let to_drop = rotated;
                let ghost v1 = self@;
                proof {
                    assert(v1 =~= (StakingContractV {
                        current_parking: Seq::<Address>::empty(),
                        previous_parking: v0.current_parking,
                        ..v0
                    }));
                    assert(to_drop@ == v0.previous_parking);
                    assert(to_drop@.skip(0) =~= to_drop@);
                }
                let mut k: usize = 0;
                while k < to_drop.len()
                    invariant
                        k <= to_drop@.len(),
                        wf(self@),
                        balanced(self@),
                        spec_finalize_drop(v1, to_drop@, block_height) == spec_finalize_drop(
                            self@,
                            to_drop@.skip(k as int),
                            block_height,
                        ),
                    decreases to_drop@.len() - k,
                {
                    let a = to_drop[k];
                    let bal = self.get_active_balance(&a);
                    let ghost vc = self@;
                    proof {
                        assert(to_drop@.skip(k as int)[0] == to_drop@[k as int]);
                        assert(to_drop@.skip(k as int).drop_first() =~= to_drop@.skip(
                            k as int + 1,
                        ));
                    }
                    if bal > 0 {
                        proof {
                            lemma_finalize_step(vc, a, block_height);
                        }
                        match self.retire_sender(&a, bal) {
                            Ok(_) => {},
                            Err(e) => {
                                return Err(e);
                            },
                        }
                        match self.retire_recipient(&a, bal, block_height) {
                            Ok(_) => {},
                            Err(e) => {
                                return Err(e);
                            },
                        }
                    }
                    k = k + 1;
                }
                proof {
                    assert(to_drop@.skip(to_drop@.len() as int) =~= Seq::<Address>::empty());
                }
                Ok(None)
            },
            InherentType::Reward => Err(AccountError::InvalidForTarget),
        }
    }

    /// Reverts an inherent with the receipt its commit produced.  Epoch
    /// finalization cannot be reverted.
    pub fn revert_inherent(
        &mut self,
        inherent: &Inherent,
        _block_height: u32,
        receipt: Option<&Vec<u8>>,
    ) -> (r: Result<(), AccountError>)
        requires
            wf(old(self)@),
        ensures
            wf(final(self)@),
            match spec_revert_inherent(old(self)@, inherent@, opt_ref_bytes(receipt)) {
                Ok(v2) => r is Ok && final(self)@ == v2,
                Err(e) => r == Err::<(), AccountError>(e) && final(self)@ == old(self)@,
            },
    {
        let ghost v0 = self@;
        match inherent.ty {
            InherentType::Slash => {
                let b = match receipt {
                    None => {
                        return Err(AccountError::InvalidReceipt);
                    },
                    Some(b) => b,
                };
                let rc = match SlashReceipt::deserialize(b) {
                    Ok(rc) => rc,
                    Err(e) => {
                        return Err(e);
                    },
                };
                let (a, _) = match read_addr(&inherent.data, 0) {
                    Some(v) => v,
                    None => {
                        return Err(AccountError::InvalidSerialization);
                    },
                };
                if rc.newly_slashed {
                    proof {
                        lemma_addrs_remove_props(v0.current_parking, a);
                    }
                    match crate::contract::find_addr_index(&self.current_epoch_parking, &a) {
                        Some(i) => {
                            let _ = self.current_epoch_parking.remove(i);
                            proof {
                                assert(self@ =~= spec_revert_inherent(
                                    v0,
                                    inherent@,
                                    opt_ref_bytes(receipt),
                                )->Ok_0);
                            }
                            Ok(())
                        },
                        None => Err(AccountError::InvalidInherent),
                    }
                } else {
                    Ok(())
                }
            },
            InherentType::FinalizeEpoch => Err(AccountError::InvalidForTarget),
            InherentType::Reward => Err(AccountError::InvalidForTarget),
        }
    }
}

} // verus!
