//! End-to-end behaviour of the staking contract: stake lifecycle,
//! commit/revert symmetry, parking, epoch finalization and the canonical
//! encoding.

use staking_contract::contract::StakingContract;
use staking_contract::types::{
    AccountError, ActiveStake, Address, InactiveStake, Inherent, InherentType, Transaction,
    SLOTS,
};
use staking_contract::select::VrfSeed;

fn addr(tag: u8) -> Address {
    Address { hi: tag as u64, mid: 0, lo: 0 }
}

fn key(tag: u8) -> Vec<u8> {
    vec![tag; 96]
}

fn addr_bytes(a: &Address) -> Vec<u8> {
    let mut out = Vec::new();
    out.extend_from_slice(&a.hi.to_be_bytes());
    out.extend_from_slice(&a.mid.to_be_bytes());
    out.extend_from_slice(&a.lo.to_be_bytes());
    out
}

fn stake_data(validator_key: &[u8], reward: Option<&Address>) -> Vec<u8> {
    let mut out = validator_key.to_vec();
    match reward {
        None => out.push(0),
        Some(a) => {
            out.push(1);
            out.extend_from_slice(&addr_bytes(a));
        }
    }
    out
}

fn self_tx(contract_addr: Address, signer: Address, value: u64, fee: u64, tag: u8) -> Transaction {
    Transaction {
        sender: contract_addr,
        recipient: contract_addr,
        value,
        fee,
        data: vec![tag],
        signer,
    }
}

#[test]
fn stake_from_fresh_state() {
    let mut c = StakingContract::default();
    let a = addr(7);
    let receipt = c.stake(&a, 100, key(1), None).unwrap();
    assert!(receipt.is_none());
    assert_eq!(c.get_active_balance(&a), 100);
    assert_eq!(c.active_stake_sorted[0].staker_address, a);
    assert_eq!(c.balance, 100);
}

#[test]
fn stake_on_top_replaces_key_and_reverts() {
    let mut c = StakingContract::default();
    let a = addr(7);
    c.stake(&a, 100, key(1), None).unwrap();
    let before = c.clone();
    let receipt = c.stake(&a, 50, key(2), None).unwrap().unwrap();
    assert_eq!(c.get_active_balance(&a), 150);
    assert_eq!(c.active_stake_sorted[0].validator_key, key(2));
    assert_eq!(receipt.validator_key, key(1));
    assert_eq!(receipt.reward_address, None);
    c.revert_stake(&a, 50, Some(receipt)).unwrap();
    assert_eq!(c, before);
}

#[test]
fn retire_in_two_steps_resets_retire_time() {
    let mut c = StakingContract::default();
    let a = addr(7);
    c.stake(&a, 100, key(1), None).unwrap();
    // retire 40 at height 1000 (fee 0: the recipient side gets the same 40)
    assert!(c.retire_sender(&a, 40).unwrap().is_none());
    assert!(c.retire_recipient(&a, 40, 1000).unwrap().is_none());
    assert_eq!(c.get_active_balance(&a), 60);
    assert_eq!(c.get_inactive_balance(&a), 40);
    assert_eq!(c.inactive_stake_by_address[0].1, InactiveStake { balance: 40, retire_time: 1000 });
    assert_eq!(c.balance, 100);
    assert_eq!(c.get_balance(&a), 100);
    // retire the remaining 60 at height 2000: the entry is removed whole
    let receipt = c.retire_sender(&a, 60).unwrap().unwrap();
    assert_eq!(receipt.validator_key, key(1));
    let inner = c.retire_recipient(&a, 60, 2000).unwrap().unwrap();
    assert_eq!(inner.retire_time, 1000);
    assert_eq!(c.get_active_balance(&a), 0);
    assert_eq!(
        c.inactive_stake_by_address[0].1,
        InactiveStake { balance: 100, retire_time: 2000 }
    );
    assert!(c.active_stake_sorted.is_empty());
}

#[test]
fn unstake_at_the_boundary() {
    let a = addr(7);
    let b = addr(9);
    let mut c = StakingContract {
        balance: 100,
        active_stake_sorted: Vec::new(),
        inactive_stake_by_address: vec![(a, InactiveStake { balance: 100, retire_time: 2000 })],
        current_epoch_parking: Vec::new(),
        previous_epoch_parking: Vec::new(),
    };
    let tx = Transaction { sender: a, recipient: b, value: 100, fee: 0, data: Vec::new(), signer: a };
    // macro_block_after(2000) == 2100 and the delay is 100: height 2199 is
    // one block short, 2200 succeeds
    assert_eq!(
        c.check_outgoing_transaction(&tx, 2199),
        Err(AccountError::InvalidForSender)
    );
    assert_eq!(c.check_outgoing_transaction(&tx, 2200), Ok(()));
    let receipt = c.commit_outgoing_transaction(&tx, 2200).unwrap().unwrap();
    assert_eq!(receipt, 2000u32.to_be_bytes().to_vec());
    assert!(c.inactive_stake_by_address.is_empty());
    assert_eq!(c.balance, 0);
}

#[test]
fn stake_overflow_leaves_state_unchanged() {
    let mut c = StakingContract::default();
    let a = addr(7);
    c.stake(&a, u64::MAX - 10, key(1), None).unwrap();
    let before = c.clone();
    assert_eq!(c.stake(&a, 100, key(2), None), Err(AccountError::InvalidCoinValue));
    assert_eq!(c, before);
}

#[test]
fn finalize_epoch_with_empty_parking_is_a_noop() {
    let mut c = StakingContract::default();
    let a = addr(7);
    c.stake(&a, 100, key(1), None).unwrap();
    let before = c.clone();
    let inherent = Inherent { ty: InherentType::FinalizeEpoch, value: 0, data: Vec::new() };
    assert_eq!(c.commit_inherent(&inherent, 3000), Ok(None));
    assert_eq!(c, before);
}

#[test]
fn slash_parks_once_then_rotates_out() {
    let mut c = StakingContract::default();
    let a = addr(7);
    c.stake(&a, 100, key(1), None).unwrap();
    let slash = Inherent { ty: InherentType::Slash, value: 0, data: addr_bytes(&a) };
    // first slash parks the address, the second finds it parked already
    assert_eq!(c.commit_inherent(&slash, 100).unwrap(), Some(vec![1]));
    assert_eq!(c.commit_inherent(&slash, 101).unwrap(), Some(vec![0]));
    assert_eq!(c.current_epoch_parking, vec![a]);
    // first finalization moves it to the previous set
    let fin = Inherent { ty: InherentType::FinalizeEpoch, value: 0, data: Vec::new() };
    c.commit_inherent(&fin, 200).unwrap();
    assert!(c.current_epoch_parking.is_empty());
    assert_eq!(c.previous_epoch_parking, vec![a]);
    // the second drops it, retiring the remaining active balance
    c.commit_inherent(&fin, 300).unwrap();
    assert!(c.previous_epoch_parking.is_empty());
    assert_eq!(c.get_active_balance(&a), 0);
    assert_eq!(
        c.inactive_stake_by_address[0].1,
        InactiveStake { balance: 100, retire_time: 300 }
    );
    assert_eq!(c.balance, 100);
}

#[test]
fn slash_revert_unparks() {
    let mut c = StakingContract::default();
    let a = addr(7);
    c.stake(&a, 100, key(1), None).unwrap();
    let before = c.clone();
    let slash = Inherent { ty: InherentType::Slash, value: 0, data: addr_bytes(&a) };
    let receipt = c.commit_inherent(&slash, 100).unwrap();
    c.revert_inherent(&slash, 100, receipt.as_ref()).unwrap();
    assert_eq!(c, before);
}

#[test]
fn unpark_clears_parking_and_reverts() {
    let contract_addr = addr(1);
    let a = addr(7);
    let mut c = StakingContract::default();
    c.stake(&a, 100, key(1), None).unwrap();
    let slash = Inherent { ty: InherentType::Slash, value: 0, data: addr_bytes(&a) };
    c.commit_inherent(&slash, 100).unwrap();
    let before = c.clone();
    // the whole stake of 100 is routed through: value 95, fee 5
    let tx = self_tx(contract_addr, a, 95, 5, 2);
    assert_eq!(c.check_outgoing_transaction(&tx, 150), Ok(()));
    let out_receipt = c.commit_outgoing_transaction(&tx, 150).unwrap();
    assert!(out_receipt.is_none());
    let in_receipt = c.commit_incoming_transaction(&tx, 150).unwrap().unwrap();
    // receipt: was in the current set, not in the previous one
    assert_eq!(in_receipt, vec![1, 0]);
    assert!(c.current_epoch_parking.is_empty());
    assert_eq!(c.get_active_balance(&a), 95);
    assert_eq!(c.balance, 95);
    // revert both sides
    c.revert_incoming_transaction(&tx, 150, Some(&in_receipt)).unwrap();
    c.revert_outgoing_transaction(&tx, 150, None).unwrap();
    assert_eq!(c, before);
}

#[test]
fn unpark_of_unparked_address_is_refused() {
    let mut c = StakingContract::default();
    let a = addr(7);
    c.stake(&a, 100, key(1), None).unwrap();
    assert_eq!(c.unpark_recipient(&a, 5), Err(AccountError::InvalidForRecipient));
}

#[test]
fn stake_commit_and_revert_through_transactions() {
    let a = addr(7);
    let contract_addr = addr(1);
    let reward = addr(9);
    let mut c = StakingContract::default();
    let before = c.clone();
    let tx = Transaction {
        sender: a,
        recipient: contract_addr,
        value: 100,
        fee: 1,
        data: stake_data(&key(1), Some(&reward)),
        signer: a,
    };
    assert_eq!(StakingContract::check_incoming_transaction(&tx, 10), Ok(()));
    let receipt = c.commit_incoming_transaction(&tx, 10).unwrap();
    assert!(receipt.is_none());
    assert_eq!(c.get_active_balance(&a), 100);
    assert_eq!(c.active_stake_sorted[0].reward_address, Some(reward));
    c.revert_incoming_transaction(&tx, 10, None).unwrap();
    assert_eq!(c, before);
}

#[test]
fn retire_commit_and_revert_through_transactions() {
    let a = addr(7);
    let contract_addr = addr(1);
    let mut c = StakingContract::default();
    c.stake(&a, 100, key(1), None).unwrap();
    let before = c.clone();
    let tx = self_tx(contract_addr, a, 40, 2, 1);
    let out_receipt = c.commit_outgoing_transaction(&tx, 1000).unwrap();
    assert!(out_receipt.is_none());
    let in_receipt = c.commit_incoming_transaction(&tx, 1000).unwrap();
    assert!(in_receipt.is_none());
    assert_eq!(c.get_active_balance(&a), 58);
    assert_eq!(c.get_inactive_balance(&a), 40);
    assert_eq!(c.balance, 98);
    c.revert_incoming_transaction(&tx, 1000, None).unwrap();
    c.revert_outgoing_transaction(&tx, 1000, None).unwrap();
    assert_eq!(c, before);
}

#[test]
fn commit_is_deterministic() {
    let a = addr(7);
    let contract_addr = addr(1);
    let tx = Transaction {
        sender: a,
        recipient: contract_addr,
        value: 100,
        fee: 1,
        data: stake_data(&key(1), None),
        signer: a,
    };
    let mut c1 = StakingContract::default();
    let mut c2 = StakingContract::default();
    let r1 = c1.commit_incoming_transaction(&tx, 10);
    let r2 = c2.commit_incoming_transaction(&tx, 10);
    assert_eq!(r1, r2);
    assert_eq!(c1, c2);
}

#[test]
fn selection_is_deterministic_and_full() {
    let mut c = StakingContract::default();
    c.stake(&addr(7), 100, key(1), None).unwrap();
    c.stake(&addr(8), 300, key(2), None).unwrap();
    c.stake(&addr(9), 50, key(3), None).unwrap();
    let seed = VrfSeed { entropy: 0x1234_5678_9abc_def0 };
    let slots1 = c.select_validators(&seed);
    let slots2 = c.select_validators(&seed);
    assert_eq!(slots1.len(), SLOTS);
    assert_eq!(slots1, slots2);
    for slot in &slots1 {
        assert!(c
            .active_stake_sorted
            .iter()
            .any(|e| e.staker_address == slot.staker_address
                && e.validator_key == slot.validator_key));
    }
}

#[test]
fn active_table_is_sorted_by_balance_then_address() {
    let mut c = StakingContract::default();
    c.stake(&addr(9), 100, key(1), None).unwrap();
    c.stake(&addr(7), 100, key(2), None).unwrap();
    c.stake(&addr(8), 300, key(3), None).unwrap();
    let order: Vec<Address> = c.active_stake_sorted.iter().map(|e| e.staker_address).collect();
    assert_eq!(order, vec![addr(8), addr(7), addr(9)]);
}

#[test]
fn reward_inherent_is_refused() {
    let c = StakingContract::default();
    let inherent = Inherent { ty: InherentType::Reward, value: 0, data: Vec::new() };
    assert_eq!(c.check_inherent(&inherent, 0), Err(AccountError::InvalidForTarget));
}

#[test]
fn malformed_inherents_are_refused() {
    let mut c = StakingContract::default();
    c.stake(&addr(7), 100, key(1), None).unwrap();
    let valued = Inherent { ty: InherentType::Slash, value: 5, data: addr_bytes(&addr(7)) };
    assert_eq!(c.check_inherent(&valued, 0), Err(AccountError::InvalidInherent));
    let short = Inherent { ty: InherentType::Slash, value: 0, data: vec![1, 2, 3] };
    assert_eq!(c.check_inherent(&short, 0), Err(AccountError::InvalidInherent));
    let unknown = Inherent { ty: InherentType::Slash, value: 0, data: addr_bytes(&addr(8)) };
    assert_eq!(c.check_inherent(&unknown, 0), Err(AccountError::InvalidInherent));
    let fat_finalize = Inherent { ty: InherentType::FinalizeEpoch, value: 0, data: vec![0] };
    assert_eq!(c.check_inherent(&fat_finalize, 0), Err(AccountError::InvalidInherent));
}

#[test]
fn malformed_transaction_data_is_refused() {
    let a = addr(7);
    let contract_addr = addr(1);
    let short_stake = Transaction {
        sender: a,
        recipient: contract_addr,
        value: 100,
        fee: 0,
        data: vec![1, 2, 3],
        signer: a,
    };
    assert_eq!(
        StakingContract::check_incoming_transaction(&short_stake, 0),
        Err(AccountError::InvalidSerialization)
    );
    let bad_tag = self_tx(contract_addr, a, 10, 0, 9);
    assert_eq!(
        StakingContract::check_incoming_transaction(&bad_tag, 0),
        Err(AccountError::InvalidSerialization)
    );
    let mut fat = self_tx(contract_addr, a, 10, 0, 1);
    fat.data.push(0);
    assert_eq!(
        StakingContract::check_incoming_transaction(&fat, 0),
        Err(AccountError::InvalidForTarget)
    );
}

#[test]
fn spurious_receipt_is_refused() {
    let mut c = StakingContract::default();
    let a = addr(7);
    c.stake(&a, 100, key(1), None).unwrap();
    let before = c.clone();
    let spurious = staking_contract::types::ActiveStakeReceipt {
        validator_key: key(2),
        reward_address: None,
    };
    assert_eq!(c.revert_stake(&a, 100, Some(spurious)), Err(AccountError::InvalidReceipt));
    assert_eq!(c.revert_stake(&a, 100, None), Ok(()));
    assert_ne!(c, before);
    assert!(c.active_stake_sorted.is_empty());
}

#[test]
fn contract_creation_is_refused() {
    let a = addr(7);
    let tx = Transaction {
        sender: a,
        recipient: addr(1),
        value: 1,
        fee: 0,
        data: Vec::new(),
        signer: a,
    };
    assert_eq!(
        StakingContract::create(0, &tx, 0).unwrap_err(),
        AccountError::InvalidForRecipient
    );
    assert_eq!(
        StakingContract::new_contract(0, &tx, 0).unwrap_err(),
        AccountError::InvalidForRecipient
    );
}

#[test]
fn engine_refuses_finalize_revert() {
    let mut c = StakingContract::default();
    let fin = Inherent { ty: InherentType::FinalizeEpoch, value: 0, data: Vec::new() };
    assert_eq!(c.revert_inherent(&fin, 0, None), Err(AccountError::InvalidForTarget));
}
