//! Byte-exactness of the canonical codec: the receipt encodings against
//! reference bytes, and the whole-contract round trip.

use staking_contract::contract::StakingContract;
use staking_contract::types::{
    ActiveStake, ActiveStakeReceipt, Address, InactiveStake, InactiveStakeReceipt, SlashReceipt,
    UnparkReceipt,
};

#[test]
fn it_can_de_serialize_an_active_stake_receipt() {
    const ACTIVE_STAKE_RECEIPT: &str = "96b94e8a2fa79cb3d96bfde5ed2fa693aa6bec225e944b23c96b1c83dda67b34b62d105763bdf3cd378de9e4d8809fb00f815e309ec94126f22d77ef81fe00fa3a51a6c750349efda2133ca2f0e1b04094c4e2ce08b73c72fccedc33e127259f010303030303030303030303030303030303030303";
    const BLS_PUBLIC_KEY: &str = "96b94e8a2fa79cb3d96bfde5ed2fa693aa6bec225e944b23c96b1c83dda67b34b62d105763bdf3cd378de9e4d8809fb00f815e309ec94126f22d77ef81fe00fa3a51a6c750349efda2133ca2f0e1b04094c4e2ce08b73c72fccedc33e127259f";

    let bytes: Vec<u8> = hex::decode(ACTIVE_STAKE_RECEIPT).unwrap();
    let asr: ActiveStakeReceipt = ActiveStakeReceipt::deserialize(&bytes).unwrap();
    let bls_pubkey: Vec<u8> = hex::decode(BLS_PUBLIC_KEY).unwrap();
    assert_eq!(asr.validator_key, bls_pubkey);

    assert_eq!(hex::encode(asr.serialize_to_vec()), ACTIVE_STAKE_RECEIPT);
}

#[test]
fn small_receipts_round_trip() {
    let isr = InactiveStakeReceipt { retire_time: 0xdead_beef };
    assert_eq!(isr.serialize_to_vec(), vec![0xde, 0xad, 0xbe, 0xef]);
    assert_eq!(InactiveStakeReceipt::deserialize(&isr.serialize_to_vec()).unwrap(), isr);

    let upr = UnparkReceipt { current_epoch: true, previous_epoch: false };
    assert_eq!(upr.serialize_to_vec(), vec![1, 0]);
    assert_eq!(UnparkReceipt::deserialize(&upr.serialize_to_vec()).unwrap(), upr);

    let sr = SlashReceipt { newly_slashed: true };
    assert_eq!(sr.serialize_to_vec(), vec![1]);
    assert_eq!(SlashReceipt::deserialize(&sr.serialize_to_vec()).unwrap(), sr);
}

fn addr(tag: u8) -> Address {
    Address { hi: tag as u64, mid: 17, lo: 3 }
}

#[test]
fn whole_contract_round_trips() {
    // two active entries (one with a co-located inactive stake), one
    // orphan inactive row, and populated parking sets
    let c = StakingContract {
        balance: 460,
        active_stake_sorted: vec![
            ActiveStake {
                staker_address: addr(8),
                balance: 300,
                validator_key: vec![2; 96],
                reward_address: Some(addr(9)),
            },
            ActiveStake {
                staker_address: addr(7),
                balance: 100,
                validator_key: vec![1; 96],
                reward_address: None,
            },
        ],
        inactive_stake_by_address: vec![
            (addr(5), InactiveStake { balance: 20, retire_time: 777 }),
            (addr(8), InactiveStake { balance: 40, retire_time: 1234 }),
        ],
        current_epoch_parking: vec![addr(7)],
        previous_epoch_parking: vec![addr(5), addr(8)],
    };
    let bytes = c.serialize();
    assert_eq!(bytes.len(), c.serialized_size());
    let back = StakingContract::deserialize(&bytes).unwrap();
    assert_eq!(back, c);
}

#[test]
fn empty_contract_round_trips() {
    let c = StakingContract::default();
    let bytes = c.serialize();
    // balance, four zero counts
    assert_eq!(bytes.len(), 8 + 4 + 4 + 4 + 4);
    let back = StakingContract::deserialize(&bytes).unwrap();
    assert_eq!(back, c);
}

#[test]
fn truncated_bytes_are_refused() {
    let mut c = StakingContract::default();
    c.stake(&addr(7), 100, vec![1; 96], None).unwrap();
    let bytes = c.serialize();
    let cut = bytes[..bytes.len() - 1].to_vec();
    assert!(StakingContract::deserialize(&cut).is_err());
}
