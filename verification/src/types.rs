//! Core value types of the staking contract: coins, addresses, validator
//! keys, stake entries, receipts, transactions and inherents.
//!
//! Addresses are 20-byte identifiers; they are held as three big-endian
//! limbs so that the total order used throughout the contract is plain
//! integer comparison.  Validator keys are opaque 96-byte strings.

use vstd::prelude::*;

verus! {

/// A coin amount: a non-negative integer quantity with overflow-checked
/// arithmetic.  Zero is a valid value.
pub type Coin = u64;

/// Number of validator slot assignments per epoch.
pub const SLOTS: usize = 512;

/// Number of blocks after the first post-retire macro block before a
/// withdrawal is allowed.
pub const UNSTAKING_DELAY: u32 = 100;

/// Distance between consecutive macro (epoch-boundary) blocks.
pub const EPOCH_LENGTH: u32 = 100;

/// Byte length of a compressed validator public key.
pub const VALIDATOR_KEY_SIZE: usize = 96;

/// Byte length of an address.
pub const ADDRESS_SIZE: usize = 20;

/// Height of the first macro block strictly after height `h`.
pub open spec fn spec_macro_block_after(h: u32) -> int {
    (h / EPOCH_LENGTH + 1) * EPOCH_LENGTH
}

/// Height of the first macro block strictly after height `h`, as a `u64`
/// so that the computation cannot overflow.
pub fn macro_block_after(h: u32) -> (r: u64)
    ensures
        r == spec_macro_block_after(h),
{
    (h as u64 / EPOCH_LENGTH as u64 + 1) * EPOCH_LENGTH as u64
}

/// Errors an operation on the contract can report.  Errors are always local
/// to the operation: a failed commit or revert leaves the contract unchanged.
#[derive(Clone, Copy, Debug, PartialEq, Eq, Structural)]
pub enum AccountError {
    /// The sender lacks the required entry or balance, or an outgoing
    /// precondition (such as the unstake delay) failed.
    InvalidForSender,
    /// A recipient-side invariant failed.
    InvalidForRecipient,
    /// The operation is not supported by this contract type.
    InvalidForTarget,
    /// A malformed inherent.
    InvalidInherent,
    /// A revert was handed a missing, spurious or inconsistent receipt.
    InvalidReceipt,
    /// Coin arithmetic overflowed or underflowed.
    InvalidCoinValue,
    /// A byte string did not decode as the expected value.
    InvalidSerialization,
}

/// Overflow-checked coin addition.
pub fn balance_add(a: Coin, b: Coin) -> (r: Result<Coin, AccountError>)
    ensures
        a + b <= u64::MAX ==> r == Ok::<Coin, AccountError>((a + b) as u64),
        a + b > u64::MAX ==> r == Err::<Coin, AccountError>(AccountError::InvalidCoinValue),
{
    match a.checked_add(b) {
        Some(c) => Ok(c),
        None => Err(AccountError::InvalidCoinValue),
    }
}

/// Overflow-checked coin subtraction.
pub fn balance_sub(a: Coin, b: Coin) -> (r: Result<Coin, AccountError>)
    ensures
        b <= a ==> r == Ok::<Coin, AccountError>((a - b) as u64),
        b > a ==> r == Err::<Coin, AccountError>(AccountError::InvalidCoinValue),
{
    match a.checked_sub(b) {
        Some(c) => Ok(c),
        None => Err(AccountError::InvalidCoinValue),
    }
}

/// A 20-byte address, kept as three big-endian limbs.  The canonical byte
/// encoding is `hi` (8 bytes), `mid` (8 bytes), `lo` (4 bytes), all
/// big-endian, and the total order below coincides with the lexicographic
/// order of those bytes.
#[derive(Clone, Copy, Debug, PartialEq, Eq, Structural, Hash)]
pub struct Address {
    pub hi: u64,
    pub mid: u64,
    pub lo: u32,
}

/// Strict total order on addresses.
pub open spec fn addr_lt(a: Address, b: Address) -> bool {
    a.hi < b.hi || (a.hi == b.hi && (a.mid < b.mid || (a.mid == b.mid && a.lo < b.lo)))
}

impl Address {
    /// Decides the strict order `addr_lt`.
    pub fn lt(&self, other: &Address) -> (r: bool)
        ensures
            r == addr_lt(*self, *other),
    {
        self.hi < other.hi
            || (self.hi == other.hi
                && (self.mid < other.mid || (self.mid == other.mid && self.lo < other.lo)))
    }
}

/// Stake considered for validator selection.
///
/// The order of the active table is descending by balance with ties broken
/// ascending by staker address; the key and reward fields take no part in it.
#[derive(Clone, Debug, PartialEq, Eq)]
pub struct ActiveStake {
    pub staker_address: Address,
    pub balance: Coin,
    pub validator_key: Vec<u8>,
    pub reward_address: Option<Address>,
}

/// Mathematical model of an `ActiveStake`.
#[verifier::ext_equal]
pub struct ActiveStakeV {
    pub staker_address: Address,
    pub balance: Coin,
    pub validator_key: Seq<u8>,
    pub reward_address: Option<Address>,
}

impl View for ActiveStake {
    type V = ActiveStakeV;

    open spec fn view(&self) -> ActiveStakeV {
        ActiveStakeV {
            staker_address: self.staker_address,
            balance: self.balance,
            validator_key: self.validator_key@,
            reward_address: self.reward_address,
        }
    }
}

impl ActiveStake {
    /// The same stake with a different balance.
    pub fn with_balance(&self, balance: Coin) -> (r: ActiveStake)
        ensures
            r@ == (ActiveStakeV { balance, ..self@ }),
    {
        ActiveStake {
            staker_address: self.staker_address,
            balance,
            validator_key: clone_bytes(&self.validator_key),
            reward_address: self.reward_address,
        }
    }
}

/// Copies a byte string.
pub fn clone_bytes(v: &Vec<u8>) -> (r: Vec<u8>)
    ensures
        r@ == v@,
{
    let mut out: Vec<u8> = Vec::new();
    let mut i: usize = 0;
    while i < v.len()
        invariant
            i <= v.len(),
            out@ == v@.take(i as int),
        decreases v.len() - i,
    {
        out.push(v[i]);
        i = i + 1;
        proof {
            assert(out@ =~= v@.take(i as int));
        }
    }
    proof {
        assert(v@.take(v@.len() as int) =~= v@);
    }
    out
}

/// Stake that has been retired and is counting down toward withdrawal.
#[derive(Clone, Copy, Debug, PartialEq, Eq, Structural)]
pub struct InactiveStake {
    pub balance: Coin,
    /// Block height at which funds last moved from active to inactive.
    pub retire_time: u32,
}

/// Receipt of a stake or retire-sender commit that replaced or removed an
/// active entry: carries the fields the revert must restore.
#[derive(Clone, Debug, PartialEq, Eq)]
pub struct ActiveStakeReceipt {
    pub validator_key: Vec<u8>,
    pub reward_address: Option<Address>,
}

/// Mathematical model of an `ActiveStakeReceipt`.
#[verifier::ext_equal]
pub struct ActiveStakeReceiptV {
    pub validator_key: Seq<u8>,
    pub reward_address: Option<Address>,
}

impl View for ActiveStakeReceipt {
    type V = ActiveStakeReceiptV;

    open spec fn view(&self) -> ActiveStakeReceiptV {
        ActiveStakeReceiptV {
            validator_key: self.validator_key@,
            reward_address: self.reward_address,
        }
    }
}

/// Receipt of a retire-recipient commit that merged into an existing
/// inactive entry: carries the prior retire time.
#[derive(Clone, Copy, Debug, PartialEq, Eq, Structural)]
pub struct InactiveStakeReceipt {
    pub retire_time: u32,
}

/// Receipt of an unpark-recipient commit: which parking sets held the staker.
#[derive(Clone, Copy, Debug, PartialEq, Eq, Structural)]
pub struct UnparkReceipt {
    pub current_epoch: bool,
    pub previous_epoch: bool,
}

/// Receipt of a slash commit: whether the address was newly parked.
#[derive(Clone, Copy, Debug, PartialEq, Eq, Structural)]
pub struct SlashReceipt {
    pub newly_slashed: bool,
}

/// Type tag of a self-transaction, carried as a single byte in `data`.
#[derive(Clone, Copy, Debug, PartialEq, Eq, Structural)]
pub enum StakingTransactionType {
    Retire,
    Unpark,
}

/// Payload of a stake transaction.
#[derive(Clone, Debug, PartialEq, Eq)]
pub struct StakingTransactionData {
    pub validator_key: Vec<u8>,
    pub reward_address: Option<Address>,
}

/// The fields of a transaction that the contract consumes.
///
/// `signer` is the address the signature proof recovers; verifying the proof
/// itself is outside the contract, the block executor hands the recovered
/// address in.  For self-transactions the signer, not the sender field, is
/// the staker.
#[derive(Clone, Debug, PartialEq, Eq)]
pub struct Transaction {
    pub sender: Address,
    pub recipient: Address,
    pub value: Coin,
    pub fee: Coin,
    pub data: Vec<u8>,
    pub signer: Address,
}

/// Mathematical view of a transaction.
#[verifier::ext_equal]
pub struct TransactionV {
    pub sender: Address,
    pub recipient: Address,
    pub value: Coin,
    pub fee: Coin,
    pub data: Seq<u8>,
    pub signer: Address,
}

impl View for Transaction {
    type V = TransactionV;

    open spec fn view(&self) -> TransactionV {
        TransactionV {
            sender: self.sender,
            recipient: self.recipient,
            value: self.value,
            fee: self.fee,
            data: self.data@,
            signer: self.signer,
        }
    }
}

impl Transaction {
    /// `value + fee`, overflow-checked.
    pub fn total_value(&self) -> (r: Result<Coin, AccountError>)
        ensures
            self.value + self.fee <= u64::MAX ==> r == Ok::<Coin, AccountError>(
                (self.value + self.fee) as u64,
            ),
            self.value + self.fee > u64::MAX ==> r == Err::<Coin, AccountError>(
                AccountError::InvalidCoinValue,
            ),
    {
        balance_add(self.value, self.fee)
    }
}

/// Kind of an inherent handed in by block production.
#[derive(Clone, Copy, Debug, PartialEq, Eq, Structural)]
pub enum InherentType {
    Slash,
    FinalizeEpoch,
    Reward,
}

/// A state transition emitted by block production rather than by a user
/// transaction.
#[derive(Clone, Debug, PartialEq, Eq)]
pub struct Inherent {
    pub ty: InherentType,
    pub value: Coin,
    pub data: Vec<u8>,
}

/// Mathematical view of an inherent.
#[verifier::ext_equal]
pub struct InherentV {
    pub ty: InherentType,
    pub value: Coin,
    pub data: Seq<u8>,
}

impl View for Inherent {
    type V = InherentV;

    open spec fn view(&self) -> InherentV {
        InherentV { ty: self.ty, value: self.value, data: self.data@ }
    }
}

/// One validator slot assignment.
#[derive(Clone, Debug, PartialEq, Eq)]
pub struct Slot {
    pub validator_key: Vec<u8>,
    pub staker_address: Address,
    pub reward_address: Option<Address>,
}

/// Mathematical model of a `Slot`.
#[verifier::ext_equal]
pub struct SlotV {
    pub validator_key: Seq<u8>,
    pub staker_address: Address,
    pub reward_address: Option<Address>,
}

impl View for Slot {
    type V = SlotV;

    open spec fn view(&self) -> SlotV {
        SlotV {
            validator_key: self.validator_key@,
            staker_address: self.staker_address,
            reward_address: self.reward_address,
        }
    }
}

} // verus!
