//! Canonical byte codec: big-endian, length-prefixed, byte-exact.
//!
//! Every encoder is specified by a spec-level byte function (`ser_*`) and
//! every decoder by a total spec-level parser; the round-trip lemmas prove
//! that decoding an encoding yields the value back.

use vstd::prelude::*;
use crate::types::{
    AccountError, ActiveStake, ActiveStakeReceipt, ActiveStakeReceiptV, ActiveStakeV, Address, InactiveStake,
    InactiveStakeReceipt, SlashReceipt, UnparkReceipt, ADDRESS_SIZE, VALIDATOR_KEY_SIZE, addr_lt,
};
use crate::seqs::{InactiveEntry, active_has, inact_find, inact_has, inact_insert};
use crate::contract::{StakingContract, StakingContractV, wf};

verus! {

// ---------------------------------------------------------------------------
// Integers, addresses, booleans.
// ---------------------------------------------------------------------------

/// Big-endian bytes of a `u32`.
pub open spec fn ser_u32(x: u32) -> Seq<u8> {
    seq![(x >> 24) as u8, (x >> 16) as u8, (x >> 8) as u8, x as u8]
}

/// The `u32` read from four big-endian bytes.
pub open spec fn u32_of_bytes(s: Seq<u8>) -> u32
    recommends
        s.len() == 4,
{
    ((s[0] as u32) << 24) | ((s[1] as u32) << 16) | ((s[2] as u32) << 8) | (s[3] as u32)
}

/// Big-endian bytes of a `u64`.
pub open spec fn ser_u64(x: u64) -> Seq<u8> {
    seq![
        (x >> 56) as u8,
        (x >> 48) as u8,
        (x >> 40) as u8,
        (x >> 32) as u8,
        (x >> 24) as u8,
        (x >> 16) as u8,
        (x >> 8) as u8,
        x as u8,
    ]
}

/// The `u64` read from eight big-endian bytes.
pub open spec fn u64_of_bytes(s: Seq<u8>) -> u64
    recommends
        s.len() == 8,
{
    ((s[0] as u64) << 56) | ((s[1] as u64) << 48) | ((s[2] as u64) << 40) | ((s[3] as u64) << 32)
        | ((s[4] as u64) << 24) | ((s[5] as u64) << 16) | ((s[6] as u64) << 8) | (s[7] as u64)
}

/// Reading back the big-endian bytes of a `u32` gives the value.
pub proof fn lemma_u32_roundtrip(x: u32)
    ensures
        u32_of_bytes(ser_u32(x)) == x,
{
    assert((((x >> 24) as u8 as u32) << 24) | (((x >> 16) as u8 as u32) << 16) | (((x
        >> 8) as u8 as u32) << 8) | (x as u8 as u32) == x) by (bit_vector);
}

/// Reading back the big-endian bytes of a `u64` gives the value.
pub proof fn lemma_u64_roundtrip(x: u64)
    ensures
        u64_of_bytes(ser_u64(x)) == x,
{
    assert((((x >> 56) as u8 as u64) << 56) | (((x >> 48) as u8 as u64) << 48) | (((x
        >> 40) as u8 as u64) << 40) | (((x >> 32) as u8 as u64) << 32) | (((x
        >> 24) as u8 as u64) << 24) | (((x >> 16) as u8 as u64) << 16) | (((x
        >> 8) as u8 as u64) << 8) | (x as u8 as u64) == x) by (bit_vector);
}

/// The 20 canonical bytes of an address.
pub open spec fn ser_addr(a: Address) -> Seq<u8> {
    ser_u64(a.hi) + ser_u64(a.mid) + ser_u32(a.lo)
}

/// The address read from 20 bytes.
pub open spec fn addr_of_bytes(s: Seq<u8>) -> Address
    recommends
        s.len() == ADDRESS_SIZE,
{
    Address {
        hi: u64_of_bytes(s.subrange(0, 8)),
        mid: u64_of_bytes(s.subrange(8, 16)),
        lo: u32_of_bytes(s.subrange(16, 20)),
    }
}

/// Reading back the canonical bytes of an address gives the address.
pub proof fn lemma_addr_roundtrip(a: Address)
    ensures
        ser_addr(a).len() == ADDRESS_SIZE,
        addr_of_bytes(ser_addr(a)) == a,
{
    let s = ser_addr(a);
    assert(s.subrange(0, 8) =~= ser_u64(a.hi));
    assert(s.subrange(8, 16) =~= ser_u64(a.mid));
    assert(s.subrange(16, 20) =~= ser_u32(a.lo));
    lemma_u64_roundtrip(a.hi);
    lemma_u64_roundtrip(a.mid);
    lemma_u32_roundtrip(a.lo);
}

/// One byte for a boolean.
pub open spec fn ser_bool(b: bool) -> Seq<u8> {
    seq![if b { 1u8 } else { 0u8 }]
}

/// Tagged encoding of an optional address.
pub open spec fn ser_opt_addr(o: Option<Address>) -> Seq<u8> {
    match o {
        None => seq![0u8],
        Some(a) => seq![1u8] + ser_addr(a),
    }
}

// ---------------------------------------------------------------------------
// Writers.
// ---------------------------------------------------------------------------

/// Appends the big-endian bytes of `x`.
pub fn write_u32(out: &mut Vec<u8>, x: u32)
    ensures
        final(out)@ == old(out)@ + ser_u32(x),
{
    out.push((x >> 24) as u8);
    out.push(#[verifier::truncate] ((x >> 16) as u8));
    out.push(#[verifier::truncate] ((x >> 8) as u8));
    out.push(#[verifier::truncate] (x as u8));
    proof {
        assert(out@ =~= old(out)@ + ser_u32(x));
    }
}

/// Appends the big-endian bytes of `x`.
pub fn write_u64(out: &mut Vec<u8>, x: u64)
    ensures
        final(out)@ == old(out)@ + ser_u64(x),
{
    out.push((x >> 56) as u8);
    out.push(#[verifier::truncate] ((x >> 48) as u8));
    out.push(#[verifier::truncate] ((x >> 40) as u8));
    out.push(#[verifier::truncate] ((x >> 32) as u8));
    out.push(#[verifier::truncate] ((x >> 24) as u8));
    out.push(#[verifier::truncate] ((x >> 16) as u8));
    out.push(#[verifier::truncate] ((x >> 8) as u8));
    out.push(#[verifier::truncate] (x as u8));
    proof {
        assert(out@ =~= old(out)@ + ser_u64(x));
    }
}

/// Appends the 20 canonical bytes of `a`.
pub fn write_addr(out: &mut Vec<u8>, a: &Address)
    ensures
        final(out)@ == old(out)@ + ser_addr(*a),
{
    write_u64(out, a.hi);
    write_u64(out, a.mid);
    write_u32(out, a.lo);
    proof {
        assert(out@ =~= old(out)@ + ser_addr(*a));
    }
}

/// Appends one byte for `b`.
pub fn write_bool(out: &mut Vec<u8>, b: bool)
    ensures
        final(out)@ == old(out)@ + ser_bool(b),
{
    if b {
        out.push(1u8);
    } else {
        out.push(0u8);
    }
    proof {
        assert(out@ =~= old(out)@ + ser_bool(b));
    }
}

/// Appends the tagged encoding of `o`.
pub fn write_opt_addr(out: &mut Vec<u8>, o: &Option<Address>)
    ensures
        final(out)@ == old(out)@ + ser_opt_addr(*o),
{
    match o {
        None => {
            out.push(0u8);
        },
        Some(a) => {
            out.push(1u8);
            write_addr(out, a);
        },
    }
    proof {
        assert(out@ =~= old(out)@ + ser_opt_addr(*o));
    }
}

/// Appends a whole byte string.
pub fn write_bytes(out: &mut Vec<u8>, bytes: &Vec<u8>)
    ensures
        final(out)@ == old(out)@ + bytes@,
{
    let mut i: usize = 0;
    while i < bytes.len()
        invariant
            i <= bytes@.len(),
            out@ == old(out)@ + bytes@.take(i as int),
        decreases bytes@.len() - i,
    {
        out.push(bytes[i]);
        i = i + 1;
        proof {
            assert(out@ =~= old(out)@ + bytes@.take(i as int));
        }
    }
    proof {
        assert(old(out)@ + bytes@.take(bytes@.len() as int) =~= old(out)@ + bytes@);
    }
}

// ---------------------------------------------------------------------------
// Readers.
// ---------------------------------------------------------------------------

/// Reads one byte.
pub fn read_u8(data: &Vec<u8>, pos: usize) -> (r: Option<(u8, usize)>)
    ensures
        match r {
            Some((b, p2)) => pos < data@.len() && b == data@[pos as int] && p2 == pos + 1,
            None => pos + 1 > data@.len(),
        },
{
    if pos < data.len() {
        Some((data[pos], pos + 1))
    } else {
        None
    }
}

/// Reads four big-endian bytes as a `u32`.
pub fn read_u32(data: &Vec<u8>, pos: usize) -> (r: Option<(u32, usize)>)
    ensures
        match r {
            Some((x, p2)) => pos + 4 <= data@.len() && p2 == pos + 4 && x == u32_of_bytes(
                data@.subrange(pos as int, pos as int + 4),
            ),
            None => pos + 4 > data@.len(),
        },
{
    if data.len() < 4 || pos > data.len() - 4 {
        return None;
    }
    let x = ((data[pos] as u32) << 24) | ((data[pos + 1] as u32) << 16) | ((data[pos + 2] as u32)
        << 8) | (data[pos + 3] as u32);
    proof {
        let s = data@.subrange(pos as int, pos as int + 4);
        assert(s[0] == data@[pos as int] && s[1] == data@[pos as int + 1] && s[2] == data@[
            pos as int + 2
        ] && s[3] == data@[pos as int + 3]);
    }
    Some((x, pos + 4))
}

/// Reads eight big-endian bytes as a `u64`.
pub fn read_u64(data: &Vec<u8>, pos: usize) -> (r: Option<(u64, usize)>)
    ensures
        match r {
            Some((x, p2)) => pos + 8 <= data@.len() && p2 == pos + 8 && x == u64_of_bytes(
                data@.subrange(pos as int, pos as int + 8),
            ),
            None => pos + 8 > data@.len(),
        },
{
    if data.len() < 8 || pos > data.len() - 8 {
        return None;
    }
    let x = ((data[pos] as u64) << 56) | ((data[pos + 1] as u64) << 48) | ((data[pos + 2] as u64)
        << 40) | ((data[pos + 3] as u64) << 32) | ((data[pos + 4] as u64) << 24) | ((data[pos
        + 5] as u64) << 16) | ((data[pos + 6] as u64) << 8) | (data[pos + 7] as u64);
    proof {
        let s = data@.subrange(pos as int, pos as int + 8);
        assert(s[0] == data@[pos as int] && s[1] == data@[pos as int + 1] && s[2] == data@[
            pos as int + 2
        ] && s[3] == data@[pos as int + 3] && s[4] == data@[pos as int + 4] && s[5] == data@[
            pos as int + 5
        ] && s[6] == data@[pos as int + 6] && s[7] == data@[pos as int + 7]);
    }
    Some((x, pos + 8))
}

/// Reads a 20-byte address.
pub fn read_addr(data: &Vec<u8>, pos: usize) -> (r: Option<(Address, usize)>)
    ensures
        match r {
            Some((a, p2)) => pos + ADDRESS_SIZE <= data@.len() && p2 == pos + ADDRESS_SIZE && a
                == addr_of_bytes(data@.subrange(pos as int, pos as int + ADDRESS_SIZE)),
            None => pos + ADDRESS_SIZE > data@.len(),
        },
{
    let (hi, p1) = match read_u64(data, pos) {
        Some(v) => v,
        None => {
            return None;
        },
    };
    let (mid, p2) = match read_u64(data, p1) {
        Some(v) => v,
        None => {
            return None;
        },
    };
    let (lo, p3) = match read_u32(data, p2) {
        Some(v) => v,
        None => {
            return None;
        },
    };
    let a = Address { hi, mid, lo };
    proof {
        let s = data@.subrange(pos as int, pos as int + ADDRESS_SIZE);
        assert(s.subrange(0, 8) =~= data@.subrange(pos as int, pos as int + 8));
        assert(s.subrange(8, 16) =~= data@.subrange(pos as int + 8, pos as int + 16));
        assert(s.subrange(16, 20) =~= data@.subrange(pos as int + 16, pos as int + 20));
    }
    Some((a, p3))
}

/// Copies `n` bytes out.
pub fn read_bytes(data: &Vec<u8>, pos: usize, n: usize) -> (r: Option<(Vec<u8>, usize)>)
    ensures
        match r {
            Some((b, p2)) => pos + n <= data@.len() && p2 == pos + n && b@ == data@.subrange(
                pos as int,
                pos as int + n,
            ),
            None => pos + n > data@.len(),
        },
{
    if n > data.len() || pos > data.len() - n {
        return None;
    }
    let mut out: Vec<u8> = Vec::new();
    let mut i: usize = 0;
    while i < n
        invariant
            i <= n,
            pos + n <= data@.len(),
            data@.len() <= usize::MAX,
            out@ == data@.subrange(pos as int, pos as int + i),
        decreases n - i,
    {
        out.push(data[pos + i]);
        i = i + 1;
        proof {
            assert(out@ =~= data@.subrange(pos as int, pos as int + i));
        }
    }
    Some((out, pos + n))
}

// ---------------------------------------------------------------------------
// Receipt encodings.
// ---------------------------------------------------------------------------

/// Bytes of an active-stake receipt: the key, then the tagged reward
/// address.
pub open spec fn ser_asr(rv: ActiveStakeReceiptV) -> Seq<u8> {
    rv.validator_key + ser_opt_addr(rv.reward_address)
}

/// Total parser of an active-stake receipt (a prefix parse: trailing bytes
/// are ignored, as the canonical codec reads fields in order).
pub open spec fn parse_asr(d: Seq<u8>) -> Option<ActiveStakeReceiptV> {
    if d.len() < VALIDATOR_KEY_SIZE + 1 {
        None
    } else if d[VALIDATOR_KEY_SIZE as int] == 0 {
        Some(
            ActiveStakeReceiptV {
                validator_key: d.subrange(0, VALIDATOR_KEY_SIZE as int),
                reward_address: None,
            },
        )
    } else if d[VALIDATOR_KEY_SIZE as int] == 1 && d.len() >= VALIDATOR_KEY_SIZE + 1
        + ADDRESS_SIZE {
        Some(
            ActiveStakeReceiptV {
                validator_key: d.subrange(0, VALIDATOR_KEY_SIZE as int),
                reward_address: Some(
                    addr_of_bytes(
                        d.subrange(
                            VALIDATOR_KEY_SIZE as int + 1,
                            VALIDATOR_KEY_SIZE as int + 1 + ADDRESS_SIZE,
                        ),
                    ),
                ),
            },
        )
    } else {
        None
    }
}

/// Parsing an encoded active-stake receipt gives the receipt back.
pub proof fn lemma_asr_roundtrip(rv: ActiveStakeReceiptV)
    requires
        rv.validator_key.len() == VALIDATOR_KEY_SIZE,
    ensures
        parse_asr(ser_asr(rv)) == Some(rv),
{
    let d = ser_asr(rv);
    assert(d.subrange(0, VALIDATOR_KEY_SIZE as int) =~= rv.validator_key);
    match rv.reward_address {
        None => {
            assert(d[VALIDATOR_KEY_SIZE as int] == 0);
        },
        Some(a) => {
            assert(d[VALIDATOR_KEY_SIZE as int] == 1);
            assert(d.subrange(
                VALIDATOR_KEY_SIZE as int + 1,
                VALIDATOR_KEY_SIZE as int + 1 + ADDRESS_SIZE,
            ) =~= ser_addr(a));
            lemma_addr_roundtrip(a);
        },
    }
}

impl ActiveStakeReceipt {
    /// Canonical bytes of the receipt.
    pub fn serialize_to_vec(&self) -> (r: Vec<u8>)
        ensures
            r@ == ser_asr(self@),
    {
        let mut out: Vec<u8> = Vec::new();
        write_bytes(&mut out, &self.validator_key);
        write_opt_addr(&mut out, &self.reward_address);
        proof {
            assert(out@ =~= ser_asr(self@));
        }
        out
    }

    /// Decodes a receipt from its canonical bytes.
    pub fn deserialize(bytes: &Vec<u8>) -> (r: Result<ActiveStakeReceipt, AccountError>)
        ensures
            match parse_asr(bytes@) {
                Some(rv) => r is Ok && r->Ok_0@ == rv,
                None => r == Err::<ActiveStakeReceipt, AccountError>(
                    AccountError::InvalidSerialization,
                ),
            },
    {
        let (key, p1) = match read_bytes(bytes, 0, VALIDATOR_KEY_SIZE) {
            Some(v) => v,
            None => {
                return Err(AccountError::InvalidSerialization);
            },
        };
        let (tag, p2) = match read_u8(bytes, p1) {
            Some(v) => v,
            None => {
                return Err(AccountError::InvalidSerialization);
            },
        };
        if tag == 0 {
            Ok(ActiveStakeReceipt { validator_key: key, reward_address: None })
        } else if tag == 1 {
            let (a, _p3) = match read_addr(bytes, p2) {
                Some(v) => v,
                None => {
                    return Err(AccountError::InvalidSerialization);
                },
            };
            Ok(ActiveStakeReceipt { validator_key: key, reward_address: Some(a) })
        } else {
            Err(AccountError::InvalidSerialization)
        }
    }
}

/// Bytes of an inactive-stake receipt: the old retire time.
pub open spec fn ser_isr(rc: InactiveStakeReceipt) -> Seq<u8> {
    ser_u32(rc.retire_time)
}

/// Total parser of an inactive-stake receipt.
pub open spec fn parse_isr(d: Seq<u8>) -> Option<InactiveStakeReceipt> {
    if d.len() < 4 {
        None
    } else {
        Some(InactiveStakeReceipt { retire_time: u32_of_bytes(d.subrange(0, 4)) })
    }
}

/// Parsing an encoded inactive-stake receipt gives the receipt back.
pub proof fn lemma_isr_roundtrip(rc: InactiveStakeReceipt)
    ensures
        parse_isr(ser_isr(rc)) == Some(rc),
{
    assert(ser_isr(rc).subrange(0, 4) =~= ser_u32(rc.retire_time));
    lemma_u32_roundtrip(rc.retire_time);
}

impl InactiveStakeReceipt {
    /// Canonical bytes of the receipt.
    pub fn serialize_to_vec(&self) -> (r: Vec<u8>)
        ensures
            r@ == ser_isr(*self),
    {
        let mut out: Vec<u8> = Vec::new();
        write_u32(&mut out, self.retire_time);
        proof {
            assert(out@ =~= ser_isr(*self));
        }
        out
    }

    /// Decodes a receipt from its canonical bytes.
    pub fn deserialize(bytes: &Vec<u8>) -> (r: Result<InactiveStakeReceipt, AccountError>)
        ensures
            match parse_isr(bytes@) {
                Some(rc) => r == Ok::<InactiveStakeReceipt, AccountError>(rc),
                None => r == Err::<InactiveStakeReceipt, AccountError>(
                    AccountError::InvalidSerialization,
                ),
            },
    {
        match read_u32(bytes, 0) {
            Some((t, _)) => Ok(InactiveStakeReceipt { retire_time: t }),
            None => Err(AccountError::InvalidSerialization),
        }
    }
}

/// Bytes of an unpark receipt: two boolean bytes.
pub open spec fn ser_upr(rc: UnparkReceipt) -> Seq<u8> {
    ser_bool(rc.current_epoch) + ser_bool(rc.previous_epoch)
}

/// Total parser of an unpark receipt; bytes other than 0 and 1 are
/// rejected.
pub open spec fn parse_upr(d: Seq<u8>) -> Option<UnparkReceipt> {
    if d.len() < 2 {
        None
    } else if (d[0] == 0 || d[0] == 1) && (d[1] == 0 || d[1] == 1) {
        Some(UnparkReceipt { current_epoch: d[0] == 1, previous_epoch: d[1] == 1 })
    } else {
        None
    }
}

/// Parsing an encoded unpark receipt gives the receipt back.
pub proof fn lemma_upr_roundtrip(rc: UnparkReceipt)
    ensures
        parse_upr(ser_upr(rc)) == Some(rc),
{
}

impl UnparkReceipt {
    /// Canonical bytes of the receipt.
    pub fn serialize_to_vec(&self) -> (r: Vec<u8>)
        ensures
            r@ == ser_upr(*self),
    {
        let mut out: Vec<u8> = Vec::new();
        write_bool(&mut out, self.current_epoch);
        write_bool(&mut out, self.previous_epoch);
        proof {
            assert(out@ =~= ser_upr(*self));
        }
        out
    }

    /// Decodes a receipt from its canonical bytes.
    pub fn deserialize(bytes: &Vec<u8>) -> (r: Result<UnparkReceipt, AccountError>)
        ensures
            match parse_upr(bytes@) {
                Some(rc) => r == Ok::<UnparkReceipt, AccountError>(rc),
                None => r == Err::<UnparkReceipt, AccountError>(
                    AccountError::InvalidSerialization,
                ),
            },
    {
        if bytes.len() < 2 {
            return Err(AccountError::InvalidSerialization);
        }
        let b0 = bytes[0];
        let b1 = bytes[1];
        if (b0 == 0 || b0 == 1) && (b1 == 0 || b1 == 1) {
            Ok(UnparkReceipt { current_epoch: b0 == 1, previous_epoch: b1 == 1 })
        } else {
            Err(AccountError::InvalidSerialization)
        }
    }
}

/// Bytes of a slash receipt: one boolean byte.
pub open spec fn ser_slash(rc: SlashReceipt) -> Seq<u8> {
    ser_bool(rc.newly_slashed)
}

/// Total parser of a slash receipt.
pub open spec fn parse_slash(d: Seq<u8>) -> Option<SlashReceipt> {
    if d.len() < 1 {
        None
    } else if d[0] == 0 || d[0] == 1 {
        Some(SlashReceipt { newly_slashed: d[0] == 1 })
    } else {
        None
    }
}

/// Parsing an encoded slash receipt gives the receipt back.
pub proof fn lemma_slash_roundtrip(rc: SlashReceipt)
    ensures
        parse_slash(ser_slash(rc)) == Some(rc),
{
}

impl SlashReceipt {
    /// Canonical bytes of the receipt.
    pub fn serialize_to_vec(&self) -> (r: Vec<u8>)
        ensures
            r@ == ser_slash(*self),
    {
        let mut out: Vec<u8> = Vec::new();
        write_bool(&mut out, self.newly_slashed);
        proof {
            assert(out@ =~= ser_slash(*self));
        }
        out
    }

    /// Decodes a receipt from its canonical bytes.
    pub fn deserialize(bytes: &Vec<u8>) -> (r: Result<SlashReceipt, AccountError>)
        ensures
            match parse_slash(bytes@) {
                Some(rc) => r == Ok::<SlashReceipt, AccountError>(rc),
                None => r == Err::<SlashReceipt, AccountError>(
                    AccountError::InvalidSerialization,
                ),
            },
    {
        if bytes.len() < 1 {
            return Err(AccountError::InvalidSerialization);
        }
        let b0 = bytes[0];
        if b0 == 0 || b0 == 1 {
            Ok(SlashReceipt { newly_slashed: b0 == 1 })
        } else {
            Err(AccountError::InvalidSerialization)
        }
    }
}

// ---------------------------------------------------------------------------
// Stake transaction payload.
// ---------------------------------------------------------------------------

/// Total parser of a stake payload: the validator key, then the tagged
/// reward address (a prefix parse, as the canonical codec reads fields in
/// order).
pub open spec fn parse_staking_data(d: Seq<u8>) -> Option<(Seq<u8>, Option<Address>)> {
    if d.len() < VALIDATOR_KEY_SIZE + 1 {
        None
    } else if d[VALIDATOR_KEY_SIZE as int] == 0 {
        Some((d.subrange(0, VALIDATOR_KEY_SIZE as int), None))
    } else if d[VALIDATOR_KEY_SIZE as int] == 1 && d.len() >= VALIDATOR_KEY_SIZE + 1
        + ADDRESS_SIZE {
        Some(
            (
                d.subrange(0, VALIDATOR_KEY_SIZE as int),
                Some(
                    addr_of_bytes(
                        d.subrange(
                            VALIDATOR_KEY_SIZE as int + 1,
                            VALIDATOR_KEY_SIZE as int + 1 + ADDRESS_SIZE,
                        ),
                    ),
                ),
            ),
        )
    } else {
        None
    }
}

/// Decodes a stake payload: validator key and optional reward address.
pub fn read_staking_data(data: &Vec<u8>) -> (r: Result<(Vec<u8>, Option<Address>), AccountError>)
    ensures
        match parse_staking_data(data@) {
            Some((key, reward)) => r is Ok && r->Ok_0.0@ == key && r->Ok_0.1 == reward,
            None => r == Err::<(Vec<u8>, Option<Address>), AccountError>(
                AccountError::InvalidSerialization,
            ),
        },
{
    let (key, p1) = match read_bytes(data, 0, VALIDATOR_KEY_SIZE) {
        Some(v) => v,
        None => {
            return Err(AccountError::InvalidSerialization);
        },
    };
    let (tag, p2) = match read_u8(data, p1) {
        Some(v) => v,
        None => {
            return Err(AccountError::InvalidSerialization);
        },
    };
    if tag == 0 {
        Ok((key, None))
    } else if tag == 1 {
        let (a, _p3) = match read_addr(data, p2) {
            Some(v) => v,
            None => {
                return Err(AccountError::InvalidSerialization);
            },
        };
        Ok((key, Some(a)))
    } else {
        Err(AccountError::InvalidSerialization)
    }
}

// ---------------------------------------------------------------------------
// Whole-contract encoding.
// ---------------------------------------------------------------------------

/// Bytes of one active stake: address, balance, key, tagged reward address.
pub open spec fn ser_active_stake(e: ActiveStakeV) -> Seq<u8> {
    ser_addr(e.staker_address) + ser_u64(e.balance) + e.validator_key + ser_opt_addr(
        e.reward_address,
    )
}

/// Bytes of one inactive stake: balance, retire time.
pub open spec fn ser_inactive_stake(st: InactiveStake) -> Seq<u8> {
    ser_u64(st.balance) + ser_u32(st.retire_time)
}

/// Tagged encoding of an optional inactive stake.
pub open spec fn ser_opt_inactive(o: Option<InactiveStake>) -> Seq<u8> {
    match o {
        None => seq![0u8],
        Some(st) => seq![1u8] + ser_inactive_stake(st),
    }
}

/// Bytes of the active table in its sorted order, each entry followed by
/// the matching inactive stake of the same address, if any.
pub open spec fn ser_actives(act: Seq<ActiveStakeV>, inact: Seq<InactiveEntry>) -> Seq<u8>
    decreases act.len(),
{
    if act.len() == 0 {
        Seq::<u8>::empty()
    } else {
        ser_active_stake(act[0]) + ser_opt_inactive(inact_find(inact, act[0].staker_address))
            + ser_actives(act.drop_first(), inact)
    }
}

/// The inactive rows with no active counterpart, in table (address) order.
pub open spec fn orphans(inact: Seq<InactiveEntry>, act: Seq<ActiveStakeV>) -> Seq<InactiveEntry>
    decreases inact.len(),
{
    if inact.len() == 0 {
        inact
    } else if active_has(act, inact[0].0) {
        orphans(inact.drop_first(), act)
    } else {
        seq![inact[0]] + orphans(inact.drop_first(), act)
    }
}

/// Bytes of one orphan row: address, balance, retire time.
pub open spec fn ser_orphan(e: InactiveEntry) -> Seq<u8> {
    ser_addr(e.0) + ser_u64(e.1.balance) + ser_u32(e.1.retire_time)
}

/// Bytes of a list of orphan rows.
pub open spec fn ser_orphan_list(s: Seq<InactiveEntry>) -> Seq<u8>
    decreases s.len(),
{
    if s.len() == 0 {
        Seq::<u8>::empty()
    } else {
        ser_orphan(s[0]) + ser_orphan_list(s.drop_first())
    }
}

/// Bytes of an address list.
pub open spec fn ser_addr_list(s: Seq<Address>) -> Seq<u8>
    decreases s.len(),
{
    if s.len() == 0 {
        Seq::<u8>::empty()
    } else {
        ser_addr(s[0]) + ser_addr_list(s.drop_first())
    }
}

/// Canonical bytes of the whole contract: balance; the active table with
/// co-located inactive stakes; the orphan inactive rows; the two parking
/// sets; every list prefixed by its `u32` length.
pub open spec fn spec_ser_contract(v: StakingContractV) -> Seq<u8> {
    ser_u64(v.balance) + ser_u32(v.active.len() as u32) + ser_actives(v.active, v.inactive)
        + ser_u32(orphans(v.inactive, v.active).len() as u32) + ser_orphan_list(
        orphans(v.inactive, v.active),
    ) + ser_u32(v.current_parking.len() as u32) + ser_addr_list(v.current_parking) + ser_u32(
        v.previous_parking.len() as u32,
    ) + ser_addr_list(v.previous_parking)
}

/// Serializing one more active entry appends its bytes.
pub proof fn lemma_ser_actives_snoc(
    act: Seq<ActiveStakeV>,
    x: ActiveStakeV,
    inact: Seq<InactiveEntry>,
)
    ensures
        ser_actives(act + seq![x], inact) == ser_actives(act, inact) + ser_active_stake(x)
            + ser_opt_inactive(inact_find(inact, x.staker_address)),
    decreases act.len(),
{
    let w = act + seq![x];
    if act.len() == 0 {
        assert(w[0] == x);
        assert(w.drop_first() =~= Seq::<ActiveStakeV>::empty());
        assert(ser_actives(w.drop_first(), inact) == Seq::<u8>::empty());
        assert(ser_actives(w, inact) =~= ser_actives(act, inact) + ser_active_stake(x)
            + ser_opt_inactive(inact_find(inact, x.staker_address)));
    } else {
        lemma_ser_actives_snoc(act.drop_first(), x, inact);
        assert(w[0] == act[0]);
        assert(w.drop_first() =~= act.drop_first() + seq![x]);
        assert(ser_actives(w, inact) =~= ser_actives(act, inact) + ser_active_stake(x)
            + ser_opt_inactive(inact_find(inact, x.staker_address)));
    }
}

/// One more inactive row extends the orphan list exactly when it has no
/// active counterpart.
pub proof fn lemma_orphans_snoc(s: Seq<InactiveEntry>, x: InactiveEntry, act: Seq<ActiveStakeV>)
    ensures
        orphans(s + seq![x], act) == if active_has(act, x.0) {
            orphans(s, act)
        } else {
            orphans(s, act) + seq![x]
        },
    decreases s.len(),
{
    let w = s + seq![x];
    if s.len() == 0 {
        assert(w[0] == x);
        assert(w.drop_first() =~= Seq::<InactiveEntry>::empty());
        assert(orphans(w.drop_first(), act) =~= Seq::<InactiveEntry>::empty());
        if active_has(act, x.0) {
            assert(orphans(w, act) =~= orphans(s, act));
        } else {
            assert(orphans(w, act) =~= orphans(s, act) + seq![x]);
        }
    } else {
        lemma_orphans_snoc(s.drop_first(), x, act);
        assert(w[0] == s[0]);
        assert(w.drop_first() =~= s.drop_first() + seq![x]);
        if active_has(act, x.0) {
            assert(orphans(w, act) =~= orphans(s, act));
        } else {
            assert(orphans(w, act) =~= orphans(s, act) + seq![x]);
        }
    }
}

/// Serializing one more orphan row appends its bytes.
pub proof fn lemma_ser_orphan_list_snoc(s: Seq<InactiveEntry>, x: InactiveEntry)
    ensures
        ser_orphan_list(s + seq![x]) == ser_orphan_list(s) + ser_orphan(x),
    decreases s.len(),
{
    let w = s + seq![x];
    if s.len() == 0 {
        assert(w[0] == x);
        assert(w.drop_first() =~= Seq::<InactiveEntry>::empty());
        assert(ser_orphan_list(w.drop_first()) == Seq::<u8>::empty());
        assert(ser_orphan_list(w) =~= ser_orphan_list(s) + ser_orphan(x));
    } else {
        lemma_ser_orphan_list_snoc(s.drop_first(), x);
        assert(w[0] == s[0]);
        assert(w.drop_first() =~= s.drop_first() + seq![x]);
        assert(ser_orphan_list(w) =~= ser_orphan_list(s) + ser_orphan(x));
    }
}

/// Serializing one more address appends its bytes.
pub proof fn lemma_ser_addr_list_snoc(s: Seq<Address>, a: Address)
    ensures
        ser_addr_list(s + seq![a]) == ser_addr_list(s) + ser_addr(a),
    decreases s.len(),
{
    let w = s + seq![a];
    if s.len() == 0 {
        assert(w[0] == a);
        assert(w.drop_first() =~= Seq::<Address>::empty());
        assert(ser_addr_list(w.drop_first()) == Seq::<u8>::empty());
        assert(ser_addr_list(w) =~= ser_addr_list(s) + ser_addr(a));
    } else {
        lemma_ser_addr_list_snoc(s.drop_first(), a);
        assert(w[0] == s[0]);
        assert(w.drop_first() =~= s.drop_first() + seq![a]);
        assert(ser_addr_list(w) =~= ser_addr_list(s) + ser_addr(a));
    }
}

// ---------------------------------------------------------------------------
// The specification parser for the whole contract.
// ---------------------------------------------------------------------------

/// Reads the optional inactive stake that follows an active entry.
pub open spec fn p_entry_tail(data: Seq<u8>, q: int, e: ActiveStakeV) -> Option<
    (ActiveStakeV, Option<InactiveStake>, int),
> {
    if q + 1 > data.len() {
        None
    } else {
        let t = data[q];
        if t == 0 {
            Some((e, None, q + 1))
        } else if t == 1 && q + 13 <= data.len() {
            Some(
                (
                    e,
                    Some(
                        InactiveStake {
                            balance: u64_of_bytes(data.subrange(q + 1, q + 9)),
                            retire_time: u32_of_bytes(data.subrange(q + 9, q + 13)),
                        },
                    ),
                    q + 13,
                ),
            )
        } else {
            None
        }
    }
}

/// Reads one active entry with its co-located optional inactive stake.
pub open spec fn p_active_entry(data: Seq<u8>, pos: int) -> Option<
    (ActiveStakeV, Option<InactiveStake>, int),
> {
    if pos < 0 || pos + 125 > data.len() {
        None
    } else {
        let addr = addr_of_bytes(data.subrange(pos, pos + 20));
        let bal = u64_of_bytes(data.subrange(pos + 20, pos + 28));
        let key = data.subrange(pos + 28, pos + 124);
        let tag = data[pos + 124];
        if tag == 0 {
            p_entry_tail(
                data,
                pos + 125,
                ActiveStakeV {
                    staker_address: addr,
                    balance: bal,
                    validator_key: key,
                    reward_address: None,
                },
            )
        } else if tag == 1 && pos + 145 <= data.len() {
            p_entry_tail(
                data,
                pos + 145,
                ActiveStakeV {
                    staker_address: addr,
                    balance: bal,
                    validator_key: key,
                    reward_address: Some(addr_of_bytes(data.subrange(pos + 125, pos + 145))),
                },
            )
        } else {
            None
        }
    }
}

/// Reads `n` active entries, collecting the active table in order and
/// sorting the co-located inactive stakes into the inactive table.
pub open spec fn p_actives(
    data: Seq<u8>,
    pos: int,
    n: nat,
    act: Seq<ActiveStakeV>,
    inact: Seq<InactiveEntry>,
) -> Option<(Seq<ActiveStakeV>, Seq<InactiveEntry>, int)>
    decreases n,
{
    if n == 0 {
        Some((act, inact, pos))
    } else {
        match p_active_entry(data, pos) {
            None => None,
            Some((e, oi, q)) => p_actives(
                data,
                q,
                (n - 1) as nat,
                act.push(e),
                match oi {
                    None => inact,
                    Some(st) => inact_insert(inact, (e.staker_address, st)),
                },
            ),
        }
    }
}

/// Reads one orphan inactive row.
pub open spec fn p_orphan_row(data: Seq<u8>, pos: int) -> Option<(InactiveEntry, int)> {
    if pos < 0 || pos + 32 > data.len() {
        None
    } else {
        Some(
            (
                (
                    addr_of_bytes(data.subrange(pos, pos + 20)),
                    InactiveStake {
                        balance: u64_of_bytes(data.subrange(pos + 20, pos + 28)),
                        retire_time: u32_of_bytes(data.subrange(pos + 28, pos + 32)),
                    },
                ),
                pos + 32,
            ),
        )
    }
}

/// Reads `n` orphan rows, sorting each into the inactive table.
pub open spec fn p_orphan_rows(
    data: Seq<u8>,
    pos: int,
    n: nat,
    inact: Seq<InactiveEntry>,
) -> Option<(Seq<InactiveEntry>, int)>
    decreases n,
{
    if n == 0 {
        Some((inact, pos))
    } else {
        match p_orphan_row(data, pos) {
            None => None,
            Some((e, q)) => p_orphan_rows(data, q, (n - 1) as nat, inact_insert(inact, e)),
        }
    }
}

/// Reads `n` addresses.
pub open spec fn p_addr_list(data: Seq<u8>, pos: int, n: nat, acc: Seq<Address>) -> Option<
    (Seq<Address>, int),
>
    decreases n,
{
    if n == 0 {
        Some((acc, pos))
    } else if pos < 0 || pos + 20 > data.len() {
        None
    } else {
        p_addr_list(
            data,
            pos + 20,
            (n - 1) as nat,
            acc.push(addr_of_bytes(data.subrange(pos, pos + 20))),
        )
    }
}

/// Reads a `u32`-length-prefixed address list.
pub open spec fn p_addr_block(data: Seq<u8>, start: int) -> Option<(Seq<Address>, int)> {
    if start < 0 || start + 4 > data.len() {
        None
    } else {
        p_addr_list(
            data,
            start + 4,
            u32_of_bytes(data.subrange(start, start + 4)) as nat,
            Seq::<Address>::empty(),
        )
    }
}

/// The total parser of the whole contract encoding.
pub open spec fn spec_parse_contract(data: Seq<u8>) -> Option<StakingContractV> {
    if data.len() < 12 {
        None
    } else {
        let bal = u64_of_bytes(data.subrange(0, 8));
        let n_act = u32_of_bytes(data.subrange(8, 12));
        match p_actives(
            data,
            12,
            n_act as nat,
            Seq::<ActiveStakeV>::empty(),
            Seq::<InactiveEntry>::empty(),
        ) {
            None => None,
            Some((act, inact1, p1)) => if p1 + 4 > data.len() {
                None
            } else {
                let n_orph = u32_of_bytes(data.subrange(p1, p1 + 4));
                match p_orphan_rows(data, p1 + 4, n_orph as nat, inact1) {
                    None => None,
                    Some((inact2, p2)) => match p_addr_block(data, p2) {
                        None => None,
                        Some((cur, p3)) => match p_addr_block(data, p3) {
                            None => None,
                            Some((prev, _p4)) => Some(
                                StakingContractV {
                                    balance: bal,
                                    active: act,
                                    inactive: inact2,
                                    current_parking: cur,
                                    previous_parking: prev,
                                },
                            ),
                        },
                    },
                }
            },
        }
    }
}

/// Decodes one active entry with its co-located optional inactive stake.
fn read_active_entry(bytes: &Vec<u8>, pos: usize) -> (r: Option<
    (ActiveStake, Option<InactiveStake>, usize),
>)
    ensures
        match r {
            Some((e, oi, q)) => q <= bytes@.len() && p_active_entry(bytes@, pos as int) == Some(
                (e@, oi, q as int),
            ),
            None => p_active_entry(bytes@, pos as int) is None,
        },
{
    let (addr, q0) = match read_addr(bytes, pos) {
        Some(v) => v,
        None => {
            return None;
        },
    };
    let (bal, q1) = match read_u64(bytes, q0) {
        Some(v) => v,
        None => {
            return None;
        },
    };
    let (key, q2) = match read_bytes(bytes, q1, VALIDATOR_KEY_SIZE) {
        Some(v) => v,
        None => {
            return None;
        },
    };
    let (tag, q3) = match read_u8(bytes, q2) {
        Some(v) => v,
        None => {
            return None;
        },
    };
    let (reward, q4) = if tag == 0 {
        (None, q3)
    } else if tag == 1 {
        match read_addr(bytes, q3) {
            Some((a, q)) => (Some(a), q),
            None => {
                return None;
            },
        }
    } else {
        return None;
    };
    let entry = ActiveStake {
        staker_address: addr,
        balance: bal,
        validator_key: key,
        reward_address: reward,
    };
    let (tag2, q5) = match read_u8(bytes, q4) {
        Some(v) => v,
        None => {
            return None;
        },
    };
    if tag2 == 0 {
        proof {
            assert(p_active_entry(bytes@, pos as int) == Some((entry@, None::<InactiveStake>,
                q5 as int)));
        }
        Some((entry, None, q5))
    } else if tag2 == 1 {
        let (ibal, w1) = match read_u64(bytes, q5) {
            Some(v) => v,
            None => {
                return None;
            },
        };
        let (irt, w2) = match read_u32(bytes, w1) {
            Some(v) => v,
            None => {
                return None;
            },
        };
        let st = InactiveStake { balance: ibal, retire_time: irt };
        proof {
            assert(p_active_entry(bytes@, pos as int) == Some((entry@, Some(st), w2 as int)));
        }
        Some((entry, Some(st), w2))
    } else {
        None
    }
}

/// Decodes one orphan inactive row.
fn read_orphan_row(bytes: &Vec<u8>, pos: usize) -> (r: Option<((Address, InactiveStake), usize)>)
    ensures
        match r {
            Some((e, q)) => q <= bytes@.len() && p_orphan_row(bytes@, pos as int) == Some(
                (e, q as int),
            ),
            None => p_orphan_row(bytes@, pos as int) is None,
        },
{
    let (addr, q0) = match read_addr(bytes, pos) {
        Some(v) => v,
        None => {
            return None;
        },
    };
    let (bal, q1) = match read_u64(bytes, q0) {
        Some(v) => v,
        None => {
            return None;
        },
    };
    let (rt, q2) = match read_u32(bytes, q1) {
        Some(v) => v,
        None => {
            return None;
        },
    };
    Some(((addr, InactiveStake { balance: bal, retire_time: rt }), q2))
}

/// Two sorted inactive tables that agree on every lookup are equal.
pub proof fn lemma_inact_find_ext(s1: Seq<InactiveEntry>, s2: Seq<InactiveEntry>)
    requires
        crate::seqs::inact_sorted(s1),
        crate::seqs::inact_sorted(s2),
        forall|a: Address| #[trigger] inact_find(s1, a) == inact_find(s2, a),
    ensures
        s1 == s2,
    decreases s1.len() + s2.len(),
{
    if s1.len() == 0 {
        if s2.len() > 0 {
            assert(inact_find(s2, s2[0].0) == Some(s2[0].1));
            assert(inact_find(s1, s2[0].0) is None);
        }
        assert(s1 =~= s2);
    } else if s2.len() == 0 {
        assert(inact_find(s1, s1[0].0) == Some(s1[0].1));
        assert(inact_find(s2, s1[0].0) is None);
    } else {
        let a1 = s1[0].0;
        let a2 = s2[0].0;
        if a1 != a2 {
            // each head is the least address of the same lookup domain
            assert(inact_find(s2, a1) == Some(s1[0].1));
            crate::seqs::lemma_inact_find_contains(s2, a1);
            let m1 = choose|m: int| 0 <= m < s2.len() && s2[m] == (a1, s1[0].1);
            assert(m1 > 0);
            assert(addr_lt(a2, a1));
            assert(inact_find(s1, a2) == Some(s2[0].1));
            crate::seqs::lemma_inact_find_contains(s1, a2);
            let m2 = choose|m: int| 0 <= m < s1.len() && s1[m] == (a2, s2[0].1);
            assert(m2 > 0);
            assert(addr_lt(a1, a2));
            assert(false);
        }
        assert(s1[0].1 == s2[0].1) by {
            assert(inact_find(s1, a1) == Some(s1[0].1));
            assert(inact_find(s2, a1) == Some(s2[0].1));
        }
        let d1 = s1.drop_first();
        let d2 = s2.drop_first();
        assert forall|a: Address| #[trigger] inact_find(d1, a) == inact_find(d2, a) by {
            if a == a1 {
                if inact_find(d1, a) is Some {
                    crate::seqs::lemma_inact_find_contains(d1, a);
                    let m = choose|m: int| 0 <= m < d1.len() && d1[m].0 == a;
                    assert(addr_lt(s1[0].0, s1[m + 1].0));
                    assert(false);
                }
                if inact_find(d2, a) is Some {
                    crate::seqs::lemma_inact_find_contains(d2, a);
                    let m = choose|m: int| 0 <= m < d2.len() && d2[m].0 == a;
                    assert(addr_lt(s2[0].0, s2[m + 1].0));
                    assert(false);
                }
            } else {
                assert(inact_find(s1, a) == inact_find(d1, a));
                assert(inact_find(s2, a) == inact_find(d2, a));
            }
        }
        lemma_inact_find_ext(d1, d2);
        assert(s1[0] == s2[0]);
        assert(s1.len() == s2.len());
        assert forall|i: int| 0 <= i < s1.len() implies s1[i] == s2[i] by {
            if i > 0 {
                assert(s1[i] == d1[i - 1]);
                assert(s2[i] == d2[i - 1]);
            }
        }
        assert(s1 =~= s2);
    }
}

/// The orphan list is sorted, and it looks up exactly the rows of the
/// table whose address has no active counterpart.
pub proof fn lemma_orphans_props(inact: Seq<InactiveEntry>, act: Seq<ActiveStakeV>)
    requires
        crate::seqs::inact_sorted(inact),
    ensures
        crate::seqs::inact_sorted(orphans(inact, act)),
        orphans(inact, act).len() <= inact.len(),
        forall|a: Address| #[trigger]
            inact_find(orphans(inact, act), a) == if active_has(act, a) {
                None::<InactiveStake>
            } else {
                inact_find(inact, a)
            },
        forall|i: int|
            0 <= i < orphans(inact, act).len() ==> inact.contains(
                #[trigger] orphans(inact, act)[i],
            ),
    decreases inact.len(),
{
    let r = orphans(inact, act);
    if inact.len() == 0 {
        assert(forall|a: Address| #[trigger] inact_find(r, a) is None);
        assert(forall|a: Address| #[trigger] inact_find(inact, a) is None);
    } else {
        let d = inact.drop_first();
        lemma_orphans_props(d, act);
        let r1 = orphans(d, act);
        if active_has(act, inact[0].0) {
            assert(r == r1);
            assert forall|a: Address| #[trigger]
                inact_find(r, a) == (if active_has(act, a) {
                    None::<InactiveStake>
                } else {
                    inact_find(inact, a)
                }) by {
                if a == inact[0].0 {
                } else {
                    assert(inact_find(inact, a) == inact_find(d, a));
                }
            }
            assert forall|i: int| 0 <= i < r.len() implies inact.contains(r[i]) by {
                let m = choose|m: int| 0 <= m < d.len() && d[m] == r1[i];
                assert(inact[m + 1] == r[i]);
            }
        } else {
            assert(r == seq![inact[0]] + r1);
            assert(r[0] == inact[0]);
            assert(r.drop_first() =~= r1);
            assert forall|i: int, j: int| 0 <= i < j < r.len() implies addr_lt(r[i].0, r[j].0) by {
                if i == 0 {
                    let x = r1[j - 1];
                    assert(d.contains(x));
                    let m = choose|m: int| 0 <= m < d.len() && d[m] == x;
                    assert(inact[m + 1] == x);
                } else {
                    assert(addr_lt(r1[i - 1].0, r1[j - 1].0));
                }
            }
            assert forall|a: Address| #[trigger]
                inact_find(r, a) == (if active_has(act, a) {
                    None::<InactiveStake>
                } else {
                    inact_find(inact, a)
                }) by {
                if a == inact[0].0 {
                    assert(inact_find(r, a) == Some(inact[0].1));
                } else {
                    assert(inact_find(r, a) == inact_find(r1, a));
                    assert(inact_find(inact, a) == inact_find(d, a));
                }
            }
            assert forall|i: int| 0 <= i < r.len() implies inact.contains(r[i]) by {
                if i == 0 {
                    assert(inact[0] == r[0]);
                } else {
                    let x = r1[i - 1];
                    assert(d.contains(x));
                    let m = choose|m: int| 0 <= m < d.len() && d[m] == x;
                    assert(inact[m + 1] == x);
                }
            }
        }
    }
}

/// Splitting a concatenation at its seam.
proof fn lemma_cat_parts(a: Seq<u8>, b: Seq<u8>)
    ensures
        (a + b).subrange(0, a.len() as int) == a,
        (a + b).subrange(a.len() as int, (a + b).len() as int) == b,
{
    assert((a + b).subrange(0, a.len() as int) =~= a);
    assert((a + b).subrange(a.len() as int, (a + b).len() as int) =~= b);
}

/// A subrange of a subrange, re-based onto the outer sequence.
proof fn lemma_sub_of_sub(s: Seq<u8>, off: int, len: int, x: int, y: int)
    requires
        0 <= off,
        off + len <= s.len(),
        0 <= x <= y <= len,
    ensures
        s.subrange(off, off + len).subrange(x, y) == s.subrange(off + x, off + y),
{
    assert(s.subrange(off, off + len).subrange(x, y) =~= s.subrange(off + x, off + y));
}

/// Parsing an encoded active entry (with its co-located optional inactive
/// stake) from any position gives the entry back.
pub proof fn lemma_parse_entry_of_ser(
    data: Seq<u8>,
    pos: int,
    e: ActiveStakeV,
    oi: Option<InactiveStake>,
)
    requires
        e.validator_key.len() == VALIDATOR_KEY_SIZE,
        0 <= pos,
        pos + ser_active_stake(e).len() + ser_opt_inactive(oi).len() <= data.len(),
        data.subrange(pos, pos + ser_active_stake(e).len() + ser_opt_inactive(oi).len())
            == ser_active_stake(e) + ser_opt_inactive(oi),
    ensures
        p_active_entry(data, pos) == Some(
            (e, oi, pos + ser_active_stake(e).len() + ser_opt_inactive(oi).len()),
        ),
{
    let se = ser_active_stake(e);
    let soi = ser_opt_inactive(oi);
    let eb = se + soi;
    let l = eb.len() as int;
    let end = pos + l;
    // split the bytes into the entry and its optional inactive tail
    lemma_cat_parts(se, soi);
    lemma_sub_of_sub(data, pos, l, 0, se.len() as int);
    assert(data.subrange(pos, pos + se.len()) == se);
    lemma_sub_of_sub(data, pos, l, se.len() as int, l);
    let q = pos + se.len();
    assert(data.subrange(q, end) == soi);
    // split the entry into its four fields
    let h1 = ser_addr(e.staker_address);
    let h2 = h1 + ser_u64(e.balance);
    let h3 = h2 + e.validator_key;
    assert(se == h3 + ser_opt_addr(e.reward_address));
    lemma_cat_parts(h3, ser_opt_addr(e.reward_address));
    lemma_sub_of_sub(data, pos, se.len() as int, 0, h3.len() as int);
    assert(data.subrange(pos, pos + 124) == h3);
    lemma_sub_of_sub(data, pos, se.len() as int, h3.len() as int, se.len() as int);
    assert(data.subrange(pos + 124, q) == ser_opt_addr(e.reward_address));
    lemma_cat_parts(h2, e.validator_key);
    lemma_sub_of_sub(data, pos, 124, 0, h2.len() as int);
    assert(data.subrange(pos, pos + 28) == h2);
    lemma_sub_of_sub(data, pos, 124, h2.len() as int, 124);
    assert(data.subrange(pos + 28, pos + 124) == e.validator_key);
    lemma_cat_parts(h1, ser_u64(e.balance));
    lemma_sub_of_sub(data, pos, 28, 0, 20);
    assert(data.subrange(pos, pos + 20) == h1);
    lemma_sub_of_sub(data, pos, 28, 20, 28);
    assert(data.subrange(pos + 20, pos + 28) == ser_u64(e.balance));
    lemma_addr_roundtrip(e.staker_address);
    lemma_u64_roundtrip(e.balance);
    // the optional reward address
    match e.reward_address {
        None => {
            assert(data[pos + 124] == data.subrange(pos + 124, q)[0]);
        },
        Some(ra) => {
            lemma_cat_parts(seq![1u8], ser_addr(ra));
            lemma_sub_of_sub(data, pos + 124, 21, 0, 1);
            lemma_sub_of_sub(data, pos + 124, 21, 1, 21);
            assert(data[pos + 124] == data.subrange(pos + 124, pos + 125)[0]);
            assert(data.subrange(pos + 125, pos + 145) == ser_addr(ra));
            lemma_addr_roundtrip(ra);
        },
    }
    // the optional co-located inactive stake
    match oi {
        None => {
            assert(data[q] == data.subrange(q, q + 1)[0]);
        },
        Some(st) => {
            let t2 = seq![1u8] + ser_u64(st.balance);
            assert(soi == t2 + ser_u32(st.retire_time));
            lemma_cat_parts(t2, ser_u32(st.retire_time));
            lemma_sub_of_sub(data, q, 13, 0, 9);
            assert(data.subrange(q, q + 9) == t2);
            lemma_sub_of_sub(data, q, 13, 9, 13);
            assert(data.subrange(q + 9, q + 13) == ser_u32(st.retire_time));
            lemma_cat_parts(seq![1u8], ser_u64(st.balance));
            lemma_sub_of_sub(data, q, 9, 0, 1);
            lemma_sub_of_sub(data, q, 9, 1, 9);
            assert(data[q] == data.subrange(q, q + 1)[0]);
            assert(data.subrange(q + 1, q + 9) == ser_u64(st.balance));
            lemma_u64_roundtrip(st.balance);
            lemma_u32_roundtrip(st.retire_time);
        },
    }
}

/// Parsing an encoded run of active entries extends the accumulated tables
/// exactly: the active rows in order, the co-located inactive stakes
/// sorted in.
pub proof fn lemma_parse_ser_actives(
    data: Seq<u8>,
    pos: int,
    act: Seq<ActiveStakeV>,
    vinact: Seq<InactiveEntry>,
    acc_act: Seq<ActiveStakeV>,
    acc_inact: Seq<InactiveEntry>,
)
    requires
        crate::seqs::active_ok(act),
        crate::seqs::active_unique(act),
        crate::seqs::inact_sorted(acc_inact),
        forall|i: int|
            0 <= i < act.len() ==> !inact_has(acc_inact, #[trigger] act[i].staker_address),
        0 <= pos,
        pos + ser_actives(act, vinact).len() <= data.len(),
        data.subrange(pos, pos + ser_actives(act, vinact).len()) == ser_actives(act, vinact),
    ensures
        p_actives(data, pos, act.len(), acc_act, acc_inact) matches Some((racts, rinact, rpos))
            && racts == acc_act + act && rpos == pos + ser_actives(act, vinact).len()
            && crate::seqs::inact_sorted(rinact) && forall|a: Address| #[trigger]
            inact_find(rinact, a) == if active_has(act, a) && inact_has(vinact, a) {
                inact_find(vinact, a)
            } else {
                inact_find(acc_inact, a)
            },
    decreases act.len(),
{
    if act.len() == 0 {
        assert(acc_act + act =~= acc_act);
        assert(forall|a: Address| !active_has(act, a));
    } else {
        let e = act[0];
        let oi = inact_find(vinact, e.staker_address);
        let seoi = ser_active_stake(e) + ser_opt_inactive(oi);
        let eb_len = seoi.len() as int;
        let rest = ser_actives(act.drop_first(), vinact);
        let whole = ser_actives(act, vinact);
        assert(whole == seoi + rest);
        lemma_cat_parts(seoi, rest);
        lemma_sub_of_sub(data, pos, whole.len() as int, 0, eb_len);
        assert(data.subrange(pos, pos + eb_len) == seoi);
        lemma_sub_of_sub(data, pos, whole.len() as int, eb_len, whole.len() as int);
        assert(e.validator_key.len() == VALIDATOR_KEY_SIZE);
        lemma_parse_entry_of_ser(data, pos, e, oi);
        let pos2 = pos + eb_len;
        assert(data.subrange(pos2, pos2 + rest.len()) == rest);
        let acc_inact2 = match oi {
            None => acc_inact,
            Some(st) => inact_insert(acc_inact, (e.staker_address, st)),
        };
        match oi {
            None => {},
            Some(st) => {
                crate::seqs::lemma_inact_insert_props(acc_inact, (e.staker_address, st));
            },
        }
        let d = act.drop_first();
        assert forall|i: int|
            0 <= i < d.len() implies !inact_has(acc_inact2, #[trigger] d[i].staker_address) by {
            assert(d[i] == act[i + 1]);
            assert(act[i + 1].staker_address != e.staker_address);
        }
        lemma_parse_ser_actives(data, pos2, d, vinact, acc_act.push(e), acc_inact2);
        assert(acc_act.push(e) + d =~= acc_act + act);
        let rinact = p_actives(data, pos, act.len(), acc_act, acc_inact)->Some_0.1;
        assert forall|a: Address| #[trigger]
            inact_find(rinact, a) == (if active_has(act, a) && inact_has(vinact, a) {
                inact_find(vinact, a)
            } else {
                inact_find(acc_inact, a)
            }) by {
            if active_has(d, a) && inact_has(vinact, a) {
            } else if a == e.staker_address {
                assert(active_has(act, a));
            } else {
                assert(active_has(act, a) == active_has(d, a));
            }
        }
    }
}

/// Parsing an encoded run of orphan rows sorts each into the accumulated
/// table.
pub proof fn lemma_parse_ser_orphans(
    data: Seq<u8>,
    pos: int,
    orph: Seq<InactiveEntry>,
    acc: Seq<InactiveEntry>,
)
    requires
        crate::seqs::inact_sorted(orph),
        crate::seqs::inact_sorted(acc),
        forall|i: int| 0 <= i < orph.len() ==> !inact_has(acc, #[trigger] orph[i].0),
        0 <= pos,
        pos + ser_orphan_list(orph).len() <= data.len(),
        data.subrange(pos, pos + ser_orphan_list(orph).len()) == ser_orphan_list(orph),
    ensures
        p_orphan_rows(data, pos, orph.len(), acc) matches Some((rinact, rpos)) && rpos == pos
            + ser_orphan_list(orph).len() && crate::seqs::inact_sorted(rinact) && forall|
            a: Address,
        | #[trigger]
            inact_find(rinact, a) == if inact_has(orph, a) {
                inact_find(orph, a)
            } else {
                inact_find(acc, a)
            },
    decreases orph.len(),
{
    if orph.len() == 0 {
        assert(forall|a: Address| !inact_has(orph, a));
    } else {
        let e = orph[0];
        let rest = ser_orphan_list(orph.drop_first());
        let whole = ser_orphan_list(orph);
        assert(whole == ser_orphan(e) + rest);
        lemma_cat_parts(ser_orphan(e), rest);
        lemma_sub_of_sub(data, pos, whole.len() as int, 0, 32);
        assert(data.subrange(pos, pos + 32) == ser_orphan(e));
        lemma_sub_of_sub(data, pos, whole.len() as int, 32, whole.len() as int);
        let g2 = ser_addr(e.0) + ser_u64(e.1.balance);
        assert(ser_orphan(e) == g2 + ser_u32(e.1.retire_time));
        lemma_cat_parts(g2, ser_u32(e.1.retire_time));
        lemma_sub_of_sub(data, pos, 32, 0, 28);
        assert(data.subrange(pos, pos + 28) == g2);
        lemma_sub_of_sub(data, pos, 32, 28, 32);
        assert(data.subrange(pos + 28, pos + 32) == ser_u32(e.1.retire_time));
        lemma_cat_parts(ser_addr(e.0), ser_u64(e.1.balance));
        lemma_sub_of_sub(data, pos, 28, 0, 20);
        assert(data.subrange(pos, pos + 20) == ser_addr(e.0));
        lemma_sub_of_sub(data, pos, 28, 20, 28);
        assert(data.subrange(pos + 20, pos + 28) == ser_u64(e.1.balance));
        lemma_addr_roundtrip(e.0);
        lemma_u64_roundtrip(e.1.balance);
        lemma_u32_roundtrip(e.1.retire_time);
        assert(p_orphan_row(data, pos) == Some((e, pos + 32)));
        crate::seqs::lemma_inact_insert_props(acc, e);
        let acc2 = inact_insert(acc, e);
        let d = orph.drop_first();
        assert forall|i: int| 0 <= i < d.len() implies !inact_has(acc2, #[trigger] d[i].0) by {
            assert(d[i] == orph[i + 1]);
            assert(addr_lt(e.0, orph[i + 1].0));
        }
        assert(data.subrange(pos + 32, pos + 32 + rest.len()) == rest);
        lemma_parse_ser_orphans(data, pos + 32, d, acc2);
        let rinact = p_orphan_rows(data, pos, orph.len(), acc)->Some_0.0;
        assert forall|a: Address| #[trigger]
            inact_find(rinact, a) == (if inact_has(orph, a) {
                inact_find(orph, a)
            } else {
                inact_find(acc, a)
            }) by {
            if inact_has(d, a) {
                assert(inact_find(orph, a) == inact_find(d, a)) by {
                    if a == e.0 {
                        crate::seqs::lemma_inact_find_contains(d, a);
                        let m = choose|m: int| 0 <= m < d.len() && d[m].0 == a;
                        assert(addr_lt(orph[0].0, orph[m + 1].0));
                        assert(false);
                    }
                }
            } else if a == e.0 {
                assert(inact_find(orph, a) == Some(e.1));
            } else {
                assert(inact_find(orph, a) == inact_find(d, a));
            }
        }
    }
}

/// Parsing an encoded address run gives the addresses back, in order.
pub proof fn lemma_parse_ser_addrs(data: Seq<u8>, pos: int, s: Seq<Address>, acc: Seq<Address>)
    requires
        0 <= pos,
        pos + ser_addr_list(s).len() <= data.len(),
        data.subrange(pos, pos + ser_addr_list(s).len()) == ser_addr_list(s),
    ensures
        p_addr_list(data, pos, s.len(), acc) == Some(
            (acc + s, pos + ser_addr_list(s).len()),
        ),
    decreases s.len(),
{
    if s.len() == 0 {
        assert(acc + s =~= acc);
    } else {
        let rest = ser_addr_list(s.drop_first());
        let whole = ser_addr_list(s);
        assert(whole == ser_addr(s[0]) + rest);
        lemma_cat_parts(ser_addr(s[0]), rest);
        lemma_sub_of_sub(data, pos, whole.len() as int, 0, 20);
        assert(data.subrange(pos, pos + 20) == ser_addr(s[0]));
        lemma_sub_of_sub(data, pos, whole.len() as int, 20, whole.len() as int);
        lemma_addr_roundtrip(s[0]);
        assert(data.subrange(pos + 20, pos + 20 + rest.len()) == rest);
        lemma_parse_ser_addrs(data, pos + 20, s.drop_first(), acc.push(s[0]));
        assert(acc.push(s[0]) + s.drop_first() =~= acc + s);
    }
}

/// Decoding the canonical bytes of a well-formed contract gives the
/// contract back, byte-exactly: the round-trip law of the codec.
#[verifier::rlimit(100)]
pub proof fn lemma_contract_roundtrip(v: StakingContractV)
    requires
        wf(v),
        v.active.len() <= u32::MAX,
        v.inactive.len() <= u32::MAX,
        v.current_parking.len() <= u32::MAX,
        v.previous_parking.len() <= u32::MAX,
    ensures
        spec_parse_contract(spec_ser_contract(v)) == Some(v),
{
    let data = spec_ser_contract(v);
    let orphs = orphans(v.inactive, v.active);
    lemma_orphans_props(v.inactive, v.active);
    let sa = ser_actives(v.active, v.inactive);
    let so = ser_orphan_list(orphs);
    let sc = ser_addr_list(v.current_parking);
    let sp = ser_addr_list(v.previous_parking);
    let o2: int = 12;
    let o3 = o2 + sa.len();
    let o4 = o3 + 4;
    let o5 = o4 + so.len();
    let o6 = o5 + 4;
    let o7 = o6 + sc.len();
    let o8 = o7 + 4;
    let o9 = o8 + sp.len();
    assert(data.len() == o9);
    // peel the encoding one section at a time, outermost first
    let c1 = ser_u64(v.balance);
    let c2 = ser_u32(v.active.len() as u32);
    let c4 = ser_u32(orphs.len() as u32);
    let c6 = ser_u32(v.current_parking.len() as u32);
    let c8 = ser_u32(v.previous_parking.len() as u32);
    let p2 = c1 + c2;
    let p3 = p2 + sa;
    let p4 = p3 + c4;
    let p5 = p4 + so;
    let p6 = p5 + c6;
    let p7 = p6 + sc;
    let p8 = p7 + c8;
    assert(data == p8 + sp);
    lemma_cat_parts(p8, sp);
    assert(data.subrange(o8, o9) == sp);
    assert(data.subrange(0, o8) == p8);
    lemma_cat_parts(p7, c8);
    lemma_sub_of_sub(data, 0, o8, 0, o7);
    lemma_sub_of_sub(data, 0, o8, o7, o8);
    assert(data.subrange(0, o7) == p7);
    assert(data.subrange(o7, o8) == c8);
    lemma_cat_parts(p6, sc);
    lemma_sub_of_sub(data, 0, o7, 0, o6);
    lemma_sub_of_sub(data, 0, o7, o6, o7);
    assert(data.subrange(0, o6) == p6);
    assert(data.subrange(o6, o7) == sc);
    lemma_cat_parts(p5, c6);
    lemma_sub_of_sub(data, 0, o6, 0, o5);
    lemma_sub_of_sub(data, 0, o6, o5, o6);
    assert(data.subrange(0, o5) == p5);
    assert(data.subrange(o5, o6) == c6);
    lemma_cat_parts(p4, so);
    lemma_sub_of_sub(data, 0, o5, 0, o4);
    lemma_sub_of_sub(data, 0, o5, o4, o5);
    assert(data.subrange(0, o4) == p4);
    assert(data.subrange(o4, o5) == so);
    lemma_cat_parts(p3, c4);
    lemma_sub_of_sub(data, 0, o4, 0, o3);
    lemma_sub_of_sub(data, 0, o4, o3, o4);
    assert(data.subrange(0, o3) == p3);
    assert(data.subrange(o3, o4) == c4);
    lemma_cat_parts(p2, sa);
    lemma_sub_of_sub(data, 0, o3, 0, o2);
    lemma_sub_of_sub(data, 0, o3, o2, o3);
    assert(data.subrange(0, o2) == p2);
    assert(data.subrange(o2, o3) == sa);
    lemma_cat_parts(c1, c2);
    lemma_sub_of_sub(data, 0, o2, 0, 8);
    lemma_sub_of_sub(data, 0, o2, 8, 12);
    assert(data.subrange(0, 8) == c1);
    assert(data.subrange(8, 12) == c2);
    lemma_u64_roundtrip(v.balance);
    lemma_u32_roundtrip(v.active.len() as u32);
    lemma_u32_roundtrip(orphs.len() as u32);
    lemma_u32_roundtrip(v.current_parking.len() as u32);
    lemma_u32_roundtrip(v.previous_parking.len() as u32);
    // the active section
    lemma_parse_ser_actives(
        data,
        o2,
        v.active,
        v.inactive,
        Seq::<ActiveStakeV>::empty(),
        Seq::<InactiveEntry>::empty(),
    );
    let (racts, rinact1, rpos1) = p_actives(
        data,
        o2,
        v.active.len(),
        Seq::<ActiveStakeV>::empty(),
        Seq::<InactiveEntry>::empty(),
    )->Some_0;
    assert(racts =~= v.active);
    assert(rpos1 == o3);
    // the orphan section
    assert forall|i: int| 0 <= i < orphs.len() implies !inact_has(rinact1, #[trigger]
        orphs[i].0) by {
        assert(inact_find(orphs, orphs[i].0) is Some) by {
            crate::seqs::lemma_inact_find_at(orphs, orphs[i].0, i);
        }
        assert(!active_has(v.active, orphs[i].0));
    }
    lemma_parse_ser_orphans(data, o4, orphs, rinact1);
    let (rinact2, rpos2) = p_orphan_rows(data, o4, orphs.len(), rinact1)->Some_0;
    assert(rpos2 == o5);
    // the rebuilt inactive table looks up exactly as the table it encodes,
    // both are sorted, so they are equal
    assert forall|a: Address| #[trigger]
        inact_find(rinact2, a) == inact_find(v.inactive, a) by {
        if active_has(v.active, a) {
            assert(inact_find(orphs, a) is None);
        }
    }
    lemma_inact_find_ext(rinact2, v.inactive);
    // the parking sections
    lemma_parse_ser_addrs(data, o6, v.current_parking, Seq::<Address>::empty());
    assert(Seq::<Address>::empty() + v.current_parking =~= v.current_parking);
    assert(p_addr_block(data, o5) == Some((v.current_parking, o7)));
    lemma_parse_ser_addrs(data, o8, v.previous_parking, Seq::<Address>::empty());
    assert(Seq::<Address>::empty() + v.previous_parking =~= v.previous_parking);
    assert(p_addr_block(data, o7) == Some((v.previous_parking, o9)));
    assert(spec_parse_contract(data) matches Some(r) && r =~= v);
}

impl StakingContract {
    /// Canonical bytes of the whole contract state.
    #[verifier::rlimit(50)]
    pub fn serialize(&self) -> (r: Vec<u8>)
        requires
            wf(self@),
            self@.active.len() <= u32::MAX,
            self@.inactive.len() <= u32::MAX,
            self@.current_parking.len() <= u32::MAX,
            self@.previous_parking.len() <= u32::MAX,
        ensures
            r@ == spec_ser_contract(self@),
    {
        let ghost v = self@;
        let mut out: Vec<u8> = Vec::new();
        write_u64(&mut out, self.balance);
        write_u32(&mut out, self.active_stake_sorted.len() as u32);
        let ghost head = ser_u64(v.balance) + ser_u32(v.active.len() as u32);
        proof {
            assert(out@ =~= head + ser_actives(v.active.take(0), v.inactive));
        }
        let mut i: usize = 0;
        while i < self.active_stake_sorted.len()
            invariant
                i <= v.active.len(),
                self@ == v,
                wf(v),
                head == ser_u64(v.balance) + ser_u32(v.active.len() as u32),
                out@ == head + ser_actives(v.active.take(i as int), v.inactive),
            decreases v.active.len() - i,
        {
            let e = &self.active_stake_sorted[i];
            write_addr(&mut out, &e.staker_address);
            write_u64(&mut out, e.balance);
            write_bytes(&mut out, &e.validator_key);
            write_opt_addr(&mut out, &e.reward_address);
            match crate::contract::find_inactive(
                &self.inactive_stake_by_address,
                &e.staker_address,
            ) {
                None => {
                    out.push(0u8);
                },
                Some(st) => {
                    out.push(1u8);
                    write_u64(&mut out, st.balance);
                    write_u32(&mut out, st.retire_time);
                },
            }
            proof {
                lemma_ser_actives_snoc(v.active.take(i as int), v.active[i as int], v.inactive);
                assert(v.active.take(i as int).push(v.active[i as int]) =~= v.active.take(
                    i as int,
                ) + seq![v.active[i as int]]);
                assert(v.active.take(i as int + 1) =~= v.active.take(i as int) + seq![
                    v.active[i as int],
                ]);
                assert(out@ =~= head + ser_actives(v.active.take(i as int + 1), v.inactive));
            }
            i = i + 1;
        }
        proof {
            assert(v.active.take(v.active.len() as int) =~= v.active);
        }
        // count and emit the orphan inactive rows
        let mut count: usize = 0;
        let mut j: usize = 0;
        while j < self.inactive_stake_by_address.len()
            invariant
                j <= v.inactive.len(),
                self@ == v,
                count == orphans(v.inactive.take(j as int), v.active).len(),
                count <= j,
            decreases v.inactive.len() - j,
        {
            let is_orphan = match crate::contract::find_active_balance(
                &self.active_stake_sorted,
                &self.inactive_stake_by_address[j].0,
            ) {
                Some(_) => false,
                None => true,
            };
            proof {
                lemma_orphans_snoc(v.inactive.take(j as int), v.inactive[j as int], v.active);
                assert(v.inactive.take(j as int + 1) =~= v.inactive.take(j as int) + seq![
                    v.inactive[j as int],
                ]);
            }
            if is_orphan {
                count = count + 1;
            }
            j = j + 1;
        }
        proof {
            assert(v.inactive.take(v.inactive.len() as int) =~= v.inactive);
        }
        write_u32(&mut out, count as u32);
        let ghost head2 = out@;
        let mut j2: usize = 0;
        while j2 < self.inactive_stake_by_address.len()
            invariant
                j2 <= v.inactive.len(),
                self@ == v,
                out@ == head2 + ser_orphan_list(orphans(v.inactive.take(j2 as int), v.active)),
            decreases v.inactive.len() - j2,
        {
            let is_orphan = match crate::contract::find_active_balance(
                &self.active_stake_sorted,
                &self.inactive_stake_by_address[j2].0,
            ) {
                Some(_) => false,
                None => true,
            };
            proof {
                lemma_orphans_snoc(v.inactive.take(j2 as int), v.inactive[j2 as int], v.active);
                assert(v.inactive.take(j2 as int + 1) =~= v.inactive.take(j2 as int) + seq![
                    v.inactive[j2 as int],
                ]);
                if !active_has(v.active, v.inactive[j2 as int].0) {
                    lemma_ser_orphan_list_snoc(
                        orphans(v.inactive.take(j2 as int), v.active),
                        v.inactive[j2 as int],
                    );
                }
            }
            if is_orphan {
                let row = self.inactive_stake_by_address[j2];
                write_addr(&mut out, &row.0);
                write_u64(&mut out, row.1.balance);
                write_u32(&mut out, row.1.retire_time);
                proof {
                    assert(out@ =~= head2 + ser_orphan_list(
                        orphans(v.inactive.take(j2 as int + 1), v.active),
                    ));
                }
            }
            j2 = j2 + 1;
        }
        proof {
            assert(v.inactive.take(v.inactive.len() as int) =~= v.inactive);
        }
        // the two parking sets
        write_u32(&mut out, self.current_epoch_parking.len() as u32);
        let ghost head3 = out@;
        let mut k: usize = 0;
        while k < self.current_epoch_parking.len()
            invariant
                k <= v.current_parking.len(),
                self@ == v,
                out@ == head3 + ser_addr_list(v.current_parking.take(k as int)),
            decreases v.current_parking.len() - k,
        {
            let a = self.current_epoch_parking[k];
            write_addr(&mut out, &a);
            proof {
                lemma_ser_addr_list_snoc(
                    v.current_parking.take(k as int),
                    v.current_parking[k as int],
                );
                assert(v.current_parking.take(k as int + 1) =~= v.current_parking.take(k as int)
                    + seq![v.current_parking[k as int]]);
                assert(out@ =~= head3 + ser_addr_list(v.current_parking.take(k as int + 1)));
            }
            k = k + 1;
        }
        proof {
            assert(v.current_parking.take(v.current_parking.len() as int) =~= v.current_parking);
        }
        write_u32(&mut out, self.previous_epoch_parking.len() as u32);
        let ghost head4 = out@;
        let mut k2: usize = 0;
        while k2 < self.previous_epoch_parking.len()
            invariant
                k2 <= v.previous_parking.len(),
                self@ == v,
                out@ == head4 + ser_addr_list(v.previous_parking.take(k2 as int)),
            decreases v.previous_parking.len() - k2,
        {
            let a = self.previous_epoch_parking[k2];
            write_addr(&mut out, &a);
            proof {
                lemma_ser_addr_list_snoc(
                    v.previous_parking.take(k2 as int),
                    v.previous_parking[k2 as int],
                );
                assert(v.previous_parking.take(k2 as int + 1) =~= v.previous_parking.take(
                    k2 as int,
                ) + seq![v.previous_parking[k2 as int]]);
                assert(out@ =~= head4 + ser_addr_list(v.previous_parking.take(k2 as int + 1)));
            }
            k2 = k2 + 1;
        }
        proof {
            assert(v.previous_parking.take(v.previous_parking.len() as int)
                =~= v.previous_parking);
            assert(out@ =~= spec_ser_contract(v));
        }
        out
    }

    /// Decodes a contract from its canonical bytes.  The result is exactly
    /// what the specification parser reads; trailing bytes are ignored, as
    /// the canonical codec reads fields in order.
    #[verifier::rlimit(100)]
    pub fn deserialize(bytes: &Vec<u8>) -> (r: Result<StakingContract, AccountError>)
        ensures
            match spec_parse_contract(bytes@) {
                Some(v) => r is Ok && r->Ok_0@ == v,
                None => r matches Err(e) && e == AccountError::InvalidSerialization,
            },
    {
        let (balance, p0) = match read_u64(bytes, 0) {
            Some(v) => v,
            None => {
                return Err(AccountError::InvalidSerialization);
            },
        };
        let (n_act, p1) = match read_u32(bytes, p0) {
            Some(v) => v,
            None => {
                return Err(AccountError::InvalidSerialization);
            },
        };
        let mut act_vec: Vec<ActiveStake> = Vec::new();
        let mut inact_vec: Vec<(Address, InactiveStake)> = Vec::new();
        let mut pos: usize = p1;
        let mut i: u32 = 0;
        proof {
            assert(crate::contract::av(act_vec@) =~= Seq::<ActiveStakeV>::empty());
            assert(inact_vec@ =~= Seq::<InactiveEntry>::empty());
        }
        while i < n_act
            invariant
                i <= n_act,
                pos <= bytes@.len(),
                bytes@.len() >= 12,
                n_act == u32_of_bytes(bytes@.subrange(8, 12)),
                p_actives(
                    bytes@,
                    12,
                    n_act as nat,
                    Seq::<ActiveStakeV>::empty(),
                    Seq::<InactiveEntry>::empty(),
                ) == p_actives(
                    bytes@,
                    pos as int,
                    (n_act - i) as nat,
                    crate::contract::av(act_vec@),
                    inact_vec@,
                ),
            decreases n_act - i,
        {
            let ghost act0 = crate::contract::av(act_vec@);
            let ghost inact0 = inact_vec@;
            let ghost pos0 = pos as int;
            let (entry, oi, q) = match read_active_entry(bytes, pos) {
                Some(v) => v,
                None => {
                    proof {
                        assert(p_actives(bytes@, pos0, (n_act - i) as nat, act0, inact0)
                            is None);
                        assert(spec_parse_contract(bytes@) is None);
                    }
                    return Err(AccountError::InvalidSerialization);
                },
            };
            proof {
                assert(p_actives(bytes@, pos0, (n_act - i) as nat, act0, inact0) == p_actives(
                    bytes@,
                    q as int,
                    (n_act - i - 1) as nat,
                    act0.push(entry@),
                    match oi {
                        None => inact0,
                        Some(st) => inact_insert(inact0, (entry@.staker_address, st)),
                    },
                ));
            }
            match oi {
                None => {},
                Some(st) => {
                    let a = entry.staker_address;
                    crate::contract::insert_inactive(&mut inact_vec, (a, st));
                },
            }
            act_vec.push(entry);
            proof {
                assert(crate::contract::av(act_vec@) =~= act0.push(act_vec@.last()@));
            }
            pos = q;
            i = i + 1;
        }
        let ghost act_final = crate::contract::av(act_vec@);
        let ghost inact_mid = inact_vec@;
        let ghost pos1 = pos as int;
        proof {
            assert(p_actives(
                bytes@,
                12,
                n_act as nat,
                Seq::<ActiveStakeV>::empty(),
                Seq::<InactiveEntry>::empty(),
            ) == Some((act_final, inact_mid, pos1)));
        }
        let (n_orph, p2) = match read_u32(bytes, pos) {
            Some(v) => v,
            None => {
                return Err(AccountError::InvalidSerialization);
            },
        };
        pos = p2;
        let mut i2: u32 = 0;
        while i2 < n_orph
            invariant
                i2 <= n_orph,
                pos <= bytes@.len(),
                bytes@.len() >= 12,
                n_act == u32_of_bytes(bytes@.subrange(8, 12)),
                p_actives(
                    bytes@,
                    12,
                    n_act as nat,
                    Seq::<ActiveStakeV>::empty(),
                    Seq::<InactiveEntry>::empty(),
                ) == Some((act_final, inact_mid, pos1)),
                pos1 + 4 <= bytes@.len(),
                p2 == pos1 + 4,
                n_orph == u32_of_bytes(bytes@.subrange(pos1, pos1 + 4)),
                p_orphan_rows(bytes@, p2 as int, n_orph as nat, inact_mid) == p_orphan_rows(
                    bytes@,
                    pos as int,
                    (n_orph - i2) as nat,
                    inact_vec@,
                ),
            decreases n_orph - i2,
        {
            let ghost inact0 = inact_vec@;
            let ghost pos0 = pos as int;
            let (row, q) = match read_orphan_row(bytes, pos) {
                Some(v) => v,
                None => {
                    proof {
                        assert(p_orphan_rows(bytes@, pos0, (n_orph - i2) as nat, inact0)
                            is None);
                        assert(spec_parse_contract(bytes@) is None);
                    }
                    return Err(AccountError::InvalidSerialization);
                },
            };
            proof {
                assert(p_orphan_rows(bytes@, pos0, (n_orph - i2) as nat, inact0)
                    == p_orphan_rows(
                    bytes@,
                    q as int,
                    (n_orph - i2 - 1) as nat,
                    inact_insert(inact0, row),
                ));
            }
            crate::contract::insert_inactive(&mut inact_vec, row);
            pos = q;
            i2 = i2 + 1;
        }
        let (cur_vec, p3) = match Self::read_addr_list(bytes, pos) {
            Some(v) => v,
            None => {
                return Err(AccountError::InvalidSerialization);
            },
        };
        let (prev_vec, _p4) = match Self::read_addr_list(bytes, p3) {
            Some(v) => v,
            None => {
                return Err(AccountError::InvalidSerialization);
            },
        };
        let r = StakingContract {
            balance,
            active_stake_sorted: act_vec,
            inactive_stake_by_address: inact_vec,
            current_epoch_parking: cur_vec,
            previous_epoch_parking: prev_vec,
        };
        proof {
            assert(p_orphan_rows(bytes@, p2 as int, n_orph as nat, inact_mid) == Some((
                r@.inactive,
                pos as int,
            )));
            assert(spec_parse_contract(bytes@) is Some);
            assert(r@ =~= spec_parse_contract(bytes@)->Some_0);
        }
        Ok(r)
    }

    /// Reads a `u32`-length-prefixed address list.
    fn read_addr_list(bytes: &Vec<u8>, start: usize) -> (r: Option<(Vec<Address>, usize)>)
        ensures
            match r {
                Some((v, p2)) => p2 <= bytes@.len() && p_addr_block(bytes@, start as int) == Some(
                    (v@, p2 as int),
                ),
                None => p_addr_block(bytes@, start as int) is None,
            },
    {
        let (n, p0) = match read_u32(bytes, start) {
            Some(v) => v,
            None => {
                proof {
                    assert(p_addr_block(bytes@, start as int) is None);
                }
                return None;
            },
        };
        let mut out: Vec<Address> = Vec::new();
        let mut pos: usize = p0;
        let mut i: u32 = 0;
        proof {
            assert(out@ =~= Seq::<Address>::empty());
        }
        while i < n
            invariant
                i <= n,
                pos <= bytes@.len(),
                start + 4 <= bytes@.len(),
                n == u32_of_bytes(bytes@.subrange(start as int, start as int + 4)),
                p0 == start + 4,
                p_addr_list(bytes@, p0 as int, n as nat, Seq::<Address>::empty()) == p_addr_list(
                    bytes@,
                    pos as int,
                    (n - i) as nat,
                    out@,
                ),
            decreases n - i,
        {
            let ghost out0 = out@;
            let ghost pos0 = pos as int;
            let (a, q) = match read_addr(bytes, pos) {
                Some(v) => v,
                None => {
                    proof {
                        assert(p_addr_list(bytes@, pos0, (n - i) as nat, out0) is None);
                        assert(p_addr_block(bytes@, start as int) is None);
                    }
                    return None;
                },
            };
            proof {
                assert(p_addr_list(bytes@, pos0, (n - i) as nat, out0) == p_addr_list(
                    bytes@,
                    q as int,
                    (n - i - 1) as nat,
                    out0.push(a),
                ));
            }
            out.push(a);
            pos = q;
            i = i + 1;
        }
        proof {
            assert(p_addr_list(bytes@, pos as int, 0, out@) == Some((out@, pos as int)));
        }
        Some((out, pos))
    }

    /// Length of the canonical bytes.
    pub fn serialized_size(&self) -> (r: usize)
        requires
            wf(self@),
            self@.active.len() <= u32::MAX,
            self@.inactive.len() <= u32::MAX,
            self@.current_parking.len() <= u32::MAX,
            self@.previous_parking.len() <= u32::MAX,
        ensures
            r == spec_ser_contract(self@).len(),
    {
        self.serialize().len()
    }
}

} // verus!
