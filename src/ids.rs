//! Account addresses, 32-byte identifiers, and the derivation of pool and
//! position identifiers by hashing their ABI-encoded keys.
use alloy_sol_types::SolValue;
use vstd::prelude::*;

verus! {

/// A 20-byte account or asset address.
#[derive(Clone, Copy, Debug, PartialEq, Eq)]
pub struct Address {
    pub bytes: [u8; 20],
}

/// A 32-byte identifier (a hash).
#[derive(Clone, Copy, Debug, PartialEq, Eq)]
pub struct Bytes32 {
    pub bytes: [u8; 32],
}

/// Lexicographic order on byte strings: the order of `[u8; N]` and of addresses.
pub open spec fn lex_le(a: Seq<u8>, b: Seq<u8>) -> bool
    decreases a.len(),
{
    if a.len() == 0 || b.len() == 0 {
        a.len() <= b.len()
    } else if a[0] != b[0] {
        a[0] < b[0]
    } else {
        lex_le(a.drop_first(), b.drop_first())
    }
}

/// Of two byte strings of one length, at least one is below the other.
pub proof fn lemma_lex_le_total(a: Seq<u8>, b: Seq<u8>)
    requires
        a.len() == b.len(),
    ensures
        lex_le(a, b) || lex_le(b, a),
    decreases a.len(),
{
    if a.len() > 0 && a[0] == b[0] {
        lemma_lex_le_total(a.drop_first(), b.drop_first());
    }
}

/// Two byte strings of one length that are each below the other are equal.
pub proof fn lemma_lex_le_antisymmetric(a: Seq<u8>, b: Seq<u8>)
    requires
        a.len() == b.len(),
        lex_le(a, b),
        lex_le(b, a),
    ensures
        a == b,
    decreases a.len(),
{
    if a.len() > 0 {
        lemma_lex_le_antisymmetric(a.drop_first(), b.drop_first());
        assert(a =~= seq![a[0]] + a.drop_first());
        assert(b =~= seq![b[0]] + b.drop_first());
    } else {
        assert(a =~= b);
    }
}

/// Relies on alloy's `PartialOrd for Address`, which compares the 20 bytes as an array.
#[verifier::external_body]
fn address_le(a: Address, b: Address) -> (r: bool)
    ensures
        r == lex_le(a.bytes@, b.bytes@),
{
    alloy_primitives::Address::new(a.bytes) <= alloy_primitives::Address::new(b.bytes)
}

/// The ABI word of an address: twelve zero bytes, then the address.
pub open spec fn address_word(a: Seq<u8>) -> Seq<u8> {
    Seq::new(12, |i: int| 0u8) + a
}

/// The ABI word of a 24-bit unsigned integer: big-endian, zero-padded on the left.
pub open spec fn uint24_word(v: nat) -> Seq<u8> {
    Seq::new(29, |i: int| 0u8) + seq![(v / 0x10000) as u8, ((v / 0x100) % 0x100) as u8, (v % 0x100) as u8]
}

/// The bytes hashed into a pool id: the two assets in canonical order, then the fee.
pub open spec fn pool_key_encoding(asset0: Seq<u8>, asset1: Seq<u8>, fee: nat) -> Seq<u8> {
    address_word(asset0) + address_word(asset1) + uint24_word(fee)
}

/// The bytes hashed into a position id: the pool id, then the owner.
pub open spec fn position_key_encoding(pool_id: Seq<u8>, owner: Seq<u8>) -> Seq<u8> {
    pool_id + address_word(owner)
}

/// Relies on alloy-sol-types' `abi_encode_sequence` for `(address, address, uint24)`:
/// three static values, each as one 32-byte word.
#[verifier::external_body]
fn encode_pool_key(asset0: Address, asset1: Address, fee: u32) -> (r: Vec<u8>)
    requires
        fee < 0x100_0000,
    ensures
        r@ == pool_key_encoding(asset0.bytes@, asset1.bytes@, fee as nat),
{
    (
        alloy_primitives::Address::new(asset0.bytes),
        alloy_primitives::Address::new(asset1.bytes),
        alloy_primitives::aliases::U24::from(fee),
    ).abi_encode_sequence()
}

/// Relies on alloy-sol-types' `abi_encode_sequence` for `(bytes32, address)`:
/// two static values, each as one 32-byte word.
#[verifier::external_body]
fn encode_position_key(pool_id: Bytes32, owner: Address) -> (r: Vec<u8>)
    ensures
        r@ == position_key_encoding(pool_id.bytes@, owner.bytes@),
{
    (alloy_primitives::FixedBytes::<32>::new(pool_id.bytes), alloy_primitives::Address::new(
        owner.bytes,
    )).abi_encode_sequence()
}

/// The Keccak-256 digest of a byte string.
pub uninterp spec fn keccak_of(data: Seq<u8>) -> Seq<u8>;

/// Relies on stylus-sdk's `crypto::keccak`: the Keccak-256 digest, a function of the bytes alone.
#[verifier::external_body]
fn keccak(data: &Vec<u8>) -> (r: Bytes32)
    ensures
        r.bytes@ == keccak_of(data@),
{
    Bytes32 { bytes: stylus_sdk::crypto::keccak(data).0 }
}

/// The two assets of a pair in canonical order.
pub open spec fn sorted_pair(a: Seq<u8>, b: Seq<u8>) -> (Seq<u8>, Seq<u8>) {
    if lex_le(a, b) {
        (a, b)
    } else {
        (b, a)
    }
}

/// The id of the pool of an unordered asset pair and a fee.
pub open spec fn pool_id_of(a: Seq<u8>, b: Seq<u8>, fee: nat) -> Seq<u8> {
    keccak_of(pool_key_encoding(sorted_pair(a, b).0, sorted_pair(a, b).1, fee))
}

/// The id of an owner's position in a pool.
pub open spec fn position_id_of(pool_id: Seq<u8>, owner: Seq<u8>) -> Seq<u8> {
    keccak_of(position_key_encoding(pool_id, owner))
}

/// The pool id, and the two assets in canonical order.
pub fn pool_id(token_a: Address, token_b: Address, fee: u32) -> (r: (Bytes32, Address, Address))
    requires
        fee < 0x100_0000,
    ensures
        (r.1.bytes@, r.2.bytes@) == sorted_pair(token_a.bytes@, token_b.bytes@),
        lex_le(r.1.bytes@, r.2.bytes@),
        r.0.bytes@ == pool_id_of(token_a.bytes@, token_b.bytes@, fee as nat),
{
    let (token0, token1) = if address_le(token_a, token_b) {
        (token_a, token_b)
    } else {
        (token_b, token_a)
    };
    proof {
        lemma_lex_le_total(token_a.bytes@, token_b.bytes@);
    }
    let id = keccak(&encode_pool_key(token0, token1, fee));
    (id, token0, token1)
}

/// The id of `owner`'s position in the pool `pool_id`.
pub fn position_id(pool_id: Bytes32, owner: Address) -> (r: Bytes32)
    ensures
        r.bytes@ == position_id_of(pool_id.bytes@, owner.bytes@),
{
    keccak(&encode_position_key(pool_id, owner))
}

/// Whether two identifiers hold the same bytes.
pub fn bytes32_eq(a: &Bytes32, b: &Bytes32) -> (r: bool)
    ensures
        r == (a.bytes@ == b.bytes@),
{
    let mut i: usize = 0;
    while i < 32
        invariant
            i <= 32,
            forall|j: int| 0 <= j < i ==> a.bytes@[j] == b.bytes@[j],
        decreases 32 - i,
    {
        if a.bytes[i] != b.bytes[i] {
            return false;
        }
        i = i + 1;
    }
    assert(a.bytes@ =~= b.bytes@);
    true
}

/// Whether an address is all zero bytes (the native asset).
pub fn address_is_zero(a: &Address) -> (r: bool)
    ensures
        r == (a.bytes@ == Seq::new(20, |i: int| 0u8)),
{
    let mut i: usize = 0;
    while i < 20
        invariant
            i <= 20,
            forall|j: int| 0 <= j < i ==> a.bytes@[j] == 0u8,
        decreases 20 - i,
    {
        if a.bytes[i] != 0 {
            assert(a.bytes@[i as int] != Seq::new(20, |i: int| 0u8)[i as int]);
            return false;
        }
        i = i + 1;
    }
    assert(a.bytes@ =~= Seq::new(20, |i: int| 0u8));
    true
}

/// Whether two addresses hold the same bytes.
pub fn address_eq(a: &Address, b: &Address) -> (r: bool)
    ensures
        r == (a.bytes@ == b.bytes@),
{
    let mut i: usize = 0;
    while i < 20
        invariant
            i <= 20,
            forall|j: int| 0 <= j < i ==> a.bytes@[j] == b.bytes@[j],
        decreases 20 - i,
    {
        if a.bytes[i] != b.bytes[i] {
            return false;
        }
        i = i + 1;
    }
    assert(a.bytes@ =~= b.bytes@);
    true
}

/// The pool id does not depend on the order in which the two assets are given.
pub proof fn lemma_pool_id_order_independent(a: Seq<u8>, b: Seq<u8>, fee: nat)
    requires
        a.len() == 20,
        b.len() == 20,
    ensures
        pool_id_of(a, b, fee) == pool_id_of(b, a, fee),
{
    lemma_lex_le_total(a, b);
    if lex_le(a, b) && lex_le(b, a) {
        lemma_lex_le_antisymmetric(a, b);
    }
}

} // verus!
