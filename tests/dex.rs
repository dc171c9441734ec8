use dex::amm::StylusSwap;
use dex::base64::base64_encode;
use dex::curve::{liquidity_amounts, mint_amount, plan_withdrawal, swap_output};
use dex::error::StylusSwapError;
use dex::ids::{Address, Bytes32};
use dex::transfer::{plan_transfer, LedgerAction, Transfer};
use dex::uint256::{integer_sqrt, Uint256};

fn addr(n: u8) -> Address {
    let mut bytes = [0u8; 20];
    bytes[0] = n;
    bytes[19] = n;
    Address { bytes }
}

fn native() -> Address {
    Address { bytes: [0u8; 20] }
}

fn u(x: u128) -> Uint256 {
    Uint256::from_u128(x)
}

fn exchange_with_pool(fee: u32) -> (StylusSwap, Bytes32) {
    let mut dex = StylusSwap::new();
    let id = dex.create_pool(addr(2), addr(1), fee).unwrap();
    (dex, id)
}

fn seeded(fee: u32) -> (StylusSwap, Bytes32) {
    let (mut dex, id) = exchange_with_pool(fee);
    dex.add_liquidity(addr(7), addr(99), id, u(1_000_000), u(1_000_000), u(0), u(0))
        .unwrap();
    (dex, id)
}

#[test]
fn pool_id_ignores_asset_order() {
    let dex = StylusSwap::new();
    let (id_ab, t0, t1) = dex.get_pool_id(addr(5), addr(3), 3000);
    let (id_ba, s0, s1) = dex.get_pool_id(addr(3), addr(5), 3000);
    assert_eq!(id_ab, id_ba);
    assert_eq!((t0, t1), (addr(3), addr(5)));
    assert_eq!((s0, s1), (addr(3), addr(5)));
    let (other_fee, _, _) = dex.get_pool_id(addr(3), addr(5), 500);
    assert_ne!(id_ab, other_fee);
}

#[test]
fn pool_id_is_keccak_of_abi_words() {
    let dex = StylusSwap::new();
    let fee: u32 = 0x01_02_03;
    let (id, t0, t1) = dex.get_pool_id(addr(9), addr(4), fee);
    let mut buf = Vec::new();
    buf.extend_from_slice(&[0u8; 12]);
    buf.extend_from_slice(&t0.bytes);
    buf.extend_from_slice(&[0u8; 12]);
    buf.extend_from_slice(&t1.bytes);
    buf.extend_from_slice(&[0u8; 29]);
    buf.extend_from_slice(&[1, 2, 3]);
    assert_eq!(buf.len(), 96);
    assert_eq!(id.bytes, alloy_primitives::keccak256(&buf).0);
}

#[test]
fn position_id_is_keccak_of_abi_words() {
    let dex = StylusSwap::new();
    let pool = Bytes32 { bytes: [7u8; 32] };
    let owner = addr(42);
    let id = dex.get_position_id(pool, owner);
    let mut buf = Vec::new();
    buf.extend_from_slice(&pool.bytes);
    buf.extend_from_slice(&[0u8; 12]);
    buf.extend_from_slice(&owner.bytes);
    assert_eq!(id.bytes, alloy_primitives::keccak256(&buf).0);
    assert_ne!(id, dex.get_position_id(pool, addr(43)));
}

#[test]
fn create_pool_succeeds_once() {
    let mut dex = StylusSwap::new();
    let id = dex.create_pool(addr(1), addr(2), 3000).unwrap();
    assert_eq!(dex.get_pool_state(id), Some((u(0), u(0), u(0))));
    assert_eq!(
        dex.create_pool(addr(1), addr(2), 3000),
        Err(StylusSwapError::PoolAlreadyExists(id))
    );
    assert_eq!(
        dex.create_pool(addr(2), addr(1), 3000),
        Err(StylusSwapError::PoolAlreadyExists(id))
    );
    assert!(dex.create_pool(addr(2), addr(1), 500).is_ok());
}

#[test]
fn add_liquidity_to_missing_pool_fails() {
    let mut dex = StylusSwap::new();
    let (id, _, _) = dex.get_pool_id(addr(1), addr(2), 3000);
    let r = dex.add_liquidity(addr(7), addr(99), id, u(1_000), u(1_000), u(0), u(0));
    assert_eq!(r, Err(StylusSwapError::PoolDoesNotExist(id)));
    assert_eq!(dex.get_pool_state(id), None);
}

#[test]
fn initial_deposit_locks_minimum_liquidity() {
    let (mut dex, id) = exchange_with_pool(3000);
    let (minted, transfers) = dex
        .add_liquidity(addr(7), addr(99), id, u(1_000_000), u(1_000_000), u(0), u(0))
        .unwrap();
    assert_eq!(minted, u(999_000));
    assert_eq!(dex.get_pool_state(id), Some((u(1_000_000), u(1_000_000), u(1_000_000))));
    assert_eq!(dex.get_position_liquidity(id, addr(7)), u(999_000));
    assert_eq!(
        transfers,
        vec![
            Transfer { token: addr(1), from: addr(7), to: addr(99), amount: u(1_000_000) },
            Transfer { token: addr(2), from: addr(7), to: addr(99), amount: u(1_000_000) },
        ]
    );
}

#[test]
fn initial_deposit_below_minimum_fails() {
    let (mut dex, id) = exchange_with_pool(3000);
    let r = dex.add_liquidity(addr(7), addr(99), id, u(10), u(10), u(0), u(0));
    assert_eq!(r, Err(StylusSwapError::InsufficientLiquidityMinted));
    assert_eq!(dex.get_pool_state(id), Some((u(0), u(0), u(0))));
    let (minted, _) = dex
        .add_liquidity(addr(7), addr(99), id, u(1_000), u(1_000), u(0), u(0))
        .unwrap();
    assert_eq!(minted, u(0));
    assert_eq!(dex.get_pool_state(id), Some((u(1_000), u(1_000), u(1_000))));
}

#[test]
fn initial_deposit_overflow_fails() {
    let (mut dex, id) = exchange_with_pool(3000);
    let huge = Uint256 { limbs: [0, 0, 0, 1 << 63] };
    let r = dex.add_liquidity(addr(7), addr(99), id, huge, u(2), u(0), u(0));
    assert_eq!(r, Err(StylusSwapError::ArithmeticOverflow));
    assert_eq!(dex.get_pool_state(id), Some((u(0), u(0), u(0))));
}

#[test]
fn second_deposit_follows_pool_ratio() {
    let (mut dex, id) = seeded(3000);
    let (minted, transfers) = dex
        .add_liquidity(addr(8), addr(99), id, u(500_000), u(1_000_000), u(0), u(0))
        .unwrap();
    assert_eq!(minted, u(500_000));
    assert_eq!(transfers[0].amount, u(500_000));
    assert_eq!(transfers[1].amount, u(500_000));
    assert_eq!(dex.get_pool_state(id), Some((u(1_500_000), u(1_500_000), u(1_500_000))));
    assert_eq!(dex.get_position_liquidity(id, addr(8)), u(500_000));
    assert_eq!(dex.get_position_liquidity(id, addr(7)), u(999_000));
}

#[test]
fn deposit_below_minimum_amount_fails() {
    let (mut dex, id) = seeded(3000);
    let r = dex.add_liquidity(addr(8), addr(99), id, u(500_000), u(1_000_000), u(0), u(500_001));
    assert_eq!(r, Err(StylusSwapError::InsufficientAmount));
    assert_eq!(dex.get_pool_state(id), Some((u(1_000_000), u(1_000_000), u(1_000_000))));
}

#[test]
fn liquidity_amounts_at_pool_ratio() {
    let dex = StylusSwap::new();
    assert_eq!(dex.get_liquidity_amounts(u(10), u(50), u(0), u(0), u(100), u(200)), Ok((u(10), u(20))));
    assert_eq!(
        dex.get_liquidity_amounts(u(10), u(50), u(0), u(21), u(100), u(200)),
        Err(StylusSwapError::InsufficientAmount)
    );
    assert_eq!(liquidity_amounts(u(10), u(10), u(0), u(0), u(100), u(200)), Ok((u(5), u(10))));
    assert_eq!(
        liquidity_amounts(u(10), u(10), u(6), u(0), u(100), u(200)),
        Err(StylusSwapError::InsufficientAmount)
    );
    assert_eq!(liquidity_amounts(u(3), u(4), u(9), u(9), u(0), u(0)), Ok((u(3), u(4))));
    assert_eq!(
        liquidity_amounts(u(3), u(4), u(0), u(0), u(0), u(5)),
        Err(StylusSwapError::InsufficientAmount)
    );
}

#[test]
fn minting_takes_the_smaller_share() {
    assert_eq!(mint_amount(u(1_000), u(10), u(30), u(100), u(200)), Ok((u(100), u(100))));
    assert_eq!(mint_amount(u(1_000), u(0), u(30), u(100), u(200)), Err(StylusSwapError::InsufficientLiquidityMinted));
    assert_eq!(mint_amount(u(0), u(4_000_000), u(1_000_000), u(0), u(0)), Ok((u(1_999_000), u(2_000_000))));
}

#[test]
fn full_withdrawal_empties_position() {
    let (mut dex, id) = seeded(3000);
    let (a0, a1, transfers) = dex.remove_liquidity(addr(7), addr(99), id, u(999_000)).unwrap();
    assert_eq!((a0, a1), (u(999_000), u(999_000)));
    assert_eq!(dex.get_position_liquidity(id, addr(7)), u(0));
    assert_eq!(dex.get_pool_state(id), Some((u(1_000), u(1_000), u(1_000))));
    assert_eq!(
        transfers,
        vec![
            Transfer { token: addr(1), from: addr(99), to: addr(7), amount: u(999_000) },
            Transfer { token: addr(2), from: addr(99), to: addr(7), amount: u(999_000) },
        ]
    );
}

#[test]
fn withdrawal_rounds_down() {
    let (mut dex, id) = seeded(0);
    dex.swap(addr(8), addr(99), id, u(3), u(0), true).unwrap();
    assert_eq!(dex.get_pool_state(id), Some((u(1_000_000), u(1_000_003), u(999_997))));
    let (a0, a1, _) = dex.remove_liquidity(addr(7), addr(99), id, u(333_333)).unwrap();
    assert_eq!(a0, u(333_333));
    assert_eq!(a1, u(333_332));
    assert_eq!(plan_withdrawal(u(1_000), u(10), u(10), u(50), u(50)), Err(StylusSwapError::InsufficientLiquidityOwned));
}

#[test]
fn withdrawal_beyond_position_fails() {
    let (mut dex, id) = seeded(3000);
    let r = dex.remove_liquidity(addr(7), addr(99), id, u(999_001));
    assert_eq!(r, Err(StylusSwapError::InsufficientLiquidityOwned));
    let r = dex.remove_liquidity(addr(8), addr(99), id, u(1));
    assert_eq!(r, Err(StylusSwapError::InsufficientLiquidityOwned));
    assert_eq!(dex.get_position_liquidity(id, addr(7)), u(999_000));
    let missing = Bytes32 { bytes: [3u8; 32] };
    assert_eq!(
        dex.remove_liquidity(addr(7), addr(99), missing, u(1)),
        Err(StylusSwapError::PoolDoesNotExist(missing))
    );
}

#[test]
fn swap_pays_curve_output_less_fee() {
    let (mut dex, id) = seeded(30);
    let (out, transfers) = dex.swap(addr(8), addr(99), id, u(100_000), u(0), true).unwrap();
    assert_eq!(out, u(90_638));
    assert_eq!(dex.get_pool_state(id), Some((u(1_000_000), u(1_100_000), u(909_362))));
    assert_eq!(
        transfers,
        vec![
            Transfer { token: addr(1), from: addr(8), to: addr(99), amount: u(100_000) },
            Transfer { token: addr(2), from: addr(99), to: addr(8), amount: u(90_638) },
        ]
    );
    let (back, _) = dex.swap(addr(8), addr(99), id, u(90_638), u(0), false).unwrap();
    assert_eq!(swap_output(u(909_362), u(1_100_000), u(90_638), 30, u(0)).unwrap().2, back);
}

#[test]
fn fee_free_swap_keeps_product_when_exact() {
    let (mut dex, id) = seeded(0);
    let (out, _) = dex.swap(addr(8), addr(99), id, u(1_000_000), u(0), true).unwrap();
    assert_eq!(out, u(500_000));
    let (_, r0, r1) = dex.get_pool_state(id).unwrap();
    assert_eq!((r0, r1), (u(2_000_000), u(500_000)));
    assert!(2_000_000u128 * 500_000 >= 1_000_000u128 * 1_000_000);
}

#[test]
fn fee_free_swap_rounding_loses_less_than_input_reserve() {
    let r = swap_output(u(1_000_000), u(1_000_000), u(3), 0, u(0)).unwrap();
    assert_eq!(r, (u(3), u(0), u(3)));
    let product = 1_000_003u128 * 999_997;
    assert_eq!(product, 999_999_999_991);
    assert!(product + 1_000_003 > 1_000_000_000_000);
}

#[test]
fn swap_of_zero_fails() {
    let (mut dex, id) = seeded(30);
    let r = dex.swap(addr(8), addr(99), id, u(0), u(0), true);
    assert_eq!(r, Err(StylusSwapError::InsufficientAmount));
    assert_eq!(dex.get_pool_state(id), Some((u(1_000_000), u(1_000_000), u(1_000_000))));
    let missing = Bytes32 { bytes: [3u8; 32] };
    assert_eq!(dex.swap(addr(8), addr(99), missing, u(0), u(0), true), Err(StylusSwapError::InsufficientAmount));
    assert_eq!(dex.swap(addr(8), addr(99), missing, u(1), u(0), true), Err(StylusSwapError::PoolDoesNotExist(missing)));
}

#[test]
fn swap_below_minimum_output_fails() {
    let (mut dex, id) = seeded(30);
    let r = dex.swap(addr(8), addr(99), id, u(100_000), u(90_639), true);
    assert_eq!(r, Err(StylusSwapError::TooMuchSlippage));
    assert_eq!(dex.get_pool_state(id), Some((u(1_000_000), u(1_000_000), u(1_000_000))));
    assert!(dex.swap(addr(8), addr(99), id, u(100_000), u(90_638), true).is_ok());
}

#[test]
fn swap_overflow_and_oversized_fee_fail() {
    let big = Uint256 { limbs: [0, 0, 1, 0] };
    assert_eq!(swap_output(big, big, u(1), 30, u(0)), Err(StylusSwapError::ArithmeticOverflow));
    assert_eq!(swap_output(u(1_000), u(1_000), u(100), 20_000, u(0)), Err(StylusSwapError::ArithmeticOverflow));
}

#[test]
fn integer_sqrt_is_floor_root() {
    let cases: [(u128, u128); 9] = [
        (0, 0),
        (1, 1),
        (2, 1),
        (3, 1),
        (4, 2),
        (15, 3),
        (16, 4),
        (999_999_999_999, 999_999),
        (1_000_000_000_000, 1_000_000),
    ];
    for (x, r) in cases {
        assert_eq!(integer_sqrt(u(x)), u(r));
    }
    let max = Uint256 { limbs: [u64::MAX; 4] };
    assert_eq!(integer_sqrt(max), Uint256 { limbs: [u64::MAX, u64::MAX, 0, 0] });
}

#[test]
fn u128_limbs_round_trip() {
    assert_eq!(u(1u128 << 64), Uint256 { limbs: [0, 1, 0, 0] });
    assert_eq!(u(u128::MAX), Uint256 { limbs: [u64::MAX, u64::MAX, 0, 0] });
    assert!(Uint256::zero().is_zero());
    assert!(!u(1).is_zero());
}

#[test]
fn transfers_are_planned_by_asset_kind() {
    let this = addr(99);
    let t = Transfer { token: addr(1), from: addr(7), to: addr(8), amount: u(5) };
    assert_eq!(plan_transfer(t, this, u(0)), Err(StylusSwapError::FailedOrInsufficientTokenTransfer(t)));
    let t = Transfer { token: native(), from: this, to: addr(7), amount: u(5) };
    assert_eq!(plan_transfer(t, this, u(0)), Ok(LedgerAction::SendNative { to: addr(7), amount: u(5) }));
    let t = Transfer { token: native(), from: addr(7), to: this, amount: u(100) };
    assert_eq!(plan_transfer(t, this, u(150)), Ok(LedgerAction::RefundNative { to: addr(7), refund: u(50) }));
    assert_eq!(plan_transfer(t, this, u(100)), Ok(LedgerAction::KeepNative));
    assert_eq!(plan_transfer(t, this, u(50)), Err(StylusSwapError::FailedOrInsufficientTokenTransfer(t)));
    let t = Transfer { token: addr(1), from: this, to: addr(7), amount: u(5) };
    assert_eq!(
        plan_transfer(t, this, u(0)),
        Ok(LedgerAction::TokenTransfer { token: addr(1), to: addr(7), amount: u(5) })
    );
    let t = Transfer { token: addr(1), from: addr(7), to: this, amount: u(5) };
    assert_eq!(
        plan_transfer(t, this, u(0)),
        Ok(LedgerAction::TokenTransferFrom { token: addr(1), from: addr(7), amount: u(5) })
    );
}

#[test]
fn base64_matches_standard_vectors() {
    assert_eq!(base64_encode(""), "");
    assert_eq!(base64_encode("f"), "Zg==");
    assert_eq!(base64_encode("fo"), "Zm8=");
    assert_eq!(base64_encode("foo"), "Zm9v");
    assert_eq!(base64_encode("foob"), "Zm9vYg==");
    assert_eq!(base64_encode("foobar"), "Zm9vYmFy");
    assert_eq!(base64_encode("Hello, World!"), "SGVsbG8sIFdvcmxkIQ==");
    assert_eq!(base64_encode("\u{e9}?>"), "w6k/Pg==");
}

#[test]
fn pool_of_identical_assets_is_refused() {
    let mut dex = StylusSwap::new();
    assert_eq!(dex.create_pool(addr(1), addr(1), 3000), Err(StylusSwapError::IdenticalAssets));
    assert_eq!(dex.create_pool(native(), native(), 3000), Err(StylusSwapError::IdenticalAssets));
    let (id, _, _) = dex.get_pool_id(addr(1), addr(1), 3000);
    assert_eq!(dex.get_pool_state(id), None);
}

#[test]
fn pool_with_any_fee_is_created() {
    let mut dex = StylusSwap::new();
    let id = dex.create_pool(addr(1), addr(2), 20_000).unwrap();
    assert_eq!(dex.get_pool_state(id), Some((u(0), u(0), u(0))));
    assert!(dex.create_pool(addr(1), addr(2), 10_001).is_ok());
    assert_eq!(
        dex.create_pool(addr(2), addr(1), 20_000),
        Err(StylusSwapError::PoolAlreadyExists(id))
    );
}

#[test]
fn swap_into_pool_without_shares_fails() {
    let (mut dex, id) = exchange_with_pool(0);
    let r = dex.swap(addr(8), addr(99), id, u(5), u(1), true);
    assert_eq!(r, Err(StylusSwapError::TooMuchSlippage));
    assert_eq!(dex.get_pool_state(id), Some((u(0), u(0), u(0))));
    let r = dex.swap(addr(8), addr(99), id, u(1), u(0), true);
    assert_eq!(r, Err(StylusSwapError::InsufficientAmount));
    assert_eq!(dex.get_pool_state(id), Some((u(0), u(0), u(0))));
    let r = dex.swap(addr(8), addr(99), id, u(1_000), u(0), false);
    assert_eq!(r, Err(StylusSwapError::InsufficientAmount));
    assert_eq!(dex.get_pool_state(id), Some((u(0), u(0), u(0))));
}

#[test]
fn full_fee_swap_pays_nothing_and_keeps_reserves_nonzero() {
    let (mut dex, id) = seeded(10_000);
    let (out, _) = dex.swap(addr(8), addr(99), id, u(100_000), u(0), true).unwrap();
    assert_eq!(out, u(0));
    assert_eq!(dex.get_pool_state(id), Some((u(1_000_000), u(1_100_000), u(1_000_000))));
}

#[test]
fn swap_on_pool_with_oversized_fee_overflows_only_with_output() {
    let (mut dex, id) = seeded(20_000);
    let r = dex.swap(addr(8), addr(99), id, u(100_000), u(0), true);
    assert_eq!(r, Err(StylusSwapError::ArithmeticOverflow));
    assert_eq!(dex.get_pool_state(id), Some((u(1_000_000), u(1_000_000), u(1_000_000))));
}
