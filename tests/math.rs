use clob_core::math::{calc_quote_ceil, calc_quote_floor, mul_div_ceil, PRICE_PRECISION};
use clob_core::types::{
    actor_to_eth, eth_to_actor, kind_from_io, normalize_actor, side_from_io, ActorId, EthAddress, MatchError,
    OrderKind, Side,
};
use clob_core::u256::U256;
use clob_core::varint::VarintWriter;

fn u(x: u64) -> U256 {
    U256::from(x)
}

#[test]
fn floor_and_ceil_of_a_half() {
    let price = U256::from_u128(PRICE_PRECISION / 2);
    assert_eq!(calc_quote_floor(u(3), price), Ok(u(1)));
    assert_eq!(calc_quote_ceil(u(3), price), Ok(u(2)));
    assert_eq!(calc_quote_floor(u(4), price), Ok(u(2)));
    assert_eq!(calc_quote_ceil(u(4), price), Ok(u(2)));
}

#[test]
fn quote_of_whole_units() {
    let price = U256::from_u128(2_000 * PRICE_PRECISION);
    assert_eq!(calc_quote_floor(u(7), price), Ok(u(14_000)));
    assert_eq!(calc_quote_ceil(u(7), price), Ok(u(14_000)));
    assert_eq!(calc_quote_floor(u(0), price), Ok(U256::zero()));
}

#[test]
fn quote_product_overflow() {
    let big = U256 { w0: 0, w1: 0, w2: 0, w3: 1 << 63 };
    assert_eq!(calc_quote_floor(big, u(2)), Err(MatchError::MulOverflow));
    assert_eq!(calc_quote_ceil(big, u(2)), Err(MatchError::MulOverflow));
}

#[test]
fn u256_arithmetic() {
    let max = U256 { w0: u64::MAX, w1: u64::MAX, w2: u64::MAX, w3: u64::MAX };
    assert_eq!(max.checked_add(U256::one()), None);
    assert_eq!(u(5).checked_sub(u(6)), None);
    assert_eq!(u(6).checked_sub(u(5)), Some(U256::one()));
    let x = U256::from_u128(u128::MAX);
    let y = x.checked_add(U256::one()).unwrap();
    assert_eq!(y, U256 { w0: 0, w1: 0, w2: 1, w3: 0 });
    assert_eq!(y.low_u128(), 0);
    assert_eq!(x.low_u128(), u128::MAX);
    assert_eq!(u(7).checked_mul(u(6)), Some(u(42)));
    assert_eq!(y.div_mod(u(2)), (U256::from_u128(1u128 << 127), U256::zero()));
    assert!(x.lt(&y));
    assert!(!y.lt(&x));
    assert!(y.le(&y));
    assert_eq!(u(3).min(u(9)), u(3));
    assert!(U256::zero().is_zero());
    assert!(y.eq_value(&y));
}

#[test]
fn varint_known_encodings() {
    let mut w = VarintWriter::new();
    w.write_u64(300);
    assert_eq!(w.buf, vec![0xAC, 0x02]);
    let mut w = VarintWriter::with_capacity(4);
    w.write_u128(0);
    w.write_u128(127);
    w.write_u128(128);
    assert_eq!(w.buf, vec![0x00, 0x7F, 0x80, 0x01]);
    let mut w = VarintWriter::new();
    w.write_u128(u128::MAX);
    assert_eq!(w.buf.len(), 19);
    assert_eq!(w.buf[18], 0x03);
    w.write_bytes(&[9, 8, 7]);
    assert_eq!(&w.buf[19..], &[9, 8, 7]);
}

#[test]
fn mul_div_ceil_rounds_up() {
    assert_eq!(mul_div_ceil(10, 3, 4), 8);
    assert_eq!(mul_div_ceil(10, 4, 4), 10);
    assert_eq!(mul_div_ceil(0, 7, 3), 0);
    assert_eq!(mul_div_ceil(1, 1, 1000), 1);
}

#[test]
fn wire_codes_decode() {
    assert_eq!(side_from_io(0), Side::Buy);
    assert_eq!(side_from_io(1), Side::Sell);
    assert_eq!(kind_from_io(0), OrderKind::Limit);
    assert_eq!(kind_from_io(1), OrderKind::Market);
    assert_eq!(kind_from_io(2), OrderKind::FillOrKill);
    assert_eq!(kind_from_io(3), OrderKind::ImmediateOrCancel);
}

#[test]
fn actor_from_u64_layout() {
    let a = ActorId::from_u64(0x0102_0304_0506_0708);
    assert_eq!(&a.bytes[..12], &[0u8; 12]);
    assert_eq!(&a.bytes[12..20], &[8, 7, 6, 5, 4, 3, 2, 1]);
    assert_eq!(&a.bytes[20..], &[0u8; 12]);
    assert!(a.same_as(&ActorId::from_u64(0x0102_0304_0506_0708)));
    assert!(!a.same_as(&ActorId::from_u64(9)));
}

#[test]
fn test_eth_actor_conversion() {
    let addr: EthAddress = [0x12; 20];
    let actor = eth_to_actor(addr);
    let recovered = actor_to_eth(actor);
    assert_eq!(addr, recovered, "Recovered address should match original");
}

#[test]
fn test_actor_is_right_aligned() {
    let addr: EthAddress = [0x12; 20];
    let actor = eth_to_actor(addr);
    let bytes: [u8; 32] = actor.bytes;

    let mut expected_right = [0u8; 32];
    expected_right[12..].copy_from_slice(&addr);

    assert_eq!(bytes, expected_right, "ActorId should be RIGHT-aligned for Ethereum compatibility");
}

#[test]
fn normalize_clears_the_first_twelve_bytes() {
    let a = ActorId { bytes: [0xAB; 32] };
    let n = normalize_actor(a);
    assert_eq!(&n.bytes[..12], &[0u8; 12]);
    assert_eq!(&n.bytes[12..], &[0xAB; 20]);
}
