use melpow::network::NetID;
use melpow::units::{BlockHeight, CoinValue, MICRO_CONVERTER};

#[test]
fn from_millions_scales() {
    assert_eq!(CoinValue::from_millions(0), CoinValue(0));
    assert_eq!(CoinValue::from_millions(3), CoinValue(3_000_000));
    assert_eq!(CoinValue::from_millions(u64::MAX), CoinValue(u64::MAX as u128 * 1_000_000));
    assert_eq!(MICRO_CONVERTER, 1_000_000);
}

#[test]
fn checked_add_sums_or_refuses() {
    assert_eq!(CoinValue(2).checked_add(CoinValue(3)), Some(CoinValue(5)));
    assert_eq!(CoinValue(u128::MAX).checked_add(CoinValue(0)), Some(CoinValue(u128::MAX)));
    assert_eq!(CoinValue(u128::MAX).checked_add(CoinValue(1)), None);
    assert_eq!(CoinValue(u128::MAX - 4).checked_add(CoinValue(5)), None);
}

#[test]
fn checked_sub_subtracts_or_refuses() {
    assert_eq!(CoinValue(5).checked_sub(CoinValue(3)), Some(CoinValue(2)));
    assert_eq!(CoinValue(5).checked_sub(CoinValue(5)), Some(CoinValue(0)));
    assert_eq!(CoinValue(5).checked_sub(CoinValue(6)), None);
    assert_eq!(CoinValue(0).checked_sub(CoinValue(u128::MAX)), None);
}

#[test]
fn coin_value_text_has_six_decimals() {
    assert_eq!(CoinValue(0).to_string(), "0.000000");
    assert_eq!(CoinValue(1).to_string(), "0.000001");
    assert_eq!(CoinValue(1_500_000).to_string(), "1.500000");
    assert_eq!(CoinValue(123_456_789_012).to_string(), "123456.789012");
    assert_eq!(CoinValue(999_999).to_string(), "0.999999");
    assert_eq!(CoinValue(u128::MAX).to_string(), "340282366920938463463374607431768.211455");
    for v in [7u128, 1_000_000, 90_000_010, 12_345_678_901_234_567_890] {
        assert_eq!(CoinValue(v).to_string(), format!("{}.{:06}", v / 1_000_000, v % 1_000_000));
    }
}

#[test]
fn defaults_are_zero() {
    assert_eq!(CoinValue::default(), CoinValue(0));
    assert_eq!(BlockHeight::default(), BlockHeight(0));
}

#[test]
fn units_are_ordered_by_their_number() {
    assert!(CoinValue(1) < CoinValue(2));
    assert!(BlockHeight(9) > BlockHeight(3));
}

#[test]
fn net_id_bytes() {
    assert_eq!(NetID::Testnet.to_u8(), 0x01);
    assert_eq!(NetID::Mainnet.to_u8(), 0xff);
    assert_eq!(NetID::from_u8(0x01), Some(NetID::Testnet));
    assert_eq!(NetID::from_u8(0xff), Some(NetID::Mainnet));
    assert_eq!(NetID::from_u8(0), None);
    assert_eq!(NetID::from_u8(2), None);
    for b in 0..=255u8 {
        if let Some(id) = NetID::from_u8(b) {
            assert_eq!(id.to_u8(), b);
        }
    }
}
