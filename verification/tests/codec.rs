use orderbook::price_key::{key_to_price, price_to_key, PRICE_SCALE};

#[test]
fn whole_prices_scale_by_the_grid() {
    assert_eq!(PRICE_SCALE, 100000);
    assert_eq!(price_to_key(101, 0), Some(10_100_000));
    assert_eq!(price_to_key(0, 1), Some(1));
}

#[test]
fn fractional_prices_land_on_the_grid() {
    assert_eq!(price_to_key(101, 50_000), Some(10_150_000));
    assert_eq!(price_to_key(1, 99_999), Some(199_999));
}

#[test]
fn off_grid_fraction_is_rejected() {
    assert_eq!(price_to_key(1, 100_000), None);
    assert_eq!(price_to_key(1, u64::MAX), None);
}

#[test]
fn overflowing_price_is_rejected() {
    assert_eq!(price_to_key(u64::MAX, 0), None);
    assert_eq!(price_to_key(u64::MAX / 100000 + 1, 0), None);
}

#[test]
fn keys_decode_to_their_parts() {
    assert_eq!(key_to_price(10_150_000), (101, 50_000));
    assert_eq!(key_to_price(0), (0, 0));
    assert_eq!(key_to_price(99_999), (0, 99_999));
}

#[test]
fn round_trip_through_the_grid() {
    for (w, f) in [(0u64, 0u64), (1, 1), (101, 50_000), (184_467_440_737u64, 95_615)] {
        let k = price_to_key(w, f).unwrap();
        assert_eq!(key_to_price(k), (w, f));
    }
}
