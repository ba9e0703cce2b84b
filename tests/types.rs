use economy::types::{Price, Volume, BOUND, UNITS_PER_WHOLE};

#[test]
fn price_sentinels_and_zero() {
    assert_eq!(Price::min().units(), -BOUND);
    assert_eq!(Price::max().units(), BOUND);
    assert_eq!(Price::zero().units(), 0);
    assert_eq!(Volume::min().units(), -BOUND);
    assert_eq!(Volume::max().units(), BOUND);
    assert_eq!(Volume::zero().units(), 0);
}

#[test]
fn abs_of_negative_and_positive() {
    assert_eq!(Price::new(-5).abs(), Price::new(5));
    assert_eq!(Price::new(7).abs(), Price::new(7));
    assert_eq!(Volume::new(-3 * UNITS_PER_WHOLE).abs(), Volume::new(3 * UNITS_PER_WHOLE));
    assert_eq!(Volume::new(0).abs(), Volume::new(0));
}
