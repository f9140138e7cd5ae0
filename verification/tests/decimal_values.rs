use rstim::decimal::{bernoulli_threshold, Decimal, TWO_POW_53};

#[test]
fn checked_add_aligns_scales_exactly() {
    let a = Decimal::from_parts(15, 1); // 1.5
    let b = Decimal::from_parts(25, 2); // 0.25
    let c = a.checked_add(&b).unwrap();
    assert_eq!(c.mantissa(), 175); // 1.75
    assert_eq!(c.scale_pow10(), 2);
}

#[test]
fn threshold_of_one_half_is_exactly_half_the_range() {
    let p = Decimal::from_parts(5, 1); // 0.5
    assert_eq!(bernoulli_threshold(&p), TWO_POW_53 / 2);
}

#[test]
fn threshold_clamps_at_the_extremes() {
    assert_eq!(bernoulli_threshold(&Decimal::from_int(0)), 0);
    assert_eq!(bernoulli_threshold(&Decimal::from_int(-3)), 0);
    assert_eq!(bernoulli_threshold(&Decimal::from_int(1)), TWO_POW_53);
    assert_eq!(bernoulli_threshold(&Decimal::from_int(7)), TWO_POW_53);
}

#[test]
fn trunc_u32_saturates() {
    let p = Decimal::from_parts(39, 1); // 3.9
    assert_eq!(p.trunc_u32(), 3);
    assert_eq!(Decimal::from_parts(-5, 0).trunc_u32(), 0);
    assert_eq!(Decimal::from_int(6_000_000_000).trunc_u32(), u32::MAX);
}

#[test]
fn version_names_the_package() {
    assert_eq!(rstim::version(), "0.1.0");
}
