use biot_savart::constants::DIVIDER;
use biot_savart::engine::math::Math;
use biot_savart::test::test_equation_strip;

#[test]
fn equation_strip_runs() {
    test_equation_strip();
}

#[test]
fn divider_and_math_namespace() {
    assert_eq!(DIVIDER, 10_000_000);
    let _m = Math;
}
