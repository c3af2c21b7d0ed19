#[test]
fn interpolate() {
    assert_eq!(adc_interpolator::interpolate(0, 10, 0, 100, 0), 0);
    assert_eq!(adc_interpolator::interpolate(0, 10, 0, 100, 2), 20);
    assert_eq!(adc_interpolator::interpolate(0, 10, 0, 100, 5), 50);
    assert_eq!(adc_interpolator::interpolate(0, 10, 0, 100, 8), 80);
    assert_eq!(adc_interpolator::interpolate(0, 10, 0, 100, 10), 100);
}

#[test]
fn interpolate_flipped_y() {
    assert_eq!(adc_interpolator::interpolate(0, 10, 100, 0, 0), 100);
    assert_eq!(adc_interpolator::interpolate(0, 10, 100, 0, 2), 80);
    assert_eq!(adc_interpolator::interpolate(0, 10, 100, 0, 5), 50);
    assert_eq!(adc_interpolator::interpolate(0, 10, 100, 0, 8), 20);
    assert_eq!(adc_interpolator::interpolate(0, 10, 100, 0, 10), 0);
}

#[test]
fn interpolate_truncates_toward_zero() {
    // 40 - (614 - 409) * 10 / 410 with the quotient truncated: 40 - 5 = 35
    assert_eq!(adc_interpolator::interpolate(409, 819, 40, 30, 614), 35);
    // 30 - (1023 - 819) * 20 / 409: 4080 / 409 truncates to 9
    assert_eq!(adc_interpolator::interpolate(819, 1228, 30, 10, 1023), 21);
}
