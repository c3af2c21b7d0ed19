use adc_interpolator::{AdcInterpolator, Config};

fn table_positive() -> Config {
    Config {
        max_voltage: 1000,
        precision: 12,
        voltage_to_values: vec![(100, 10), (200, 30), (300, 40)],
    }
}

fn table_negative() -> Config {
    Config {
        max_voltage: 1000,
        precision: 12,
        voltage_to_values: vec![(100, 40), (200, 30), (300, 10)],
    }
}

fn table_invalid() -> Config {
    Config {
        max_voltage: 1000,
        precision: 12,
        voltage_to_values: vec![(300, 40), (200, 30), (100, 10)],
    }
}

fn interpolator(config: Config) -> AdcInterpolator<()> {
    assert!(config.is_valid());
    AdcInterpolator::new((), config)
}

fn assert_lookup(config: Config, raw_code: u16, expected: Option<u32>) {
    let interpolator = interpolator(config);
    assert_eq!(interpolator.lookup(raw_code), expected);
}

#[test]
fn rejects_unsorted_table() {
    assert!(!table_invalid().is_valid());
}

#[test]
fn builds_expected_codes() {
    // 1000 mV full scale at 12 bits: raw code = voltage * 4096 / 1000
    let config = table_negative();
    assert!(config.is_valid());
    assert_eq!(config.table(), vec![(409, 40), (819, 30), (1228, 10)]);
}

#[test]
fn matching_exact_values() {
    assert_lookup(table_negative(), 409, Some(40));
    assert_lookup(table_negative(), 819, Some(30));
    assert_lookup(table_negative(), 1228, Some(10));
}

#[test]
fn interpolates() {
    assert_lookup(table_negative(), 502, Some(38));
    assert_lookup(table_negative(), 614, Some(35));
    assert_lookup(table_negative(), 1023, Some(21));
}

#[test]
fn outside_range() {
    assert_lookup(table_negative(), 0, None);
    assert_lookup(table_negative(), 408, None);
    assert_lookup(table_negative(), 1229, None);
    assert_lookup(table_negative(), 10000, None);
}

#[test]
fn min_value() {
    assert_eq!(interpolator(table_positive()).min_value(), 10);
    assert_eq!(interpolator(table_negative()).min_value(), 10);
}

#[test]
fn max_value() {
    assert_eq!(interpolator(table_positive()).max_value(), 40);
    assert_eq!(interpolator(table_negative()).max_value(), 40);
}

#[test]
fn endpoint_values() {
    let falling = interpolator(table_negative());
    assert_eq!(falling.first_value(), 40);
    assert_eq!(falling.last_value(), 10);
    let rising = interpolator(table_positive());
    assert_eq!(rising.first_value(), 10);
    assert_eq!(rising.last_value(), 40);
}

#[test]
fn empty_table() {
    let config = Config {
        max_voltage: 1000,
        precision: 12,
        voltage_to_values: vec![],
    };
    assert!(config.is_valid());
    let interpolator = AdcInterpolator::<()>::new((), config);
    assert_eq!(interpolator.lookup(0), None);
    assert_eq!(interpolator.lookup(500), None);
}

#[test]
fn single_entry_table() {
    let config = Config {
        max_voltage: 1000,
        precision: 12,
        voltage_to_values: vec![(100, 10)],
    };
    assert!(config.is_valid());
    let interpolator = AdcInterpolator::<()>::new((), config);
    // even the entry's own code has no bracketing interval
    assert_eq!(interpolator.lookup(409), None);
    assert_eq!(interpolator.min_value(), 10);
    assert_eq!(interpolator.max_value(), 10);
}

#[test]
fn duplicate_codes_resolve_to_lowest_index() {
    // two calibration points at the same voltage share a raw code
    let config = Config {
        max_voltage: 1000,
        precision: 12,
        voltage_to_values: vec![(100, 40), (100, 30), (300, 10)],
    };
    assert!(config.is_valid());
    assert_eq!(config.table(), vec![(409, 40), (409, 30), (1228, 10)]);
    let interpolator = AdcInterpolator::<()>::new((), config);
    // the zero-width interval at 409 matches first and yields its left value
    assert_eq!(interpolator.lookup(409), Some(40));
    // 30 - (800 - 409) * 20 / 819 = 30 - 9
    assert_eq!(interpolator.lookup(800), Some(21));
}

#[test]
fn rising_segment_is_monotone() {
    let config = Config {
        max_voltage: 1000,
        precision: 12,
        voltage_to_values: vec![(100, 10), (300, 40)],
    };
    let interpolator = interpolator(config);
    let mut previous = 0;
    for raw_code in 409..=1228u16 {
        let value = interpolator.lookup(raw_code).unwrap();
        assert!(value >= previous);
        previous = value;
    }
}

#[test]
fn falling_segment_is_monotone() {
    let config = Config {
        max_voltage: 1000,
        precision: 12,
        voltage_to_values: vec![(100, 40), (300, 10)],
    };
    let interpolator = interpolator(config);
    let mut previous = u32::MAX;
    for raw_code in 409..=1228u16 {
        let value = interpolator.lookup(raw_code).unwrap();
        assert!(value <= previous);
        previous = value;
    }
}

#[test]
fn free_returns_pin() {
    let interpolator = AdcInterpolator::new(7u32, table_positive());
    assert_eq!(interpolator.free(), 7);
}
