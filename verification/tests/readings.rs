use weather_station::reading::Reading;

fn reading(value: f64) -> Reading {
    Reading::from_bits(value.to_bits()).unwrap()
}

fn number(reading: Reading) -> f64 {
    f64::from_bits(reading.to_bits())
}

#[test]
fn numbers_survive_the_way_through_a_reading() {
    for value in [0.0, 1.0, -1.0, 20.0, -273.15, 1e-300, -1e300, f64::MAX, f64::MIN, f64::MIN_POSITIVE] {
        assert_eq!(number(reading(value)).to_bits(), value.to_bits());
    }
    assert_eq!(number(reading(f64::INFINITY)), f64::INFINITY);
    assert_eq!(number(reading(f64::NEG_INFINITY)), f64::NEG_INFINITY);
}

#[test]
fn both_zeros_are_one_reading() {
    assert_eq!(reading(0.0), reading(-0.0));
    assert_eq!(reading(-0.0), Reading::zero());
    assert_eq!(number(reading(-0.0)).to_bits(), 0.0f64.to_bits());
    assert_eq!(Reading::zero().code(), 0);
}

#[test]
fn what_is_not_a_number_has_no_reading() {
    assert!(Reading::from_bits(f64::NAN.to_bits()).is_none());
    assert!(Reading::from_bits(0x7FF0_0000_0000_0001).is_none());
    assert!(Reading::from_bits(0xFFF0_0000_0000_0001).is_none());
    assert!(Reading::from_bits(u64::MAX).is_none());
    assert!(Reading::from_bits(0x7FF0_0000_0000_0000).is_some());
    assert!(Reading::from_bits(0xFFF0_0000_0000_0000).is_some());
}

#[test]
fn codes_of_known_patterns() {
    assert_eq!(Reading::from_bits(1).unwrap().code(), 1);
    assert_eq!(Reading::from_bits(0x8000_0000_0000_0001).unwrap().code(), -1);
    assert_eq!(reading(1.0).code(), 0x3FF0_0000_0000_0000);
    assert_eq!(reading(-1.0).code(), -0x3FF0_0000_0000_0000);
    assert_eq!(reading(-1.0).to_bits(), 0xBFF0_0000_0000_0000);
}

#[test]
fn readings_order_as_their_numbers() {
    let values = [f64::NEG_INFINITY, -1e300, -20.5, -1.0, -1e-300, 0.0, 1e-300, 0.5, 1.0, 20.5, f64::INFINITY];
    for a in values {
        for b in values {
            assert_eq!(reading(a).below(&reading(b)), a < b);
            assert_eq!(reading(a).same(&reading(b)), a == b);
            assert_eq!(number(reading(a).lower(reading(b))), a.min(b));
            assert_eq!(number(reading(a).higher(reading(b))), a.max(b));
        }
    }
}
