use sample_split::threshold::silence_mask;
use sample_split::threshold::Threshold;

#[test]
fn zero_crossings_per_representation() {
    assert_eq!(u8::zero_crossing(), 127);
    assert_eq!(i16::zero_crossing(), 0);
    assert_eq!(i32::zero_crossing(), 0);
    assert!(127u8.is_zero());
    assert!(!0u8.is_zero());
    assert!(0i16.is_zero());
    assert!(!1i16.is_zero());
    assert!(0i32.is_zero());
    assert!(!(-1i32).is_zero());
}

#[test]
fn max_vals_per_representation() {
    assert_eq!(u8::max_val(), u8::MAX);
    assert_eq!(i16::max_val(), i16::MAX);
    assert_eq!(i32::max_val(), i32::MAX);
}

#[test]
fn magnitudes() {
    // the unsigned representation uses its raw value, not the distance from
    // the 127 zero-crossing
    assert_eq!(0u8.magnitude(), 0);
    assert_eq!(127u8.magnitude(), 127);
    assert_eq!(255u8.magnitude(), 255);
    assert_eq!((-5i16).magnitude(), 5);
    assert_eq!(i16::MIN.magnitude(), 32768);
    assert_eq!(i16::MAX.magnitude(), 32767);
    assert_eq!((-7i32).magnitude(), 7);
    assert_eq!(i32::MIN.magnitude(), 2147483648);
}

#[test]
fn is_silent_compares_magnitude_to_cutoff() {
    assert!(3i16.is_silent(3));
    assert!((-3i16).is_silent(3));
    assert!(!4i16.is_silent(3));
    assert!(0i32.is_silent(0));
    assert!(!(-1i32).is_silent(0));
    assert!(100u8.is_silent(100));
    assert!(!101u8.is_silent(100));
}

#[test]
fn silence_mask_classifies_each_sample() {
    let samples: &[i16] = &[0, 10, -11, 5, -5, 32767];
    assert_eq!(
        silence_mask(samples, 10),
        vec![true, true, false, true, true, false]
    );
    let empty: &[i16] = &[];
    assert_eq!(silence_mask(empty, 10), Vec::<bool>::new());
}
