//! Tests for the temporary-key session registry.

use idp_service::temp_keys::{TempKeyExpiration, TempKeys, TEMP_KEY_EXPIRATION_NS};

fn key(n: u8) -> Vec<u8> {
    vec![n, n, n]
}

#[test]
fn temp_key_lifecycle() {
    let mut r = TempKeys::new();
    let now = 1_000;
    assert!(r.add_onboarding_temp_key(key(1), now, None).is_ok());
    assert!(r.check_onboarding_temp_key(&key(1), now).is_ok());
    // past the lifetime the same check fails
    let later = now + TEMP_KEY_EXPIRATION_NS + 1;
    assert!(r.check_onboarding_temp_key(&key(1), later).is_err());
}

#[test]
fn unknown_onboarding_key_is_invalid() {
    let mut r = TempKeys::new();
    assert!(r.check_onboarding_temp_key(&key(7), 5).is_err());
}

#[test]
fn onboarding_capacity_is_enforced() {
    let mut r = TempKeys::new();
    assert!(r.add_onboarding_temp_key(key(1), 10, Some(2)).is_ok());
    assert!(r.add_onboarding_temp_key(key(2), 11, Some(2)).is_ok());
    // at the configured ceiling the next admission is refused
    assert!(r.add_onboarding_temp_key(key(3), 12, Some(2)).is_err());
    // expired keys free their slots again
    let later = 11 + TEMP_KEY_EXPIRATION_NS + 1;
    assert!(r.add_onboarding_temp_key(key(3), later, Some(2)).is_ok());
}

#[test]
fn device_bound_isolation() {
    let mut r = TempKeys::new();
    let d = key(9);
    r.add_device_bound_temp_key(&d, 1, key(5), 100);
    assert!(r.check_device_bound_temp_key(&key(5), &d, 2, 100).is_err());
    assert!(r.check_device_bound_temp_key(&key(5), &d, 1, 100).is_ok());
    // a different caller identity is refused too
    assert!(r.check_device_bound_temp_key(&key(6), &d, 1, 100).is_err());
    // and so is an expired key
    let later = 100 + TEMP_KEY_EXPIRATION_NS + 1;
    assert!(r.check_device_bound_temp_key(&key(5), &d, 1, later).is_err());
}

#[test]
fn removal_matches_anchor() {
    let mut r = TempKeys::new();
    let d = key(9);
    r.add_device_bound_temp_key(&d, 1, key(5), 100);
    // a mismatched anchor leaves the record intact
    r.remove_temp_key(2, &d);
    assert_eq!(r.num_temp_keys(), 1);
    assert!(r.check_device_bound_temp_key(&key(5), &d, 1, 100).is_ok());
    // the matching anchor removes it
    r.remove_temp_key(1, &d);
    assert_eq!(r.num_temp_keys(), 0);
    assert!(r.check_device_bound_temp_key(&key(5), &d, 1, 100).is_err());
}

#[test]
fn device_bound_key_consumes_onboarding_key() {
    let mut r = TempKeys::new();
    assert!(r.add_onboarding_temp_key(key(5), 100, None).is_ok());
    r.add_device_bound_temp_key(&key(9), 1, key(5), 101);
    assert!(r.check_onboarding_temp_key(&key(5), 101).is_err());
    assert!(r.check_device_bound_temp_key(&key(5), &key(9), 1, 101).is_ok());
}

#[test]
fn num_temp_keys_counts_device_bound_keys_only() {
    let mut r = TempKeys::new();
    assert_eq!(r.num_temp_keys(), 0);
    assert!(r.add_onboarding_temp_key(key(1), 10, None).is_ok());
    assert_eq!(r.num_temp_keys(), 0);
    r.add_device_bound_temp_key(&key(2), 1, key(3), 10);
    r.add_device_bound_temp_key(&key(4), 2, key(5), 11);
    assert_eq!(r.num_temp_keys(), 2);
}

#[test]
fn expired_keys_are_swept_by_later_calls() {
    let mut r = TempKeys::new();
    assert!(r.add_onboarding_temp_key(key(1), 0, None).is_ok());
    r.add_device_bound_temp_key(&key(2), 1, key(3), 1);
    let later = 1 + TEMP_KEY_EXPIRATION_NS + 1;
    // the sweep run by this admission removes both stale records
    assert!(r.add_onboarding_temp_key(key(4), later, None).is_ok());
    assert_eq!(r.num_temp_keys(), 0);
    assert!(r.check_onboarding_temp_key(&key(1), later).is_err());
    assert!(r.check_onboarding_temp_key(&key(4), later).is_ok());
}

#[test]
fn expiration_accessor_reads_either_kind() {
    let a = TempKeyExpiration::Onboarding { principal: key(1), expiration: 42 };
    let b = TempKeyExpiration::DeviceBound { device_key: key(2), expiration: 43 };
    assert_eq!(a.expiration(), 42);
    assert_eq!(b.expiration(), 43);
}
