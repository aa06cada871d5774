use dronegowski::session::{generate_unique_id, unique_id_from_elapsed};

#[test]
fn identifier_is_the_low_64_bits_of_the_milliseconds() {
    assert_eq!(unique_id_from_elapsed(Some(0)), 0);
    assert_eq!(unique_id_from_elapsed(Some(1_700_000_000_123)), 1_700_000_000_123);
    assert_eq!(unique_id_from_elapsed(Some(u64::MAX as u128)), u64::MAX);
    assert_eq!(unique_id_from_elapsed(Some((1u128 << 64) + 5)), 5);
    assert_eq!(unique_id_from_elapsed(Some(u128::MAX)), u64::MAX);
}

#[test]
fn clock_before_the_epoch_gives_zero() {
    assert_eq!(unique_id_from_elapsed(None), 0);
}

#[test]
fn identifiers_follow_the_clock() {
    let first = generate_unique_id();
    let second = generate_unique_id();
    // milliseconds since the epoch: later than the first of January 2020
    assert!(first > 1_577_836_800_000);
    assert!(second >= first);
    assert!(second - first < 60_000);
}
