//! Instants and ids.

use control::fresh;
use control::Timestamp;

#[test]
fn ids_are_random_and_of_the_fourth_version() {
    let id = fresh::fresh_id();
    assert_eq!((id >> 76) & 0xf, 4);
    assert_eq!((id >> 62) & 0x3, 2);
    assert_ne!(id, fresh::fresh_id());
}

#[test]
fn ids_are_written_as_everywhere() {
    assert_eq!(fresh::write_id(0), "00000000-0000-0000-0000-000000000000");
    assert_eq!(fresh::write_id(0x0123_4567_89ab_cdef_0011_2233_4455_6677), "01234567-89ab-cdef-0011-223344556677");
    assert_eq!(fresh::write_id(u128::MAX), "ffffffff-ffff-ffff-ffff-ffffffffffff");
    let id = fresh::fresh_id();
    assert_eq!(fresh::write_id(id), uuid::Uuid::from_u128(id).to_string());
    assert_eq!(fresh::fresh_text().len(), 36);
}

#[test]
fn the_clock_tells_the_time() {
    let before = chrono::Utc::now().timestamp_millis();
    let now = fresh::now();
    let after = chrono::Utc::now().timestamp_millis();
    assert!(before <= now.millis() && now.millis() <= after);
}

#[test]
fn instants_are_counted_in_nanoseconds() {
    assert_eq!(fresh::instant_of(2, 5), Timestamp { nanos: 2_000_000_005 });
    assert_eq!(fresh::instant_of(-1, 999_999_999), Timestamp { nanos: -1 });
    assert_eq!(Timestamp { nanos: -1 }.millis(), -1);
    assert_eq!(Timestamp { nanos: 1_999_999 }.millis(), 1);
    assert_eq!(Timestamp { nanos: 0 }.plus_millis(-3), Timestamp { nanos: -3_000_000 });
    for millis in [0, -1, 1, control::time::FIRST_MILLI, control::time::LAST_MILLI, control::time::LAST_MILLI + 1, i64::MAX, i64::MIN] {
        let known = chrono::DateTime::<chrono::Utc>::from_timestamp_millis(millis);
        assert_eq!(Timestamp::from_millis(millis).is_some(), known.is_some());
    }
    assert_eq!(Timestamp::from_millis(5), Some(Timestamp { nanos: 5_000_000 }));
}
