use statustracker::utils::{
    checked_hour_timestamp, get_hour_timestamp, hour_of_seconds, BitField64,
};
use std::time::{Duration, SystemTime};

#[test]
fn flags_start_down() {
    let field = BitField64::default();
    assert_eq!(field, BitField64(0, 0));
    for i in 0..60 {
        assert!(!field.is_on(i));
    }
}

#[test]
fn turn_on_raises_one_flag() {
    for i in 0..60 {
        let mut field = BitField64::default();
        field.turn_on(i);
        for j in 0..60 {
            assert_eq!(field.is_on(j), i == j);
        }
    }
}

#[test]
fn turn_on_keeps_the_other_flags() {
    let mut field = BitField64::default();
    field.turn_on(0);
    field.turn_on(29);
    field.turn_on(30);
    field.turn_on(59);
    field.turn_on(29);
    assert_eq!(field, BitField64(1 | (1 << 29), 1 | (1 << 29)));
    assert!(field.is_on(0) && field.is_on(29) && field.is_on(30) && field.is_on(59));
    assert!(!field.is_on(1) && !field.is_on(28) && !field.is_on(31) && !field.is_on(58));
}

#[test]
fn flags_live_in_two_halves() {
    let mut low = BitField64::default();
    low.turn_on(7);
    assert_eq!(low, BitField64(128, 0));
    let mut high = BitField64::default();
    high.turn_on(37);
    assert_eq!(high, BitField64(0, 128));
}

#[test]
fn all_sixty_flags() {
    let mut field = BitField64::default();
    for i in 0..60 {
        field.turn_on(i);
    }
    assert_eq!(field, BitField64(0x3fff_ffff, 0x3fff_ffff));
}

#[test]
fn hour_of_a_time() {
    let t = SystemTime::UNIX_EPOCH + Duration::from_secs(7205);
    assert_eq!(get_hour_timestamp(t), 2);
    assert_eq!(get_hour_timestamp(SystemTime::UNIX_EPOCH), 0);
    assert_eq!(
        get_hour_timestamp(SystemTime::UNIX_EPOCH + Duration::new(3599, 999_999_999)),
        0
    );
    assert_eq!(
        get_hour_timestamp(SystemTime::UNIX_EPOCH + Duration::from_secs(3600)),
        1
    );
    assert_eq!(
        get_hour_timestamp(SystemTime::UNIX_EPOCH + Duration::from_secs(1_700_000_000)),
        472_222
    );
}

#[test]
fn checked_hour_of_a_time() {
    let t = SystemTime::UNIX_EPOCH + Duration::from_secs(36_000);
    assert_eq!(checked_hour_timestamp(t), Some(10));
    let before = SystemTime::UNIX_EPOCH - Duration::from_secs(1);
    assert_eq!(checked_hour_timestamp(before), None);
}

#[test]
fn hour_of_seconds_divides_and_wraps() {
    assert_eq!(hour_of_seconds(0), 0);
    assert_eq!(hour_of_seconds(3599), 0);
    assert_eq!(hour_of_seconds(3600), 1);
    assert_eq!(hour_of_seconds(7205), 2);
    assert_eq!(hour_of_seconds(3600 * 0xffff_ffff), 0xffff_ffff);
    assert_eq!(hour_of_seconds(3600 * 0x1_0000_0000), 0);
    assert_eq!(hour_of_seconds(3600 * 0x1_0000_0005 + 17), 5);
}
