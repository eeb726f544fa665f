use auxbookmark::time::{
    chromium_time_of, chromium_time_to_string, chromium_time_to_unix_secs, moment_text,
    now_chromium_time, stamp_moment, Moment,
};
use chrono::{DateTime, Local};

fn shown(secs: i64, nanos: u32) -> String {
    let utc = DateTime::from_timestamp(secs, nanos).unwrap();
    DateTime::<Local>::from(utc).format("%Y-%m-%d %H:%M:%S").to_string()
}

#[test]
fn stamps_of_three_kinds_are_told_apart() {
    assert_eq!(
        stamp_moment(Some("13344473600000001")),
        Moment::At { secs: 1700000000, nanos: 1000 }
    );
    assert_eq!(
        stamp_moment(Some("1700000000000002")),
        Moment::At { secs: 1700000000, nanos: 2000 }
    );
    assert_eq!(stamp_moment(Some("1700000000")), Moment::At { secs: 1700000000, nanos: 0 });
    assert_eq!(stamp_moment(Some("0")), Moment::At { secs: 0, nanos: 0 });
    assert_eq!(stamp_moment(Some("-5")), Moment::At { secs: -5, nanos: 0 });
    assert_eq!(stamp_moment(Some("x")), Moment::Now);
    assert_eq!(stamp_moment(None), Moment::Now);
}

#[test]
fn stamps_are_shown_in_local_time() {
    assert_eq!(chromium_time_to_string(Some("13344473600000001")), shown(1700000000, 1000));
    assert_eq!(chromium_time_to_string(Some("1700000000")), shown(1700000000, 0));
    assert_eq!(moment_text(Moment::At { secs: 86400, nanos: 5 }), shown(86400, 5));
    assert_eq!(chromium_time_to_string(None).len(), 19);
}

#[test]
fn the_calendar_ends_where_that_of_chrono_ends() {
    for secs in [
        -8_334_601_228_801i64,
        -8_334_601_228_800,
        8_210_266_876_799,
        8_210_266_876_800,
    ] {
        for nanos in [0u32, 999_999_999, 1_000_000_000, 1_999_999_999, 2_000_000_000] {
            let inside = DateTime::from_timestamp(secs, nanos).is_some();
            let expected = -8_334_601_228_800 <= secs
                && secs <= 8_210_266_876_799
                && nanos < 2_000_000_000
                && (nanos < 1_000_000_000 || secs.rem_euclid(60) == 59);
            assert_eq!(inside, expected, "{} {}", secs, nanos);
        }
    }
    assert_eq!(stamp_moment(Some("-9223372036854775808")), Moment::At { secs: 0, nanos: 0 });
}

#[test]
fn seconds_are_read_from_stamps() {
    assert_eq!(chromium_time_to_unix_secs(Some("13344473600000001")), Some(1700000000));
    assert_eq!(chromium_time_to_unix_secs(Some("1700000000000002")), Some(1700000000));
    assert_eq!(chromium_time_to_unix_secs(Some("1700000000")), Some(1700000000));
    assert_eq!(chromium_time_to_unix_secs(Some("0")), None);
    assert_eq!(chromium_time_to_unix_secs(Some("-1")), None);
    assert_eq!(chromium_time_to_unix_secs(Some("1.5")), None);
    assert_eq!(chromium_time_to_unix_secs(None), None);
}

#[test]
fn a_stamp_names_the_moment_it_was_made_of() {
    assert_eq!(chromium_time_of(1700000000000001), "13344473600000001");
    assert_eq!(
        stamp_moment(Some(chromium_time_of(1700000000000001).as_str())),
        Moment::At { secs: 1700000000, nanos: 1000 }
    );
    let now: i64 = now_chromium_time().parse().unwrap();
    assert!(now > 13344473600000000);
}
