use bitefluent::datetime::{chrono_instant, time_from_chrono_nanos, unix_timestamp_parts, DatetimeError};
use time::OffsetDateTime;

#[test]
fn chrono_nanos_to_time() {
    assert_eq!(time_from_chrono_nanos(Some(0)).unwrap(), OffsetDateTime::UNIX_EPOCH);
    let t = time_from_chrono_nanos(Some(1_546_300_800_000_000_000)).unwrap();
    assert_eq!(t.unix_timestamp(), 1_546_300_800);
    let early = time_from_chrono_nanos(Some(i64::MIN)).unwrap();
    assert_eq!(early.unix_timestamp_nanos(), i64::MIN as i128);
    assert_eq!(time_from_chrono_nanos(None).unwrap_err(), DatetimeError { message: "invalid chrono timestamp".to_string() });
}

#[test]
fn time_to_chrono_parts() {
    let t = OffsetDateTime::from_unix_timestamp_nanos(1_500_000_000).unwrap();
    assert_eq!(unix_timestamp_parts(&t), (1, 500_000_000));
    let (secs, nanos) = unix_timestamp_parts(&t);
    let back = chrono::DateTime::from_timestamp(secs, nanos);
    assert_eq!(back.map(|d| d.timestamp_nanos_opt()), Some(Some(1_500_000_000)));
    let before = OffsetDateTime::from_unix_timestamp_nanos(-1).unwrap();
    assert_eq!(unix_timestamp_parts(&before), (-1, 999_999_999));
}

#[test]
fn chrono_instant_or_error() {
    assert_eq!(chrono_instant(Some(7)), Ok(7));
    assert_eq!(chrono_instant::<u8>(None), Err(DatetimeError { message: "invalid time timestamp".to_string() }));
}

#[test]
fn instant_round_trip() {
    for n in [0i64, -1, 1_500_000_000, -2_000_000_001, i64::MAX, i64::MIN] {
        let t = time_from_chrono_nanos(Some(n)).unwrap();
        let (secs, nanos) = unix_timestamp_parts(&t);
        assert_eq!(secs as i128 * 1_000_000_000 + nanos as i128, n as i128);
        assert_eq!(secs, n.div_euclid(1_000_000_000));
        assert_eq!(nanos as i64, n.rem_euclid(1_000_000_000));
    }
}
