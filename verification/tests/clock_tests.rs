use salsa::clock::Timestamp;

#[test]
fn representable_instants() {
    assert!(Timestamp::from_unix(0, 0).is_some());
    assert!(Timestamp::from_unix(-62_167_219_200, 0).is_some());
    assert!(Timestamp::from_unix(253_402_300_799, 999_999_999).is_some());
    assert!(Timestamp::from_unix(i64::MAX, 0).is_none());
    assert!(Timestamp::from_unix(0, 2_000_000_000).is_none());
}

#[test]
fn ordering_by_seconds_then_nanos() {
    let a = Timestamp::from_unix(10, 5).unwrap();
    let b = Timestamp::from_unix(10, 6).unwrap();
    let c = Timestamp::from_unix(11, 0).unwrap();
    assert!(b.is_later_than(&a));
    assert!(c.is_later_than(&b));
    assert!(!a.is_later_than(&a));
    assert!(!a.is_later_than(&c));
}

#[test]
fn rfc3339_text_and_back() {
    let t = Timestamp::from_unix(86_400, 1_000).unwrap();
    assert_eq!(t.to_rfc3339(), "1970-01-02T00:00:00.000001+00:00");
    let back = Timestamp::parse_rfc3339(&t.to_rfc3339()).unwrap();
    assert_eq!(back.secs(), 86_400);
    assert_eq!(back.nanos(), 1_000);
    assert!(Timestamp::parse_rfc3339("1970-01-02").is_none());
}

#[test]
fn now_is_after_the_epoch() {
    let epoch = Timestamp::from_unix(0, 0).unwrap();
    assert!(Timestamp::now().is_later_than(&epoch));
}

#[test]
fn leap_second_round_trip() {
    let t = Timestamp::from_unix(59, 1_500_000_000).unwrap();
    assert_eq!(t.to_rfc3339(), "1970-01-01T00:00:60.500+00:00");
    let back = Timestamp::parse_rfc3339(&t.to_rfc3339()).unwrap();
    assert_eq!(back.secs(), 59);
    assert_eq!(back.nanos(), 1_500_000_000);
    assert!(Timestamp::from_unix(58, 1_500_000_000).is_none());
}
