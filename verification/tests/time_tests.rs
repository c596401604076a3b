use wts_core::tensor::{TensorCollection, TensorValue};
use wts_core::repo::Repository;
use wts_core::time::{timestamp_from_micros, UnixTimestamp};

#[test]
fn format_pads_the_fraction_to_six_digits() {
    let t = UnixTimestamp { secs: 5, micros: 42 };
    assert_eq!(t.format(), "5.000042");
    let t = UnixTimestamp { secs: 0, micros: 0 };
    assert_eq!(t.format(), "0.000000");
    let t = UnixTimestamp { secs: 1234567890, micros: 999999 };
    assert_eq!(t.format(), "1234567890.999999");
}

#[test]
fn format_of_negative_seconds() {
    let t = timestamp_from_micros(-1);
    assert_eq!(t.secs, -1);
    assert_eq!(t.micros, 999999);
    assert_eq!(t.format(), "-1.999999");
}

#[test]
fn from_micros_splits_exactly() {
    let t = timestamp_from_micros(1_500_000);
    assert_eq!((t.secs, t.micros), (1, 500_000));
    let t = timestamp_from_micros(-1_500_000);
    assert_eq!((t.secs, t.micros), (-2, 500_000));
    let t = timestamp_from_micros(0);
    assert_eq!((t.secs, t.micros), (0, 0));
}

#[test]
fn parse_inverts_format() {
    for us in [0i64, 1, -1, 999_999, -999_999, 1_700_000_000_123_456, -62_135_596_800_000_000] {
        let t = timestamp_from_micros(us);
        let s = t.format();
        let back = UnixTimestamp::parse(&s).unwrap();
        assert_eq!(back, t);
    }
}

#[test]
fn parse_of_epoch_text() {
    let t = UnixTimestamp::parse("0.000000").unwrap();
    assert_eq!(t, UnixTimestamp { secs: 0, micros: 0 });
}

#[test]
fn parse_rejects_malformed_text() {
    assert!(UnixTimestamp::parse("").is_err());
    assert!(UnixTimestamp::parse("abc").is_err());
    assert!(UnixTimestamp::parse("1.23").is_err());
    assert!(UnixTimestamp::parse("1.2345678").is_err());
    assert!(UnixTimestamp::parse("01.000000").is_err());
    assert!(UnixTimestamp::parse("-0.000000").is_err());
    assert!(UnixTimestamp::parse("1.00000a").is_err());
    assert!(UnixTimestamp::parse("99999999999999999999.000000").is_err());
}

#[test]
fn commits_are_stamped_with_the_present() {
    let mut repo = Repository::new();
    repo.init();
    let mut c = TensorCollection::new();
    c.insert(
        "w".to_string(),
        TensorValue { shape: "[1]".to_string(), dtype: "u8".to_string(), data: vec![1] },
    );
    let h = repo.create_commit(&c, "stamped", None, None).unwrap();
    let t = repo.get_commit(&h).unwrap().timestamp;
    assert!(t.micros < 1_000_000);
    // 2001-01-01 in seconds since the epoch
    assert!(t.secs > 978_307_200);
}
