use mimeclip::cli::format_line;
use mimeclip::time::Timestamp;
use mimeclip::types::EntryKind;

#[test]
fn moments_are_stored_in_rfc3339() {
    let t = Timestamp::new(1_767_268_800, 0).unwrap();
    assert_eq!(t.to_rfc3339(), "2026-01-01T12:00:00+00:00");
    let t = Timestamp::new(1_767_268_800, 5_000_000).unwrap();
    assert_eq!(t.to_rfc3339(), "2026-01-01T12:00:00.005+00:00");
    let t = Timestamp::new(1_767_268_800, 5_001).unwrap();
    assert_eq!(t.to_rfc3339(), "2026-01-01T12:00:00.000005001+00:00");
}

#[test]
fn stored_moments_are_read_back() {
    for secs in [-62_167_219_200, -1, 0, 1_767_268_800, 253_402_300_799] {
        for nanos in [0, 1, 1_000, 1_000_000, 999_999_999] {
            let t = Timestamp::new(secs, nanos).unwrap();
            assert_eq!(Timestamp::parse(&t.to_rfc3339()), Some(t));
            assert_eq!((t.secs(), t.nanos()), (secs, nanos));
        }
    }
}

#[test]
fn moments_of_any_year_are_read_back() {
    for secs in [
        -8_334_601_228_800,
        -62_167_219_201,
        253_402_300_800,
        8_210_266_876_799,
    ] {
        for nanos in [0, 7, 999_999_999] {
            let t = Timestamp::new(secs, nanos).unwrap();
            assert_eq!(Timestamp::parse(&t.to_rfc3339()), Some(t));
        }
    }
    for secs in [
        -8_334_601_228_741,
        -62_167_219_201,
        -1,
        59,
        253_402_300_799,
        8_210_266_876_799,
    ] {
        for nanos in [1_000_000_000, 1_000_000_001, 1_999_999_999] {
            let t = Timestamp::new(secs, nanos).unwrap();
            assert_eq!(Timestamp::parse(&t.to_rfc3339()), Some(t));
        }
    }
}

#[test]
fn stored_moments_sort_by_time() {
    let mut texts = Vec::new();
    for secs in [-62_167_219_200, -1, 0, 59, 60, 253_402_300_799] {
        for nanos in [
            0, 1, 999, 1_000, 1_001, 999_999, 1_000_000, 1_000_001, 10_000_000, 999_999_999,
        ] {
            texts.push(Timestamp::new(secs, nanos).unwrap().to_rfc3339());
        }
        for nanos in [1_000_000_000, 1_000_000_001, 1_500_000_000, 1_999_999_999] {
            if let Some(t) = Timestamp::new(secs, nanos) {
                texts.push(t.to_rfc3339());
            }
        }
    }
    for i in 1..texts.len() {
        assert!(texts[i - 1] < texts[i], "{} {}", texts[i - 1], texts[i]);
    }
}

#[test]
fn other_notations_are_read() {
    let t = Timestamp::new(1_767_268_800, 0);
    assert_eq!(Timestamp::parse("2026-01-01T12:00:00Z"), t);
    assert_eq!(Timestamp::parse("2026-01-01 13:00:00+01:00"), t);
    assert_eq!(Timestamp::parse(""), None);
    assert_eq!(Timestamp::parse("yesterday"), None);
}

#[test]
fn moments_have_a_range() {
    let first = Timestamp::new(-8_334_601_228_800, 0).unwrap();
    let last = Timestamp::new(8_210_266_876_799, 999_999_999).unwrap();
    assert!(!first.to_rfc3339().is_empty());
    assert!(!last.to_rfc3339().is_empty());
    assert!(!first.clock().is_empty());
    assert!(!last.clock().is_empty());
    assert_eq!(Timestamp::new(-8_334_601_228_801, 0), None);
    assert_eq!(Timestamp::new(8_210_266_876_800, 0), None);
    assert_eq!(Timestamp::new(0, 2_000_000_000), None);
    assert_eq!(Timestamp::new(58, 1_000_000_000), None);
    let leap = Timestamp::new(59, 1_500_000_000).unwrap();
    assert_eq!(leap.to_rfc3339(), "1970-01-01T00:00:60.500+00:00");
    assert!(Timestamp::new(-1, 1_000_000_000).is_some());
    for secs in [-8_334_601_228_801, 8_210_266_876_800] {
        assert!(chrono::DateTime::<chrono::Utc>::from_timestamp(secs, 0).is_none());
    }
}

#[test]
fn clock_shows_the_time_to_the_second() {
    let t = Timestamp::new(1_777_371_245, 999).unwrap();
    assert_eq!(t.clock(), "2026-04-28 10:14:05");
    assert_eq!(
        format_line(42, EntryKind::File, &t.clock(), "notes.txt"),
        "    42  file   2026-04-28 10:14:05  notes.txt"
    );
}

#[test]
fn now_is_later_than_the_past() {
    let now = Timestamp::now();
    assert!(now.secs() > 1_700_000_000);
    assert_eq!(Timestamp::parse(&now.to_rfc3339()), Some(now));
}
