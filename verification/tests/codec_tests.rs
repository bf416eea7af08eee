use price_store::timestamp::Timestamp;

fn ts(year: u16, month: u8, day: u8, hour: u8) -> Timestamp {
    Timestamp::new(year, month, day, hour).unwrap()
}

#[test]
fn encode_canonical_form() {
    assert_eq!(ts(2024, 3, 1, 14).encode(), "2024-03-01 H14");
    assert_eq!(ts(987, 12, 31, 0).encode(), "0987-12-31 H00");
    assert_eq!(ts(0, 1, 1, 0).encode(), "0000-01-01 H00");
    assert_eq!(ts(9999, 12, 31, 23).encode(), "9999-12-31 H23");
}

#[test]
fn decode_reads_canonical_keys() {
    assert_eq!(Timestamp::decode("2024-03-01 H14"), Ok(ts(2024, 3, 1, 14)));
    assert_eq!(Timestamp::decode("0001-01-01 H00"), Ok(ts(1, 1, 1, 0)));
}

#[test]
fn encode_decode_roundtrip() {
    for &(y, m, d, h) in &[(2024u16, 3u8, 1u8, 14u8), (1999, 12, 31, 23), (3, 2, 28, 9)] {
        let t = ts(y, m, d, h);
        let key = t.encode();
        assert_eq!(Timestamp::decode(&key), Ok(t));
        assert_eq!(Timestamp::decode(&key).unwrap().encode(), key);
    }
}

#[test]
fn decode_rejects_malformed_keys() {
    for bad in [
        "",
        "garbage",
        "2024-3-1 H14",
        "2024-03-01 h14",
        "2024-03-01H14",
        "2024-03-01 H24",
        "2024-13-01 H00",
        "2024-00-01 H00",
        "2024-03-00 H00",
        "2024-03-32 H00",
        "2024-03-01 H14 ",
        "2024-03-01 Hxx",
        "20x4-03-01 H14",
    ] {
        assert!(Timestamp::decode(bad).is_err(), "accepted {:?}", bad);
    }
}

#[test]
fn key_order_matches_chronological_order() {
    let keys = [
        ts(2023, 12, 31, 23).encode(),
        ts(2024, 1, 1, 0).encode(),
        ts(2024, 1, 1, 1).encode(),
        ts(2024, 2, 1, 0).encode(),
        ts(2024, 2, 1, 14).encode(),
        ts(2025, 1, 1, 0).encode(),
    ];
    for w in keys.windows(2) {
        assert!(w[0] < w[1], "{:?} should sort before {:?}", w[0], w[1]);
    }
}

#[test]
fn previous_hour_within_a_day() {
    assert_eq!(ts(2024, 3, 1, 14).previous_hour(), ts(2024, 3, 1, 13));
    assert_eq!(ts(2024, 3, 2, 0).previous_hour(), ts(2024, 3, 1, 23));
}

#[test]
fn previous_hour_across_months_and_years() {
    // leap year: March 1st rolls back to February 29th
    assert_eq!(ts(2024, 3, 1, 0).previous_hour(), ts(2024, 2, 29, 23));
    // ordinary year: February 28th
    assert_eq!(ts(2023, 3, 1, 0).previous_hour(), ts(2023, 2, 28, 23));
    // century rule: 1900 was not a leap year, 2000 was
    assert_eq!(ts(1900, 3, 1, 0).previous_hour(), ts(1900, 2, 28, 23));
    assert_eq!(ts(2000, 3, 1, 0).previous_hour(), ts(2000, 2, 29, 23));
    assert_eq!(ts(2024, 1, 1, 0).previous_hour(), ts(2023, 12, 31, 23));
    assert_eq!(ts(2024, 5, 1, 0).previous_hour(), ts(2024, 4, 30, 23));
}
