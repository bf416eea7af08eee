use price_store::price::parse_price;
use price_store::snapshot::parse_snapshot;
use price_store::store::Db;
use price_store::timestamp::Timestamp;

fn toks(words: &[&str]) -> Vec<String> {
    words.iter().map(|w| w.to_string()).collect()
}

fn sorted(mut v: Vec<String>) -> Vec<String> {
    v.sort();
    v
}

#[test]
fn save_load_test() {
    let key = "1234".to_string();
    let mut database = Db::new();
    database.insert(key.clone(), parse_price("25").unwrap());
    let saved = database.snapshot();
    let orig_val = database.get(&key);

    let mut new_db = Db::new();
    new_db.restore(&saved).unwrap();
    let clone_val = new_db.get(&key);

    println!("Orig_val: {:?}, clone_val: {:?}", orig_val, clone_val);
    assert!(orig_val == clone_val);
}

#[test]
fn last_write_wins() {
    let mut db = Db::new();
    db.insert("2024-01-01 H00".to_string(), 1_000_000);
    db.insert("2024-01-01 H00".to_string(), 2_000_000);
    db.insert("2024-01-01 H01".to_string(), 9_000_000);
    assert_eq!(db.get("2024-01-01 H00"), Some(2_000_000));
    assert_eq!(db.get("2024-01-01 H01"), Some(9_000_000));
    assert_eq!(db.get("2024-01-01 H02"), None);
}

#[test]
fn handle_insert_uses_the_canonical_key() {
    let mut db = Db::new();
    let at = Timestamp::new(2024, 3, 1, 14).unwrap();
    db.handle_insert(42_000_000, at);
    assert_eq!(db.get("2024-03-01 H14"), Some(42_000_000));
}

#[test]
fn price_filter_keeps_only_passing_entries() {
    let mut db = Db::new();
    db.insert("2024-01-01 H00".to_string(), 3_000_000);
    db.insert("2024-01-01 H01".to_string(), 9_000_000);
    let got = db.list(&toks(&["where", "price", ">", "5"]));
    assert_eq!(got, vec!["2024-01-01 H01: 9".to_string()]);
}

#[test]
fn year_and_hour_filter() {
    let mut db = Db::new();
    db.insert("2023-02-10 H05".to_string(), 1_000_000);
    db.insert("2023-11-30 H09".to_string(), 8_000_000);
    db.insert("2023-06-15 H10".to_string(), 2_000_000);
    db.insert("2024-02-10 H05".to_string(), 3_000_000);
    let got = db.list(&toks(&["where", "year", "==", "2023", "hour", "<", "10"]));
    assert_eq!(
        sorted(got),
        vec!["2023-02-10 H05: 1".to_string(), "2023-11-30 H09: 8".to_string()]
    );
}

#[test]
fn unfiltered_list_returns_everything() {
    let mut db = Db::new();
    db.insert("2024-01-01 H00".to_string(), 3_500_000);
    db.insert("2024-01-01 H01".to_string(), 9_000_000);
    let got = db.list(&toks(&["list"]));
    assert_eq!(
        sorted(got),
        vec!["2024-01-01 H00: 3.5".to_string(), "2024-01-01 H01: 9".to_string()]
    );
}

#[test]
fn corrupt_keys_are_skipped_not_fatal() {
    let mut db = Db::new();
    db.insert("not a timestamp".to_string(), 1_000_000);
    db.insert("2024-01-01 H00".to_string(), 2_000_000);
    let got = db.list(&toks(&["where", "year", ">=", "0"]));
    assert_eq!(got, vec!["2024-01-01 H00: 2".to_string()]);
}

#[test]
fn current_price_prefers_the_current_hour() {
    let mut db = Db::new();
    db.insert("2024-03-01 H14".to_string(), 5_000_000);
    db.insert("2024-03-01 H13".to_string(), 4_000_000);
    let now = Timestamp::new(2024, 3, 1, 14).unwrap();
    assert_eq!(db.current_price(now), Some(5_000_000));
}

#[test]
fn current_price_falls_back_one_hour() {
    let mut db = Db::new();
    db.insert("2024-03-01 H13".to_string(), 4_000_000);
    let now = Timestamp::new(2024, 3, 1, 14).unwrap();
    assert_eq!(db.current_price(now), Some(4_000_000));
}

#[test]
fn current_price_reports_missing_data() {
    let mut db = Db::new();
    db.insert("2024-03-01 H11".to_string(), 4_000_000);
    let now = Timestamp::new(2024, 3, 1, 14).unwrap();
    assert_eq!(db.current_price(now), None);
    assert_eq!(Db::new().current_price(now), None);
}

#[test]
fn snapshot_renders_a_json_document() {
    let mut db = Db::new();
    assert_eq!(db.snapshot(), "{}");
    db.insert("2024-01-01 H00".to_string(), 3_500_000);
    assert_eq!(db.snapshot(), "{\"2024-01-01 H00\":3.5}");
}

#[test]
fn snapshot_restore_reproduces_the_contents() {
    let mut db = Db::new();
    db.insert("2024-01-01 H00".to_string(), 3_500_000);
    db.insert("2024-01-01 H01".to_string(), -1_000);
    db.insert("2024-01-02 H23".to_string(), 25_000_000);
    let text = db.snapshot();

    let mut fresh = Db::new();
    fresh.restore(&text).unwrap();
    let mut a = db.entries();
    let mut b = fresh.entries();
    a.sort();
    b.sort();
    assert_eq!(a, b);
}

#[test]
fn snapshot_escapes_odd_keys() {
    let mut db = Db::new();
    db.insert("a\"b\\c".to_string(), 1_000_000);
    let text = db.snapshot();
    assert_eq!(text, "{\"a\\\"b\\\\c\":1}");
    let mut fresh = Db::new();
    fresh.restore(&text).unwrap();
    assert_eq!(fresh.get("a\"b\\c"), Some(1_000_000));
}

#[test]
fn restore_rejects_corrupt_documents() {
    for bad in [
        "",
        "{",
        "}",
        "nonsense",
        "{\"a\":}",
        "{\"a\":1,}",
        "{\"a\"1}",
        "{\"a\":1}x",
        "{\"a\":one}",
        "{\"a\\x\":1}",
    ] {
        let mut db = Db::new();
        db.insert("2024-01-01 H00".to_string(), 7_000_000);
        assert!(db.restore(bad).is_err(), "accepted {:?}", bad);
        // the contents are untouched
        assert_eq!(db.get("2024-01-01 H00"), Some(7_000_000));
    }
}

#[test]
fn parse_snapshot_reads_entry_lists() {
    let got = parse_snapshot("{\"k\":1,\"m\":-2.5}").unwrap();
    assert_eq!(got, vec![("k".to_string(), 1_000_000i64), ("m".to_string(), -2_500_000i64)]);
    assert_eq!(parse_snapshot("{}").unwrap(), vec![]);
}
