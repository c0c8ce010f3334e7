use std::collections::HashMap;

use l3replay::historical::{
    best_snapshot_per_product, chunk_filename, matches_snapshot_name, snapshot_pattern,
    str_lex_le, UtcTime,
};

fn at(year: u64, month: u64, day: u64, hour: u64) -> UtcTime {
    UtcTime {
        year,
        month,
        day,
        hour,
        minute: 0,
        second: 0,
    }
}

fn archive() -> Vec<String> {
    vec![
        "data/BTC-USD_20180225_170132.json.gz".to_string(),
        "data/BTC-USD_20180225_170017.json.gz".to_string(),
        "data/BTC-USD_20170225_170000.json.gz".to_string(),
        "data/BTC-EUR_20180225_170000.json.gz".to_string(),
    ]
}

fn as_map(entries: Vec<(String, String)>) -> HashMap<String, String> {
    entries.into_iter().collect()
}

#[test]
fn get_best_snapshot() {
    let files = archive();

    let result = as_map(best_snapshot_per_product(&at(2018, 2, 25, 17), &files));
    let mut expected = HashMap::new();
    expected.insert(
        "BTC-USD".to_string(),
        "data/BTC-USD_20180225_170017.json.gz".to_string(),
    );
    expected.insert(
        "BTC-EUR".to_string(),
        "data/BTC-EUR_20180225_170000.json.gz".to_string(),
    );
    assert_eq!(expected, result);

    let result = as_map(best_snapshot_per_product(&at(2017, 2, 25, 17), &files));
    let mut expected = HashMap::new();
    expected.insert(
        "BTC-USD".to_string(),
        "data/BTC-USD_20170225_170000.json.gz".to_string(),
    );
    assert_eq!(expected, result);

    let result = as_map(best_snapshot_per_product(&at(2017, 2, 25, 18), &files));
    assert_eq!(HashMap::new(), result);
}

#[test]
fn chunk_filename_format() {
    assert_eq!(
        "data/ws_20180225_170000.txt.gz",
        chunk_filename(&at(2018, 2, 25, 17))
    );
    assert_eq!(
        "data/ws_20090101_000000.txt.gz",
        chunk_filename(&at(2009, 1, 1, 0))
    );
}

#[test]
fn snapshot_pattern_format() {
    assert_eq!(
        "data/???-???_20180225_17????.json.gz",
        snapshot_pattern(&at(2018, 2, 25, 17))
    );
}

#[test]
fn snapshot_name_matching() {
    let t = at(2018, 2, 25, 17);
    assert!(matches_snapshot_name(&t, "data/BTC-USD_20180225_170017.json.gz"));
    assert!(matches_snapshot_name(&t, "data/ETH-EUR_20180225_175959.json.gz"));
    // wrong hour
    assert!(!matches_snapshot_name(&t, "data/BTC-USD_20180225_180017.json.gz"));
    // wrong day
    assert!(!matches_snapshot_name(&t, "data/BTC-USD_20180224_170017.json.gz"));
    // wrong length
    assert!(!matches_snapshot_name(&t, "data/BTC-USD_20180225_170017.json"));
    // separator where the pattern has a wildcard
    assert!(!matches_snapshot_name(&t, "data/BT/-USD_20180225_170017.json.gz"));
    // wrong suffix
    assert!(!matches_snapshot_name(&t, "data/BTC-USD_20180225_170017.json.xz"));
    // missing dash in the product
    assert!(!matches_snapshot_name(&t, "data/BTC.USD_20180225_170017.json.gz"));
}

#[test]
fn lexicographic_order_on_names() {
    assert!(str_lex_le("data/a", "data/b"));
    assert!(!str_lex_le("data/b", "data/a"));
    assert!(str_lex_le("data", "data/a"));
    assert!(str_lex_le("abc", "abc"));
    assert!(str_lex_le(
        "data/BTC-USD_20180225_170017.json.gz",
        "data/BTC-USD_20180225_170132.json.gz"
    ));
}
