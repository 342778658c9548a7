use std::collections::BTreeMap;

use metrical::codec::{DecodeError, Metric};
use metrical::engine::{add_metric, get_metrics, Query, QueryError};
use metrical::store::ScanItem;

type Store = BTreeMap<Vec<u8>, Vec<u8>>;

fn sample(name: &str, key: &str, timestamp: u64, value: f64) -> Metric {
    Metric {
        name: name.to_string(),
        key: key.to_string(),
        timestamp,
        value: value.to_string(),
    }
}

fn ingest(store: &mut Store, metric: &Metric) {
    let write = add_metric(metric);
    store.insert(write.key, write.value);
}

fn query(store: &Store, name: &str, key: &str) -> Result<Vec<Metric>, QueryError> {
    let mut q = Query::new(name, key);
    let from = q.start().to_vec();
    for (k, v) in store.range(from..) {
        q.accept(k, v);
        if !q.is_reading() {
            break;
        }
    }
    q.finish()
}

fn scan(store: &Store, name: &str, key: &str) -> Vec<ScanItem> {
    let from = Query::new(name, key).start().to_vec();
    store
        .range(from..)
        .map(|(k, v)| ScanItem::Entry { key: k.clone(), value: v.clone() })
        .collect()
}

fn values(samples: &[Metric]) -> Vec<(u64, f64)> {
    samples.iter().map(|m| (m.timestamp, m.value.parse::<f64>().unwrap())).collect()
}

#[test]
fn ingest_writes_the_encoded_pair() {
    let write = add_metric(&sample("cpu", "host1", 100, 0.5));
    assert_eq!(write.key, b"cpu:host1:100".to_vec());
    assert_eq!(write.value, b"0.5".to_vec());
}

#[test]
fn query_starts_at_the_prefix_of_the_series() {
    let q = Query::new("cpu", "host1");
    assert_eq!(q.start(), b"cpu:host1:");
    assert!(q.is_reading());
}

#[test]
fn end_to_end_two_samples_in_order() {
    let mut store = Store::new();
    ingest(&mut store, &sample("cpu", "host1", 100, 0.5));
    ingest(&mut store, &sample("cpu", "host1", 200, 0.7));
    let found = query(&store, "cpu", "host1").unwrap();
    assert_eq!(found, vec![sample("cpu", "host1", 100, 0.5), sample("cpu", "host1", 200, 0.7)]);
    assert_eq!(values(&found), vec![(100, 0.5), (200, 0.7)]);
}

#[test]
fn round_trip_returns_the_ingested_sample() {
    let mut store = Store::new();
    ingest(&mut store, &sample("mem", "host1", 1, 3.0));
    ingest(&mut store, &sample("cpu", "host0", 1, 4.0));
    let s = sample("cpu", "host1", 1234567890, 0.532);
    ingest(&mut store, &s);
    ingest(&mut store, &sample("cpu", "host2", 1, 5.0));
    let found = query(&store, "cpu", "host1").unwrap();
    assert!(found.contains(&s));
    assert_eq!(found, vec![s]);
}

#[test]
fn last_write_wins() {
    let mut store = Store::new();
    ingest(&mut store, &sample("cpu", "h1", 5, 1.0));
    ingest(&mut store, &sample("cpu", "h1", 5, 2.0));
    let found = query(&store, "cpu", "h1").unwrap();
    assert_eq!(found, vec![sample("cpu", "h1", 5, 2.0)]);
    assert!(!found.contains(&sample("cpu", "h1", 5, 1.0)));
}

#[test]
fn series_are_kept_apart() {
    let mut store = Store::new();
    for name in ["cpu", "cpu2", "cp", "mem"] {
        for key in ["h1", "h10", "h", "h2"] {
            for ts in [1u64, 2, 30] {
                ingest(&mut store, &sample(name, key, ts, ts as f64));
            }
        }
    }
    for name in ["cpu", "cpu2", "cp", "mem"] {
        for key in ["h1", "h10", "h", "h2"] {
            let found = query(&store, name, key).unwrap();
            assert_eq!(found.len(), 3);
            for m in &found {
                assert_eq!(m.name, name);
                assert_eq!(m.key, key);
            }
            assert_eq!(get_metrics(name, key, &scan(&store, name, key)), Ok(found));
        }
    }
}

#[test]
fn empty_result_is_no_error() {
    let mut store = Store::new();
    assert_eq!(query(&store, "cpu", "h1"), Ok(vec![]));
    ingest(&mut store, &sample("cpu", "h2", 1, 1.0));
    ingest(&mut store, &sample("mem", "h1", 1, 1.0));
    ingest(&mut store, &sample("cpu", "h11", 1, 1.0));
    assert_eq!(query(&store, "cpu", "h1"), Ok(vec![]));
    assert_eq!(query(&store, "zzz", "h1"), Ok(vec![]));
    assert_eq!(get_metrics("cpu", "h1", &Vec::new()), Ok(vec![]));
}

#[test]
fn scan_order_is_the_order_of_the_timestamp_text() {
    let mut store = Store::new();
    ingest(&mut store, &sample("cpu", "h1", 9, 1.0));
    ingest(&mut store, &sample("cpu", "h1", 10, 2.0));
    let found = query(&store, "cpu", "h1").unwrap();
    assert_eq!(values(&found), vec![(10, 2.0), (9, 1.0)]);
    let numeric: Vec<u64> = vec![9, 10];
    let returned: Vec<u64> = found.iter().map(|m| m.timestamp).collect();
    assert_ne!(returned, numeric);
}

#[test]
fn scan_order_matches_numbers_of_equal_length() {
    let mut store = Store::new();
    for ts in [300u64, 100, 200, 999, 101] {
        ingest(&mut store, &sample("cpu", "h1", ts, 0.0));
    }
    let found = query(&store, "cpu", "h1").unwrap();
    let returned: Vec<u64> = found.iter().map(|m| m.timestamp).collect();
    assert_eq!(returned, vec![100, 101, 200, 300, 999]);
}

#[test]
fn delimiter_in_a_series_key_fails_the_query() {
    let mut store = Store::new();
    ingest(&mut store, &sample("cpu", "h:1", 5, 1.0));
    assert_eq!(store.keys().next().unwrap(), &b"cpu:h:1:5".to_vec());
    assert_eq!(
        query(&store, "cpu", "h:1"),
        Err(QueryError::Decode { reason: DecodeError::FieldCount })
    );
    assert_eq!(
        query(&store, "cpu", "h"),
        Err(QueryError::Decode { reason: DecodeError::FieldCount })
    );
    assert_eq!(query(&store, "cpu", "1"), Ok(vec![]));
}

#[test]
fn one_bad_entry_fails_the_whole_query() {
    let mut store = Store::new();
    ingest(&mut store, &sample("cpu", "h1", 1, 1.0));
    ingest(&mut store, &sample("cpu", "h1", 3, 3.0));
    store.insert(b"cpu:h1:2".to_vec(), b"high".to_vec());
    assert_eq!(query(&store, "cpu", "h1"), Err(QueryError::Decode { reason: DecodeError::Value }));
    store.insert(b"cpu:h1:2".to_vec(), vec![0xff]);
    assert_eq!(
        query(&store, "cpu", "h1"),
        Err(QueryError::Decode { reason: DecodeError::ValueNotUtf8 })
    );
    store.remove(&b"cpu:h1:2".to_vec());
    store.insert(b"cpu:h1:x".to_vec(), b"1".to_vec());
    assert_eq!(
        query(&store, "cpu", "h1"),
        Err(QueryError::Decode { reason: DecodeError::Timestamp })
    );
    store.remove(&b"cpu:h1:x".to_vec());
    store.insert(vec![b'c', b'p', b'u', b':', b'h', b'1', b':', 0xff], b"1".to_vec());
    assert_eq!(
        query(&store, "cpu", "h1"),
        Err(QueryError::Decode { reason: DecodeError::KeyNotUtf8 })
    );
}

#[test]
fn bad_entry_of_another_series_is_not_read() {
    let mut store = Store::new();
    ingest(&mut store, &sample("cpu", "h1", 1, 1.0));
    store.insert(b"cpu:h2:1".to_vec(), b"high".to_vec());
    store.insert(b"cpu:h0:1".to_vec(), b"high".to_vec());
    assert_eq!(query(&store, "cpu", "h1"), Ok(vec![sample("cpu", "h1", 1, 1.0)]));
}

#[test]
fn read_failure_fails_the_query() {
    let mut q = Query::new("cpu", "h1");
    q.accept(b"cpu:h1:1", b"1");
    assert!(q.is_reading());
    q.reject("IO error: disk gone");
    assert!(!q.is_reading());
    q.accept(b"cpu:h1:2", b"2");
    assert_eq!(
        q.finish(),
        Err(QueryError::StoreRead { message: "IO error: disk gone".to_string() })
    );
}

#[test]
fn read_failure_behind_the_series_is_not_met() {
    let items = vec![
        ScanItem::Entry { key: b"cpu:h1:1".to_vec(), value: b"1".to_vec() },
        ScanItem::Entry { key: b"cpu:h2:1".to_vec(), value: b"1".to_vec() },
        ScanItem::Failure { message: "late".to_string() },
    ];
    assert_eq!(get_metrics("cpu", "h1", &items), Ok(vec![sample("cpu", "h1", 1, 1.0)]));
}

#[test]
fn read_failure_within_the_series_is_returned() {
    let items = vec![
        ScanItem::Entry { key: b"cpu:h1:1".to_vec(), value: b"1".to_vec() },
        ScanItem::Failure { message: "early".to_string() },
        ScanItem::Entry { key: b"cpu:h1:2".to_vec(), value: b"bad".to_vec() },
    ];
    assert_eq!(
        get_metrics("cpu", "h1", &items),
        Err(QueryError::StoreRead { message: "early".to_string() })
    );
}

#[test]
fn first_failure_decides() {
    let items = vec![
        ScanItem::Entry { key: b"cpu:h1:1".to_vec(), value: b"bad".to_vec() },
        ScanItem::Failure { message: "later".to_string() },
    ];
    assert_eq!(
        get_metrics("cpu", "h1", &items),
        Err(QueryError::Decode { reason: DecodeError::Value })
    );
}

#[test]
fn query_stops_at_the_first_key_of_another_series() {
    let mut q = Query::new("cpu", "h1");
    q.accept(b"cpu:h1:1", b"1");
    q.accept(b"cpu:h1:2", b"2");
    assert!(q.is_reading());
    q.accept(b"cpu:h2:1", b"3");
    assert!(!q.is_reading());
    q.accept(b"cpu:h1:3", b"4");
    q.reject("ignored");
    assert_eq!(
        q.finish(),
        Ok(vec![sample("cpu", "h1", 1, 1.0), sample("cpu", "h1", 2, 2.0)])
    );
}

#[test]
fn batch_and_stepwise_queries_agree() {
    let mut store = Store::new();
    for ts in [1u64, 20, 300, 4000] {
        ingest(&mut store, &sample("cpu", "h1", ts, ts as f64 / 8.0));
        ingest(&mut store, &sample("cpu", "h2", ts, 1.0));
    }
    store.insert(b"cpu:h2:5".to_vec(), b"?".to_vec());
    for key in ["h1", "h2", "h3"] {
        assert_eq!(get_metrics("cpu", key, &scan(&store, "cpu", key)), query(&store, "cpu", key));
    }
}
