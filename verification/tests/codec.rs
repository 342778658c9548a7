use metrical::codec::{
    decode, encode, encode_key, encode_prefix, encode_value, DecodeError, Metric,
};
use metrical::decimal::{parse_u64, render_u64};
use metrical::layout::{find_delimiter, has_prefix, holds_delimiter};
use metrical::value_text::denotes_value;

fn sample(name: &str, key: &str, timestamp: u64, value: &str) -> Metric {
    Metric {
        name: name.to_string(),
        key: key.to_string(),
        timestamp,
        value: value.to_string(),
    }
}

fn words(alphabet: &[u8], max_len: usize) -> Vec<Vec<u8>> {
    let mut all: Vec<Vec<u8>> = vec![Vec::new()];
    let mut last: Vec<Vec<u8>> = vec![Vec::new()];
    for _ in 0..max_len {
        let mut next: Vec<Vec<u8>> = Vec::new();
        for w in &last {
            for &b in alphabet {
                let mut longer = w.clone();
                longer.push(b);
                next.push(longer);
            }
        }
        all.extend(next.iter().cloned());
        last = next;
    }
    all
}

#[test]
fn key_is_the_three_fields_with_delimiters() {
    assert_eq!(encode_key("cpu", "host1", 100), b"cpu:host1:100".to_vec());
    assert_eq!(encode_key("cpu", "h1", 0), b"cpu:h1:0".to_vec());
    assert_eq!(
        encode_key("connected_to_db", "database-server1", 1234567890),
        b"connected_to_db:database-server1:1234567890".to_vec()
    );
}

#[test]
fn key_holds_the_timestamp_without_padding() {
    assert_eq!(encode_key("m", "k", 9), b"m:k:9".to_vec());
    assert_eq!(encode_key("m", "k", 10), b"m:k:10".to_vec());
    assert_eq!(
        encode_key("m", "k", u64::MAX),
        b"m:k:18446744073709551615".to_vec()
    );
}

#[test]
fn key_of_text_beyond_ascii_is_its_utf8() {
    assert_eq!(
        encode_key("température", "hôte", 7),
        "température:hôte:7".as_bytes().to_vec()
    );
}

#[test]
fn prefix_ends_with_the_delimiter() {
    assert_eq!(encode_prefix("cpu", "host1"), b"cpu:host1:".to_vec());
    assert_eq!(encode_prefix("", ""), b"::".to_vec());
}

#[test]
fn key_starts_with_the_prefix_of_its_series() {
    let key = encode_key("cpu", "host1", 42);
    let prefix = encode_prefix("cpu", "host1");
    assert!(has_prefix(&key, &prefix));
    assert!(!has_prefix(&key, &encode_prefix("cpu", "host")));
    assert!(!has_prefix(&prefix, &key));
    assert!(has_prefix(&key, &[]));
}

#[test]
fn value_is_its_text() {
    assert_eq!(encode_value("0.532"), b"0.532".to_vec());
    assert_eq!(encode_value(&0.5f64.to_string()), b"0.5".to_vec());
    assert_eq!(encode_value(&1f64.to_string()), b"1".to_vec());
    assert_eq!(encode_value(&f64::NAN.to_string()), b"NaN".to_vec());
    assert_eq!(encode_value(&f64::INFINITY.to_string()), b"inf".to_vec());
}

#[test]
fn encode_gives_key_and_value() {
    let pair = encode(&sample("cpu", "backend-server1", 1234567890, "0.532"));
    assert_eq!(pair.0, b"cpu:backend-server1:1234567890".to_vec());
    assert_eq!(pair.1, b"0.532".to_vec());
}

#[test]
fn encode_accepts_what_it_is_given() {
    let pair = encode(&sample("", "a:b", 1, "not a number"));
    assert_eq!(pair.0, b":a:b:1".to_vec());
    assert_eq!(pair.1, b"not a number".to_vec());
}

#[test]
fn decode_reads_back_what_encode_wrote() {
    let m = sample("cpu", "host1", 100, "0.5");
    let pair = encode(&m);
    assert_eq!(decode(&pair.0, &pair.1), Ok(m));
}

#[test]
fn decode_round_trip_of_many_samples() {
    let names = ["cpu", "", "mémoire", "a b", "x/y", "9"];
    let stamps = [0u64, 1, 9, 10, 99, 100, 1234567890, u64::MAX];
    let values = [0.0f64, -0.0, 1.0, 0.532, -17.25, 1e300, 1e-300, f64::INFINITY, f64::NEG_INFINITY];
    for name in names {
        for key in names {
            for ts in stamps {
                for v in values {
                    let m = sample(name, key, ts, &v.to_string());
                    assert!(m.is_well_formed());
                    assert!(m.is_unambiguous());
                    let pair = encode(&m);
                    let back = decode(&pair.0, &pair.1).unwrap();
                    assert_eq!(back, m);
                    assert_eq!(back.value.parse::<f64>().unwrap().to_bits(), v.to_bits());
                }
            }
        }
    }
}

#[test]
fn decode_keeps_the_text_of_a_value() {
    let m = decode(b"cpu:h1:5", b"+1.50E3").unwrap();
    assert_eq!(m.value, "+1.50E3");
    assert_eq!(m.value.parse::<f64>(), Ok(1500.0));
    let n = decode(b"cpu:h1:5", b"NaN").unwrap();
    assert!(n.value.parse::<f64>().unwrap().is_nan());
}

#[test]
fn decode_reads_a_lenient_timestamp() {
    assert_eq!(decode(b"cpu:h1:007", b"1").unwrap().timestamp, 7);
    assert_eq!(decode(b"cpu:h1:+7", b"1").unwrap().timestamp, 7);
}

#[test]
fn decode_reads_empty_names() {
    assert_eq!(decode(b"::5", b"1"), Ok(sample("", "", 5, "1")));
}

#[test]
fn decode_refuses_a_key_that_is_not_utf8() {
    assert_eq!(decode(&[0xff, b':', b'a', b':', b'1'], b"1"), Err(DecodeError::KeyNotUtf8));
    assert_eq!(decode(&[b'a', b':', 0xc3, b':', b'1'], b"1"), Err(DecodeError::KeyNotUtf8));
    assert_eq!(decode(&[0xc3], &[0xff]), Err(DecodeError::KeyNotUtf8));
}

#[test]
fn decode_refuses_a_value_that_is_not_utf8() {
    assert_eq!(decode(b"cpu:h1:5", &[0xff]), Err(DecodeError::ValueNotUtf8));
    assert_eq!(decode(b"no fields", &[0x80]), Err(DecodeError::ValueNotUtf8));
}

#[test]
fn decode_refuses_fewer_than_three_fields() {
    assert_eq!(decode(b"", b"1"), Err(DecodeError::FieldCount));
    assert_eq!(decode(b"cpu", b"1"), Err(DecodeError::FieldCount));
    assert_eq!(decode(b"cpu:h1", b"1"), Err(DecodeError::FieldCount));
    assert_eq!(decode(b"cpu:", b"x"), Err(DecodeError::FieldCount));
}

#[test]
fn decode_refuses_more_than_three_fields() {
    assert_eq!(decode(b"cpu:h1:5:6", b"1"), Err(DecodeError::FieldCount));
    assert_eq!(decode(b"cpu:h:1:5", b"1"), Err(DecodeError::FieldCount));
    assert_eq!(decode(b"cpu:h1:5:", b"1"), Err(DecodeError::FieldCount));
    assert_eq!(decode(b":::", b"1"), Err(DecodeError::FieldCount));
}

#[test]
fn decode_refuses_a_bad_timestamp() {
    assert_eq!(decode(b"cpu:h1:", b"1"), Err(DecodeError::Timestamp));
    assert_eq!(decode(b"cpu:h1:abc", b"1"), Err(DecodeError::Timestamp));
    assert_eq!(decode(b"cpu:h1:-5", b"1"), Err(DecodeError::Timestamp));
    assert_eq!(decode(b"cpu:h1: 5", b"1"), Err(DecodeError::Timestamp));
    assert_eq!(decode(b"cpu:h1:1.5", b"1"), Err(DecodeError::Timestamp));
    assert_eq!(decode(b"cpu:h1:18446744073709551616", b"1"), Err(DecodeError::Timestamp));
    assert_eq!(decode(b"cpu:h1:+", b"1"), Err(DecodeError::Timestamp));
}

#[test]
fn decode_refuses_a_bad_value() {
    assert_eq!(decode(b"cpu:h1:5", b""), Err(DecodeError::Value));
    assert_eq!(decode(b"cpu:h1:5", b"abc"), Err(DecodeError::Value));
    assert_eq!(decode(b"cpu:h1:5", b"1,5"), Err(DecodeError::Value));
    assert_eq!(decode(b"cpu:h1:5", b" 1"), Err(DecodeError::Value));
    assert_eq!(decode(b"cpu:h1:5", "½".as_bytes()), Err(DecodeError::Value));
}

#[test]
fn decode_gives_the_first_reason_that_holds() {
    assert_eq!(decode(b"cpu:h1:x", b"y"), Err(DecodeError::Timestamp));
    assert_eq!(decode(b"cpu", b"y"), Err(DecodeError::FieldCount));
    assert_eq!(decode(&[0xff], &[0xff]), Err(DecodeError::KeyNotUtf8));
    assert_eq!(decode(b"cpu:h1:x", &[0xff]), Err(DecodeError::ValueNotUtf8));
}

#[test]
fn decode_agrees_with_splitting_the_text() {
    for key in words(b":a1", 6) {
        let text = std::str::from_utf8(&key).unwrap();
        let parts: Vec<&str> = text.split(':').collect();
        let expected = if parts.len() != 3 {
            Err(DecodeError::FieldCount)
        } else {
            match parts[2].parse::<u64>() {
                Ok(ts) => Ok(sample(parts[0], parts[1], ts, "1")),
                Err(_) => Err(DecodeError::Timestamp),
            }
        };
        assert_eq!(decode(&key, b"1"), expected);
    }
}

#[test]
fn delimiter_is_found_where_it_stands() {
    assert_eq!(find_delimiter(b"cpu:h1:5", 0), 3);
    assert_eq!(find_delimiter(b"cpu:h1:5", 3), 3);
    assert_eq!(find_delimiter(b"cpu:h1:5", 4), 6);
    assert_eq!(find_delimiter(b"cpu:h1:5", 7), 8);
    assert_eq!(find_delimiter(b"", 0), 0);
    assert!(holds_delimiter(b"a:b"));
    assert!(!holds_delimiter(b"ab"));
    assert!(!holds_delimiter(b""));
}

#[test]
fn sample_with_a_delimiter_in_a_name_is_ambiguous() {
    assert!(!sample("cpu", "h:1", 5, "1").is_unambiguous());
    assert!(!sample("c:pu", "h1", 5, "1").is_unambiguous());
    assert!(sample("cpu", "h1", 5, "1").is_unambiguous());
    assert!(sample("", "", 5, "1").is_unambiguous());
}

#[test]
fn sample_is_well_formed_when_its_value_is_a_value() {
    assert!(sample("cpu", "h1", 5, "0.5").is_well_formed());
    assert!(sample("cpu", "h1", 5, "1").is_well_formed());
    assert!(!sample("cpu", "h1", 5, "").is_well_formed());
    assert!(!sample("cpu", "h1", 5, "high").is_well_formed());
}

#[test]
fn numeral_is_the_shortest() {
    assert_eq!(render_u64(0), b"0".to_vec());
    assert_eq!(render_u64(7), b"7".to_vec());
    assert_eq!(render_u64(10), b"10".to_vec());
    assert_eq!(render_u64(1234567890), b"1234567890".to_vec());
    assert_eq!(render_u64(u64::MAX), b"18446744073709551615".to_vec());
}

#[test]
fn numeral_agrees_with_the_standard_text() {
    let mut n: u64 = 0;
    for step in 0..2000u64 {
        assert_eq!(render_u64(n), n.to_string().into_bytes());
        assert_eq!(parse_u64(&render_u64(n)), Some(n));
        n = n.wrapping_mul(6364136223846793005).wrapping_add(1442695040888963407 + step);
    }
}

#[test]
fn numeral_is_read_at_the_limits() {
    assert_eq!(parse_u64(b"0"), Some(0));
    assert_eq!(parse_u64(b"18446744073709551615"), Some(u64::MAX));
    assert_eq!(parse_u64(b"+18446744073709551615"), Some(u64::MAX));
    assert_eq!(parse_u64(b"18446744073709551616"), None);
    assert_eq!(parse_u64(b"18446744073709551620"), None);
    assert_eq!(parse_u64(b"99999999999999999999"), None);
    assert_eq!(parse_u64(b"100000000000000000000"), None);
    assert_eq!(parse_u64(b"000000000000000000000000000042"), Some(42));
    assert_eq!(parse_u64(b""), None);
    assert_eq!(parse_u64(b"+"), None);
    assert_eq!(parse_u64(b"++1"), None);
    assert_eq!(parse_u64(b"-1"), None);
    assert_eq!(parse_u64(b"-0"), None);
    assert_eq!(parse_u64(b"1 "), None);
    assert_eq!(parse_u64(b"1_000"), None);
    assert_eq!(parse_u64(b"0x10"), None);
}

#[test]
fn numeral_reading_agrees_with_the_standard_parser() {
    for w in words(b"+-019 a", 5) {
        let text = std::str::from_utf8(&w).unwrap();
        assert_eq!(parse_u64(&w), text.parse::<u64>().ok(), "{:?}", text);
    }
    for text in [
        "18446744073709551615",
        "18446744073709551616",
        "18446744073709551614",
        "+18446744073709551615",
        "+18446744073709551616",
        "28446744073709551615",
        "184467440737095516150",
        "018446744073709551615",
    ] {
        assert_eq!(parse_u64(text.as_bytes()), text.parse::<u64>().ok(), "{:?}", text);
    }
}

#[test]
fn value_text_follows_the_grammar() {
    for good in [
        "0", "1", "0.5", "5.", ".5", "+1", "-1", "1e5", "1E5", "1e+5", "1e-5", "1.e5", ".5e5",
        "1.5e10", "inf", "+inf", "-inf", "INF", "Inf", "infinity", "Infinity", "INFINITY",
        "-infinity", "nan", "NaN", "NAN", "-nan", "+NaN", "00012", "1e0005", "0.0000001",
        "100000000000000000000000000000000000000000000", "1e99999999999",
    ] {
        assert!(denotes_value(good.as_bytes()), "{:?}", good);
    }
    for bad in [
        "", "+", "-", ".", "+.", "e", "e5", "1e", "1e+", "1e-", ".e5", "1e5.5", "1.5.5", "1 ",
        " 1", "1_0", "0x10", "infinit", "infinityy", "in", "na", "nanx", "i", "--1", "+-1",
        "1e++5", "1,5", "1f", "１",
    ] {
        assert!(!denotes_value(bad.as_bytes()), "{:?}", bad);
    }
}

#[test]
fn value_text_agrees_with_the_standard_parser() {
    for w in words(b"+-.eE05inN ", 5) {
        let text = std::str::from_utf8(&w).unwrap();
        assert_eq!(denotes_value(&w), text.parse::<f64>().is_ok(), "{:?}", text);
    }
    for w in words(b"iInNfFtTyYaA+", 3) {
        let text = std::str::from_utf8(&w).unwrap();
        assert_eq!(denotes_value(&w), text.parse::<f64>().is_ok(), "{:?}", text);
    }
    for text in [
        "infinity", "Infinity", "INFINITY", "+infinity", "-InFiNiTy", "infinitY", "infinit",
        "infinityy", "infinite", "1nfinity", "1e400", "-1e-400", "1.7976931348623157e308",
        "4.9e-324", "123456789012345678901234567890.123456789012345678901234567890e-10",
    ] {
        assert_eq!(denotes_value(text.as_bytes()), text.parse::<f64>().is_ok(), "{:?}", text);
    }
}

#[test]
fn value_text_takes_every_value_as_written_out() {
    let mut bits: u64 = 1;
    for step in 0..5000u64 {
        let v = f64::from_bits(bits);
        assert!(denotes_value(v.to_string().as_bytes()), "{:?}", v);
        bits = bits.wrapping_mul(6364136223846793005).wrapping_add(1442695040888963407 + step);
    }
}
