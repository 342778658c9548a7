//! The key codec: how a sample becomes a key and a value of the store, and how
//! such a pair is read back.
//!
//! The key is the metric name, the series key and the timestamp as text, with a
//! delimiter behind each of the first two; the value is the text of the measured
//! value. The timestamp is written as its shortest decimal numeral, so keys of
//! one series are ordered by that text, byte by byte, and not by the number.

use vstd::prelude::*;
use vstd::slice::slice_subrange;
use vstd::string::*;
use vstd::utf8::*;
use crate::decimal::{
    decimal_text, is_digit, lemma_decimal_round_trip, lemma_decimal_text, parse_u64, parsed_u64,
    parses_as_u64, push_decimal,
};
use crate::layout::{
    append_bytes, delimiter_free, find_delimiter, has_three_fields, holds_delimiter, join_fields,
    join_prefix, lemma_join_then_split, lemma_marks, name_field, series_field, stamp_field,
    DELIMITER,
};
use crate::value_text::{denotes_value, is_value_text};

verus! {

/// One observation: what was measured, on which instance, when, and the value.
#[derive(Clone, Debug, PartialEq, Eq)]
pub struct Metric {
    /// The name of the metric.
    pub name: String,
    /// The series key, which tells the instances of one metric apart.
    pub key: String,
    /// When the value was measured, as the caller counts time.
    pub timestamp: u64,
    /// The measured value, as decimal text.
    pub value: String,
}

/// What a [`Metric`] stands for: its texts as sequences of characters.
pub struct MetricView {
    pub name: Seq<char>,
    pub key: Seq<char>,
    pub timestamp: u64,
    pub value: Seq<char>,
}

impl View for Metric {
    type V = MetricView;

    open spec fn view(&self) -> MetricView {
        MetricView {
            name: self.name@,
            key: self.key@,
            timestamp: self.timestamp,
            value: self.value@,
        }
    }
}

impl MetricView {
    /// The key under which the sample is stored.
    pub open spec fn key_bytes(self) -> Seq<u8> {
        key_bytes(self.name, self.key, self.timestamp)
    }

    /// The value that is stored under that key.
    pub open spec fn value_bytes(self) -> Seq<u8> {
        value_bytes(self.value)
    }

    /// True when the sample's value is the text of a value.
    pub open spec fn well_formed(self) -> bool {
        is_value_text(value_bytes(self.value))
    }

    /// True when neither the metric name nor the series key holds the delimiter
    /// character, so that the key tells its three fields apart.
    pub open spec fn unambiguous(self) -> bool {
        delimiter_free_text(self.name) && delimiter_free_text(self.key)
    }
}

impl Metric {
    /// Tells whether the sample's value is the text of a value.
    pub fn is_well_formed(&self) -> (r: bool)
        ensures
            r == self@.well_formed(),
    {
        denotes_value(self.value.as_str().as_bytes())
    }

    /// Tells whether the sample's key will tell its fields apart: whether neither
    /// the metric name nor the series key holds the delimiter.
    pub fn is_unambiguous(&self) -> (r: bool)
        ensures
            r == self@.unambiguous(),
    {
        proof {
            lemma_delimiter_free_text(self.name@);
            lemma_delimiter_free_text(self.key@);
        }
        !holds_delimiter(self.name.as_str().as_bytes()) && !holds_delimiter(
            self.key.as_str().as_bytes(),
        )
    }
}

/// Why a pair of the store could not be read back as a sample.
#[derive(Clone, Copy, Debug, PartialEq, Eq)]
pub enum DecodeError {
    /// The key is not valid UTF-8.
    KeyNotUtf8,
    /// The value is not valid UTF-8.
    ValueNotUtf8,
    /// The key does not split into exactly three fields.
    FieldCount,
    /// The third field of the key is no numeral of a 64-bit timestamp.
    Timestamp,
    /// The value is not the text of a value.
    Value,
}

/// The character `:`, which the delimiter byte is the encoding of.
pub const DELIMITER_CHAR: char = ':';

/// True when no character of `text` is the delimiter.
pub open spec fn delimiter_free_text(text: Seq<char>) -> bool {
    forall|i: int| 0 <= i < text.len() ==> #[trigger] text[i] != DELIMITER_CHAR
}

/// The bytes that the keys of one series start with.
pub open spec fn prefix_bytes(name: Seq<char>, key: Seq<char>) -> Seq<u8> {
    join_prefix(encode_utf8(name), encode_utf8(key))
}

/// The key of the sample of a series at a timestamp.
pub open spec fn key_bytes(name: Seq<char>, key: Seq<char>, timestamp: u64) -> Seq<u8> {
    join_fields(encode_utf8(name), encode_utf8(key), decimal_text(timestamp as nat))
}

/// The stored form of a value's text.
pub open spec fn value_bytes(value: Seq<char>) -> Seq<u8> {
    encode_utf8(value)
}

/// Why the pair cannot be read back, or `None` where it can. The reasons are
/// tried in this order, and the first that holds is given.
pub open spec fn decode_failure(key: Seq<u8>, value: Seq<u8>) -> Option<DecodeError> {
    if !valid_utf8(key) {
        Some(DecodeError::KeyNotUtf8)
    } else if !valid_utf8(value) {
        Some(DecodeError::ValueNotUtf8)
    } else if !has_three_fields(key) {
        Some(DecodeError::FieldCount)
    } else if !parses_as_u64(stamp_field(key)) {
        Some(DecodeError::Timestamp)
    } else if !is_value_text(value) {
        Some(DecodeError::Value)
    } else {
        None
    }
}

/// The sample that a pair is read back as.
pub open spec fn decoded(key: Seq<u8>, value: Seq<u8>) -> MetricView
    recommends
        decode_failure(key, value) is None,
{
    MetricView {
        name: decode_utf8(name_field(key)),
        key: decode_utf8(series_field(key)),
        timestamp: parsed_u64(stamp_field(key)),
        value: decode_utf8(value),
    }
}

/// The bytes that a character may be encoded with: only the single byte of a
/// character below 128 can be the delimiter, and it is the character's number.
proof fn lemma_scalar_bytes(s: u32)
    by (bit_vector)
    ensures
        s <= 0x7F ==> (s & 0x7F) as u8 == s,
        (0xC0u8 | ((s >> 6) & 0x1F) as u8) >= 0x80u8,
        (0xE0u8 | ((s >> 12) & 0x0F) as u8) >= 0x80u8,
        (0xF0u8 | ((s >> 18) & 0x7) as u8) >= 0x80u8,
        (0x80u8 | (s & 0x3F) as u8) >= 0x80u8,
        (0x80u8 | ((s >> 6) & 0x3F) as u8) >= 0x80u8,
        (0x80u8 | ((s >> 12) & 0x3F) as u8) >= 0x80u8,
{
}

/// A text holds the delimiter character exactly where its UTF-8 encoding holds
/// the delimiter byte.
pub proof fn lemma_delimiter_free_text(text: Seq<char>)
    ensures
        delimiter_free_text(text) <==> delimiter_free(encode_utf8(text)),
    decreases text.len(),
{
    if text.len() > 0 {
        let first = text[0] as u32;
        let head = encode_scalar(first);
        let rest = text.drop_first();
        let tail = encode_utf8(rest);
        let bytes = encode_utf8(text);
        lemma_delimiter_free_text(rest);
        lemma_scalar_bytes(first);
        assert(bytes == head + tail);
        assert(delimiter_free(head) <==> text[0] != DELIMITER_CHAR) by {
            char_is_scalar(text[0]);
            char_u32_cast(text[0], first);
            assert(DELIMITER_CHAR as u32 == 58u32);
            if has_width_1_encoding(first) {
                assert(head.len() == 1);
                assert(head[0] == first);
                if first != 58 {
                    assert forall|i: int| 0 <= i < head.len() implies #[trigger] head[i]
                        != DELIMITER by {
                        assert(i == 0);
                    }
                }
            } else if has_width_2_encoding(first) {
                assert(head.len() == 2);
                assert(head[0] >= 0x80 && head[1] >= 0x80);
            } else if has_width_3_encoding(first) {
                assert(head.len() == 3);
                assert(head[0] >= 0x80 && head[1] >= 0x80 && head[2] >= 0x80);
            } else {
                assert(head.len() == 4);
                assert(head[0] >= 0x80 && head[1] >= 0x80 && head[2] >= 0x80 && head[3] >= 0x80);
            }
        }
        if delimiter_free_text(text) {
            assert forall|i: int| 0 <= i < rest.len() implies #[trigger] rest[i]
                != DELIMITER_CHAR by {
                assert(rest[i] == text[i + 1]);
            }
            assert forall|i: int| 0 <= i < bytes.len() implies #[trigger] bytes[i]
                != DELIMITER by {
                if i < head.len() {
                    assert(bytes[i] == head[i]);
                } else {
                    assert(bytes[i] == tail[i - head.len()]);
                }
            }
        }
        if delimiter_free(bytes) {
            assert forall|i: int| 0 <= i < head.len() implies #[trigger] head[i] != DELIMITER by {
                assert(bytes[i] == head[i]);
            }
            assert forall|i: int| 0 <= i < tail.len() implies #[trigger] tail[i] != DELIMITER by {
                assert(bytes[i + head.len()] == tail[i]);
            }
            assert forall|i: int| 0 <= i < text.len() implies #[trigger] text[i]
                != DELIMITER_CHAR by {
                if i > 0 {
                    assert(rest[i - 1] == text[i]);
                }
            }
        }
    }
}

/// Bytes below 128 are valid UTF-8, one character each.
pub proof fn lemma_ascii_is_utf8(bytes: Seq<u8>)
    requires
        forall|i: int| 0 <= i < bytes.len() ==> #[trigger] bytes[i] < 128,
    ensures
        valid_utf8(bytes),
{
    assert(bytes.subrange(0, 0) =~= Seq::<u8>::empty());
    assert(partial_valid_utf8(bytes, 0));
    partial_valid_utf8_extend_ascii_block(bytes, 0, bytes.len() as int);
    assert(bytes.subrange(0, bytes.len() as int) =~= bytes);
}

/// In valid UTF-8 a delimiter is a character of its own: the text splits before
/// and behind it, and both sides are valid UTF-8.
pub proof fn lemma_delimiter_boundary(bytes: Seq<u8>, i: int)
    requires
        valid_utf8(bytes),
        0 <= i < bytes.len(),
        bytes[i] == DELIMITER,
    ensures
        is_char_boundary(bytes, i),
        is_char_boundary(bytes, i + 1),
        valid_utf8(bytes.subrange(0, i)),
        valid_utf8(bytes.subrange(i + 1, bytes.len() as int)),
{
    let n = bytes.len() as int;
    is_char_boundary_iff_not_is_continuation_byte(bytes, i);
    valid_utf8_split(bytes, i);
    let tail = bytes.subrange(i, n);
    assert(tail[0] == DELIMITER);
    assert(is_leading_byte_width_1(tail[0]));
    let rest = bytes.subrange(i + 1, n);
    assert(valid_utf8(tail));
    assert(valid_first_scalar(tail) && valid_utf8(pop_first_scalar(tail)));
    assert(length_of_first_scalar(tail) == 1);
    assert(pop_first_scalar(tail) =~= rest);
    assert(valid_utf8(rest));
    if i + 1 < n {
        assert(valid_first_scalar(rest));
        assert(rest[0] == bytes[i + 1]);
        is_char_boundary_iff_not_is_continuation_byte(bytes, i + 1);
    } else {
        is_char_boundary_start_end_of_seq(bytes);
    }
}

/// A key built from texts is valid UTF-8.
pub proof fn lemma_key_is_utf8(name: Seq<char>, key: Seq<char>, timestamp: u64)
    ensures
        valid_utf8(prefix_bytes(name, key)),
        valid_utf8(key_bytes(name, key, timestamp)),
{
    let mark = seq![DELIMITER];
    let stamp = decimal_text(timestamp as nat);
    lemma_ascii_is_utf8(mark);
    lemma_decimal_text(timestamp as nat);
    assert forall|i: int| 0 <= i < stamp.len() implies #[trigger] stamp[i] < 128 by {
        assert(is_digit(stamp[i]));
    }
    lemma_ascii_is_utf8(stamp);
    encode_utf8_valid_utf8(name);
    encode_utf8_valid_utf8(key);
    valid_utf8_concat(encode_utf8(name), mark);
    valid_utf8_concat(encode_utf8(key), mark);
    assert(encode_utf8(name).push(DELIMITER) =~= encode_utf8(name) + mark);
    assert(encode_utf8(key).push(DELIMITER) =~= encode_utf8(key) + mark);
    valid_utf8_concat(encode_utf8(name).push(DELIMITER), encode_utf8(key).push(DELIMITER));
    valid_utf8_concat(prefix_bytes(name, key), stamp);
}

/// Round trip: a well-formed sample whose metric name and series key hold no
/// delimiter is read back from its key and value as it was.
pub proof fn lemma_decode_of_encode(m: MetricView)
    requires
        m.well_formed(),
        m.unambiguous(),
    ensures
        decode_failure(m.key_bytes(), m.value_bytes()) is None,
        decoded(m.key_bytes(), m.value_bytes()) == m,
{
    let stamp = decimal_text(m.timestamp as nat);
    lemma_decimal_text(m.timestamp as nat);
    lemma_decimal_round_trip(m.timestamp);
    assert(delimiter_free(stamp)) by {
        assert forall|i: int| 0 <= i < stamp.len() implies #[trigger] stamp[i] != DELIMITER by {
            assert(is_digit(stamp[i]));
        }
    }
    lemma_delimiter_free_text(m.name);
    lemma_delimiter_free_text(m.key);
    lemma_join_then_split(encode_utf8(m.name), encode_utf8(m.key), stamp);
    lemma_key_is_utf8(m.name, m.key, m.timestamp);
    encode_utf8_valid_utf8(m.value);
    encode_utf8_decode_utf8(m.name);
    encode_utf8_decode_utf8(m.key);
    encode_utf8_decode_utf8(m.value);
}

/// `std::str::from_utf8`: the bytes as text, where they are valid UTF-8, and
/// `None` where they are not. The text is the same bytes, seen as characters.
#[verifier::external_body]
fn text_of<'a>(bytes: &'a [u8]) -> (r: Option<&'a str>)
    ensures
        r is Some <==> valid_utf8(bytes@),
        r matches Some(s) ==> s.spec_bytes() == bytes@,
{
    std::str::from_utf8(bytes).ok()
}

/// The bytes that the keys of the series `(name, key)` start with, and no key of
/// another series whose names hold no delimiter.
pub fn encode_prefix(name: &str, key: &str) -> (prefix: Vec<u8>)
    ensures
        prefix@ == prefix_bytes(name@, key@),
{
    let mut prefix: Vec<u8> = Vec::new();
    append_bytes(&mut prefix, name.as_bytes());
    prefix.push(DELIMITER);
    append_bytes(&mut prefix, key.as_bytes());
    prefix.push(DELIMITER);
    assert(prefix@ =~= prefix_bytes(name@, key@));
    prefix
}

/// The key of the sample of the series `(name, key)` at `timestamp`.
pub fn encode_key(name: &str, key: &str, timestamp: u64) -> (bytes: Vec<u8>)
    ensures
        bytes@ == key_bytes(name@, key@, timestamp),
{
    let mut bytes: Vec<u8> = encode_prefix(name, key);
    push_decimal(&mut bytes, timestamp);
    bytes
}

/// The stored form of the text of a value.
pub fn encode_value(value: &str) -> (bytes: Vec<u8>)
    ensures
        bytes@ == value_bytes(value@),
{
    let mut bytes: Vec<u8> = Vec::new();
    append_bytes(&mut bytes, value.as_bytes());
    assert(bytes@ =~= value_bytes(value@));
    bytes
}

/// The key and the value under which `metric` is stored. Nothing is refused: an
/// empty name, a name with a delimiter and a value that is no value's text are
/// written as they are.
pub fn encode(metric: &Metric) -> (pair: (Vec<u8>, Vec<u8>))
    ensures
        pair.0@ == metric@.key_bytes(),
        pair.1@ == metric@.value_bytes(),
{
    let key: Vec<u8> = encode_key(metric.name.as_str(), metric.key.as_str(), metric.timestamp);
    let value: Vec<u8> = encode_value(metric.value.as_str());
    (key, value)
}

/// Reads a pair of the store back as a sample.
///
/// Fails where the key or the value is not valid UTF-8, where the key does not
/// split on the delimiter into exactly three fields, where its third field is no
/// numeral of a timestamp, and where the value is not the text of a value.
pub fn decode(key: &[u8], value: &[u8]) -> (r: Result<Metric, DecodeError>)
    ensures
        match r {
            Ok(m) => decode_failure(key@, value@) is None && m@ == decoded(key@, value@),
            Err(e) => decode_failure(key@, value@) == Some(e),
        },
{
    let key_text: &str = match text_of(key) {
        Some(t) => t,
        None => {
            return Err(DecodeError::KeyNotUtf8);
        },
    };
    let value_text: &str = match text_of(value) {
        Some(t) => t,
        None => {
            return Err(DecodeError::ValueNotUtf8);
        },
    };
    let n: usize = key.len();
    let m1: usize = find_delimiter(key, 0);
    if m1 >= n {
        return Err(DecodeError::FieldCount);
    }
    let m2: usize = find_delimiter(key, m1 + 1);
    if m2 >= n {
        return Err(DecodeError::FieldCount);
    }
    if find_delimiter(key, m2 + 1) < n {
        return Err(DecodeError::FieldCount);
    }
    let timestamp: u64 = match parse_u64(slice_subrange(key, m2 + 1, n)) {
        Some(t) => t,
        None => {
            return Err(DecodeError::Timestamp);
        },
    };
    if !denotes_value(value) {
        return Err(DecodeError::Value);
    }
    proof {
        lemma_marks(key@);
        lemma_delimiter_boundary(key@, m1 as int);
        lemma_delimiter_boundary(key@, m2 as int);
        assert(key@.subrange(0, m2 as int)[m1 as int] == DELIMITER);
        lemma_delimiter_boundary(key@.subrange(0, m2 as int), m1 as int);
    }
    let front = key_text.split_at(m2).0;
    let name = key_text.split_at(m1).0;
    let series = front.split_at(m1 + 1).1;
    proof {
        assert(name.spec_bytes() =~= name_field(key@));
        assert(series.spec_bytes() =~= series_field(key@));
        encode_utf8_decode_utf8(name@);
        encode_utf8_decode_utf8(series@);
        encode_utf8_decode_utf8(value_text@);
    }
    Ok(Metric { name: name.to_owned(), key: series.to_owned(), timestamp, value: value_text.to_owned() })
}

} // verus!
