//! What holds of ingesting and querying together.
//!
//! Each law speaks of the contents of a store, of what ingesting does to them,
//! and of any scan that the store may answer a query's read with.

use vstd::prelude::*;
use vstd::utf8::{encode_utf8, encode_utf8_decode_utf8, encode_utf8_valid_utf8};
use crate::codec::{
    decode_failure, delimiter_free_text, key_bytes, lemma_decode_of_encode,
    lemma_delimiter_free_text, lemma_key_is_utf8, prefix_bytes, DecodeError, MetricView,
};
use crate::decimal::decimal_text;
use crate::engine::{
    lemma_outcome_is_of_series, lemma_run_end, lemma_taken_is_of_series, query_outcome, run_end,
    step_of, taken, QueryErrorView, Step,
};
use crate::layout::{has_three_fields, lemma_fields_under_prefix, starts_with};
use crate::store::{
    bytes_lt, holds_sample, ingest, ingested_only, is_scan, lemma_bytes_lt_behind_prefix,
    lemma_ingest_keeps_ingested_only, lemma_prefixed_keys_adjoin, series_is_empty, Contents,
    ScanItemView,
};

verus! {

/// The key of a sample starts with the prefix of its series.
pub proof fn lemma_key_under_prefix(name: Seq<char>, key: Seq<char>, timestamp: u64)
    ensures
        starts_with(key_bytes(name, key, timestamp), prefix_bytes(name, key)),
{
    let prefix = prefix_bytes(name, key);
    assert(key_bytes(name, key, timestamp).subrange(0, prefix.len() as int) =~= prefix);
}

/// In a scan that starts at a prefix, the entries whose keys start with it come
/// first: every item before such an entry is one too.
pub proof fn lemma_series_leads(
    items: Seq<ScanItemView>,
    contents: Contents,
    prefix: Seq<u8>,
    j: int,
    i: int,
)
    requires
        is_scan(items, contents, prefix),
        0 <= j <= i < items.len(),
        starts_with(items[i]->key, prefix),
    ensures
        starts_with(items[j]->key, prefix),
{
    if j < i {
        lemma_prefixed_keys_adjoin(prefix, items[j]->key, items[i]->key);
    }
}

/// No key that starts with the prefix of a series whose names hold a delimiter
/// has three fields.
pub proof fn lemma_ambiguous_prefix(name: Seq<char>, key: Seq<char>, k: Seq<u8>)
    requires
        !(delimiter_free_text(name) && delimiter_free_text(key)),
        starts_with(k, prefix_bytes(name, key)),
    ensures
        !has_three_fields(k),
{
    lemma_delimiter_free_text(name);
    lemma_delimiter_free_text(key);
    if has_three_fields(k) {
        lemma_fields_under_prefix(k, encode_utf8(name), encode_utf8(key));
    }
}

/// Over a store that holds only what was ingested, the run of samples that a
/// query reads ends with the series: at the end of the scan or at an entry of
/// another series, never at a failure.
pub proof fn lemma_run_ends_well(contents: Contents, prefix: Seq<u8>, items: Seq<ScanItemView>)
    requires
        ingested_only(contents),
        is_scan(items, contents, prefix),
    ensures
        0 <= run_end(prefix, items, 0) <= items.len(),
        query_outcome(prefix, items) == Ok::<Seq<MetricView>, QueryErrorView>(
            taken(prefix, items, run_end(prefix, items, 0)),
        ),
{
    let n = run_end(prefix, items, 0);
    lemma_run_end(prefix, items, 0);
    if n < items.len() {
        assert(items[n] is Entry);
        assert(contents.contains_key(items[n]->key));
    }
}

/// Over a store that holds only what was ingested, the sample that a query reads
/// at a position of the scan is a sample that the store holds.
pub proof fn lemma_taken_is_held(
    contents: Contents,
    prefix: Seq<u8>,
    items: Seq<ScanItemView>,
    i: int,
)
    requires
        ingested_only(contents),
        is_scan(items, contents, prefix),
        0 <= i < run_end(prefix, items, 0),
    ensures
        holds_sample(contents, taken(prefix, items, run_end(prefix, items, 0))[i]),
        taken(prefix, items, run_end(prefix, items, 0))[i].key_bytes() == items[i]->key,
{
    lemma_run_end(prefix, items, 0);
    assert(step_of(prefix, items[i]) is Take);
    assert(items[i] is Entry);
    assert(contents.contains_key(items[i]->key));
}

/// A sample of a series that the store holds is among the samples that a query of
/// the series reads from a scan of the store.
pub proof fn lemma_held_is_taken(
    contents: Contents,
    sample: MetricView,
    items: Seq<ScanItemView>,
) -> (i: int)
    requires
        holds_sample(contents, sample),
        is_scan(items, contents, prefix_bytes(sample.name, sample.key)),
        query_outcome(prefix_bytes(sample.name, sample.key), items) is Ok,
    ensures
        0 <= i < run_end(prefix_bytes(sample.name, sample.key), items, 0),
        taken(
            prefix_bytes(sample.name, sample.key),
            items,
            run_end(prefix_bytes(sample.name, sample.key), items, 0),
        )[i] == sample,
        items[i]->key == sample.key_bytes(),
{
    let prefix = prefix_bytes(sample.name, sample.key);
    let k = sample.key_bytes();
    let n = run_end(prefix, items, 0);
    lemma_key_under_prefix(sample.name, sample.key, sample.timestamp);
    lemma_run_end(prefix, items, 0);
    let i = choose|i: int|
        0 <= i < items.len() && (#[trigger] items[i]) == (ScanItemView::Entry {
            key: k,
            value: contents[k],
        });
    if n <= i {
        assert(items[n] is Entry);
        lemma_series_leads(items, contents, prefix, n, i);
        assert(false);
    }
    assert(step_of(prefix, items[i]) is Take);
    i
}

/// What a query returns: over a store that holds only what was ingested, a query
/// of a series succeeds and returns the samples of that series that the store
/// holds, those and no others.
pub proof fn law_query_returns_the_series(
    contents: Contents,
    name: Seq<char>,
    key: Seq<char>,
    items: Seq<ScanItemView>,
)
    requires
        ingested_only(contents),
        is_scan(items, contents, prefix_bytes(name, key)),
    ensures
        query_outcome(prefix_bytes(name, key), items) matches Ok(samples) && forall|
            sample: MetricView,
        |
            #![trigger samples.contains(sample)]
            samples.contains(sample) <==> (sample.name == name && sample.key == key
                && holds_sample(contents, sample)),
{
    let prefix = prefix_bytes(name, key);
    let samples = taken(prefix, items, run_end(prefix, items, 0));
    lemma_run_ends_well(contents, prefix, items);
    assert forall|sample: MetricView| #[trigger]
        samples.contains(sample) <==> (sample.name == name && sample.key == key && holds_sample(
            contents,
            sample,
        )) by {
        if samples.contains(sample) {
            let i = choose|i: int| 0 <= i < samples.len() && samples[i] == sample;
            lemma_taken_is_held(contents, prefix, items, i);
            lemma_taken_is_of_series(name, key, items, i);
        }
        if sample.name == name && sample.key == key && holds_sample(contents, sample) {
            let i = lemma_held_is_taken(contents, sample, items);
            assert(samples[i] == sample);
        }
    }
}

/// Over a store that holds only what was ingested, of two samples that a query
/// of a series reads, the one read first has the timestamp whose text comes
/// first, byte by byte.
pub proof fn lemma_read_in_text_order(
    contents: Contents,
    name: Seq<char>,
    key: Seq<char>,
    items: Seq<ScanItemView>,
    i: int,
    j: int,
)
    requires
        ingested_only(contents),
        is_scan(items, contents, prefix_bytes(name, key)),
        0 <= i < j < run_end(prefix_bytes(name, key), items, 0),
    ensures
        bytes_lt(
            decimal_text(
                taken(
                    prefix_bytes(name, key),
                    items,
                    run_end(prefix_bytes(name, key), items, 0),
                )[i].timestamp as nat,
            ),
            decimal_text(
                taken(
                    prefix_bytes(name, key),
                    items,
                    run_end(prefix_bytes(name, key), items, 0),
                )[j].timestamp as nat,
            ),
        ),
{
    let prefix = prefix_bytes(name, key);
    let samples = taken(prefix, items, run_end(prefix, items, 0));
    let first = samples[i];
    let second = samples[j];
    lemma_run_ends_well(contents, prefix, items);
    lemma_taken_is_of_series(name, key, items, i);
    lemma_taken_is_of_series(name, key, items, j);
    lemma_taken_is_held(contents, prefix, items, i);
    lemma_taken_is_held(contents, prefix, items, j);
    assert(bytes_lt(items[i]->key, items[j]->key));
    assert(first.name == name && first.key == key);
    assert(second.name == name && second.key == key);
    lemma_bytes_lt_behind_prefix(
        prefix,
        decimal_text(first.timestamp as nat),
        decimal_text(second.timestamp as nat),
    );
}

/// Scan order: over a store that holds only what was ingested, a query returns
/// the samples of a series in the order of the text of their timestamps, byte by
/// byte, which is the order of the numbers only among timestamps with the same
/// count of digits.
pub proof fn law_scan_order(
    contents: Contents,
    name: Seq<char>,
    key: Seq<char>,
    items: Seq<ScanItemView>,
)
    requires
        ingested_only(contents),
        is_scan(items, contents, prefix_bytes(name, key)),
    ensures
        query_outcome(prefix_bytes(name, key), items) matches Ok(samples) && forall|
            i: int,
            j: int,
        |
            0 <= i < j < samples.len() ==> bytes_lt(
                decimal_text((#[trigger] samples[i]).timestamp as nat),
                decimal_text((#[trigger] samples[j]).timestamp as nat),
            ),
{
    let prefix = prefix_bytes(name, key);
    let samples = taken(prefix, items, run_end(prefix, items, 0));
    lemma_run_ends_well(contents, prefix, items);
    assert forall|i: int, j: int| 0 <= i < j < samples.len() implies bytes_lt(
        decimal_text((#[trigger] samples[i]).timestamp as nat),
        decimal_text((#[trigger] samples[j]).timestamp as nat),
    ) by {
        lemma_read_in_text_order(contents, name, key, items, i, j);
    }
}

/// Round trip: after a well-formed sample whose metric name and series key hold no
/// delimiter was ingested, a query of its series that succeeds returns it, and the
/// query does succeed where the store held only what was ingested.
pub proof fn law_round_trip(contents: Contents, sample: MetricView, items: Seq<ScanItemView>)
    requires
        sample.well_formed(),
        sample.unambiguous(),
        is_scan(items, ingest(contents, sample), prefix_bytes(sample.name, sample.key)),
    ensures
        query_outcome(prefix_bytes(sample.name, sample.key), items) matches Ok(samples)
            ==> samples.contains(sample),
        ingested_only(contents) ==> query_outcome(prefix_bytes(sample.name, sample.key), items)
            is Ok,
{
    let prefix = prefix_bytes(sample.name, sample.key);
    let after = ingest(contents, sample);
    let k = sample.key_bytes();
    let n = run_end(prefix, items, 0);
    lemma_key_under_prefix(sample.name, sample.key, sample.timestamp);
    lemma_decode_of_encode(sample);
    lemma_run_end(prefix, items, 0);
    assert(after.contains_key(k));
    let i = choose|i: int|
        0 <= i < items.len() && (#[trigger] items[i]) == (ScanItemView::Entry {
            key: k,
            value: after[k],
        });
    assert(step_of(prefix, items[i]) == Step::Take { sample });
    if query_outcome(prefix, items) is Ok {
        if n <= i {
            assert(items[n] is Entry);
            lemma_series_leads(items, after, prefix, n, i);
            assert(false);
        }
        assert(taken(prefix, items, n)[i] == sample);
    }
    if ingested_only(contents) {
        lemma_ingest_keeps_ingested_only(contents, sample);
        if n < items.len() {
            assert(items[n] is Entry);
            assert(after.contains_key(items[n]->key));
        }
    }
}

/// Last write wins: after two samples of one series and one timestamp were
/// ingested into a store that held only what was ingested, a query of the series
/// succeeds, returns the second, and returns no other sample with that timestamp:
/// the first is gone unless it has the second's value.
pub proof fn law_last_write_wins(
    contents: Contents,
    first: MetricView,
    second: MetricView,
    items: Seq<ScanItemView>,
)
    requires
        ingested_only(contents),
        second.well_formed(),
        second.unambiguous(),
        first.name == second.name,
        first.key == second.key,
        first.timestamp == second.timestamp,
        is_scan(
            items,
            ingest(ingest(contents, first), second),
            prefix_bytes(second.name, second.key),
        ),
    ensures
        query_outcome(prefix_bytes(second.name, second.key), items) matches Ok(samples) && {
            &&& samples.contains(second)
            &&& forall|i: int|
                0 <= i < samples.len() && (#[trigger] samples[i]).timestamp == second.timestamp
                    ==> samples[i] == second
            &&& first.value != second.value ==> !samples.contains(first)
        },
{
    let prefix = prefix_bytes(second.name, second.key);
    let after = ingest(ingest(contents, first), second);
    let k = second.key_bytes();
    let n = run_end(prefix, items, 0);
    assert(after =~= ingest(contents, second));
    law_round_trip(contents, second, items);
    lemma_ingest_keeps_ingested_only(contents, second);
    lemma_decode_of_encode(second);
    lemma_run_end(prefix, items, 0);
    lemma_outcome_is_of_series(second.name, second.key, items);
    let samples = taken(prefix, items, n);
    assert forall|i: int|
        0 <= i < samples.len() && (#[trigger] samples[i]).timestamp
            == second.timestamp implies samples[i] == second by {
        assert(step_of(prefix, items[i]) is Take);
        assert(after.contains_key(items[i]->key));
        assert(samples[i].key_bytes() == items[i]->key);
        assert(samples[i].key_bytes() == k);
    }
    if first.value != second.value && samples.contains(first) {
        let i = choose|i: int| 0 <= i < samples.len() && samples[i] == first;
        assert(samples[i].timestamp == second.timestamp);
    }
}

/// Empty result: where a store that holds only what was ingested holds no sample
/// of a series, a query of that series succeeds and returns nothing.
pub proof fn law_empty_result(
    contents: Contents,
    name: Seq<char>,
    key: Seq<char>,
    items: Seq<ScanItemView>,
)
    requires
        ingested_only(contents),
        series_is_empty(contents, name, key),
        is_scan(items, contents, prefix_bytes(name, key)),
    ensures
        query_outcome(prefix_bytes(name, key), items) == Ok::<Seq<MetricView>, QueryErrorView>(
            Seq::empty(),
        ),
{
    let prefix = prefix_bytes(name, key);
    let n = run_end(prefix, items, 0);
    lemma_run_end(prefix, items, 0);
    lemma_outcome_is_of_series(name, key, items);
    if items.len() > 0 {
        assert(items[0] is Entry);
        assert(contents.contains_key(items[0]->key));
        if n > 0 {
            assert(step_of(prefix, items[0]) is Take);
            lemma_fields_under_prefix(items[0]->key, encode_utf8(name), encode_utf8(key));
            encode_utf8_decode_utf8(name);
            encode_utf8_decode_utf8(key);
            assert(false);
        }
    }
    assert(taken(prefix, items, 0) =~= Seq::<MetricView>::empty());
}

/// Delimiter collision: a sample whose metric name or series key holds the
/// delimiter is stored under a key with more than three fields. Read back, that
/// key is refused for its field count, and a query of the sample's series fails
/// on the first entry it reads.
pub proof fn law_delimiter_collision(
    contents: Contents,
    sample: MetricView,
    items: Seq<ScanItemView>,
)
    requires
        !sample.unambiguous(),
        is_scan(items, ingest(contents, sample), prefix_bytes(sample.name, sample.key)),
    ensures
        decode_failure(sample.key_bytes(), sample.value_bytes()) == Some(DecodeError::FieldCount),
        query_outcome(prefix_bytes(sample.name, sample.key), items) matches Err(e) && e is Decode,
{
    let prefix = prefix_bytes(sample.name, sample.key);
    let after = ingest(contents, sample);
    let k = sample.key_bytes();
    lemma_key_under_prefix(sample.name, sample.key, sample.timestamp);
    lemma_key_is_utf8(sample.name, sample.key, sample.timestamp);
    encode_utf8_valid_utf8(sample.value);
    lemma_ambiguous_prefix(sample.name, sample.key, k);
    assert(after.contains_key(k));
    let i = choose|i: int|
        0 <= i < items.len() && (#[trigger] items[i]) == (ScanItemView::Entry {
            key: k,
            value: after[k],
        });
    assert(items[0] is Entry);
    lemma_series_leads(items, after, prefix, 0, i);
    lemma_ambiguous_prefix(sample.name, sample.key, items[0]->key);
    assert(step_of(prefix, items[0]) is Fail);
}

} // verus!
