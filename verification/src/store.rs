//! The ordered store as the engine sees it.
//!
//! The store maps keys to values, both byte strings, and hands its entries out in
//! the order of their keys, byte by byte. The engine does not hold the store: it
//! says what to write and where to start reading, and is handed what a forward
//! scan yields, item by item. This module holds those items and the mathematical
//! model of the store that the engine's contracts and laws speak of.

use vstd::prelude::*;
use crate::codec::{decode_failure, decoded, lemma_decode_of_encode, MetricView};
use crate::layout::starts_with;

verus! {

/// What a forward scan of the store yields at one step.
#[derive(Clone, Debug, PartialEq, Eq)]
pub enum ScanItem {
    /// The next entry of the store.
    Entry { key: Vec<u8>, value: Vec<u8> },
    /// The store could not read on; `message` is its account of the failure.
    Failure { message: String },
}

/// What a [`ScanItem`] stands for.
pub enum ScanItemView {
    Entry { key: Seq<u8>, value: Seq<u8> },
    Failure { message: Seq<char> },
}

impl View for ScanItem {
    type V = ScanItemView;

    open spec fn view(&self) -> ScanItemView {
        match self {
            ScanItem::Entry { key, value } => ScanItemView::Entry { key: key@, value: value@ },
            ScanItem::Failure { message } => ScanItemView::Failure { message: message@ },
        }
    }
}

/// The views of a sequence of scan items.
pub open spec fn items_view(items: Seq<ScanItem>) -> Seq<ScanItemView> {
    Seq::new(items.len(), |i: int| items[i]@)
}

/// The order of the store's keys: `a` comes before `b` where it is a proper
/// initial part of `b`, or holds the smaller byte at the first position at which
/// the two differ.
pub open spec fn bytes_lt(a: Seq<u8>, b: Seq<u8>) -> bool
    decreases a.len(),
{
    if b.len() == 0 {
        false
    } else if a.len() == 0 {
        true
    } else if a[0] != b[0] {
        a[0] < b[0]
    } else {
        bytes_lt(a.drop_first(), b.drop_first())
    }
}

/// `a` comes before `b` in the order of the store's keys, or is `b`.
pub open spec fn bytes_le(a: Seq<u8>, b: Seq<u8>) -> bool {
    a == b || bytes_lt(a, b)
}

/// The contents of a store: its keys with their values.
pub type Contents = Map<Seq<u8>, Seq<u8>>;

/// The contents after `value` was put under `key`: an earlier value under that
/// key is gone.
pub open spec fn put(contents: Contents, key: Seq<u8>, value: Seq<u8>) -> Contents {
    contents.insert(key, value)
}

/// The contents after `sample` was ingested.
pub open spec fn ingest(contents: Contents, sample: MetricView) -> Contents {
    put(contents, sample.key_bytes(), sample.value_bytes())
}

/// The contents of a store that was empty before the samples of `history` were
/// ingested, one after the other.
pub open spec fn contents_after(history: Seq<MetricView>) -> Contents
    decreases history.len(),
{
    if history.len() == 0 {
        Map::empty()
    } else {
        ingest(contents_after(history.drop_last()), history.last())
    }
}

/// True when `items` is what a forward scan of `contents` that starts at `from`
/// yields without a failure: entries of the store at or after `from`, in the
/// order of their keys, and among them every entry whose key starts with `from`.
/// Whether the scan ends with the last such entry or goes on to later keys is
/// left open.
pub open spec fn is_scan(items: Seq<ScanItemView>, contents: Contents, from: Seq<u8>) -> bool {
    &&& forall|i: int|
        0 <= i < items.len() ==> {
            &&& (#[trigger] items[i]) is Entry
            &&& contents.contains_key(items[i]->key)
            &&& contents[items[i]->key] == items[i]->value
            &&& bytes_le(from, items[i]->key)
        }
    &&& forall|i: int, j: int|
        0 <= i < j < items.len() ==> bytes_lt(
            (#[trigger] items[i])->key,
            (#[trigger] items[j])->key,
        )
    &&& forall|k: Seq<u8>|
        #![trigger contents.contains_key(k)]
        contents.contains_key(k) && starts_with(k, from) ==> exists|i: int|
            0 <= i < items.len() && (#[trigger] items[i]) == (ScanItemView::Entry {
                key: k,
                value: contents[k],
            })
}

/// True when every entry of `contents` is what ingesting a well-formed sample
/// without a delimiter in its names leaves: it can be read back, and the sample
/// read back has the entry's key as its own.
pub open spec fn ingested_only(contents: Contents) -> bool {
    forall|k: Seq<u8>|
        #![trigger contents.contains_key(k)]
        contents.contains_key(k) ==> decode_failure(k, contents[k]) is None && decoded(
            k,
            contents[k],
        ).key_bytes() == k
}

/// True when `contents` holds `sample`: under the sample's key stands an entry
/// that is read back as the sample.
pub open spec fn holds_sample(contents: Contents, sample: MetricView) -> bool {
    contents.contains_key(sample.key_bytes()) && decoded(
        sample.key_bytes(),
        contents[sample.key_bytes()],
    ) == sample
}

/// True when `contents` holds no sample of the series `(name, key)`.
pub open spec fn series_is_empty(contents: Contents, name: Seq<char>, key: Seq<char>) -> bool {
    forall|k: Seq<u8>|
        #![trigger contents.contains_key(k)]
        contents.contains_key(k) ==> !(decoded(k, contents[k]).name == name && decoded(
            k,
            contents[k],
        ).key == key)
}

/// The keys that start with `prefix` lie together in the order of keys, and
/// `prefix` stands at their head: a key at or after `prefix` that comes before
/// one of them is one of them.
pub proof fn lemma_prefixed_keys_adjoin(prefix: Seq<u8>, a: Seq<u8>, b: Seq<u8>)
    requires
        bytes_le(prefix, a),
        bytes_lt(a, b),
        starts_with(b, prefix),
    ensures
        starts_with(a, prefix),
    decreases prefix.len(),
{
    if prefix.len() == 0 {
        assert(a.subrange(0, 0) =~= prefix);
    } else {
        assert(b.subrange(0, prefix.len() as int)[0] == b[0]);
        assert(a.len() > 0);
        assert(a[0] == prefix[0]);
        let prefix_rest = prefix.drop_first();
        let a_rest = a.drop_first();
        let b_rest = b.drop_first();
        assert(b_rest.subrange(0, prefix_rest.len() as int) =~= prefix_rest) by {
            assert forall|i: int| 0 <= i < prefix_rest.len() implies b_rest.subrange(0, prefix_rest.len() as int)[i]
                == prefix_rest[i] by {
                assert(b.subrange(0, prefix.len() as int)[i + 1] == b[i + 1]);
            }
        }
        if prefix == a {
            assert(prefix_rest == a_rest);
        }
        lemma_prefixed_keys_adjoin(prefix_rest, a_rest, b_rest);
        assert(a.subrange(0, prefix.len() as int) =~= prefix) by {
            assert forall|i: int| 0 <= i < prefix.len() implies a.subrange(
                0,
                prefix.len() as int,
            )[i] == prefix[i] by {
                if i > 0 {
                    assert(a_rest.subrange(0, prefix_rest.len() as int)[i - 1] == a_rest[i - 1]);
                }
            }
        }
    }
}

/// Keys with a common beginning are ordered as what follows it.
pub proof fn lemma_bytes_lt_behind_prefix(prefix: Seq<u8>, a: Seq<u8>, b: Seq<u8>)
    ensures
        bytes_lt(prefix + a, prefix + b) <==> bytes_lt(a, b),
    decreases prefix.len(),
{
    if prefix.len() == 0 {
        assert(prefix + a =~= a);
        assert(prefix + b =~= b);
    } else {
        let rest = prefix.drop_first();
        assert((prefix + a).drop_first() =~= rest + a);
        assert((prefix + b).drop_first() =~= rest + b);
        assert((prefix + a)[0] == (prefix + b)[0]);
        lemma_bytes_lt_behind_prefix(rest, a, b);
    }
}

/// Ingesting a well-formed sample without a delimiter in its names into a store
/// that holds only such samples leaves one that holds only such samples.
pub proof fn lemma_ingest_keeps_ingested_only(contents: Contents, sample: MetricView)
    requires
        ingested_only(contents),
        sample.well_formed(),
        sample.unambiguous(),
    ensures
        ingested_only(ingest(contents, sample)),
{
    lemma_decode_of_encode(sample);
    let after = ingest(contents, sample);
    assert forall|k: Seq<u8>| #[trigger] after.contains_key(k) implies decode_failure(k, after[k])
        is None && decoded(k, after[k]).key_bytes() == k by {
        if k != sample.key_bytes() {
            assert(contents.contains_key(k));
        }
    }
}

/// A store that was empty before well-formed samples without a delimiter in
/// their names were ingested holds only what was ingested.
pub proof fn lemma_history_ingested_only(history: Seq<MetricView>)
    requires
        forall|i: int|
            0 <= i < history.len() ==> (#[trigger] history[i]).well_formed()
                && history[i].unambiguous(),
    ensures
        ingested_only(contents_after(history)),
    decreases history.len(),
{
    if history.len() > 0 {
        let earlier = history.drop_last();
        assert forall|i: int| 0 <= i < earlier.len() implies (#[trigger] earlier[i]).well_formed()
            && earlier[i].unambiguous() by {
            assert(earlier[i] == history[i]);
        }
        lemma_history_ingested_only(earlier);
        lemma_ingest_keeps_ingested_only(contents_after(earlier), history.last());
    }
}

} // verus!
