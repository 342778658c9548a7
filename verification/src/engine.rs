//! The storage engine's rules: what ingesting a sample writes, and how the items
//! of a scan become the samples of a series.
//!
//! The engine holds no store. To ingest, it names the entry to put. To query, it
//! names the key at which a forward scan has to start and is then handed the
//! scan's items one by one. It reads on while the keys start with the prefix of
//! the series, and gives up the whole query at the first item that is a failure
//! of the store or cannot be read back as a sample.

use vstd::prelude::*;
use vstd::utf8::{encode_utf8, encode_utf8_decode_utf8};
use crate::codec::{
    decode, decode_failure, decoded, encode, encode_prefix, prefix_bytes, DecodeError, Metric,
    MetricView,
};
use crate::layout::{has_prefix, lemma_fields_under_prefix, starts_with};
use crate::store::{ingest, items_view, put, Contents, ScanItem, ScanItemView};

verus! {

/// Why a query failed.
#[derive(Clone, Debug, PartialEq, Eq)]
pub enum QueryError {
    /// The store could not read on; `message` is its account of the failure.
    StoreRead { message: String },
    /// An entry of the series could not be read back as a sample.
    Decode { reason: DecodeError },
}

/// What a [`QueryError`] stands for.
pub enum QueryErrorView {
    StoreRead { message: Seq<char> },
    Decode { reason: DecodeError },
}

impl View for QueryError {
    type V = QueryErrorView;

    open spec fn view(&self) -> QueryErrorView {
        match self {
            QueryError::StoreRead { message } => QueryErrorView::StoreRead { message: message@ },
            QueryError::Decode { reason } => QueryErrorView::Decode { reason: *reason },
        }
    }
}

/// The entry that ingesting a sample puts into the store.
#[derive(Clone, Debug, PartialEq, Eq)]
pub struct Write {
    /// The key to put the value under.
    pub key: Vec<u8>,
    /// The value, which replaces an earlier one under that key.
    pub value: Vec<u8>,
}

/// What a query makes of one item of the scan.
pub enum Step {
    /// The item is a sample of the series.
    Take { sample: MetricView },
    /// The item is an entry of another series: the series has ended.
    Stop,
    /// The item makes the query fail.
    Fail { error: QueryErrorView },
}

/// What a query of the series with the given prefix makes of `item`.
pub open spec fn step_of(prefix: Seq<u8>, item: ScanItemView) -> Step {
    match item {
        ScanItemView::Failure { message } => Step::Fail {
            error: QueryErrorView::StoreRead { message },
        },
        ScanItemView::Entry { key, value } => if !starts_with(key, prefix) {
            Step::Stop
        } else {
            match decode_failure(key, value) {
                Some(reason) => Step::Fail { error: QueryErrorView::Decode { reason } },
                None => Step::Take { sample: decoded(key, value) },
            }
        },
    }
}

/// Where the run of samples that starts at `from` ends: the first position at or
/// after `from` whose item is no sample of the series, or the length of `items`.
pub open spec fn run_end(prefix: Seq<u8>, items: Seq<ScanItemView>, from: int) -> int
    decreases items.len() - from,
{
    if 0 <= from < items.len() && step_of(prefix, items[from]) is Take {
        run_end(prefix, items, from + 1)
    } else {
        from
    }
}

/// The samples that the first `n` items are read back as.
pub open spec fn taken(prefix: Seq<u8>, items: Seq<ScanItemView>, n: int) -> Seq<MetricView> {
    Seq::new(n as nat, |i: int| step_of(prefix, items[i])->sample)
}

/// The result of a query of the series with the given prefix over the items of a
/// scan: the samples of the leading run, in the scan's order, unless the item
/// that ends the run makes the query fail.
pub open spec fn query_outcome(prefix: Seq<u8>, items: Seq<ScanItemView>) -> Result<
    Seq<MetricView>,
    QueryErrorView,
> {
    let n = run_end(prefix, items, 0);
    if n < items.len() && step_of(prefix, items[n]) is Fail {
        Err(step_of(prefix, items[n])->error)
    } else {
        Ok(taken(prefix, items, n))
    }
}

/// The views of a sequence of samples.
pub open spec fn samples_view(samples: Seq<Metric>) -> Seq<MetricView> {
    Seq::new(samples.len(), |i: int| samples[i]@)
}

/// The view of a query's result.
pub open spec fn result_view(r: Result<Vec<Metric>, QueryError>) -> Result<
    Seq<MetricView>,
    QueryErrorView,
> {
    match r {
        Ok(samples) => Ok(samples_view(samples@)),
        Err(e) => Err(e@),
    }
}

/// The run of samples ends inside `items`, holds only samples, and is not
/// followed by one.
pub proof fn lemma_run_end(prefix: Seq<u8>, items: Seq<ScanItemView>, from: int)
    requires
        0 <= from <= items.len(),
    ensures
        from <= run_end(prefix, items, from) <= items.len(),
        forall|i: int|
            from <= i < run_end(prefix, items, from) ==> step_of(prefix, #[trigger] items[i])
                is Take,
        run_end(prefix, items, from) < items.len() ==> !(step_of(
            prefix,
            items[run_end(prefix, items, from)],
        ) is Take),
    decreases items.len() - from,
{
    if from < items.len() && step_of(prefix, items[from]) is Take {
        lemma_run_end(prefix, items, from + 1);
    }
}

/// The run of samples ends at `at`, where every item between its start and `at`
/// is a sample and `at` holds none or is the end of `items`.
pub proof fn lemma_run_end_is(prefix: Seq<u8>, items: Seq<ScanItemView>, from: int, at: int)
    requires
        0 <= from <= at <= items.len(),
        forall|i: int| from <= i < at ==> step_of(prefix, #[trigger] items[i]) is Take,
        at < items.len() ==> !(step_of(prefix, items[at]) is Take),
    ensures
        run_end(prefix, items, from) == at,
    decreases at - from,
{
    if from < at {
        lemma_run_end_is(prefix, items, from + 1, at);
    }
}

/// A query that has stopped within the first `k` items has the result that the
/// first `k` items give.
pub proof fn lemma_outcome_of_stopped(prefix: Seq<u8>, items: Seq<ScanItemView>, k: int)
    requires
        0 <= k <= items.len(),
        run_end(prefix, items.take(k), 0) < k,
    ensures
        run_end(prefix, items, 0) == run_end(prefix, items.take(k), 0),
        query_outcome(prefix, items) == query_outcome(prefix, items.take(k)),
{
    let head = items.take(k);
    let n = run_end(prefix, head, 0);
    lemma_run_end(prefix, head, 0);
    assert forall|i: int| 0 <= i < n implies step_of(prefix, #[trigger] items[i]) is Take by {
        assert(head[i] == items[i]);
    }
    assert(head[n] == items[n]);
    lemma_run_end_is(prefix, items, 0, n);
    assert(taken(prefix, items, n) =~= taken(prefix, head, n));
}

/// How one more item moves the end of the run: not at all once the run has
/// ended, and by one where the run reaches the new item and it is a sample.
pub proof fn lemma_run_end_push(prefix: Seq<u8>, seen: Seq<ScanItemView>, item: ScanItemView)
    ensures
        0 <= run_end(prefix, seen, 0) <= seen.len(),
        run_end(prefix, seen, 0) < seen.len() ==> run_end(prefix, seen.push(item), 0) == run_end(
            prefix,
            seen,
            0,
        ),
        run_end(prefix, seen, 0) == seen.len() ==> run_end(prefix, seen.push(item), 0) == (if step_of(
            prefix,
            item,
        ) is Take {
            seen.len() + 1
        } else {
            seen.len() + 0
        }),
        taken(prefix, seen.push(item), run_end(prefix, seen, 0)) == taken(
            prefix,
            seen,
            run_end(prefix, seen, 0),
        ),
{
    let n = run_end(prefix, seen, 0);
    let after = seen.push(item);
    lemma_run_end(prefix, seen, 0);
    assert forall|i: int| 0 <= i < n implies step_of(prefix, #[trigger] after[i]) is Take by {
        assert(after[i] == seen[i]);
    }
    if n < seen.len() {
        assert(after[n] == seen[n]);
        lemma_run_end_is(prefix, after, 0, n);
    } else {
        assert(after[n] == item);
        if step_of(prefix, item) is Take {
            lemma_run_end_is(prefix, after, 0, n + 1);
        } else {
            lemma_run_end_is(prefix, after, 0, n);
        }
    }
    assert(taken(prefix, after, n) =~= taken(prefix, seen, n));
}

/// A sample that a query of the series `(name, key)` reads has that metric name
/// and that series key.
pub proof fn lemma_taken_is_of_series(
    name: Seq<char>,
    key: Seq<char>,
    items: Seq<ScanItemView>,
    i: int,
)
    requires
        0 <= i < run_end(prefix_bytes(name, key), items, 0),
    ensures
        step_of(prefix_bytes(name, key), items[i]) is Take,
        (step_of(prefix_bytes(name, key), items[i])->sample).name == name,
        (step_of(prefix_bytes(name, key), items[i])->sample).key == key,
{
    let prefix = prefix_bytes(name, key);
    lemma_run_end(prefix, items, 0);
    assert(step_of(prefix, items[i]) is Take);
    lemma_fields_under_prefix(items[i]->key, encode_utf8(name), encode_utf8(key));
    encode_utf8_decode_utf8(name);
    encode_utf8_decode_utf8(key);
}

/// Series isolation: every sample that a query of the series `(name, key)`
/// returns has that metric name and that series key.
pub proof fn lemma_outcome_is_of_series(
    name: Seq<char>,
    key: Seq<char>,
    items: Seq<ScanItemView>,
)
    ensures
        query_outcome(prefix_bytes(name, key), items) matches Ok(samples) ==> forall|i: int|
            0 <= i < samples.len() ==> (#[trigger] samples[i]).name == name && samples[i].key
                == key,
{
    let prefix = prefix_bytes(name, key);
    let n = run_end(prefix, items, 0);
    lemma_run_end(prefix, items, 0);
    assert forall|i: int| 0 <= i < n implies (#[trigger] taken(prefix, items, n)[i]).name == name
        && taken(prefix, items, n)[i].key == key by {
        lemma_taken_is_of_series(name, key, items, i);
    }
}

/// The entry that ingesting `metric` puts into the store: its key and its value
/// as the codec gives them. Putting it is all that ingesting does to the store.
pub fn add_metric(metric: &Metric) -> (write: Write)
    ensures
        write.key@ == metric@.key_bytes(),
        write.value@ == metric@.value_bytes(),
        forall|contents: Contents|
            #[trigger] put(contents, write.key@, write.value@) == ingest(contents, metric@),
{
    let pair = encode(metric);
    Write { key: pair.0, value: pair.1 }
}

/// A query of one series while the scan is under way.
pub struct Query {
    prefix: Vec<u8>,
    samples: Vec<Metric>,
    failure: Option<QueryError>,
    reading: bool,
    seen: Ghost<Seq<ScanItemView>>,
}

impl Query {
    /// The prefix of the series: the key at which the scan has to start.
    pub closed spec fn from(&self) -> Seq<u8> {
        self.prefix@
    }

    /// The items that the query was handed so far.
    pub closed spec fn seen(&self) -> Seq<ScanItemView> {
        self.seen@
    }

    /// True when the query holds what the items handed to it so far amount to.
    pub closed spec fn inv(&self) -> bool {
        let n = run_end(self.prefix@, self.seen@, 0);
        &&& samples_view(self.samples@) == taken(self.prefix@, self.seen@, n)
        &&& self.reading == (n == self.seen@.len())
        &&& match self.failure {
            Some(e) => n < self.seen@.len() && step_of(self.prefix@, self.seen@[n]) == (Step::Fail {
                error: e@,
            }),
            None => !(n < self.seen@.len() && step_of(self.prefix@, self.seen@[n]) is Fail),
        }
    }

    /// True while the query wants the next item of the scan: every item so far
    /// was a sample of the series.
    pub open spec fn wants_more(&self) -> bool {
        run_end(self.from(), self.seen(), 0) == self.seen().len()
    }

    /// Starts a query of the series `(name, key)`.
    pub fn new(name: &str, key: &str) -> (q: Query)
        ensures
            q.inv(),
            q.from() == prefix_bytes(name@, key@),
            q.seen() == Seq::<ScanItemView>::empty(),
    {
        let q = Query {
            prefix: encode_prefix(name, key),
            samples: Vec::new(),
            failure: None,
            reading: true,
            seen: Ghost(Seq::empty()),
        };
        assert(samples_view(q.samples@) =~= taken(q.prefix@, q.seen@, 0));
        q
    }

    /// The key at which the scan of the store has to start.
    pub fn start(&self) -> (from: &[u8])
        ensures
            from@ == self.from(),
    {
        self.prefix.as_slice()
    }

    /// Tells whether the query wants the next item of the scan.
    pub fn is_reading(&self) -> (r: bool)
        requires
            self.inv(),
        ensures
            r == self.wants_more(),
    {
        self.reading
    }

    /// Hands the query the next entry of the scan.
    pub fn accept(&mut self, key: &[u8], value: &[u8])
        requires
            old(self).inv(),
        ensures
            final(self).inv(),
            final(self).from() == old(self).from(),
            final(self).seen() == old(self).seen().push(
                ScanItemView::Entry { key: key@, value: value@ },
            ),
    {
        let ghost item = ScanItemView::Entry { key: key@, value: value@ };
        let ghost n = run_end(self.prefix@, self.seen@, 0);
        let ghost before = self.seen@;
        let ghost had = self.samples@;
        proof {
            lemma_run_end_push(self.prefix@, self.seen@, item);
            assert(samples_view(had) == taken(self.prefix@, before, n));
            assert(samples_view(had).len() == had.len());
            assert(taken(self.prefix@, before, n).len() == n);
            assert(had.len() == n);
        }
        if self.reading {
            if !has_prefix(key, self.prefix.as_slice()) {
                self.reading = false;
            } else {
                match decode(key, value) {
                    Ok(sample) => {
                        self.samples.push(sample);
                    },
                    Err(reason) => {
                        self.failure = Some(QueryError::Decode { reason });
                        self.reading = false;
                    },
                }
            }
        }
        self.seen = Ghost(self.seen@.push(item));
        proof {
            let m = run_end(self.prefix@, self.seen@, 0);
            if m == n + 1 {
                assert forall|i: int| 0 <= i < m implies samples_view(self.samples@)[i] == taken(
                    self.prefix@,
                    self.seen@,
                    m,
                )[i] by {
                    if i < n {
                        assert(samples_view(had)[i] == had[i]@);
                        assert(taken(self.prefix@, self.seen@, n)[i] == taken(
                            self.prefix@,
                            before,
                            n,
                        )[i]);
                    } else {
                        assert(self.seen@[n] == item);
                    }
                }
                assert(samples_view(self.samples@) =~= taken(self.prefix@, self.seen@, m));
            }
        }
    }

    /// Tells the query that the store could not read on.
    pub fn reject(&mut self, message: &str)
        requires
            old(self).inv(),
        ensures
            final(self).inv(),
            final(self).from() == old(self).from(),
            final(self).seen() == old(self).seen().push(
                ScanItemView::Failure { message: message@ },
            ),
    {
        let ghost item = ScanItemView::Failure { message: message@ };
        proof {
            lemma_run_end_push(self.prefix@, self.seen@, item);
        }
        if self.reading {
            self.failure = Some(QueryError::StoreRead { message: message.to_owned() });
            self.reading = false;
        }
        self.seen = Ghost(self.seen@.push(item));
    }

    /// Ends the query: the samples read, in the order of the scan, or the failure
    /// that stopped it.
    pub fn finish(self) -> (r: Result<Vec<Metric>, QueryError>)
        requires
            self.inv(),
        ensures
            result_view(r) == query_outcome(self.from(), self.seen()),
    {
        match self.failure {
            Some(e) => Err(e),
            None => Ok(self.samples),
        }
    }
}

/// The samples of the series `(name, key)` among the items of a forward scan that
/// started at the prefix of the series.
///
/// The items are read in order while they are entries whose key starts with the
/// prefix. The first entry with another key ends the series. A failure of the
/// store, or an entry of the series that cannot be read back, fails the whole
/// query. Where no item is of the series the result is empty.
pub fn get_metrics(name: &str, key: &str, items: &Vec<ScanItem>) -> (r: Result<
    Vec<Metric>,
    QueryError,
>)
    ensures
        result_view(r) == query_outcome(prefix_bytes(name@, key@), items_view(items@)),
        r matches Ok(samples) ==> forall|i: int|
            0 <= i < samples.len() ==> (#[trigger] samples[i])@.name == name@ && samples[i]@.key
                == key@,
{
    let ghost all = items_view(items@);
    let mut q = Query::new(name, key);
    let mut i: usize = 0;
    assert(all.take(0) =~= q.seen());
    while i < items.len() && q.is_reading()
        invariant
            0 <= i <= items.len(),
            all == items_view(items@),
            q.inv(),
            q.from() == prefix_bytes(name@, key@),
            q.seen() == all.take(i as int),
        decreases items.len() - i,
    {
        match &items[i] {
            ScanItem::Entry { key, value } => {
                q.accept(key.as_slice(), value.as_slice());
            },
            ScanItem::Failure { message } => {
                q.reject(message.as_str());
            },
        }
        assert(all.take(i + 1) =~= all.take(i as int).push(all[i as int]));
        i = i + 1;
    }
    proof {
        if i < items.len() {
            lemma_run_end(q.from(), q.seen(), 0);
            lemma_outcome_of_stopped(q.from(), all, i as int);
        } else {
            assert(all.take(i as int) =~= all);
        }
        lemma_outcome_is_of_series(name@, key@, all);
    }
    let r = q.finish();
    proof {
        if r is Ok {
            let samples = r->Ok_0;
            let outcome = query_outcome(prefix_bytes(name@, key@), all);
            assert(outcome == result_view(r));
            let found = outcome->Ok_0;
            assert(found == samples_view(samples@));
            assert forall|j: int| 0 <= j < samples.len() implies (#[trigger] samples[j])@.name
                == name@ && samples[j]@.key == key@ by {
                assert(found[j] == samples[j]@);
            }
        }
    }
    r
}

} // verus!
