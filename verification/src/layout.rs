//! The byte layout of a storage key.
//!
//! A key is three fields, each followed by the next after one delimiter byte:
//! the metric name, the series key and the timestamp. Nothing is escaped, so a
//! key has three fields exactly when it holds two delimiters.

use vstd::prelude::*;

verus! {

/// The byte `:`, which separates the fields of a key.
pub const DELIMITER: u8 = 58u8;

/// True when no byte of `text` is the delimiter.
pub open spec fn delimiter_free(text: Seq<u8>) -> bool {
    forall|i: int| 0 <= i < text.len() ==> #[trigger] text[i] != DELIMITER
}

/// The position of the first delimiter at or after `from`, or the length of
/// `text` where there is none.
pub open spec fn next_delimiter(text: Seq<u8>, from: int) -> int
    decreases text.len() - from,
{
    if 0 <= from < text.len() && text[from] != DELIMITER {
        next_delimiter(text, from + 1)
    } else {
        from
    }
}

/// The position of the first delimiter of `key`.
pub open spec fn first_mark(key: Seq<u8>) -> int {
    next_delimiter(key, 0)
}

/// The position of the second delimiter of `key`.
pub open spec fn second_mark(key: Seq<u8>) -> int {
    next_delimiter(key, first_mark(key) + 1)
}

/// True when `key` splits on the delimiter into exactly three fields.
pub open spec fn has_three_fields(key: Seq<u8>) -> bool {
    &&& first_mark(key) < key.len()
    &&& second_mark(key) < key.len()
    &&& next_delimiter(key, second_mark(key) + 1) == key.len()
}

/// The first field of `key`: the metric name.
pub open spec fn name_field(key: Seq<u8>) -> Seq<u8> {
    key.subrange(0, first_mark(key))
}

/// The second field of `key`: the series key.
pub open spec fn series_field(key: Seq<u8>) -> Seq<u8> {
    key.subrange(first_mark(key) + 1, second_mark(key))
}

/// The third field of `key`: the timestamp.
pub open spec fn stamp_field(key: Seq<u8>) -> Seq<u8> {
    key.subrange(second_mark(key) + 1, key.len() as int)
}

/// Three fields put together into a key.
pub open spec fn join_fields(name: Seq<u8>, series: Seq<u8>, stamp: Seq<u8>) -> Seq<u8> {
    join_prefix(name, series) + stamp
}

/// The first two fields of a key, each with its delimiter: what all keys of one
/// series start with.
pub open spec fn join_prefix(name: Seq<u8>, series: Seq<u8>) -> Seq<u8> {
    name.push(DELIMITER) + series.push(DELIMITER)
}

/// True when `text` starts with `prefix`.
pub open spec fn starts_with(text: Seq<u8>, prefix: Seq<u8>) -> bool {
    prefix.len() <= text.len() && text.subrange(0, prefix.len() as int) == prefix
}

/// The search for a delimiter ends at or after its start and inside `text`; it
/// passes no delimiter and stops on one unless it reaches the end.
pub proof fn lemma_next_delimiter(text: Seq<u8>, from: int)
    requires
        0 <= from <= text.len(),
    ensures
        from <= next_delimiter(text, from) <= text.len(),
        forall|i: int| from <= i < next_delimiter(text, from) ==> #[trigger] text[i] != DELIMITER,
        next_delimiter(text, from) < text.len() ==> text[next_delimiter(text, from)] == DELIMITER,
    decreases text.len() - from,
{
    if from < text.len() && text[from] != DELIMITER {
        lemma_next_delimiter(text, from + 1);
    }
}

/// The search for a delimiter finds `at`, where no delimiter stands between its
/// start and `at`, and `at` holds one or is the end of `text`.
pub proof fn lemma_next_delimiter_is(text: Seq<u8>, from: int, at: int)
    requires
        0 <= from <= at <= text.len(),
        forall|i: int| from <= i < at ==> #[trigger] text[i] != DELIMITER,
        at < text.len() ==> text[at] == DELIMITER,
    ensures
        next_delimiter(text, from) == at,
    decreases at - from,
{
    if from < at {
        lemma_next_delimiter_is(text, from + 1, at);
    }
}

/// A key with three fields holds a delimiter at its two marks and nowhere else.
pub proof fn lemma_marks(key: Seq<u8>)
    requires
        has_three_fields(key),
    ensures
        0 <= first_mark(key) < second_mark(key) < key.len(),
        forall|i: int|
            0 <= i < key.len() ==> (#[trigger] key[i] == DELIMITER <==> (i == first_mark(key) || i
                == second_mark(key))),
{
    lemma_next_delimiter(key, 0);
    lemma_next_delimiter(key, first_mark(key) + 1);
    lemma_next_delimiter(key, second_mark(key) + 1);
}

/// Three fields without a delimiter, put together, make a key with three fields:
/// the ones it was made of.
pub proof fn lemma_join_then_split(name: Seq<u8>, series: Seq<u8>, stamp: Seq<u8>)
    requires
        delimiter_free(name),
        delimiter_free(series),
        delimiter_free(stamp),
    ensures
        has_three_fields(join_fields(name, series, stamp)),
        name_field(join_fields(name, series, stamp)) == name,
        series_field(join_fields(name, series, stamp)) == series,
        stamp_field(join_fields(name, series, stamp)) == stamp,
{
    let key = join_fields(name, series, stamp);
    let m1 = name.len() as int;
    let m2 = m1 + 1 + series.len();
    assert forall|i: int| 0 <= i < m1 implies #[trigger] key[i] != DELIMITER by {
        assert(key[i] == name[i]);
    }
    assert forall|i: int| m1 + 1 <= i < m2 implies #[trigger] key[i] != DELIMITER by {
        assert(key[i] == series[i - m1 - 1]);
    }
    assert forall|i: int| m2 + 1 <= i < key.len() implies #[trigger] key[i] != DELIMITER by {
        assert(key[i] == stamp[i - m2 - 1]);
    }
    assert(key[m1] == DELIMITER);
    assert(key[m2] == DELIMITER);
    lemma_next_delimiter_is(key, 0, m1);
    lemma_next_delimiter_is(key, m1 + 1, m2);
    lemma_next_delimiter_is(key, m2 + 1, key.len() as int);
    assert(name_field(key) =~= name);
    assert(series_field(key) =~= series);
    assert(stamp_field(key) =~= stamp);
}

/// A key with three fields that starts with the prefix of a series has the two
/// fields of that prefix as its first two.
pub proof fn lemma_fields_under_prefix(key: Seq<u8>, name: Seq<u8>, series: Seq<u8>)
    requires
        has_three_fields(key),
        starts_with(key, join_prefix(name, series)),
    ensures
        name_field(key) == name,
        series_field(key) == series,
        delimiter_free(name),
        delimiter_free(series),
{
    let prefix = join_prefix(name, series);
    let m1 = name.len() as int;
    let m2 = m1 + 1 + series.len();
    lemma_marks(key);
    assert forall|i: int| 0 <= i < prefix.len() implies key[i] == #[trigger] prefix[i] by {
        assert(key.subrange(0, prefix.len() as int)[i] == key[i]);
    }
    assert(prefix[m1] == DELIMITER);
    assert(prefix[m2] == DELIMITER);
    assert(key[m1] == DELIMITER);
    assert(key[m2] == DELIMITER);
    assert(m1 == first_mark(key));
    assert(m2 == second_mark(key));
    assert forall|i: int| 0 <= i < name.len() implies #[trigger] name[i] != DELIMITER by {
        assert(name[i] == prefix[i]);
        assert(key[i] == prefix[i]);
    }
    assert forall|i: int| 0 <= i < series.len() implies #[trigger] series[i] != DELIMITER by {
        assert(series[i] == prefix[m1 + 1 + i]);
        assert(key[m1 + 1 + i] == prefix[m1 + 1 + i]);
    }
    assert(name_field(key) =~= name) by {
        assert forall|i: int| 0 <= i < m1 implies name_field(key)[i] == name[i] by {
            assert(name[i] == prefix[i]);
        }
    }
    assert(series_field(key) =~= series) by {
        assert forall|i: int| 0 <= i < series.len() implies series_field(key)[i] == series[i] by {
            assert(series[i] == prefix[m1 + 1 + i]);
        }
    }
}

/// Finds the first delimiter at or after `from`.
pub fn find_delimiter(text: &[u8], from: usize) -> (at: usize)
    requires
        from <= text@.len(),
    ensures
        at == next_delimiter(text@, from as int),
        from <= at <= text@.len(),
{
    let n: usize = text.len();
    let mut i: usize = from;
    while i < n && text[i] != DELIMITER
        invariant
            from <= i <= n,
            n == text@.len(),
            next_delimiter(text@, i as int) == next_delimiter(text@, from as int),
        decreases n - i,
    {
        i = i + 1;
    }
    i
}

/// Decides whether `text` holds the delimiter.
pub fn holds_delimiter(text: &[u8]) -> (r: bool)
    ensures
        r == !delimiter_free(text@),
{
    let at: usize = find_delimiter(text, 0);
    proof {
        lemma_next_delimiter(text@, 0);
    }
    at < text.len()
}

/// Decides whether `text` starts with `prefix`.
pub fn has_prefix(text: &[u8], prefix: &[u8]) -> (r: bool)
    ensures
        r == starts_with(text@, prefix@),
{
    let n: usize = prefix.len();
    if text.len() < n {
        return false;
    }
    let mut i: usize = 0;
    while i < n
        invariant
            0 <= i <= n,
            n == prefix@.len(),
            n <= text@.len(),
            forall|j: int| 0 <= j < i ==> text@[j] == prefix@[j],
        decreases n - i,
    {
        if text[i] != prefix[i] {
            assert(text@.subrange(0, n as int)[i as int] != prefix@[i as int]);
            return false;
        }
        i = i + 1;
    }
    assert(text@.subrange(0, n as int) =~= prefix@);
    true
}

/// Appends the bytes of `more` to `out`.
pub fn append_bytes(out: &mut Vec<u8>, more: &[u8])
    ensures
        final(out)@ == old(out)@ + more@,
{
    let n: usize = more.len();
    let mut i: usize = 0;
    while i < n
        invariant
            0 <= i <= n,
            n == more@.len(),
            out@ == old(out)@ + more@.subrange(0, i as int),
        decreases n - i,
    {
        out.push(more[i]);
        assert(out@ =~= old(out)@ + more@.subrange(0, i + 1));
        i = i + 1;
    }
    assert(more@.subrange(0, n as int) =~= more@);
}

} // verus!
