//! Unsigned decimal text: the form in which a timestamp stands in a storage key.
//!
//! Writing produces the shortest decimal numeral, without padding. Reading is more
//! lenient: it takes an optional leading `+` and any number of leading zeros, and
//! refuses everything that is not a numeral of at most 64 bits.

use vstd::prelude::*;

verus! {

/// The byte `+`.
pub const PLUS: u8 = 43u8;

/// The byte `0`.
pub const ZERO: u8 = 48u8;

/// True of the bytes `0` to `9`.
pub open spec fn is_digit(b: u8) -> bool {
    48 <= b <= 57
}

/// True when every byte of `text` is a decimal digit.
pub open spec fn all_digits(text: Seq<u8>) -> bool {
    forall|i: int| 0 <= i < text.len() ==> is_digit(#[trigger] text[i])
}

/// The number that a run of decimal digits denotes, most significant digit first.
pub open spec fn digits_value(text: Seq<u8>) -> nat
    decreases text.len(),
{
    if text.len() == 0 {
        0
    } else {
        digits_value(text.drop_last()) * 10 + (text.last() - 48) as nat
    }
}

/// The shortest decimal numeral of `n`.
pub open spec fn decimal_text(n: nat) -> Seq<u8>
    decreases n,
{
    if n < 10 {
        seq![(48 + n) as u8]
    } else {
        decimal_text(n / 10).push((48 + n % 10) as u8)
    }
}

/// What is left of a numeral once an optional leading `+` is taken off.
pub open spec fn unsigned_body(text: Seq<u8>) -> Seq<u8> {
    if text.len() > 0 && text[0] == PLUS {
        text.drop_first()
    } else {
        text
    }
}

/// True when `text` is a numeral of an unsigned 64-bit integer: an optional `+`,
/// then at least one digit and nothing but digits, denoting at most `u64::MAX`.
pub open spec fn parses_as_u64(text: Seq<u8>) -> bool {
    let body = unsigned_body(text);
    body.len() > 0 && all_digits(body) && digits_value(body) <= u64::MAX
}

/// The integer that the numeral `text` denotes.
pub open spec fn parsed_u64(text: Seq<u8>) -> u64
    recommends
        parses_as_u64(text),
{
    digits_value(unsigned_body(text)) as u64
}

/// A run of digits denotes at least what any of its initial parts denotes.
pub proof fn lemma_digits_value_grows(text: Seq<u8>, k: int)
    requires
        all_digits(text),
        0 <= k <= text.len(),
    ensures
        digits_value(text.take(k)) <= digits_value(text),
    decreases text.len(),
{
    if k == text.len() {
        assert(text.take(k) =~= text);
    } else {
        let shorter = text.drop_last();
        assert(shorter.take(k) =~= text.take(k));
        assert(is_digit(text.last()));
        lemma_digits_value_grows(shorter, k);
    }
}

/// The value of a run of digits that is extended by one digit.
pub proof fn lemma_digits_value_push(text: Seq<u8>, d: u8)
    ensures
        digits_value(text.push(d)) == digits_value(text) * 10 + (d - 48) as nat,
{
    assert(text.push(d).drop_last() =~= text);
}

/// The shortest numeral of `n` is a non-empty run of digits that denotes `n`; it
/// has a leading zero only where `n` is zero.
pub proof fn lemma_decimal_text(n: nat)
    ensures
        decimal_text(n).len() > 0,
        all_digits(decimal_text(n)),
        digits_value(decimal_text(n)) == n,
        decimal_text(n)[0] == ZERO <==> n == 0,
    decreases n,
{
    reveal_with_fuel(digits_value, 2);
    if n < 10 {
        assert(seq![(48 + n) as u8].drop_last() =~= Seq::<u8>::empty());
    } else {
        lemma_decimal_text(n / 10);
        lemma_digits_value_push(decimal_text(n / 10), (48 + n % 10) as u8);
    }
}

/// Reading back the shortest numeral of a 64-bit integer gives that integer.
pub proof fn lemma_decimal_round_trip(n: u64)
    ensures
        parses_as_u64(decimal_text(n as nat)),
        parsed_u64(decimal_text(n as nat)) == n,
{
    lemma_decimal_text(n as nat);
}

/// Appends the shortest decimal numeral of `n` to `out`.
pub fn push_decimal(out: &mut Vec<u8>, n: u64)
    ensures
        final(out)@ == old(out)@ + decimal_text(n as nat),
    decreases n,
{
    if n >= 10 {
        push_decimal(out, n / 10);
    }
    let digit: u8 = (n % 10) as u8;
    out.push(ZERO + digit);
    proof {
        let before = old(out)@;
        if n >= 10 {
            assert(final(out)@ =~= before + decimal_text((n / 10) as nat).push(
                (48 + n % 10) as u8,
            ));
        } else {
            assert(final(out)@ =~= before + seq![(48 + n) as u8]);
        }
    }
}

/// The shortest decimal numeral of `n`, as bytes.
pub fn render_u64(n: u64) -> (text: Vec<u8>)
    ensures
        text@ == decimal_text(n as nat),
{
    let mut text: Vec<u8> = Vec::new();
    push_decimal(&mut text, n);
    assert(text@ =~= decimal_text(n as nat));
    text
}

/// Reads an unsigned 64-bit integer from its numeral, or returns `None` where
/// `text` is no such numeral.
pub fn parse_u64(text: &[u8]) -> (r: Option<u64>)
    ensures
        r is Some <==> parses_as_u64(text@),
        r matches Some(v) ==> v == parsed_u64(text@),
{
    let n: usize = text.len();
    let start: usize = if n > 0 && text[0] == PLUS { 1 } else { 0 };
    if start == n {
        return None;
    }
    let ghost body = unsigned_body(text@);
    assert(body =~= text@.skip(start as int));
    let mut acc: u64 = 0;
    let mut i: usize = start;
    while i < n
        invariant
            start <= i <= n,
            n == text@.len(),
            body == unsigned_body(text@),
            body == text@.skip(start as int),
            all_digits(body.take(i - start)),
            acc == digits_value(body.take(i - start)),
        decreases n - i,
    {
        let b: u8 = text[i];
        let ghost seen = body.take(i - start);
        if b < 48 || b > 57 {
            assert(body[i - start] == b);
            assert(!all_digits(body));
            return None;
        }
        let d: u64 = (b - 48) as u64;
        proof {
            assert(body.take(i + 1 - start) =~= seen.push(b));
            lemma_digits_value_push(seen, b);
            assert forall|j: int| 0 <= j < i + 1 - start implies is_digit(
                #[trigger] body.take(i + 1 - start)[j],
            ) by {
                if j < i - start {
                    assert(body.take(i + 1 - start)[j] == seen[j]);
                }
            }
        }
        if acc > (u64::MAX - d) / 10 {
            proof {
                assert(digits_value(body.take(i + 1 - start)) == acc * 10 + d);
                assert(digits_value(body.take(i + 1 - start)) > u64::MAX);
                if all_digits(body) {
                    lemma_digits_value_grows(body, i + 1 - start);
                }
            }
            return None;
        }
        acc = acc * 10 + d;
        i = i + 1;
    }
    assert(body.take(n - start) =~= body);
    Some(acc)
}

} // verus!
