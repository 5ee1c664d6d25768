//! Small verified helpers on byte strings: copying, comparing, searching,
//! and decimal and hexadecimal numerals in ASCII.

use vstd::prelude::*;

verus! {

/// Appends `src` to `out`.
pub fn push_all(out: &mut Vec<u8>, src: &[u8])
    ensures
        final(out)@ == old(out)@ + src@,
{
    out.extend_from_slice(src);
    assert(out@ =~= old(out)@ + src@);
}

/// Copies the bytes of `src` from `from` up to `to` into a new vector.
pub fn copy_range(src: &[u8], from: usize, to: usize) -> (out: Vec<u8>)
    requires
        from <= to <= src.len(),
    ensures
        out@ == src@.subrange(from as int, to as int),
{
    let mut out: Vec<u8> = Vec::new();
    push_all(&mut out, &src[from..to]);
    assert(out@ =~= src@.subrange(from as int, to as int));
    out
}

/// Whether two byte strings are the same.
pub fn bytes_equal(a: &[u8], b: &[u8]) -> (same: bool)
    ensures
        same == (a@ == b@),
{
    if a.len() != b.len() {
        return false;
    }
    let mut i: usize = 0;
    while i < a.len()
        invariant
            a.len() == b.len(),
            i <= a.len(),
            forall|j: int| 0 <= j < i ==> a@[j] == b@[j],
        decreases a.len() - i,
    {
        if a[i] != b[i] {
            return false;
        }
        i = i + 1;
    }
    assert(a@ =~= b@);
    true
}

/// Whether `text` has `prefix` at position `at`.
pub open spec fn has_at(text: Seq<u8>, at: int, prefix: Seq<u8>) -> bool {
    0 <= at && at + prefix.len() <= text.len() && text.subrange(at, at + prefix.len()) == prefix
}

/// Whether `text` has `prefix` at position `at`.
pub fn matches_at(text: &[u8], at: usize, prefix: &[u8]) -> (found: bool)
    ensures
        found == has_at(text@, at as int, prefix@),
{
    if at > text.len() || prefix.len() > text.len() - at {
        return false;
    }
    bytes_equal(&text[at..at + prefix.len()], prefix)
}

/// The first position at or after `from` that holds `byte`, or the length of
/// `text` where there is none.
pub open spec fn position_of(text: Seq<u8>, from: int, byte: u8) -> int
    decreases text.len() - from,
{
    if from < 0 || from >= text.len() {
        text.len() as int
    } else if text[from] == byte {
        from
    } else {
        position_of(text, from + 1, byte)
    }
}

/// What [`position_of`] finds: the place of the first `byte` from `from` on.
pub proof fn lemma_position_of(text: Seq<u8>, from: int, byte: u8)
    requires
        0 <= from <= text.len(),
    ensures
        from <= position_of(text, from, byte) <= text.len(),
        position_of(text, from, byte) < text.len() ==> text[position_of(text, from, byte)] == byte,
        forall|k: int| from <= k < position_of(text, from, byte) ==> text[k] != byte,
    decreases text.len() - from,
{
    if from < text.len() && text[from] != byte {
        lemma_position_of(text, from + 1, byte);
    }
}

/// Finds the first position at or after `from` that holds `byte`; gives the
/// length of `text` where there is none.
pub fn find_byte(text: &[u8], from: usize, byte: u8) -> (at: usize)
    requires
        from <= text.len(),
    ensures
        at == position_of(text@, from as int, byte),
        from <= at <= text.len(),
{
    let mut i: usize = from;
    while i < text.len() && text[i] != byte
        invariant
            from <= i <= text.len(),
            position_of(text@, i as int, byte) == position_of(text@, from as int, byte),
        decreases text.len() - i,
    {
        i = i + 1;
    }
    i
}

/// If `at` holds `byte` and nothing between `from` and `at` does, the search
/// from `from` stops at `at`.
pub proof fn lemma_position_is(text: Seq<u8>, from: int, byte: u8, at: int)
    requires
        0 <= from <= at < text.len(),
        text[at] == byte,
        forall|k: int| from <= k < at ==> text[k] != byte,
    ensures
        position_of(text, from, byte) == at,
    decreases at - from,
{
    if from < at {
        lemma_position_is(text, from + 1, byte, at);
    }
}

/// Whether a byte is a decimal digit.
pub open spec fn is_digit(b: u8) -> bool {
    0x30 <= b <= 0x39
}

/// The decimal numeral of `n`, without leading zeros.
pub open spec fn decimal(n: nat) -> Seq<u8>
    decreases n,
{
    if n < 10 {
        seq![(0x30 + n) as u8]
    } else {
        decimal(n / 10).push((0x30 + n % 10) as u8)
    }
}

/// The number that a string of digits spells; zero for the empty string.
pub open spec fn digits_value(text: Seq<u8>) -> nat
    decreases text.len(),
{
    if text.len() == 0 {
        0
    } else {
        digits_value(text.drop_last()) * 10 + (text.last() - 0x30) as nat
    }
}

/// The number that a decimal numeral spells: `None` where the text is empty
/// or holds anything but digits.
pub open spec fn decimal_value(text: Seq<u8>) -> Option<nat> {
    if text.len() > 0 && forall|i: int| 0 <= i < text.len() ==> is_digit(#[trigger] text[i]) {
        Some(digits_value(text))
    } else {
        None
    }
}

/// Law: the numeral of a number spells that number, in digits only.
pub proof fn lemma_decimal_round_trip(n: nat)
    ensures
        decimal_value(decimal(n)) == Some(n),
        decimal(n).len() > 0,
        forall|i: int| 0 <= i < decimal(n).len() ==> is_digit(#[trigger] decimal(n)[i]),
    decreases n,
{
    if n >= 10 {
        lemma_decimal_round_trip(n / 10);
        let longer = decimal(n);
        assert(longer.drop_last() =~= decimal(n / 10));
        assert forall|i: int| 0 <= i < longer.len() implies is_digit(#[trigger] longer[i]) by {
            if i < longer.len() - 1 {
                assert(longer[i] == decimal(n / 10)[i]);
            }
        }
        assert(digits_value(longer) == digits_value(longer.drop_last()) * 10 + (longer.last()
            - 0x30) as nat);
        assert(digits_value(decimal(n / 10)) == n / 10);
    } else {
        let short = decimal(n);
        assert(short.drop_last() =~= Seq::<u8>::empty());
        assert(digits_value(short) == digits_value(short.drop_last()) * 10 + (short.last()
            - 0x30) as nat);
        assert(digits_value(short.drop_last()) == 0);
    }
}

/// Appends the decimal numeral of `n` to `out`.
pub fn push_decimal(out: &mut Vec<u8>, n: u64)
    ensures
        final(out)@ == old(out)@ + decimal(n as nat),
    decreases n,
{
    if n >= 10 {
        push_decimal(out, n / 10);
    }
    out.push(0x30 + (n % 10) as u8);
    assert(out@ =~= old(out)@ + decimal(n as nat));
}

proof fn lemma_digits_grow(text: Seq<u8>, shorter: int)
    requires
        0 <= shorter <= text.len(),
        forall|i: int| 0 <= i < text.len() ==> is_digit(#[trigger] text[i]),
    ensures
        digits_value(text.subrange(0, shorter)) <= digits_value(text),
    decreases text.len() - shorter,
{
    if shorter < text.len() {
        let next = text.subrange(0, shorter + 1);
        assert(next.drop_last() =~= text.subrange(0, shorter));
        lemma_digits_grow(text, shorter + 1);
    } else {
        assert(text.subrange(0, shorter) =~= text);
    }
}

/// Reads a decimal numeral. Gives `None` where the text is no numeral, and
/// where the number that it spells does not fit 64 bits.
pub fn parse_decimal(text: &[u8]) -> (r: Option<u64>)
    ensures
        match r {
            Some(n) => decimal_value(text@) == Some(n as nat),
            None => decimal_value(text@) matches Some(n) ==> n > u64::MAX,
        },
{
    if text.len() == 0 {
        return None;
    }
    let mut value: u64 = 0;
    let mut i: usize = 0;
    assert(text@.subrange(0, 0) =~= Seq::<u8>::empty());
    while i < text.len()
        invariant
            i <= text.len(),
            text.len() > 0,
            forall|j: int| 0 <= j < i ==> is_digit(#[trigger] text@[j]),
            value == digits_value(text@.subrange(0, i as int)),
        decreases text.len() - i,
    {
        let b: u8 = text[i];
        if b < 0x30 || b > 0x39 {
            return None;
        }
        let ghost next = text@.subrange(0, i + 1);
        assert(next.drop_last() =~= text@.subrange(0, i as int));
        assert(digits_value(next) == value * 10 + (b - 0x30));
        let grown: Option<u64> = match value.checked_mul(10) {
            Some(v) => v.checked_add((b - 0x30) as u64),
            None => None,
        };
        match grown {
            Some(v) => {
                value = v;
            },
            None => {
                proof {
                    if decimal_value(text@) is Some {
                        lemma_digits_grow(text@, i + 1);
                    }
                }
                return None;
            },
        }
        i = i + 1;
    }
    assert(text@.subrange(0, i as int) =~= text@);
    Some(value)
}

} // verus!
