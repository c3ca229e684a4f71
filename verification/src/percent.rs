//! Lenient percent-decoding of extended parameter values.
use crate::bytes::{find, lemma_find2, PERCENT};
use crate::search::first_byte;
use std::borrow::Cow;
use vstd::prelude::*;

verus! {

/// An ASCII hexadecimal digit: `0` to `9`, `a` to `f` or `A` to `F`.
pub open spec fn is_hex_digit(b: u8) -> bool {
    (0x30 <= b <= 0x39) || (0x61 <= b <= 0x66) || (0x41 <= b <= 0x46)
}

/// The number that a hexadecimal digit stands for.
pub open spec fn hex_value(b: u8) -> int
    recommends
        is_hex_digit(b),
{
    if 0x30 <= b <= 0x39 {
        b - 0x30
    } else if 0x61 <= b <= 0x66 {
        b - 0x61 + 10
    } else {
        b - 0x41 + 10
    }
}

/// `s` begins with an escape triple: `%` and two hexadecimal digits.
pub open spec fn starts_with_escape(s: Seq<u8>) -> bool {
    s.len() >= 3 && s[0] == PERCENT && is_hex_digit(s[1]) && is_hex_digit(s[2])
}

/// The byte that the escape triple at the front of `s` encodes.
pub open spec fn escape_value(s: Seq<u8>) -> u8
    recommends
        starts_with_escape(s),
{
    (16 * hex_value(s[1]) + hex_value(s[2])) as u8
}

/// `s` with every escape triple, read from left to right, replaced by the
/// byte it encodes. A `%` that begins no escape triple stands for itself.
pub open spec fn percent_decoded(s: Seq<u8>) -> Seq<u8>
    decreases s.len(),
{
    if s.len() == 0 {
        s
    } else if starts_with_escape(s) {
        seq![escape_value(s)] + percent_decoded(s.skip(3))
    } else {
        seq![s[0]] + percent_decoded(s.skip(1))
    }
}

/// The hexadecimal digit, in upper case, for a number below 16.
pub open spec fn hex_digit_of(v: u8) -> u8
    recommends
        v < 16,
{
    if v < 10 {
        (0x30 + v) as u8
    } else {
        (0x41 + v - 10) as u8
    }
}

/// `s` with every byte written as an escape triple.
pub open spec fn percent_encoded(s: Seq<u8>) -> Seq<u8>
    decreases s.len(),
{
    if s.len() == 0 {
        s
    } else {
        seq![PERCENT, hex_digit_of(s[0] / 16), hex_digit_of(s[0] % 16)] + percent_encoded(
            s.skip(1),
        )
    }
}

/// Input without a `%` decodes to itself.
pub proof fn lemma_percent_decoded_plain(s: Seq<u8>)
    requires
        forall|j: int| 0 <= j < s.len() ==> s[j] != PERCENT,
    ensures
        percent_decoded(s) == s,
    decreases s.len(),
{
    if s.len() > 0 {
        let t = s.skip(1);
        assert forall|j: int| 0 <= j < t.len() implies t[j] != PERCENT by {
            assert(t[j] == s[j + 1]);
        }
        lemma_percent_decoded_plain(t);
        assert(seq![s[0]] + t =~= s);
    }
}

/// The value of a hexadecimal digit, `None` for any other byte.
pub fn hex_digit(b: u8) -> (r: Option<u8>)
    ensures
        r is Some <==> is_hex_digit(b),
        r matches Some(v) ==> v == hex_value(b) && v < 16,
{
    if 0x30 <= b && b <= 0x39 {
        Some(b - 0x30)
    } else if 0x61 <= b && b <= 0x66 {
        Some(b - 0x61 + 10)
    } else if 0x41 <= b && b <= 0x46 {
        Some(b - 0x41 + 10)
    } else {
        None
    }
}

/// The byte encoded by an escape triple at `input[i..]`, `None` when there
/// is no escape triple at that place.
pub fn escape_at(input: &[u8], i: usize) -> (r: Option<u8>)
    ensures
        r is Some <==> i < input@.len() && starts_with_escape(input@.skip(i as int)),
        r matches Some(v) ==> v == escape_value(input@.skip(i as int)),
{
    if i >= input.len() || input[i] != PERCENT || input.len() - i < 3 {
        return None;
    }
    match (hex_digit(input[i + 1]), hex_digit(input[i + 2])) {
        (Some(high), Some(low)) => Some(16 * high + low),
        _ => None,
    }
}

/// Decodes the `%XX` escapes of `input`.
///
/// Always succeeds. A `%` that is not followed by two hexadecimal digits is
/// copied as it stands. Input without any `%` is handed back borrowed.
pub fn percent_decode(input: &[u8]) -> (r: Option<Cow<'_, [u8]>>)
    ensures
        r matches Some(decoded) && decoded@ == percent_decoded(input@),
        find(input@, PERCENT) == input@.len() ==> (r matches Some(Cow::Borrowed(b)) && b@ == input@),
        find(input@, PERCENT) < input@.len() ==> (r matches Some(Cow::Owned(_))),
{
    if first_byte(PERCENT, input).is_none() {
        proof {
            lemma_find2(input@, PERCENT, PERCENT);
            lemma_percent_decoded_plain(input@);
        }
        return Some(Cow::Borrowed(input));
    }
    let mut decoded: Vec<u8> = Vec::with_capacity(input.len());
    let mut i: usize = 0;
    assert(input@.skip(0) =~= input@);
    assert(decoded@ + percent_decoded(input@) =~= percent_decoded(input@));
    while i < input.len()
        invariant
            i <= input@.len(),
            decoded@ + percent_decoded(input@.skip(i as int)) == percent_decoded(input@),
        decreases input@.len() - i,
    {
        let ghost tail = input@.skip(i as int);
        let ghost before = decoded@;
        match escape_at(input, i) {
            Some(byte) => {
                decoded.push(byte);
                i += 3;
                proof {
                    assert(tail.skip(3) =~= input@.skip(i as int));
                    assert(decoded@ + percent_decoded(input@.skip(i as int)) =~= before
                        + percent_decoded(tail));
                }
            },
            None => {
                decoded.push(input[i]);
                i += 1;
                proof {
                    assert(tail.skip(1) =~= input@.skip(i as int));
                    assert(decoded@ + percent_decoded(input@.skip(i as int)) =~= before
                        + percent_decoded(tail));
                }
            },
        }
    }
    assert(decoded@ + percent_decoded(input@.skip(i as int)) =~= decoded@);
    Some(Cow::Owned(decoded))
}

} // verus!
