//! Byte-level vocabulary of the scanner: ASCII whitespace, case folding,
//! searching for a byte, and trimming.
use vstd::prelude::*;
use vstd::slice::slice_subrange;

verus! {

/// `;`, which separates the parameters of a header.
pub const SEMICOLON: u8 = 0x3b;

/// `=`, which stands between a parameter's name and its value.
pub const EQUALS: u8 = 0x3d;

/// `*`, which marks a parameter as given in extended form.
pub const ASTERISK: u8 = 0x2a;

/// `"`, which encloses a quoted value.
pub const QUOTE: u8 = 0x22;

/// `'`, which separates charset, language and value of an extended value.
pub const APOSTROPHE: u8 = 0x27;

/// `\`, which escapes a quote inside a quoted value.
pub const BACKSLASH: u8 = 0x5c;

/// The space character.
pub const SPACE: u8 = 0x20;

/// `%`, which begins an escape triple.
pub const PERCENT: u8 = 0x25;

/// The five bytes that count as ASCII whitespace: space, horizontal tab,
/// line feed, form feed and carriage return.
pub open spec fn is_ws(b: u8) -> bool {
    b == 0x20 || b == 0x09 || b == 0x0a || b == 0x0c || b == 0x0d
}

/// Number of whitespace bytes at the front of `s`.
pub open spec fn leading_ws(s: Seq<u8>) -> int
    decreases s.len(),
{
    if s.len() > 0 && is_ws(s[0]) {
        1 + leading_ws(s.skip(1))
    } else {
        0
    }
}

/// `s` without its leading whitespace.
pub open spec fn trim_start(s: Seq<u8>) -> Seq<u8> {
    s.skip(leading_ws(s))
}

/// Index of the first byte of `s` equal to `a` or to `b`; `s.len()` when
/// there is none.
pub open spec fn find2(s: Seq<u8>, a: u8, b: u8) -> int
    decreases s.len(),
{
    if s.len() == 0 || s[0] == a || s[0] == b {
        0
    } else {
        1 + find2(s.skip(1), a, b)
    }
}

/// Index of the first byte of `s` equal to `a`; `s.len()` when there is none.
pub open spec fn find(s: Seq<u8>, a: u8) -> int {
    find2(s, a, a)
}

/// `leading_ws` is the index of the first byte that is no whitespace.
pub proof fn lemma_leading_ws(s: Seq<u8>)
    ensures
        0 <= leading_ws(s) <= s.len(),
        forall|j: int| 0 <= j < leading_ws(s) ==> is_ws(#[trigger] s[j]),
        leading_ws(s) < s.len() ==> !is_ws(s[leading_ws(s)]),
    decreases s.len(),
{
    if s.len() > 0 && is_ws(s[0]) {
        let t = s.skip(1);
        lemma_leading_ws(t);
        assert forall|j: int| 0 <= j < leading_ws(s) implies is_ws(#[trigger] s[j]) by {
            if j > 0 {
                assert(s[j] == t[j - 1]);
            }
        }
        if leading_ws(s) < s.len() {
            assert(s[leading_ws(s)] == t[leading_ws(t)]);
        }
    }
}

/// Any index with only whitespace before it and none at it is `leading_ws`.
pub proof fn lemma_leading_ws_unique(s: Seq<u8>, n: int)
    requires
        0 <= n <= s.len(),
        forall|j: int| 0 <= j < n ==> is_ws(#[trigger] s[j]),
        n < s.len() ==> !is_ws(s[n]),
    ensures
        leading_ws(s) == n,
    decreases s.len(),
{
    if n > 0 {
        let t = s.skip(1);
        assert(is_ws(s[0]));
        assert forall|j: int| 0 <= j < n - 1 implies is_ws(#[trigger] t[j]) by {
            assert(t[j] == s[j + 1]);
        }
        lemma_leading_ws_unique(t, n - 1);
    }
}

/// `find2` is the index of the first occurrence of either byte.
pub proof fn lemma_find2(s: Seq<u8>, a: u8, b: u8)
    ensures
        0 <= find2(s, a, b) <= s.len(),
        forall|j: int| 0 <= j < find2(s, a, b) ==> #[trigger] s[j] != a && s[j] != b,
        find2(s, a, b) < s.len() ==> s[find2(s, a, b)] == a || s[find2(s, a, b)] == b,
    decreases s.len(),
{
    if !(s.len() == 0 || s[0] == a || s[0] == b) {
        let t = s.skip(1);
        lemma_find2(t, a, b);
        assert forall|j: int| 0 <= j < find2(s, a, b) implies #[trigger] s[j] != a && s[j]
            != b by {
            if j > 0 {
                assert(s[j] == t[j - 1]);
            }
        }
        if find2(s, a, b) < s.len() {
            assert(s[find2(s, a, b)] == t[find2(t, a, b)]);
        }
    }
}

/// Any index with neither byte before it and one of them at it is `find2`.
pub proof fn lemma_find2_unique(s: Seq<u8>, a: u8, b: u8, n: int)
    requires
        0 <= n <= s.len(),
        forall|j: int| 0 <= j < n ==> #[trigger] s[j] != a && s[j] != b,
        n < s.len() ==> s[n] == a || s[n] == b,
    ensures
        find2(s, a, b) == n,
    decreases s.len(),
{
    if n > 0 {
        let t = s.skip(1);
        assert(s[0] != a && s[0] != b);
        assert forall|j: int| 0 <= j < n - 1 implies #[trigger] t[j] != a && t[j] != b by {
            assert(t[j] == s[j + 1]);
        }
        lemma_find2_unique(t, a, b, n - 1);
    }
}

/// Tells whether `b` is ASCII whitespace.
pub fn is_ascii_ws(b: u8) -> (r: bool)
    ensures
        r == is_ws(b),
{
    b == 0x20 || b == 0x09 || b == 0x0a || b == 0x0c || b == 0x0d
}

/// Strips leading ASCII whitespace: the result is the longest suffix of
/// `bytes` that does not begin with a whitespace byte, empty when every byte
/// is whitespace.
pub fn trim_ascii_ws_start(bytes: &[u8]) -> (r: &[u8])
    ensures
        r@ == trim_start(bytes@),
        r@.len() + leading_ws(bytes@) == bytes@.len(),
        r@.len() > 0 ==> !is_ws(r@[0]),
        forall|j: int| 0 <= j < leading_ws(bytes@) ==> is_ws(#[trigger] bytes@[j]),
{
    let mut i: usize = 0;
    while i < bytes.len() && is_ascii_ws(bytes[i])
        invariant
            i <= bytes@.len(),
            forall|j: int| 0 <= j < i ==> is_ws(#[trigger] bytes@[j]),
        decreases bytes@.len() - i,
    {
        i += 1;
    }
    proof {
        lemma_leading_ws_unique(bytes@, i as int);
    }
    slice_subrange(bytes, i, bytes.len())
}

/// Strips leading ASCII whitespace and then expects `delimiter`: returns what
/// follows it, or `None` when the first byte after the whitespace is another
/// one or the input ends there.
pub fn trim_ascii_ws_then(bytes: &[u8], delimiter: u8) -> (r: Option<&[u8]>)
    ensures
        r is Some <==> trim_start(bytes@).len() > 0 && trim_start(bytes@)[0] == delimiter,
        r matches Some(rest) ==> rest@ == trim_start(bytes@).skip(1),
{
    let trimmed = trim_ascii_ws_start(bytes);
    if trimmed.len() > 0 && trimmed[0] == delimiter {
        Some(slice_subrange(trimmed, 1, trimmed.len()))
    } else {
        None
    }
}

} // verus!
