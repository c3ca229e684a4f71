//! The fields of a header by their place: what the scan finds, said of the
//! semicolons of the header one by one.
use crate::bytes::{is_ws, leading_ws, lemma_leading_ws, trim_start, SEMICOLON};
use crate::content_disposition::first_extended;
use crate::parser::{has_prefix, lower, next_field, parameter_field, FieldView};
use vstd::prelude::*;

verus! {

/// The field named `prefix`, if any, that the parameter after the `;` at
/// index `i` of `header` holds.
pub open spec fn field_at(header: Seq<u8>, i: int, prefix: Seq<u8>) -> Option<FieldView> {
    if 0 <= i < header.len() && header[i] == SEMICOLON {
        match parameter_field(header.skip(i + 1), prefix) {
            Some((field, _)) => Some(field),
            None => None,
        }
    } else {
        None
    }
}

/// The parameter after the `;` at index `i` of `header` holds a field named
/// `prefix` in extended form.
pub open spec fn extended_at(header: Seq<u8>, i: int, prefix: Seq<u8>) -> bool {
    field_at(header, i, prefix) matches Some(field) && field.is_extended
}

/// Index of the leftmost `;` of `header` whose parameter holds a field
/// named `prefix`; `header.len()` when there is none.
pub open spec fn first_field_index(header: Seq<u8>, prefix: Seq<u8>) -> int
    decreases header.len(),
{
    if header.len() == 0 {
        0
    } else if header[0] == SEMICOLON && parameter_field(header.skip(1), prefix) is Some {
        0
    } else {
        1 + first_field_index(header.skip(1), prefix)
    }
}

/// A field of a suffix of the header is a field of the header.
pub proof fn lemma_field_at_skip(header: Seq<u8>, m: int, j: int, prefix: Seq<u8>)
    requires
        0 <= m <= header.len(),
        0 <= j,
    ensures
        field_at(header.skip(m), j, prefix) == field_at(header, j + m, prefix),
{
    if j < header.len() - m {
        assert(header.skip(m).skip(j + 1) =~= header.skip(j + m + 1));
    }
}

/// `next_field` is the field at `first_field_index`, and no field stands
/// before that index.
pub proof fn lemma_first_field(header: Seq<u8>, prefix: Seq<u8>)
    ensures
        0 <= first_field_index(header, prefix) <= header.len(),
        forall|j: int|
            0 <= j < first_field_index(header, prefix) ==> field_at(header, j, prefix) is None,
        first_field_index(header, prefix) < header.len() ==> {
            &&& header[first_field_index(header, prefix)] == SEMICOLON
            &&& field_at(header, first_field_index(header, prefix), prefix) is Some
            &&& next_field(header, prefix) == parameter_field(
                header.skip(first_field_index(header, prefix) + 1),
                prefix,
            )
        },
        first_field_index(header, prefix) == header.len() ==> next_field(header, prefix) is None,
    decreases header.len(),
{
    if header.len() == 0 {
    } else if header[0] == SEMICOLON && parameter_field(header.skip(1), prefix) is Some {
    } else {
        let tail = header.skip(1);
        lemma_first_field(tail, prefix);
        let k = first_field_index(tail, prefix);
        assert forall|j: int| 0 <= j < k + 1 implies field_at(header, j, prefix) is None by {
            if j > 0 {
                lemma_field_at_skip(header, 1, j - 1, prefix);
            }
        }
        if k < tail.len() {
            lemma_field_at_skip(header, 1, k, prefix);
            assert(tail.skip(k + 1) =~= header.skip(k + 2));
        }
    }
}

/// The scan continues after the name of the field it found, and no `;`
/// stands between that field's `;` and the place where it continues,
/// unless `prefix` itself holds one.
pub proof fn lemma_rest_of_field(header: Seq<u8>, i: int, prefix: Seq<u8>)
    requires
        field_at(header, i, prefix) is Some,
        forall|k: int| 0 <= k < prefix.len() ==> prefix[k] != SEMICOLON,
    ensures
        ({
            let m = i + 1 + leading_ws(header.skip(i + 1)) + prefix.len();
            &&& i < m <= header.len()
            &&& parameter_field(header.skip(i + 1), prefix) matches Some((_, rest)) && rest
                == header.skip(m)
            &&& forall|j: int| i < j < m ==> header[j] != SEMICOLON
        }),
{
    let parameter = header.skip(i + 1);
    let gap = leading_ws(parameter);
    let candidate = trim_start(parameter);
    let m = i + 1 + gap + prefix.len();
    lemma_leading_ws(parameter);
    assert(has_prefix(candidate, prefix));
    assert(candidate.skip(prefix.len() as int) =~= header.skip(m));
    assert forall|j: int| i < j < m implies header[j] != SEMICOLON by {
        if j < i + 1 + gap {
            assert(header[j] == parameter[j - i - 1]);
            assert(is_ws(parameter[j - i - 1]));
        } else {
            let k = j - i - 1 - gap;
            assert(header[j] == candidate[k]);
            assert(lower(candidate[k]) == lower(prefix[k]));
        }
    }
}

/// The leftmost field in extended form is the one that `first_extended`
/// finds, whatever fields in plain form stand before it.
pub proof fn lemma_first_extended_is_leftmost(header: Seq<u8>, prefix: Seq<u8>, i: int)
    requires
        forall|k: int| 0 <= k < prefix.len() ==> prefix[k] != SEMICOLON,
        extended_at(header, i, prefix),
        forall|j: int| 0 <= j < i ==> !extended_at(header, j, prefix),
    ensures
        field_at(header, i, prefix) matches Some(field) && first_extended(header, prefix) == Some(
            field.value,
        ),
    decreases header.len(),
{
    lemma_first_field(header, prefix);
    let k = first_field_index(header, prefix);
    if k < i {
        assert(!extended_at(header, k, prefix));
        lemma_rest_of_field(header, k, prefix);
        let m = k + 1 + leading_ws(header.skip(k + 1)) + prefix.len();
        let rest = header.skip(m);
        lemma_field_at_skip(header, m, i - m, prefix);
        assert forall|j: int| 0 <= j < i - m implies !extended_at(rest, j, prefix) by {
            lemma_field_at_skip(header, m, j, prefix);
            assert(!extended_at(header, j + m, prefix));
        }
        lemma_first_extended_is_leftmost(rest, prefix, i - m);
    }
}

/// Where no field is in extended form, `first_extended` finds nothing.
pub proof fn lemma_first_extended_none(header: Seq<u8>, prefix: Seq<u8>)
    requires
        forall|j: int| 0 <= j < header.len() ==> !extended_at(header, j, prefix),
    ensures
        first_extended(header, prefix) is None,
    decreases header.len(),
{
    lemma_first_field(header, prefix);
    let k = first_field_index(header, prefix);
    if k < header.len() {
        let parameter = header.skip(k + 1);
        let m = k + 1 + leading_ws(parameter) + prefix.len();
        lemma_leading_ws(parameter);
        assert(has_prefix(trim_start(parameter), prefix));
        let rest = header.skip(m);
        assert(trim_start(parameter).skip(prefix.len() as int) =~= rest);
        assert(!extended_at(header, k, prefix));
        assert forall|j: int| 0 <= j < rest.len() implies !extended_at(rest, j, prefix) by {
            lemma_field_at_skip(header, m, j, prefix);
            assert(!extended_at(header, j + m, prefix));
        }
        lemma_first_extended_none(rest, prefix);
    }
}

} // verus!
