//! Comparison of strings.

use vstd::prelude::*;

verus! {

/// Compares two strings.
pub fn same_text(a: &str, b: &str) -> (same: bool)
    ensures
        same == (a@ == b@),
{
    proof {
        // UTF-8 can be decoded, so different texts have different bytes.
        vstd::utf8::encode_utf8_decode_utf8(a@);
        vstd::utf8::encode_utf8_decode_utf8(b@);
    }
    let a_bytes: &[u8] = a.as_bytes();
    let b_bytes: &[u8] = b.as_bytes();
    if a_bytes.len() != b_bytes.len() {
        return false;
    }
    let mut i: usize = 0;
    while i < a_bytes.len()
        invariant
            i <= a_bytes@.len(),
            a_bytes@.len() == b_bytes@.len(),
            a_bytes@ == vstd::utf8::encode_utf8(a@),
            b_bytes@ == vstd::utf8::encode_utf8(b@),
            forall|j: int| 0 <= j < i ==> a_bytes@[j] == b_bytes@[j],
        decreases a_bytes@.len() - i,
    {
        if a_bytes[i] != b_bytes[i] {
            return false;
        }
        i += 1;
    }
    assert(a_bytes@ =~= b_bytes@);
    true
}

/// The lower-case form of an ASCII letter; any other character stays as it is.
pub open spec fn ascii_lower(c: char) -> char {
    if 'A' <= c <= 'Z' {
        (c as u32 + 32) as char
    } else {
        c
    }
}

/// Two texts that differ at most in the case of ASCII letters.
pub open spec fn same_ignoring_case(a: Seq<char>, b: Seq<char>) -> bool {
    &&& a.len() == b.len()
    &&& forall|i: int|
        #![trigger a[i]]
        #![trigger b[i]]
        0 <= i < a.len() ==> ascii_lower(a[i]) == ascii_lower(b[i])
}

fn to_ascii_lower(c: char) -> (lower: char)
    ensures
        lower == ascii_lower(c),
{
    if 'A' <= c && c <= 'Z' {
        (c as u8 + 32) as char
    } else {
        c
    }
}

/// Compares two strings, ASCII letters without regard to their case.
pub fn eq_ignore_ascii_case(a: &str, b: &str) -> (same: bool)
    ensures
        same == same_ignoring_case(a@, b@),
{
    let mut rest = b.chars();
    for c in it: a.chars()
        invariant
            vstd::std_specs::iter::IteratorSpec::remaining(&rest) == b@.skip(it.index()),
            it.index() <= b@.len(),
            it.seq() == a@,
            forall|i: int| 0 <= i < it.index() ==> ascii_lower(a@[i]) == ascii_lower(b@[i]),
    {
        match rest.next() {
            Some(d) => {
                if to_ascii_lower(c) != to_ascii_lower(d) {
                    return false;
                }
            },
            None => {
                return false;
            },
        }
    }
    rest.next().is_none()
}

} // verus!
