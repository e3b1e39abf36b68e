use vstd::prelude::*;
use vstd::utf8::*;

verus! {

/// Relies on String::from_utf8: it succeeds exactly on valid UTF-8 and then holds the
/// characters those bytes encode.
#[verifier::external_body]
pub(crate) fn string_from_utf8(b: Vec<u8>) -> (r: Option<String>)
    ensures
        r is Some <==> valid_utf8(b@),
        r matches Some(s) ==> s@ == decode_utf8(b@),
{
    String::from_utf8(b).ok()
}

/// The bytes `b[start..end]`.
pub fn copy_range(b: &[u8], start: usize, end: usize) -> (r: Vec<u8>)
    requires
        start <= end <= b@.len(),
    ensures
        r@ == b@.subrange(start as int, end as int),
{
    let mut r: Vec<u8> = Vec::new();
    let mut i: usize = start;
    while i < end
        invariant
            start <= i <= end <= b@.len(),
            r@ == b@.subrange(start as int, i as int),
        decreases end - i,
    {
        r.push(b[i]);
        i = i + 1;
        assert(r@ =~= b@.subrange(start as int, i as int));
    }
    r
}

/// Whether `b[start..end]` equals `key`.
pub fn range_eq(b: &[u8], start: usize, end: usize, key: &[u8]) -> (r: bool)
    requires
        start <= end <= b@.len(),
    ensures
        r == (b@.subrange(start as int, end as int) == key@),
{
    if end - start != key.len() {
        return false;
    }
    let mut i: usize = 0;
    while i < key.len()
        invariant
            end - start == key@.len(),
            start <= end <= b@.len(),
            i <= key@.len(),
            forall|j: int| 0 <= j < i ==> b@[start + j] == key@[j],
        decreases key.len() - i,
    {
        if b[start + i] != key[i] {
            assert(b@.subrange(start as int, end as int)[i as int] != key@[i as int]);
            return false;
        }
        i = i + 1;
    }
    assert(b@.subrange(start as int, end as int) =~= key@);
    true
}

} // verus!
