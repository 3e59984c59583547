//! Byte searches, delegated to the `memchr` crate.
use vstd::prelude::*;

verus! {

/// Whether `needle` occurs in `hay` at index `k`.
pub open spec fn occurs_at(hay: Seq<u8>, needle: Seq<u8>, k: int) -> bool {
    0 <= k && k + needle.len() <= hay.len() && hay.subrange(k, k + needle.len()) == needle
}

/// Relies on `memchr::memchr`: the index of the first occurrence of `needle`
/// in `hay`, or `None` when it does not occur.
#[verifier::external_body]
pub(crate) fn find_byte(needle: u8, hay: &[u8]) -> (r: Option<usize>)
    ensures
        r matches Some(k) ==> k < hay@.len() && hay@[k as int] == needle,
        r matches Some(k) ==> forall|j: int| 0 <= j < k ==> hay@[j] != needle,
        r is None ==> forall|j: int| 0 <= j < hay@.len() ==> hay@[j] != needle,
{
    memchr::memchr(needle, hay)
}

/// Relies on `memchr::memmem::find`: the index of the first occurrence of
/// `needle` in `hay`, or `None` when it does not occur.
#[verifier::external_body]
pub(crate) fn find_slice(hay: &[u8], needle: &[u8]) -> (r: Option<usize>)
    ensures
        r matches Some(k) ==> occurs_at(hay@, needle@, k as int),
        r matches Some(k) ==> forall|j: int| 0 <= j < k ==> !occurs_at(hay@, needle@, j),
        r is None ==> forall|j: int| !occurs_at(hay@, needle@, j),
{
    memchr::memmem::find(hay, needle)
}

} // verus!
