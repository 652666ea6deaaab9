//! Byte buffers of the `bytes` crate and UTF-8 text of the standard library,
//! as far as the broker touches them. Nothing in this file is proved: each
//! item states what the outside code is taken to do.

use bytes::Bytes;
use vstd::prelude::*;
use vstd::utf8::{decode_utf8, valid_utf8};

verus! {

/// `bytes::Bytes`: a buffer of bytes that is cheap to copy and to cut.
/// Nothing of its inside is visible here; what it holds is spoken of
/// through `bytes_contents`.
#[verifier::external_type_specification]
#[verifier::external_body]
pub struct ExBytes(bytes::Bytes);

/// The bytes that a `Bytes` value holds, first to last.
pub uninterp spec fn bytes_contents(b: &Bytes) -> Seq<u8>;

/// `Bytes::len`: the number of bytes held.
pub assume_specification[ Bytes::len ](b: &Bytes) -> (n: usize)
    ensures
        n == bytes_contents(b).len(),
;

/// `AsRef<[u8]>::as_ref` of `Bytes`: a view of the held bytes as a slice,
/// the same bytes in the same order.
#[verifier::external_body]
pub(crate) fn bytes_as_slice(b: &Bytes) -> (s: &[u8])
    ensures
        s@ == bytes_contents(b),
{
    b.as_ref()
}

/// `Bytes::slice`: a buffer that holds the bytes of `b` from index `begin`
/// up to, not including, `end`. The outside function panics unless
/// `begin <= end <= b.len()`.
#[verifier::external_body]
pub(crate) fn bytes_slice(b: &Bytes, begin: usize, end: usize) -> (r: Bytes)
    requires
        begin <= end <= bytes_contents(b).len(),
    ensures
        bytes_contents(&r) == bytes_contents(b).subrange(begin as int, end as int),
{
    b.slice(begin..end)
}

/// `Bytes::from(Vec<u8>)`: a buffer that holds exactly the bytes of the vector.
#[verifier::external_body]
pub(crate) fn bytes_from_vec(v: Vec<u8>) -> (b: Bytes)
    ensures
        bytes_contents(&b) == v@,
{
    Bytes::from(v)
}

/// `Clone::clone` of `Bytes`: a second handle on the same bytes.
pub assume_specification[ <Bytes as Clone>::clone ](b: &Bytes) -> (r: Bytes)
    ensures
        bytes_contents(&r) == bytes_contents(b),
;

/// `String::from_utf8`: succeeds exactly on well-formed UTF-8, and the
/// string then holds the characters that the bytes encode.
#[verifier::external_body]
pub(crate) fn string_from_utf8(bytes: Vec<u8>) -> (r: Option<String>)
    ensures
        r is Some <==> valid_utf8(bytes@),
        r matches Some(s) ==> s@ == decode_utf8(bytes@),
{
    match String::from_utf8(bytes) {
        Ok(s) => Some(s),
        Err(_) => None,
    }
}

} // verus!
