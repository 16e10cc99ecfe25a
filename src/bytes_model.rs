//! What this library relies on from `bytes::Bytes`: the type itself, a name
//! for the bytes a value holds, and contracts for the handful of methods that
//! the tokenizer and the assembler call.

use bytes::Bytes;
use vstd::prelude::*;

verus! {

#[verifier::external_type_specification]
#[verifier::external_body]
pub struct ExBytes(Bytes);

/// The bytes that a `Bytes` value holds, in order.
pub uninterp spec fn bytes_view(b: Bytes) -> Seq<u8>;

/// Relies on `Bytes::new`: an empty buffer.
pub assume_specification[ Bytes::new ]() -> (r: Bytes)
    ensures
        bytes_view(r) == Seq::<u8>::empty(),
;

/// Relies on `Bytes::len`: the number of bytes held.
pub assume_specification[ Bytes::len ](b: &Bytes) -> (r: usize)
    ensures
        r == bytes_view(*b).len(),
;

/// Relies on `Bytes::is_empty`: whether no byte is held.
pub assume_specification[ Bytes::is_empty ](b: &Bytes) -> (r: bool)
    ensures
        r == (bytes_view(*b).len() == 0),
;

/// Relies on `Bytes::split_to`: the first `at` bytes are returned and the
/// rest stay behind. It panics when `at` exceeds the length.
pub assume_specification[ Bytes::split_to ](b: &mut Bytes, at: usize) -> (r: Bytes)
    requires
        at <= bytes_view(*old(b)).len(),
    ensures
        bytes_view(r) == bytes_view(*old(b)).subrange(0, at as int),
        bytes_view(*final(b)) == bytes_view(*old(b)).subrange(at as int, bytes_view(*old(b)).len() as int),
;

/// Relies on indexing through `Bytes`'s `Deref` to `[u8]`: the byte at `i`.
#[verifier::external_body]
pub(crate) fn byte_at(b: &Bytes, i: usize) -> (r: u8)
    requires
        i < bytes_view(*b).len(),
    ensures
        r == bytes_view(*b)[i as int],
{
    b[i]
}

/// Relies on `Bytes::slice` with a range `start..`: a view of the bytes from
/// `start` on. It panics when `start` exceeds the length.
#[verifier::external_body]
pub(crate) fn slice_from(b: &Bytes, start: usize) -> (r: Bytes)
    requires
        start <= bytes_view(*b).len(),
    ensures
        bytes_view(r) == bytes_view(*b).subrange(start as int, bytes_view(*b).len() as int),
{
    b.slice(start..)
}

/// Relies on `impl From<Vec<u8>> for Bytes`: the vector's bytes, moved in.
#[verifier::external_body]
pub(crate) fn bytes_from_vec(v: Vec<u8>) -> (r: Bytes)
    ensures
        bytes_view(r) == v@,
{
    Bytes::from(v)
}

} // verus!
