//! Trusted boundary around `allocator_api2`'s vector, which holds the
//! buffer's bytes so that the backing memory comes from a pluggable
//! allocation strategy rather than being hardwired to the host language's
//! default container. Every contract here mirrors what the crate's source
//! shows for the corresponding method; the rest of the library is verified
//! against these contracts.

use vstd::prelude::*;
use vstd::string::StringSliceAdditionalSpecFns;
use vstd::utf8::valid_utf8;

verus! {

/// The byte storage: `allocator_api2::vec::Vec`, instantiated with that
/// crate's global allocation strategy. The vector is opaque to the verifier;
/// its contents are spoken of through [`buf_bytes`], and every method the
/// buffer needs is reached through the wrappers below.
#[verifier::external_body]
pub struct ByteVec {
    pub vec: allocator_api2::vec::Vec<u8, allocator_api2::alloc::Global>,
}

/// The sequence of bytes currently held by the storage vector.
pub uninterp spec fn buf_bytes(v: ByteVec) -> Seq<u8>;

/// Relies on `allocator_api2::vec::Vec::new_in`: constructs an empty vector
/// that has not allocated yet.
#[verifier::external_body]
pub(crate) fn buf_new() -> (v: ByteVec)
    ensures
        buf_bytes(v) == Seq::<u8>::empty(),
{
    ByteVec { vec: allocator_api2::vec::Vec::new_in(allocator_api2::alloc::Global) }
}

/// Relies on `allocator_api2::vec::Vec::with_capacity_in`: constructs an
/// empty vector that can hold at least `capacity` elements.
#[verifier::external_body]
pub(crate) fn buf_with_capacity(capacity: usize) -> (v: ByteVec)
    ensures
        buf_bytes(v) == Seq::<u8>::empty(),
{
    ByteVec { vec: allocator_api2::vec::Vec::with_capacity_in(capacity, allocator_api2::alloc::Global) }
}

/// Relies on `allocator_api2::vec::Vec::len`: returns the number of elements.
#[verifier::external_body]
pub(crate) fn buf_len(v: &ByteVec) -> (n: usize)
    ensures
        n == buf_bytes(*v).len(),
{
    v.vec.len()
}

/// Relies on `allocator_api2::vec::Vec::push`: appends one element.
#[verifier::external_body]
pub(crate) fn buf_push(v: &mut ByteVec, b: u8)
    ensures
        buf_bytes(*final(v)) == buf_bytes(*old(v)).push(b),
{
    v.vec.push(b)
}

/// Relies on the `Index` impl of `allocator_api2::vec::Vec`: returns the
/// element at `i`.
#[verifier::external_body]
pub(crate) fn buf_get(v: &ByteVec, i: usize) -> (b: u8)
    requires
        i < buf_bytes(*v).len(),
    ensures
        b == buf_bytes(*v)[i as int],
{
    v.vec[i]
}

/// Relies on `allocator_api2::vec::Vec::insert`: inserts an element at
/// position `i`, shifting the elements after it to the right.
#[verifier::external_body]
pub(crate) fn buf_insert(v: &mut ByteVec, i: usize, b: u8)
    requires
        i <= buf_bytes(*old(v)).len(),
    ensures
        buf_bytes(*final(v)) == buf_bytes(*old(v)).insert(i as int, b),
{
    v.vec.insert(i, b)
}

/// Relies on `allocator_api2::vec::Vec::remove`: removes and returns the
/// element at position `i`, shifting the elements after it to the left.
#[verifier::external_body]
pub(crate) fn buf_remove(v: &mut ByteVec, i: usize) -> (b: u8)
    requires
        i < buf_bytes(*old(v)).len(),
    ensures
        b == buf_bytes(*old(v))[i as int],
        buf_bytes(*final(v)) == buf_bytes(*old(v)).remove(i as int),
{
    v.vec.remove(i)
}

/// Relies on `allocator_api2::vec::Vec::truncate`: keeps the first `n`
/// elements; a `n` past the current length leaves the vector unchanged.
/// Capacity is retained.
#[verifier::external_body]
pub(crate) fn buf_truncate(v: &mut ByteVec, n: usize)
    ensures
        n <= buf_bytes(*old(v)).len() ==> buf_bytes(*final(v)) == buf_bytes(*old(v)).subrange(
            0,
            n as int,
        ),
        n >= buf_bytes(*old(v)).len() ==> buf_bytes(*final(v)) == buf_bytes(*old(v)),
{
    v.vec.truncate(n)
}

/// Relies on `allocator_api2::vec::Vec::clear`: removes all elements while
/// retaining the allocated capacity.
#[verifier::external_body]
pub(crate) fn buf_clear(v: &mut ByteVec)
    ensures
        buf_bytes(*final(v)) == Seq::<u8>::empty(),
{
    v.vec.clear()
}

/// Relies on `allocator_api2::vec::Vec::extend_from_slice`: appends a copy
/// of every byte of the slice, in order.
#[verifier::external_body]
pub(crate) fn buf_extend_from_slice(v: &mut ByteVec, s: &[u8])
    ensures
        buf_bytes(*final(v)) == buf_bytes(*old(v)) + s@,
{
    v.vec.extend_from_slice(s)
}

/// Relies on `core::str::from_utf8`: on bytes that are valid UTF-8 it
/// returns `Ok` with the string slice over exactly those bytes, so the
/// `unwrap` cannot panic under this function's precondition.
#[verifier::external_body]
pub(crate) fn buf_as_str(v: &ByteVec) -> (s: &str)
    requires
        valid_utf8(buf_bytes(*v)),
    ensures
        s.spec_bytes() == buf_bytes(*v),
{
    core::str::from_utf8(v.vec.as_slice()).unwrap()
}

/// Relies on `core::str::from_utf8_mut`: on bytes that are valid UTF-8 it
/// returns `Ok` with the mutable string slice over exactly those bytes, so
/// the `unwrap` cannot panic under this function's precondition. Whatever
/// the caller writes through the slice, the vector afterwards holds that
/// string's bytes.
#[verifier::external_body]
pub(crate) fn buf_as_mut_str(v: &mut ByteVec) -> (s: &mut str)
    requires
        valid_utf8(buf_bytes(*old(v))),
    ensures
        s.spec_bytes() == buf_bytes(*old(v)),
        buf_bytes(*final(v)) == final(s).spec_bytes(),
{
    core::str::from_utf8_mut(v.vec.as_mut_slice()).unwrap()
}

} // verus!
