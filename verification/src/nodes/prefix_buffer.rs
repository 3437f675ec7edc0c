//! The inline byte buffer that backs a compressed key prefix.

use smallvec::SmallVec;
use vstd::prelude::*;

verus! {

/// The number of bytes stored for path compression in the node header.
pub const NUM_PREFIX_BYTES: usize = 8;

/// A growable run of bytes that lives inline while it is short.
///
/// The bytes are held by a `smallvec::SmallVec<[u8; 8]>`, which the verifier
/// does not look into: what it holds is known only through [`buffered`], and
/// through what the functions below are trusted to do to it.
#[verifier::external_body]
pub struct PrefixBuffer {
    bytes: SmallVec<[u8; NUM_PREFIX_BYTES]>,
}

/// The bytes that a buffer holds, first to last.
pub uninterp spec fn buffered(buffer: PrefixBuffer) -> Seq<u8>;

impl View for PrefixBuffer {
    type V = Seq<u8>;

    open spec fn view(&self) -> Seq<u8> {
        buffered(*self)
    }
}

impl PrefixBuffer {
    /// `SmallVec::new`: trusted to give a vector that holds no bytes.
    #[verifier::external_body]
    pub(crate) fn new() -> (buffer: PrefixBuffer)
        ensures
            buffered(buffer) == Seq::<u8>::empty(),
    {
        PrefixBuffer { bytes: SmallVec::new() }
    }

    /// `SmallVec::len`: trusted to give the number of bytes held.
    #[verifier::external_body]
    pub(crate) fn len(&self) -> (len: usize)
        ensures
            len == buffered(*self).len(),
    {
        self.bytes.len()
    }

    /// `SmallVec::as_slice`: trusted to give the bytes held, in order.
    #[verifier::external_body]
    pub(crate) fn as_slice(&self) -> (bytes: &[u8])
        ensures
            bytes@ == buffered(*self),
    {
        self.bytes.as_slice()
    }

    /// `SmallVec::extend_from_slice`: trusted to append the bytes of the slice
    /// behind those already held. The vector panics when the new length
    /// overflows, so the sum of the two lengths has to fit.
    #[verifier::external_body]
    pub(crate) fn extend_from_slice(&mut self, slice: &[u8])
        requires
            buffered(*old(self)).len() + slice@.len() <= usize::MAX,
        ensures
            buffered(*final(self)) == buffered(*old(self)) + slice@,
    {
        self.bytes.extend_from_slice(slice)
    }

    /// `SmallVec::drain` over `..count`, with what it hands out dropped at
    /// once: trusted to remove the first `count` bytes and keep the rest in
    /// order. The vector panics when the range ends behind the last byte.
    #[verifier::external_body]
    pub(crate) fn drain_front(&mut self, count: usize)
        requires
            count <= buffered(*old(self)).len(),
        ensures
            buffered(*final(self)) == buffered(*old(self)).skip(count as int),
    {
        drop(self.bytes.drain(..count))
    }

    /// `SmallVec::clone`: trusted to give a vector that holds the same bytes.
    #[verifier::external_body]
    pub(crate) fn duplicate(&self) -> (copy: PrefixBuffer)
        ensures
            buffered(copy) == buffered(*self),
    {
        PrefixBuffer { bytes: self.bytes.clone() }
    }
}

} // verus!
