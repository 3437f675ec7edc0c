//! The header that every inner node starts with.

use crate::nodes::prefix_buffer::{PrefixBuffer, NUM_PREFIX_BYTES};
use vstd::prelude::*;

verus! {

/// Whether `count` is the number of leading bytes on which `a` and `b`
/// agree: they agree on that many, and either one of them ends there or the
/// next bytes differ.
pub open spec fn is_common_prefix_len(a: Seq<u8>, b: Seq<u8>, count: int) -> bool {
    &&& 0 <= count <= a.len()
    &&& count <= b.len()
    &&& forall|i: int| 0 <= i < count ==> a[i] == b[i]
    &&& count < a.len() && count < b.len() ==> a[count] != b[count]
}

/// The number of leading bytes on which `a` and `b` agree.
pub open spec fn common_prefix_len(a: Seq<u8>, b: Seq<u8>) -> nat
    decreases a.len(),
{
    if a.len() > 0 && b.len() > 0 && a[0] == b[0] {
        1 + common_prefix_len(a.skip(1), b.skip(1))
    } else {
        0
    }
}

/// The recursive count of agreeing bytes is the one number that
/// [`is_common_prefix_len`] accepts.
pub proof fn lemma_common_prefix_len(a: Seq<u8>, b: Seq<u8>, count: int)
    ensures
        is_common_prefix_len(a, b, common_prefix_len(a, b) as int),
        is_common_prefix_len(a, b, count) ==> count == common_prefix_len(a, b),
    decreases a.len(),
{
    if a.len() > 0 && b.len() > 0 && a[0] == b[0] {
        let a1 = a.skip(1);
        let b1 = b.skip(1);
        lemma_common_prefix_len(a1, b1, count - 1);
        let n = common_prefix_len(a1, b1) as int;
        assert forall|i: int| 0 <= i < n + 1 implies a[i] == b[i] by {
            if i > 0 {
                assert(a1[i - 1] == a[i]);
                assert(b1[i - 1] == b[i]);
            }
        }
        if n + 1 < a.len() && n + 1 < b.len() {
            assert(a1[n] == a[n + 1]);
            assert(b1[n] == b[n + 1]);
        }
        if is_common_prefix_len(a, b, count) {
            if count == 0 {
                assert(a[0] != b[0]);
            }
            assert forall|i: int| 0 <= i < count - 1 implies a1[i] == b1[i] by {
                assert(a1[i] == a[i + 1]);
                assert(b1[i] == b[i + 1]);
            }
            if count - 1 < a1.len() && count - 1 < b1.len() {
                assert(a1[count - 1] == a[count]);
                assert(b1[count - 1] == b[count]);
            }
            assert(is_common_prefix_len(a1, b1, count - 1));
        }
    } else {
        if is_common_prefix_len(a, b, count) && count > 0 {
            assert(a[0] == b[0]);
        }
    }
}

/// What a header stands for.
pub ghost struct HeaderView {
    /// Number of children of the inner node.
    pub num_children: nat,
    /// The whole compressed key prefix of the node.
    pub prefix: Seq<u8>,
    /// The leading bytes of the prefix that the header holds inline.
    pub stored: Seq<u8>,
    /// The number of bytes that the header takes the whole prefix to have.
    pub prefix_len: nat,
}

/// The common header for all inner nodes
pub struct Header {
    /// Number of children of this inner node. This field has no meaning for
    /// a leaf node.
    pub num_children: u16,
    /// The number of bytes in the key prefix of this node, stored or not.
    pub prefix_len: usize,
    /// The leading bytes of the key prefix for this node, at most
    /// [`NUM_PREFIX_BYTES`] of them.
    pub prefix: PrefixBuffer,
    /// The whole key prefix for this node. The bytes that the buffer has no
    /// room for are found again in the key of any leaf under the node.
    pub whole_prefix: Ghost<Seq<u8>>,
}

impl View for Header {
    type V = HeaderView;

    open spec fn view(&self) -> HeaderView {
        HeaderView {
            num_children: self.num_children as nat,
            prefix: self.whole_prefix@,
            stored: self.prefix@,
            prefix_len: self.prefix_len as nat,
        }
    }
}

/// The stored bytes after `new_bytes` are written behind a prefix of
/// `prefix_len` bytes of which `stored` are held: bytes are stored only while
/// every byte before them is stored and the buffer has room.
pub open spec fn stored_after_write(stored: Seq<u8>, prefix_len: int, new_bytes: Seq<u8>) -> Seq<
    u8,
> {
    if stored.len() == prefix_len && stored.len() < NUM_PREFIX_BYTES {
        if stored.len() + new_bytes.len() <= NUM_PREFIX_BYTES {
            stored + new_bytes
        } else {
            stored + new_bytes.take(NUM_PREFIX_BYTES - stored.len())
        }
    } else {
        stored
    }
}

impl Header {
    /// The stored bytes lead the whole prefix, fit the inline buffer, and the
    /// recorded length is that of the whole prefix.
    pub open spec fn wf(&self) -> bool {
        &&& self.prefix@.len() <= NUM_PREFIX_BYTES
        &&& self.prefix@.is_prefix_of(self.whole_prefix@)
        &&& self.prefix_len == self.whole_prefix@.len()
        &&& self.num_children <= 256
    }

    /// Create a new `Header` for an empty node.
    pub fn empty() -> (header: Self)
        ensures
            header.wf(),
            header@ == (HeaderView {
                num_children: 0,
                prefix: seq![],
                stored: seq![],
                prefix_len: 0,
            }),
    {
        Header {
            num_children: 0,
            prefix_len: 0,
            prefix: PrefixBuffer::new(),
            whole_prefix: Ghost(Seq::empty()),
        }
    }

    /// Write prefix bytes to this header, appending to existing bytes if
    /// present.
    ///
    /// If the total numbers of bytes (existing + new) is greater than
    /// [`NUM_PREFIX_BYTES`], the stored prefix is truncated to
    /// [`NUM_PREFIX_BYTES`] length and the remainder is represented
    /// implicitly by the length. This doesn't present an issue to the radix
    /// tree operation (lookup, insert, etc) because the full key is always
    /// stored in the leaf nodes.
    pub fn write_prefix(&mut self, new_bytes: &[u8])
        requires
            old(self).wf(),
            old(self).prefix_len + new_bytes@.len() <= usize::MAX,
        ensures
            final(self).wf(),
            final(self)@.num_children == old(self)@.num_children,
            final(self)@.prefix == old(self)@.prefix + new_bytes@,
            final(self)@.prefix_len == old(self)@.prefix_len + new_bytes@.len(),
            final(self)@.stored == stored_after_write(
                old(self)@.stored,
                old(self)@.prefix.len() as int,
                new_bytes@,
            ),
    {
        let stored_len = self.prefix.len();
        if stored_len == self.prefix_len && stored_len < NUM_PREFIX_BYTES {
            let room = NUM_PREFIX_BYTES - stored_len;
            if new_bytes.len() <= room {
                self.prefix.extend_from_slice(new_bytes);
            } else {
                let head = vstd::slice::slice_subrange(new_bytes, 0, room);
                self.prefix.extend_from_slice(head);
            }
        }
        self.prefix_len = self.prefix_len + new_bytes.len();
        proof {
            self.whole_prefix@ = self.whole_prefix@ + new_bytes@;
        }
    }

    /// Remove the specified number of bytes from the start of the prefix.
    ///
    /// The bytes to remove must all be stored ones.
    pub fn ltrim_prefix(&mut self, num_bytes: usize)
        requires
            old(self).wf(),
            num_bytes <= old(self)@.stored.len(),
        ensures
            final(self).wf(),
            final(self)@.num_children == old(self)@.num_children,
            final(self)@.prefix == old(self)@.prefix.skip(num_bytes as int),
            final(self)@.prefix_len == old(self)@.prefix_len - num_bytes,
            final(self)@.stored == old(self)@.stored.skip(num_bytes as int),
    {
        self.prefix.drain_front(num_bytes);
        self.prefix_len = self.prefix_len - num_bytes;
        proof {
            self.whole_prefix@ = self.whole_prefix@.skip(num_bytes as int);
        }
    }

    /// Read the initialized portion of the prefix present in the header.
    ///
    /// The `prefix_size` can be larger than the `read_prefix().len()` because
    /// only [`NUM_PREFIX_BYTES`] are stored.
    pub fn read_prefix(&self) -> (stored: &[u8])
        ensures
            stored@ == self@.stored,
    {
        self.prefix.as_slice()
    }

    /// Return the number of bytes in the prefix.
    pub fn prefix_size(&self) -> (size: usize)
        ensures
            size == self@.prefix_len,
            self.wf() ==> size == self@.prefix.len(),
    {
        self.prefix_len
    }

    /// Compares the compressed path of a node with the key and returns the
    /// number of equal bytes.
    pub fn match_prefix(&self, possible_key: &[u8]) -> (num_matching_bytes: usize)
        ensures
            is_common_prefix_len(self@.stored, possible_key@, num_matching_bytes as int),
            num_matching_bytes == common_prefix_len(self@.stored, possible_key@),
    {
        let inited_prefix = self.read_prefix();
        let limit = if inited_prefix.len() < possible_key.len() {
            inited_prefix.len()
        } else {
            possible_key.len()
        };
        let mut num_matching_bytes: usize = 0;
        while num_matching_bytes < limit && inited_prefix[num_matching_bytes]
            == possible_key[num_matching_bytes]
            invariant
                num_matching_bytes <= limit,
                limit <= inited_prefix@.len(),
                limit <= possible_key@.len(),
                limit == inited_prefix@.len() || limit == possible_key@.len(),
                forall|i: int| 0 <= i < num_matching_bytes ==> inited_prefix@[i] == possible_key@[i],
            decreases limit - num_matching_bytes,
        {
            num_matching_bytes += 1;
        }
        proof {
            lemma_common_prefix_len(self@.stored, possible_key@, num_matching_bytes as int);
        }
        num_matching_bytes
    }

    /// Return the number of children of this node.
    pub fn num_children(&self) -> (count: usize)
        ensures
            count == self@.num_children,
    {
        self.num_children as usize
    }
}

impl Clone for Header {
    fn clone(&self) -> (copy: Self)
        ensures
            copy@ == self@,
            copy.prefix_len == self.prefix_len,
            self.wf() ==> copy.wf(),
    {
        Header {
            num_children: self.num_children,
            prefix_len: self.prefix_len,
            prefix: self.prefix.duplicate(),
            whole_prefix: self.whole_prefix,
        }
    }
}

impl Default for Header {
    fn default() -> (header: Self)
        ensures
            header.wf(),
            header@ == (HeaderView {
                num_children: 0,
                prefix: seq![],
                stored: seq![],
                prefix_len: 0,
            }),
    {
        Header::empty()
    }
}

} // verus!
