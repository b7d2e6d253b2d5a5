//! The 80-byte header of a block.

use crate::buffer_operations::le_value;
use crate::buffer_operations::read_u32;
use crate::hash;
use vstd::prelude::*;
use vstd::slice::slice_subrange;

verus! {

/// The version field of the header that starts `b`.
pub open spec fn header_version(b: Seq<u8>) -> u32 {
    le_value(b.subrange(0, 4)) as u32
}

/// The hash of the parent block, as the header that starts `b` cites it.
pub open spec fn header_prev_hash(b: Seq<u8>) -> hash::Hash {
    hash::hash_of_bytes(b.subrange(4, 36))
}

/// The Merkle root in the header that starts `b`.
pub open spec fn header_merkle_root(b: Seq<u8>) -> hash::Hash {
    hash::hash_of_bytes(b.subrange(36, 68))
}

/// The timestamp, in Unix seconds, of the header that starts `b`.
pub open spec fn header_timestamp(b: Seq<u8>) -> u32 {
    le_value(b.subrange(68, 72)) as u32
}

/// The difficulty bits of the header that starts `b`.
pub open spec fn header_bits(b: Seq<u8>) -> u32 {
    le_value(b.subrange(72, 76)) as u32
}

/// The nonce of the header that starts `b`.
pub open spec fn header_nonce(b: Seq<u8>) -> u32 {
    le_value(b.subrange(76, 80)) as u32
}

/// The identity of the block whose header starts `b`: SHA-256 applied
/// twice to the 80 header bytes.
pub open spec fn header_cur_hash(b: Seq<u8>) -> hash::Hash {
    hash::spec_double_sha256(b.subrange(0, 80))
}

/// A borrowed view over exactly 80 header bytes.
#[derive(Clone, Copy, Debug)]
pub struct BlockHeader<'a> {
    data: &'a [u8],
}

impl<'a> View for BlockHeader<'a> {
    type V = Seq<u8>;

    closed spec fn view(&self) -> Seq<u8> {
        self.data@
    }
}

impl<'a> BlockHeader<'a> {
    #[verifier::type_invariant]
    spec fn well_formed(self) -> bool {
        self.data@.len() == 80
    }

    /// The header over `data`.
    pub fn new(data: &'a [u8]) -> (h: BlockHeader<'a>)
        requires
            data@.len() == 80,
        ensures
            h@ == data@,
    {
        BlockHeader { data }
    }

    /// The 80 bytes of the header.
    pub fn as_bytes(&self) -> (b: &'a [u8])
        ensures
            b@ == self@,
            b@.len() == 80,
    {
        proof {
            use_type_invariant(self);
        }
        self.data
    }

    /// The little-endian number in the four bytes from `at` on.
    fn u32_at(&self, at: usize) -> (r: u32)
        requires
            at + 4 <= 80,
        ensures
            r == le_value(self@.subrange(at as int, at + 4)) as u32,
    {
        proof {
            use_type_invariant(self);
        }
        let mut cursor = slice_subrange(self.data, at, at + 4);
        assert(cursor@.take(4) =~= self.data@.subrange(at as int, at + 4));
        match read_u32(&mut cursor) {
            Ok(v) => v,
            Err(_) => 0,
        }
    }

    /// The hash in the 32 bytes from `at` on.
    fn hash_at(&self, at: usize) -> (r: hash::Hash)
        requires
            at + 32 <= 80,
        ensures
            r == hash::hash_of_bytes(self@.subrange(at as int, at + 32)),
    {
        proof {
            use_type_invariant(self);
        }
        hash::Hash::from_slice(slice_subrange(self.data, at, at + 32))
    }

    /// The version of the block.
    pub fn version(&self) -> (r: u32)
        ensures
            r == header_version(self@),
    {
        self.u32_at(0)
    }

    /// The hash of the parent block.
    pub fn prev_hash(&self) -> (r: hash::Hash)
        ensures
            r == header_prev_hash(self@),
    {
        self.hash_at(4)
    }

    /// The Merkle root of the transactions.
    pub fn merkle_root(&self) -> (r: hash::Hash)
        ensures
            r == header_merkle_root(self@),
    {
        self.hash_at(36)
    }

    /// The time of the block, in Unix seconds.
    pub fn timestamp(&self) -> (r: u32)
        ensures
            r == header_timestamp(self@),
    {
        self.u32_at(68)
    }

    /// The difficulty target in its compact form.
    pub fn bits(&self) -> (r: u32)
        ensures
            r == header_bits(self@),
    {
        self.u32_at(72)
    }

    /// The nonce.
    pub fn nonce(&self) -> (r: u32)
        ensures
            r == header_nonce(self@),
    {
        self.u32_at(76)
    }

    /// The identity of the block: SHA-256 applied twice to the header.
    pub fn cur_hash(&self) -> (r: hash::Hash)
        ensures
            r == header_cur_hash(self@),
    {
        proof {
            use_type_invariant(self);
            assert(self.data@.subrange(0, 80) =~= self.data@);
        }
        hash::double_sha256(self.data)
    }
}

} // verus!
