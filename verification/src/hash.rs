//! The 32-byte hash that names blocks and transactions.

use crate::buffer_operations::{le_bytes, le_value, read_u64};
use crate::buffer_operations::{lemma_le_bytes_of_le_value, lemma_le_value_bound, lemma_pow256_values};
use crate::error::EofError;
use sha2::Digest;
use sha2::Sha256;
use vstd::prelude::*;

verus! {

/// A 32-byte value, held as four little-endian words. Two hashes are equal
/// exactly when their bytes are.
#[derive(Clone, Copy, PartialEq, Eq, Structural, Debug)]
pub struct Hash {
    pub w0: u64,
    pub w1: u64,
    pub w2: u64,
    pub w3: u64,
}

/// The hash of all zero bytes: the parent of the genesis block, and the
/// previous transaction of a coinbase input.
pub open spec fn spec_zero_hash() -> Hash {
    Hash { w0: 0, w1: 0, w2: 0, w3: 0 }
}

/// The hash of all zero bytes.
#[verifier::when_used_as_spec(spec_zero_hash)]
pub fn zero_hash() -> (h: Hash)
    ensures
        h == spec_zero_hash(),
{
    Hash { w0: 0, w1: 0, w2: 0, w3: 0 }
}

/// The SHA-256 digest of `data`.
pub uninterp spec fn sha256_digest(data: Seq<u8>) -> Seq<u8>;

/// `sha2`'s `Sha256::digest`: the SHA-256 digest of `data`, which is
/// 32 bytes long and depends on `data` alone.
#[verifier::external_body]
fn sha256(data: &[u8]) -> (digest: Vec<u8>)
    ensures
        digest@ == sha256_digest(data@),
        digest@.len() == 32,
{
    Sha256::digest(data).to_vec()
}

/// The hash that the first 32 bytes of `bytes` spell.
pub open spec fn hash_of_bytes(bytes: Seq<u8>) -> Hash {
    Hash {
        w0: le_value(bytes.subrange(0, 8)) as u64,
        w1: le_value(bytes.subrange(8, 16)) as u64,
        w2: le_value(bytes.subrange(16, 24)) as u64,
        w3: le_value(bytes.subrange(24, 32)) as u64,
    }
}

/// SHA-256 applied twice to `data`, as a hash.
pub open spec fn spec_double_sha256(data: Seq<u8>) -> Hash {
    hash_of_bytes(sha256_digest(sha256_digest(data)))
}

/// What `Hash::read` yields on `s`.
pub open spec fn spec_read_hash(s: Seq<u8>) -> Option<(Hash, Seq<u8>)> {
    if s.len() >= 32 {
        Some((hash_of_bytes(s), s.skip(32)))
    } else {
        None
    }
}

impl Hash {
    /// The 32 bytes of the hash.
    pub open spec fn bytes(self) -> Seq<u8> {
        le_bytes(self.w0 as nat, 8) + le_bytes(self.w1 as nat, 8) + le_bytes(self.w2 as nat, 8)
            + le_bytes(self.w3 as nat, 8)
    }

    /// Reads a hash off the front of the cursor.
    pub fn read<'a>(slice: &mut &'a [u8]) -> (r: Result<Hash, EofError>)
        ensures
            match r {
                Ok(h) => spec_read_hash(old(slice)@) == Some((h, final(slice)@)),
                Err(_) => spec_read_hash(old(slice)@).is_none() && final(slice)@ == old(slice)@,
            },
    {
        if slice.len() < 32 {
            return Err(EofError);
        }
        let ghost s0 = slice@;
        let w0 = match read_u64(slice) {
            Ok(w) => w,
            Err(e) => {
                return Err(e);
            },
        };
        let w1 = match read_u64(slice) {
            Ok(w) => w,
            Err(e) => {
                return Err(e);
            },
        };
        let w2 = match read_u64(slice) {
            Ok(w) => w,
            Err(e) => {
                return Err(e);
            },
        };
        let w3 = match read_u64(slice) {
            Ok(w) => w,
            Err(e) => {
                return Err(e);
            },
        };
        proof {
            assert(s0.take(8) =~= s0.subrange(0, 8));
            assert(s0.skip(8).take(8) =~= s0.subrange(8, 16));
            assert(s0.skip(8).skip(8).take(8) =~= s0.subrange(16, 24));
            assert(s0.skip(8).skip(8).skip(8).take(8) =~= s0.subrange(24, 32));
            assert(s0.skip(8).skip(8).skip(8).skip(8) =~= s0.skip(32));
        }
        Ok(Hash { w0, w1, w2, w3 })
    }

    /// The hash that 32 bytes spell.
    pub fn from_slice(bytes: &[u8]) -> (h: Hash)
        requires
            bytes@.len() == 32,
        ensures
            h == hash_of_bytes(bytes@),
    {
        let mut cursor = bytes;
        match Hash::read(&mut cursor) {
            Ok(h) => h,
            Err(_) => zero_hash(),
        }
    }

    /// The 32 bytes of the hash, in the order in which they are stored.
    pub fn to_bytes(&self) -> (out: Vec<u8>)
        ensures
            out@ == self.bytes(),
            out@.len() == 32,
            hash_of_bytes(out@) == *self,
    {
        let mut out: Vec<u8> = Vec::new();
        push_word(&mut out, self.w0);
        push_word(&mut out, self.w1);
        push_word(&mut out, self.w2);
        push_word(&mut out, self.w3);
        proof {
            lemma_hash_of_bytes_of_hash(*self);
            assert(out@ =~= self.bytes());
        }
        out
    }

    /// Whether every byte of the hash is zero.
    pub fn is_zero(&self) -> (r: bool)
        ensures
            r == (*self == zero_hash()),
    {
        self.w0 == 0 && self.w1 == 0 && self.w2 == 0 && self.w3 == 0
    }
}

/// Appends the eight bytes of `w`, least significant first.
fn push_word(out: &mut Vec<u8>, w: u64)
    ensures
        final(out)@ == old(out)@ + le_bytes(w as nat, 8),
{
    let mut v: u64 = w;
    let mut i: usize = 0;
    while i < 8
        invariant
            i <= 8,
            out@ + le_bytes(v as nat, (8 - i) as nat) == old(out)@ + le_bytes(w as nat, 8),
        decreases 8 - i,
    {
        let ghost before = out@;
        out.push((v % 256) as u8);
        proof {
            assert(out@ + le_bytes((v / 256) as nat, (8 - i - 1) as nat) =~= before + le_bytes(
                v as nat,
                (8 - i) as nat,
            ));
        }
        v = v / 256;
        i = i + 1;
    }
    assert(out@ =~= out@ + le_bytes(v as nat, 0));
}

/// The bytes of a hash spell that hash.
pub proof fn lemma_hash_of_bytes_of_hash(h: Hash)
    ensures
        h.bytes().len() == 32,
        hash_of_bytes(h.bytes()) == h,
{
    lemma_pow256_values();
    let b = h.bytes();
    crate::buffer_operations::lemma_le_bytes_len(h.w0 as nat, 8);
    crate::buffer_operations::lemma_le_bytes_len(h.w1 as nat, 8);
    crate::buffer_operations::lemma_le_bytes_len(h.w2 as nat, 8);
    crate::buffer_operations::lemma_le_bytes_len(h.w3 as nat, 8);
    assert(b.subrange(0, 8) =~= le_bytes(h.w0 as nat, 8));
    assert(b.subrange(8, 16) =~= le_bytes(h.w1 as nat, 8));
    assert(b.subrange(16, 24) =~= le_bytes(h.w2 as nat, 8));
    assert(b.subrange(24, 32) =~= le_bytes(h.w3 as nat, 8));
    crate::buffer_operations::lemma_le_value_of_le_bytes(h.w0 as nat, 8);
    crate::buffer_operations::lemma_le_value_of_le_bytes(h.w1 as nat, 8);
    crate::buffer_operations::lemma_le_value_of_le_bytes(h.w2 as nat, 8);
    crate::buffer_operations::lemma_le_value_of_le_bytes(h.w3 as nat, 8);
}

/// Two runs of 32 bytes spell the same hash only if they are the same bytes.
pub proof fn lemma_hash_of_bytes_injective(a: Seq<u8>, b: Seq<u8>)
    requires
        a.len() == 32,
        b.len() == 32,
        hash_of_bytes(a) == hash_of_bytes(b),
    ensures
        a == b,
{
    lemma_pow256_values();
    lemma_word_injective(a.subrange(0, 8), b.subrange(0, 8));
    lemma_word_injective(a.subrange(8, 16), b.subrange(8, 16));
    lemma_word_injective(a.subrange(16, 24), b.subrange(16, 24));
    lemma_word_injective(a.subrange(24, 32), b.subrange(24, 32));
    assert(a =~= a.subrange(0, 8) + a.subrange(8, 16) + a.subrange(16, 24) + a.subrange(24, 32));
    assert(b =~= b.subrange(0, 8) + b.subrange(8, 16) + b.subrange(16, 24) + b.subrange(24, 32));
}

/// Two runs of eight bytes spell the same word only if they are the same
/// bytes.
proof fn lemma_word_injective(a: Seq<u8>, b: Seq<u8>)
    requires
        a.len() == 8,
        b.len() == 8,
        le_value(a) as u64 == le_value(b) as u64,
    ensures
        a == b,
{
    lemma_pow256_values();
    lemma_le_value_bound(a);
    lemma_le_value_bound(b);
    lemma_le_bytes_of_le_value(a);
    lemma_le_bytes_of_le_value(b);
}

/// SHA-256 applied twice: the hash by which blocks and transactions are named.
pub fn double_sha256(data: &[u8]) -> (h: Hash)
    ensures
        h == spec_double_sha256(data@),
{
    let first = sha256(data);
    let second = sha256(first.as_slice());
    Hash::from_slice(second.as_slice())
}

} // verus!
