//! Reads of little-endian integers, compact-size integers and byte runs
//! from the front of a byte-slice cursor.
//!
//! Every reader takes `&mut &[u8]`, returns the value read and leaves the
//! cursor just behind it. On failure the cursor is left where it was.

use crate::error::EofError;
use byteorder::ByteOrder;
use byteorder::LittleEndian;
use vstd::prelude::*;
use vstd::slice::slice_subrange;

verus! {

/// The number that `bytes` spell, least significant byte first.
pub open spec fn le_value(bytes: Seq<u8>) -> nat
    decreases bytes.len(),
{
    if bytes.len() == 0 {
        0
    } else {
        bytes[0] as nat + 256 * le_value(bytes.skip(1))
    }
}

/// The `n` low bytes of `v`, least significant byte first.
pub open spec fn le_bytes(v: nat, n: nat) -> Seq<u8>
    decreases n,
{
    if n == 0 {
        Seq::empty()
    } else {
        seq![(v % 256) as u8] + le_bytes(v / 256, (n - 1) as nat)
    }
}

/// 256 to the power `n`.
pub open spec fn pow256(n: nat) -> nat
    decreases n,
{
    if n == 0 {
        1
    } else {
        256 * pow256((n - 1) as nat)
    }
}

/// A number is spelled in as many bytes as were asked for.
pub proof fn lemma_le_bytes_len(v: nat, n: nat)
    ensures
        le_bytes(v, n).len() == n,
    decreases n,
{
    if n > 0 {
        lemma_le_bytes_len(v / 256, (n - 1) as nat);
    }
}

/// A sequence of `n` bytes spells a number below 256 to the `n`.
pub proof fn lemma_le_value_bound(bytes: Seq<u8>)
    ensures
        le_value(bytes) < pow256(bytes.len()),
    decreases bytes.len(),
{
    if bytes.len() > 0 {
        lemma_le_value_bound(bytes.skip(1));
        let hi = le_value(bytes.skip(1));
        let p = pow256((bytes.len() - 1) as nat);
        assert(256 * hi + 256 <= 256 * p) by (nonlinear_arith)
            requires
                hi < p,
        ;
    }
}

/// Spelling a number in `n` bytes and reading the bytes back gives the number.
pub proof fn lemma_le_value_of_le_bytes(v: nat, n: nat)
    requires
        v < pow256(n),
    ensures
        le_value(le_bytes(v, n)) == v,
    decreases n,
{
    if n > 0 {
        let m = (n - 1) as nat;
        let b = le_bytes(v, n);
        lemma_le_bytes_len(v / 256, m);
        assert(b.skip(1) =~= le_bytes(v / 256, m));
        assert(v / 256 < pow256(m)) by (nonlinear_arith)
            requires
                v < 256 * pow256(m),
        ;
        lemma_le_value_of_le_bytes(v / 256, m);
        assert(v == v % 256 + 256 * (v / 256)) by (nonlinear_arith);
    }
}

/// Reading back the bytes that spell a number and spelling the number again
/// gives the bytes.
pub proof fn lemma_le_bytes_of_le_value(bytes: Seq<u8>)
    ensures
        le_bytes(le_value(bytes), bytes.len()) == bytes,
    decreases bytes.len(),
{
    if bytes.len() > 0 {
        let hi = le_value(bytes.skip(1));
        let v = le_value(bytes);
        lemma_le_bytes_of_le_value(bytes.skip(1));
        assert(v % 256 == bytes[0] as nat && v / 256 == hi) by (nonlinear_arith)
            requires
                v == bytes[0] as nat + 256 * hi,
                bytes[0] as nat <= 255,
        ;
        assert(le_bytes(v, bytes.len()) =~= bytes);
    } else {
        assert(le_bytes(le_value(bytes), bytes.len()) =~= bytes);
    }
}

/// The powers of 256 that bound numbers of one, two, four and eight bytes.
pub proof fn lemma_pow256_values()
    ensures
        pow256(1) == 0x100,
        pow256(2) == 0x1_0000,
        pow256(4) == 0x1_0000_0000,
        pow256(8) == 0x1_0000_0000_0000_0000,
{
    reveal_with_fuel(pow256, 9);
}

/// `byteorder`'s `LittleEndian::read_u16`: the first two bytes of `buf`
/// as a little-endian number. It panics on fewer than two bytes.
#[verifier::external_body]
fn le_u16(buf: &[u8]) -> (r: u16)
    requires
        buf@.len() >= 2,
    ensures
        r as nat == le_value(buf@.take(2)),
{
    LittleEndian::read_u16(buf)
}

/// `byteorder`'s `LittleEndian::read_u32`: the first four bytes of `buf`
/// as a little-endian number. It panics on fewer than four bytes.
#[verifier::external_body]
fn le_u32(buf: &[u8]) -> (r: u32)
    requires
        buf@.len() >= 4,
    ensures
        r as nat == le_value(buf@.take(4)),
{
    LittleEndian::read_u32(buf)
}

/// `byteorder`'s `LittleEndian::read_u64`: the first eight bytes of `buf`
/// as a little-endian number. It panics on fewer than eight bytes.
#[verifier::external_body]
fn le_u64(buf: &[u8]) -> (r: u64)
    requires
        buf@.len() >= 8,
    ensures
        r as nat == le_value(buf@.take(8)),
{
    LittleEndian::read_u64(buf)
}

/// What `read_u8` yields on `s`: the first byte and what follows it.
pub open spec fn spec_read_u8(s: Seq<u8>) -> Option<(u8, Seq<u8>)> {
    if s.len() >= 1 {
        Some((s[0], s.skip(1)))
    } else {
        None
    }
}

/// What `read_u16` yields on `s`.
pub open spec fn spec_read_u16(s: Seq<u8>) -> Option<(u16, Seq<u8>)> {
    if s.len() >= 2 {
        Some((le_value(s.take(2)) as u16, s.skip(2)))
    } else {
        None
    }
}

/// What `read_u32` yields on `s`.
pub open spec fn spec_read_u32(s: Seq<u8>) -> Option<(u32, Seq<u8>)> {
    if s.len() >= 4 {
        Some((le_value(s.take(4)) as u32, s.skip(4)))
    } else {
        None
    }
}

/// What `read_u64` yields on `s`.
pub open spec fn spec_read_u64(s: Seq<u8>) -> Option<(u64, Seq<u8>)> {
    if s.len() >= 8 {
        Some((le_value(s.take(8)) as u64, s.skip(8)))
    } else {
        None
    }
}

/// What `read_slice` yields on `s`: the first `n` bytes and what follows.
pub open spec fn spec_read_slice(s: Seq<u8>, n: nat) -> Option<(Seq<u8>, Seq<u8>)> {
    if s.len() >= n {
        Some((s.take(n as int), s.skip(n as int)))
    } else {
        None
    }
}

/// What `read_var_int` yields on `s`: a tag byte below `0xFD` is the value;
/// `0xFD`, `0xFE` and `0xFF` announce a value of two, four and eight bytes.
pub open spec fn spec_read_var_int(s: Seq<u8>) -> Option<(u64, Seq<u8>)> {
    match spec_read_u8(s) {
        None => None,
        Some((tag, rest)) => if tag < 0xfd {
            Some((tag as u64, rest))
        } else if tag == 0xfd {
            match spec_read_u16(rest) {
                Some((v, r)) => Some((v as u64, r)),
                None => None,
            }
        } else if tag == 0xfe {
            match spec_read_u32(rest) {
                Some((v, r)) => Some((v as u64, r)),
                None => None,
            }
        } else {
            spec_read_u64(rest)
        },
    }
}

/// The shortest compact-size encoding of `v`.
pub open spec fn var_int_bytes(v: u64) -> Seq<u8> {
    if v < 0xfd {
        seq![v as u8]
    } else if v <= 0xffff {
        seq![0xfdu8] + le_bytes(v as nat, 2)
    } else if v <= 0xffff_ffff {
        seq![0xfeu8] + le_bytes(v as nat, 4)
    } else {
        seq![0xffu8] + le_bytes(v as nat, 8)
    }
}

/// Reads one byte.
pub fn read_u8<'a>(slice: &mut &'a [u8]) -> (r: Result<u8, EofError>)
    ensures
        match r {
            Ok(v) => spec_read_u8(old(slice)@) == Some((v, final(slice)@)),
            Err(_) => spec_read_u8(old(slice)@).is_none() && final(slice)@ == old(slice)@,
        },
{
    if slice.len() < 1 {
        return Err(EofError);
    }
    let v: u8 = slice[0];
    *slice = slice_subrange(*slice, 1, slice.len());
    Ok(v)
}

/// Reads a little-endian `u16`.
pub fn read_u16<'a>(slice: &mut &'a [u8]) -> (r: Result<u16, EofError>)
    ensures
        match r {
            Ok(v) => spec_read_u16(old(slice)@) == Some((v, final(slice)@)),
            Err(_) => spec_read_u16(old(slice)@).is_none() && final(slice)@ == old(slice)@,
        },
{
    if slice.len() < 2 {
        return Err(EofError);
    }
    let v: u16 = le_u16(*slice);
    *slice = slice_subrange(*slice, 2, slice.len());
    Ok(v)
}

/// Reads a little-endian `u32`.
pub fn read_u32<'a>(slice: &mut &'a [u8]) -> (r: Result<u32, EofError>)
    ensures
        match r {
            Ok(v) => spec_read_u32(old(slice)@) == Some((v, final(slice)@)),
            Err(_) => spec_read_u32(old(slice)@).is_none() && final(slice)@ == old(slice)@,
        },
{
    if slice.len() < 4 {
        return Err(EofError);
    }
    let v: u32 = le_u32(*slice);
    *slice = slice_subrange(*slice, 4, slice.len());
    Ok(v)
}

/// Reads a little-endian `u64`.
pub fn read_u64<'a>(slice: &mut &'a [u8]) -> (r: Result<u64, EofError>)
    ensures
        match r {
            Ok(v) => spec_read_u64(old(slice)@) == Some((v, final(slice)@)),
            Err(_) => spec_read_u64(old(slice)@).is_none() && final(slice)@ == old(slice)@,
        },
{
    if slice.len() < 8 {
        return Err(EofError);
    }
    let v: u64 = le_u64(*slice);
    *slice = slice_subrange(*slice, 8, slice.len());
    Ok(v)
}

/// Carves the first `len` bytes off the cursor.
pub fn read_slice<'a>(slice: &mut &'a [u8], len: usize) -> (r: Result<&'a [u8], EofError>)
    ensures
        match r {
            Ok(v) => spec_read_slice(old(slice)@, len as nat) == Some((v@, final(slice)@)),
            Err(_) => spec_read_slice(old(slice)@, len as nat).is_none() && final(slice)@ == old(
                slice,
            )@,
        },
{
    if slice.len() < len {
        return Err(EofError);
    }
    let v: &'a [u8] = slice_subrange(*slice, 0, len);
    *slice = slice_subrange(*slice, len, slice.len());
    Ok(v)
}

/// Reads a compact-size integer.
pub fn read_var_int<'a>(slice: &mut &'a [u8]) -> (r: Result<u64, EofError>)
    ensures
        match r {
            Ok(v) => spec_read_var_int(old(slice)@) == Some((v, final(slice)@)),
            Err(_) => spec_read_var_int(old(slice)@).is_none(),
        },
{
    let tag: u8 = match read_u8(slice) {
        Ok(t) => t,
        Err(e) => {
            return Err(e);
        },
    };
    if tag < 0xfd {
        Ok(tag as u64)
    } else if tag == 0xfd {
        match read_u16(slice) {
            Ok(v) => Ok(v as u64),
            Err(e) => Err(e),
        }
    } else if tag == 0xfe {
        match read_u32(slice) {
            Ok(v) => Ok(v as u64),
            Err(e) => Err(e),
        }
    } else {
        read_u64(slice)
    }
}

/// Appends the `n` low bytes of `v` to `out`, least significant first.
fn push_le_bytes(out: &mut Vec<u8>, v: u64, n: usize)
    ensures
        final(out)@ == old(out)@ + le_bytes(v as nat, n as nat),
    decreases n,
{
    if n > 0 {
        out.push((v % 256) as u8);
        push_le_bytes(out, v / 256, n - 1);
        assert(final(out)@ =~= old(out)@ + le_bytes(v as nat, n as nat));
    } else {
        assert(final(out)@ =~= old(out)@ + le_bytes(v as nat, n as nat));
    }
}

/// Appends the shortest compact-size encoding of `v` to `out`.
pub fn write_var_int(out: &mut Vec<u8>, v: u64)
    ensures
        final(out)@ == old(out)@ + var_int_bytes(v),
{
    if v < 0xfd {
        out.push(v as u8);
        assert(final(out)@ =~= old(out)@ + var_int_bytes(v));
    } else if v <= 0xffff {
        out.push(0xfd);
        push_le_bytes(out, v, 2);
        assert(final(out)@ =~= old(out)@ + var_int_bytes(v));
    } else if v <= 0xffff_ffff {
        out.push(0xfe);
        push_le_bytes(out, v, 4);
        assert(final(out)@ =~= old(out)@ + var_int_bytes(v));
    } else {
        out.push(0xff);
        push_le_bytes(out, v, 8);
        assert(final(out)@ =~= old(out)@ + var_int_bytes(v));
    }
}

/// Reading a little-endian number of `n` bytes that was spelled in front of
/// `rest` finds the number and leaves `rest`.
pub proof fn lemma_le_prefix(v: nat, n: nat, rest: Seq<u8>)
    requires
        v < pow256(n),
    ensures
        (le_bytes(v, n) + rest).len() >= n,
        le_value((le_bytes(v, n) + rest).take(n as int)) == v,
        (le_bytes(v, n) + rest).skip(n as int) == rest,
{
    lemma_le_bytes_len(v, n);
    lemma_le_value_of_le_bytes(v, n);
    let s = le_bytes(v, n) + rest;
    assert(s.take(n as int) =~= le_bytes(v, n));
    assert(s.skip(n as int) =~= rest);
}

/// Decoding the compact-size encoding of any `v` gives `v` back and
/// consumes the encoding and nothing else.
pub proof fn lemma_var_int_round_trip(v: u64, rest: Seq<u8>)
    ensures
        spec_read_var_int(var_int_bytes(v) + rest) == Some((v, rest)),
{
    lemma_pow256_values();
    let s = var_int_bytes(v) + rest;
    if v < 0xfd {
        assert(s.skip(1) =~= rest);
    } else if v <= 0xffff {
        lemma_le_prefix(v as nat, 2, rest);
        assert(s.skip(1) =~= le_bytes(v as nat, 2) + rest);
    } else if v <= 0xffff_ffff {
        lemma_le_prefix(v as nat, 4, rest);
        assert(s.skip(1) =~= le_bytes(v as nat, 4) + rest);
    } else {
        lemma_le_prefix(v as nat, 8, rest);
        assert(s.skip(1) =~= le_bytes(v as nat, 8) + rest);
    }
}

} // verus!
