//! Numbers as little-endian bytes, written to and read from byte buffers.
use byteorder::{LittleEndian, WriteBytesExt};
use bytes::{Buf, BufMut};
use vstd::prelude::*;

verus! {

/// The `n` low bytes of a number, the lowest first.
pub open spec fn le_bytes(v: nat, n: nat) -> Seq<u8>
    decreases n,
{
    if n == 0 {
        Seq::empty()
    } else {
        seq![(v % 256) as u8] + le_bytes(v / 256, (n - 1) as nat)
    }
}

/// The number that a list of bytes stands for, the lowest byte first.
pub open spec fn le_value(s: Seq<u8>) -> nat
    decreases s.len(),
{
    if s.len() == 0 {
        0
    } else {
        s[0] as nat + 256 * le_value(s.skip(1))
    }
}

/// The number of values that `n` bytes can hold.
pub open spec fn byte_range(n: nat) -> nat
    decreases n,
{
    if n == 0 {
        1
    } else {
        256 * byte_range((n - 1) as nat)
    }
}

/// A number has as many low bytes as are asked for.
pub proof fn lemma_le_bytes_len(v: nat, n: nat)
    ensures
        le_bytes(v, n).len() == n,
    decreases n,
{
    if n > 0 {
        lemma_le_bytes_len(v / 256, (n - 1) as nat);
    }
}

/// The bytes of a number that fits into them stand for the number.
pub proof fn lemma_le_round_trip(v: nat, n: nat)
    requires
        v < byte_range(n),
    ensures
        le_bytes(v, n).len() == n,
        le_value(le_bytes(v, n)) == v,
    decreases n,
{
    lemma_le_bytes_len(v, n);
    if n > 0 {
        let rest = le_bytes(v / 256, (n - 1) as nat);
        assert(v / 256 < byte_range((n - 1) as nat)) by (nonlinear_arith)
            requires
                v < 256 * byte_range((n - 1) as nat),
        ;
        lemma_le_round_trip(v / 256, (n - 1) as nat);
        assert(le_bytes(v, n).skip(1) =~= rest);
        assert(le_bytes(v, n)[0] == (v % 256) as u8);
    }
}

/// The numbers of values that one, two, four and eight bytes can hold.
pub proof fn lemma_byte_ranges()
    ensures
        byte_range(0) == 1,
        byte_range(1) == 0x100,
        byte_range(2) == 0x1_0000,
        byte_range(4) == 0x1_0000_0000,
        byte_range(8) == 0x1_0000_0000_0000_0000,
{
    reveal_with_fuel(byte_range, 9);
}

/// What a list of bytes stands for is within the range of its length.
pub proof fn lemma_le_value_bound(s: Seq<u8>)
    ensures
        le_value(s) < byte_range(s.len()),
    decreases s.len(),
{
    if s.len() > 0 {
        lemma_le_value_bound(s.skip(1));
        let r = le_value(s.skip(1));
        let b = byte_range((s.len() - 1) as nat);
        assert(s[0] as nat + 256 * r < 256 * b) by (nonlinear_arith)
            requires
                r < b,
                s[0] < 256,
        ;
    }
}

/// `BufMut::put_u8` of the crate `bytes` on a vector: the byte is appended.
#[verifier::external_body]
pub(crate) fn put_u8(dest: &mut Vec<u8>, b: u8)
    ensures
        final(dest)@ == old(dest)@.push(b),
{
    dest.put_u8(b)
}

/// `BufMut::put_u32_le` of the crate `bytes` on a vector: the four bytes of
/// the number are appended, the lowest first.
#[verifier::external_body]
pub(crate) fn put_u32_le(dest: &mut Vec<u8>, n: u32)
    ensures
        final(dest)@ == old(dest)@ + le_bytes(n as nat, 4),
{
    dest.put_u32_le(n)
}

/// `BufMut::put_uint_le` of the crate `bytes` on a vector: the `nbytes` low
/// bytes of the number are appended, the lowest first. It panics for more
/// than eight bytes.
#[verifier::external_body]
pub(crate) fn put_uint_le(dest: &mut Vec<u8>, n: u64, nbytes: usize)
    requires
        nbytes <= 8,
    ensures
        final(dest)@ == old(dest)@ + le_bytes(n as nat, nbytes as nat),
{
    dest.put_uint_le(n, nbytes)
}

/// `Buf::get_u8` of the crate `bytes` on a slice: the first byte, and the
/// slice after it. It panics on an empty slice.
#[verifier::external_body]
pub(crate) fn get_u8(source: &[u8]) -> (r: (u8, &[u8]))
    requires
        source@.len() >= 1,
    ensures
        r.0 == source@[0],
        r.1@ == source@.skip(1),
{
    let mut rest = source;
    let b = rest.get_u8();
    (b, rest)
}

/// `Buf::get_u32_le` of the crate `bytes` on a slice: the number that the
/// first four bytes stand for, the lowest first, and the slice after them. It
/// panics on a shorter slice.
#[verifier::external_body]
pub(crate) fn get_u32_le(source: &[u8]) -> (r: (u32, &[u8]))
    requires
        source@.len() >= 4,
    ensures
        r.0 == le_value(source@.take(4)),
        r.1@ == source@.skip(4),
{
    let mut rest = source;
    let n = rest.get_u32_le();
    (n, rest)
}

/// `Buf::get_uint_le` of the crate `bytes` on a slice: the number that the
/// first `nbytes` bytes stand for, the lowest first, and the slice after
/// them. It panics on a shorter slice and for more than eight bytes.
#[verifier::external_body]
pub(crate) fn get_uint_le(source: &[u8], nbytes: usize) -> (r: (u64, &[u8]))
    requires
        nbytes <= 8,
        source@.len() >= nbytes,
    ensures
        r.0 == le_value(source@.take(nbytes as int)),
        r.1@ == source@.skip(nbytes as int),
{
    let mut rest = source;
    let n = rest.get_uint_le(nbytes);
    (n, rest)
}

/// `Buf::advance` of the crate `bytes` on a slice: the slice after the first
/// `cnt` bytes. It panics on a shorter slice.
#[verifier::external_body]
pub(crate) fn advance(source: &[u8], cnt: usize) -> (r: &[u8])
    requires
        cnt <= source@.len(),
    ensures
        r@ == source@.skip(cnt as int),
{
    let mut rest = source;
    rest.advance(cnt);
    rest
}

/// `WriteBytesExt::write_u32` of the crate `byteorder`, in little-endian
/// order, on the bytes from the place `pos` on: the four bytes there become
/// the bytes of the number, the lowest first. It fails where fewer than four
/// bytes are left.
#[verifier::external_body]
pub(crate) fn write_u32_le_at(dest: &mut Vec<u8>, pos: usize, n: u32)
    requires
        pos + 4 <= old(dest)@.len(),
    ensures
        final(dest)@ == old(dest)@.take(pos as int) + le_bytes(n as nat, 4) + old(dest)@.skip(
            pos + 4,
        ),
{
    let mut cursor = std::io::Cursor::new(&mut dest[pos..]);
    cursor.write_u32::<LittleEndian>(n).unwrap();
}

} // verus!
