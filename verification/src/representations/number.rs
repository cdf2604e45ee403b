//! Fractions of two numbers packed into bytes.
//!
//! A fraction is one byte that says how wide the numerator and the
//! denominator are, followed by the bytes of the numerator and then those of
//! the denominator, the lowest byte first. The low half of the first byte is
//! the width code of the numerator, the high half that of the denominator.
//! The codes 1, 2, 3 and 4 stand for one, two, four and eight bytes. A number
//! on its own has the code 0 for the denominator, which then is one and has
//! no bytes.
use crate::representations::packing::{
    get_u8, get_uint_le, le_bytes, le_value, lemma_byte_ranges, lemma_le_bytes_len,
    lemma_le_round_trip, put_u8, put_uint_le,
};
use vstd::prelude::*;

verus! {

/// The width code of a number: the least of the four widths that holds it.
pub open spec fn code_of(n: u64) -> u8 {
    if n < 0x100 {
        1
    } else if n < 0x1_0000 {
        2
    } else if n < 0x1_0000_0000 {
        3
    } else {
        4
    }
}

/// The number of bytes that a width code stands for.
pub open spec fn width(code: u8) -> nat {
    if code == 1 {
        1
    } else if code == 2 {
        2
    } else if code == 3 {
        4
    } else if code == 4 {
        8
    } else {
        0
    }
}

/// The bytes of the fraction `num / den`.
pub open spec fn frac_bytes(num: u64, den: u64) -> Seq<u8> {
    seq![(code_of(num) + 16 * code_of(den)) as u8] + le_bytes(num as nat, width(code_of(num)))
        + le_bytes(den as nat, width(code_of(den)))
}

/// The bytes of the number `num` on its own.
pub open spec fn num_bytes(num: u64) -> Seq<u8> {
    seq![code_of(num)] + le_bytes(num as nat, width(code_of(num)))
}

/// The width code of the numerator of the fraction that the bytes begin with.
pub open spec fn num_code(s: Seq<u8>) -> u8 {
    s[0] % 16
}

/// The width code of the denominator of the fraction that the bytes begin
/// with.
pub open spec fn den_code(s: Seq<u8>) -> u8 {
    s[0] / 16
}

/// The number of bytes of the fraction that the bytes begin with.
pub open spec fn frac_len(s: Seq<u8>) -> int {
    (1 + width(num_code(s)) + width(den_code(s))) as int
}

/// The bytes begin with a fraction: the width codes are known and the bytes
/// of the numerator and the denominator are there.
pub open spec fn is_frac(s: Seq<u8>) -> bool {
    &&& s.len() >= 1
    &&& 1 <= num_code(s) <= 4
    &&& den_code(s) <= 4
    &&& s.len() >= frac_len(s)
}

/// The numerator of the fraction that the bytes begin with.
pub open spec fn frac_num(s: Seq<u8>) -> nat {
    le_value(s.subrange(1, 1 + width(num_code(s)) as int))
}

/// The denominator of the fraction that the bytes begin with.
pub open spec fn frac_den(s: Seq<u8>) -> nat {
    if den_code(s) == 0 {
        1
    } else {
        le_value(s.subrange(1 + width(num_code(s)) as int, frac_len(s) as int))
    }
}

/// The bytes of a fraction, followed by any bytes, begin with that fraction.
pub proof fn lemma_frac_round_trip(num: u64, den: u64, rest: Seq<u8>)
    ensures
        is_frac(frac_bytes(num, den) + rest),
        frac_len(frac_bytes(num, den) + rest) == frac_bytes(num, den).len(),
        frac_num(frac_bytes(num, den) + rest) == num,
        frac_den(frac_bytes(num, den) + rest) == den,
        frac_bytes(num, den).len() <= 17,
{
    let s = frac_bytes(num, den) + rest;
    let wn = width(code_of(num)) as int;
    let wd = width(code_of(den)) as int;
    lemma_byte_ranges();
    lemma_le_round_trip(num as nat, wn as nat);
    lemma_le_round_trip(den as nat, wd as nat);
    assert(s[0] == (code_of(num) + 16 * code_of(den)) as u8);
    assert(num_code(s) == code_of(num));
    assert(den_code(s) == code_of(den));
    assert(s.subrange(1, 1 + wn) =~= le_bytes(num as nat, wn as nat));
    assert(s.subrange(1 + wn, 1 + wn + wd) =~= le_bytes(den as nat, wd as nat));
}

/// The bytes of a number on its own, followed by any bytes, begin with the
/// number over one.
pub proof fn lemma_num_round_trip(num: u64, rest: Seq<u8>)
    ensures
        is_frac(num_bytes(num) + rest),
        frac_len(num_bytes(num) + rest) == num_bytes(num).len(),
        frac_num(num_bytes(num) + rest) == num,
        frac_den(num_bytes(num) + rest) == 1,
        num_bytes(num).len() <= 9,
{
    let s = num_bytes(num) + rest;
    let wn = width(code_of(num)) as int;
    lemma_byte_ranges();
    lemma_le_round_trip(num as nat, wn as nat);
    assert(s[0] == code_of(num));
    assert(s.subrange(1, 1 + wn) =~= le_bytes(num as nat, wn as nat));
}

/// The width code of a number, and the number of bytes that it stands for.
pub fn size_code(n: u64) -> (r: (u8, usize))
    ensures
        r.0 == code_of(n),
        r.1 == width(code_of(n)),
{
    if n < 0x100 {
        (1, 1)
    } else if n < 0x1_0000 {
        (2, 2)
    } else if n < 0x1_0000_0000 {
        (3, 4)
    } else {
        (4, 8)
    }
}

/// The number of bytes that a width code stands for.
pub fn code_width(code: u8) -> (r: usize)
    ensures
        r == width(code),
{
    if code == 1 {
        1
    } else if code == 2 {
        2
    } else if code == 3 {
        4
    } else if code == 4 {
        8
    } else {
        0
    }
}

/// Appends the bytes of the fraction `num / den`.
pub fn write_frac(num: u64, den: u64, dest: &mut Vec<u8>)
    ensures
        final(dest)@ == old(dest)@ + frac_bytes(num, den),
{
    let (cn, wn) = size_code(num);
    let (cd, wd) = size_code(den);
    put_u8(dest, cn + 16 * cd);
    put_uint_le(dest, num, wn);
    put_uint_le(dest, den, wd);
    proof {
        assert(dest@ =~= old(dest)@ + frac_bytes(num, den));
    }
}

/// Appends the bytes of the number `num` on its own.
pub fn write_num(num: u64, dest: &mut Vec<u8>)
    ensures
        final(dest)@ == old(dest)@ + num_bytes(num),
{
    let (cn, wn) = size_code(num);
    put_u8(dest, cn);
    put_uint_le(dest, num, wn);
    proof {
        assert(dest@ =~= old(dest)@ + num_bytes(num));
    }
}

/// Reads the fraction that the bytes begin with: the numerator, the
/// denominator and the bytes after the fraction.
pub fn get_frac_u64(source: &[u8]) -> (r: (u64, u64, &[u8]))
    requires
        is_frac(source@),
    ensures
        r.0 == frac_num(source@),
        r.1 == frac_den(source@),
        r.2@ == source@.skip(frac_len(source@) as int),
{
    let (head, rest) = get_u8(source);
    let wn = code_width(head % 16);
    let wd = code_width(head / 16);
    let (num, rest2) = get_uint_le(rest, wn);
    proof {
        assert(rest@.take(wn as int) =~= source@.subrange(1, 1 + wn));
    }
    if wd == 0 {
        proof {
            assert(rest2@ =~= source@.skip(frac_len(source@) as int));
        }
        (num, 1, rest2)
    } else {
        let (den, rest3) = get_uint_le(rest2, wd);
        proof {
            assert(rest2@.take(wd as int) =~= source@.subrange(1 + wn, 1 + wn + wd));
            assert(rest3@ =~= source@.skip(frac_len(source@) as int));
        }
        (num, den, rest3)
    }
}

/// The bytes after the fraction that the bytes begin with.
pub fn skip_rational(source: &[u8]) -> (r: &[u8])
    requires
        is_frac(source@),
    ensures
        r@ == source@.skip(frac_len(source@) as int),
{
    let (head, rest) = get_u8(source);
    let wn = code_width(head % 16);
    let wd = code_width(head / 16);
    let r = crate::representations::packing::advance(rest, wn + wd);
    proof {
        assert(r@ =~= source@.skip(frac_len(source@) as int));
    }
    r
}

/// Whether the fraction that the bytes begin with is one over one.
pub fn is_one(source: &[u8]) -> (r: bool)
    requires
        is_frac(source@),
    ensures
        r == (frac_num(source@) == 1 && frac_den(source@) == 1),
{
    let (num, den, _) = get_frac_u64(source);
    num == 1 && den == 1
}

/// Writes the number `n` over the numerator of the fraction that the bytes
/// hold from the place `pos` on, in the width that the numerator has there.
pub fn write_num_fixed(dest: &mut Vec<u8>, pos: usize, n: u64)
    requires
        pos < old(dest)@.len(),
        is_frac(old(dest)@.skip(pos as int)),
    ensures
        final(dest)@ == old(dest)@.take(pos + 1) + le_bytes(
            n as nat,
            width(num_code(old(dest)@.skip(pos as int))),
        ) + old(dest)@.skip(pos + 1 + width(num_code(old(dest)@.skip(pos as int)))),
{
    let head = dest[pos];
    let w = code_width(head % 16);
    let ghost start = dest@;
    let ghost all = le_bytes(n as nat, w as nat);
    let len = dest.len();
    let mut rest = n;
    let mut k: usize = 0;
    proof {
        assert(start.skip(pos as int)[0] == start[pos as int]);
        lemma_le_bytes_len(n as nat, w as nat);
        assert(dest@ =~= start.take(pos + 1) + all.take(0) + start.skip(pos + 1));
    }
    while k < w
        invariant
            k <= w,
            w <= 8,
            pos + 1 + w <= start.len(),
            start.len() == len,
            dest@.len() == start.len(),
            all == le_bytes(n as nat, w as nat),
            all.len() == w,
            all == all.take(k as int) + le_bytes(rest as nat, (w - k) as nat),
            dest@ == start.take(pos + 1) + all.take(k as int) + start.skip(pos + 1 + k),
        decreases w - k,
    {
        let ghost before = dest@;
        dest.set(pos + 1 + k, (rest % 256) as u8);
        proof {
            let tail = le_bytes(rest as nat, (w - k) as nat);
            assert(tail[0] == (rest % 256) as u8);
            assert(all[k as int] == tail[0]);
            assert(all.take(k + 1) =~= all.take(k as int).push(all[k as int]));
            assert(tail.skip(1) =~= le_bytes((rest / 256) as nat, (w - k - 1) as nat));
            assert(all =~= all.take(k + 1) + le_bytes((rest / 256) as nat, (w - k - 1) as nat));
            assert(dest@ =~= start.take(pos + 1) + all.take(k + 1) + start.skip(pos + 2 + k));
        }
        rest = rest / 256;
        k += 1;
    }
    proof {
        assert(all.take(w as int) =~= all);
    }
}

} // verus!
