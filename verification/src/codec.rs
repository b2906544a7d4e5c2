//! Fixed-width numbers in either byte order.
use vstd::prelude::*;

verus! {

/// The two bytes of a number.
#[verifier::opaque]
pub open spec fn enc16(v: u16, little: bool) -> Seq<u8> {
    let (lo, hi) = ((v % 256) as u8, (v / 256) as u8);
    if little {
        seq![lo, hi]
    } else {
        seq![hi, lo]
    }
}

/// The four bytes of a number.
#[verifier::opaque]
pub open spec fn enc32(v: u32, little: bool) -> Seq<u8> {
    let (a, b, c, d) = (
        (v % 256) as u8,
        (v / 256 % 256) as u8,
        (v / 65536 % 256) as u8,
        (v / 16777216) as u8,
    );
    if little {
        seq![a, b, c, d]
    } else {
        seq![d, c, b, a]
    }
}

/// The number stored in the two bytes at `off`.
#[verifier::opaque]
pub open spec fn word16(d: Seq<u8>, off: int, little: bool) -> u16 {
    if little {
        (d[off] + 256 * d[off + 1]) as u16
    } else {
        (256 * d[off] + d[off + 1]) as u16
    }
}

/// The number stored in the four bytes at `off`.
#[verifier::opaque]
pub open spec fn word32(d: Seq<u8>, off: int, little: bool) -> u32 {
    if little {
        (d[off] + 256 * d[off + 1] + 65536 * d[off + 2] + 16777216 * d[off + 3]) as u32
    } else {
        (16777216 * d[off] + 65536 * d[off + 1] + 256 * d[off + 2] + d[off + 3]) as u32
    }
}

/// Two's complement: the signed number with the bits of `v`.
pub open spec fn signed(v: u32) -> i32 {
    if v < 0x8000_0000 {
        v as i32
    } else {
        (v - 0x1_0000_0000) as i32
    }
}

/// Two's complement: the bits of a signed number.
pub open spec fn unsigned(v: i32) -> u32 {
    if v >= 0 {
        v as u32
    } else {
        (v + 0x1_0000_0000) as u32
    }
}

/// Stored numbers read back.
pub proof fn lemma_words(d: Seq<u8>, off: int, little: bool, v: u16, w: u32)
    ensures
        d[off] == enc16(v, little)[0] && d[off + 1] == enc16(v, little)[1] ==> word16(
            d,
            off,
            little,
        ) == v,
        d[off] == enc32(w, little)[0] && d[off + 1] == enc32(w, little)[1] && d[off + 2] == enc32(
            w,
            little,
        )[2] && d[off + 3] == enc32(w, little)[3] ==> word32(d, off, little) == w,
{
    reveal(enc16);
    reveal(enc32);
    reveal(word16);
    reveal(word32);
}

/// A number takes as many bytes as its type says.
pub broadcast proof fn lemma_enc16_len(v: u16, little: bool)
    ensures
        #[trigger] enc16(v, little).len() == 2,
{
    reveal(enc16);
}

/// A number takes as many bytes as its type says.
pub broadcast proof fn lemma_enc32_len(v: u32, little: bool)
    ensures
        #[trigger] enc32(v, little).len() == 4,
{
    reveal(enc32);
}

/// Equal bytes hold equal numbers.
pub proof fn lemma_same_words(d: Seq<u8>, off: int, c: Seq<u8>, at: int, little: bool)
    ensures
        d[off] == c[at] && d[off + 1] == c[at + 1] ==> word16(d, off, little) == word16(
            c,
            at,
            little,
        ),
        d[off] == c[at] && d[off + 1] == c[at + 1] && d[off + 2] == c[at + 2] && d[off + 3] == c[at
            + 3] ==> word32(d, off, little) == word32(c, at, little),
{
    reveal(word16);
    reveal(word32);
}

pub(crate) fn put16(out: &mut Vec<u8>, v: u16, little: bool)
    ensures
        final(out)@ == old(out)@ + enc16(v, little),
{
    let lo: u8 = (v % 256) as u8;
    let hi: u8 = (v / 256) as u8;
    if little {
        out.push(lo);
        out.push(hi);
    } else {
        out.push(hi);
        out.push(lo);
    }
    reveal(enc16);
    assert(out@ =~= old(out)@ + enc16(v, little));
}

pub(crate) fn put32(out: &mut Vec<u8>, v: u32, little: bool)
    ensures
        final(out)@ == old(out)@ + enc32(v, little),
{
    let a: u8 = (v % 256) as u8;
    let b: u8 = (v / 256 % 256) as u8;
    let c: u8 = (v / 65536 % 256) as u8;
    let d: u8 = (v / 16777216) as u8;
    if little {
        out.push(a);
        out.push(b);
        out.push(c);
        out.push(d);
    } else {
        out.push(d);
        out.push(c);
        out.push(b);
        out.push(a);
    }
    reveal(enc32);
    assert(out@ =~= old(out)@ + enc32(v, little));
}

pub(crate) fn to_signed(v: u32) -> (r: i32)
    ensures
        r == signed(v),
{
    if v < 0x8000_0000 {
        v as i32
    } else {
        (v as i64 - 0x1_0000_0000) as i32
    }
}

pub(crate) fn to_unsigned(v: i32) -> (r: u32)
    ensures
        r == unsigned(v),
{
    if v >= 0 {
        v as u32
    } else {
        (v as i64 + 0x1_0000_0000) as u32
    }
}

pub(crate) fn copy_bytes(d: &[u8], from: usize, to: usize) -> (r: Vec<u8>)
    requires
        from <= to <= d@.len(),
    ensures
        r@ == d@.subrange(from as int, to as int),
{
    vstd::slice::slice_to_vec(vstd::slice::slice_subrange(d, from, to))
}

/// Numbers are written byte by byte: little-endian ones from the lowest byte
/// up, others from the highest down. They are read the same way.
pub proof fn law_byte_order(v: u16, w: u32, d: Seq<u8>, off: int)
    ensures
        enc16(v, true).len() == 2 && enc16(v, false).len() == 2,
        enc16(v, true)[0] + 256 * enc16(v, true)[1] == v,
        256 * enc16(v, false)[0] + enc16(v, false)[1] == v,
        enc32(w, true).len() == 4 && enc32(w, false).len() == 4,
        enc32(w, true)[0] + 256 * enc32(w, true)[1] + 65536 * enc32(w, true)[2] + 16777216 * enc32(
            w,
            true,
        )[3] == w,
        16777216 * enc32(w, false)[0] + 65536 * enc32(w, false)[1] + 256 * enc32(w, false)[2]
            + enc32(w, false)[3] == w,
        word16(d, off, true) == d[off] + 256 * d[off + 1],
        word16(d, off, false) == 256 * d[off] + d[off + 1],
        word32(d, off, true) == d[off] + 256 * d[off + 1] + 65536 * d[off + 2] + 16777216 * d[off
            + 3],
        word32(d, off, false) == 16777216 * d[off] + 65536 * d[off + 1] + 256 * d[off + 2] + d[off
            + 3],
{
    reveal(enc16);
    reveal(enc32);
    reveal(word16);
    reveal(word32);
}

/// Signed numbers are stored in two's complement: both readings of 32 bits
/// agree modulo 2^32.
pub proof fn law_twos_complement(v: u32, n: i32)
    ensures
        signed(v) == v || signed(v) == v - 0x1_0000_0000,
        unsigned(n) == n || unsigned(n) == n + 0x1_0000_0000,
        signed(unsigned(n)) == n,
        unsigned(signed(v)) == v,
{
}

} // verus!
