//! Byte-level building blocks of the PalmDB/MOBI records: big-endian
//! integers, appending byte strings, and base-32 numerals.

use vstd::prelude::*;

verus! {

/// The big-endian bytes of a 16-bit value.
pub open spec fn be16(v: u16) -> Seq<u8> {
    seq![(v / 256) as u8, (v % 256) as u8]
}

/// The big-endian bytes of a 32-bit value.
pub open spec fn be32(v: u32) -> Seq<u8> {
    seq![(v / 0x100_0000) as u8, ((v / 0x1_0000) % 256) as u8, ((v / 256) % 256) as u8, (v % 256) as u8]
}

/// Append the bytes `src` to `out`.
pub fn append_bytes(out: &mut Vec<u8>, src: &[u8])
    ensures
        final(out)@ == old(out)@ + src@,
{
    let ghost start = out@;
    let mut i: usize = 0;
    while i < src.len()
        invariant
            0 <= i <= src@.len(),
            out@ == start + src@.take(i as int),
        decreases src@.len() - i,
    {
        out.push(src[i]);
        proof {
            assert(src@.take(i + 1) == src@.take(i as int).push(src@[i as int]));
        }
        i = i + 1;
    }
    proof {
        assert(src@.take(src@.len() as int) == src@);
    }
}

/// Append the big-endian bytes of `v`.
pub fn push_be16(out: &mut Vec<u8>, v: u16)
    ensures
        final(out)@ == old(out)@ + be16(v),
{
    out.push((v / 256) as u8);
    out.push((v % 256) as u8);
    proof {
        assert(final(out)@ =~= old(out)@ + be16(v));
    }
}

/// Append the big-endian bytes of `v`.
pub fn push_be32(out: &mut Vec<u8>, v: u32)
    ensures
        final(out)@ == old(out)@ + be32(v),
{
    out.push((v / 0x100_0000) as u8);
    out.push(((v / 0x1_0000) % 256) as u8);
    out.push(((v / 256) % 256) as u8);
    out.push((v % 256) as u8);
    proof {
        assert(final(out)@ =~= old(out)@ + be32(v));
    }
}

/// Append `n` copies of the byte `b`.
pub fn push_repeat(out: &mut Vec<u8>, b: u8, n: usize)
    ensures
        final(out)@ == old(out)@ + Seq::new(n as nat, |_i: int| b),
{
    let ghost start = out@;
    let mut i: usize = 0;
    while i < n
        invariant
            0 <= i <= n,
            out@ == start + Seq::new(i as nat, |_i: int| b),
        decreases n - i,
    {
        out.push(b);
        proof {
            assert(Seq::new((i + 1) as nat, |_i: int| b) == Seq::new(i as nat, |_i: int| b).push(b));
        }
        i = i + 1;
    }
}

/// The character of a base-32 digit: `0`-`9`, then `A`-`V`.
pub open spec fn base32_digit(d: nat) -> u8 {
    if d < 10 {
        (48 + d) as u8
    } else {
        (55 + d) as u8
    }
}

/// The last `w` base-32 digits of `v`, most significant first, padded with
/// zeros.
pub open spec fn base32_fixed(v: nat, w: nat) -> Seq<u8>
    decreases w,
{
    if w == 0 {
        Seq::empty()
    } else {
        base32_fixed(v / 32, (w - 1) as nat).push(base32_digit(v % 32))
    }
}

/// Whether `c` is a base-32 digit character.
pub open spec fn is_base32_char(c: u8) -> bool {
    (48 <= c <= 57) || (65 <= c <= 86)
}

pub proof fn lemma_base32_chars(v: nat, w: nat)
    ensures
        base32_fixed(v, w).len() == w,
        forall|i: int| 0 <= i < w ==> is_base32_char(#[trigger] base32_fixed(v, w)[i]),
    decreases w,
{
    if w > 0 {
        lemma_base32_chars(v / 32, (w - 1) as nat);
    }
}

/// The `w`-digit base-32 numeral of `v` (the low digits when `v` needs
/// more), as KF8 writes record numbers and offsets.
pub fn write_base32(v: usize, w: usize) -> (r: Vec<u8>)
    ensures
        r@ == base32_fixed(v as nat, w as nat),
    decreases w,
{
    if w == 0 {
        Vec::new()
    } else {
        let mut r = write_base32(v / 32, w - 1);
        let d = v % 32;
        if d < 10 {
            r.push((48 + d) as u8);
        } else {
            r.push((55 + d) as u8);
        }
        r
    }
}

} // verus!
