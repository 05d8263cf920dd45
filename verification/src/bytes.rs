//! Little-endian encoding of fixed-width integers.
//!
//! The encoding is stated arithmetically: the first byte is the value modulo
//! 256, the rest encodes the quotient. Signed integers are encoded in two's
//! complement.

use vstd::prelude::*;

verus! {

/// The number of values that `width` bytes can hold: 256 to the power `width`.
pub open spec fn limit(width: nat) -> nat
    decreases width,
{
    if width == 0 {
        1
    } else {
        256 * limit((width - 1) as nat)
    }
}

/// The `width` little-endian bytes of `x`.
pub open spec fn le_bytes(x: nat, width: nat) -> Seq<u8>
    decreases width,
{
    if width == 0 {
        Seq::empty()
    } else {
        seq![(x % 256) as u8] + le_bytes(x / 256, (width - 1) as nat)
    }
}

/// The number that a little-endian byte string stands for.
pub open spec fn le_value(bytes: Seq<u8>) -> nat
    decreases bytes.len(),
{
    if bytes.len() == 0 {
        0
    } else {
        bytes[0] as nat + 256 * le_value(bytes.skip(1))
    }
}

/// The two's complement of `x` in `width` bytes, as a natural number.
pub open spec fn twos(x: int, width: nat) -> nat {
    if x >= 0 {
        x as nat
    } else {
        (x + limit(width)) as nat
    }
}

/// The signed number that the two's complement pattern `n` of `width` bytes
/// stands for.
pub open spec fn untwos(n: nat, width: nat) -> int {
    if 2 * n < limit(width) {
        n as int
    } else {
        n - limit(width)
    }
}

pub proof fn lemma_limits()
    ensures
        limit(1) == 0x100,
        limit(2) == 0x1_0000,
        limit(4) == 0x1_0000_0000,
        limit(8) == 0x1_0000_0000_0000_0000,
{
    reveal_with_fuel(limit, 9);
}

pub proof fn lemma_le_bytes_len(x: nat, width: nat)
    ensures
        le_bytes(x, width).len() == width,
    decreases width,
{
    if width > 0 {
        lemma_le_bytes_len(x / 256, (width - 1) as nat);
    }
}

/// Decoding what was encoded gives the value back, if it fits the width.
pub proof fn lemma_le_value_of_bytes(x: nat, width: nat)
    requires
        x < limit(width),
    ensures
        le_value(le_bytes(x, width)) == x,
    decreases width,
{
    if width > 0 {
        let rest = le_bytes(x / 256, (width - 1) as nat);
        let all = le_bytes(x, width);
        lemma_le_bytes_len(x / 256, (width - 1) as nat);
        assert(all.skip(1) =~= rest);
        lemma_le_value_of_bytes(x / 256, (width - 1) as nat);
    }
}

/// Every byte string is the encoding of the number it stands for.
pub proof fn lemma_le_bytes_of_value(bytes: Seq<u8>)
    ensures
        le_value(bytes) < limit(bytes.len()),
        le_bytes(le_value(bytes), bytes.len()) == bytes,
    decreases bytes.len(),
{
    if bytes.len() > 0 {
        let rest = bytes.skip(1);
        lemma_le_bytes_of_value(rest);
        let v = le_value(bytes);
        assert(v % 256 == bytes[0] as nat);
        assert(v / 256 == le_value(rest));
        assert(le_bytes(v, bytes.len()) =~= bytes);
    }
}

pub proof fn lemma_twos_round_trip(x: int, width: nat)
    requires
        width > 0,
        -(limit(width) / 2) <= x < limit(width) / 2,
        limit(width) % 2 == 0,
    ensures
        twos(x, width) < limit(width),
        untwos(twos(x, width), width) == x,
{
}

/// Appends the `width` low little-endian bytes of `x`.
fn put_le(buf: &mut Vec<u8>, x: u64, width: usize)
    requires
        width <= 8,
    ensures
        final(buf)@ == old(buf)@ + le_bytes(x as nat, width as nat),
{
    let mut i: usize = 0;
    let mut rest: u64 = x;
    while i < width
        invariant
            i <= width,
            buf@ + le_bytes(rest as nat, (width - i) as nat) == old(buf)@ + le_bytes(
                x as nat,
                width as nat,
            ),
        decreases width - i,
    {
        buf.push((rest % 256) as u8);
        proof {
            assert(buf@ + le_bytes((rest / 256) as nat, (width - i - 1) as nat) =~= old(buf)@
                + le_bytes(x as nat, width as nat));
        }
        rest = rest / 256;
        i += 1;
    }
    proof {
        assert(buf@ + le_bytes(rest as nat, 0) =~= buf@);
    }
}

/// Reads the number that the `width` bytes from `pos` stand for.
fn get_le(buf: &[u8], pos: usize, width: usize) -> (x: u64)
    requires
        width <= 8,
        pos + width <= buf@.len(),
    ensures
        x as nat == le_value(buf@.subrange(pos as int, pos + width)),
        (x as nat) < limit(width as nat),
{
    let n = buf.len();
    let mut i: usize = width;
    let mut acc: u64 = 0;
    proof {
        reveal_with_fuel(limit, 9);
        assert(buf@.subrange(pos + width, pos + width) =~= Seq::<u8>::empty());
    }
    while i > 0
        invariant
            i <= width <= 8,
            pos + width <= buf@.len() == n,
            acc as nat == le_value(buf@.subrange(pos + i, pos + width)),
            (acc as nat) < limit((width - i) as nat),
        decreases i,
    {
        proof {
            let s = buf@.subrange(pos + i - 1, pos + width);
            assert(s.skip(1) =~= buf@.subrange(pos + i, pos + width));
            lemma_limit_monotone((width - i) as nat, 7);
            assert(limit(7) == 0x100_0000_0000_0000) by {
                reveal_with_fuel(limit, 9);
            }
        }
        i -= 1;
        acc = acc * 256 + buf[pos + i] as u64;
    }
    acc
}

pub proof fn lemma_limit_monotone(a: nat, b: nat)
    requires
        a <= b,
    ensures
        limit(a) <= limit(b),
        limit(a) > 0,
    decreases b,
{
    if a < b {
        lemma_limit_monotone(a, (b - 1) as nat);
    } else if a > 0 {
        lemma_limit_monotone((a - 1) as nat, (a - 1) as nat);
    }
}

/// Appends the two little-endian bytes of `x`.
pub fn put_u16(buf: &mut Vec<u8>, x: u16)
    ensures
        final(buf)@ == old(buf)@ + le_bytes(x as nat, 2),
{
    put_le(buf, x as u64, 2)
}

/// Appends the four little-endian bytes of `x`.
pub fn put_u32(buf: &mut Vec<u8>, x: u32)
    ensures
        final(buf)@ == old(buf)@ + le_bytes(x as nat, 4),
{
    put_le(buf, x as u64, 4)
}

/// Appends the eight little-endian bytes of `x`.
pub fn put_u64(buf: &mut Vec<u8>, x: u64)
    ensures
        final(buf)@ == old(buf)@ + le_bytes(x as nat, 8),
{
    put_le(buf, x, 8)
}

/// Appends the four little-endian bytes of `x` in two's complement.
pub fn put_i32(buf: &mut Vec<u8>, x: i32)
    ensures
        final(buf)@ == old(buf)@ + le_bytes(twos(x as int, 4), 4),
{
    proof {
        lemma_limits();
    }
    let u: u32 = if x >= 0 {
        x as u32
    } else {
        ((x - i32::MIN) as u32) + 0x8000_0000u32
    };
    put_le(buf, u as u64, 4)
}

/// Appends the eight little-endian bytes of `x` in two's complement.
pub fn put_i64(buf: &mut Vec<u8>, x: i64)
    ensures
        final(buf)@ == old(buf)@ + le_bytes(twos(x as int, 8), 8),
{
    proof {
        lemma_limits();
    }
    let u: u64 = if x >= 0 {
        x as u64
    } else {
        ((x - i64::MIN) as u64) + 0x8000_0000_0000_0000u64
    };
    put_le(buf, u, 8)
}

/// Reads the little-endian `u16` that starts at `pos`.
pub fn get_u16(buf: &[u8], pos: usize) -> (x: u16)
    requires
        pos + 2 <= buf@.len(),
    ensures
        x as nat == le_value(buf@.subrange(pos as int, pos + 2)),
{
    proof {
        lemma_limits();
    }
    get_le(buf, pos, 2) as u16
}

/// Reads the little-endian `u32` that starts at `pos`.
pub fn get_u32(buf: &[u8], pos: usize) -> (x: u32)
    requires
        pos + 4 <= buf@.len(),
    ensures
        x as nat == le_value(buf@.subrange(pos as int, pos + 4)),
{
    proof {
        lemma_limits();
    }
    get_le(buf, pos, 4) as u32
}

/// Reads the little-endian `u64` that starts at `pos`.
pub fn get_u64(buf: &[u8], pos: usize) -> (x: u64)
    requires
        pos + 8 <= buf@.len(),
    ensures
        x as nat == le_value(buf@.subrange(pos as int, pos + 8)),
{
    get_le(buf, pos, 8)
}

/// Reads the little-endian two's complement `i32` that starts at `pos`.
pub fn get_i32(buf: &[u8], pos: usize) -> (x: i32)
    requires
        pos + 4 <= buf@.len(),
    ensures
        x as int == untwos(le_value(buf@.subrange(pos as int, pos + 4)), 4),
{
    proof {
        lemma_limits();
    }
    let u: u32 = get_le(buf, pos, 4) as u32;
    if u < 0x8000_0000u32 {
        u as i32
    } else {
        ((u - 0x8000_0000u32) as i32) + i32::MIN
    }
}

/// Reads the little-endian two's complement `i64` that starts at `pos`.
pub fn get_i64(buf: &[u8], pos: usize) -> (x: i64)
    requires
        pos + 8 <= buf@.len(),
    ensures
        x as int == untwos(le_value(buf@.subrange(pos as int, pos + 8)), 8),
{
    proof {
        lemma_limits();
    }
    let u: u64 = get_le(buf, pos, 8);
    if u < 0x8000_0000_0000_0000u64 {
        u as i64
    } else {
        ((u - 0x8000_0000_0000_0000u64) as i64) + i64::MIN
    }
}

} // verus!
