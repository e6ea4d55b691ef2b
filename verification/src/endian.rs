//! The byte-order selector and its read and write operations.

use vstd::prelude::*;
use vstd::assert_seqs_equal;
use vstd::arithmetic::div_mod::lemma_fundamental_div_mod;

use crate::repr::be_val;
use crate::repr::le_val;
use crate::repr::le_bytes;
use crate::repr::be_bytes;
use crate::repr::pow256;
use crate::repr::lemma_le_bytes_len;
use crate::repr::lemma_le_val_bound;
use crate::repr::lemma_be_val_bound;
use crate::repr::lemma_pow256_increases;
use crate::repr::lemma_pow256_values;
use crate::repr::lemma_le_val_of_le_bytes;
use crate::repr::lemma_be_val_of_be_bytes;
use crate::repr::lemma_le_bytes_of_le_val;
use crate::repr::lemma_be_bytes_of_be_val;
use crate::repr::lemma_be_bytes_is_le_bytes_reversed;
use crate::repr::lemma_be_val_is_le_val_of_reverse;
use crate::repr::lemma_signed_unsigned_inverse;
use crate::repr::to_signed;
use crate::repr::to_unsigned;

verus! {

/// The byte order of the data: least-significant byte first (`Little`) or
/// most-significant byte first (`Big`).
#[derive(Debug, Clone, Copy, PartialEq, Eq, Hash, Structural)]
pub enum Endian {
    Little,
    Big,
}

impl Endian {
    /// The value stored by the byte string `s` under this byte order.
    pub open spec fn decoded(self, s: Seq<u8>) -> nat {
        match self {
            Endian::Little => le_val(s),
            Endian::Big => be_val(s),
        }
    }

    /// The `w`-byte string that encodes `v` under this byte order.
    pub open spec fn encoded(self, v: nat, w: nat) -> Seq<u8> {
        match self {
            Endian::Little => le_bytes(v, w),
            Endian::Big => be_bytes(v, w),
        }
    }

    /// The byte order the executing machine itself uses for its in-memory
    /// representation of multi-byte values, found by probing the machine
    /// representation of a sample value. Which of the two variants comes back
    /// depends only on the target, so no postcondition can pin it down; the
    /// decision on the probe bytes is verified in [`order_of_probe`].
    pub fn native() -> (r: Endian) {
        let (b0, b1) = native_bytes_u16(0x0102);
        order_of_probe(b0, b1)
    }

    /// Read a `u8` from the first byte of `buf`.
    pub fn read_u8(self, buf: &[u8]) -> (r: u8)
        requires
            buf@.len() >= 1,
        ensures
            r as nat == self.decoded(buf@.take(1)),
    {
        proof {
            lemma_le_val_bound(buf@.take(1));
            lemma_be_val_bound(buf@.take(1));
            lemma_pow256_values();
        }
        read_uint(self, buf, 1) as u8
    }

    /// Read a `u16` from the first 2 bytes of `buf` under this byte order.
    pub fn read_u16(self, buf: &[u8]) -> (r: u16)
        requires
            buf@.len() >= 2,
        ensures
            r as nat == self.decoded(buf@.take(2)),
    {
        proof {
            lemma_le_val_bound(buf@.take(2));
            lemma_be_val_bound(buf@.take(2));
            lemma_pow256_values();
        }
        read_uint(self, buf, 2) as u16
    }

    /// Read a `u32` from the first 4 bytes of `buf` under this byte order.
    pub fn read_u32(self, buf: &[u8]) -> (r: u32)
        requires
            buf@.len() >= 4,
        ensures
            r as nat == self.decoded(buf@.take(4)),
    {
        proof {
            lemma_le_val_bound(buf@.take(4));
            lemma_be_val_bound(buf@.take(4));
            lemma_pow256_values();
        }
        read_uint(self, buf, 4) as u32
    }

    /// Read a `u64` from the first 8 bytes of `buf` under this byte order.
    pub fn read_u64(self, buf: &[u8]) -> (r: u64)
        requires
            buf@.len() >= 8,
        ensures
            r as nat == self.decoded(buf@.take(8)),
    {
        proof {
            lemma_le_val_bound(buf@.take(8));
            lemma_be_val_bound(buf@.take(8));
            lemma_pow256_values();
        }
        read_uint(self, buf, 8) as u64
    }

    /// Read a `u128` from the first 16 bytes of `buf` under this byte order.
    pub fn read_u128(self, buf: &[u8]) -> (r: u128)
        requires
            buf@.len() >= 16,
        ensures
            r as nat == self.decoded(buf@.take(16)),
    {
        read_uint(self, buf, 16)
    }

    /// Read an `i8` from the first byte of `buf`, as two's complement.
    pub fn read_i8(self, buf: &[u8]) -> (r: i8)
        requires
            buf@.len() >= 1,
        ensures
            r as int == to_signed(self.decoded(buf@.take(1)), 1),
    {
        let u = self.read_u8(buf);
        proof {
            lemma_pow256_values();
        }
        if u < 0x80 {
            u as i8
        } else {
            -((0xFFu8 - u) as i8) - 1
        }
    }

    /// Read an `i16` from the first 2 bytes of `buf` under this byte order,
    /// as two's complement.
    pub fn read_i16(self, buf: &[u8]) -> (r: i16)
        requires
            buf@.len() >= 2,
        ensures
            r as int == to_signed(self.decoded(buf@.take(2)), 2),
    {
        let u = self.read_u16(buf);
        proof {
            lemma_pow256_values();
        }
        if u < 0x8000 {
            u as i16
        } else {
            -((0xFFFFu16 - u) as i16) - 1
        }
    }

    /// Read an `i32` from the first 4 bytes of `buf` under this byte order,
    /// as two's complement.
    pub fn read_i32(self, buf: &[u8]) -> (r: i32)
        requires
            buf@.len() >= 4,
        ensures
            r as int == to_signed(self.decoded(buf@.take(4)), 4),
    {
        let u = self.read_u32(buf);
        proof {
            lemma_pow256_values();
        }
        if u < 0x8000_0000 {
            u as i32
        } else {
            -((0xFFFF_FFFFu32 - u) as i32) - 1
        }
    }

    /// Read an `i64` from the first 8 bytes of `buf` under this byte order,
    /// as two's complement.
    pub fn read_i64(self, buf: &[u8]) -> (r: i64)
        requires
            buf@.len() >= 8,
        ensures
            r as int == to_signed(self.decoded(buf@.take(8)), 8),
    {
        let u = self.read_u64(buf);
        proof {
            lemma_pow256_values();
        }
        if u < 0x8000_0000_0000_0000 {
            u as i64
        } else {
            -((0xFFFF_FFFF_FFFF_FFFFu64 - u) as i64) - 1
        }
    }

    /// Read an `i128` from the first 16 bytes of `buf` under this byte order,
    /// as two's complement.
    pub fn read_i128(self, buf: &[u8]) -> (r: i128)
        requires
            buf@.len() >= 16,
        ensures
            r as int == to_signed(self.decoded(buf@.take(16)), 16),
    {
        let u = self.read_u128(buf);
        proof {
            lemma_pow256_values();
        }
        if u < 0x8000_0000_0000_0000_0000_0000_0000_0000 {
            u as i128
        } else {
            -((0xFFFF_FFFF_FFFF_FFFF_FFFF_FFFF_FFFF_FFFFu128 - u) as i128) - 1
        }
    }

    /// Write `n` into the first byte of `buf`, leaving the rest unchanged.
    pub fn write_u8(self, buf: &mut [u8], n: u8)
        requires
            old(buf)@.len() >= 1,
        ensures
            final(buf)@.len() == old(buf)@.len(),
            final(buf)@.take(1) == self.encoded(n as nat, 1),
            final(buf)@.skip(1) == old(buf)@.skip(1),
    {
        proof {
            lemma_pow256_values();
        }
        write_uint(self, buf, 1, n as u128);
    }

    /// Write the 2-byte encoding of `n` under this byte order into the first
    /// 2 bytes of `buf`, leaving the rest unchanged.
    pub fn write_u16(self, buf: &mut [u8], n: u16)
        requires
            old(buf)@.len() >= 2,
        ensures
            final(buf)@.len() == old(buf)@.len(),
            final(buf)@.take(2) == self.encoded(n as nat, 2),
            final(buf)@.skip(2) == old(buf)@.skip(2),
    {
        proof {
            lemma_pow256_values();
        }
        write_uint(self, buf, 2, n as u128);
    }

    /// Write the 4-byte encoding of `n` under this byte order into the first
    /// 4 bytes of `buf`, leaving the rest unchanged.
    pub fn write_u32(self, buf: &mut [u8], n: u32)
        requires
            old(buf)@.len() >= 4,
        ensures
            final(buf)@.len() == old(buf)@.len(),
            final(buf)@.take(4) == self.encoded(n as nat, 4),
            final(buf)@.skip(4) == old(buf)@.skip(4),
    {
        proof {
            lemma_pow256_values();
        }
        write_uint(self, buf, 4, n as u128);
    }

    /// Write the 8-byte encoding of `n` under this byte order into the first
    /// 8 bytes of `buf`, leaving the rest unchanged.
    pub fn write_u64(self, buf: &mut [u8], n: u64)
        requires
            old(buf)@.len() >= 8,
        ensures
            final(buf)@.len() == old(buf)@.len(),
            final(buf)@.take(8) == self.encoded(n as nat, 8),
            final(buf)@.skip(8) == old(buf)@.skip(8),
    {
        proof {
            lemma_pow256_values();
        }
        write_uint(self, buf, 8, n as u128);
    }

    /// Write the 16-byte encoding of `n` under this byte order into the first
    /// 16 bytes of `buf`, leaving the rest unchanged.
    pub fn write_u128(self, buf: &mut [u8], n: u128)
        requires
            old(buf)@.len() >= 16,
        ensures
            final(buf)@.len() == old(buf)@.len(),
            final(buf)@.take(16) == self.encoded(n as nat, 16),
            final(buf)@.skip(16) == old(buf)@.skip(16),
    {
        proof {
            lemma_pow256_values();
        }
        write_uint(self, buf, 16, n);
    }

    /// Write the two's-complement byte of `n` into the first byte of `buf`,
    /// leaving the rest unchanged.
    pub fn write_i8(self, buf: &mut [u8], n: i8)
        requires
            old(buf)@.len() >= 1,
        ensures
            final(buf)@.len() == old(buf)@.len(),
            final(buf)@.take(1) == self.encoded(to_unsigned(n as int, 1), 1),
            final(buf)@.skip(1) == old(buf)@.skip(1),
    {
        proof {
            lemma_pow256_values();
        }
        let u: u8 = if n >= 0 {
            n as u8
        } else {
            0xFFu8 - ((-(n + 1)) as u8)
        };
        self.write_u8(buf, u);
    }

    /// Write the 2-byte two's-complement encoding of `n` under this byte
    /// order into the first 2 bytes of `buf`, leaving the rest unchanged.
    pub fn write_i16(self, buf: &mut [u8], n: i16)
        requires
            old(buf)@.len() >= 2,
        ensures
            final(buf)@.len() == old(buf)@.len(),
            final(buf)@.take(2) == self.encoded(to_unsigned(n as int, 2), 2),
            final(buf)@.skip(2) == old(buf)@.skip(2),
    {
        proof {
            lemma_pow256_values();
        }
        let u: u16 = if n >= 0 {
            n as u16
        } else {
            0xFFFFu16 - ((-(n + 1)) as u16)
        };
        self.write_u16(buf, u);
    }

    /// Write the 4-byte two's-complement encoding of `n` under this byte
    /// order into the first 4 bytes of `buf`, leaving the rest unchanged.
    pub fn write_i32(self, buf: &mut [u8], n: i32)
        requires
            old(buf)@.len() >= 4,
        ensures
            final(buf)@.len() == old(buf)@.len(),
            final(buf)@.take(4) == self.encoded(to_unsigned(n as int, 4), 4),
            final(buf)@.skip(4) == old(buf)@.skip(4),
    {
        proof {
            lemma_pow256_values();
        }
        let u: u32 = if n >= 0 {
            n as u32
        } else {
            0xFFFF_FFFFu32 - ((-(n + 1)) as u32)
        };
        self.write_u32(buf, u);
    }

    /// Write the 8-byte two's-complement encoding of `n` under this byte
    /// order into the first 8 bytes of `buf`, leaving the rest unchanged.
    pub fn write_i64(self, buf: &mut [u8], n: i64)
        requires
            old(buf)@.len() >= 8,
        ensures
            final(buf)@.len() == old(buf)@.len(),
            final(buf)@.take(8) == self.encoded(to_unsigned(n as int, 8), 8),
            final(buf)@.skip(8) == old(buf)@.skip(8),
    {
        proof {
            lemma_pow256_values();
        }
        let u: u64 = if n >= 0 {
            n as u64
        } else {
            0xFFFF_FFFF_FFFF_FFFFu64 - ((-(n + 1)) as u64)
        };
        self.write_u64(buf, u);
    }

    /// Write the 16-byte two's-complement encoding of `n` under this byte
    /// order into the first 16 bytes of `buf`, leaving the rest unchanged.
    pub fn write_i128(self, buf: &mut [u8], n: i128)
        requires
            old(buf)@.len() >= 16,
        ensures
            final(buf)@.len() == old(buf)@.len(),
            final(buf)@.take(16) == self.encoded(to_unsigned(n as int, 16), 16),
            final(buf)@.skip(16) == old(buf)@.skip(16),
    {
        proof {
            lemma_pow256_values();
        }
        let u: u128 = if n >= 0 {
            n as u128
        } else {
            0xFFFF_FFFF_FFFF_FFFF_FFFF_FFFF_FFFF_FFFFu128 - ((-(n + 1)) as u128)
        };
        self.write_u128(buf, u);
    }
}

/// Relies on `u16::to_ne_bytes`: it returns the machine's own in-memory
/// representation of `n`, documented to equal `to_le_bytes` on little-endian
/// targets and `to_be_bytes` on big-endian targets.
#[verifier::external_body]
fn native_bytes_u16(n: u16) -> (r: (u8, u8))
    ensures
        seq![r.0, r.1] == le_bytes(n as nat, 2) || seq![r.0, r.1] == be_bytes(n as nat, 2),
{
    let bytes = n.to_ne_bytes();
    (bytes[0], bytes[1])
}

/// The two encodings of the probe value: `0x0102` is stored as `[0x02, 0x01]`
/// least-significant byte first and as `[0x01, 0x02]` most-significant byte
/// first, so its first byte tells the two orders apart.
proof fn lemma_probe_encodings()
    ensures
        le_bytes(0x0102 as nat, 2) == seq![0x02u8, 0x01u8],
        be_bytes(0x0102 as nat, 2) == seq![0x01u8, 0x02u8],
{
    assert(le_bytes(0x0102 as nat, 2) == seq![0x02u8] + le_bytes(1, 1));
    assert(le_bytes(1, 1) == seq![0x01u8] + le_bytes(0, 0));
    assert_seqs_equal!(le_bytes(0x0102 as nat, 2) == seq![0x02u8, 0x01u8]);
    assert(be_bytes(0x0102 as nat, 2) == be_bytes(1, 1).push(0x02u8));
    assert(be_bytes(1, 1) == be_bytes(0, 0).push(0x01u8));
    assert_seqs_equal!(be_bytes(0x0102 as nat, 2) == seq![0x01u8, 0x02u8]);
}

/// The byte order a machine stores the probe value `0x0102` in, decided from
/// the two probe bytes: least-significant byte first yields `Little`,
/// most-significant byte first yields `Big`.
fn order_of_probe(b0: u8, b1: u8) -> (r: Endian)
    requires
        seq![b0, b1] == le_bytes(0x0102 as nat, 2) || seq![b0, b1] == be_bytes(0x0102 as nat, 2),
    ensures
        seq![b0, b1] == le_bytes(0x0102 as nat, 2) ==> r == Endian::Little,
        seq![b0, b1] == be_bytes(0x0102 as nat, 2) ==> r == Endian::Big,
{
    proof {
        lemma_probe_encodings();
        assert(seq![b0, b1][0] == b0);
    }
    if b0 == 0x02 {
        Endian::Little
    } else {
        Endian::Big
    }
}

/// The value of the first `w` bytes of `buf`, least-significant byte first.
fn read_le(buf: &[u8], w: usize) -> (r: u128)
    requires
        w <= 16,
        w <= buf@.len(),
    ensures
        r as nat == le_val(buf@.take(w as int)),
{
    let ghost s = buf@.take(w as int);
    let mut val: u128 = 0;
    let mut i: usize = w;
    while i > 0
        invariant
            i <= w,
            w <= 16,
            w <= buf@.len(),
            s == buf@.take(w as int),
            val as nat == le_val(s.subrange(i as int, w as int)),
            val < pow256((w - i) as nat),
        decreases i,
    {
        i = i - 1;
        proof {
            let sub = s.subrange(i as int, w as int);
            assert_seqs_equal!(sub.drop_first() == s.subrange(i as int + 1, w as int));
            lemma_pow256_increases((w - i - 1) as nat, 15);
            lemma_pow256_values();
        }
        val = val * 256 + (buf[i] as u128);
    }
    proof {
        assert_seqs_equal!(s.subrange(0, w as int) == s);
    }
    val
}

/// The value of the first `w` bytes of `buf`, most-significant byte first.
fn read_be(buf: &[u8], w: usize) -> (r: u128)
    requires
        w <= 16,
        w <= buf@.len(),
    ensures
        r as nat == be_val(buf@.take(w as int)),
{
    let ghost s = buf@.take(w as int);
    let mut val: u128 = 0;
    let mut i: usize = 0;
    while i < w
        invariant
            i <= w,
            w <= 16,
            w <= buf@.len(),
            s == buf@.take(w as int),
            val as nat == be_val(s.take(i as int)),
            val < pow256(i as nat),
        decreases w - i,
    {
        proof {
            assert_seqs_equal!(s.take(i as int + 1).drop_last() == s.take(i as int));
            assert(s.take(i as int + 1).last() == s[i as int]);
            lemma_pow256_increases(i as nat, 15);
            lemma_pow256_values();
        }
        val = val * 256 + (buf[i] as u128);
        i = i + 1;
    }
    proof {
        assert(s.take(w as int) == s);
    }
    val
}

/// The `w`-byte little-endian encoding of `v`, as a fresh vector.
fn le_bytes_vec(v: u128, w: usize) -> (r: Vec<u8>)
    requires
        w <= 16,
        (v as nat) < pow256(w as nat),
    ensures
        r@ == le_bytes(v as nat, w as nat),
{
    let ghost v0 = v as nat;
    let mut r: Vec<u8> = Vec::new();
    let mut vr: u128 = v;
    let mut i: usize = 0;
    proof {
        assert_seqs_equal!(Seq::<u8>::empty() + le_bytes(v0, w as nat) == le_bytes(v0, w as nat));
    }
    while i < w
        invariant
            i <= w,
            r@.len() == i as nat,
            le_bytes(v0, w as nat) == r@ + le_bytes(vr as nat, (w - i) as nat),
        decreases w - i,
    {
        let b: u8 = (vr % 256) as u8;
        proof {
            let tail = le_bytes((vr / 256) as nat, (w - i - 1) as nat);
            assert(le_bytes(vr as nat, (w - i) as nat) == seq![b] + tail);
            assert_seqs_equal!(r@ + (seq![b] + tail) == r@.push(b) + tail);
        }
        r.push(b);
        vr = vr / 256;
        i = i + 1;
    }
    proof {
        assert(le_bytes(vr as nat, 0) == Seq::<u8>::empty());
        assert_seqs_equal!(r@ + Seq::<u8>::empty() == r@);
    }
    r
}

/// A fresh vector holding the bytes of `x` in reverse order.
fn reverse_vec(x: &Vec<u8>) -> (r: Vec<u8>)
    ensures
        r@ == x@.reverse(),
{
    let n = x.len();
    let mut r: Vec<u8> = Vec::new();
    let mut i: usize = 0;
    while i < n
        invariant
            i <= n,
            n == x@.len(),
            r@.len() == i as nat,
            forall|k: int| 0 <= k < i ==> r@[k] == x@[n - 1 - k],
        decreases n - i,
    {
        r.push(x[n - 1 - i]);
        i = i + 1;
    }
    proof {
        assert_seqs_equal!(r@ == x@.reverse());
    }
    r
}

/// Overwrites the first bytes of `buf` with the bytes of `src`, leaving the
/// rest of `buf` unchanged.
fn write_window(buf: &mut [u8], src: &Vec<u8>)
    requires
        src@.len() <= old(buf)@.len(),
    ensures
        final(buf)@.len() == old(buf)@.len(),
        final(buf)@.take(src@.len() as int) == src@,
        final(buf)@.skip(src@.len() as int) == old(buf)@.skip(src@.len() as int),
{
    let ghost orig = buf@;
    let w = src.len();
    let mut i: usize = 0;
    while i < w
        invariant
            i <= w,
            w == src@.len(),
            w <= buf@.len(),
            buf@.len() == orig.len(),
            forall|k: int| 0 <= k < i ==> buf@[k] == src@[k],
            forall|k: int| i <= k < buf@.len() ==> buf@[k] == orig[k],
        decreases w - i,
    {
        buf[i] = src[i];
        i = i + 1;
    }
    proof {
        assert_seqs_equal!(buf@.take(src@.len() as int) == src@);
        assert_seqs_equal!(buf@.skip(src@.len() as int) == orig.skip(src@.len() as int));
    }
}

/// Writes the `w`-byte encoding of `v` under the byte order `e` into the
/// first `w` bytes of `buf`, leaving the rest of `buf` unchanged.
fn write_uint(e: Endian, buf: &mut [u8], w: usize, v: u128)
    requires
        w <= 16,
        w <= old(buf)@.len(),
        (v as nat) < pow256(w as nat),
    ensures
        final(buf)@.len() == old(buf)@.len(),
        final(buf)@.take(w as int) == e.encoded(v as nat, w as nat),
        final(buf)@.skip(w as int) == old(buf)@.skip(w as int),
{
    let le = le_bytes_vec(v, w);
    proof {
        lemma_le_bytes_len(v as nat, w as nat);
    }
    match e {
        Endian::Little => write_window(buf, &le),
        Endian::Big => {
            let be = reverse_vec(&le);
            proof {
                lemma_be_bytes_is_le_bytes_reversed(v as nat, w as nat);
            }
            write_window(buf, &be);
        },
    }
}

/// The value of the first `w` bytes of `buf` under the byte order `e`.
fn read_uint(e: Endian, buf: &[u8], w: usize) -> (r: u128)
    requires
        w <= 16,
        w <= buf@.len(),
    ensures
        r as nat == e.decoded(buf@.take(w as int)),
{
    match e {
        Endian::Little => read_le(buf, w),
        Endian::Big => read_be(buf, w),
    }
}

/// Round-trip law: encoding a value at width `w` and decoding the resulting
/// string under the same byte order yields the value back, for every value
/// that `w` bytes can hold.
pub proof fn lemma_encode_then_decode(e: Endian, v: nat, w: nat)
    requires
        v < pow256(w),
    ensures
        e.decoded(e.encoded(v, w)) == v,
{
    match e {
        Endian::Little => lemma_le_val_of_le_bytes(v, w),
        Endian::Big => lemma_be_val_of_be_bytes(v, w),
    }
}

/// Round-trip law, the other direction: decoding a byte string and encoding
/// the value back at the same width under the same byte order reproduces the
/// string byte for byte.
pub proof fn lemma_decode_then_encode(e: Endian, s: Seq<u8>)
    ensures
        e.encoded(e.decoded(s), s.len()) == s,
{
    match e {
        Endian::Little => lemma_le_bytes_of_le_val(s),
        Endian::Big => lemma_be_bytes_of_be_val(s),
    }
}

/// Round-trip law for the signed widths: encoding the two's-complement image
/// of `v` at width `w` and reading the string back as a signed value yields
/// `v`, for every `v` that `w` bytes can hold in two's complement.
pub proof fn lemma_signed_round_trip(e: Endian, v: int, w: nat)
    requires
        -(pow256(w) / 2) <= v < pow256(w) / 2,
    ensures
        to_signed(e.decoded(e.encoded(to_unsigned(v, w), w)), w) == v,
{
    lemma_fundamental_div_mod(pow256(w) as int, 2);
    lemma_encode_then_decode(e, to_unsigned(v, w), w);
    lemma_signed_unsigned_inverse(v, to_unsigned(v, w), w);
}

/// Order-sensitivity: at every width, the string that encodes a value under
/// one byte order is the byte-for-byte reverse of the string that encodes it
/// under the other.
pub proof fn lemma_orders_encode_reversed(v: nat, w: nat)
    ensures
        Endian::Big.encoded(v, w) == Endian::Little.encoded(v, w).reverse(),
{
    lemma_be_bytes_is_le_bytes_reversed(v, w);
}

/// Order-sensitivity, decode direction: a byte string stores the same value
/// under one byte order as its reverse stores under the other.
pub proof fn lemma_orders_decode_reversed(s: Seq<u8>)
    ensures
        Endian::Big.decoded(s) == Endian::Little.decoded(s.reverse()),
{
    lemma_be_val_is_le_val_of_reverse(s);
}

/// Single-byte invariance: at width 1 the two byte orders encode every value
/// to the same byte and decode every byte to the same value.
pub proof fn lemma_single_byte_orders_agree(v: nat, s: Seq<u8>)
    requires
        v < 256,
        s.len() == 1,
    ensures
        Endian::Little.encoded(v, 1) == Endian::Big.encoded(v, 1),
        Endian::Little.decoded(s) == Endian::Big.decoded(s),
{
    let b = (v % 256) as u8;
    assert_seqs_equal!(seq![b] + le_bytes(v / 256, 0) == be_bytes(v / 256, 0).push(b));
    assert(s.drop_first().len() == 0);
    assert(s.drop_last().len() == 0);
    assert(le_val(s.drop_first()) == 0);
    assert(be_val(s.drop_last()) == 0);
    assert(s.last() == s[0]);
}

} // verus!
