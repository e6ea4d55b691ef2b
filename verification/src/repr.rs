//! Mathematical model of byte-level integer representations.
//!
//! A little-endian digit string stores the least significant byte first; a
//! big-endian digit string stores the most significant byte first. The spec
//! functions here define the value of such a string and the string encoding a
//! value at a given width, together with the two's-complement reinterpretation
//! used for the signed widths.

use vstd::prelude::*;
use vstd::arithmetic::div_mod::lemma_fundamental_div_mod;
use vstd::arithmetic::div_mod::lemma_fundamental_div_mod_converse_div;
use vstd::arithmetic::div_mod::lemma_fundamental_div_mod_converse_mod;
use vstd::assert_seqs_equal;

verus! {

/// `256^w`: the number of distinct values a string of `w` bytes can store.
pub open spec fn pow256(w: nat) -> nat
    decreases w,
{
    if w == 0 {
        1
    } else {
        256 * pow256((w - 1) as nat)
    }
}

/// The value of a byte string read least-significant byte first.
pub open spec fn le_val(s: Seq<u8>) -> nat
    decreases s.len(),
{
    if s.len() == 0 {
        0
    } else {
        (s[0] + 256 * le_val(s.drop_first())) as nat
    }
}

/// The value of a byte string read most-significant byte first.
pub open spec fn be_val(s: Seq<u8>) -> nat
    decreases s.len(),
{
    if s.len() == 0 {
        0
    } else {
        (256 * be_val(s.drop_last()) + s.last()) as nat
    }
}

/// The `w`-byte string encoding `v` least-significant byte first.
pub open spec fn le_bytes(v: nat, w: nat) -> Seq<u8>
    decreases w,
{
    if w == 0 {
        Seq::empty()
    } else {
        seq![(v % 256) as u8] + le_bytes(v / 256, (w - 1) as nat)
    }
}

/// The `w`-byte string encoding `v` most-significant byte first.
pub open spec fn be_bytes(v: nat, w: nat) -> Seq<u8>
    decreases w,
{
    if w == 0 {
        Seq::empty()
    } else {
        be_bytes(v / 256, (w - 1) as nat).push((v % 256) as u8)
    }
}

/// The two's-complement reinterpretation of the unsigned value `v` at width
/// `w` bytes: values with the high bit set stand for negatives.
pub open spec fn to_signed(v: nat, w: nat) -> int {
    if v < pow256(w) / 2 {
        v as int
    } else {
        v - pow256(w)
    }
}

/// The unsigned value whose `w`-byte two's-complement string encodes `v`.
pub open spec fn to_unsigned(v: int, w: nat) -> nat {
    if v >= 0 {
        v as nat
    } else {
        (v + pow256(w)) as nat
    }
}

/// An encoding at width `w` has exactly `w` bytes.
pub proof fn lemma_le_bytes_len(v: nat, w: nat)
    ensures
        le_bytes(v, w).len() == w,
        be_bytes(v, w).len() == w,
    decreases w,
{
    if w > 0 {
        lemma_le_bytes_len(v / 256, (w - 1) as nat);
    }
}

/// A string of `w` bytes stores a value below `256^w`.
pub proof fn lemma_le_val_bound(s: Seq<u8>)
    ensures
        le_val(s) < pow256(s.len()),
    decreases s.len(),
{
    if s.len() > 0 {
        lemma_le_val_bound(s.drop_first());
    }
}

/// A string of `w` bytes stores a value below `256^w`.
pub proof fn lemma_be_val_bound(s: Seq<u8>)
    ensures
        be_val(s) < pow256(s.len()),
    decreases s.len(),
{
    if s.len() > 0 {
        lemma_be_val_bound(s.drop_last());
    }
}

/// `256^w` grows with the width.
pub proof fn lemma_pow256_increases(a: nat, b: nat)
    requires
        a <= b,
    ensures
        pow256(a) <= pow256(b),
    decreases b,
{
    if a < b {
        lemma_pow256_increases(a, (b - 1) as nat);
    }
}

/// The powers of 256 at the supported widths.
pub proof fn lemma_pow256_values()
    ensures
        pow256(1) == 0x100,
        pow256(2) == 0x1_0000,
        pow256(4) == 0x1_0000_0000,
        pow256(8) == 0x1_0000_0000_0000_0000,
        pow256(16) == 0x1_0000_0000_0000_0000_0000_0000_0000_0000,
{
    assert(pow256(0) == 1);
    assert(pow256(1) == 0x100);
    assert(pow256(2) == 0x1_0000);
    assert(pow256(3) == 0x100_0000);
    assert(pow256(4) == 0x1_0000_0000);
    assert(pow256(5) == 0x100_0000_0000);
    assert(pow256(6) == 0x1_0000_0000_0000);
    assert(pow256(7) == 0x100_0000_0000_0000);
    assert(pow256(8) == 0x1_0000_0000_0000_0000);
    assert(pow256(9) == 0x100_0000_0000_0000_0000);
    assert(pow256(10) == 0x1_0000_0000_0000_0000_0000);
    assert(pow256(11) == 0x100_0000_0000_0000_0000_0000);
    assert(pow256(12) == 0x1_0000_0000_0000_0000_0000_0000);
    assert(pow256(13) == 0x100_0000_0000_0000_0000_0000_0000);
    assert(pow256(14) == 0x1_0000_0000_0000_0000_0000_0000_0000);
    assert(pow256(15) == 0x100_0000_0000_0000_0000_0000_0000_0000);
    assert(pow256(16) == 0x1_0000_0000_0000_0000_0000_0000_0000_0000);
}

/// Encoding a value and reading the string back under the same little-endian
/// order recovers the value.
pub proof fn lemma_le_val_of_le_bytes(v: nat, w: nat)
    requires
        v < pow256(w),
    ensures
        le_val(le_bytes(v, w)) == v,
    decreases w,
{
    if w > 0 {
        let b = (v % 256) as u8;
        let t = le_bytes(v / 256, (w - 1) as nat);
        assert_seqs_equal!((seq![b] + t).drop_first() == t);
        lemma_fundamental_div_mod(v as int, 256);
        lemma_le_val_of_le_bytes(v / 256, (w - 1) as nat);
    }
}

/// Encoding a value and reading the string back under the same big-endian
/// order recovers the value.
pub proof fn lemma_be_val_of_be_bytes(v: nat, w: nat)
    requires
        v < pow256(w),
    ensures
        be_val(be_bytes(v, w)) == v,
    decreases w,
{
    if w > 0 {
        let b = (v % 256) as u8;
        let t = be_bytes(v / 256, (w - 1) as nat);
        lemma_le_bytes_len(v / 256, (w - 1) as nat);
        assert(t.push(b).drop_last() == t);
        assert(t.push(b).last() == b);
        lemma_fundamental_div_mod(v as int, 256);
        lemma_be_val_of_be_bytes(v / 256, (w - 1) as nat);
    }
}

/// Reading a byte string and encoding the value back at the same width under
/// the same little-endian order reproduces the string byte for byte.
pub proof fn lemma_le_bytes_of_le_val(s: Seq<u8>)
    ensures
        le_bytes(le_val(s), s.len()) == s,
    decreases s.len(),
{
    if s.len() > 0 {
        let t = s.drop_first();
        let v = le_val(s);
        lemma_fundamental_div_mod_converse_mod(v as int, 256, le_val(t) as int, s[0] as int);
        lemma_fundamental_div_mod_converse_div(v as int, 256, le_val(t) as int, s[0] as int);
        lemma_le_bytes_of_le_val(t);
        assert_seqs_equal!(le_bytes(le_val(s), s.len()) == s);
    }
}

/// Reading a byte string and encoding the value back at the same width under
/// the same big-endian order reproduces the string byte for byte.
pub proof fn lemma_be_bytes_of_be_val(s: Seq<u8>)
    ensures
        be_bytes(be_val(s), s.len()) == s,
    decreases s.len(),
{
    if s.len() > 0 {
        let t = s.drop_last();
        let v = be_val(s);
        lemma_fundamental_div_mod_converse_mod(v as int, 256, be_val(t) as int, s.last() as int);
        lemma_fundamental_div_mod_converse_div(v as int, 256, be_val(t) as int, s.last() as int);
        lemma_be_bytes_of_be_val(t);
        assert_seqs_equal!(be_bytes(be_val(s), s.len()) == s);
    }
}

/// The big-endian encoding of a value is the byte-for-byte reverse of its
/// little-endian encoding, at every width.
pub proof fn lemma_be_bytes_is_le_bytes_reversed(v: nat, w: nat)
    ensures
        be_bytes(v, w) == le_bytes(v, w).reverse(),
    decreases w,
{
    lemma_le_bytes_len(v, w);
    if w == 0 {
        assert_seqs_equal!(be_bytes(v, w) == le_bytes(v, w).reverse());
    } else {
        let b = (v % 256) as u8;
        let t = le_bytes(v / 256, (w - 1) as nat);
        lemma_le_bytes_len(v / 256, (w - 1) as nat);
        lemma_be_bytes_is_le_bytes_reversed(v / 256, (w - 1) as nat);
        assert_seqs_equal!(t.reverse().push(b) == (seq![b] + t).reverse());
        assert(be_bytes(v, w) == t.reverse().push(b));
        assert(le_bytes(v, w) == seq![b] + t);
    }
}

/// The value a byte string stores under big-endian order is the value its
/// reverse stores under little-endian order.
pub proof fn lemma_be_val_is_le_val_of_reverse(s: Seq<u8>)
    ensures
        be_val(s) == le_val(s.reverse()),
{
    let v = be_val(s);
    lemma_be_bytes_of_be_val(s);
    lemma_be_bytes_is_le_bytes_reversed(v, s.len());
    lemma_le_bytes_len(v, s.len());
    assert_seqs_equal!(le_bytes(v, s.len()).reverse().reverse() == le_bytes(v, s.len()));
    assert(s.reverse() == le_bytes(v, s.len()));
    lemma_be_val_bound(s);
    lemma_le_val_of_le_bytes(v, s.len());
}

/// The two's-complement reinterpretations are mutually inverse on the values
/// a width of `w` bytes can hold.
pub proof fn lemma_signed_unsigned_inverse(v: int, u: nat, w: nat)
    ensures
        -(pow256(w) / 2) <= v < pow256(w) / 2 ==> to_signed(to_unsigned(v, w), w) == v,
        u < pow256(w) ==> to_unsigned(to_signed(u, w), w) == u,
{
    if w > 0 {
        lemma_pow256_increases(1, w);
    }
    lemma_fundamental_div_mod(pow256(w) as int, 2);
    assert(pow256(w) % 2 == 0 || w == 0) by {
        if w > 0 {
            let p = pow256((w - 1) as nat) as int;
            lemma_fundamental_div_mod_converse_mod(256 * p, 2, 128 * p, 0);
        }
    }
}

} // verus!
