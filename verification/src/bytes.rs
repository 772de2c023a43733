//! Big-endian integers as byte strings: the mathematical model shared by the
//! variable-length integer codec and the leaf encodings.

use byteorder::{BigEndian, ByteOrder};
use vstd::arithmetic::div_mod::lemma_div_denominator;
use vstd::arithmetic::power2::{
    lemma2_to64, lemma2_to64_rest, lemma_pow2_adds, lemma_pow2_pos, pow2,
};
use vstd::prelude::*;
use vstd::utf8::{decode_utf8, valid_utf8};

verus! {

/// The value of `bytes` read as an unsigned big-endian integer.
pub open spec fn be_value(bytes: Seq<u8>) -> nat
    decreases bytes.len(),
{
    if bytes.len() == 0 {
        0
    } else {
        be_value(bytes.drop_last()) * 256 + bytes.last() as nat
    }
}

/// The `n` lowest bytes of `v`, most significant first.
pub open spec fn be_bytes(v: nat, n: nat) -> Seq<u8>
    decreases n,
{
    if n == 0 {
        Seq::empty()
    } else {
        be_bytes(v / 256, (n - 1) as nat).push((v % 256) as u8)
    }
}

/// The signed integer whose `n`-byte two's-complement representation has
/// the unsigned value `v`.
pub open spec fn twos_complement(v: nat, n: nat) -> int {
    if n > 0 && v >= pow2((8 * n - 1) as nat) {
        v - pow2(8 * n)
    } else {
        v as int
    }
}

/// The unsigned value of the `n`-byte two's-complement representation of `v`.
pub open spec fn twos_complement_bits(v: int, n: nat) -> nat {
    if v < 0 {
        (v + pow2(8 * n)) as nat
    } else {
        v as nat
    }
}

/// The powers of two at byte and septet boundaries, as numbers.
pub proof fn lemma_pow2_values()
    ensures
        pow2(0) == 1,
        pow2(1) == 2,
        pow2(2) == 4,
        pow2(3) == 8,
        pow2(4) == 0x10,
        pow2(5) == 0x20,
        pow2(6) == 0x40,
        pow2(7) == 0x80,
        pow2(8) == 0x100,
        pow2(14) == 0x4000,
        pow2(15) == 0x8000,
        pow2(16) == 0x1_0000,
        pow2(21) == 0x20_0000,
        pow2(23) == 0x80_0000,
        pow2(24) == 0x100_0000,
        pow2(28) == 0x1000_0000,
        pow2(31) == 0x8000_0000,
        pow2(32) == 0x1_0000_0000,
        pow2(35) == 0x8_0000_0000,
        pow2(39) == 0x80_0000_0000,
        pow2(40) == 0x100_0000_0000,
        pow2(42) == 0x400_0000_0000,
        pow2(47) == 0x8000_0000_0000,
        pow2(48) == 0x1_0000_0000_0000,
        pow2(49) == 0x2_0000_0000_0000,
        pow2(52) == 0x10_0000_0000_0000,
        pow2(55) == 0x80_0000_0000_0000,
        pow2(56) == 0x100_0000_0000_0000,
        pow2(57) == 0x200_0000_0000_0000,
        pow2(63) == 0x8000_0000_0000_0000,
        pow2(64) == 0x1_0000_0000_0000_0000,
{
    lemma2_to64();
    lemma2_to64_rest();
}

/// Eight more bits multiply a power of two by 256.
pub proof fn lemma_pow2_byte(e: nat)
    ensures
        pow2(e + 8) == pow2(e) * 256,
        pow2(e) > 0,
{
    lemma_pow2_adds(e, 8);
    lemma_pow2_pos(e);
    lemma2_to64();
}

/// A representation of `n` bytes has `n` bytes.
pub proof fn lemma_be_bytes_len(v: nat, n: nat)
    ensures
        be_bytes(v, n).len() == n,
    decreases n,
{
    if n > 0 {
        lemma_be_bytes_len(v / 256, (n - 1) as nat);
    }
}

/// A byte string of length `n` has a value below `2^(8n)`.
pub proof fn lemma_be_value_bound(bytes: Seq<u8>)
    ensures
        be_value(bytes) < pow2(8 * bytes.len()),
    decreases bytes.len(),
{
    if bytes.len() == 0 {
        lemma2_to64();
    } else {
        lemma_be_value_bound(bytes.drop_last());
        lemma_pow2_byte(8 * (bytes.len() - 1) as nat);
        assert(8 * (bytes.len() - 1) as nat + 8 == 8 * bytes.len());
    }
}

/// Writing a value that fits and reading it back gives the value.
pub proof fn lemma_be_value_of_bytes(v: nat, n: nat)
    requires
        v < pow2(8 * n),
    ensures
        be_value(be_bytes(v, n)) == v,
    decreases n,
{
    if n == 0 {
        lemma2_to64();
    } else {
        let m = (n - 1) as nat;
        lemma_pow2_byte(8 * m);
        assert(8 * m + 8 == 8 * n);
        assert(v / 256 < pow2(8 * m));
        lemma_be_value_of_bytes(v / 256, m);
        assert(be_bytes(v, n).drop_last() =~= be_bytes(v / 256, m));
    }
}

/// The value of a concatenation: the left part is shifted past the right.
pub proof fn lemma_be_value_concat(a: Seq<u8>, b: Seq<u8>)
    ensures
        be_value(a + b) == be_value(a) * pow2(8 * b.len()) + be_value(b),
    decreases b.len(),
{
    if b.len() == 0 {
        assert(a + b =~= a);
        lemma2_to64();
        assert(pow2(8 * b.len()) == 1);
    } else {
        let m = (b.len() - 1) as nat;
        assert((a + b).drop_last() =~= a + b.drop_last());
        lemma_be_value_concat(a, b.drop_last());
        lemma_pow2_byte(8 * m);
        assert(8 * m + 8 == 8 * b.len());
        let x = be_value(a);
        let y = be_value(b.drop_last());
        let p = pow2(8 * m);
        assert((a + b).last() == b.last());
        assert((x * p + y) * 256 == x * (p * 256) + y * 256) by (nonlinear_arith);
        assert(be_value(a + b) == (x * p + y) * 256 + b.last() as nat);
        assert(pow2(8 * b.len()) == p * 256);
    }
}

/// The representation one byte wider has the next higher byte in front.
pub proof fn lemma_be_bytes_prepend(v: nat, n: nat)
    ensures
        be_bytes(v, n + 1) == seq![(v / pow2(8 * n) % 256) as u8] + be_bytes(v, n),
    decreases n,
{
    if n == 0 {
        lemma2_to64();
        assert(be_bytes(v, 1) =~= seq![(v % 256) as u8]) by {
            reveal_with_fuel(be_bytes, 2);
        }
        assert(be_bytes(v, 0) =~= Seq::<u8>::empty());
        assert(pow2(8 * n) == 1);
        assert(v / 1 == v);
        assert(seq![(v % 256) as u8] + Seq::<u8>::empty() =~= seq![(v % 256) as u8]);
    } else {
        let m = (n - 1) as nat;
        lemma_be_bytes_prepend(v / 256, m);
        lemma_pow2_byte(8 * m);
        assert(8 * m + 8 == 8 * n);
        lemma_div_denominator(v as int, 256, pow2(8 * m) as int);
        let p = pow2(8 * m);
        assert(256 * p == p * 256) by (nonlinear_arith);
        assert(pow2(8 * n) == 256 * p);
        assert(v / 256 / p == v / pow2(8 * n));
        let top = seq![(v / pow2(8 * n) % 256) as u8];
        let low = (v % 256) as u8;
        assert(be_bytes(v / 256, n) == top + be_bytes(v / 256, m));
        assert(be_bytes(v, n) == be_bytes(v / 256, m).push(low));
        assert(be_bytes(v, n + 1) == be_bytes(v / 256, n).push(low));
        assert((top + be_bytes(v / 256, m)).push(low) =~= top + be_bytes(v / 256, m).push(low));
    }
}

/// The first byte of a representation that holds the whole value.
pub proof fn lemma_be_bytes_first(v: nat, n: nat)
    requires
        n > 0,
        v < pow2(8 * n),
    ensures
        be_bytes(v, n)[0] == v / pow2((8 * (n - 1)) as nat),
        v / pow2((8 * (n - 1)) as nat) < 256,
{
    let m = (n - 1) as nat;
    lemma_be_bytes_prepend(v, m);
    lemma_pow2_byte(8 * m);
    assert(8 * m + 8 == 8 * n);
    let p = pow2(8 * m);
    assert(v / p < 256) by (nonlinear_arith)
        requires
            v < p * 256,
            p > 0,
    ;
}

/// `byteorder::BigEndian::read_uint`: the first `nbytes` bytes of `buf` read
/// as an unsigned big-endian integer. It panics unless `nbytes` is between 1
/// and 8 and `buf` holds that many bytes.
#[verifier::external_body]
pub(crate) fn read_uint(buf: &[u8], nbytes: usize) -> (value: u64)
    requires
        1 <= nbytes <= 8,
        nbytes <= buf@.len(),
    ensures
        value == be_value(buf@.subrange(0, nbytes as int)),
{
    BigEndian::read_uint(buf, nbytes)
}

/// `byteorder::BigEndian::read_int`: the first `nbytes` bytes of `buf` read
/// as a big-endian two's-complement integer of that width, sign-extended.
/// It panics unless `nbytes` is between 1 and 8 and `buf` holds that many
/// bytes.
#[verifier::external_body]
pub(crate) fn read_int(buf: &[u8], nbytes: usize) -> (value: i64)
    requires
        1 <= nbytes <= 8,
        nbytes <= buf@.len(),
    ensures
        value == twos_complement(be_value(buf@.subrange(0, nbytes as int)), nbytes as nat),
{
    BigEndian::read_int(buf, nbytes)
}

/// `byteorder::BigEndian::write_uint` into a fresh buffer of `nbytes` bytes:
/// the big-endian representation of `n` at that width. It panics unless
/// `nbytes` is at most 8 and `n` fits in that many bytes; no `n` fits in
/// none.
#[verifier::external_body]
pub(crate) fn write_uint(n: u64, nbytes: usize) -> (buf: Vec<u8>)
    requires
        1 <= nbytes <= 8,
        n < pow2(8 * nbytes as nat),
    ensures
        buf@ == be_bytes(n as nat, nbytes as nat),
{
    let mut buf = vec![0u8; nbytes];
    BigEndian::write_uint(&mut buf, n, nbytes);
    buf
}

/// `byteorder::BigEndian::write_int` into a fresh buffer of `nbytes` bytes:
/// the big-endian two's-complement representation of `n` at that width. Its
/// documentation has it panic unless `nbytes` is at most 8 and `n` fits in
/// that many bytes, and the shift in it overflows for an `nbytes` of 0.
#[verifier::external_body]
pub(crate) fn write_int(n: i64, nbytes: usize) -> (buf: Vec<u8>)
    requires
        1 <= nbytes <= 8,
        -pow2((8 * nbytes - 1) as nat) <= n < pow2((8 * nbytes - 1) as nat),
    ensures
        buf@ == be_bytes(twos_complement_bits(n as int, nbytes as nat), nbytes as nat),
{
    let mut buf = vec![0u8; nbytes];
    BigEndian::write_int(&mut buf, n, nbytes);
    buf
}

/// `String::from_utf8`: the text that `bytes` encode, and `None` exactly
/// where they are not well-formed UTF-8.
#[verifier::external_body]
pub(crate) fn utf8_to_string(bytes: Vec<u8>) -> (text: Option<String>)
    ensures
        match text {
            Some(s) => valid_utf8(bytes@) && s@ == decode_utf8(bytes@),
            None => !valid_utf8(bytes@),
        },
{
    match String::from_utf8(bytes) {
        Ok(text) => Some(text),
        Err(_) => None,
    }
}

/// Sign extension undoes the two's-complement representation.
pub proof fn lemma_twos_complement_roundtrip(v: int, n: nat)
    requires
        1 <= n <= 8,
        -pow2((8 * n - 1) as nat) <= v < pow2((8 * n - 1) as nat),
    ensures
        twos_complement_bits(v, n) < pow2(8 * n),
        twos_complement(twos_complement_bits(v, n), n) == v,
{
    lemma_pow2_adds((8 * n - 1) as nat, 1);
    lemma2_to64();
}

} // verus!
