//! Variable-length integers: a unary length prefix of `length - 1` zero
//! bits, a marker bit, then `7 * length - 1` payload bits, big-endian.

use crate::bytes::{
    be_bytes, be_value, lemma_be_bytes_first, lemma_be_bytes_len, lemma_be_bytes_prepend,
    lemma_be_value_bound, lemma_be_value_concat, lemma_be_value_of_bytes, lemma_pow2_byte,
    lemma_pow2_values,
};
use vstd::arithmetic::div_mod::lemma_div_denominator;
use vstd::arithmetic::power2::{
    lemma_pow2_adds, lemma_pow2_pos, lemma_pow2_strictly_increases, pow2,
};
use vstd::bits::{lemma_u32_shr_is_div, lemma_u64_shl_is_mul, lemma_u8_shl_is_mul};
use vstd::layout::layout_of_primitives;
use vstd::prelude::*;
use vstd::std_specs::bits::axiom_u32_leading_zeros;

verus! {

/// A decoded variable-length integer: how many bytes it took on the wire and
/// the number its payload bits hold.
#[derive(Debug, Copy, Clone, PartialEq, Eq, Structural, PartialOrd, Ord, Hash)]
pub struct Vint {
    pub length: u8,
    pub value: i64,
}

/// The first byte announces an encoding longer than eight bytes.
#[derive(Debug, Copy, Clone, PartialEq, Eq, Structural)]
pub struct UnrepresentableLengthError {
    pub length: u8,
}

/// An integer cannot be read.
#[derive(Debug, Copy, Clone, PartialEq, Eq, Structural)]
pub enum ReadVintError {
    UnrepresentableLength(UnrepresentableLengthError),
    /// The bytes end before the encoding does.
    NeedMoreBuffer,
}

/// The number is negative or too large for eight bytes.
#[derive(Debug, Copy, Clone, PartialEq, Eq, Structural)]
pub struct UnrepresentableValueError {
    pub value: i64,
}

/// An integer cannot be written.
#[derive(Debug, Copy, Clone, PartialEq, Eq, Structural)]
pub enum WriteVintError {
    UnrepresentableValue(UnrepresentableValueError),
    /// The sink failed. A vector never does.
    Io,
}

/// The largest `k` with `2^k <= x`, and 0 for `x = 0`.
pub open spec fn floor_log2(x: nat) -> nat
    decreases x,
{
    if x <= 1 {
        0
    } else {
        1 + floor_log2(x / 2)
    }
}

/// The length that a first byte announces; the byte is not zero.
pub open spec fn vint_length(first: u8) -> nat {
    (8 - floor_log2(first as nat)) as nat
}

/// The number that a complete encoding holds: its big-endian value without
/// the marker bit.
pub open spec fn vint_value(encoding: Seq<u8>) -> int {
    be_value(encoding) - pow2(7 * encoding.len())
}

/// The encoding of `value` in `length` bytes.
pub open spec fn vint_encoding(value: int, length: nat) -> Seq<u8> {
    be_bytes((value + pow2(7 * length)) as nat, length)
}

/// All payload bits of a complete encoding are set: the reserved value.
pub open spec fn is_reserved(encoding: Seq<u8>) -> bool {
    vint_value(encoding) == pow2(7 * encoding.len()) - 1
}

/// The least length from `length` on whose payload holds `value` without
/// being all ones; 8 where there is none.
pub open spec fn minimal_length_from(value: int, length: nat) -> nat
    decreases 8 - length,
{
    if length >= 8 || value < pow2(7 * length) - 1 {
        length
    } else {
        minimal_length_from(value, length + 1)
    }
}

/// The least length in 1..=8 whose payload holds `value` without being all
/// ones; 8 where there is none.
pub open spec fn minimal_length(value: int) -> nat {
    minimal_length_from(value, 1)
}

/// The largest number that can be written.
pub open spec fn max_vint_value() -> int {
    pow2(56) - 2
}

/// What reading at `start` gives where the bytes may end early: the length
/// and the payload, or why there is none.
pub open spec fn read_vint_from_spec(buffer: Seq<u8>, start: int) -> Result<Vint, ReadVintError> {
    if start < 0 || start >= buffer.len() {
        Err(ReadVintError::NeedMoreBuffer)
    } else if buffer[start] == 0 {
        Err(ReadVintError::UnrepresentableLength(UnrepresentableLengthError { length: 9 }))
    } else {
        let length = vint_length(buffer[start]);
        if start + length > buffer.len() {
            Err(ReadVintError::NeedMoreBuffer)
        } else {
            Ok(
                Vint {
                    length: length as u8,
                    value: vint_value(buffer.subrange(start, start + length)) as i64,
                },
            )
        }
    }
}

/// What reading at `start` gives: nothing while the encoding is incomplete,
/// an error for a first byte of zero, else the length and the payload.
pub open spec fn read_vint_spec(buffer: Seq<u8>, start: int) -> Result<
    Option<Vint>,
    UnrepresentableLengthError,
> {
    match read_vint_from_spec(buffer, start) {
        Ok(vint) => Ok(Some(vint)),
        Err(ReadVintError::NeedMoreBuffer) => Ok(None),
        Err(ReadVintError::UnrepresentableLength(e)) => Err(e),
    }
}

/// What writing gives: the minimal encoding, or an error outside
/// `0 ..= 2^56 - 2`.
pub open spec fn write_vint_spec(value: i64) -> Result<Seq<u8>, UnrepresentableValueError> {
    if value < 0 || value > max_vint_value() {
        Err(UnrepresentableValueError { value })
    } else {
        Ok(vint_encoding(value as int, minimal_length(value as int)))
    }
}

/// `floor_log2(x)` is the exponent of the power of two at or below `x`.
pub proof fn lemma_floor_log2_bounds(x: nat)
    requires
        x > 0,
    ensures
        pow2(floor_log2(x)) <= x < pow2(floor_log2(x) + 1),
    decreases x,
{
    lemma_pow2_values();
    if x > 1 {
        lemma_floor_log2_bounds(x / 2);
        lemma_pow2_adds(floor_log2(x / 2), 1);
        lemma_pow2_adds(floor_log2(x / 2) + 1, 1);
    }
}

/// The exponent between whose power and the next `x` lies is `floor_log2(x)`.
pub proof fn lemma_floor_log2_unique(x: nat, k: nat)
    requires
        pow2(k) <= x < pow2(k + 1),
    ensures
        floor_log2(x) == k,
    decreases k,
{
    lemma_pow2_values();
    if k > 0 {
        let j = (k - 1) as nat;
        lemma_pow2_adds(j, 1);
        lemma_pow2_adds(k, 1);
        lemma_floor_log2_unique(x / 2, j);
    }
}

/// The number of bits in a value of type `T`.
pub fn num_bits<T>() -> (bits: usize)
    requires
        vstd::layout::size_of::<T>() * 8 <= usize::MAX,
    ensures
        bits == vstd::layout::size_of::<T>() * 8,
{
    core::mem::size_of::<T>() * 8
}

/// The position of the highest set bit.
pub fn log_2(x: u32) -> (k: u8)
    requires
        x > 0,
    ensures
        k == floor_log2(x as nat),
        k < 32,
{
    broadcast use layout_of_primitives;

    let zeros = x.leading_zeros();
    proof {
        axiom_u32_leading_zeros(x);
    }
    let top: u32 = 31 - zeros;
    proof {
        assert(x >> top == 1) by (bit_vector)
            requires
                top < 32,
                (x >> top) & 1u32 != 0u32,
                top < 31 ==> x >> ((top + 1) as u32) == 0,
        ;
        lemma_u32_shr_is_div(x, top);
        lemma_pow2_pos(top as nat);
        lemma_pow2_adds(top as nat, 1);
        lemma_pow2_values();
        let p = pow2(top as nat);
        assert(p <= x < 2 * p) by (nonlinear_arith)
            requires
                x as nat / p == 1,
                p > 0,
        ;
        lemma_floor_log2_unique(x as nat, top as nat);
    }
    (num_bits::<u32>() as u32 - zeros - 1) as u8
}

/// The length of the encoding that starts with `first`, or an error for a
/// first byte of zero, which announces nine bytes or more.
pub fn vint_length_of(first: u8) -> (r: Result<u8, UnrepresentableLengthError>)
    ensures
        first == 0 ==> r == Err::<u8, _>(UnrepresentableLengthError { length: 9 }),
        first != 0 ==> r == Ok::<_, UnrepresentableLengthError>(vint_length(first) as u8),
        first != 0 ==> 1 <= vint_length(first) <= 8,
        first != 0 ==> pow2((8 - vint_length(first)) as nat) <= first < pow2(
            (9 - vint_length(first)) as nat,
        ),
{
    if first == 0 {
        return Err(UnrepresentableLengthError { length: 9 });
    }
    let k = log_2(first as u32);
    proof {
        lemma_floor_log2_bounds(first as nat);
        lemma_pow2_values();
        if k >= 8 {
            lemma_pow2_strictly_increases(8, k as nat);
        }
    }
    Ok(8 - k)
}

/// Reads the integer that starts at `start`, from a buffer that may end
/// early.
pub fn read_vint_from(buffer: &[u8], start: usize) -> (r: Result<Vint, ReadVintError>)
    ensures
        r == read_vint_from_spec(buffer@, start as int),
        r matches Ok(vint) ==> 1 <= vint.length <= 8 && start + vint.length <= buffer@.len() && 0
            <= vint.value < pow2(7 * vint.length as nat) && vint.value == vint_value(
            buffer@.subrange(start as int, start + vint.length),
        ),
{
    let available = buffer.len();
    if start >= available {
        return Err(ReadVintError::NeedMoreBuffer);
    }
    let first = buffer[start];
    let length = match vint_length_of(first) {
        Ok(length) => length,
        Err(e) => {
            return Err(ReadVintError::UnrepresentableLength(e));
        },
    };
    if available - start < length as usize {
        return Err(ReadVintError::NeedMoreBuffer);
    }
    let shift: u8 = 8 - length;
    let marker: u8 = 1u8 << shift;
    proof {
        lemma_pow2_values();
        lemma_pow2_adds(shift as nat, 1);
        lemma_pow2_strictly_increases(shift as nat, 8);
        lemma_u8_shl_is_mul(1u8, shift);
        assert(marker == pow2(shift as nat));
        assert(first & ((marker - 1) as u8) == (first - marker) as u8) by (bit_vector)
            requires
                shift < 8,
                marker == 1u8 << shift,
                marker <= first,
                ((first - marker) as u8) < marker,
        ;
    }
    let mut value: i64 = (first & (marker - 1)) as i64;
    let mut i: u8 = 1;
    proof {
        assert(buffer@.subrange(start as int, start + 1).drop_last() =~= Seq::<u8>::empty());
        assert(be_value(buffer@.subrange(start as int, start + 1)) == first as nat) by {
            reveal_with_fuel(be_value, 2);
        }
        lemma_pow2_values();
    }
    while i < length
        invariant
            1 <= i <= length <= 8,
            start + length <= buffer@.len() == available,
            shift == 8 - length,
            0 <= value < pow2((7 * i + i - length) as nat),
            be_value(buffer@.subrange(start as int, start + i)) == value + pow2(
                (8 * i - length) as nat,
            ),
        decreases length - i,
    {
        let byte = buffer[start + i as usize];
        proof {
            let e = (8 * i - length) as nat;
            lemma_pow2_byte(e);
            assert(e + 8 == (8 * (i + 1) - length) as nat);
            lemma_pow2_strictly_increases(e + 8, 63);
            lemma_pow2_values();
            let next = buffer@.subrange(start as int, start + i + 1);
            assert(next.drop_last() =~= buffer@.subrange(start as int, start + i));
            assert(next.last() == byte);
        }
        value = value * 256 + byte as i64;
        i = i + 1;
    }
    proof {
        assert((8 * length - length) as nat == 7 * length as nat);
        assert(buffer@.subrange(start as int, start + length).len() == length);
    }
    Ok(Vint { length, value })
}

/// Reads the integer that starts at `start`: `None` while the buffer holds
/// less than the whole encoding.
pub fn read_vint(buffer: &[u8], start: usize) -> (r: Result<
    Option<Vint>,
    UnrepresentableLengthError,
>)
    ensures
        r == read_vint_spec(buffer@, start as int),
        r matches Ok(Some(vint)) ==> 1 <= vint.length <= 8 && start + vint.length <= buffer@.len()
            && 0 <= vint.value < pow2(7 * vint.length as nat) && vint.value == vint_value(
            buffer@.subrange(start as int, start + vint.length),
        ),
{
    match read_vint_from(buffer, start) {
        Ok(vint) => Ok(Some(vint)),
        Err(ReadVintError::NeedMoreBuffer) => Ok(None),
        Err(ReadVintError::UnrepresentableLength(e)) => Err(e),
    }
}

/// The minimal length of a number that can be written bounds it from both
/// sides: it fits below the reserved value, and no shorter length does.
pub proof fn lemma_minimal_length(value: int)
    requires
        0 <= value <= max_vint_value(),
    ensures
        1 <= minimal_length(value) <= 8,
        value < pow2(7 * minimal_length(value)) - 1,
        forall|shorter: nat|
            1 <= shorter < minimal_length(value) ==> value >= #[trigger] pow2(7 * shorter) - 1,
{
    lemma_pow2_values();
    reveal_with_fuel(minimal_length_from, 9);
    assert forall|shorter: nat| 1 <= shorter < minimal_length(value) implies value
        >= #[trigger] pow2(7 * shorter) - 1 by {
        if shorter == 1 {
        } else if shorter == 2 {
        } else if shorter == 3 {
        } else if shorter == 4 {
        } else if shorter == 5 {
        } else if shorter == 6 {
        } else if shorter == 7 {
        }
    }
}

/// Reading an encoding of `length` bytes that stands at `start` gives the
/// length and the number, whatever surrounds it.
pub proof fn lemma_read_encoding(buffer: Seq<u8>, start: int, value: int, length: nat)
    requires
        1 <= length <= 8,
        0 <= value < pow2(7 * length),
        0 <= start,
        start + length <= buffer.len(),
        buffer.subrange(start, start + length) == vint_encoding(value, length),
    ensures
        read_vint_spec(buffer, start) == Ok::<Option<Vint>, UnrepresentableLengthError>(
            Some(Vint { length: length as u8, value: value as i64 }),
        ),
{
    let marked = (value + pow2(7 * length)) as nat;
    let encoding = vint_encoding(value, length);
    let low = (8 * (length - 1)) as nat;
    let high = (8 - length) as nat;
    lemma_pow2_values();
    lemma_pow2_adds(7 * length, 1);
    lemma_pow2_adds(high, low);
    lemma_pow2_adds(high + 1, low);
    lemma_pow2_adds(high, 1);
    lemma_pow2_pos(low);
    assert(high + low == 7 * length);
    assert(high + 1 + low == 7 * length + 1);
    if length > 1 {
        lemma_pow2_strictly_increases(7 * length + 1, 8 * length);
    }
    assert(marked < pow2(8 * length));
    lemma_be_bytes_len(marked, length);
    lemma_be_bytes_first(marked, length);
    let first = encoding[0];
    assert(buffer[start] == buffer.subrange(start, start + length)[0]);
    let p = pow2(low);
    let a = pow2(high);
    assert(a <= marked / p < 2 * a) by (nonlinear_arith)
        requires
            a * p <= marked < 2 * a * p,
            p > 0,
    ;
    lemma_floor_log2_unique(first as nat, high);
    lemma_be_value_of_bytes(marked, length);
    lemma_pow2_strictly_increases(7 * length, 63);
}

/// Reading what was written gives the minimal length and the number.
pub proof fn lemma_read_write_roundtrip(value: i64)
    requires
        0 <= value <= max_vint_value(),
    ensures
        write_vint_spec(value) matches Ok(encoding) && read_vint_spec(encoding, 0) == Ok::<
            Option<Vint>,
            UnrepresentableLengthError,
        >(Some(Vint { length: minimal_length(value as int) as u8, value })),
{
    let length = minimal_length(value as int);
    lemma_minimal_length(value as int);
    let encoding = vint_encoding(value as int, length);
    lemma_be_bytes_len((value + pow2(7 * length)) as nat, length);
    assert(encoding.subrange(0, length as int) =~= encoding);
    lemma_read_encoding(encoding, 0, value as int, length);
}

/// What is written never has all payload bits set: that value is reserved.
pub proof fn lemma_write_never_reserved(value: i64)
    requires
        0 <= value <= max_vint_value(),
    ensures
        write_vint_spec(value) matches Ok(encoding) && !is_reserved(encoding)
            && encoding.len() == minimal_length(value as int)
            && vint_value(encoding) == value,
{
    let length = minimal_length(value as int);
    lemma_minimal_length(value as int);
    let marked = (value + pow2(7 * length)) as nat;
    lemma_be_bytes_len(marked, length);
    lemma_pow2_values();
    lemma_pow2_adds(7 * length, 1);
    if length > 1 {
        lemma_pow2_strictly_increases(7 * length + 1, 8 * length);
    }
    lemma_be_value_of_bytes(marked, length);
}

/// What holds of a number that was read: its length, where it ends, and
/// how it relates to the bytes of its encoding.
pub proof fn lemma_read_vint_facts(buffer: Seq<u8>, start: int)
    ensures
        read_vint_spec(buffer, start) matches Ok(Some(vint)) ==> {
            &&& 0 <= start
            &&& 1 <= vint.length <= 8
            &&& vint.length == vint_length(buffer[start])
            &&& start + vint.length <= buffer.len()
            &&& 0 <= vint.value < pow2(7 * vint.length as nat)
            &&& vint.value == vint_value(buffer.subrange(start, start + vint.length))
            &&& be_value(buffer.subrange(start, start + vint.length)) == vint.value + pow2(
                7 * vint.length as nat,
            )
        },
{
    if let Ok(Some(vint)) = read_vint_spec(buffer, start) {
        let first = buffer[start];
        let length = vint_length(first);
        lemma_floor_log2_bounds(first as nat);
        lemma_pow2_values();
        if floor_log2(first as nat) >= 8 {
            lemma_pow2_strictly_increases(8, floor_log2(first as nat));
        }
        let encoding = buffer.subrange(start, start + length);
        let high = (8 - length) as nat;
        let low = (8 * (length - 1)) as nat;
        let rest = encoding.subrange(1, length as int);
        assert(encoding =~= seq![first] + rest);
        lemma_be_value_concat(seq![first], rest);
        lemma_be_value_bound(rest);
        assert(be_value(seq![first]) == first as nat) by {
            reveal_with_fuel(be_value, 2);
            assert(seq![first].drop_last() =~= Seq::<u8>::empty());
        }
        lemma_pow2_adds(high, low);
        lemma_pow2_adds(high + 1, low);
        lemma_pow2_adds(high, 1);
        assert(high + low == 7 * length);
        let p = pow2(low);
        let f = first as int;
        let a = pow2(high) as int;
        let r = be_value(rest) as int;
        assert(a * p <= f * p + r < 2 * a * p) by (nonlinear_arith)
            requires
                a <= f < 2 * a,
                0 <= r < p,
        ;
        lemma_pow2_strictly_increases(7 * length, 63);
        assert(1 <= length <= 8);
        assert(rest.len() == length - 1);
        assert(8 * rest.len() == low);
        assert(be_value(encoding) == f * p + r);
        assert(a * p == pow2(7 * length));
        assert(2 * a == pow2(high + 1));
        assert(2 * a * p == 2 * pow2(7 * length)) by (nonlinear_arith)
            requires
                a * p == pow2(7 * length),
        ;
        assert(0 <= vint_value(encoding) < pow2(7 * length));
        assert(pow2(7 * length) <= pow2(63));
    }
}

/// Reading at `start` sees only the bytes from `start` on.
pub proof fn lemma_read_vint_suffix(buffer: Seq<u8>, start: int)
    requires
        0 <= start <= buffer.len(),
    ensures
        read_vint_spec(buffer, start) == read_vint_spec(
            buffer.subrange(start, buffer.len() as int),
            0,
        ),
{
    let tail = buffer.subrange(start, buffer.len() as int);
    if start < buffer.len() && buffer[start] != 0 {
        let length = vint_length(buffer[start]);
        if start + length <= buffer.len() {
            assert(tail.subrange(0, length as int) =~= buffer.subrange(start, start + length));
        }
    }
}

/// A number that was read, or refused, is read or refused alike once more
/// bytes have arrived.
pub proof fn lemma_read_vint_extend(buffer: Seq<u8>, more: Seq<u8>)
    requires
        read_vint_spec(buffer, 0) != Ok::<Option<Vint>, UnrepresentableLengthError>(None),
    ensures
        read_vint_spec(buffer + more, 0) == read_vint_spec(buffer, 0),
{
    if buffer[0] != 0 {
        let length = vint_length(buffer[0]);
        assert((buffer + more).subrange(0, length as int) =~= buffer.subrange(0, length as int));
    }
}

/// A sink of bytes to which integers are written in their minimal encoding.
pub trait WriteVintExt {
    /// The bytes written to the sink so far.
    spec fn written(&self) -> Seq<u8>;

    /// Appends the minimal encoding of `value`; a value that cannot be
    /// written leaves the sink as it was.
    fn write_vint(&mut self, value: i64) -> (r: Result<(), WriteVintError>)
        ensures
            match r {
                Ok(_) => write_vint_spec(value) matches Ok(encoding) && final(self).written()
                    == old(self).written() + encoding,
                Err(WriteVintError::UnrepresentableValue(e)) => write_vint_spec(value) == Err::<
                    Seq<u8>,
                    _,
                >(e) && final(self).written() == old(self).written(),
                Err(WriteVintError::Io) => write_vint_spec(value) is Ok,
            },
    ;
}

impl WriteVintExt for Vec<u8> {
    open spec fn written(&self) -> Seq<u8> {
        self@
    }

    fn write_vint(&mut self, value: i64) -> (r: Result<(), WriteVintError>)
        ensures
            !(r matches Err(WriteVintError::Io)),
    {
        proof {
            lemma_pow2_values();
        }
        if value < 0 || value > 0xff_ffff_ffff_fffe {
            return Err(WriteVintError::UnrepresentableValue(UnrepresentableValueError { value }));
        }
        let mut length: u64 = 1;
        proof {
            lemma_u64_shl_is_mul(1u64, 7u64);
        }
        while length < 8 && value as u64 >= (1u64 << (7 * length)) - 1
            invariant
                1 <= length <= 8,
                0 <= value <= max_vint_value(),
                minimal_length_from(value as int, length as nat) == minimal_length(value as int),
                (1u64 << ((7 * length) as u64)) == pow2(7 * length as nat) >= 1,
            decreases 8 - length,
        {
            length = length + 1;
            proof {
                lemma_pow2_values();
                lemma_pow2_pos(7 * length as nat);
                lemma_pow2_strictly_increases(7 * length as nat, 64);
                lemma_u64_shl_is_mul(1u64, (7 * length) as u64);
            }
        }
        proof {
            lemma_pow2_strictly_increases(7 * length as nat, 63);
        }
        let marked: u64 = value as u64 + (1u64 << (7 * length));
        let base = self.len();
        let mut rest: u64 = marked;
        let mut count: u64 = 0;
        proof {
            assert(self@ =~= old(self)@ + be_bytes(marked as nat, 0));
            assert(marked as nat / 1 == marked);
        }
        while count < length
            invariant
                count <= length <= 8,
                base == old(self)@.len(),
                rest == marked as nat / pow2(8 * count as nat),
                self@ == old(self)@ + be_bytes(marked as nat, count as nat),
            decreases length - count,
        {
            let byte: u8 = (rest % 256) as u8;
            self.insert(base, byte);
            proof {
                let k = count as nat;
                lemma_be_bytes_prepend(marked as nat, k);
                lemma_pow2_byte(8 * k);
                assert(8 * k + 8 == 8 * (k + 1));
                lemma_div_denominator(marked as int, pow2(8 * k) as int, 256);
                assert(self@ =~= old(self)@ + (seq![byte] + be_bytes(marked as nat, k)));
            }
            rest = rest / 256;
            count = count + 1;
        }
        Ok(())
    }
}

/// The minimal encoding of `value`, which must lie in `0 ..= 2^56 - 2`.
pub fn write_vint(value: i64) -> (r: Result<Vec<u8>, UnrepresentableValueError>)
    ensures
        match r {
            Ok(buffer) => write_vint_spec(value) == Ok::<_, UnrepresentableValueError>(buffer@)
                && !is_reserved(buffer@) && buffer@.len() == minimal_length(value as int),
            Err(e) => write_vint_spec(value) == Err::<Seq<u8>, _>(e),
        },
{
    let mut buffer: Vec<u8> = Vec::new();
    match buffer.write_vint(value) {
        Ok(_) => {
            proof {
                lemma_write_never_reserved(value);
                assert(buffer@ =~= write_vint_spec(value)->Ok_0);
            }
            Ok(buffer)
        },
        Err(WriteVintError::UnrepresentableValue(e)) => Err(e),
        Err(WriteVintError::Io) => {
            proof {
                assert(false);
            }
            Err(UnrepresentableValueError { value })
        },
    }
}

} // verus!
