//! Little-endian bit streams: what a stream of bytes holds bit by bit, the γ code and the
//! zigzag bijection, and the reader and writer through which the rest of the library sees them.

use dsi_bitstream::codes::{GammaRead, GammaWrite, ToInt, ToNat};
use dsi_bitstream::impls::{BufBitReader, BufBitWriter, WordAdapter};
use dsi_bitstream::traits::{BitRead, BitSeek, BitWrite, LE};
use std::io::Cursor;
use vstd::arithmetic::power2::pow2;
use vstd::prelude::*;

verus! {

/// Bit `i` of a byte, counting from the least significant one.
pub open spec fn byte_bit(byte: u8, i: int) -> bool {
    (byte as nat / pow2(i as nat)) % 2 == 1
}

/// The bits of a stream of bytes, each byte from its least significant bit up.
pub open spec fn stream_bits(data: Seq<u8>) -> Seq<bool> {
    Seq::new(8 * data.len(), |i: int| byte_bit(data[i / 8], i % 8))
}

/// `n` bits that are all zero.
pub open spec fn zero_bits(n: nat) -> Seq<bool> {
    Seq::new(n, |i: int| false)
}

/// The exponent of the largest power of two that is at most `n` (zero for zero).
pub open spec fn floor_log2(n: nat) -> nat
    decreases n,
{
    if n < 2 {
        0
    } else {
        1 + floor_log2(n / 2)
    }
}

/// The `len` lowest bits of `value`, from the least significant one up.
pub open spec fn low_bits(value: nat, len: nat) -> Seq<bool>
    decreases len,
{
    if len == 0 {
        Seq::empty()
    } else {
        seq![value % 2 == 1] + low_bits(value / 2, (len - 1) as nat)
    }
}

/// The number that a sequence of bits stands for, the least significant bit first.
pub open spec fn bits_value(bits: Seq<bool>) -> nat
    decreases bits.len(),
{
    if bits.len() == 0 {
        0
    } else {
        (if bits[0] {
            1nat
        } else {
            0nat
        }) + 2 * bits_value(bits.drop_first())
    }
}

/// The γ code of `n`: with `l` the length of `n + 1` in bits less one, `l` zeros, a one, and the
/// `l` lowest bits of `n + 1`.
#[verifier::opaque]
pub open spec fn gamma_code(n: nat) -> Seq<bool> {
    let l = floor_log2(n + 1);
    zero_bits(l) + seq![true] + low_bits(n + 1, l)
}

/// The number of zeros from position `pos` up to the next one, if there is a next one.
pub open spec fn zero_run(bits: Seq<bool>, pos: nat) -> Option<nat>
    decreases bits.len() - pos,
{
    if pos >= bits.len() {
        None
    } else if bits[pos as int] {
        Some(0)
    } else {
        match zero_run(bits, pos + 1) {
            None => None,
            Some(k) => Some(k + 1),
        }
    }
}

/// The number whose γ code starts at `pos`, and the position after that code.
pub open spec fn gamma_at(bits: Seq<bool>, pos: nat) -> Option<(nat, nat)> {
    match zero_run(bits, pos) {
        None => None,
        Some(k) => if pos + 2 * k + 1 > bits.len() {
            None
        } else {
            Some(
                (
                    (bits_value(bits.subrange((pos + k + 1) as int, (pos + 2 * k + 1) as int))
                        + pow2(k) - 1) as nat,
                    pos + 2 * k + 1,
                ),
            )
        },
    }
}

/// The zigzag bijection from integers to natural numbers: `0, -1, 1, -2, 2, ...` are numbered
/// from zero.
pub open spec fn zigzag(x: int) -> nat {
    if x >= 0 {
        (2 * x) as nat
    } else {
        (-2 * x - 1) as nat
    }
}

/// The inverse of [`zigzag`].
pub open spec fn unzigzag(n: nat) -> int {
    if n % 2 == 0 {
        n as int / 2
    } else {
        -((n as int + 1) / 2)
    }
}

/// Zigzag coding loses nothing.
pub proof fn lemma_zigzag_inverse(x: int)
    ensures
        unzigzag(zigzag(x)) == x,
{
}

proof fn lemma_low_bits_len(value: nat, len: nat)
    ensures
        low_bits(value, len).len() == len,
    decreases len,
{
    if len > 0 {
        lemma_low_bits_len(value / 2, (len - 1) as nat);
    }
}

/// The low bits of a number, read back, are the number modulo the power of two.
proof fn lemma_bits_value_low_bits(value: nat, len: nat)
    ensures
        bits_value(low_bits(value, len)) == value % pow2(len),
    decreases len,
{
    vstd::arithmetic::power2::lemma_pow2_pos(len);
    if len == 0 {
        vstd::arithmetic::power2::lemma2_to64();
    } else {
        let m = (len - 1) as nat;
        lemma_bits_value_low_bits(value / 2, m);
        lemma_low_bits_len(value, len);
        assert(low_bits(value, len).drop_first() =~= low_bits(value / 2, m));
        vstd::arithmetic::power2::lemma_pow2_unfold(len);
        vstd::arithmetic::power2::lemma_pow2_pos(m);
        let p = pow2(m) as int;
        let v = value as int;
        assert(v % (2 * p) == v % 2 + 2 * ((v / 2) % p)) by {
            vstd::arithmetic::div_mod::lemma_mod_breakdown(v, 2, p);
        }
    }
}

proof fn lemma_floor_log2(n: nat)
    requires
        n >= 1,
    ensures
        pow2(floor_log2(n)) <= n < 2 * pow2(floor_log2(n)),
    decreases n,
{
    vstd::arithmetic::power2::lemma2_to64();
    if n >= 2 {
        lemma_floor_log2(n / 2);
        vstd::arithmetic::power2::lemma_pow2_unfold(floor_log2(n));
    }
}

proof fn lemma_zero_run(bits: Seq<bool>, pos: nat, k: nat)
    requires
        pos + k < bits.len(),
        forall|i: int| pos <= i < pos + k ==> !#[trigger] bits[i],
        bits[(pos + k) as int],
    ensures
        zero_run(bits, pos) == Some(k),
    decreases k,
{
    if k > 0 {
        assert(!bits[pos as int]);
        lemma_zero_run(bits, pos + 1, (k - 1) as nat);
    }
}

/// A γ code in a stream of bits gives back its number, whatever stands around it.
pub proof fn lemma_gamma_round_trip(before: Seq<bool>, n: nat, after: Seq<bool>)
    ensures
        gamma_at(before + gamma_code(n) + after, before.len()) == Some(
            (n, before.len() + gamma_code(n).len()),
        ),
        zero_run(before + gamma_code(n) + after, before.len()) == Some(floor_log2(n + 1)),
{
    reveal(gamma_code);
    let bits = before + gamma_code(n) + after;
    let l = floor_log2(n + 1);
    let pos = before.len();
    lemma_low_bits_len(n + 1, l);
    assert(bits[(pos + l) as int]);
    assert forall|i: int| pos <= i < pos + l implies !#[trigger] bits[i] by {}
    lemma_zero_run(bits, pos, l);
    assert(bits.subrange((pos + l + 1) as int, (pos + 2 * l + 1) as int) =~= low_bits(n + 1, l));
    lemma_bits_value_low_bits(n + 1, l);
    lemma_floor_log2(n + 1);
    vstd::arithmetic::power2::lemma_pow2_pos(l);
    let p = pow2(l) as int;
    let m = (n + 1) as int;
    assert(m % p == m - p) by {
        vstd::arithmetic::div_mod::lemma_fundamental_div_mod_converse(m, p, 1, m - p);
    }
}

/// A γ code of a 64-bit number starts with fewer than 64 zeros.
proof fn lemma_gamma_run(n: nat)
    requires
        n < u64::MAX,
    ensures
        floor_log2(n + 1) < 64,
{
    lemma_floor_log2(n + 1);
    if floor_log2(n + 1) >= 64 {
        vstd::arithmetic::power2::lemma2_to64_rest();
        if floor_log2(n + 1) > 64 {
            vstd::arithmetic::power2::lemma_pow2_strictly_increases(64, floor_log2(n + 1));
        }
    }
}

/// A γ code of a 64-bit number has at most 127 bits.
pub proof fn lemma_gamma_code_len(n: nat)
    requires
        n < u64::MAX,
    ensures
        gamma_code(n).len() <= 127,
{
    reveal(gamma_code);
    lemma_gamma_run(n);
    lemma_low_bits_len(n + 1, floor_log2(n + 1));
}

/// A bit that is a one is the γ code of zero.
pub proof fn lemma_gamma_zero()
    ensures
        gamma_code(0) == seq![true],
{
    reveal(gamma_code);
    assert(gamma_code(0) =~= seq![true]);
}

/// A little-endian bit stream that is being written, in words of 64 bits.
#[verifier::external_body]
pub struct BitWriter {
    inner: BufBitWriter<LE, WordAdapter<u64, Vec<u8>>>,
}

/// A little-endian bit stream that is being read, in words of 64 bits.
#[verifier::external_body]
pub struct BitReader<'a> {
    inner: BufBitReader<LE, WordAdapter<u64, Cursor<&'a [u8]>>>,
}

/// The bits written so far.
pub uninterp spec fn writer_bits(writer: BitWriter) -> Seq<bool>;

/// All the bits of the stream that a reader reads, those that it has passed too.
pub uninterp spec fn reader_bits(reader: BitReader<'_>) -> Seq<bool>;

/// The position in [`reader_bits`] of the bit that comes next.
pub uninterp spec fn reader_pos(reader: BitReader<'_>) -> nat;

/// `BufBitWriter::new` on an empty vector: nothing is written yet.
#[verifier::external_body]
pub(crate) fn new_writer() -> (writer: BitWriter)
    ensures
        writer_bits(writer) == Seq::<bool>::empty(),
{
    BitWriter { inner: BufBitWriter::new(WordAdapter::new(Vec::new())) }
}

/// `BitWrite::write_bits` with one bit: appends that bit. Writing to a vector does not fail.
#[verifier::external_body]
pub(crate) fn write_bit(writer: &mut BitWriter, bit: bool)
    ensures
        writer_bits(*final(writer)) == writer_bits(*old(writer)).push(bit),
{
    writer.inner.write_bits(u64::from(bit), 1).unwrap();
}

/// `GammaWrite::write_gamma`: appends the γ code of `n`. The code of the largest `u64` cannot be
/// written.
#[verifier::external_body]
pub(crate) fn write_gamma(writer: &mut BitWriter, n: u64)
    requires
        n < u64::MAX,
    ensures
        writer_bits(*final(writer)) == writer_bits(*old(writer)) + gamma_code(n as nat),
{
    writer.inner.write_gamma(n).unwrap();
}

/// `BufBitWriter::into_inner`: the bytes that hold the bits written, padded with zeros to a whole
/// number of 64-bit words.
#[verifier::external_body]
pub(crate) fn finish_writer(writer: BitWriter) -> (data: Vec<u8>)
    ensures
        data@.len() % 8 == 0,
        8 * data@.len() < writer_bits(writer).len() + 64,
        stream_bits(data@) == writer_bits(writer) + zero_bits(
            (8 * data@.len() - writer_bits(writer).len()) as nat,
        ),
        writer_bits(writer).len() <= 8 * data@.len(),
{
    writer.inner.into_inner().unwrap().into_inner()
}

/// `BufBitReader::new`: a reader at the start of the stream.
#[verifier::external_body]
pub(crate) fn new_reader<'a>(data: &'a [u8]) -> (reader: BitReader<'a>)
    requires
        data@.len() % 8 == 0,
    ensures
        reader_bits(reader) == stream_bits(data@),
        reader_pos(reader) == 0,
{
    BitReader { inner: BufBitReader::new(WordAdapter::new(Cursor::new(data))) }
}

/// `BitRead::read_bits` with one bit: the bit at the current position, or `None` (an error of the
/// outside crate) at the end of the stream.
#[verifier::external_body]
pub(crate) fn read_bit(reader: &mut BitReader<'_>) -> (bit: Option<bool>)
    ensures
        bit is Some <==> reader_pos(*old(reader)) < reader_bits(*old(reader)).len(),
        bit matches Some(b) ==> {
            &&& b == reader_bits(*old(reader))[reader_pos(*old(reader)) as int]
            &&& reader_bits(*final(reader)) == reader_bits(*old(reader))
            &&& reader_pos(*final(reader)) == reader_pos(*old(reader)) + 1
        },
{
    reader.inner.read_bits(1).ok().map(|bit| bit == 1)
}

/// `BitRead::read_unary`: the number of zeros before the next one, which is passed too, or `None`
/// (an error of the outside crate) where the stream ends before a one.
#[verifier::external_body]
pub(crate) fn read_unary(reader: &mut BitReader<'_>) -> (zeros: Option<u64>)
    requires
        reader_bits(*old(reader)).len() <= u64::MAX,
    ensures
        zeros is Some <==> zero_run(
            reader_bits(*old(reader)),
            reader_pos(*old(reader)),
        ) is Some,
        zeros matches Some(k) ==> {
            &&& zero_run(reader_bits(*old(reader)), reader_pos(*old(reader))) == Some(k as nat)
            &&& reader_bits(*final(reader)) == reader_bits(*old(reader))
            &&& reader_pos(*final(reader)) == reader_pos(*old(reader)) + k + 1
        },
{
    reader.inner.read_unary().ok()
}

/// `GammaRead::read_gamma`: the number whose γ code starts at the current position, or `None` (an
/// error of the outside crate) where the stream ends within the code. A code that starts with 64
/// zeros or more cannot be read.
#[verifier::external_body]
pub(crate) fn read_gamma(reader: &mut BitReader<'_>) -> (value: Option<u64>)
    requires
        zero_run(reader_bits(*old(reader)), reader_pos(*old(reader))) matches Some(k) ==> k < 64,
    ensures
        value is Some <==> gamma_at(
            reader_bits(*old(reader)),
            reader_pos(*old(reader)),
        ) is Some,
        value matches Some(n) ==> {
            &&& gamma_at(reader_bits(*old(reader)), reader_pos(*old(reader))) == Some(
                (n as nat, reader_pos(*final(reader))),
            )
            &&& reader_bits(*final(reader)) == reader_bits(*old(reader))
        },
{
    reader.inner.read_gamma().ok()
}

/// `BitSeek::bit_pos`: the current position.
#[verifier::external_body]
pub(crate) fn bit_pos(reader: &mut BitReader<'_>) -> (pos: u64)
    requires
        reader_pos(*old(reader)) <= reader_bits(*old(reader)).len() <= u64::MAX,
    ensures
        pos == reader_pos(*old(reader)),
        reader_pos(*final(reader)) == reader_pos(*old(reader)),
        reader_bits(*final(reader)) == reader_bits(*old(reader)),
{
    reader.inner.bit_pos().unwrap()
}

/// `BitSeek::set_bit_pos`: moves to a position of the stream.
#[verifier::external_body]
pub(crate) fn set_bit_pos(reader: &mut BitReader<'_>, pos: u64)
    requires
        pos <= reader_bits(*old(reader)).len(),
        reader_bits(*old(reader)).len() % 64 == 0,
    ensures
        reader_pos(*final(reader)) == pos,
        reader_bits(*final(reader)) == reader_bits(*old(reader)),
{
    reader.inner.set_bit_pos(pos).unwrap();
}

/// `ToNat::to_nat` on `i64`: the zigzag bijection.
#[verifier::external_body]
pub(crate) fn to_nat(x: i64) -> (n: u64)
    ensures
        n == zigzag(x as int),
{
    x.to_nat()
}

/// `ToInt::to_int` on `u64`: the inverse of the zigzag bijection.
#[verifier::external_body]
pub(crate) fn to_int(n: u64) -> (x: i64)
    ensures
        x == unzigzag(n as nat),
{
    n.to_int()
}

/// Why a number could not be read from a stream.
#[derive(Clone, Copy, Debug, PartialEq, Eq, Structural)]
pub enum BitsError {
    /// The stream ends before the number does.
    UnexpectedEnd,
    /// The code starts with 64 zeros or more, so it stands for no 64-bit number.
    Overlong,
}

/// What reading a γ code at `pos` gives: the number and the position after it.
#[verifier::opaque]
pub open spec fn checked_gamma_at(bits: Seq<bool>, pos: nat) -> Result<(nat, nat), BitsError> {
    match zero_run(bits, pos) {
        None => Err(BitsError::UnexpectedEnd),
        Some(k) => if k >= 64 {
            Err(BitsError::Overlong)
        } else {
            match gamma_at(bits, pos) {
                None => Err(BitsError::UnexpectedEnd),
                Some(r) => Ok(r),
            }
        },
    }
}

/// A code that can be read ends after its start, within the stream.
pub proof fn lemma_checked_gamma_advances(bits: Seq<bool>, pos: nat)
    ensures
        checked_gamma_at(bits, pos) matches Ok((n, next)) ==> pos < next <= bits.len(),
{
    reveal(checked_gamma_at);
}

/// A γ code of a 64-bit number gives back its number.
pub proof fn lemma_checked_gamma_round_trip(before: Seq<bool>, n: nat, after: Seq<bool>)
    requires
        n < u64::MAX,
    ensures
        checked_gamma_at(before + gamma_code(n) + after, before.len()) == Ok::<
            (nat, nat),
            BitsError,
        >((n, before.len() + gamma_code(n).len())),
{
    reveal(checked_gamma_at);
    lemma_gamma_round_trip(before, n, after);
    lemma_gamma_run(n);
}

/// Reads the γ code at the current position.
pub(crate) fn next_gamma(reader: &mut BitReader<'_>) -> (value: Result<u64, BitsError>)
    requires
        reader_pos(*old(reader)) <= reader_bits(*old(reader)).len() <= u64::MAX,
        reader_bits(*old(reader)).len() % 64 == 0,
    ensures
        match checked_gamma_at(reader_bits(*old(reader)), reader_pos(*old(reader))) {
            Err(e) => value == Err::<u64, BitsError>(e),
            Ok((n, next)) => {
                &&& value matches Ok(v) && v == n
                &&& reader_pos(*final(reader)) == next
                &&& reader_bits(*final(reader)) == reader_bits(*old(reader))
                &&& next <= reader_bits(*old(reader)).len()
            },
        },
{
    proof {
        reveal(checked_gamma_at);
    }
    let start: u64 = bit_pos(reader);
    match read_unary(reader) {
        None => Err(BitsError::UnexpectedEnd),
        Some(zeros) => {
            if zeros >= 64 {
                return Err(BitsError::Overlong);
            }
            set_bit_pos(reader, start);
            match read_gamma(reader) {
                None => Err(BitsError::UnexpectedEnd),
                Some(value) => Ok(value),
            }
        },
    }
}

} // verus!
