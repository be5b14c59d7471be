//! Numbers as strings of bytes of a fixed length, and the order on strings of bytes.

use vstd::prelude::*;

verus! {

/// The number of values that `n` bytes can hold.
pub open spec fn byte_range(n: nat) -> nat
    decreases n,
{
    if n == 0 {
        1
    } else {
        256 * byte_range((n - 1) as nat)
    }
}

/// The `n` lowest bytes of a number, the least significant one first.
pub open spec fn le_bytes(value: nat, n: nat) -> Seq<u8>
    decreases n,
{
    if n == 0 {
        Seq::empty()
    } else {
        seq![(value % 256) as u8] + le_bytes(value / 256, (n - 1) as nat)
    }
}

/// The number that bytes stand for, the least significant one first.
pub open spec fn le_value(bytes: Seq<u8>) -> nat
    decreases bytes.len(),
{
    if bytes.len() == 0 {
        0
    } else {
        bytes[0] as nat + 256 * le_value(bytes.drop_first())
    }
}

/// The `n` lowest bytes of a number, the most significant one first.
pub open spec fn be_bytes(value: nat, n: nat) -> Seq<u8> {
    le_bytes(value, n).reverse()
}

/// The number that bytes stand for, the most significant one first.
pub open spec fn be_value(bytes: Seq<u8>) -> nat {
    le_value(bytes.reverse())
}

/// A number is written in exactly `n` bytes.
pub proof fn lemma_le_bytes_len(value: nat, n: nat)
    ensures
        le_bytes(value, n).len() == n,
        be_bytes(value, n).len() == n,
    decreases n,
{
    if n > 0 {
        lemma_le_bytes_len(value / 256, (n - 1) as nat);
    }
}

/// A number that fits is read back as it was written, the least significant byte first.
pub proof fn lemma_le_round_trip(value: nat, n: nat)
    requires
        value < byte_range(n),
    ensures
        le_value(le_bytes(value, n)) == value,
    decreases n,
{
    if n > 0 {
        lemma_le_round_trip(value / 256, (n - 1) as nat);
        lemma_le_bytes_len(value, n);
        assert(le_bytes(value, n).drop_first() =~= le_bytes(value / 256, (n - 1) as nat));
    }
}

/// A number that fits is read back as it was written, the most significant byte first.
pub proof fn lemma_be_round_trip(value: nat, n: nat)
    requires
        value < byte_range(n),
    ensures
        be_value(be_bytes(value, n)) == value,
{
    lemma_le_round_trip(value, n);
    assert(be_bytes(value, n).reverse() =~= le_bytes(value, n));
}

/// What bytes stand for is in the range of their length.
pub proof fn lemma_le_value_range(bytes: Seq<u8>)
    ensures
        le_value(bytes) < byte_range(bytes.len()),
    decreases bytes.len(),
{
    if bytes.len() > 0 {
        lemma_le_value_range(bytes.drop_first());
    }
}

proof fn lemma_byte_range_u64(n: nat)
    requires
        n <= 8,
    ensures
        byte_range(n) <= 0x1_0000_0000_0000_0000,
{
    reveal_with_fuel(byte_range, 9);
}

/// Appends the `n` lowest bytes of a number, the least significant one first.
pub fn push_le(out: &mut Vec<u8>, value: u64, n: usize)
    ensures
        final(out)@ == old(out)@ + le_bytes(value as nat, n as nat),
{
    let mut rest: u64 = value;
    let mut i: usize = 0;
    while i < n
        invariant
            i <= n,
            out@ + le_bytes(rest as nat, (n - i) as nat) == old(out)@ + le_bytes(
                value as nat,
                n as nat,
            ),
        decreases n - i,
    {
        let ghost before = out@;
        let ghost tail = le_bytes((rest / 256) as nat, (n - i - 1) as nat);
        out.push((rest % 256) as u8);
        assert(before + (seq![(rest % 256) as u8] + tail) =~= out@ + tail);
        rest = rest / 256;
        i = i + 1;
    }
    assert(out@ + Seq::<u8>::empty() =~= out@);
}

/// Appends the `n` lowest bytes of a number, the most significant one first.
pub fn push_be(out: &mut Vec<u8>, value: u64, n: usize)
    ensures
        final(out)@ == old(out)@ + be_bytes(value as nat, n as nat),
{
    let mut digits: Vec<u8> = Vec::new();
    push_le(&mut digits, value, n);
    let ghost all = be_bytes(value as nat, n as nat);
    assert(digits@ =~= le_bytes(value as nat, n as nat));
    proof {
        lemma_le_bytes_len(value as nat, n as nat);
    }
    let mut i: usize = 0;
    assert(out@ =~= old(out)@ + all.take(0));
    while i < n
        invariant
            i <= n,
            digits@.len() == n,
            all == digits@.reverse(),
            out@ == old(out)@ + all.take(i as int),
        decreases n - i,
    {
        out.push(digits[n - 1 - i]);
        i = i + 1;
        assert(out@ =~= old(out)@ + all.take(i as int));
    }
    assert(all.take(n as int) =~= all);
}

/// The number that the `n` bytes from `from` on stand for, the most significant one first.
pub fn read_be(bytes: &[u8], from: usize, n: usize) -> (value: u64)
    requires
        n <= 8,
        from + n <= bytes@.len(),
    ensures
        value == be_value(bytes@.subrange(from as int, from + n)),
{
    let len: usize = bytes.len();
    let mut value: u64 = 0;
    let mut i: usize = 0;
    assert(bytes@.subrange(from as int, from + 0).reverse() =~= Seq::empty());
    while i < n
        invariant
            i <= n <= 8,
            from + n <= bytes@.len() == len,
            value == be_value(bytes@.subrange(from as int, from + i)),
        decreases n - i,
    {
        proof {
            let this = bytes@.subrange(from as int, from + i);
            let next = bytes@.subrange(from as int, from + i + 1);
            assert(next.reverse()[0] == bytes@[from + i]);
            assert(next.reverse().drop_first() =~= this.reverse());
            lemma_le_value_range(next.reverse());
            lemma_byte_range_u64((i + 1) as nat);
        }
        value = value * 256 + bytes[from + i] as u64;
        i = i + 1;
    }
    value
}

/// The number that the `n` bytes from `from` on stand for, the least significant one first.
pub fn read_le(bytes: &[u8], from: usize, n: usize) -> (value: u64)
    requires
        n <= 8,
        from + n <= bytes@.len(),
    ensures
        value == le_value(bytes@.subrange(from as int, from + n)),
{
    let len: usize = bytes.len();
    let mut value: u64 = 0;
    let mut i: usize = n;
    while i > 0
        invariant
            i <= n <= 8,
            from + n <= bytes@.len() == len,
            value == le_value(bytes@.subrange(from + i, from + n)),
        decreases i,
    {
        proof {
            let this = bytes@.subrange(from + i, from + n);
            let next = bytes@.subrange(from + i - 1, from + n);
            assert(next.drop_first() =~= this);
            lemma_le_value_range(next);
            lemma_byte_range_u64((n - i + 1) as nat);
        }
        i = i - 1;
        value = value * 256 + bytes[from + i] as u64;
    }
    value
}

/// Bytes are those of the number that they stand for.
pub proof fn lemma_bytes_of_value(bytes: Seq<u8>)
    ensures
        le_bytes(le_value(bytes), bytes.len()) == bytes,
        be_bytes(be_value(bytes), bytes.len()) == bytes,
{
    lemma_le_bytes_of_value(bytes);
    lemma_le_bytes_of_value(bytes.reverse());
    assert(bytes.reverse().len() == bytes.len());
    assert(bytes.reverse().reverse() =~= bytes);
}

proof fn lemma_le_bytes_of_value(bytes: Seq<u8>)
    ensures
        le_bytes(le_value(bytes), bytes.len()) == bytes,
    decreases bytes.len(),
{
    if bytes.len() > 0 {
        let rest = bytes.drop_first();
        lemma_le_bytes_of_value(rest);
        let value = le_value(bytes);
        assert(value % 256 == bytes[0]);
        assert(value / 256 == le_value(rest));
        assert(seq![bytes[0]] + rest =~= bytes);
    } else {
        assert(le_bytes(le_value(bytes), 0) =~= bytes);
    }
}

/// The order of the bytes of a number: the least significant one is the first one, or the last one
/// if the most significant one comes first, and the others are those of the number without it.
pub proof fn lemma_byte_order(value: nat, n: nat)
    requires
        n > 0,
    ensures
        le_bytes(value, n)[0] == value % 256,
        le_bytes(value, n).drop_first() == le_bytes(value / 256, (n - 1) as nat),
        be_bytes(value, n).last() == value % 256,
        be_bytes(value, n).drop_last() == be_bytes(value / 256, (n - 1) as nat),
{
    let rest = le_bytes(value / 256, (n - 1) as nat);
    lemma_le_bytes_len(value, n);
    lemma_le_bytes_len(value / 256, (n - 1) as nat);
    assert(le_bytes(value, n) == seq![(value % 256) as u8] + rest);
    assert(le_bytes(value, n).drop_first() =~= rest);
    assert(be_bytes(value, n).drop_last() =~= rest.reverse());
}

} // verus!
