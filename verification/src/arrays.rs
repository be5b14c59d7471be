//! Sorted lists of fixed-size arrays of integers, in a compact, seekable binary format.
//!
//! The arrays are split into frames. Each array is written as one bit (one where a frame starts,
//! zero elsewhere and at the start of the list), then one code per cell: the γ code of the
//! increase over the same cell of the previous array, up to the first cell that increases; after
//! it, the γ code of the zigzag-coded difference. The first array of a frame is written as the γ
//! codes of its cells. A frame that holds the array of zeros ends the list.

use crate::bits::{
    bit_pos, finish_writer, new_reader, new_writer, next_gamma, read_bit, set_bit_pos, to_int,
    to_nat, write_bit, write_gamma, BitReader, BitWriter, BitsError,
};
use vstd::prelude::*;

verus! {

/// A frame of arrays with different first cells holds this number of arrays.
pub const MIN_FRAME_SIZE: usize = 100;

/// A frame holds no more than this number of arrays.
pub const MAX_FRAME_SIZE: usize = 10000;

/// Why a list of arrays could not be written or read.
#[derive(Clone, Copy, Debug, PartialEq, Eq, Structural)]
pub enum ArraysError {
    /// An array is smaller than the one before it.
    NotSorted,
    /// An array of zeros cannot be written: it marks the end of the list.
    ZeroItem,
    /// A cell that has to be written as a difference overflows `i64`.
    CellOverflowsI64,
    /// A cell increases by the largest `u64`, which has no code.
    IncreaseTooLarge,
    /// The list has too many bits for their positions to be 64-bit numbers.
    TooLong,
    /// The position to start from is past the end of the list.
    PastTheEnd,
    /// The position to start from is not that of a frame.
    NotAFrameStart,
    /// The bits of the list could not be decoded.
    Bits(BitsError),
    /// A cell, previous value plus difference, overflows.
    CellOverflows,
}

/// The lexicographic order on arrays, strict.
pub open spec fn lex_lt(a: Seq<usize>, b: Seq<usize>) -> bool
    decreases a.len(),
{
    if a.len() == 0 || b.len() == 0 {
        a.len() < b.len()
    } else if a[0] != b[0] {
        a[0] < b[0]
    } else {
        lex_lt(a.drop_first(), b.drop_first())
    }
}

/// An array of zeros.
pub open spec fn zero_cells(n: nat) -> Seq<usize> {
    Seq::new(n, |i: int| 0usize)
}

/// The bits that stand for the cells of an array, `prev` being the array before it. `signed` says
/// that an earlier cell has increased, so that the differences may be negative. `plain` says that
/// the differences are never negative.
pub open spec fn encode_cells(
    prev: Seq<usize>,
    item: Seq<usize>,
    signed: bool,
    plain: bool,
) -> Result<Seq<bool>, ArraysError>
    decreases item.len(),
{
    if item.len() == 0 || prev.len() == 0 {
        Ok(Seq::empty())
    } else if signed && (item[0] > i64::MAX || prev[0] > i64::MAX) {
        Err(ArraysError::CellOverflowsI64)
    } else if !signed && item[0] < prev[0] {
        Err(ArraysError::NotSorted)
    } else if !signed && item[0] - prev[0] == u64::MAX {
        Err(ArraysError::IncreaseTooLarge)
    } else {
        let diff = item[0] - prev[0];
        let code = crate::bits::gamma_code(
            if signed {
                crate::bits::zigzag(diff)
            } else {
                diff as nat
            },
        );
        match encode_cells(
            prev.drop_first(),
            item.drop_first(),
            signed || (diff > 0 && !plain),
            plain,
        ) {
            Err(e) => Err(e),
            Ok(rest) => Ok(code + rest),
        }
    }
}

/// Whether a frame starts at `item`, which comes after `prev` in a frame of `frame_size` arrays.
pub open spec fn starts_frame(prev: Seq<usize>, frame_size: nat, item: Seq<usize>) -> bool {
    (frame_size >= MIN_FRAME_SIZE && item[0] != prev[0]) || frame_size >= MAX_FRAME_SIZE
}

/// Whether `item`, which comes after `prev` in a frame of `frame_size` arrays, is the first of a
/// frame, be it the first one of the list.
pub open spec fn opens_frame(prev: Seq<usize>, frame_size: nat, item: Seq<usize>) -> bool {
    frame_size == 0 || starts_frame(prev, frame_size, item)
}

/// The array that `item` is written as a difference from.
pub open spec fn base_item(prev: Seq<usize>, frame_size: nat, item: Seq<usize>) -> Seq<usize> {
    if opens_frame(prev, frame_size, item) {
        zero_cells(item.len())
    } else {
        prev
    }
}

/// The bits that stand for one array, which comes after `prev` in a frame of `frame_size` arrays.
pub open spec fn encode_item(prev: Seq<usize>, frame_size: nat, item: Seq<usize>) -> Result<
    Seq<bool>,
    ArraysError,
> {
    if lex_lt(item, prev) {
        Err(ArraysError::NotSorted)
    } else if item == zero_cells(item.len()) {
        Err(ArraysError::ZeroItem)
    } else {
        match encode_cells(
            base_item(prev, frame_size, item),
            item,
            false,
            opens_frame(prev, frame_size, item),
        ) {
            Err(e) => Err(e),
            Ok(cells) => Ok(seq![starts_frame(prev, frame_size, item)] + cells),
        }
    }
}

/// The size of the frame after `item` was added to it.
pub open spec fn next_frame_size(prev: Seq<usize>, frame_size: nat, item: Seq<usize>) -> nat {
    if starts_frame(prev, frame_size, item) {
        1
    } else {
        frame_size + 1
    }
}

/// What ends a list of arrays of `n` cells: a frame with the array of zeros.
pub open spec fn end_marker(n: nat) -> Seq<bool>
    decreases n,
{
    if n == 0 {
        seq![true]
    } else {
        end_marker((n - 1) as nat) + crate::bits::gamma_code(0)
    }
}

/// The bits that stand for a list of arrays of `n` cells, which comes after `prev` in a frame of
/// `frame_size` arrays.
pub open spec fn encode_items(
    n: nat,
    prev: Seq<usize>,
    frame_size: nat,
    items: Seq<Seq<usize>>,
) -> Result<Seq<bool>, ArraysError>
    decreases items.len(),
{
    if items.len() == 0 {
        Ok(end_marker(n))
    } else {
        match encode_item(prev, frame_size, items[0]) {
            Err(e) => Err(e),
            Ok(first) => match encode_items(
                n,
                items[0],
                next_frame_size(prev, frame_size, items[0]),
                items.drop_first(),
            ) {
                Err(e) => Err(e),
                Ok(rest) => Ok(first + rest),
            },
        }
    }
}

/// The cells at `pos`, and the position after them.
pub open spec fn decode_cells(
    bits: Seq<bool>,
    pos: nat,
    prev: Seq<usize>,
    signed: bool,
    plain: bool,
) -> Result<(Seq<usize>, nat), ArraysError>
    decreases prev.len(),
{
    if prev.len() == 0 {
        Ok((Seq::empty(), pos))
    } else {
        match crate::bits::checked_gamma_at(bits, pos) {
            Err(e) => Err(ArraysError::Bits(e)),
            Ok((code, next)) => {
                let diff = if signed {
                    crate::bits::unzigzag(code)
                } else {
                    code as int
                };
                let cell = prev[0] + diff;
                if cell < 0 || cell > usize::MAX {
                    Err(ArraysError::CellOverflows)
                } else {
                    match decode_cells(
                        bits,
                        next,
                        prev.drop_first(),
                        signed || (diff > 0 && !plain),
                        plain,
                    ) {
                        Err(e) => Err(e),
                        Ok((rest, end)) => Ok((seq![cell as usize] + rest, end)),
                    }
                }
            },
        }
    }
}

/// Where a reader of a list stands.
pub struct ReadState {
    /// The position of the next bit.
    pub pos: nat,
    /// The array read last.
    pub prev: Seq<usize>,
    /// Whether the next array is the very first of the list.
    pub first: bool,
}

/// What comes next in a list of arrays.
pub enum ReadStep {
    /// The end of the list.
    End,
    /// An array, the position of its frame where it starts one, and where the reader then stands.
    Item(Option<nat>, Seq<usize>, ReadState),
    /// The list cannot be decoded.
    Fail(ArraysError),
}

/// What a reader reads next.
pub open spec fn read_step(bits: Seq<bool>, state: ReadState) -> ReadStep {
    let n = state.prev.len();
    if state.pos >= bits.len() {
        ReadStep::Fail(ArraysError::Bits(BitsError::UnexpectedEnd))
    } else {
        let new_frame = bits[state.pos as int];
        let opens = state.first || new_frame;
        let base = if opens {
            zero_cells(n)
        } else {
            state.prev
        };
        match decode_cells(bits, state.pos + 1, base, false, opens) {
            Err(e) => ReadStep::Fail(e),
            Ok((item, end)) => if new_frame && item == zero_cells(n) {
                ReadStep::End
            } else if lex_lt(item, state.prev) {
                ReadStep::Fail(ArraysError::NotSorted)
            } else {
                let position = if state.first {
                    Some(0)
                } else if new_frame {
                    Some(state.pos)
                } else {
                    None
                };
                ReadStep::Item(position, item, ReadState { pos: end, prev: item, first: false })
            },
        }
    }
}

proof fn lemma_decode_cells_advances(
    bits: Seq<bool>,
    pos: nat,
    prev: Seq<usize>,
    signed: bool,
    plain: bool,
)
    requires
        pos <= bits.len(),
    ensures
        decode_cells(bits, pos, prev, signed, plain) matches Ok((item, end)) ==> item.len()
            == prev.len() && pos <= end <= bits.len(),
    decreases prev.len(),
{
    if prev.len() > 0 {
        crate::bits::lemma_checked_gamma_advances(bits, pos);
        match crate::bits::checked_gamma_at(bits, pos) {
            Err(e) => {},
            Ok((code, next)) => {
                let diff = if signed {
                    crate::bits::unzigzag(code)
                } else {
                    code as int
                };
                lemma_decode_cells_advances(
                    bits,
                    next,
                    prev.drop_first(),
                    signed || (diff > 0 && !plain),
                    plain,
                );
            },
        }
    }
}

/// Each array that is read moves the reader forward, within the stream.
pub proof fn lemma_read_step_advances(bits: Seq<bool>, state: ReadState)
    ensures
        read_step(bits, state) matches ReadStep::Item(position, item, next) ==> {
            &&& state.pos < next.pos <= bits.len()
            &&& next.prev == item
            &&& item.len() == state.prev.len()
        },
{
    if state.pos < bits.len() {
        let opens = state.first || bits[state.pos as int];
        let base = if opens {
            zero_cells(state.prev.len())
        } else {
            state.prev
        };
        lemma_decode_cells_advances(bits, state.pos + 1, base, false, opens);
    }
}

/// An array of a list, with the position of its frame where it starts one.
pub type PositionedItem = (Option<nat>, Seq<usize>);

/// What a reader reads from a state on: arrays, then the end of the list or an error.
pub open spec fn read_all(bits: Seq<bool>, state: ReadState) -> (
    Seq<PositionedItem>,
    Option<ArraysError>,
)
    decreases bits.len() - state.pos,
{
    match read_step(bits, state) {
        ReadStep::End => (Seq::empty(), None),
        ReadStep::Fail(e) => (Seq::empty(), Some(e)),
        ReadStep::Item(position, item, next) => {
            proof {
                lemma_read_step_advances(bits, state);
            }
            let (items, error) = read_all(bits, next);
            (seq![(position, item)] + items, error)
        },
    }
}

/// The arrays without the positions.
pub open spec fn items_only(items: Seq<PositionedItem>) -> Seq<Seq<usize>> {
    items.map_values(|item: PositionedItem| item.1)
}

/// Where a reader of arrays of `n` cells stands that starts from a position.
pub open spec fn open_at(bits: Seq<bool>, n: nat, pos: nat) -> Result<ReadState, ArraysError> {
    if pos > bits.len() {
        Err(ArraysError::PastTheEnd)
    } else if pos != 0 && pos == bits.len() {
        Err(ArraysError::Bits(BitsError::UnexpectedEnd))
    } else if pos != 0 && !bits[pos as int] {
        Err(ArraysError::NotAFrameStart)
    } else {
        Ok(ReadState { pos, prev: zero_cells(n), first: pos == 0 })
    }
}

/// Where a reader stands that starts from the beginning.
pub open spec fn start_state(n: nat) -> ReadState {
    ReadState { pos: 0, prev: zero_cells(n), first: true }
}

/// What is read of a list that comes after `prev` in a frame of `frame_size` arrays, and whose
/// bits start at `pos`.
pub open spec fn listing(
    prev: Seq<usize>,
    frame_size: nat,
    items: Seq<Seq<usize>>,
    pos: nat,
    first: bool,
) -> Seq<PositionedItem>
    decreases items.len(),
{
    if items.len() == 0 {
        Seq::empty()
    } else {
        let position = if first {
            Some(0nat)
        } else if starts_frame(prev, frame_size, items[0]) {
            Some(pos)
        } else {
            None
        };
        seq![(position, items[0])] + listing(
            items[0],
            next_frame_size(prev, frame_size, items[0]),
            items.drop_first(),
            pos + encode_item(prev, frame_size, items[0])->Ok_0.len(),
            false,
        )
    }
}

proof fn lemma_listing_items(
    prev: Seq<usize>,
    frame_size: nat,
    items: Seq<Seq<usize>>,
    pos: nat,
    first: bool,
)
    ensures
        items_only(listing(prev, frame_size, items, pos, first)) == items,
    decreases items.len(),
{
    let all = listing(prev, frame_size, items, pos, first);
    if items.len() > 0 {
        let end = pos + encode_item(prev, frame_size, items[0])->Ok_0.len();
        let size = next_frame_size(prev, frame_size, items[0]);
        lemma_listing_items(items[0], size, items.drop_first(), end, false);
        let rest = listing(items[0], size, items.drop_first(), end, false);
        assert(all =~= seq![all[0]] + rest);
        assert(items_only(all) =~= seq![items[0]] + items_only(rest));
        assert(items =~= seq![items[0]] + items.drop_first());
    } else {
        assert(items_only(all) =~= items);
    }
}

proof fn lemma_cells_round_trip(
    before: Seq<bool>,
    prev: Seq<usize>,
    item: Seq<usize>,
    signed: bool,
    plain: bool,
    after: Seq<bool>,
)
    requires
        prev.len() == item.len(),
        encode_cells(prev, item, signed, plain) is Ok,
    ensures
        ({
            let code = encode_cells(prev, item, signed, plain)->Ok_0;
            decode_cells(before + code + after, before.len(), prev, signed, plain) == Ok::<
                (Seq<usize>, nat),
                ArraysError,
            >((item, before.len() + code.len()))
        }),
    decreases item.len(),
{
    let code = encode_cells(prev, item, signed, plain)->Ok_0;
    let bits = before + code + after;
    if item.len() == 0 {
        assert(item =~= Seq::empty());
    } else {
        let diff = item[0] - prev[0];
        let n = if signed {
            crate::bits::zigzag(diff)
        } else {
            diff as nat
        };
        let first = crate::bits::gamma_code(n);
        let more = signed || (diff > 0 && !plain);
        let rest = encode_cells(prev.drop_first(), item.drop_first(), more, plain)->Ok_0;
        assert(code == first + rest);
        assert(crate::bits::checked_gamma_at(bits, before.len()) == Ok::<(nat, nat), BitsError>(
            (n, before.len() + first.len()),
        )) by {
            assert(bits =~= before + first + (rest + after));
            crate::bits::lemma_checked_gamma_round_trip(before, n, rest + after);
        }
        assert(bits =~= (before + first) + rest + after);
        crate::bits::lemma_zigzag_inverse(diff);
        lemma_cells_round_trip(
            before + first,
            prev.drop_first(),
            item.drop_first(),
            more,
            plain,
            after,
        );
        assert(seq![item[0]] + item.drop_first() =~= item);
    }
}

proof fn lemma_end_marker_step(before: Seq<bool>, n: nat, after: Seq<bool>, k: nat)
    requires
        k <= n,
    ensures
        decode_cells(
            before + end_marker(n) + after,
            before.len() + 1 + (n - k) as nat,
            zero_cells(k),
            false,
            true,
        ) == Ok::<(Seq<usize>, nat), ArraysError>((zero_cells(k), before.len() + 1 + n)),
        end_marker(n).len() == n + 1,
        end_marker(n)[0],
    decreases k,
{
    lemma_end_marker(n);
    let bits = before + end_marker(n) + after;
    let pos = before.len() + 1 + (n - k) as nat;
    if k == 0 {
        assert(zero_cells(0) =~= Seq::empty());
    } else {
        crate::bits::lemma_gamma_zero();
        crate::bits::lemma_checked_gamma_round_trip(
            bits.subrange(0, pos as int),
            0,
            bits.subrange((pos + 1) as int, bits.len() as int),
        );
        assert(bits =~= bits.subrange(0, pos as int) + crate::bits::gamma_code(0)
            + bits.subrange((pos + 1) as int, bits.len() as int));
        lemma_end_marker_step(before, n, after, (k - 1) as nat);
        assert(zero_cells(k).drop_first() =~= zero_cells((k - 1) as nat));
        assert(seq![0usize] + zero_cells((k - 1) as nat) =~= zero_cells(k));
    }
}

proof fn lemma_end_marker(n: nat)
    ensures
        end_marker(n) == Seq::new(n + 1, |i: int| true),
    decreases n,
{
    if n == 0 {
        assert(end_marker(0) =~= Seq::new(1, |i: int| true));
    } else {
        lemma_end_marker((n - 1) as nat);
        crate::bits::lemma_gamma_zero();
        assert(end_marker(n) =~= Seq::new(n + 1, |i: int| true));
    }
}

/// The bits of a list, read back, give the list, whatever stands around them.
proof fn lemma_read_back(
    before: Seq<bool>,
    n: nat,
    prev: Seq<usize>,
    frame_size: nat,
    items: Seq<Seq<usize>>,
    after: Seq<bool>,
    first: bool,
)
    requires
        prev.len() == n,
        forall|i: int| 0 <= i < items.len() ==> (#[trigger] items[i]).len() == n,
        encode_items(n, prev, frame_size, items) is Ok,
        first == (frame_size == 0),
    ensures
        ({
            let code = encode_items(n, prev, frame_size, items)->Ok_0;
            read_all(before + code + after, ReadState { pos: before.len(), prev, first }) == (
                listing(prev, frame_size, items, before.len(), first),
                None::<ArraysError>,
            )
        }),
    decreases items.len(),
{
    let code = encode_items(n, prev, frame_size, items)->Ok_0;
    let bits = before + code + after;
    let state = ReadState { pos: before.len(), prev, first };
    if items.len() == 0 {
        lemma_end_marker_step(before, n, after, n);
    } else {
        let item = items[0];
        assert(item.len() == n);
        let one = encode_item(prev, frame_size, item)->Ok_0;
        let size = next_frame_size(prev, frame_size, item);
        let rest = encode_items(n, item, size, items.drop_first())->Ok_0;
        let flag = seq![starts_frame(prev, frame_size, item)];
        let base = base_item(prev, frame_size, item);
        let opens = opens_frame(prev, frame_size, item);
        let cells = encode_cells(base, item, false, opens)->Ok_0;
        assert(code == one + rest);
        assert(bits =~= (before + flag) + cells + (rest + after));
        assert(bits =~= (before + one) + rest + after);
        assert(bits[before.len() as int] == flag[0]);
        lemma_cells_round_trip(before + flag, base, item, false, opens, rest + after);
        lemma_read_back(before + one, n, item, size, items.drop_first(), after, false);
    }
}

/// Whether the array `a` comes before the array `b`.
pub fn array_lt<const N: usize>(a: &[usize; N], b: &[usize; N]) -> (lt: bool)
    ensures
        lt == lex_lt(a@, b@),
{
    let mut i: usize = 0;
    assert(a@.skip(0) =~= a@ && b@.skip(0) =~= b@);
    while i < N
        invariant
            i <= N,
            a@.len() == N,
            b@.len() == N,
            lex_lt(a@, b@) == lex_lt(a@.skip(i as int), b@.skip(i as int)),
        decreases N - i,
    {
        assert(a@.skip(i as int)[0] == a@[i as int] && b@.skip(i as int)[0] == b@[i as int]);
        if a[i] != b[i] {
            return a[i] < b[i];
        }
        assert(a@.skip(i as int).drop_first() =~= a@.skip(i + 1));
        assert(b@.skip(i as int).drop_first() =~= b@.skip(i + 1));
        i = i + 1;
    }
    false
}

/// Whether an array holds zeros only.
fn is_zero<const N: usize>(a: &[usize; N]) -> (zero: bool)
    ensures
        zero == (a@ == zero_cells(N as nat)),
{
    let mut i: usize = 0;
    while i < N
        invariant
            i <= N,
            a@.len() == N,
            forall|j: int| 0 <= j < i ==> a@[j] == 0,
        decreases N - i,
    {
        if a[i] != 0 {
            assert(zero_cells(N as nat)[i as int] == 0);
            return false;
        }
        i = i + 1;
    }
    assert(a@ =~= zero_cells(N as nat));
    true
}

/// Appends the cells of `item` to the stream, as differences from `prev`.
fn write_cells<const N: usize>(
    writer: &mut BitWriter,
    prev: &[usize; N],
    item: &[usize; N],
    plain: bool,
) -> (res: Result<(), ArraysError>)
    ensures
        match encode_cells(prev@, item@, false, plain) {
            Err(e) => res == Err::<(), ArraysError>(e),
            Ok(bits) => res is Ok && crate::bits::writer_bits(*final(writer))
                == crate::bits::writer_bits(*old(writer)) + bits,
        },
{
    let mut signed: bool = false;
    let mut i: usize = 0;
    let ghost start = crate::bits::writer_bits(*writer);
    let ghost mut done: Seq<bool> = Seq::empty();
    assert(prev@.skip(0) =~= prev@ && item@.skip(0) =~= item@);
    assert(start + done =~= start);
    proof {
        match encode_cells(prev@, item@, false, plain) {
            Ok(bits) => {
                assert(done + bits =~= bits);
            },
            Err(e) => {},
        }
    }
    while i < N
        invariant
            i <= N,
            prev@.len() == N,
            item@.len() == N,
            crate::bits::writer_bits(*writer) == start + done,
            start == crate::bits::writer_bits(*old(writer)),
            encode_cells(prev@, item@, false, plain) == (match encode_cells(
                prev@.skip(i as int),
                item@.skip(i as int),
                signed,
                plain,
            ) {
                Err(e) => Err::<Seq<bool>, ArraysError>(e),
                Ok(rest) => Ok(done + rest),
            }),
        decreases N - i,
    {
        let ghost p = prev@.skip(i as int);
        let ghost q = item@.skip(i as int);
        assert(p[0] == prev@[i as int] && q[0] == item@[i as int]);
        assert(p.drop_first() =~= prev@.skip(i + 1));
        assert(q.drop_first() =~= item@.skip(i + 1));
        let previous_cell: usize = prev[i];
        let cell: usize = item[i];
        let code: u64;
        if signed {
            if cell as u64 > i64::MAX as u64 || previous_cell as u64 > i64::MAX as u64 {
                return Err(ArraysError::CellOverflowsI64);
            }
            code = to_nat(cell as i64 - previous_cell as i64);
        } else {
            if cell < previous_cell {
                return Err(ArraysError::NotSorted);
            }
            code = (cell - previous_cell) as u64;
            if code == u64::MAX {
                return Err(ArraysError::IncreaseTooLarge);
            }
        }
        let ghost before = crate::bits::writer_bits(*writer);
        write_gamma(writer, code);
        if cell > previous_cell && !plain {
            signed = true;
        }
        proof {
            let added = crate::bits::gamma_code(code as nat);
            assert(before + added =~= start + (done + added));
            match encode_cells(prev@.skip(i + 1), item@.skip(i + 1), signed, plain) {
                Ok(rest) => {
                    assert(done + (added + rest) =~= (done + added) + rest);
                },
                Err(e) => {},
            }
            done = done + added;
        }
        i = i + 1;
    }
    proof {
        assert(done + Seq::<bool>::empty() =~= done);
    }
    Ok(())
}

/// Reads the cells of an array that were written as differences from `prev`.
#[verifier::rlimit(50)]
fn read_cells<const N: usize>(
    reader: &mut BitReader<'_>,
    prev: &[usize; N],
    plain: bool,
) -> (res: Result<[usize; N], ArraysError>)
    requires
        crate::bits::reader_pos(*old(reader)) <= crate::bits::reader_bits(*old(reader)).len()
            <= u64::MAX,
        crate::bits::reader_bits(*old(reader)).len() % 64 == 0,
    ensures
        match decode_cells(
            crate::bits::reader_bits(*old(reader)),
            crate::bits::reader_pos(*old(reader)),
            prev@,
            false,
            plain,
        ) {
            Err(e) => res == Err::<[usize; N], ArraysError>(e),
            Ok((item, end)) => {
                &&& res matches Ok(r) && r@ == item
                &&& crate::bits::reader_pos(*final(reader)) == end
                &&& end <= crate::bits::reader_bits(*old(reader)).len()
                &&& crate::bits::reader_bits(*final(reader)) == crate::bits::reader_bits(
                    *old(reader),
                )
            },
        },
{
    let ghost bits = crate::bits::reader_bits(*reader);
    let ghost start = crate::bits::reader_pos(*reader);
    let mut item: [usize; N] = [0usize; N];
    let mut signed: bool = false;
    let mut i: usize = 0;
    assert(prev@.skip(0) =~= prev@);
    assert(item@.take(0) =~= Seq::empty());
    proof {
        match decode_cells(bits, start, prev@, false, plain) {
            Ok((rest, end)) => {
                assert(Seq::<usize>::empty() + rest =~= rest);
            },
            Err(e) => {},
        }
    }
    while i < N
        invariant
            i <= N,
            item@.len() == N,
            prev@.len() == N,
            bits == crate::bits::reader_bits(*old(reader)),
            start == crate::bits::reader_pos(*old(reader)),
            crate::bits::reader_bits(*reader) == bits,
            crate::bits::reader_pos(*reader) <= bits.len() <= u64::MAX,
            bits.len() % 64 == 0,
            decode_cells(bits, start, prev@, false, plain) == (match decode_cells(
                bits,
                crate::bits::reader_pos(*reader),
                prev@.skip(i as int),
                signed,
                plain,
            ) {
                Err(e) => Err::<(Seq<usize>, nat), ArraysError>(e),
                Ok((rest, end)) => Ok((item@.take(i as int) + rest, end)),
            }),
        decreases N - i,
    {
        assert(prev@.skip(i as int)[0] == prev@[i as int]);
        assert(prev@.skip(i as int).drop_first() =~= prev@.skip(i + 1));
        let code: u64 = match next_gamma(reader) {
            Err(e) => {
                return Err(ArraysError::Bits(e));
            },
            Ok(code) => code,
        };
        let diff: i128 = if signed {
            to_int(code) as i128
        } else {
            code as i128
        };
        let cell: i128 = prev[i] as i128 + diff;
        if cell < 0 || cell > usize::MAX as i128 {
            return Err(ArraysError::CellOverflows);
        }
        let ghost done = item@.take(i as int);
        item[i] = cell as usize;
        if diff > 0 && !plain {
            signed = true;
        }
        proof {
            assert(item@.take(i + 1) =~= done.push(cell as usize));
            match decode_cells(
                bits,
                crate::bits::reader_pos(*reader),
                prev@.skip(i + 1),
                signed,
                plain,
            ) {
                Ok((rest, end)) => {
                    assert(done + (seq![cell as usize] + rest) =~= done.push(cell as usize) + rest);
                },
                Err(e) => {},
            }
        }
        i = i + 1;
    }
    proof {
        assert(item@.take(i as int) + Seq::<usize>::empty() =~= item@);
    }
    Ok(item)
}

/// Reads the arrays of a list one by one.
pub struct ArraysReader<'a, const N: usize> {
    reader: BitReader<'a>,
    previous_item: [usize; N],
    first: bool,
    finished: bool,
}

impl<'a, const N: usize> ArraysReader<'a, N> {
    /// A reader stands within the list.
    pub closed spec fn well_formed(self) -> bool {
        !self.finished ==> {
            &&& crate::bits::reader_pos(self.reader) <= self.bits().len() <= u64::MAX
            &&& self.bits().len() % 64 == 0
        }
    }

    /// The bits that are read.
    pub closed spec fn bits(self) -> Seq<bool> {
        crate::bits::reader_bits(self.reader)
    }

    /// Where the reader stands.
    pub closed spec fn state(self) -> ReadState {
        ReadState {
            pos: crate::bits::reader_pos(self.reader),
            prev: self.previous_item@,
            first: self.first,
        }
    }

    /// Whether the end of the list or an error was met, after which nothing more is read.
    pub closed spec fn finished(self) -> bool {
        self.finished
    }

    /// What is left to read.
    pub open spec fn remaining(self) -> (Seq<PositionedItem>, Option<ArraysError>) {
        if self.finished() {
            (Seq::empty(), None)
        } else {
            read_all(self.bits(), self.state())
        }
    }

    /// Reads the next array, with the position of its frame where it starts one.
    pub fn next(&mut self) -> (res: Result<Option<(Option<u64>, [usize; N])>, ArraysError>)
        requires
            old(self).well_formed(),
        ensures
            final(self).well_formed(),
            match res {
                Err(e) => old(self).remaining() == (Seq::<PositionedItem>::empty(), Some(e))
                    && final(self).finished(),
                Ok(None) => old(self).remaining() == (
                    Seq::<PositionedItem>::empty(),
                    None::<ArraysError>,
                ) && final(self).finished(),
                Ok(Some((position, item))) => {
                    &&& old(self).remaining().0.len() > 0
                    &&& old(self).remaining().0[0] == (position_view(position), item@)
                    &&& final(self).remaining() == (
                        old(self).remaining().0.drop_first(),
                        old(self).remaining().1,
                    )
                },
            },
    {
        if self.finished {
            return Ok(None);
        }
        proof {
            lemma_read_step_advances(self.bits(), self.state());
        }
        let ghost bits = self.bits();
        let ghost state = self.state();
        self.finished = true;
        let new_frame: bool = match read_bit(&mut self.reader) {
            None => {
                return Err(ArraysError::Bits(BitsError::UnexpectedEnd));
            },
            Some(bit) => bit,
        };
        let mut base: [usize; N] = self.previous_item;
        let mut position: Option<u64> = None;
        let opens: bool = self.first || new_frame;
        if opens {
            base = [0usize; N];
            assert(base@ =~= zero_cells(N as nat));
        }
        if new_frame {
            position = Some(bit_pos(&mut self.reader) - 1);
        }
        let item: [usize; N] = read_cells(&mut self.reader, &base, opens)?;
        if new_frame && is_zero(&item) {
            return Ok(None);
        }
        if array_lt(&item, &self.previous_item) {
            return Err(ArraysError::NotSorted);
        }
        if self.first {
            position = Some(0);
        }
        self.previous_item = item;
        self.first = false;
        self.finished = false;
        proof {
            let all = read_all(bits, state).0;
            assert(all.drop_first() =~= read_all(bits, self.state()).0);
        }
        Ok(Some((position, item)))
    }
}

/// A position as a number.
pub open spec fn position_view(position: Option<u64>) -> Option<nat> {
    match position {
        None => None,
        Some(p) => Some(p as nat),
    }
}

/// The arrays of a list, as sequences.
pub open spec fn item_views<const N: usize>(items: Seq<[usize; N]>) -> Seq<Seq<usize>> {
    items.map_values(|item: [usize; N]| item@)
}

/// The number of bits of the 64-bit words that hold `len` bits.
pub open spec fn padded_len(len: nat) -> nat {
    (len + 63) / 64 * 64
}

/// Bits padded with zeros to a whole number of 64-bit words.
pub open spec fn padded(bits: Seq<bool>) -> Seq<bool> {
    bits + crate::bits::zero_bits((padded_len(bits.len()) - bits.len()) as nat)
}

/// Bytes padded with zeros to a whole number of 64-bit words.
pub open spec fn padded_bytes(data: Seq<u8>) -> Seq<u8> {
    data + Seq::new(((data.len() + 7) / 8 * 8 - data.len()) as nat, |i: int| 0u8)
}

/// A list of sorted arrays in its binary format.
pub struct SortedArraysFile<const N: usize> {
    data: Vec<u8>,
}

impl<const N: usize> SortedArraysFile<N> {
    #[verifier::type_invariant]
    spec fn well_formed(self) -> bool {
        &&& self.data@.len() % 8 == 0
        &&& 8 * self.data@.len() <= u64::MAX
    }

    /// The bytes of the file.
    pub closed spec fn bytes(self) -> Seq<u8> {
        self.data@
    }

    /// The bits of the file.
    pub open spec fn bits(self) -> Seq<bool> {
        crate::bits::stream_bits(self.bytes())
    }

    /// Writes a sorted list of arrays.
    #[verifier::rlimit(50)]
    pub fn create(items: &[[usize; N]]) -> (res: Result<Self, ArraysError>)
        ensures
            match encode_items(N as nat, zero_cells(N as nat), 0, item_views(items@)) {
                Err(e) => res == Err::<Self, ArraysError>(e),
                Ok(bits) => if padded_len(bits.len()) > u64::MAX {
                    res == Err::<Self, ArraysError>(ArraysError::TooLong)
                } else {
                    res matches Ok(file) && file.bits() == padded(bits)
                },
            },
    {
        let mut writer = new_writer();
        let mut previous_item: [usize; N] = [0usize; N];
        let mut current_frame_size: usize = 0;
        let ghost views = item_views(items@);
        let ghost whole = encode_items(N as nat, zero_cells(N as nat), 0, views);
        assert(previous_item@ =~= zero_cells(N as nat));
        assert(views.skip(0) =~= views);
        proof {
            match whole {
                Ok(bits) => {
                    assert(Seq::<bool>::empty() + bits =~= bits);
                },
                Err(e) => {},
            }
        }
        let mut k: usize = 0;
        while k < items.len()
            invariant
                k <= items.len(),
                views == item_views(items@),
                current_frame_size <= MAX_FRAME_SIZE,
                previous_item@.len() == N,
                current_frame_size == 0 ==> previous_item@ == zero_cells(N as nat),
                whole == encode_items(N as nat, zero_cells(N as nat), 0, views),
                whole == (match encode_items(
                    N as nat,
                    previous_item@,
                    current_frame_size as nat,
                    views.skip(k as int),
                ) {
                    Err(e) => Err::<Seq<bool>, ArraysError>(e),
                    Ok(rest) => Ok(crate::bits::writer_bits(writer) + rest),
                }),
            decreases items.len() - k,
        {
            let item: [usize; N] = items[k];
            let ghost written = crate::bits::writer_bits(writer);
            let ghost before = previous_item@;
            let ghost size = current_frame_size as nat;
            assert(item@.len() == N);
            assert(views.skip(k as int)[0] == item@);
            assert(views.skip(k as int).drop_first() =~= views.skip(k + 1));
            if array_lt(&item, &previous_item) {
                return Err(ArraysError::NotSorted);
            }
            if is_zero(&item) {
                return Err(ArraysError::ZeroItem);
            }
            proof {
                if N == 0 {
                    assert(item@ =~= zero_cells(N as nat));
                }
            }
            let new_frame: bool = (current_frame_size >= MIN_FRAME_SIZE && item[0]
                != previous_item[0]) || current_frame_size >= MAX_FRAME_SIZE;
            if new_frame {
                previous_item = [0usize; N];
                assert(previous_item@ =~= zero_cells(N as nat));
                current_frame_size = 0;
            }
            write_bit(&mut writer, new_frame);
            let opens: bool = current_frame_size == 0;
            write_cells(&mut writer, &previous_item, &item, opens)?;
            proof {
                let first = encode_item(before, size, item@)->Ok_0;
                assert(written.push(new_frame) + encode_cells(
                    base_item(before, size, item@),
                    item@,
                    false,
                    opens,
                )->Ok_0 =~= written + first);
                match encode_items(
                    N as nat,
                    item@,
                    next_frame_size(before, size, item@),
                    views.skip(k + 1),
                ) {
                    Ok(rest) => {
                        assert(written + (first + rest) =~= (written + first) + rest);
                    },
                    Err(e) => {},
                }
            }
            previous_item = item;
            current_frame_size = current_frame_size + 1;
            k = k + 1;
        }
        let ghost written = crate::bits::writer_bits(writer);
        assert(views.skip(k as int) =~= Seq::empty());
        write_bit(&mut writer, true);
        assert(written.push(true) =~= written + end_marker(0));
        let mut i: usize = 0;
        while i < N
            invariant
                i <= N,
                crate::bits::writer_bits(writer) == written + end_marker(i as nat),
            decreases N - i,
        {
            write_gamma(&mut writer, 0);
            assert((written + end_marker(i as nat)) + crate::bits::gamma_code(0) =~= written
                + end_marker((i + 1) as nat));
            i = i + 1;
        }
        let ghost bits = crate::bits::writer_bits(writer);
        let data = finish_writer(writer);
        assert(8 * data@.len() == padded_len(bits.len()));
        if data.len() as u128 * 8 > u64::MAX as u128 {
            return Err(ArraysError::TooLong);
        }
        Ok(SortedArraysFile { data })
    }

    /// Takes the bytes of a file, padded with zeros to a whole number of words.
    pub fn mmap(data: Vec<u8>) -> (res: Result<Self, ArraysError>)
        ensures
            if 8 * padded_bytes(data@).len() > u64::MAX {
                res == Err::<Self, ArraysError>(ArraysError::TooLong)
            } else {
                res matches Ok(file) && file.bytes() == padded_bytes(data@)
            },
    {
        let mut bytes: Vec<u8> = data;
        if (bytes.len() as u128 + 7) / 8 * 64 > u64::MAX as u128 {
            return Err(ArraysError::TooLong);
        }
        while bytes.len() % 8 != 0
            invariant
                8 * padded_bytes(data@).len() <= u64::MAX,
                data@.len() <= bytes@.len() <= padded_bytes(data@).len(),
                bytes@ == padded_bytes(data@).take(bytes@.len() as int),
            decreases padded_bytes(data@).len() - bytes@.len(),
        {
            bytes.push(0);
            assert(bytes@ =~= padded_bytes(data@).take(bytes@.len() as int));
        }
        assert(bytes@ =~= padded_bytes(data@));
        Ok(SortedArraysFile { data: bytes })
    }

    /// The bytes of the file.
    pub fn as_bytes(&self) -> (bytes: &[u8])
        ensures
            bytes@ == self.bytes(),
    {
        self.data.as_slice()
    }

    /// The length of the file in bytes.
    pub fn file_len(&self) -> (len: usize)
        ensures
            len == self.bytes().len(),
    {
        self.data.len()
    }

    /// Starts to read at a position: the beginning, or that of a frame.
    pub fn iter_with_positions(&self, from_bit_position: usize) -> (res: Result<
        ArraysReader<'_, N>,
        ArraysError,
    >)
        ensures
            match open_at(self.bits(), N as nat, from_bit_position as nat) {
                Err(e) => res is Err && res->Err_0 == e,
                Ok(state) => res matches Ok(reader) && reader.well_formed() && !reader.finished()
                    && reader.bits() == self.bits() && reader.state() == state,
            },
    {
        proof {
            use_type_invariant(self);
        }
        let end: u64 = self.data.len() as u64 * 8;
        let from: u64 = from_bit_position as u64;
        if from > end {
            return Err(ArraysError::PastTheEnd);
        }
        let mut reader = new_reader(self.data.as_slice());
        set_bit_pos(&mut reader, from);
        if from != 0 {
            match read_bit(&mut reader) {
                None => {
                    return Err(ArraysError::Bits(BitsError::UnexpectedEnd));
                },
                Some(bit) => {
                    if !bit {
                        return Err(ArraysError::NotAFrameStart);
                    }
                },
            }
        }
        set_bit_pos(&mut reader, from);
        let previous_item: [usize; N] = [0usize; N];
        assert(previous_item@ =~= zero_cells(N as nat));
        Ok(ArraysReader { reader, previous_item, first: from == 0, finished: false })
    }

    /// Reads the arrays from a position on.
    pub fn iter_from_position(&self, from_bit_position: usize) -> (res: Result<
        Scan<N>,
        ArraysError,
    >)
        ensures
            match open_at(self.bits(), N as nat, from_bit_position as nat) {
                Err(e) => res is Err && res->Err_0 == e,
                Ok(state) => res matches Ok(scan) && scan@ == (
                    items_only(read_all(self.bits(), state).0),
                    read_all(self.bits(), state).1,
                ),
            },
    {
        let mut reader = self.iter_with_positions(from_bit_position)?;
        let mut items: Vec<[usize; N]> = Vec::new();
        let ghost whole = reader.remaining();
        assert(whole.0.skip(0) =~= whole.0);
        loop
            invariant
                reader.well_formed(),
                items@.len() <= whole.0.len(),
                item_views(items@) == items_only(whole.0.take(items@.len() as int)),
                reader.remaining() == (whole.0.skip(items@.len() as int), whole.1),
                open_at(self.bits(), N as nat, from_bit_position as nat) matches Ok(state)
                    && read_all(self.bits(), state) == whole,
            decreases reader.remaining().0.len(),
        {
            match reader.next() {
                Err(e) => {
                    assert(whole.0.take(items@.len() as int) =~= whole.0);
                    return Ok(Scan { items, error: Some(e) });
                },
                Ok(None) => {
                    assert(whole.0.take(items@.len() as int) =~= whole.0);
                    return Ok(Scan { items, error: None });
                },
                Ok(Some((_position, item))) => {
                    proof {
                        let k = items@.len() as int;
                        assert(whole.0.skip(k)[0] == whole.0[k]);
                        assert(whole.0.skip(k).drop_first() =~= whole.0.skip(k + 1));
                        assert(items_only(whole.0.take(k + 1)) =~= items_only(
                            whole.0.take(k),
                        ).push(item@));
                        assert(item_views(items@.push(item)) =~= item_views(items@).push(item@));
                    }
                    items.push(item);
                },
            }
        }
    }

    /// Reads all the arrays.
    pub fn iter(&self) -> (res: Result<Scan<N>, ArraysError>)
        ensures
            res matches Ok(scan) && scan@ == (items_only(self.listing()), self.read_error()),
    {
        self.iter_from_position(0)
    }

    /// What the file holds: arrays, and the positions of the frames.
    pub open spec fn listing(self) -> Seq<PositionedItem> {
        read_all(self.bits(), start_state(N as nat)).0
    }

    /// Whether the file is made of the bits that stand for its list, and of nothing else.
    pub open spec fn is_written(self) -> bool {
        encode_items(N as nat, zero_cells(N as nat), 0, items_only(self.listing())) matches Ok(bits)
            && self.bits() == padded(bits)
    }

    /// Why the file cannot be read to its end, if it cannot.
    pub open spec fn read_error(self) -> Option<ArraysError> {
        read_all(self.bits(), start_state(N as nat)).1
    }
}

/// What was read of a list: arrays, and the error that ended the reading, if one did.
pub struct Scan<const N: usize> {
    /// The arrays, in order.
    pub items: Vec<[usize; N]>,
    /// The error that was met after them.
    pub error: Option<ArraysError>,
}

impl<const N: usize> View for Scan<N> {
    type V = (Seq<Seq<usize>>, Option<ArraysError>);

    open spec fn view(&self) -> Self::V {
        (item_views(self.items@), self.error)
    }
}

/// Reading a list that was written gives back the same arrays in the same order, each frame at the
/// position where it was written, and no error.
pub proof fn lemma_written_is_read_back(n: nat, items: Seq<Seq<usize>>)
    requires
        forall|i: int| 0 <= i < items.len() ==> (#[trigger] items[i]).len() == n,
        encode_items(n, zero_cells(n), 0, items) is Ok,
    ensures
        ({
            let bits = padded(encode_items(n, zero_cells(n), 0, items)->Ok_0);
            let read = read_all(bits, start_state(n));
            &&& read == (listing(zero_cells(n), 0, items, 0, true), None::<ArraysError>)
            &&& items_only(read.0) == items
        }),
{
    let code = encode_items(n, zero_cells(n), 0, items)->Ok_0;
    let pad = crate::bits::zero_bits((padded_len(code.len()) - code.len()) as nat);
    assert(Seq::<bool>::empty() + code + pad =~= padded(code));
    lemma_read_back(Seq::empty(), n, zero_cells(n), 0, items, pad, true);
    lemma_listing_items(zero_cells(n), 0, items, 0, true);
}

proof fn lemma_lex_irreflexive(a: Seq<usize>)
    ensures
        !lex_lt(a, a),
    decreases a.len(),
{
    if a.len() > 0 {
        lemma_lex_irreflexive(a.drop_first());
    }
}

proof fn lemma_lex_not_below_zero(a: Seq<usize>)
    ensures
        !lex_lt(a, zero_cells(a.len())),
    decreases a.len(),
{
    if a.len() > 0 {
        lemma_lex_not_below_zero(a.drop_first());
        assert(zero_cells(a.len()).drop_first() =~= zero_cells((a.len() - 1) as nat));
    }
}

/// The order on arrays is transitive: what is not before `b` is not before anything that `b` is
/// not before.
pub proof fn lemma_lex_transitive(a: Seq<usize>, b: Seq<usize>, c: Seq<usize>)
    requires
        a.len() == b.len() == c.len(),
        !lex_lt(b, a),
        !lex_lt(c, b),
    ensures
        !lex_lt(c, a),
    decreases a.len(),
{
    if a.len() > 0 && a[0] == b[0] && b[0] == c[0] {
        lemma_lex_transitive(a.drop_first(), b.drop_first(), c.drop_first());
    }
}

/// Whether each array of a list comes no earlier than those before it.
pub open spec fn is_sorted(items: Seq<Seq<usize>>) -> bool {
    forall|i: int, j: int| 0 <= i <= j < items.len() ==> !lex_lt(items[j], items[i])
}

/// The arrays that are read are sorted, and have the length of the one before them.
pub proof fn lemma_read_all_sorted(bits: Seq<bool>, state: ReadState)
    ensures
        is_sorted(items_only(read_all(bits, state).0)),
        forall|i: int|
            0 <= i < read_all(bits, state).0.len() ==> {
                &&& (#[trigger] read_all(bits, state).0[i]).1.len() == state.prev.len()
                &&& !lex_lt(read_all(bits, state).0[i].1, state.prev)
            },
    decreases bits.len() - state.pos,
{
    lemma_read_step_advances(bits, state);
    match read_step(bits, state) {
        ReadStep::Item(position, item, next) => {
            lemma_read_all_sorted(bits, next);
            let rest = read_all(bits, next).0;
            let all = read_all(bits, state).0;
            let items = items_only(all);
            assert(all == seq![(position, item)] + rest);
            assert forall|i: int| 0 <= i < all.len() implies {
                &&& (#[trigger] all[i]).1.len() == state.prev.len()
                &&& !lex_lt(all[i].1, state.prev)
            } by {
                if i > 0 {
                    assert(all[i] == rest[i - 1]);
                    lemma_lex_transitive(state.prev, item, rest[i - 1].1);
                }
            }
            assert forall|i: int, j: int| 0 <= i <= j < items.len() implies !lex_lt(
                items[j],
                items[i],
            ) by {
                if i == j {
                    lemma_lex_irreflexive(items[i]);
                } else if i == 0 {
                    assert(all[j] == rest[j - 1]);
                } else {
                    assert(items[i] == items_only(rest)[i - 1]);
                    assert(items[j] == items_only(rest)[j - 1]);
                }
            }
        },
        _ => {},
    }
}

/// Whatever a file holds, the arrays that are read of it are sorted.
pub proof fn lemma_listing_sorted<const N: usize>(file: SortedArraysFile<N>)
    ensures
        is_sorted(items_only(file.listing())),
        forall|i: int|
            0 <= i < file.listing().len() ==> (#[trigger] file.listing()[i]).1.len() == N,
{
    lemma_read_all_sorted(file.bits(), start_state(N as nat));
}

/// Where a reader that started at the beginning can stand: before the first array, or after one.
spec fn reachable(state: ReadState) -> bool {
    if state.first {
        state == start_state(state.prev.len())
    } else {
        state.pos > 0
    }
}

proof fn lemma_seek_from(bits: Seq<bool>, state: ReadState, i: int)
    requires
        reachable(state),
        0 <= i < read_all(bits, state).0.len(),
        read_all(bits, state).0[i].0 is Some,
    ensures
        ({
            let (all, error) = read_all(bits, state);
            let pos = all[i].0->Some_0;
            &&& open_at(bits, state.prev.len(), pos) matches Ok(at) && read_all(bits, at) == (
                all.skip(i),
                error,
            )
        }),
    decreases i,
{
    lemma_read_step_advances(bits, state);
    let (all, error) = read_all(bits, state);
    match read_step(bits, state) {
        ReadStep::Item(position, item, next) => {
            let rest = read_all(bits, next).0;
            assert(all == seq![(position, item)] + rest);
            if i == 0 {
                assert(all.skip(0) =~= all);
                if !state.first {
                    let at = open_at(bits, state.prev.len(), state.pos)->Ok_0;
                    lemma_lex_not_below_zero(item);
                    assert(read_step(bits, at) == read_step(bits, state));
                }
            } else {
                assert(all[i] == rest[i - 1]);
                lemma_seek_from(bits, next, i - 1);
                assert(all.skip(i) =~= rest.skip(i - 1));
            }
        },
        _ => {},
    }
}

/// Reading from the position of a frame gives the arrays from that frame on, and nothing else.
pub proof fn lemma_seek<const N: usize>(file: SortedArraysFile<N>, i: int)
    requires
        0 <= i < file.listing().len(),
        file.listing()[i].0 is Some,
    ensures
        open_at(file.bits(), N as nat, file.listing()[i].0->Some_0) matches Ok(state) && read_all(
            file.bits(),
            state,
        ) == (file.listing().skip(i), file.read_error()),
{
    lemma_seek_from(file.bits(), start_state(N as nat), i);
}

proof fn lemma_positions_increase_from(bits: Seq<bool>, state: ReadState)
    requires
        reachable(state),
    ensures
        ({
            let all = read_all(bits, state).0;
            &&& forall|i: int|
                0 <= i < all.len() && (#[trigger] all[i]).0 is Some ==> state.pos
                    <= all[i].0->Some_0 < bits.len()
            &&& forall|i: int, j: int|
                0 <= i < j < all.len() && (#[trigger] all[i]).0 is Some && (#[trigger] all[j]).0
                    is Some ==> all[i].0->Some_0 < all[j].0->Some_0
            &&& all.len() > 0 && state.first ==> all[0].0 == Some(0nat)
        }),
    decreases bits.len() - state.pos,
{
    lemma_read_step_advances(bits, state);
    match read_step(bits, state) {
        ReadStep::Item(position, item, next) => {
            lemma_positions_increase_from(bits, next);
            let rest = read_all(bits, next).0;
            let all = read_all(bits, state).0;
            assert(all == seq![(position, item)] + rest);
            assert forall|i: int| 0 <= i < all.len() && (#[trigger] all[i]).0 is Some implies state.pos
                <= all[i].0->Some_0 < bits.len() by {
                if i > 0 {
                    assert(all[i] == rest[i - 1]);
                }
            }
            assert forall|i: int, j: int|
                0 <= i < j < all.len() && (#[trigger] all[i]).0 is Some && (#[trigger] all[j]).0
                    is Some implies all[i].0->Some_0 < all[j].0->Some_0 by {
                assert(all[j] == rest[j - 1]);
                if i > 0 {
                    assert(all[i] == rest[i - 1]);
                }
            }
        },
        _ => {},
    }
}

/// The first frame of a file is at its beginning, and each frame is after those before it.
pub proof fn lemma_positions_increase<const N: usize>(file: SortedArraysFile<N>)
    ensures
        forall|i: int|
            0 <= i < file.listing().len() && (#[trigger] file.listing()[i]).0 is Some
                ==> file.listing()[i].0->Some_0 < file.bits().len(),
        forall|i: int, j: int|
            0 <= i < j < file.listing().len() && (#[trigger] file.listing()[i]).0 is Some && (
            #[trigger] file.listing()[j]).0 is Some ==> file.listing()[i].0->Some_0
                < file.listing()[j].0->Some_0,
        file.listing().len() > 0 ==> file.listing()[0].0 == Some(0nat),
{
    lemma_positions_increase_from(file.bits(), start_state(N as nat));
}

/// A file of storable arrays that has nothing but them takes a bounded number of bits.
pub proof fn lemma_written_len<const N: usize>(file: SortedArraysFile<N>)
    requires
        file.is_written(),
        forall|i: int|
            0 <= i < file.listing().len() ==> (#[trigger] items_only(file.listing())[i]).len() == N
                && storable(items_only(file.listing())[i]),
    ensures
        file.bits().len() <= file.listing().len() * (127 * N + 1) + N + 64,
{
    lemma_listing_sorted(file);
    lemma_storable_encodes(N as nat, items_only(file.listing()));
}

/// Whether an array can be written wherever it stands in a sorted list: it is not all zeros, and
/// no cell overflows `i64`.
pub open spec fn storable(item: Seq<usize>) -> bool {
    &&& item != zero_cells(item.len())
    &&& forall|i: int| 0 <= i < item.len() ==> #[trigger] item[i] <= i64::MAX
}

/// A list that can be written holds no array of zeros.
pub proof fn lemma_encoded_not_zero(n: nat, prev: Seq<usize>, size: nat, items: Seq<Seq<usize>>)
    requires
        encode_items(n, prev, size, items) is Ok,
    ensures
        forall|i: int|
            0 <= i < items.len() ==> (#[trigger] items[i]) != zero_cells(items[i].len()),
    decreases items.len(),
{
    if items.len() > 0 {
        let rest = items.drop_first();
        lemma_encoded_not_zero(n, items[0], next_frame_size(prev, size, items[0]), rest);
        assert forall|i: int| 0 <= i < items.len() implies (#[trigger] items[i]) != zero_cells(
            items[i].len(),
        ) by {
            if i > 0 {
                assert(items[i] == rest[i - 1]);
            }
        }
    }
}

proof fn lemma_cells_encode(prev: Seq<usize>, item: Seq<usize>, signed: bool, plain: bool)
    requires
        prev.len() == item.len(),
        forall|i: int| 0 <= i < item.len() ==> #[trigger] item[i] <= i64::MAX,
        forall|i: int| 0 <= i < prev.len() ==> #[trigger] prev[i] <= i64::MAX,
        signed || !lex_lt(item, prev),
        plain ==> !signed && prev == zero_cells(item.len()),
    ensures
        encode_cells(prev, item, signed, plain) matches Ok(bits) && bits.len() <= 127 * item.len(),
    decreases item.len(),
{
    if item.len() > 0 {
        let diff = item[0] - prev[0];
        let p = prev.drop_first();
        let q = item.drop_first();
        assert forall|i: int| 0 <= i < q.len() implies #[trigger] q[i] <= i64::MAX by {
            assert(q[i] == item[i + 1]);
        }
        assert forall|i: int| 0 <= i < p.len() implies #[trigger] p[i] <= i64::MAX by {
            assert(p[i] == prev[i + 1]);
        }
        lemma_lex_not_below_zero(q);
        if plain {
            assert(p =~= zero_cells(q.len()));
        }
        lemma_cells_encode(p, q, signed || (diff > 0 && !plain), plain);
        crate::bits::lemma_gamma_code_len(
            if signed {
                crate::bits::zigzag(diff)
            } else {
                diff as nat
            },
        );
    }
}

proof fn lemma_items_encode(n: nat, prev: Seq<usize>, frame_size: nat, items: Seq<Seq<usize>>)
    requires
        prev.len() == n,
        forall|i: int| 0 <= i < prev.len() ==> #[trigger] prev[i] <= i64::MAX,
        forall|i: int|
            0 <= i < items.len() ==> (#[trigger] items[i]).len() == n && storable(items[i]),
        is_sorted(items),
        items.len() > 0 ==> !lex_lt(items[0], prev),
    ensures
        encode_items(n, prev, frame_size, items) matches Ok(bits) && bits.len() <= items.len() * (
        127 * n + 1) + n + 1,
    decreases items.len(),
{
    lemma_end_marker(n);
    if items.len() > 0 {
        let item = items[0];
        assert(item.len() == n && storable(item));
        let rest = items.drop_first();
        let size = next_frame_size(prev, frame_size, item);
        lemma_lex_not_below_zero(item);
        let opens = opens_frame(prev, frame_size, item);
        lemma_cells_encode(base_item(prev, frame_size, item), item, false, opens);
        assert forall|i: int| 0 <= i < rest.len() implies (#[trigger] rest[i]).len() == n
            && storable(rest[i]) by {
            assert(rest[i] == items[i + 1]);
        }
        assert forall|i: int, j: int| 0 <= i <= j < rest.len() implies !lex_lt(
            rest[j],
            rest[i],
        ) by {
            assert(rest[i] == items[i + 1] && rest[j] == items[j + 1]);
        }
        if rest.len() > 0 {
            assert(!lex_lt(items[1], items[0]));
        }
        lemma_items_encode(n, item, size, rest);
        let w = 127 * n + 1;
        assert(items.len() * w == (items.len() - 1) * w + w) by (nonlinear_arith)
            requires
                items.len() >= 1,
        ;
    }
}

/// A sorted list of storable arrays can be written, in a bounded number of bits.
pub proof fn lemma_storable_encodes(n: nat, items: Seq<Seq<usize>>)
    requires
        forall|i: int|
            0 <= i < items.len() ==> (#[trigger] items[i]).len() == n && storable(items[i]),
        is_sorted(items),
    ensures
        encode_items(n, zero_cells(n), 0, items) matches Ok(bits) && bits.len() <= items.len() * (
        127 * n + 1) + n + 1,
{
    if items.len() > 0 {
        assert(items[0].len() == n);
        lemma_lex_not_below_zero(items[0]);
    }
    lemma_items_encode(n, zero_cells(n), 0, items);
}

/// An array comes before another one of the same length if they first differ at a cell that is
/// smaller in it.
pub proof fn lemma_lex_order(a: Seq<usize>, b: Seq<usize>, n: int)
    requires
        a.len() == b.len(),
        0 <= n < a.len(),
        a.take(n) == b.take(n),
        a[n] < b[n],
    ensures
        lex_lt(a, b),
        !lex_lt(b, a),
    decreases n,
{
    if n > 0 {
        let (x, y) = (a.drop_first(), b.drop_first());
        assert(a.take(n)[0] == a[0] && b.take(n)[0] == b[0]);
        assert(x.take(n - 1) =~= a.take(n).drop_first());
        assert(y.take(n - 1) =~= b.take(n).drop_first());
        assert(n < a.len() ==> x[n - 1] == a[n]);
        assert(n < b.len() ==> y[n - 1] == b[n]);
        lemma_lex_order(x, y, n - 1);
    }
}

/// A frame has at least 100 arrays, the last one excepted, and at most 10 000. After 100 arrays, the
/// next one that has another first cell starts another frame.
pub proof fn lemma_frame_sizes(prev: Seq<usize>, frame_size: nat, item: Seq<usize>)
    requires
        frame_size <= 10_000,
    ensures
        starts_frame(prev, frame_size, item) ==> frame_size >= 100,
        frame_size >= 100 && item[0] != prev[0] ==> starts_frame(prev, frame_size, item),
        frame_size == 10_000 ==> starts_frame(prev, frame_size, item),
        frame_size < 10_000 && item[0] == prev[0] ==> !starts_frame(prev, frame_size, item),
        next_frame_size(prev, frame_size, item) <= 10_000,
        next_frame_size(prev, frame_size, item) == if starts_frame(prev, frame_size, item) {
            1
        } else {
            frame_size + 1
        },
{
}

} // verus!
