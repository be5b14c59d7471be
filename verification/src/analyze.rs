//! How many bits the cells of a list of quads would take with other codes.

use crate::arrays::{encode_cells, zero_cells, ArraysError, PositionedItem, SortedArraysFile};
use crate::bits::zigzag;
use dsi_bitstream::dispatch::Codes;
use dsi_bitstream::impls::{BufBitWriter, MemWordWriterVec};
use dsi_bitstream::traits::LE;
use vstd::prelude::*;

verus! {

/// A code for natural numbers.
#[derive(Clone, Copy, Debug, PartialEq, Eq, Structural)]
pub enum Code {
    /// Unary.
    Unary,
    /// Elias γ.
    Gamma,
    /// Elias δ.
    Delta,
    /// Elias ω.
    Omega,
    /// Bytes, the most significant first.
    VByteBe,
    /// Bytes, the least significant first.
    VByteLe,
    /// Boldi–Vigna ζ, with its parameter.
    Zeta(usize),
    /// Streamlined Apostolico–Drovandi π, with its parameter.
    Pi(usize),
}

/// Whether a code has a parameter that it can be used with.
pub open spec fn is_usable(code: Code) -> bool {
    match code {
        Code::Zeta(k) => 1 <= k <= 7,
        Code::Pi(k) => 1 <= k <= 4,
        _ => true,
    }
}

/// The number of bits of a number in a code.
pub uninterp spec fn code_bits(code: Code, value: u64) -> usize;

/// `Codes::write`: the number of bits that are written for a number.
#[verifier::external_body]
pub(crate) fn written_bits(code: Code, value: u64) -> (bits: usize)
    requires
        is_usable(code),
        value < u64::MAX,
    ensures
        bits == code_bits(code, value),
{
    let mut writer = BufBitWriter::<LE, _>::new(MemWordWriterVec::new(Vec::<u64>::new()));
    let outside = match code {
        Code::Unary => Codes::Unary,
        Code::Gamma => Codes::Gamma,
        Code::Delta => Codes::Delta,
        Code::Omega => Codes::Omega,
        Code::VByteBe => Codes::VByteBe,
        Code::VByteLe => Codes::VByteLe,
        Code::Zeta(k) => Codes::Zeta(k),
        Code::Pi(k) => Codes::Pi(k),
    };
    outside.write::<LE, _>(&mut writer, value).unwrap()
}

/// A number that was read: the column of its cell, whether it stands for a signed difference, and
/// the number.
#[derive(Clone, Copy, Debug, PartialEq, Eq, Structural)]
pub struct ReadCell {
    /// The column.
    pub column: usize,
    /// Whether the number stands for a signed difference.
    pub signed: bool,
    /// The number.
    pub value: u64,
}

/// The numbers that the cells of an array are read from, from a column on, `base` being the array
/// it is written as a difference from. `plain` says that the differences are never negative.
pub open spec fn item_cells(
    base: Seq<usize>,
    item: Seq<usize>,
    column: int,
    signed: bool,
    plain: bool,
) -> Option<Seq<ReadCell>>
    decreases 4 - column,
{
    if column >= 4 {
        Some(Seq::empty())
    } else {
        let diff = item[column] - base[column];
        let value = if signed {
            zigzag(diff) as int
        } else {
            diff
        };
        if value < 0 || value >= u64::MAX {
            None
        } else {
            match item_cells(base, item, column + 1, signed || (diff > 0 && !plain), plain) {
                None => None,
                Some(rest) => Some(
                    seq![ReadCell { column: column as usize, signed, value: value as u64 }] + rest,
                ),
            }
        }
    }
}

proof fn lemma_item_cells_len(
    base: Seq<usize>,
    item: Seq<usize>,
    column: int,
    signed: bool,
    plain: bool,
)
    requires
        0 <= column <= 4,
    ensures
        item_cells(base, item, column, signed, plain) matches Some(cells) ==> cells.len() == 4 - column,
    decreases 4 - column,
{
    if column < 4 {
        let diff = item[column] - base[column];
        lemma_item_cells_len(base, item, column + 1, signed || (diff > 0 && !plain), plain);
    }
}

/// Computes the numbers that the cells of an array are read from.
fn push_item_cells(
    cells: &mut Vec<ReadCell>,
    base: [usize; 4],
    item: [usize; 4],
    plain: bool,
) -> (fits: bool)
    ensures
        match item_cells(base@, item@, 0, false, plain) {
            None => !fits,
            Some(more) => fits && final(cells)@ == old(cells)@ + more,
        },
{
    let ghost start = cells@;
    let ghost whole = item_cells(base@, item@, 0, false, plain);
    let mut column: usize = 0;
    let mut signed: bool = false;
    proof {
        match whole {
            Some(more) => {
                assert(start + more == cells@ + more);
            },
            None => {},
        }
    }
    while column < 4
        invariant
            column <= 4,
            whole == item_cells(base@, item@, 0, false, plain),
            match item_cells(base@, item@, column as int, signed, plain) {
                None => whole is None,
                Some(rest) => whole is Some && start + whole->Some_0 == cells@ + rest,
            },
        decreases 4 - column,
    {
        let a: u128 = base[column] as u128;
        let b: u128 = item[column] as u128;
        if !signed && b < a {
            return false;
        }
        let value: u128 = if signed {
            if b >= a {
                2 * (b - a)
            } else {
                2 * (a - b) - 1
            }
        } else {
            b - a
        };
        if value >= u64::MAX as u128 {
            return false;
        }
        let cell = ReadCell { column, signed, value: value as u64 };
        let ghost before = cells@;
        cells.push(cell);
        proof {
            match item_cells(base@, item@, column + 1, signed || (b > a && !plain), plain) {
                Some(more) => {
                    assert(before + (seq![cell] + more) =~= cells@ + more);
                },
                None => {},
            }
        }
        signed = signed || (b > a && !plain);
        column = column + 1;
    }
    assert(cells@ + Seq::<ReadCell>::empty() =~= cells@);
    true
}

/// The numbers that the cells of the array that ends a list are read from.
pub open spec fn end_cells() -> Seq<ReadCell> {
    Seq::new(4, |i: int| ReadCell { column: i as usize, signed: false, value: 0 })
}

/// The numbers that the cells of a list of arrays are read from, `prev` being the array before
/// them.
pub open spec fn listing_cells(prev: Seq<usize>, items: Seq<PositionedItem>) -> Option<
    Seq<ReadCell>,
>
    decreases items.len(),
{
    if items.len() == 0 {
        Some(end_cells())
    } else {
        let base = if items[0].0 is Some {
            zero_cells(4)
        } else {
            prev
        };
        match item_cells(base, items[0].1, 0, false, items[0].0 is Some) {
            None => None,
            Some(cells) => match listing_cells(items[0].1, items.drop_first()) {
                None => None,
                Some(rest) => Some(cells + rest),
            },
        }
    }
}

/// The number of arrays of a list that start a frame, without the first one.
pub open spec fn later_frames(items: Seq<PositionedItem>) -> nat
    decreases items.len(),
{
    if items.len() <= 1 {
        0
    } else {
        later_frames(items.drop_last()) + if items.last().0 is Some {
            1nat
        } else {
            0
        }
    }
}

/// Why the numbers of a list could not be told.
#[derive(Clone, Copy, Debug, PartialEq, Eq, Structural)]
pub enum AnalyzeError {
    /// The list could not be read.
    Arrays(ArraysError),
    /// A number overflows 64 bits.
    Overflow,
}

/// The numbers that a list is read from.
pub struct ReadCells {
    /// The numbers, in order.
    pub cells: Vec<ReadCell>,
    /// The number of arrays.
    pub num_items: usize,
    /// The number of arrays that start a frame, without the first one.
    pub num_later_frames: usize,
}

/// Reads the numbers of a list. A number that overflows comes before an error that is met after
/// it.
#[verifier::rlimit(50)]
pub fn read_cells(file: &SortedArraysFile<4>) -> (res: Result<ReadCells, AnalyzeError>)
    ensures
        match listing_cells(zero_cells(4), file.listing()) {
            None => res is Err && res->Err_0 == AnalyzeError::Overflow,
            Some(cells) => match file.read_error() {
                Some(e) => res is Err && res->Err_0 == AnalyzeError::Arrays(e),
                None => res matches Ok(read) && {
                    &&& read.cells@ == cells
                    &&& read.num_items == file.listing().len()
                    &&& read.num_later_frames == later_frames(file.listing())
                    &&& read.num_later_frames <= read.num_items
                    &&& read.cells@.len() == 4 * read.num_items + 4
                },
            },
        },
{
    let ghost all = file.listing();
    let ghost whole = listing_cells(zero_cells(4), all);
    let mut reader = match file.iter_with_positions(0) {
        Err(e) => {
            return Err(AnalyzeError::Arrays(e));
        },
        Ok(reader) => reader,
    };
    let mut cells: Vec<ReadCell> = Vec::new();
    let mut prev: [usize; 4] = [0, 0, 0, 0];
    let mut num_items: usize = 0;
    let mut num_later_frames: usize = 0;
    let ghost mut done: int = 0;
    proof {
        assert(prev@ =~= zero_cells(4));
        assert(all.skip(0) =~= all);
        assert(reader.remaining().0 =~= all);
        match whole {
            Some(more) => {
                assert(cells@ + more =~= more);
            },
            None => {},
        }
    }
    loop
        invariant
            reader.well_formed(),
            all == file.listing(),
            whole == listing_cells(zero_cells(4), all),
            0 <= done <= all.len(),
            reader.remaining() == (all.skip(done), file.read_error()),
            num_items == done,
            cells@.len() == 4 * done,
            num_later_frames == later_frames(all.take(done)),
            num_later_frames <= num_items,
            match listing_cells(prev@, all.skip(done)) {
                None => whole is None,
                Some(rest) => whole is Some && whole->Some_0 == cells@ + rest,
            },
        ensures
            file.read_error() is None,
            num_items == all.len(),
            num_later_frames == later_frames(all),
            num_later_frames <= num_items,
            cells@.len() == 4 * num_items,
            whole is Some && whole->Some_0 == cells@ + end_cells(),
        decreases all.len() - done,
    {
        match reader.next() {
            Err(e) => {
                return Err(AnalyzeError::Arrays(e));
            },
            Ok(None) => {
                assert(all.take(done) =~= all);
                break;
            },
            Ok(Some((position, item))) => {
                let ghost before = cells@;
                let base: [usize; 4] = if position.is_some() {
                    [0, 0, 0, 0]
                } else {
                    prev
                };
                proof {
                    assert(all.skip(done)[0] == all[done]);
                    assert(all.skip(done).drop_first() =~= all.skip(done + 1));
                    if position is Some {
                        assert(base@ =~= zero_cells(4));
                    }
                    assert(all.take(done + 1).drop_last() =~= all.take(done));
                }
                if !push_item_cells(&mut cells, base, item, position.is_some()) {
                    return Err(AnalyzeError::Overflow);
                }
                let len: usize = cells.len();
                proof {
                    lemma_item_cells_len(base@, item@, 0, false, position is Some);
                    assert(len == 4 * (done + 1));
                    match listing_cells(item@, all.skip(done + 1)) {
                        Some(rest) => {
                            let plain = position is Some;
                            let here = item_cells(base@, item@, 0, false, plain)->Some_0;
                            assert(before + (here + rest) =~= cells@ + rest);
                        },
                        None => {},
                    }
                }
                if num_items > 0 && position.is_some() {
                    num_later_frames = num_later_frames + 1;
                }
                num_items = num_items + 1;
                prev = item;
                proof {
                    done = done + 1;
                }
            },
        }
    }
    let mut column: usize = 0;
    let ghost read = cells@;
    assert(read + end_cells().take(0) =~= read);
    while column < 4
        invariant
            column <= 4,
            cells@ == read + end_cells().take(column as int),
        decreases 4 - column,
    {
        cells.push(ReadCell { column, signed: false, value: 0 });
        assert(cells@ =~= read + end_cells().take(column + 1));
        column = column + 1;
    }
    assert(end_cells().take(4) =~= end_cells());
    Ok(ReadCells { cells, num_items, num_later_frames })
}

/// The number of bits of a number in a code.
pub open spec fn bits_of(code: Code, value: u64) -> nat {
    if code == Code::Unary {
        (value + 1) as nat
    } else {
        code_bits(code, value) as nat
    }
}

/// The number of bits in a code of the numbers of a column, of those that stand for a signed
/// difference or of the others.
pub open spec fn total_bits(cells: Seq<ReadCell>, code: Code, column: int, signed: bool) -> nat
    decreases cells.len(),
{
    if cells.len() == 0 {
        0
    } else {
        let cell = cells.last();
        total_bits(cells.drop_last(), code, column, signed) + if cell.column == column
            && cell.signed == signed {
            bits_of(code, cell.value)
        } else {
            0
        }
    }
}

/// A counter of 64 bits, which starts over when it is full.
pub open spec fn counter(n: nat) -> u64 {
    (n % 0x1_0000_0000_0000_0000) as u64
}

/// The numbers of bits of the columns of a list in a code.
pub struct CodeCounters {
    /// The code.
    pub code: Code,
    /// The bits of signed differences, by column.
    pub i64_bits: [u64; 4],
    /// The bits of other numbers, by column.
    pub u64_bits: [u64; 4],
}

impl CodeCounters {
    /// Whether the counters of a column are those of given numbers.
    pub open spec fn counts_column(self, cells: Seq<ReadCell>, column: int) -> bool {
        &&& self.i64_bits@[column] == counter(total_bits(cells, self.code, column, true))
        &&& self.u64_bits@[column] == counter(total_bits(cells, self.code, column, false))
    }

    /// Whether the counters are those of given numbers.
    pub open spec fn counts(self, cells: Seq<ReadCell>) -> bool {
        forall|column: int| 0 <= column < 4 ==> #[trigger] self.counts_column(cells, column)
    }
}

fn add_to_counter(count: u64, bits: u64) -> (sum: u64)
    ensures
        forall|n: nat| #[trigger] counter(n) == count ==> sum == counter(n + bits as nat),
{
    let sum: u64 = count.wrapping_add(bits);
    proof {
        assert forall|n: nat| #[trigger] counter(n) == count implies sum == counter(
            n + bits as nat,
        ) by {
            vstd::arithmetic::div_mod::lemma_fundamental_div_mod(
                n as int,
                0x1_0000_0000_0000_0000,
            );
            let q = n as int / 0x1_0000_0000_0000_0000;
            let r = n as int % 0x1_0000_0000_0000_0000;
            assert(r == count);
            if count + bits < 0x1_0000_0000_0000_0000 {
                vstd::arithmetic::div_mod::lemma_fundamental_div_mod_converse(
                    n + bits,
                    0x1_0000_0000_0000_0000,
                    q,
                    count + bits,
                );
            } else {
                vstd::arithmetic::div_mod::lemma_fundamental_div_mod_converse(
                    n + bits,
                    0x1_0000_0000_0000_0000,
                    q + 1,
                    count + bits - 0x1_0000_0000_0000_0000,
                );
            }
        }
    }
    sum
}

/// Counts the bits of one more number.
fn count_cell(
    counters: CodeCounters,
    cell: ReadCell,
    bits: u64,
    Ghost(cells): Ghost<Seq<ReadCell>>,
) -> (after: CodeCounters)
    requires
        cell.column < 4,
        bits == bits_of(counters.code, cell.value),
        counters.counts(cells),
    ensures
        after.code == counters.code,
        after.counts(cells.push(cell)),
{
    let mut after = counters;
    let column: usize = cell.column;
    let ghost next = cells.push(cell);
    assert(next.drop_last() =~= cells);
    assert(counters.counts_column(cells, column as int));
    if cell.signed {
        let count: u64 = after.i64_bits[column];
        after.i64_bits[column] = add_to_counter(count, bits);
    } else {
        let count: u64 = after.u64_bits[column];
        after.u64_bits[column] = add_to_counter(count, bits);
    }
    assert forall|c: int| 0 <= c < 4 implies #[trigger] after.counts_column(next, c) by {
        assert(counters.counts_column(cells, c));
    }
    after
}

/// Counts the bits of numbers in a code.
pub fn count_bits(cells: &Vec<ReadCell>, code: Code) -> (counters: CodeCounters)
    requires
        is_usable(code),
        forall|i: int|
            0 <= i < cells@.len() ==> (#[trigger] cells@[i]).column < 4 && cells@[i].value
                < u64::MAX,
    ensures
        counters.code == code,
        counters.counts(cells@),
{
    let mut counters = CodeCounters { code, i64_bits: [0, 0, 0, 0], u64_bits: [0, 0, 0, 0] };
    let mut i: usize = 0;
    while i < cells.len()
        invariant
            is_usable(code),
            forall|i: int|
                0 <= i < cells@.len() ==> (#[trigger] cells@[i]).column < 4 && cells@[i].value
                    < u64::MAX,
            counters.code == code,
            i <= cells@.len(),
            counters.counts(cells@.take(i as int)),
        decreases cells@.len() - i,
    {
        let cell: ReadCell = cells[i];
        let bits: u64 = match code {
            Code::Unary => cell.value + 1,
            _ => written_bits(code, cell.value) as u64,
        };
        assert(cells@.take(i as int).push(cell) =~= cells@.take(i + 1));
        counters = count_cell(counters, cell, bits, Ghost(cells@.take(i as int)));
        i = i + 1;
    }
    assert(cells@.take(i as int) =~= cells@);
    counters
}

/// The codes that are tried.
pub fn tried_codes() -> (codes: Vec<Code>)
    ensures
        codes@ == seq![
            Code::Unary,
            Code::Gamma,
            Code::Delta,
            Code::Omega,
            Code::VByteBe,
            Code::VByteLe,
            Code::Zeta(2),
            Code::Zeta(3),
            Code::Zeta(4),
            Code::Zeta(5),
            Code::Zeta(6),
            Code::Zeta(7),
            Code::Pi(1),
            Code::Pi(2),
            Code::Pi(3),
            Code::Pi(4),
        ],
{
    vec![
        Code::Unary,
        Code::Gamma,
        Code::Delta,
        Code::Omega,
        Code::VByteBe,
        Code::VByteLe,
        Code::Zeta(2),
        Code::Zeta(3),
        Code::Zeta(4),
        Code::Zeta(5),
        Code::Zeta(6),
        Code::Zeta(7),
        Code::Pi(1),
        Code::Pi(2),
        Code::Pi(3),
        Code::Pi(4),
    ]
}

proof fn lemma_item_cells_valid(
    base: Seq<usize>,
    item: Seq<usize>,
    column: int,
    signed: bool,
    plain: bool,
)
    requires
        0 <= column <= 4,
    ensures
        item_cells(base, item, column, signed, plain) matches Some(cells) ==> forall|i: int|
            0 <= i < cells.len() ==> (#[trigger] cells[i]).column < 4 && cells[i].value < u64::MAX,
    decreases 4 - column,
{
    if column < 4 {
        let diff = item[column] - base[column];
        lemma_item_cells_valid(base, item, column + 1, signed || (diff > 0 && !plain), plain);
    }
}

proof fn lemma_listing_cells_valid(prev: Seq<usize>, items: Seq<PositionedItem>)
    ensures
        listing_cells(prev, items) matches Some(cells) ==> forall|i: int|
            0 <= i < cells.len() ==> (#[trigger] cells[i]).column < 4 && cells[i].value < u64::MAX,
    decreases items.len(),
{
    if items.len() > 0 {
        let base = if items[0].0 is Some {
            zero_cells(4)
        } else {
            prev
        };
        lemma_item_cells_valid(base, items[0].1, 0, false, items[0].0 is Some);
        lemma_listing_cells_valid(items[0].1, items.drop_first());
    }
}

/// How lists of quads are coded, and how many bits their numbers would take with several codes.
pub struct QuadCodes {
    /// The number of bits that say that a frame starts, with those of the ends of the lists.
    pub true_newframe_bits: u64,
    /// The number of bits that say that no frame starts.
    pub false_newframe_bits: u64,
    /// The numbers of bits with each code.
    pub counters: Vec<CodeCounters>,
}

/// Whether the bit of the first array says that a frame starts.
pub open spec fn first_newframe(file: SortedArraysFile<4>) -> nat {
    if file.listing().len() > 0 && file.bits()[0] {
        1
    } else {
        0
    }
}

/// Whether counters are those of the codes that are tried.
pub open spec fn are_counters(counters: Seq<CodeCounters>, cells: Seq<ReadCell>) -> bool {
    &&& counters.len() == 16
    &&& forall|i: int| 0 <= i < 16 ==> (#[trigger] counters[i]).counts(cells)
    &&& counters[0].code == Code::Unary
    &&& counters[1].code == Code::Gamma
    &&& counters[2].code == Code::Delta
    &&& counters[3].code == Code::Omega
    &&& counters[4].code == Code::VByteBe
    &&& counters[5].code == Code::VByteLe
    &&& forall|k: int| 2 <= k <= 7 ==> (#[trigger] counters[k + 4]).code == Code::Zeta(k as usize)
    &&& forall|k: int| 1 <= k <= 4 ==> (#[trigger] counters[k + 11]).code == Code::Pi(k as usize)
}

/// The number of bits of a list that say that a frame starts, with that of the end of the list, or
/// of those that say that none does.
pub open spec fn newframe_bits(file: SortedArraysFile<4>, starts: bool) -> nat {
    let starting = later_frames(file.listing()) + first_newframe(file);
    if starts {
        starting + 1
    } else {
        (file.listing().len() - starting) as nat
    }
}

/// The number of such bits of several lists.
pub open spec fn store_newframe_bits(files: Seq<SortedArraysFile<4>>, starts: bool) -> nat
    decreases files.len(),
{
    if files.len() == 0 {
        0
    } else {
        store_newframe_bits(files.drop_last(), starts) + newframe_bits(files.last(), starts)
    }
}

/// The numbers that a list is read from, if it can be read to its end.
pub open spec fn file_cells(file: SortedArraysFile<4>) -> Option<Seq<ReadCell>> {
    match file.read_error() {
        Some(_) => None,
        None => listing_cells(zero_cells(4), file.listing()),
    }
}

/// The numbers that several lists are read from, one list after the other.
pub open spec fn store_cells(files: Seq<SortedArraysFile<4>>) -> Option<Seq<ReadCell>>
    decreases files.len(),
{
    if files.len() == 0 {
        Some(Seq::empty())
    } else {
        match (store_cells(files.drop_last()), file_cells(files.last())) {
            (Some(before), Some(cells)) => Some(before + cells),
            _ => None,
        }
    }
}

/// Whether an error is that of a list that cannot be analyzed.
pub open spec fn file_fails(file: SortedArraysFile<4>, error: AnalyzeError) -> bool {
    match listing_cells(zero_cells(4), file.listing()) {
        None => error == AnalyzeError::Overflow,
        Some(_) => file.read_error() matches Some(e) && error == AnalyzeError::Arrays(e),
    }
}

/// Whether an error is that of the first list that cannot be analyzed.
pub open spec fn analysis_fails(files: Seq<SortedArraysFile<4>>, error: AnalyzeError) -> bool {
    exists|i: int|
        0 <= i < files.len() && store_cells(files.take(i)) is Some && #[trigger] file_fails(
            files[i],
            error,
        )
}

proof fn lemma_store_cells_prefix(files: Seq<SortedArraysFile<4>>, n: int)
    requires
        0 <= n <= files.len(),
        store_cells(files.take(n)) is None,
    ensures
        store_cells(files) is None,
    decreases files.len() - n,
{
    if n == files.len() {
        assert(files.take(n) =~= files);
    } else {
        assert(files.take(n + 1).drop_last() =~= files.take(n));
        lemma_store_cells_prefix(files, n + 1);
    }
}

/// Whether the first bit of a list of arrays says that a frame starts.
fn starts_with_newframe(file: &SortedArraysFile<4>, num_items: usize) -> (first: usize)
    requires
        num_items == file.listing().len(),
    ensures
        first == first_newframe(*file),
{
    let bytes = file.as_bytes();
    proof {
        vstd::arithmetic::power2::lemma2_to64();
    }
    let first: usize = if num_items > 0 && bytes.len() > 0 && bytes[0] % 2 == 1 {
        1
    } else {
        0
    };
    proof {
        if file.listing().len() > 0 {
            assert(file.bits().len() > 0);
            assert(file.bits()[0] == crate::bits::byte_bit(bytes@[0], 0));
            assert(crate::bits::byte_bit(bytes@[0], 0) == (bytes@[0] % 2 == 1)) by {
                assert(vstd::arithmetic::power2::pow2(0) == 1);
                let byte = bytes@[0] as int;
                assert(byte / 1 == byte) by (nonlinear_arith);
            }
        }
    }
    first
}

/// Counts the bits that the numbers of the lists of a quad store would take with each of several
/// codes.
#[verifier::rlimit(50)]
pub fn analyze_quad_store_codes(files: &Vec<SortedArraysFile<4>>) -> (res: Result<
    QuadCodes,
    AnalyzeError,
>)
    ensures
        match store_cells(files@) {
            None => res is Err && analysis_fails(files@, res->Err_0),
            Some(cells) => res matches Ok(codes) && {
                &&& codes.true_newframe_bits == counter(store_newframe_bits(files@, true))
                &&& codes.false_newframe_bits == counter(store_newframe_bits(files@, false))
                &&& are_counters(codes.counters@, cells)
            },
        },
{
    let mut cells: Vec<ReadCell> = Vec::new();
    let mut starting: u64 = 0;
    let mut others: u64 = 0;
    let mut f: usize = 0;
    assert(files@.take(0) =~= Seq::empty());
    while f < files.len()
        invariant
            f <= files@.len(),
            store_cells(files@.take(f as int)) == Some(cells@),
            starting == counter(store_newframe_bits(files@.take(f as int), true)),
            others == counter(store_newframe_bits(files@.take(f as int), false)),
            forall|j: int|
                0 <= j < cells@.len() ==> (#[trigger] cells@[j]).column < 4 && cells@[j].value
                    < u64::MAX,
        decreases files@.len() - f,
    {
        let file = &files[f];
        let ghost before = cells@;
        proof {
            let next = files@.take(f + 1);
            assert(next.drop_last() =~= files@.take(f as int));
            assert(next.last() == *file);
            if file_cells(*file) is None {
                lemma_store_cells_prefix(files@, f + 1);
            }
            lemma_listing_cells_valid(zero_cells(4), file.listing());
            lemma_later_frames(file.listing());
        }
        let mut read: ReadCells = match read_cells(file) {
            Err(e) => {
                assert(file_fails(files@[f as int], e));
                return Err(e);
            },
            Ok(read) => read,
        };
        let first: usize = starts_with_newframe(file, read.num_items);
        assert(read.cells.len() == 4 * read.num_items + 4);
        let num_starting: usize = read.num_later_frames + first;
        starting = add_to_counter(starting, num_starting as u64 + 1);
        others = add_to_counter(others, (read.num_items - num_starting) as u64);
        cells.append(&mut read.cells);
        assert(cells@ =~= before + file_cells(*file)->Some_0);
        f = f + 1;
    }
    assert(files@.take(f as int) =~= files@);
    let codes: Vec<Code> = tried_codes();
    let mut counters: Vec<CodeCounters> = Vec::new();
    let mut i: usize = 0;
    while i < codes.len()
        invariant
            i <= codes@.len(),
            forall|j: int| 0 <= j < codes@.len() ==> is_usable(#[trigger] codes@[j]),
            forall|j: int|
                0 <= j < cells@.len() ==> (#[trigger] cells@[j]).column < 4 && cells@[j].value
                    < u64::MAX,
            counters@.len() == i,
            forall|j: int|
                0 <= j < i ==> (#[trigger] counters@[j]).counts(cells@) && counters@[j].code
                    == codes@[j],
        decreases codes@.len() - i,
    {
        counters.push(count_bits(&cells, codes[i]));
        i = i + 1;
    }
    Ok(QuadCodes { true_newframe_bits: starting, false_newframe_bits: others, counters })
}

proof fn lemma_later_frames(items: Seq<PositionedItem>)
    ensures
        later_frames(items) <= items.len(),
        items.len() > 0 ==> later_frames(items) < items.len(),
    decreases items.len(),
{
    if items.len() > 1 {
        lemma_later_frames(items.drop_last());
    }
}

/// Whether a cell of an array is written as a signed difference: some cell before it is larger than
/// that of the array it is written as a difference from, which is not one of zeros.
pub open spec fn is_signed(base: Seq<usize>, item: Seq<usize>, column: int, plain: bool) -> bool {
    !plain && exists|k: int| 0 <= k < column && #[trigger] item[k] > base[k]
}

/// The number that a cell of an array is read from: its difference, or, if that is signed, twice its
/// difference, or one less than twice its opposite.
pub open spec fn cell_number(base: Seq<usize>, item: Seq<usize>, column: int, plain: bool) -> int {
    let diff = item[column] - base[column];
    if !is_signed(base, item, column, plain) {
        diff
    } else if diff >= 0 {
        2 * diff
    } else {
        -2 * diff - 1
    }
}

proof fn lemma_signed_step(base: Seq<usize>, item: Seq<usize>, column: int, plain: bool)
    requires
        0 <= column,
    ensures
        is_signed(base, item, column + 1, plain) == (is_signed(base, item, column, plain) || (
        item[column] > base[column] && !plain)),
{
    if is_signed(base, item, column, plain) {
        let k = choose|k: int| 0 <= k < column && #[trigger] item[k] > base[k];
        assert(item[k] > base[k]);
    }
}

proof fn lemma_cells_from(base: Seq<usize>, item: Seq<usize>, column: int, plain: bool)
    requires
        0 <= column <= 4,
    ensures
        ({
            let cells = item_cells(
                base,
                item,
                column,
                is_signed(base, item, column, plain),
                plain,
            );
            &&& cells is Some <==> forall|c: int|
                column <= c < 4 ==> 0 <= #[trigger] cell_number(base, item, c, plain) < u64::MAX
            &&& cells matches Some(cells) ==> cells.len() == 4 - column && forall|c: int|
                column <= c < 4 ==> cells[c - column] == (ReadCell {
                    column: c as usize,
                    signed: is_signed(base, item, c, plain),
                    value: #[trigger] cell_number(base, item, c, plain) as u64,
                })
        }),
    decreases 4 - column,
{
    if column < 4 {
        lemma_cells_from(base, item, column + 1, plain);
        lemma_signed_step(base, item, column, plain);
        let signed = is_signed(base, item, column, plain);
        let cells = item_cells(base, item, column, signed, plain);
        let more = item_cells(
            base,
            item,
            column + 1,
            is_signed(base, item, column + 1, plain),
            plain,
        );
        let number = cell_number(base, item, column, plain);
        let here = ReadCell { column: column as usize, signed, value: number as u64 };
        if 0 <= number < u64::MAX && more is Some {
            assert(cells == Some(seq![here] + more->Some_0));
            assert forall|c: int| column <= c < 4 implies cells->Some_0[c - column] == (ReadCell {
                column: c as usize,
                signed: is_signed(base, item, c, plain),
                value: #[trigger] cell_number(base, item, c, plain) as u64,
            }) by {
                if c > column {
                    assert(cells->Some_0[c - column] == more->Some_0[c - (column + 1)]);
                }
            }
            assert forall|c: int| column <= c < 4 implies 0 <= #[trigger] cell_number(
                base,
                item,
                c,
                plain,
            ) < u64::MAX by {
                if c > column {
                    assert(column + 1 <= c < 4);
                }
            }
        } else {
            assert(cells is None);
            if more is None {
                let c = choose|c: int|
                    column + 1 <= c < 4 && !(0 <= #[trigger] cell_number(base, item, c, plain)
                        < u64::MAX);
                assert(!(0 <= cell_number(base, item, c, plain) < u64::MAX));
            }
        }
    }
}

/// The numbers that the cells of an array are read from, one for each column, in order.
pub proof fn lemma_item_cells(base: Seq<usize>, item: Seq<usize>, plain: bool)
    ensures
        ({
            let cells = item_cells(base, item, 0, false, plain);
            &&& cells is Some <==> forall|c: int|
                0 <= c < 4 ==> 0 <= #[trigger] cell_number(base, item, c, plain) < u64::MAX
            &&& cells matches Some(cells) ==> cells.len() == 4 && forall|c: int|
                0 <= c < 4 ==> cells[c] == (ReadCell {
                    column: c as usize,
                    signed: is_signed(base, item, c, plain),
                    value: #[trigger] cell_number(base, item, c, plain) as u64,
                })
        }),
{
    assert(!is_signed(base, item, 0, plain));
    lemma_cells_from(base, item, 0, plain);
}

/// The numbers of a list are those of its arrays, in order, and four zeros for its end. An array
/// that starts a frame is written as a difference from zeros, and any other one from the array
/// before it.
pub proof fn lemma_listing_cells(prev: Seq<usize>, items: Seq<PositionedItem>, i: int)
    requires
        listing_cells(prev, items) is Some,
        0 <= i < items.len(),
    ensures
        ({
            let cells = listing_cells(prev, items)->Some_0;
            let base = if items[i].0 is Some {
                zero_cells(4)
            } else if i == 0 {
                prev
            } else {
                items[i - 1].1
            };
            &&& cells.len() == 4 * items.len() + 4
            &&& item_cells(base, items[i].1, 0, false, items[i].0 is Some) == Some(
                cells.subrange(4 * i, 4 * i + 4),
            )
            &&& forall|c: int|
                0 <= c < 4 ==> (#[trigger] cells.skip(4 * items.len() as int)[c]) == (ReadCell {
                    column: c as usize,
                    signed: false,
                    value: 0,
                })
        }),
    decreases items.len(),
{
    let cells = listing_cells(prev, items)->Some_0;
    let rest = items.drop_first();
    let first_base = if items[0].0 is Some {
        zero_cells(4)
    } else {
        prev
    };
    let first = item_cells(first_base, items[0].1, 0, false, items[0].0 is Some)->Some_0;
    let more = listing_cells(items[0].1, rest)->Some_0;
    lemma_item_cells(first_base, items[0].1, items[0].0 is Some);
    assert(cells == first + more);
    if rest.len() > 0 {
        let k = if i > 0 {
            i - 1
        } else {
            0
        };
        lemma_listing_cells(items[0].1, rest, k);
        assert(cells.skip(4 * items.len() as int) =~= more.skip(4 * rest.len() as int));
        if i > 0 {
            assert(rest[k] == items[i]);
            if k > 0 {
                assert(rest[k - 1] == items[i - 1]);
            }
            assert(cells.subrange(4 * i, 4 * i + 4) =~= more.subrange(4 * k, 4 * k + 4));
        }
    } else {
        assert(more == end_cells());
        assert(cells.skip(4) =~= end_cells());
    }
    if i == 0 {
        assert(cells.subrange(0, 4) =~= first);
    }
}

/// The bits of numbers are those of the first ones and of the others, wherever their list is cut,
/// and those of a single number are counted in its column, with the numbers that are signed if it
/// is, and with the others if not.
pub proof fn lemma_total_bits(
    a: Seq<ReadCell>,
    b: Seq<ReadCell>,
    cell: ReadCell,
    code: Code,
    column: int,
    signed: bool,
)
    ensures
        total_bits(a + b, code, column, signed) == total_bits(a, code, column, signed) + total_bits(
            b,
            code,
            column,
            signed,
        ),
        total_bits(seq![cell], code, column, signed) == if cell.column == column && cell.signed
            == signed {
            if code == Code::Unary {
                (cell.value + 1) as nat
            } else {
                code_bits(code, cell.value) as nat
            }
        } else {
            0
        },
    decreases b.len(),
{
    let one = seq![cell];
    assert(one.drop_last() =~= Seq::empty());
    assert(total_bits(one.drop_last(), code, column, signed) == 0);
    assert(one.last() == cell);
    if b.len() == 0 {
        assert(a + b =~= a);
    } else {
        lemma_total_bits(a, b.drop_last(), cell, code, column, signed);
        assert((a + b).drop_last() =~= a + b.drop_last());
        assert((a + b).last() == b.last());
    }
}

/// The numbers of lists are those of the first ones and then those of the others.
pub proof fn lemma_store_cells(
    a: Seq<SortedArraysFile<4>>,
    b: Seq<SortedArraysFile<4>>,
    file: SortedArraysFile<4>,
)
    ensures
        store_cells(a + b) is Some <==> store_cells(a) is Some && store_cells(b) is Some,
        store_cells(a + b) matches Some(cells) ==> cells == store_cells(a)->Some_0 + store_cells(
            b,
        )->Some_0,
        file.read_error() is None ==> store_cells(seq![file]) == listing_cells(
            zero_cells(4),
            file.listing(),
        ),
        file.read_error() is Some ==> store_cells(seq![file]) is None,
    decreases b.len(),
{
    let one = seq![file];
    assert(one.drop_last() =~= Seq::empty());
    assert(store_cells(one.drop_last()) == Some(Seq::<ReadCell>::empty()));
    assert(one.last() == file);
    if listing_cells(zero_cells(4), file.listing()) is Some {
        let cells = listing_cells(zero_cells(4), file.listing())->Some_0;
        assert(Seq::<ReadCell>::empty() + cells =~= cells);
    }
    if b.len() == 0 {
        assert(a + b =~= a);
        if store_cells(a) is Some {
            assert(store_cells(a)->Some_0 + Seq::<ReadCell>::empty() =~= store_cells(a)->Some_0);
        }
    } else {
        lemma_store_cells(a, b.drop_last(), file);
        assert((a + b).drop_last() =~= a + b.drop_last());
        assert((a + b).last() == b.last());
        if store_cells(a + b) is Some {
            let x = store_cells(a)->Some_0;
            let y = store_cells(b.drop_last())->Some_0;
            let z = file_cells(b.last())->Some_0;
            assert(x + y + z =~= x + (y + z));
        }
    }
}

/// The number of arrays of several lists.
pub open spec fn num_arrays(files: Seq<SortedArraysFile<4>>) -> nat
    decreases files.len(),
{
    if files.len() == 0 {
        0
    } else {
        num_arrays(files.drop_last()) + files.last().listing().len()
    }
}

/// There is one bit that says whether a frame starts for each array, and one for the end of each
/// list, which says so. In a list, of the arrays after the first one, it does so for those that
/// start a frame.
pub proof fn lemma_newframe_bits(files: Seq<SortedArraysFile<4>>)
    ensures
        store_newframe_bits(files, true) + store_newframe_bits(files, false) == num_arrays(files)
            + files.len(),
        store_newframe_bits(files, true) >= files.len(),
    decreases files.len(),
{
    if files.len() > 0 {
        lemma_newframe_bits(files.drop_last());
        lemma_later_frames(files.last().listing());
    }
}

/// The arrays that start a frame, without the first one, are counted one by one.
pub proof fn lemma_later_frames_push(items: Seq<PositionedItem>, item: PositionedItem)
    ensures
        later_frames(items.push(item)) == if items.len() > 0 && item.0 is Some {
            later_frames(items) + 1
        } else {
            later_frames(items)
        },
{
    assert(items.push(item).drop_last() =~= items);
    assert(items.push(item).last() == item);
}

/// The γ codes of numbers, one after the other.
pub open spec fn gamma_codes(cells: Seq<ReadCell>) -> Seq<bool>
    decreases cells.len(),
{
    if cells.len() == 0 {
        Seq::empty()
    } else {
        crate::bits::gamma_code(cells[0].value as nat) + gamma_codes(cells.drop_first())
    }
}

proof fn lemma_codes_from(
    base: Seq<usize>,
    item: Seq<usize>,
    column: int,
    signed: bool,
    plain: bool,
)
    requires
        base.len() == 4,
        item.len() == 4,
        0 <= column <= 4,
        encode_cells(base.skip(column), item.skip(column), signed, plain) is Ok,
        item_cells(base, item, column, signed, plain) is Some,
    ensures
        encode_cells(base.skip(column), item.skip(column), signed, plain)->Ok_0 == gamma_codes(
            item_cells(base, item, column, signed, plain)->Some_0,
        ),
    decreases 4 - column,
{
    let (x, y) = (base.skip(column), item.skip(column));
    if column < 4 {
        let diff = item[column] - base[column];
        let next = signed || (diff > 0 && !plain);
        assert(x[0] == base[column] && y[0] == item[column]);
        assert(x.drop_first() =~= base.skip(column + 1));
        assert(y.drop_first() =~= item.skip(column + 1));
        lemma_codes_from(base, item, column + 1, next, plain);
        let cells = item_cells(base, item, column, signed, plain)->Some_0;
        let rest = item_cells(base, item, column + 1, next, plain)->Some_0;
        assert(cells.drop_first() =~= rest);
    }
}

/// The numbers that an array is said to be read from are those whose γ codes it is written as, in
/// order.
pub proof fn lemma_cells_written(base: Seq<usize>, item: Seq<usize>, plain: bool)
    requires
        base.len() == 4,
        item.len() == 4,
        encode_cells(base, item, false, plain) is Ok,
        item_cells(base, item, 0, false, plain) is Some,
    ensures
        encode_cells(base, item, false, plain)->Ok_0 == gamma_codes(
            item_cells(base, item, 0, false, plain)->Some_0,
        ),
{
    assert(base.skip(0) =~= base);
    assert(item.skip(0) =~= item);
    lemma_codes_from(base, item, 0, false, plain);
}

} // verus!
