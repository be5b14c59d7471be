//! A sorter of quads that keeps what it was given in partitions, by ranges of their first terms:
//! a buffer of packed integers, and sorted runs in the compact format.

use crate::arrays::{
    array_lt, encode_items, is_sorted, item_views, items_only, lemma_storable_encodes,
    lemma_written_is_read_back, lex_lt, storable, zero_cells, ArraysError, SortedArraysFile,
};
use crate::radix::radix_sort;
use itertools::Itertools;
use sux::bits::BitFieldVec;
use value_traits::slices::SliceByValue;
use vstd::arithmetic::power2::pow2;
use vstd::multiset::Multiset;
use vstd::prelude::*;

verus! {

/// A vector of integers that are packed in a fixed number of bits each.
#[verifier::external_body]
pub struct PackedVec {
    inner: BitFieldVec<usize>,
}

/// The integers of a packed vector.
pub uninterp spec fn packed_values(packed: PackedVec) -> Seq<usize>;

/// The number of bits of each integer of a packed vector.
pub uninterp spec fn packed_width(packed: PackedVec) -> nat;

/// `BitFieldVec::new` with no element.
#[verifier::external_body]
pub(crate) fn new_packed(width: usize) -> (packed: PackedVec)
    requires
        width <= usize::BITS,
    ensures
        packed_values(packed) == Seq::<usize>::empty(),
        packed_width(packed) == width,
{
    PackedVec { inner: BitFieldVec::new(width, 0) }
}

/// `BitFieldVec::push`: appends an integer that fits in the width. The number of bits must not
/// overflow.
#[verifier::external_body]
pub(crate) fn packed_push(packed: &mut PackedVec, value: usize)
    requires
        value < pow2(packed_width(*old(packed))),
        (packed_values(*old(packed)).len() + 1) * packed_width(*old(packed)) <= usize::MAX,
        packed_values(*old(packed)).len() < usize::MAX,
    ensures
        packed_values(*final(packed)) == packed_values(*old(packed)).push(value),
        packed_width(*final(packed)) == packed_width(*old(packed)),
{
    packed.inner.push(value);
}

/// `SliceByValue::len` on `BitFieldVec`: the number of integers.
#[verifier::external_body]
pub(crate) fn packed_len(packed: &PackedVec) -> (len: usize)
    ensures
        len == packed_values(*packed).len(),
{
    packed.inner.len()
}

/// `SliceByValue::index_value` on `BitFieldVec`: the integer at an index, which fits in the width.
#[verifier::external_body]
pub(crate) fn packed_get(packed: &PackedVec, index: usize) -> (value: usize)
    requires
        index < packed_values(*packed).len(),
    ensures
        value == packed_values(*packed)[index as int],
        value < pow2(packed_width(*packed)),
{
    packed.inner.index_value(index)
}

/// `BitFieldVec::clear`: removes all the integers.
#[verifier::external_body]
pub(crate) fn packed_clear(packed: &mut PackedVec)
    ensures
        packed_values(*final(packed)) == Seq::<usize>::empty(),
        packed_width(*final(packed)) == packed_width(*old(packed)),
{
    packed.inner.clear();
}

/// `Itertools::kmerge_by` on sorted lists of quads: all their quads, sorted.
#[verifier::external_body]
pub(crate) fn kmerge_quads<const N: usize>(runs: Vec<Vec<[usize; N]>>) -> (merged: Vec<[usize; N]>)
    requires
        forall|i: int| 0 <= i < runs@.len() ==> is_sorted(item_views((#[trigger] runs@[i])@)),
    ensures
        is_sorted(item_views(merged@)),
        item_views(merged@).to_multiset() == quads_of_lists(runs@),
{
    runs.into_iter().kmerge_by(|a, b| array_lt(a, b)).collect()
}

/// The quads of several lists, together.
pub open spec fn quads_of_lists<const N: usize>(lists: Seq<Vec<[usize; N]>>) -> Multiset<Seq<usize>>
    decreases lists.len(),
{
    if lists.len() == 0 {
        Multiset::empty()
    } else {
        quads_of_lists(lists.drop_last()).add(item_views(lists.last()@).to_multiset())
    }
}

/// The number of bits that it takes to write `value`.
pub open spec fn bit_len(value: nat) -> nat
    decreases value,
{
    if value == 0 {
        0
    } else {
        1 + bit_len(value / 2)
    }
}

/// A number has no more bits than its length in bits.
pub proof fn lemma_bit_len(value: nat)
    ensures
        value < pow2(bit_len(value)),
    decreases value,
{
    vstd::arithmetic::power2::lemma2_to64();
    if value > 0 {
        lemma_bit_len(value / 2);
        vstd::arithmetic::power2::lemma_pow2_unfold(bit_len(value));
    }
}

/// A number below a power of two takes no more bits than the exponent.
pub proof fn lemma_bit_len_bound(value: nat, n: nat)
    requires
        value < pow2(n),
    ensures
        bit_len(value) <= n,
    decreases n,
{
    vstd::arithmetic::power2::lemma2_to64();
    if value > 0 {
        if n == 0 {
            assert(false);
        }
        vstd::arithmetic::power2::lemma_pow2_unfold(n);
        lemma_bit_len_bound(value / 2, (n - 1) as nat);
    }
}

fn bit_width_of(value: usize) -> (width: usize)
    ensures
        width == bit_len(value as nat),
        width <= usize::BITS,
        value < pow2(width as nat),
{
    proof {
        lemma_bit_len(value as nat);
        vstd::arithmetic::power2::lemma2_to64();
        vstd::arithmetic::power2::lemma2_to64_rest();
        assert(value < pow2(usize::BITS as nat));
        lemma_bit_len_bound(value as nat, usize::BITS as nat);
    }
    let mut rest: usize = value;
    let mut width: usize = 0;
    while rest > 0
        invariant
            width + bit_len(rest as nat) == bit_len(value as nat),
            bit_len(value as nat) <= usize::BITS,
        decreases rest,
    {
        rest = rest / 2;
        width = width + 1;
    }
    width
}

/// The quads whose terms stand one after the other in a list of cells.
pub open spec fn quads_of_cells(n: nat, cells: Seq<usize>) -> Seq<Seq<usize>> {
    Seq::new(cells.len() / n, |i: int| cells.subrange(n * i, n * i + n))
}

/// The quads of several runs, together.
pub open spec fn quads_of_runs<const N: usize>(runs: Seq<SortedArraysFile<N>>) -> Multiset<Seq<usize>>
    decreases runs.len(),
{
    if runs.len() == 0 {
        Multiset::empty()
    } else {
        quads_of_runs(runs.drop_last()).add(items_only(runs.last().listing()).to_multiset())
    }
}

/// The partition of the quads that start with a term.
pub open spec fn partition_of(max_value: nat, num_partitions: nat, term: nat) -> nat {
    term / (max_value / num_partitions + 1)
}

/// The quads of a smaller term are in the same partition or in an earlier one.
pub proof fn lemma_partition_monotone(max_value: nat, num_partitions: nat, a: nat, b: nat)
    requires
        num_partitions > 0,
        a <= b,
    ensures
        partition_of(max_value, num_partitions, a) <= partition_of(max_value, num_partitions, b),
{
    let size = max_value / num_partitions + 1;
    vstd::arithmetic::div_mod::lemma_div_is_ordered(a as int, b as int, size as int);
}

/// Each partition number is below the number of partitions.
pub proof fn lemma_partition_in_range(max_value: nat, num_partitions: nat, term: nat)
    requires
        num_partitions > 0,
        term <= max_value,
    ensures
        partition_of(max_value, num_partitions, term) < num_partitions,
{
    let size = max_value / num_partitions + 1;
    assert(max_value < size * num_partitions) by (nonlinear_arith)
        requires
            num_partitions > 0,
            size == max_value / num_partitions + 1,
    ;
    assert(term / size < num_partitions) by (nonlinear_arith)
        requires
            term < size * num_partitions,
            size > 0,
    ;
}

/// Arrays of the same length that do not come before each other are the same.
proof fn lemma_lex_same(a: Seq<usize>, b: Seq<usize>)
    requires
        a.len() == b.len(),
        !lex_lt(a, b),
        !lex_lt(b, a),
    ensures
        a == b,
    decreases a.len(),
{
    if a.len() > 0 {
        lemma_lex_same(a.drop_first(), b.drop_first());
        assert(a =~= seq![a[0]] + a.drop_first());
        assert(b =~= seq![b[0]] + b.drop_first());
    } else {
        assert(a =~= b);
    }
}

/// Quads can be sorted in one way only: the sorted list of a partition is always the same.
pub proof fn lemma_sorted_same(a: Seq<Seq<usize>>, b: Seq<Seq<usize>>, n: nat)
    requires
        is_sorted(a),
        is_sorted(b),
        a.to_multiset() == b.to_multiset(),
        forall|i: int| 0 <= i < a.len() ==> (#[trigger] a[i]).len() == n,
    ensures
        a == b,
    decreases a.len(),
{
    vstd::seq_lib::to_multiset_len(a);
    vstd::seq_lib::to_multiset_len(b);
    if a.len() == 0 {
        assert(a =~= b);
    } else {
        vstd::seq_lib::to_multiset_contains(a, a[0]);
        vstd::seq_lib::to_multiset_contains(b, a[0]);
        assert(a.contains(a[0]) && b.contains(a[0]));
        let j = b.index_of(a[0]);
        vstd::seq_lib::to_multiset_contains(b, b[0]);
        vstd::seq_lib::to_multiset_contains(a, b[0]);
        assert(b.contains(b[0]) && a.contains(b[0]));
        let i = a.index_of(b[0]);
        assert(!lex_lt(b[j], b[0]) && !lex_lt(a[i], a[0]));
        lemma_lex_same(a[0], b[0]);
        let x = a.drop_first();
        let y = b.drop_first();
        assert(a.remove(0) =~= x && b.remove(0) =~= y);
        vstd::seq_lib::to_multiset_remove(a, 0);
        vstd::seq_lib::to_multiset_remove(b, 0);
        assert forall|i: int, j: int| 0 <= i <= j < x.len() implies !lex_lt(x[j], x[i]) by {
            assert(x[i] == a[i + 1] && x[j] == a[j + 1]);
        }
        assert forall|i: int, j: int| 0 <= i <= j < y.len() implies !lex_lt(y[j], y[i]) by {
            assert(y[i] == b[i + 1] && y[j] == b[j + 1]);
        }
        lemma_sorted_same(x, y, n);
        assert(a =~= seq![a[0]] + x);
        assert(b =~= seq![b[0]] + y);
    }
}

/// Lists, one after the other.
pub open spec fn joined(lists: Seq<Seq<Seq<usize>>>) -> Seq<Seq<usize>>
    decreases lists.len(),
{
    if lists.len() == 0 {
        Seq::empty()
    } else {
        joined(lists.drop_last()) + lists.last()
    }
}

/// Why quads could not be sorted.
#[derive(Clone, Copy, Debug, PartialEq, Eq, Structural)]
pub enum SorterError {
    /// The first term of a quad is larger than the announced one.
    ValueTooLarge,
    /// The buffer of a partition has too many bits.
    BufferTooLarge,
    /// A run could not be written or read.
    Arrays(ArraysError),
    /// Sorters of different values cannot be merged.
    DifferentMaxValues,
}

/// Whether quads of `n` terms can be written in any order: none is all zeros, and they do not take
/// too many bits.
pub open spec fn all_storable(n: nat, quads: Multiset<Seq<usize>>) -> bool {
    &&& quads.len() * (127 * n + 1) + n + 64 <= u64::MAX
    &&& forall|quad: Seq<usize>| #[trigger]
        quads.count(quad) > 0 ==> quad.len() == n && storable(quad)
}

proof fn lemma_quads_of_runs_push<const N: usize>(runs: Seq<SortedArraysFile<N>>, run: SortedArraysFile<N>)
    ensures
        quads_of_runs(runs.push(run)) == quads_of_runs(runs).add(
            items_only(run.listing()).to_multiset(),
        ),
{
    assert(runs.push(run).drop_last() =~= runs);
}

/// Reads and merges runs.
fn iter_written_quads<const N: usize>(runs: &Vec<SortedArraysFile<N>>) -> (res: Result<Vec<[usize; N]>, SorterError>)
    requires
        forall|i: int| 0 <= i < runs@.len() ==> (#[trigger] runs@[i]).read_error() is None,
    ensures
        res matches Ok(quads) && is_sorted(item_views(quads@)) && item_views(
            quads@,
        ).to_multiset() == quads_of_runs(runs@),
{
    let mut lists: Vec<Vec<[usize; N]>> = Vec::new();
    let mut i: usize = 0;
    assert(runs@.take(0) =~= Seq::empty());
    while i < runs.len()
        invariant
            i <= runs@.len(),
            lists@.len() == i,
            forall|i: int| 0 <= i < runs@.len() ==> (#[trigger] runs@[i]).read_error() is None,
            forall|j: int| 0 <= j < lists@.len() ==> is_sorted(item_views((#[trigger] lists@[j])@)),
            quads_of_lists(lists@) == quads_of_runs(runs@.take(i as int)),
        decreases runs@.len() - i,
    {
        let ghost before = lists@;
        match runs[i].iter() {
            Err(e) => {
                return Err(SorterError::Arrays(e));
            },
            Ok(scan) => {
                assert(runs@[i as int].read_error() is None);
                match scan.error {
                    Some(e) => {
                        return Err(SorterError::Arrays(e));
                    },
                    None => {},
                }
                lists.push(scan.items);
            },
        }
        proof {
            crate::arrays::lemma_listing_sorted(runs@[i as int]);
            assert(lists@.drop_last() =~= before);
            assert(runs@.take(i + 1).drop_last() =~= runs@.take(i as int));
        }
        i = i + 1;
    }
    assert(runs@.take(i as int) =~= runs@);
    Ok(kmerge_quads(lists))
}

proof fn lemma_quads_of_runs_add<const N: usize>(a: Seq<SortedArraysFile<N>>, b: Seq<SortedArraysFile<N>>)
    ensures
        quads_of_runs(a + b) == quads_of_runs(a).add(quads_of_runs(b)),
    decreases b.len(),
{
    if b.len() == 0 {
        assert(a + b =~= a);
        assert(quads_of_runs(a) =~= quads_of_runs(a).add(Multiset::empty()));
    } else {
        lemma_quads_of_runs_add(a, b.drop_last());
        assert((a + b).drop_last() =~= a + b.drop_last());
        assert((a + b).last() == b.last());
        assert(quads_of_runs(a + b) =~= quads_of_runs(a).add(quads_of_runs(b)));
    }
}

proof fn lemma_quads_of_cells_push(n: nat, cells: Seq<usize>, quad: Seq<usize>)
    requires
        n > 0,
        cells.len() % n == 0,
        quad.len() == n,
    ensures
        quads_of_cells(n, cells + quad) == quads_of_cells(n, cells).push(quad),
        (cells + quad).len() % n == 0,
{
    let all = cells + quad;
    let count = cells.len() as int / n as int;
    vstd::arithmetic::div_mod::lemma_fundamental_div_mod(cells.len() as int, n as int);
    assert(n * (count + 1) == n * count + n && (count + 1) * n == n * count + n)
        by (nonlinear_arith);
    vstd::arithmetic::div_mod::lemma_fundamental_div_mod_converse(
        all.len() as int,
        n as int,
        count + 1,
        0,
    );
    assert forall|i: int| 0 <= i < count + 1 implies #[trigger] quads_of_cells(n, all)[i]
        == quads_of_cells(n, cells).push(quad)[i] by {
        if i < count {
            assert(n * i + n <= n * count) by (nonlinear_arith)
                requires
                    i + 1 <= count,
            ;
            assert(0 <= n * i) by (nonlinear_arith)
                requires
                    0 <= i,
            ;
            assert(all.subrange(n * i, n * i + n) =~= cells.subrange(n * i, n * i + n));
        } else {
            assert(all.subrange(n * i, n * i + n) =~= quad);
        }
    }
    assert(quads_of_cells(n, all) =~= quads_of_cells(n, cells).push(quad));
}

proof fn lemma_all_storable_part(
    n: nat,
    part: Multiset<Seq<usize>>,
    rest: Multiset<Seq<usize>>,
)
    requires
        all_storable(n, part.add(rest)),
    ensures
        all_storable(n, part),
{
    assert(part.len() * (127 * n + 1) <= part.add(rest).len() * (127 * n + 1)) by (nonlinear_arith)
        requires
            part.len() <= part.add(rest).len(),
    ;
    assert forall|quad: Seq<usize>| #[trigger] part.count(quad) > 0 implies quad.len() == n
        && storable(quad) by {
        assert(part.add(rest).count(quad) > 0);
    }
}

/// A run of sorted quads holds those quads, and can be written if they are storable.
pub fn write_run<const N: usize>(quads: &Vec<[usize; N]>) -> (res: Result<SortedArraysFile<N>, SorterError>)
    requires
        is_sorted(item_views(quads@)),
    ensures
        res matches Ok(run) ==> run.read_error() is None && items_only(run.listing())
            == item_views(quads@) && !item_views(quads@).contains(zero_cells(N as nat))
            && run.is_written(),
        res matches Err(e) ==> e is Arrays && !all_storable(N as nat, item_views(quads@).to_multiset()),
{
    let ghost items = item_views(quads@);
    proof {
        assert forall|i: int| 0 <= i < items.len() implies (#[trigger] items[i]).len() == N by {}
        if all_storable(N as nat, items.to_multiset()) {
            vstd::seq_lib::to_multiset_len(items);
            assert forall|i: int| 0 <= i < items.len() implies (#[trigger] items[i]).len() == N
                && storable(items[i]) by {
                vstd::seq_lib::to_multiset_contains(items, items[i]);
                assert(items.contains(items[i]));
                assert(items.to_multiset().count(items[i]) > 0);
            }
            lemma_storable_encodes(N as nat, items);
        }
        if encode_items(N as nat, zero_cells(N as nat), 0, items) is Ok {
            lemma_written_is_read_back(N as nat, items);
            crate::arrays::lemma_encoded_not_zero(N as nat, zero_cells(N as nat), 0, items);
        }
    }
    match SortedArraysFile::<N>::create(quads.as_slice()) {
        Err(e) => Err(SorterError::Arrays(e)),
        Ok(run) => Ok(run),
    }
}

/// Reads the quads of a buffer of cells.
fn read_buffer<const N: usize>(buffer: &PackedVec) -> (quads: Vec<[usize; N]>)
    requires
        N > 0,
    ensures
        item_views(quads@) == quads_of_cells(N as nat, packed_values(*buffer)),
        forall|i: int, j: int|
            0 <= i < quads@.len() && 0 <= j < N ==> (#[trigger] quads@[i]@[j]) < pow2(
                packed_width(*buffer),
            ),
{
    let ghost cells = packed_values(*buffer);
    let num_quads: usize = packed_len(buffer) / N;
    let mut quads: Vec<[usize; N]> = Vec::new();
    let mut i: usize = 0;
    proof {
        vstd::arithmetic::div_mod::lemma_fundamental_div_mod(cells.len() as int, N as int);
    }
    while i < num_quads
        invariant
            N > 0,
            i <= num_quads,
            num_quads == cells.len() / N as nat,
            N * num_quads <= cells.len(),
            cells == packed_values(*buffer),
            cells.len() <= usize::MAX,
            quads@.len() == i,
            forall|j: int|
                0 <= j < i ==> (#[trigger] quads@[j])@ == quads_of_cells(N as nat, cells)[j],
            forall|i: int, j: int|
                0 <= i < quads@.len() && 0 <= j < N ==> (#[trigger] quads@[i]@[j]) < pow2(
                    packed_width(*buffer),
                ),
        decreases num_quads - i,
    {
        assert(0 <= N * i && N * i + N <= N * num_quads) by (nonlinear_arith)
            requires
                i + 1 <= num_quads,
        ;
        let start: usize = N * i;
        let mut quad: [usize; N] = [0usize; N];
        let mut j: usize = 0;
        while j < N
            invariant
                j <= N,
                start + N <= cells.len(),
                cells == packed_values(*buffer),
                cells.len() <= usize::MAX,
                forall|k: int|
                    0 <= k < j ==> (#[trigger] quad@[k]) == cells[start + k] && quad@[k] < pow2(
                        packed_width(*buffer),
                    ),
            decreases N - j,
        {
            quad[j] = packed_get(buffer, start + j);
            j = j + 1;
        }
        assert(quad@ =~= cells.subrange(start as int, start + N));
        quads.push(quad);
        i = i + 1;
    }
    assert(item_views(quads@) =~= quads_of_cells(N as nat, cells));
    quads
}

/// Sorts quads: keeps them in partitions, each with a buffer of packed cells and with sorted runs.
pub struct ExternalArraySorter<const N: usize> {
    /// The sorted runs of each partition.
    sorted_files: Vec<Vec<SortedArraysFile<N>>>,
    max_buffer_len: usize,
    current_buffer_len: usize,
    /// The cells of the quads of each partition that are not in a run.
    buffers: Vec<PackedVec>,
    num_partitions: usize,
    max_value: usize,
    bit_width: usize,
    max_num_files_per_partition: usize,
}

impl<const N: usize> ExternalArraySorter<N> {
    /// The largest first term that can be pushed.
    pub closed spec fn max_value(self) -> nat {
        self.max_value as nat
    }

    /// The number of partitions.
    pub closed spec fn num_partitions(self) -> nat {
        self.num_partitions as nat
    }

    /// The quads of a partition that are not in a run.
    pub closed spec fn buffered(self, p: int) -> Multiset<Seq<usize>> {
        quads_of_cells(N as nat, packed_values(self.buffers@[p])).to_multiset()
    }

    /// The quads of the runs of a partition.
    pub closed spec fn written(self, p: int) -> Multiset<Seq<usize>> {
        quads_of_runs(self.sorted_files@[p]@)
    }

    /// The number of runs of a partition.
    pub closed spec fn num_runs(self, p: int) -> nat {
        self.sorted_files@[p]@.len()
    }

    /// The quads of a partition.
    pub open spec fn partition(self, p: int) -> Multiset<Seq<usize>> {
        self.buffered(p).add(self.written(p))
    }

    /// Whether the terms of a quad fit in the buffers.
    pub open spec fn fits(self, quad: Seq<usize>) -> bool {
        forall|i: int| 0 <= i < quad.len() ==> #[trigger] quad[i] < pow2(bit_len(self.max_value()))
    }

    /// The buffers hold whole quads of the right width, the runs can be read, and each quad is in
    /// the partition of its first term.
    pub closed spec fn well_formed(self) -> bool {
        &&& self.shape()
        &&& forall|p: int, quad: Seq<usize>|
            0 <= p < self.num_partitions && #[trigger] self.partition(p).count(quad) > 0 ==> {
                &&& quad.len() == N
                &&& quad[0] <= self.max_value
                &&& partition_of(self.max_value(), self.num_partitions(), quad[0] as nat) == p
            }
    }

    spec fn shape(self) -> bool {
        &&& N > 0
        &&& self.num_partitions > 0
        &&& self.bit_width == bit_len(self.max_value as nat)
        &&& self.bit_width <= usize::BITS
        &&& 0 < self.max_value < usize::MAX
        &&& self.buffers@.len() == self.num_partitions
        &&& self.sorted_files@.len() == self.num_partitions
        &&& forall|p: int|
            0 <= p < self.num_partitions ==> {
                &&& packed_width(#[trigger] self.buffers@[p]) == bit_len(self.max_value as nat)
                &&& packed_values(self.buffers@[p]).len() % N as nat == 0
            }
        &&& forall|p: int, i: int|
            0 <= p < self.num_partitions && 0 <= i < self.sorted_files@[p]@.len() ==> (
            #[trigger] self.sorted_files@[p]@[i]).read_error() is None
    }

    /// Whether another sorter has the same parameters, and the same quads but in partition `p`.
    pub open spec fn same_but(self, other: Self, p: int) -> bool {
        &&& self.max_value() == other.max_value()
        &&& self.num_partitions() == other.num_partitions()
        &&& forall|q: int|
            0 <= q < self.num_partitions() && q != p ==> {
                &&& #[trigger] self.buffered(q) == other.buffered(q)
                &&& self.written(q) == other.written(q)
            }
    }

    /// A sorter of quads with terms up to `max_value`.
    pub fn new(max_value: usize, max_buffer_size: usize, num_partitions: usize) -> (sorter: Self)
        requires
            N > 0,
            0 < max_value < usize::MAX,
            num_partitions > 0,
        ensures
            sorter.well_formed(),
            sorter.max_value() == max_value,
            sorter.num_partitions() == num_partitions,
            forall|p: int|
                0 <= p < num_partitions ==> #[trigger] sorter.partition(p) == Multiset::<
                    Seq<usize>,
                >::empty(),
    {
        let bit_width: usize = bit_width_of(max_value);
        let mut buffers: Vec<PackedVec> = Vec::new();
        let mut sorted_files: Vec<Vec<SortedArraysFile<N>>> = Vec::new();
        let mut p: usize = 0;
        while p < num_partitions
            invariant
                p <= num_partitions,
                bit_width == bit_len(max_value as nat),
                bit_width <= usize::BITS,
                buffers@.len() == p,
                sorted_files@.len() == p,
                forall|q: int|
                    0 <= q < p ==> {
                        &&& packed_width(#[trigger] buffers@[q]) == bit_width
                        &&& packed_values(buffers@[q]).len() == 0
                    },
                forall|q: int| 0 <= q < p ==> (#[trigger] sorted_files@[q])@.len() == 0,
            decreases num_partitions - p,
        {
            buffers.push(new_packed(bit_width));
            sorted_files.push(Vec::new());
            p = p + 1;
        }
        let sorter = ExternalArraySorter {
            sorted_files,
            max_buffer_len: max_buffer_size / bit_width,
            current_buffer_len: 0,
            buffers,
            num_partitions,
            max_value,
            bit_width,
            max_num_files_per_partition: 128,
        };
        proof {
            assert forall|p: int| 0 <= p < num_partitions implies #[trigger] sorter.partition(p)
                == Multiset::<Seq<usize>>::empty() by {
                assert(packed_values(sorter.buffers@[p]).len() == 0);
                assert(sorter.sorted_files@[p]@.len() == 0);
                assert(quads_of_cells(N as nat, packed_values(sorter.buffers@[p])) =~= Seq::empty());
                vstd::seq_lib::to_multiset_len(Seq::<Seq<usize>>::empty());
                assert(sorter.partition(p) =~= Multiset::empty());
            }
            assert(sorter.shape()) by {
                vstd::arithmetic::div_mod::lemma_small_mod(0, N as nat);
                assert forall|p: int| 0 <= p < num_partitions implies {
                    &&& packed_width(#[trigger] sorter.buffers@[p]) == bit_len(max_value as nat)
                    &&& packed_values(sorter.buffers@[p]).len() % N as nat == 0
                } by {
                    assert(packed_values(sorter.buffers@[p]).len() == 0);
                }
                assert forall|p: int, i: int|
                    0 <= p < num_partitions && 0 <= i < sorter.sorted_files@[p]@.len() implies (
                #[trigger] sorter.sorted_files@[p]@[i]).read_error() is None by {
                    assert(sorter.sorted_files@[p]@.len() == 0);
                }
            }
        }
        sorter
    }

    /// The partition of a quad, which depends on its first term only.
    pub fn get_partition(&self, item: [usize; N]) -> (res: Result<usize, SorterError>)
        requires
            self.well_formed(),
        ensures
            if item@[0] > self.max_value() {
                res == Err::<usize, SorterError>(SorterError::ValueTooLarge)
            } else {
                res matches Ok(p) && p == partition_of(
                    self.max_value(),
                    self.num_partitions(),
                    item@[0] as nat,
                ) && p < self.num_partitions()
            },
    {
        if item[0] > self.max_value {
            return Err(SorterError::ValueTooLarge);
        }
        proof {
            lemma_partition_in_range(self.max_value(), self.num_partitions(), item@[0] as nat);
            assert(self.max_value / self.num_partitions <= self.max_value) by (nonlinear_arith)
                requires
                    self.num_partitions > 0,
            ;
        }
        let num_values_per_partition: usize = self.max_value / self.num_partitions + 1;
        Ok(item[0] / num_values_per_partition)
    }

    /// Adds a run to a partition.
    fn write_sorted_quads(&mut self, partition_id: usize, quads: &Vec<[usize; N]>) -> (res: Result<
        (),
        SorterError,
    >)
        requires
            old(self).shape(),
            partition_id < old(self).num_partitions(),
            is_sorted(item_views(quads@)),
        ensures
            final(self).shape(),
            final(self).same_but(*old(self), partition_id as int),
            final(self).buffers@ == old(self).buffers@,
            final(self).max_num_files_per_partition == old(self).max_num_files_per_partition,
            match res {
                Ok(()) => {
                    &&& final(self).written(partition_id as int) == old(self).written(
                        partition_id as int,
                    ).add(item_views(quads@).to_multiset())
                    &&& final(self).num_runs(partition_id as int) == old(self).num_runs(
                        partition_id as int,
                    ) + 1
                },
                Err(e) => {
                    &&& e is Arrays && !all_storable(N as nat, item_views(quads@).to_multiset())
                    &&& *final(self) == *old(self)
                },
            },
    {
        let run: SortedArraysFile<N> = write_run(quads)?;
        let ghost before = self.sorted_files@[partition_id as int]@;
        proof {
            lemma_quads_of_runs_push(before, run);
        }
        self.sorted_files[partition_id].push(run);
        Ok(())
    }

    /// Merges the runs of a partition into a single one. If it cannot be written, the partition has
    /// no run left.
    fn compact_partition(&mut self, partition_id: usize) -> (res: Result<(), SorterError>)
        requires
            old(self).shape(),
            partition_id < old(self).num_partitions(),
        ensures
            final(self).shape(),
            final(self).same_but(*old(self), partition_id as int),
            final(self).buffers@ == old(self).buffers@,
            final(self).max_num_files_per_partition == old(self).max_num_files_per_partition,
            match res {
                Ok(()) => {
                    &&& final(self).num_runs(partition_id as int) == 1
                    &&& final(self).written(partition_id as int) == old(self).written(
                        partition_id as int,
                    )
                },
                Err(e) => {
                    &&& e is Arrays && !all_storable(N as nat, old(self).written(partition_id as int))
                    &&& final(self).num_runs(partition_id as int) == 0
                },
            },
    {
        let ghost start = *self;
        let ghost p = partition_id as int;
        let mut sorted_files: Vec<SortedArraysFile<N>> = Vec::new();
        std::mem::swap(&mut sorted_files, &mut self.sorted_files[partition_id]);
        assert(sorted_files@ == start.sorted_files@[p]@);
        let ghost emptied = *self;
        let merged: Vec<[usize; N]> = iter_written_quads(&sorted_files)?;
        let res = self.write_sorted_quads(partition_id, &merged);
        proof {
            assert(emptied.same_but(start, p));
            Self::lemma_same_but(*self, emptied, start, p);
            if res is Ok {
                assert(emptied.written(p) =~= Multiset::empty());
                assert(self.written(p) =~= start.written(p));
            }
        }
        res
    }

    proof fn lemma_same_but(a: Self, b: Self, c: Self, p: int)
        requires
            a.same_but(b, p),
            b.same_but(c, p),
        ensures
            a.same_but(c, p),
    {
        assert forall|q: int| 0 <= q < a.num_partitions() && q != p implies {
            &&& #[trigger] a.buffered(q) == c.buffered(q)
            &&& a.written(q) == c.written(q)
        } by {
            assert(a.buffered(q) == b.buffered(q));
            assert(b.buffered(q) == c.buffered(q));
        }
    }

    /// Moves the quads of the buffer of a partition to a run.
    fn flush_buffer(&mut self, partition_id: usize) -> (res: Result<(), SorterError>)
        requires
            old(self).shape(),
            partition_id < old(self).num_partitions(),
        ensures
            final(self).shape(),
            final(self).same_but(*old(self), partition_id as int),
            match res {
                Ok(()) => {
                    &&& packed_values(final(self).buffers@[partition_id as int]).len() == 0
                    &&& final(self).partition(partition_id as int) == old(self).partition(
                        partition_id as int,
                    )
                    &&& final(self).num_runs(partition_id as int) == (if packed_values(
                        old(self).buffers@[partition_id as int],
                    ).len() == 0 {
                        old(self).num_runs(partition_id as int)
                    } else if old(self).num_runs(partition_id as int) >= old(
                        self
                    ).max_num_files_per_partition {
                        2
                    } else {
                        old(self).num_runs(partition_id as int) + 1
                    })
                },
                Err(e) => e is Arrays && !all_storable(N as nat, old(self).partition(partition_id as int)),
            },
    {
        let ghost p = partition_id as int;
        let ghost start = *self;
        let ghost buffered = self.buffered(p);
        let ghost written = self.written(p);
        proof {
            if all_storable(N as nat, buffered.add(written)) {
                lemma_all_storable_part(N as nat, buffered, written);
                assert(buffered.add(written) =~= written.add(buffered));
                lemma_all_storable_part(N as nat, written, buffered);
            }
        }
        let len: usize = packed_len(&self.buffers[partition_id]);
        if len == 0 {
            return Ok(());
        }
        if self.sorted_files[partition_id].len() >= self.max_num_files_per_partition {
            self.compact_partition(partition_id)?;
        }
        let ghost compacted = *self;
        let mut quads: Vec<[usize; N]> = read_buffer(&self.buffers[partition_id]);
        radix_sort(&mut quads);
        self.current_buffer_len = if self.current_buffer_len >= len {
            self.current_buffer_len - len
        } else {
            0
        };
        packed_clear(&mut self.buffers[partition_id]);
        let ghost cleared = *self;
        proof {
            vstd::arithmetic::div_mod::lemma_small_mod(0, N as nat);
            assert(quads_of_cells(N as nat, packed_values(cleared.buffers@[p])) =~= Seq::empty());
            vstd::seq_lib::to_multiset_len(Seq::<Seq<usize>>::empty());
            assert(cleared.buffered(p) =~= Multiset::empty());
            assert(cleared.same_but(compacted, p));
            Self::lemma_same_but(cleared, compacted, start, p);
        }
        let res = self.write_sorted_quads(partition_id, &quads);
        proof {
            Self::lemma_same_but(*self, cleared, start, p);
            if res is Ok {
                assert(self.partition(p) =~= start.partition(p));
            }
        }
        res
    }

    /// Whether the buffer of a partition could have too many bits for one more quad.
    pub open spec fn buffer_may_overflow(self, p: int) -> bool {
        (N * self.partition(p).len() + N) * bit_len(self.max_value()) > usize::MAX
    }

    #[verifier::rlimit(50)]
    fn push_to_partition(&mut self, item: [usize; N], partition_id: usize) -> (res: Result<
        (),
        SorterError,
    >)
        requires
            old(self).shape(),
            partition_id < old(self).num_partitions(),
            old(self).fits(item@),
        ensures
            final(self).shape(),
            final(self).same_but(*old(self), partition_id as int),
            match res {
                Ok(()) => final(self).partition(partition_id as int) == old(self).partition(
                    partition_id as int,
                ).insert(item@),
                Err(SorterError::Arrays(_)) => !all_storable(
                    N as nat,
                    old(self).partition(partition_id as int),
                ),
                Err(e) => e is BufferTooLarge && old(self).buffer_may_overflow(partition_id as int)
                    && final(self).partition(partition_id as int) == old(self).partition(
                    partition_id as int,
                ),
            },
    {
        let ghost p = partition_id as int;
        let ghost start = *self;
        if self.current_buffer_len >= self.max_buffer_len {
            // flush the buffer if it is not too small (at least half the average)
            let len: usize = packed_len(&self.buffers[partition_id]);
            assert(len as u128 * self.num_partitions as u128 <= u128::MAX) by (nonlinear_arith)
                requires
                    len <= u64::MAX,
                    self.num_partitions <= u64::MAX,
            ;
            if len as u128 * self.num_partitions as u128 > (self.max_buffer_len / 2) as u128 {
                self.flush_buffer(partition_id)?;
            }
        }
        let ghost flushed = *self;
        let len: usize = packed_len(&self.buffers[partition_id]);
        let ghost cells = packed_values(self.buffers@[p]);
        let ghost width = bit_len(self.max_value());
        assert((len as u128 + N as u128) * self.bit_width as u128 <= u128::MAX) by (nonlinear_arith)
            requires
                len <= u64::MAX,
                N <= u64::MAX,
                self.bit_width <= 64,
        ;
        if (len as u128 + N as u128) * self.bit_width as u128 > usize::MAX as u128 {
            proof {
                vstd::seq_lib::to_multiset_len(quads_of_cells(N as nat, cells));
                let total = self.partition(p).len();
                let count = quads_of_cells(N as nat, cells).len();
                vstd::arithmetic::div_mod::lemma_fundamental_div_mod(len as int, N as int);
                assert(len == N * count);
                assert(N * count <= N * total) by (nonlinear_arith)
                    requires
                        count <= total,
                ;
                assert((N * total + N) * width >= (len + N) * width) by (nonlinear_arith)
                    requires
                        len <= N * total,
                        width >= 0,
                ;
            }
            return Err(SorterError::BufferTooLarge);
        }
        let mut i: usize = 0;
        assert(item@.take(0) =~= Seq::empty());
        assert(cells + item@.take(0) =~= cells);
        while i < N
            invariant
                i <= N,
                p == partition_id,
                item@.len() == N,
                cells.len() == len,
                (len + N) * width <= usize::MAX,
                width == bit_len(self.max_value()),
                width >= 1,
                self.fits(item@),
                partition_id < self.buffers@.len() == flushed.buffers@.len(),
                packed_values(self.buffers@[p]) == cells + item@.take(i as int),
                packed_width(self.buffers@[p]) == width,
                forall|q: int|
                    0 <= q < self.buffers@.len() && q != p ==> #[trigger] self.buffers@[q]
                        == flushed.buffers@[q],
                self.sorted_files == flushed.sorted_files,
                self.max_buffer_len == flushed.max_buffer_len,
                self.num_partitions == flushed.num_partitions,
                self.max_value == flushed.max_value,
                self.bit_width == flushed.bit_width,
                self.max_num_files_per_partition == flushed.max_num_files_per_partition,
                self.current_buffer_len == flushed.current_buffer_len,
            decreases N - i,
        {
            assert((len + i + 1) * width <= (len + N) * width) by (nonlinear_arith)
                requires
                    i < N,
                    width >= 1,
            ;
            assert(len + i < (len + N) * width) by (nonlinear_arith)
                requires
                    i < N,
                    width >= 1,
            ;
            packed_push(&mut self.buffers[partition_id], item[i]);
            i = i + 1;
            assert(packed_values(self.buffers@[p]) =~= cells + item@.take(i as int));
        }
        assert(item@.take(N as int) =~= item@);
        if self.current_buffer_len <= usize::MAX - N {
            self.current_buffer_len = self.current_buffer_len + N;
        }
        proof {
            lemma_quads_of_cells_push(N as nat, cells, item@);
            vstd::seq_lib::to_multiset_build(quads_of_cells(N as nat, cells), item@);
            assert(self.partition(p) =~= start.partition(p).insert(item@));
            assert forall|q: int| 0 <= q < self.num_partitions() && q != p implies {
                &&& #[trigger] self.buffered(q) == start.buffered(q)
                &&& self.written(q) == start.written(q)
            } by {
                assert(self.buffers@[q] == flushed.buffers@[q]);
                assert(flushed.buffered(q) == start.buffered(q));
            }
            assert(self.same_but(start, p));
        }
        Ok(())
    }

    /// Adds a quad to its partition.
    pub fn push(&mut self, item: [usize; N]) -> (res: Result<(), SorterError>)
        requires
            old(self).well_formed(),
            old(self).fits(item@),
        ensures
            ({
                let p = partition_of(
                    old(self).max_value(),
                    old(self).num_partitions(),
                    item@[0] as nat,
                ) as int;
                &&& final(self).max_value() == old(self).max_value()
                &&& final(self).num_partitions() == old(self).num_partitions()
                &&& (item@[0] > old(self).max_value() <==> res == Err::<(), SorterError>(
                    SorterError::ValueTooLarge,
                ))
                &&& res == Err::<(), SorterError>(SorterError::ValueTooLarge) ==> *final(self)
                    == *old(self)
                &&& forall|q: int|
                    0 <= q < final(self).num_partitions() && q != p ==> #[trigger] final(
                        self
                    ).partition(q) == old(self).partition(q)
                &&& res is Ok ==> {
                    &&& final(self).well_formed()
                    &&& final(self).partition(p) == old(self).partition(p).insert(item@)
                }
                &&& res == Err::<(), SorterError>(SorterError::BufferTooLarge) ==> {
                    &&& final(self).well_formed()
                    &&& final(self).partition(p) == old(self).partition(p)
                }
                &&& res matches Err(SorterError::Arrays(_)) ==> !all_storable(
                    N as nat,
                    old(self).partition(p),
                )
                &&& res == Err::<(), SorterError>(SorterError::BufferTooLarge) ==> old(
                    self
                ).buffer_may_overflow(p)
                &&& res != Err::<(), SorterError>(SorterError::DifferentMaxValues)
            }),
    {
        let partition_id: usize = self.get_partition(item)?;
        let ghost start = *self;
        let ghost p = partition_id as int;
        let res = self.push_to_partition(item, partition_id);
        proof {
            assert forall|q: int| 0 <= q < self.num_partitions() && q != p implies #[trigger] self.partition(
                q,
            ) == start.partition(q) by {
                assert(self.buffered(q) == start.buffered(q));
            }
            if !(res matches Err(SorterError::Arrays(_))) {
                assert forall|q: int, quad: Seq<usize>|
                    0 <= q < self.num_partitions && #[trigger] self.partition(q).count(quad)
                        > 0 implies {
                    &&& quad.len() == N
                    &&& quad[0] <= self.max_value
                    &&& partition_of(self.max_value(), self.num_partitions(), quad[0] as nat) == q
                } by {
                    if q == p && res is Ok && quad == item@ {
                    } else {
                        assert(start.partition(q).count(quad) > 0);
                    }
                }
            }
        }
        res
    }

    /// Moves the quads of all the buffers to runs.
    pub fn flush_buffers(&mut self) -> (res: Result<(), SorterError>)
        requires
            old(self).well_formed(),
        ensures
            final(self).max_value() == old(self).max_value(),
            final(self).num_partitions() == old(self).num_partitions(),
            match res {
                Ok(()) => {
                    &&& final(self).well_formed()
                    &&& forall|p: int|
                        0 <= p < final(self).num_partitions() ==> {
                            &&& #[trigger] final(self).partition(p) == old(self).partition(p)
                            &&& final(self).buffered(p) == Multiset::<Seq<usize>>::empty()
                        }
                },
                Err(e) => e is Arrays && exists|p: int|
                    0 <= p < old(self).num_partitions() && !all_storable(
                        N as nat,
                        #[trigger] old(self).partition(p),
                    ),
            },
    {
        let ghost start = *self;
        let mut p: usize = 0;
        while p < self.num_partitions
            invariant
                self.shape(),
                p <= self.num_partitions,
                self.max_value() == start.max_value(),
                self.num_partitions() == start.num_partitions(),
                start == *old(self),
                forall|q: int|
                    0 <= q < self.num_partitions() ==> #[trigger] self.partition(q)
                        == start.partition(q),
                forall|q: int|
                    0 <= q < p ==> #[trigger] self.buffered(q) == Multiset::<Seq<usize>>::empty(),
            decreases self.num_partitions - p,
        {
            let ghost before = *self;
            assert(before.partition(p as int) == start.partition(p as int));
            self.flush_buffer(p)?;
            proof {
                assert(quads_of_cells(N as nat, packed_values(self.buffers@[p as int])) =~= Seq::empty());
                vstd::seq_lib::to_multiset_len(Seq::<Seq<usize>>::empty());
                assert(self.buffered(p as int) =~= Multiset::empty());
                assert forall|q: int| 0 <= q < self.num_partitions() implies #[trigger] self.partition(
                    q,
                ) == start.partition(q) by {
                    assert(before.partition(q) == start.partition(q));
                    if q != p {
                        assert(self.buffered(q) == before.buffered(q));
                    }
                }
                assert forall|q: int| 0 <= q < p + 1 implies #[trigger] self.buffered(q)
                    == Multiset::<Seq<usize>>::empty() by {
                    if q != p {
                        assert(self.buffered(q) == before.buffered(q));
                    }
                }
            }
            p = p + 1;
        }
        proof {
            assert forall|q: int, quad: Seq<usize>|
                0 <= q < self.num_partitions && #[trigger] self.partition(q).count(quad)
                    > 0 implies {
                &&& quad.len() == N
                &&& quad[0] <= self.max_value
                &&& partition_of(self.max_value(), self.num_partitions(), quad[0] as nat) == q
            } by {
                assert(start.partition(q).count(quad) > 0);
            }
        }
        Ok(())
    }

    /// The quads of each partition, sorted.
    pub fn iter_partitions(&mut self) -> (res: Result<Vec<Vec<[usize; N]>>, SorterError>)
        requires
            old(self).well_formed(),
        ensures
            match res {
                Ok(lists) => {
                    &&& final(self).well_formed()
                    &&& final(self).max_value() == old(self).max_value()
                    &&& final(self).num_partitions() == old(self).num_partitions()
                    &&& lists@.len() == old(self).num_partitions()
                    &&& forall|p: int|
                        0 <= p < lists@.len() ==> {
                            &&& is_sorted(item_views((#[trigger] lists@[p])@))
                            &&& item_views(lists@[p]@).to_multiset() == old(self).partition(p)
                            &&& final(self).partition(p) == old(self).partition(p)
                        }
                },
                Err(e) => e is Arrays && exists|p: int|
                    0 <= p < old(self).num_partitions() && !all_storable(
                        N as nat,
                        #[trigger] old(self).partition(p),
                    ),
            },
    {
        let ghost start = *self;
        self.flush_buffers()?;
        let mut lists: Vec<Vec<[usize; N]>> = Vec::new();
        let mut p: usize = 0;
        while p < self.num_partitions
            invariant
                self.well_formed(),
                p <= self.num_partitions,
                self.max_value() == start.max_value(),
                self.num_partitions() == start.num_partitions(),
                start == *old(self),
                lists@.len() == p,
                forall|q: int|
                    0 <= q < self.num_partitions() ==> {
                        &&& #[trigger] self.partition(q) == start.partition(q)
                        &&& self.buffered(q) == Multiset::<Seq<usize>>::empty()
                    },
                forall|q: int|
                    0 <= q < p ==> {
                        &&& is_sorted(item_views((#[trigger] lists@[q])@))
                        &&& item_views(lists@[q]@).to_multiset() == start.partition(q)
                    },
            decreases self.num_partitions - p,
        {
            let list: Vec<[usize; N]> = iter_written_quads(&self.sorted_files[p])?;
            proof {
                assert(self.partition(p as int) == start.partition(p as int));
                assert(self.partition(p as int) =~= self.written(p as int));
            }
            lists.push(list);
            p = p + 1;
        }
        proof {
            assert forall|q: int| 0 <= q < lists@.len() implies {
                &&& is_sorted(item_views((#[trigger] lists@[q])@))
                &&& item_views(lists@[q]@).to_multiset() == start.partition(q)
                &&& self.partition(q) == start.partition(q)
            } by {
                assert(self.partition(q) == start.partition(q));
            }
        }
        Ok(lists)
    }

    /// The quads of the first partitions.
    pub open spec fn quads_up_to(self, n: nat) -> Multiset<Seq<usize>>
        decreases n,
    {
        if n == 0 {
            Multiset::empty()
        } else {
            self.quads_up_to((n - 1) as nat).add(self.partition(n - 1))
        }
    }

    /// All the quads of a sorter.
    pub open spec fn all_quads(self) -> Multiset<Seq<usize>> {
        self.quads_up_to(self.num_partitions())
    }

    /// The partitions together hold all quads that were added: one that is added to its partition
    /// is added to them.
    pub proof fn lemma_all_quads_push(self, after: Self, p: int, quad: Seq<usize>)
        requires
            0 <= p < self.num_partitions(),
            after.num_partitions() == self.num_partitions(),
            after.partition(p) == self.partition(p).insert(quad),
            forall|q: int|
                0 <= q < self.num_partitions() && q != p ==> #[trigger] after.partition(q)
                    == self.partition(q),
        ensures
            after.all_quads() == self.all_quads().insert(quad),
    {
        self.lemma_quads_up_to_push(after, p, quad, self.num_partitions());
    }

    /// The quads of a partition come before those of later partitions.
    pub proof fn lemma_partitions_ordered(self, p: int, a: Seq<usize>, q: int, b: Seq<usize>)
        requires
            self.well_formed(),
            0 <= p < q < self.num_partitions(),
            self.partition(p).count(a) > 0,
            self.partition(q).count(b) > 0,
        ensures
            a[0] < b[0],
    {
        if b[0] <= a[0] {
            lemma_partition_monotone(
                self.max_value(),
                self.num_partitions(),
                b[0] as nat,
                a[0] as nat,
            );
        }
    }

    /// The sorted lists of the partitions, one after the other, are the sorted list of all the
    /// quads.
    pub proof fn lemma_partitions_joined(self, lists: Seq<Seq<Seq<usize>>>)
        requires
            self.well_formed(),
            lists.len() == self.num_partitions(),
            forall|p: int|
                0 <= p < lists.len() ==> {
                    &&& is_sorted(#[trigger] lists[p])
                    &&& lists[p].to_multiset() == self.partition(p)
                },
        ensures
            is_sorted(joined(lists)),
            joined(lists).to_multiset() == self.all_quads(),
    {
        self.lemma_joined(lists, lists.len());
        assert(lists.take(lists.len() as int) =~= lists);
    }

    proof fn lemma_joined(self, lists: Seq<Seq<Seq<usize>>>, n: nat)
        requires
            self.well_formed(),
            n <= lists.len() == self.num_partitions(),
            forall|p: int|
                0 <= p < lists.len() ==> {
                    &&& is_sorted(#[trigger] lists[p])
                    &&& lists[p].to_multiset() == self.partition(p)
                },
        ensures
            is_sorted(joined(lists.take(n as int))),
            joined(lists.take(n as int)).to_multiset() == self.quads_up_to(n),
            forall|i: int|
                0 <= i < joined(lists.take(n as int)).len() ==> exists|p: int|
                    0 <= p < n && self.partition(p).count(
                        #[trigger] joined(lists.take(n as int))[i],
                    ) > 0,
        decreases n,
    {
        let all = joined(lists.take(n as int));
        if n == 0 {
            vstd::seq_lib::to_multiset_len(all);
            assert(all.to_multiset() =~= Multiset::empty());
        } else {
            let m = (n - 1) as nat;
            let last = lists[m as int];
            let before = joined(lists.take(m as int));
            self.lemma_joined(lists, m);
            assert(lists.take(n as int).drop_last() =~= lists.take(m as int));
            assert(all == before + last);
            vstd::seq_lib::lemma_multiset_commutative(before, last);
            assert forall|i: int| 0 <= i < all.len() implies exists|p: int|
                0 <= p < n && self.partition(p).count(#[trigger] all[i]) > 0 by {
                if i < before.len() {
                    assert(all[i] == before[i]);
                    let p = choose|p: int| 0 <= p < m && self.partition(p).count(before[i]) > 0;
                    assert(self.partition(p).count(all[i]) > 0);
                } else {
                    vstd::seq_lib::to_multiset_contains(last, all[i]);
                    assert(last[i - before.len()] == all[i]);
                    assert(self.partition(m as int).count(all[i]) > 0);
                }
            }
            assert forall|i: int, j: int| 0 <= i <= j < all.len() implies !lex_lt(
                all[j],
                all[i],
            ) by {
                if j < before.len() {
                    assert(all[i] == before[i] && all[j] == before[j]);
                } else if i >= before.len() {
                    assert(all[i] == last[i - before.len()] && all[j] == last[j - before.len()]);
                } else {
                    assert(all[i] == before[i]);
                    let p = choose|p: int| 0 <= p < m && self.partition(p).count(before[i]) > 0;
                    vstd::seq_lib::to_multiset_contains(last, all[j]);
                    assert(last[j - before.len()] == all[j]);
                    self.lemma_partitions_ordered(p, all[i], m as int, all[j]);
                    assert(self.partition(m as int).count(all[j]) > 0);
                    assert(self.partition(p).count(all[i]) > 0);
                }
            }
        }
    }

    proof fn lemma_quads_up_to_push(self, after: Self, p: int, quad: Seq<usize>, n: nat)
        requires
            0 <= p < self.num_partitions(),
            n <= self.num_partitions(),
            after.partition(p) == self.partition(p).insert(quad),
            forall|q: int|
                0 <= q < self.num_partitions() && q != p ==> #[trigger] after.partition(q)
                    == self.partition(q),
        ensures
            after.quads_up_to(n) == (if p < n {
                self.quads_up_to(n).insert(quad)
            } else {
                self.quads_up_to(n)
            }),
        decreases n,
    {
        if n > 0 {
            self.lemma_quads_up_to_push(after, p, quad, (n - 1) as nat);
            if p < n - 1 {
                assert(after.partition(n - 1) == self.partition(n - 1));
                assert(after.quads_up_to(n) =~= self.quads_up_to(n).insert(quad));
            } else if p == n - 1 {
                assert(after.quads_up_to(n) =~= self.quads_up_to(n).insert(quad));
            } else {
                assert(after.partition(n - 1) == self.partition(n - 1));
            }
        }
    }

    /// The quads of a partition of two sorters.
    pub open spec fn with_other(self, other: Self, p: int) -> Multiset<Seq<usize>> {
        self.partition(p).add(other.partition(p))
    }

    /// Moves the runs of another sorter to this one.
    fn take_runs(&mut self, other: &mut Self)
        requires
            old(self).shape(),
            old(other).shape(),
            old(self).num_partitions() == old(other).num_partitions(),
        ensures
            final(self).shape(),
            final(self).max_value() == old(self).max_value(),
            final(self).num_partitions() == old(self).num_partitions(),
            final(other).buffers == old(other).buffers,
            forall|p: int|
                0 <= p < old(self).num_partitions() ==> #[trigger] final(self).partition(p)
                    == old(self).partition(p).add(old(other).written(p)),
    {
        let ghost start = *self;
        let ghost theirs = other.sorted_files@;
        let mut p: usize = self.num_partitions;
        while p > 0
            invariant
                self.shape(),
                p <= self.num_partitions,
                self.max_value() == start.max_value(),
                self.num_partitions == start.num_partitions,
                start == *old(self),
                theirs == old(other).sorted_files@,
                other.sorted_files@ == theirs.take(p as int),
                other.buffers == old(other).buffers,
                theirs.len() == self.num_partitions,
                forall|q: int, i: int|
                    0 <= q < theirs.len() && 0 <= i < theirs[q]@.len() ==> (
                    #[trigger] theirs[q]@[i]).read_error() is None,
                self.buffers == start.buffers,
                forall|q: int|
                    p <= q < self.num_partitions ==> #[trigger] quads_of_runs(
                        self.sorted_files@[q]@,
                    ) == quads_of_runs(start.sorted_files@[q]@).add(quads_of_runs(theirs[q]@)),
                forall|q: int|
                    0 <= q < p ==> #[trigger] self.sorted_files@[q] == start.sorted_files@[q],
            decreases p,
        {
            p = p - 1;
            let ghost mine = self.sorted_files@[p as int]@;
            match other.sorted_files.pop() {
                None => {},
                Some(mut runs) => {
                    assert(runs == theirs[p as int]);
                    proof {
                        lemma_quads_of_runs_add(mine, runs@);
                        lemma_quads_of_runs_add(runs@, mine);
                        assert(quads_of_runs(runs@).add(quads_of_runs(mine)) =~= quads_of_runs(
                            mine,
                        ).add(quads_of_runs(runs@)));
                    }
                    if self.sorted_files[p].len() < runs.len() {
                        std::mem::swap(&mut self.sorted_files[p], &mut runs);
                    }
                    self.sorted_files[p].append(&mut runs);
                },
            }
            assert(theirs.take(p + 1).drop_last() =~= theirs.take(p as int));
        }
        proof {
            assert forall|q: int| 0 <= q < old(self).num_partitions() implies #[trigger] self.partition(
                q,
            ) == start.partition(q).add(old(other).written(q)) by {
                assert(quads_of_runs(self.sorted_files@[q]@) == quads_of_runs(
                    start.sorted_files@[q]@,
                ).add(quads_of_runs(theirs[q]@)));
                assert(self.partition(q) =~= start.partition(q).add(old(other).written(q)));
            }
        }
    }

    /// Adds quads to a partition.
    fn push_all(&mut self, quads: &Vec<[usize; N]>, partition_id: usize) -> (res: Result<
        (),
        SorterError,
    >)
        requires
            old(self).shape(),
            partition_id < old(self).num_partitions(),
            forall|i: int| 0 <= i < quads@.len() ==> old(self).fits((#[trigger] quads@[i])@),
        ensures
            final(self).shape(),
            final(self).same_but(*old(self), partition_id as int),
            ({
                let all = old(self).partition(partition_id as int).add(
                    item_views(quads@).to_multiset(),
                );
                match res {
                    Ok(()) => final(self).partition(partition_id as int) == all,
                    Err(SorterError::Arrays(_)) => !all_storable(N as nat, all),
                    Err(e) => e is BufferTooLarge && (N * all.len() + N) * bit_len(
                        old(self).max_value(),
                    ) > usize::MAX,
                }
            }),
    {
        let ghost start = *self;
        let ghost p = partition_id as int;
        let ghost items = item_views(quads@);
        let ghost all = start.partition(p).add(items.to_multiset());
        let mut i: usize = 0;
        proof {
            assert(items.take(0) =~= Seq::empty());
            vstd::seq_lib::to_multiset_len(items.take(0));
            assert(items.take(0).to_multiset() =~= Multiset::empty());
            assert(self.partition(p) =~= start.partition(p).add(items.take(0).to_multiset()));
        }
        while i < quads.len()
            invariant
                self.shape(),
                start == *old(self),
                p == partition_id,
                0 <= p < self.num_partitions(),
                i <= quads@.len(),
                items == item_views(quads@),
                all == start.partition(p).add(items.to_multiset()),
                self.same_but(start, p),
                self.partition(p) == start.partition(p).add(items.take(i as int).to_multiset()),
                forall|i: int| 0 <= i < quads@.len() ==> start.fits((#[trigger] quads@[i])@),
            decreases quads@.len() - i,
        {
            let ghost before = *self;
            proof {
                let done = items.take(i as int);
                let rest = items.skip(i as int);
                assert(items =~= done + rest);
                vstd::seq_lib::lemma_multiset_commutative(done, rest);
                assert(all =~= before.partition(p).add(rest.to_multiset()));
                if all_storable(N as nat, all) {
                    lemma_all_storable_part(N as nat, before.partition(p), rest.to_multiset());
                }
                assert(start.fits(quads@[i as int]@));
                let width = bit_len(start.max_value());
                let part = before.partition(p).len();
                assert(part <= all.len());
                assert((N * part + N) * width <= (N * all.len() + N) * width) by (nonlinear_arith)
                    requires
                        part <= all.len(),
                ;
            }
            self.push_to_partition(quads[i], partition_id)?;
            proof {
                let done = items.take(i as int);
                assert(items.take(i + 1) =~= done.push(items[i as int]));
                vstd::seq_lib::to_multiset_build(done, items[i as int]);
                assert(self.partition(p) =~= start.partition(p).add(
                    items.take(i + 1).to_multiset(),
                ));
                Self::lemma_same_but(*self, before, start, p);
            }
            i = i + 1;
        }
        assert(items.take(i as int) =~= items);
        Ok(())
    }

    /// The quads of two sorters, in one.
    #[verifier::rlimit(50)]
    pub fn merge(self, other: Self) -> (res: Result<Self, SorterError>)
        requires
            self.well_formed(),
            other.well_formed(),
            self.num_partitions() == other.num_partitions(),
        ensures
            self.max_value() != other.max_value() <==> (res matches Err(e)
                && e is DifferentMaxValues),
            res matches Ok(merged) ==> {
                &&& merged.well_formed()
                &&& merged.max_value() == self.max_value()
                &&& merged.num_partitions() == self.num_partitions()
                &&& forall|p: int|
                    0 <= p < merged.num_partitions() ==> #[trigger] merged.partition(p)
                        == self.with_other(other, p)
            },
            res matches Err(e) ==> match e {
                SorterError::DifferentMaxValues => true,
                SorterError::Arrays(_) => exists|p: int|
                    0 <= p < self.num_partitions() && !all_storable(
                        N as nat,
                        #[trigger] self.with_other(other, p),
                    ),
                SorterError::BufferTooLarge => exists|p: int|
                    0 <= p < self.num_partitions() && (N * (#[trigger] self.with_other(
                        other,
                        p,
                    )).len() + N) * bit_len(self.max_value()) > usize::MAX,
                SorterError::ValueTooLarge => false,
            },
    {
        if self.max_value != other.max_value {
            return Err(SorterError::DifferentMaxValues);
        }
        let mut merged = self;
        let mut others = other;
        merged.take_runs(&mut others);
        let ghost taken = merged;
        let mut p: usize = 0;
        while p < merged.num_partitions
            invariant
                merged.shape(),
                p <= merged.num_partitions,
                merged.max_value() == self.max_value(),
                merged.num_partitions() == self.num_partitions(),
                other.num_partitions() == self.num_partitions(),
                self.max_value() == other.max_value(),
                other.shape(),
                others.buffers == other.buffers,
                forall|q: int|
                    0 <= q < self.num_partitions() ==> #[trigger] taken.partition(q)
                        == self.partition(q).add(other.written(q)),
                forall|q: int|
                    p <= q < merged.num_partitions() ==> #[trigger] merged.partition(q)
                        == taken.partition(q),
                forall|q: int|
                    0 <= q < p ==> #[trigger] merged.partition(q) == self.with_other(other, q),
            decreases merged.num_partitions - p,
        {
            let ghost before = merged;
            let quads: Vec<[usize; N]> = read_buffer(&others.buffers[p]);
            proof {
                assert(merged.partition(p as int) == taken.partition(p as int));
                assert(taken.partition(p as int) == self.partition(p as int).add(
                    other.written(p as int),
                ));
                assert(self.with_other(other, p as int) =~= merged.partition(p as int).add(
                    item_views(quads@).to_multiset(),
                ));
                assert forall|i: int| 0 <= i < quads@.len() implies merged.fits(
                    (#[trigger] quads@[i])@,
                ) by {
                    assert forall|j: int| 0 <= j < quads@[i]@.len() implies #[trigger] quads@[i]@[j]
                        < pow2(bit_len(merged.max_value())) by {}
                }
            }
            merged.push_all(&quads, p)?;
            proof {
                assert forall|q: int|
                    p + 1 <= q < merged.num_partitions() implies #[trigger] merged.partition(q)
                    == taken.partition(q) by {
                    assert(merged.buffered(q) == before.buffered(q));
                    assert(before.partition(q) == taken.partition(q));
                }
                assert forall|q: int| 0 <= q < p + 1 implies #[trigger] merged.partition(q)
                    == self.with_other(other, q) by {
                    if q != p {
                        assert(merged.buffered(q) == before.buffered(q));
                        assert(before.partition(q) == self.with_other(other, q));
                    }
                }
            }
            p = p + 1;
        }
        proof {
            assert forall|q: int, quad: Seq<usize>|
                0 <= q < merged.num_partitions && #[trigger] merged.partition(q).count(quad)
                    > 0 implies {
                &&& quad.len() == N
                &&& quad[0] <= merged.max_value
                &&& partition_of(merged.max_value(), merged.num_partitions(), quad[0] as nat) == q
            } by {
                assert(self.partition(q).count(quad) > 0 || other.partition(q).count(quad) > 0);
            }
        }
        Ok(merged)
    }
}

/// Partitions are ranges of as many terms each, the last ones excepted.
pub proof fn lemma_partition_bounds(max_value: nat, num_partitions: nat, term: nat)
    requires
        num_partitions > 0,
    ensures
        ({
            let size = max_value / num_partitions + 1;
            let p = partition_of(max_value, num_partitions, term);
            p * size <= term < p * size + size
        }),
{
    let size = (max_value / num_partitions + 1) as int;
    vstd::arithmetic::div_mod::lemma_fundamental_div_mod(term as int, size);
    vstd::arithmetic::mul::lemma_mul_is_commutative(size, term as int / size);
}

impl<const N: usize> ExternalArraySorter<N> {
    /// There is room for one more quad in a partition as long as the bits of the cells of its quads
    /// can be counted, whatever the largest value is.
    pub proof fn lemma_buffer_fits(self, p: int)
        requires
            self.max_value() <= usize::MAX,
            N * (self.partition(p).len() + 1) * 64 <= usize::MAX,
        ensures
            !self.buffer_may_overflow(p),
    {
        let len = self.partition(p).len();
        vstd::arithmetic::power2::lemma2_to64_rest();
        lemma_bit_len_bound(self.max_value(), 64);
        let width = bit_len(self.max_value());
        assert((N * len + N) * width <= N * (len + 1) * 64) by (nonlinear_arith)
            requires
                width <= 64,
        ;
    }
}

/// Quads can be written if none has a cell that overflows 63 bits or zeros only, and they are not
/// too many for the bits of their cells to be counted.
pub proof fn lemma_all_storable(n: nat, quads: Multiset<Seq<usize>>)
    requires
        quads.len() * (127 * n + 1) + n + 64 <= u64::MAX,
        forall|quad: Seq<usize>| #[trigger]
            quads.count(quad) > 0 ==> quad.len() == n && (exists|j: int|
                0 <= j < n && quad[j] != 0) && (forall|j: int|
                0 <= j < n ==> #[trigger] quad[j] < 0x8000_0000_0000_0000),
    ensures
        all_storable(n, quads),
{
    assert forall|quad: Seq<usize>| #[trigger] quads.count(quad) > 0 implies quad.len() == n
        && storable(quad) by {
        let j = choose|j: int| 0 <= j < n && quad[j] != 0;
        assert(quad != zero_cells(n)) by {
            if quad == zero_cells(n) {
                assert(quad[j] == 0);
            }
        }
    }
}

} // verus!
