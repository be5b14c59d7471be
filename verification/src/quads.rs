//! Quad stores: quads of term ids in a given order of their terms, split into partitions by their
//! first terms.

use crate::array_sorter::{
    all_storable, bit_len, partition_of, ExternalArraySorter, SorterError,
};
use crate::arrays::{
    is_sorted, item_views, items_only, storable, zero_cells, SortedArraysFile,
};
use crate::frames::frame_starts;
use crate::indexes::{construction_failed, positions_view};
use crate::quads_store::{
    answer_view, has_prefix, index_partition, list_view, pair_keys, result_views, results,
    too_large_to_index, with_prefix, PartitionIndexes, QuadPartition, QuadsError,
};
use vstd::arithmetic::power2::pow2;
use vstd::multiset::Multiset;
use vstd::prelude::*;

verus! {

/// The order in which the terms of a quad are stored.
#[derive(Clone, Copy, Debug, PartialEq, Eq, Structural)]
pub enum QuadOrder {
    /// Subject, predicate, object, graph.
    Spog,
    /// Object, predicate, subject, graph.
    Opsg,
}

impl QuadOrder {
    /// A quad in this order, from the order subject, predicate, object, graph.
    pub open spec fn order(self, quad: Seq<usize>) -> Seq<usize> {
        match self {
            QuadOrder::Spog => quad,
            QuadOrder::Opsg => seq![quad[2], quad[1], quad[0], quad[3]],
        }
    }

    /// A quad in the order subject, predicate, object, graph, from this order.
    pub open spec fn reverse(self, quad: Seq<usize>) -> Seq<usize> {
        match self {
            QuadOrder::Spog => quad,
            QuadOrder::Opsg => seq![quad[2], quad[1], quad[0], quad[3]],
        }
    }

    /// Maps a quad from the order subject, predicate, object, graph to this order.
    pub fn mapper(self, quad: [usize; 4]) -> (ordered: [usize; 4])
        ensures
            ordered@ == self.order(quad@),
    {
        match self {
            QuadOrder::Spog => quad,
            QuadOrder::Opsg => {
                let ordered: [usize; 4] = [quad[2], quad[1], quad[0], quad[3]];
                assert(ordered@ =~= self.order(quad@));
                ordered
            },
        }
    }

    /// Maps a quad from this order to the order subject, predicate, object, graph.
    pub fn reverse_mapper(self, quad: [usize; 4]) -> (spog: [usize; 4])
        ensures
            spog@ == self.reverse(quad@),
    {
        match self {
            QuadOrder::Spog => quad,
            QuadOrder::Opsg => {
                let spog: [usize; 4] = [quad[2], quad[1], quad[0], quad[3]];
                assert(spog@ =~= self.reverse(quad@));
                spog
            },
        }
    }

    /// The name of the order.
    pub fn name(self) -> (name: &'static str)
        ensures
            name@ == (match self {
                QuadOrder::Spog => "spog"@,
                QuadOrder::Opsg => "opsg"@,
            }),
    {
        match self {
            QuadOrder::Spog => "spog",
            QuadOrder::Opsg => "opsg",
        }
    }
}

/// A quad is not changed by a change of order and back, whichever comes first.
pub proof fn lemma_order_inverse(order: QuadOrder, quad: Seq<usize>)
    requires
        quad.len() == 4,
    ensures
        order.reverse(order.order(quad)) == quad,
        order.order(order.reverse(quad)) == quad,
{
    assert(order.reverse(order.order(quad)) =~= quad);
    assert(order.order(order.reverse(quad)) =~= quad);
}

/// How a quad store is laid out.
#[derive(Clone, Copy, Debug, PartialEq, Eq, Structural)]
pub struct QuadStoreConfiguration {
    /// The number of partitions.
    pub num_partitions: usize,
    /// The number of quads.
    pub num_quads: usize,
    /// The number of terms.
    pub num_terms: usize,
}

/// The number of partitions of a store that is built with a number of threads: four per thread,
/// at most 16, but at least 256, up to the next power of two.
pub fn choose_num_partitions(num_threads: usize) -> (num_partitions: usize)
    requires
        4 * num_threads <= usize::MAX,
    ensures
        num_partitions == 256,
{
    let wanted: usize = 4 * num_threads;
    let at_most: usize = if wanted < 16 {
        wanted
    } else {
        16
    };
    let at_least: usize = if at_most > 256 {
        at_most
    } else {
        256
    };
    let mut power: usize = 1;
    let ghost mut k: int = 0;
    proof {
        vstd::arithmetic::power2::lemma2_to64();
    }
    while power < at_least
        invariant
            at_least == 256,
            0 <= k <= 8,
            power == pow2(k as nat),
            pow2(8) == 256,
        decreases 8 - k,
    {
        proof {
            vstd::arithmetic::power2::lemma_pow2_unfold((k + 1) as nat);
            k = k + 1;
        }
        power = power * 2;
    }
    proof {
        if k < 8 {
            vstd::arithmetic::power2::lemma_pow2_strictly_increases(k as nat, 8);
        }
    }
    power
}

/// Quads in a given order of their terms.
pub open spec fn ordered_quads(quads: Seq<[usize; 4]>, order: QuadOrder) -> Seq<Seq<usize>> {
    quads.map_values(|quad: [usize; 4]| order.order(quad@))
}

/// The quads of a list that go to a partition.
pub open spec fn quads_of_partition(
    quads: Seq<Seq<usize>>,
    max_value: nat,
    num_partitions: nat,
    p: int,
) -> Seq<Seq<usize>> {
    quads.filter(
        |quad: Seq<usize>| partition_of(max_value, num_partitions, quad[0] as nat) == p,
    )
}

/// Whether a list of quads can be written: the bits of its terms can be counted, in memory and in
/// a file, and each quad is storable.
pub open spec fn compressible(quads: Seq<Seq<usize>>) -> bool {
    &&& (4 * quads.len() + 4) * usize::BITS <= usize::MAX
    &&& 509 * quads.len() + 68 <= u64::MAX
    &&& forall|i: int| 0 <= i < quads.len() ==> storable(#[trigger] quads[i])
}

proof fn lemma_filter_push(
    quads: Seq<Seq<usize>>,
    quad: Seq<usize>,
    max_value: nat,
    num_partitions: nat,
    p: int,
)
    ensures
        quads_of_partition(quads.push(quad), max_value, num_partitions, p).to_multiset() == if
            partition_of(max_value, num_partitions, quad[0] as nat) == p {
            quads_of_partition(quads, max_value, num_partitions, p).to_multiset().insert(quad)
        } else {
            quads_of_partition(quads, max_value, num_partitions, p).to_multiset()
        },
{
    reveal(Seq::filter);
    assert(quads.push(quad).drop_last() =~= quads);
    vstd::seq_lib::to_multiset_build(
        quads_of_partition(quads, max_value, num_partitions, p),
        quad,
    );
}

proof fn lemma_compressible_part(
    quads: Seq<Seq<usize>>,
    taken: int,
    max_value: nat,
    num_partitions: nat,
    p: int,
)
    requires
        compressible(quads),
        0 <= taken <= quads.len(),
        forall|i: int| 0 <= i < quads.len() ==> (#[trigger] quads[i]).len() == 4,
    ensures
        all_storable(
            4,
            quads_of_partition(quads.take(taken), max_value, num_partitions, p).to_multiset(),
        ),
        quads_of_partition(quads.take(taken), max_value, num_partitions, p).len() <= quads.len(),
{
    let pred = |quad: Seq<usize>| partition_of(max_value, num_partitions, quad[0] as nat) == p;
    let part = quads.take(taken).filter(pred);
    quads.take(taken).lemma_filter_len(pred);
    vstd::seq_lib::to_multiset_len(part);
    let n: nat = 4;
    assert(part.len() * (127 * n + 1) == 509 * part.len()) by (nonlinear_arith)
        requires
            n == 4,
    ;
    assert forall|quad: Seq<usize>| #[trigger] part.to_multiset().count(quad) > 0 implies quad.len()
        == 4 && storable(quad) by {
        vstd::seq_lib::to_multiset_contains(part, quad);
        assert(part.contains(quad));
        quads.take(taken).lemma_filter_contains_rev(pred, quad);
        let i = choose|i: int| 0 <= i < quads.take(taken).len() && quads.take(taken)[i] == quad;
        assert(quads[i] == quad);
    }
}

/// Sorts quads, in a given order of their terms, into the files of the partitions of a store.
#[verifier::rlimit(50)]
pub fn compress_quads(
    quads: &Vec<[usize; 4]>,
    num_terms: usize,
    num_partitions: usize,
    order: QuadOrder,
) -> (res: Result<(QuadStoreConfiguration, Vec<SortedArraysFile<4>>), SorterError>)
    requires
        num_terms >= 2,
        num_partitions > 0,
        forall|i: int, j: int|
            0 <= i < quads@.len() && 0 <= j < 4 ==> (#[trigger] quads@[i]@[j]) < pow2(
                bit_len((num_terms - 1) as nat),
            ),
    ensures
        ({
            let ordered = ordered_quads(quads@, order);
            let known = forall|i: int|
                0 <= i < ordered.len() ==> (#[trigger] ordered[i])[0] < num_terms;
            &&& res matches Err(e) ==> match e {
                SorterError::ValueTooLarge => !known,
                SorterError::DifferentMaxValues => false,
                _ => !compressible(ordered),
            }
            &&& res matches Ok((config, files)) ==> {
                &&& known
                &&& !ordered.contains(zero_cells(4))
                &&& config == (QuadStoreConfiguration {
                    num_partitions,
                    num_quads: quads.len(),
                    num_terms,
                })
                &&& files@.len() == num_partitions
                &&& forall|p: int|
                    0 <= p < num_partitions ==> {
                        &&& (#[trigger] files@[p]).read_error() is None
                        &&& files@[p].is_written()
                        &&& items_only(files@[p].listing()).to_multiset() == quads_of_partition(
                            ordered,
                            (num_terms - 1) as nat,
                            num_partitions as nat,
                            p,
                        ).to_multiset()
                    }
            }
        }),
{
    let ghost ordered = ordered_quads(quads@, order);
    let ghost max = (num_terms - 1) as nat;
    let ghost np = num_partitions as nat;
    let ghost known = forall|i: int|
        0 <= i < ordered.len() ==> (#[trigger] ordered[i])[0] < num_terms;
    // 500 MiB of memory
    let max_buffer_size: usize = 500 * 1024 * 1024;
    let mut sorter = ExternalArraySorter::<4>::new(num_terms - 1, max_buffer_size, num_partitions);
    let mut i: usize = 0;
    proof {
        assert(ordered.take(0) =~= Seq::empty());
        assert forall|p: int| 0 <= p < num_partitions implies #[trigger] sorter.partition(p)
            == quads_of_partition(ordered.take(0), max, np, p).to_multiset() by {
            reveal(Seq::filter);
            vstd::seq_lib::to_multiset_len(Seq::<Seq<usize>>::empty());
            assert(quads_of_partition(ordered.take(0), max, np, p) =~= Seq::empty());
            assert(Seq::<Seq<usize>>::empty().to_multiset() =~= Multiset::empty());
        }
        assert forall|i: int| 0 <= i < ordered.len() implies (#[trigger] ordered[i]).len() == 4 by {
            assert(ordered[i] == order.order(quads@[i]@));
        }
    }
    while i < quads.len()
        invariant
            i <= quads@.len(),
            ordered == ordered_quads(quads@, order),
            max == num_terms - 1,
            np == num_partitions,
            num_terms >= 2,
            num_partitions > 0,
            known == forall|i: int|
                0 <= i < ordered.len() ==> (#[trigger] ordered[i])[0] < num_terms,
            sorter.well_formed(),
            sorter.max_value() == max,
            sorter.num_partitions() == np,
            forall|i: int| 0 <= i < ordered.len() ==> (#[trigger] ordered[i]).len() == 4,
            forall|i: int, j: int|
                0 <= i < quads@.len() && 0 <= j < 4 ==> (#[trigger] quads@[i]@[j]) < pow2(
                    bit_len(max),
                ),
            forall|j: int| 0 <= j < i ==> (#[trigger] ordered[j])[0] < num_terms,
            forall|p: int|
                0 <= p < num_partitions ==> #[trigger] sorter.partition(p) == quads_of_partition(
                    ordered.take(i as int),
                    max,
                    np,
                    p,
                ).to_multiset(),
        decreases quads@.len() - i,
    {
        let quad: [usize; 4] = order.mapper(quads[i]);
        let ghost before = sorter;
        let ghost target = partition_of(max, np, quad@[0] as nat) as int;
        proof {
            assert(ordered[i as int] == quad@);
            assert forall|j: int| 0 <= j < quad@.len() implies #[trigger] quad@[j] < pow2(
                bit_len(max),
            ) by {
                let source = quads@[i as int]@;
                assert(source[0] < pow2(bit_len(max)) && source[1] < pow2(bit_len(max)));
                assert(source[2] < pow2(bit_len(max)) && source[3] < pow2(bit_len(max)));
            }
            assert(sorter.fits(quad@));
            if quad@[0] <= max && compressible(ordered) {
                crate::array_sorter::lemma_partition_in_range(max, np, quad@[0] as nat);
                lemma_compressible_part(ordered, i as int, max, np, target);
                assert(sorter.partition(target) == quads_of_partition(
                    ordered.take(i as int),
                    max,
                    np,
                    target,
                ).to_multiset());
                vstd::seq_lib::to_multiset_len(
                    quads_of_partition(ordered.take(i as int), max, np, target),
                );
                let len = sorter.partition(target).len();
                lemma_bit_len_of_usize(max);
                assert((4 * len + 4) * bit_len(max) <= usize::MAX) by (nonlinear_arith)
                    requires
                        len <= ordered.len(),
                        bit_len(max) <= usize::BITS,
                        (4 * ordered.len() + 4) * usize::BITS <= usize::MAX,
                ;
            }
        }
        match sorter.push(quad) {
            Err(e) => {
                return Err(e);
            },
            Ok(()) => {},
        }
        proof {
            assert(ordered.take(i + 1) =~= ordered.take(i as int).push(quad@));
            assert forall|p: int| 0 <= p < num_partitions implies #[trigger] sorter.partition(p)
                == quads_of_partition(ordered.take(i + 1), max, np, p).to_multiset() by {
                lemma_filter_push(ordered.take(i as int), quad@, max, np, p);
                assert(before.partition(p) == quads_of_partition(
                    ordered.take(i as int),
                    max,
                    np,
                    p,
                ).to_multiset());
            }
        }
        i = i + 1;
    }
    proof {
        assert(ordered.take(i as int) =~= ordered);
        if compressible(ordered) {
            assert forall|p: int| 0 <= p < num_partitions implies all_storable(
                4,
                #[trigger] sorter.partition(p),
            ) by {
                lemma_compressible_part(ordered, i as int, max, np, p);
            }
        }
    }
    let ghost filled = sorter;
    let lists: Vec<Vec<[usize; 4]>> = match sorter.iter_partitions() {
        Err(e) => {
            return Err(e);
        },
        Ok(lists) => lists,
    };
    let mut files: Vec<SortedArraysFile<4>> = Vec::new();
    let mut p: usize = 0;
    while p < num_partitions
        invariant
            p <= num_partitions,
            lists@.len() == num_partitions,
            files@.len() == p,
            known,
            known == forall|i: int|
                0 <= i < ordered.len() ==> (#[trigger] ordered[i])[0] < num_terms,
            ordered == ordered_quads(quads@, order),
            compressible(ordered) ==> forall|p: int|
                0 <= p < num_partitions ==> all_storable(4, #[trigger] filled.partition(p)),
            forall|q: int|
                0 <= q < num_partitions ==> {
                    &&& is_sorted(item_views((#[trigger] lists@[q])@))
                    &&& item_views(lists@[q]@).to_multiset() == filled.partition(q)
                },
            forall|q: int|
                0 <= q < p ==> {
                    &&& (#[trigger] files@[q]).read_error() is None
                    &&& files@[q].is_written()
                    &&& items_only(files@[q].listing()).to_multiset() == filled.partition(q)
                    &&& filled.partition(q).count(zero_cells(4)) == 0
                },
        decreases num_partitions - p,
    {
        match crate::array_sorter::write_run(&lists[p]) {
            Err(e) => {
                proof {
                    assert(item_views(lists@[p as int]@).to_multiset() == filled.partition(
                        p as int,
                    ));
                }
                return Err(e);
            },
            Ok(file) => {
                proof {
                    assert(item_views(lists@[p as int]@).to_multiset() == filled.partition(
                        p as int,
                    ));
                    vstd::seq_lib::to_multiset_contains(
                        item_views(lists@[p as int]@),
                        zero_cells(4),
                    );
                }
                files.push(file);
            },
        }
        p = p + 1;
    }
    proof {
        assert forall|q: int| 0 <= q < num_partitions implies {
            &&& (#[trigger] files@[q]).read_error() is None
            &&& files@[q].is_written()
            &&& items_only(files@[q].listing()).to_multiset() == quads_of_partition(
                ordered,
                max,
                np,
                q,
            ).to_multiset()
        } by {
            assert(filled.partition(q) == quads_of_partition(ordered, max, np, q).to_multiset());
        }
        if ordered.contains(zero_cells(4)) {
            let first = quads_of_partition(ordered, max, np, 0);
            crate::array_sorter::lemma_partition_in_range(max, np, 0);
            assert(partition_of(max, np, 0) == 0) by {
                vstd::arithmetic::div_mod::lemma_basic_div(0, (max / np + 1) as int);
            }
            ordered.lemma_filter_contains(
                |quad: Seq<usize>| partition_of(max, np, quad[0] as nat) == 0,
                ordered.index_of(zero_cells(4)),
            );
            vstd::seq_lib::to_multiset_contains(first, zero_cells(4));
            assert(filled.partition(0) == first.to_multiset());
            assert(files@[0].read_error() is None);
        }
    }
    let config = QuadStoreConfiguration { num_partitions, num_quads: quads.len(), num_terms };
    Ok((config, files))
}

proof fn lemma_bit_len_of_usize(value: nat)
    requires
        value <= usize::MAX,
    ensures
        bit_len(value) <= usize::BITS,
{
    vstd::arithmetic::power2::lemma2_to64();
    vstd::arithmetic::power2::lemma2_to64_rest();
    crate::array_sorter::lemma_bit_len_bound(value, usize::BITS as nat);
}

/// The number of terms of each partition but the last ones.
pub open spec fn terms_per_partition(num_terms: nat, num_partitions: nat) -> nat {
    (num_terms + num_partitions - 1) as nat / num_partitions
}

/// The number of terms of a partition.
pub open spec fn terms_in_partition(num_terms: nat, num_partitions: nat, p: nat) -> nat {
    let size = terms_per_partition(num_terms, num_partitions);
    if size * (p + 1) <= num_terms {
        size
    } else if size * p <= num_terms {
        (num_terms - size * p) as nat
    } else {
        0
    }
}

/// The quads of several partitions, one partition after the other.
pub open spec fn quads_of_partitions(partitions: Seq<QuadPartition>) -> Seq<Seq<usize>>
    decreases partitions.len(),
{
    if partitions.len() == 0 {
        Seq::empty()
    } else {
        quads_of_partitions(partitions.drop_last()) + partitions.last().quads()
    }
}

/// The quads of several files, one file after the other.
pub open spec fn quads_of_files(files: Seq<SortedArraysFile<4>>) -> Seq<Seq<usize>>
    decreases files.len(),
{
    if files.len() == 0 {
        Seq::empty()
    } else {
        quads_of_files(files.drop_last()) + items_only(files.last().listing())
    }
}

/// Whether partitions are intact, and have the ranges of terms that a configuration says.
pub open spec fn are_partitions(partitions: Seq<QuadPartition>, config: QuadStoreConfiguration) -> bool {
    forall|p: int|
        0 <= p < partitions.len() ==> {
            &&& (#[trigger] partitions[p]).intact()
            &&& partitions[p].first_term() == terms_per_partition(
                config.num_terms as nat,
                config.num_partitions as nat,
            ) * p
            &&& partitions[p].num_terms() == terms_in_partition(
                config.num_terms as nat,
                config.num_partitions as nat,
                p as nat,
            )
        }
}

/// A quad store: partitions of quads, by their first terms, and their indexes.
pub struct QuadStore {
    config: QuadStoreConfiguration,
    partitions: Vec<QuadPartition>,
}

/// `a / b`, rounded up.
pub fn div_ceil(a: usize, b: usize) -> (quotient: usize)
    requires
        b > 0,
    ensures
        quotient == (a + b - 1) / (b as int),
{
    proof {
        vstd::arithmetic::div_mod::lemma_fundamental_div_mod(a as int, b as int);
        let q = a as int / b as int;
        let r = a as int % b as int;
        assert(b * q == q * b) by (nonlinear_arith);
        if r == 0 {
            vstd::arithmetic::div_mod::lemma_fundamental_div_mod_converse(
                a + b - 1,
                b as int,
                q,
                b - 1,
            );
        } else {
            assert((q + 1) * b == q * b + b) by (nonlinear_arith);
            vstd::arithmetic::div_mod::lemma_fundamental_div_mod_converse(
                a + b - 1,
                b as int,
                q + 1,
                r - 1,
            );
            assert(q + 1 <= a) by (nonlinear_arith)
                requires
                    a == b * q + r,
                    r >= 1,
                    b >= 2 || r == 0,
                    q >= 0,
            ;
        }
    }
    if a % b == 0 {
        a / b
    } else {
        a / b + 1
    }
}

/// The range of terms of a partition is within the terms of the store.
proof fn lemma_partition_terms(num_terms: nat, num_partitions: nat, p: nat)
    requires
        num_partitions > 0,
        p < num_partitions,
    ensures
        ({
            let size = terms_per_partition(num_terms, num_partitions);
            &&& size * p <= num_terms + num_partitions
            &&& size * num_partitions >= num_terms
            &&& size * (p + 1) <= num_terms + num_partitions
        }),
{
    let size = terms_per_partition(num_terms, num_partitions);
    let total = (num_terms + num_partitions - 1) as nat;
    vstd::arithmetic::div_mod::lemma_fundamental_div_mod(total as int, num_partitions as int);
    assert(size * (p + 1) <= size * num_partitions) by (nonlinear_arith)
        requires
            p + 1 <= num_partitions,
    ;
    assert(size * p <= size * num_partitions) by (nonlinear_arith)
        requires
            p <= num_partitions,
    ;
    assert(num_partitions * size == size * num_partitions) by (nonlinear_arith);
}

/// The terms of a partition: the first one, and their number.
pub fn partition_range(config: &QuadStoreConfiguration, partition_id: usize) -> (range: (
    usize,
    usize,
))
    requires
        partition_id < config.num_partitions,
        config.num_terms + config.num_partitions <= usize::MAX,
    ensures
        range.0 == terms_per_partition(config.num_terms as nat, config.num_partitions as nat)
            * partition_id,
        range.1 == terms_in_partition(
            config.num_terms as nat,
            config.num_partitions as nat,
            partition_id as nat,
        ),
{
    let size: usize = div_ceil(config.num_terms, config.num_partitions);
    proof {
        lemma_partition_terms(
            config.num_terms as nat,
            config.num_partitions as nat,
            partition_id as nat,
        );
        assert(size * partition_id + size == size * (partition_id + 1)) by (nonlinear_arith);
    }
    let first: usize = size * partition_id;
    let num_terms: usize = if first > config.num_terms {
        0
    } else if config.num_terms - first < size {
        config.num_terms - first
    } else {
        size
    };
    (first, num_terms)
}

/// What can be read of several partitions, one partition after the other.
pub open spec fn results_of_partitions(partitions: Seq<QuadPartition>) -> Seq<
    Result<Seq<usize>, QuadsError>,
>
    decreases partitions.len(),
{
    if partitions.len() == 0 {
        Seq::empty()
    } else {
        results_of_partitions(partitions.drop_last()) + results(
            partitions.last().quads(),
            partitions.last().file().read_error(),
        )
    }
}

/// Whether indexes are those of files that can be read to the end, and that hold the quads of the
/// partitions of a store.
pub open spec fn are_indexed(
    files: Seq<SortedArraysFile<4>>,
    indexes: Seq<PartitionIndexes>,
    config: QuadStoreConfiguration,
) -> bool {
    &&& indexes.len() == files.len()
    &&& forall|p: int|
        0 <= p < files.len() ==> !partition_is_invalid(#[trigger] files[p], config, p as nat)
            && indexes[p].index(
            files[p].listing(),
            terms_per_partition(config.num_terms as nat, config.num_partitions as nat) * p as nat,
            terms_in_partition(config.num_terms as nat, config.num_partitions as nat, p as nat),
        )
}

/// Builds the indexes of the partitions of a store.
pub fn index_quads(config: &QuadStoreConfiguration, files: &Vec<SortedArraysFile<4>>) -> (res:
    Result<Vec<PartitionIndexes>, QuadsError>)
    requires
        config.num_partitions > 0,
        config.num_terms + config.num_partitions <= usize::MAX,
        files@.len() == config.num_partitions,
    ensures
        res matches Ok(indexes) ==> are_indexed(files@, indexes@, *config),
        res matches Err(e) ==> exists|p: int|
            0 <= p < files@.len() && partition_may_fail(#[trigger] files@[p], *config, p as nat, e),
        (exists|p: int|
            0 <= p < files@.len() && partition_fails(#[trigger] files@[p], *config, p as nat))
            ==> res is Err,
{
    let mut indexes: Vec<PartitionIndexes> = Vec::new();
    let mut p: usize = 0;
    while p < files.len()
        invariant
            p <= files@.len() == config.num_partitions,
            config.num_partitions > 0,
            config.num_terms + config.num_partitions <= usize::MAX,
            indexes@.len() == p,
            are_indexed(files@.take(p as int), indexes@, *config),
            forall|q: int|
                0 <= q < p ==> !partition_fails(#[trigger] files@[q], *config, q as nat),
        decreases files@.len() - p,
    {
        let (first, num_terms) = partition_range(config, p);
        let index = index_partition(&files[p], first, num_terms)?;
        let ghost before = indexes@;
        indexes.push(index);
        proof {
            let taken = files@.take(p + 1);
            assert forall|q: int| 0 <= q < taken.len() implies !partition_is_invalid(
                #[trigger] taken[q],
                *config,
                q as nat,
            ) && indexes@[q].index(
                taken[q].listing(),
                terms_per_partition(config.num_terms as nat, config.num_partitions as nat)
                    * q as nat,
                terms_in_partition(
                    config.num_terms as nat,
                    config.num_partitions as nat,
                    q as nat,
                ),
            ) by {
                if q < p {
                    assert(taken[q] == files@.take(p as int)[q]);
                    assert(indexes@[q] == before[q]);
                } else {
                    assert(taken[q] == files@[p as int]);
                }
            }
        }
        p = p + 1;
    }
    assert(files@.take(p as int) =~= files@);
    Ok(indexes)
}

impl QuadStore {
    /// There are as many partitions as announced, each for its range of terms.
    pub closed spec fn well_formed(self) -> bool {
        &&& self.config.num_partitions > 0
        &&& self.partitions@.len() == self.config.num_partitions
    }

    /// Whether all the quads can be read, and are found by the indexes.
    pub open spec fn intact(self) -> bool {
        &&& self.well_formed()
        &&& are_partitions(self.partitions(), self.config())
    }

    /// The configuration of the store.
    pub closed spec fn config(self) -> QuadStoreConfiguration {
        self.config
    }

    /// The partitions of the store.
    pub closed spec fn partitions(self) -> Seq<QuadPartition> {
        self.partitions@
    }

    /// The quads of the store that can be read, in order.
    pub open spec fn quads(self) -> Seq<Seq<usize>> {
        quads_of_partitions(self.partitions())
    }

    /// Opens a store, whose partitions are given by their files and their indexes. Nothing is read.
    pub fn mmap(
        config: QuadStoreConfiguration,
        files: Vec<SortedArraysFile<4>>,
        indexes: Vec<PartitionIndexes>,
    ) -> (store: Self)
        requires
            config.num_partitions > 0,
            config.num_terms + config.num_partitions <= usize::MAX,
            files@.len() == config.num_partitions,
            indexes@.len() == config.num_partitions,
        ensures
            store.well_formed(),
            store.config() == config,
            store.partitions().len() == files@.len(),
            forall|p: int|
                0 <= p < files@.len() ==> {
                    &&& (#[trigger] store.partitions()[p]).file() == files@[p]
                    &&& store.partitions()[p].indexes() == indexes@[p]
                    &&& store.partitions()[p].first_term() == terms_per_partition(
                        config.num_terms as nat,
                        config.num_partitions as nat,
                    ) * p
                },
            store.quads() == quads_of_files(files@),
            are_indexed(files@, indexes@, config) ==> store.intact(),
    {
        let mut partitions: Vec<QuadPartition> = Vec::new();
        let ghost all = files@;
        let mut indexes = indexes;
        let ghost given = indexes@;
        for file in it: files
            invariant
                it.seq() == all,
                all.len() == config.num_partitions,
                config.num_partitions > 0,
                config.num_terms + config.num_partitions <= usize::MAX,
                given.len() == config.num_partitions,
                indexes@ == given.skip(it.index() as int),
                partitions@.len() == it.index(),
                forall|p: int|
                    0 <= p < it.index() ==> {
                        &&& (#[trigger] partitions@[p]).file() == all[p]
                        &&& partitions@[p].indexes() == given[p]
                        &&& partitions@[p].first_term() == terms_per_partition(
                            config.num_terms as nat,
                            config.num_partitions as nat,
                        ) * p
                    },
                quads_of_partitions(partitions@) == quads_of_files(all.take(it.index() as int)),
        {
            let ghost p = it.index() as int;
            let partition_id: usize = partitions.len();
            let (first, _num_terms) = partition_range(&config, partition_id);
            assert(file == all[p]);
            let index: PartitionIndexes = indexes.remove(0);
            assert(indexes@ =~= given.skip(p + 1));
            let ghost before = partitions@;
            partitions.push(QuadPartition::mmap(first, file, index));
            proof {
                assert(partitions@.drop_last() =~= before);
                assert(all.take(p + 1).drop_last() =~= all.take(p));
            }
        }
        assert(all.take(all.len() as int) =~= all);
        let store = QuadStore { config, partitions };
        proof {
            if are_indexed(all, given, config) {
                assert forall|p: int| 0 <= p < partitions@.len() implies {
                    &&& (#[trigger] partitions@[p]).intact()
                    &&& partitions@[p].num_terms() == terms_in_partition(
                        config.num_terms as nat,
                        config.num_partitions as nat,
                        p as nat,
                    )
                } by {
                    assert(partitions@[p].file() == all[p]);
                    assert(!partition_is_invalid(all[p], config, p as nat));
                    let values = crate::indexes::seq_values(given[p].first_term_index);
                    assert(positions_view(values).len() == values.len());
                }
            }
        }
        store
    }

    /// The number of the partition of a term.
    pub open spec fn partition_of_term(self, term: usize) -> int {
        term as int / terms_per_partition(
            self.config().num_terms as nat,
            self.config().num_partitions as nat,
        ) as int
    }

    /// The partition of a term.
    fn get_partition(&self, term: usize) -> (res: Result<&QuadPartition, QuadsError>)
        requires
            self.well_formed(),
        ensures
            if term >= self.config().num_terms {
                res is Err && res->Err_0 == QuadsError::InvalidTerm
            } else {
                res matches Ok(partition) && *partition
                    == self.partitions()[self.partition_of_term(term)]
            },
    {
        if term >= self.config.num_terms {
            return Err(QuadsError::InvalidTerm);
        }
        let size: usize = div_ceil(self.config.num_terms, self.config.num_partitions);
        proof {
            lemma_partition_of_term(
                self.config.num_terms as nat,
                self.config.num_partitions as nat,
                term as nat,
            );
        }
        let partition_id: usize = term / size;
        Ok(&self.partitions[partition_id])
    }

    /// What is found of the quads that start with a term, or with two: what is found in the
    /// partition of the term.
    pub open spec fn prefix_answer(
        self,
        first: usize,
        second: Option<usize>,
        res: Result<Option<Seq<Result<Seq<usize>, QuadsError>>>, QuadsError>,
    ) -> bool {
        if first >= self.config().num_terms {
            res == Err::<Option<Seq<Result<Seq<usize>, QuadsError>>>, QuadsError>(
                QuadsError::InvalidTerm,
            )
        } else {
            let partition = self.partitions()[self.partition_of_term(first)];
            match second {
                None => partition.first_term_answer(first, res),
                Some(second) => partition.two_terms_answer(first, second, res),
            }
        }
    }

    /// All the quads of an intact store that start with a term of the store, or with it and another
    /// one, are found. `None` says that there are no such quads.
    pub proof fn lemma_intact_prefix(
        self,
        first: usize,
        second: Option<usize>,
        res: Result<Option<Seq<Result<Seq<usize>, QuadsError>>>, QuadsError>,
    )
        requires
            self.intact(),
            self.prefix_answer(first, second, res),
            first < self.config().num_terms,
        ensures
            res matches Ok(found) && match found {
                None => second is Some && with_prefix(self.quads(), first, second).len() == 0,
                Some(found) => found == results(with_prefix(self.quads(), first, second), None),
            },
    {
        let p = self.partition_of_term(first);
        lemma_partition_of_term(
            self.config.num_terms as nat,
            self.config.num_partitions as nat,
            first as nat,
        );
        assert(self.partitions()[p].intact());
        lemma_prefix_in_partition(self.partitions(), self.config(), p, first, second);
        if second is None {
            self.partitions()[p].lemma_first_term(first);
        }
    }

    /// The quads that start with a term, then the error that is met before the end of them is, if
    /// one is.
    pub fn iter_quads_by_first_term(&self, term: usize) -> (res: Result<
        Vec<Result<[usize; 4], QuadsError>>,
        QuadsError,
    >)
        requires
            self.well_formed(),
        ensures
            self.prefix_answer(term, None, list_view(res)),
    {
        self.get_partition(term)?.iter_quads_by_first_term(term)
    }

    /// The quads that start with two terms, then the error that is met before the end of them is,
    /// if one is. `None` says that there are no such quads.
    pub fn iter_quads_by_first_two_terms(&self, term1: usize, term2: usize) -> (res: Result<
        Option<Vec<Result<[usize; 4], QuadsError>>>,
        QuadsError,
    >)
        requires
            self.well_formed(),
        ensures
            self.prefix_answer(term1, Some(term2), answer_view(res)),
    {
        self.get_partition(term1)?.iter_quads_by_first_two_terms(term1, term2)
    }

    /// All the quads, one partition after the other, with the errors that end those that cannot be
    /// read to the end.
    pub fn iter_all_quads(&self) -> (list: Vec<Result<[usize; 4], QuadsError>>)
        requires
            self.well_formed(),
        ensures
            result_views(list@) == results_of_partitions(self.partitions()),
    {
        let mut list: Vec<Result<[usize; 4], QuadsError>> = Vec::new();
        let mut p: usize = 0;
        assert(result_views(list@) =~= results_of_partitions(self.partitions@.take(0)));
        while p < self.partitions.len()
            invariant
                self.well_formed(),
                p <= self.partitions@.len(),
                result_views(list@) == results_of_partitions(self.partitions@.take(p as int)),
            decreases self.partitions@.len() - p,
        {
            let mut more: Vec<Result<[usize; 4], QuadsError>> = self.partitions[p].iter_all_quads();
            let ghost before = list@;
            let ghost added = more@;
            list.append(&mut more);
            proof {
                assert(result_views(list@) =~= result_views(before) + result_views(added));
                assert(self.partitions@.take(p + 1).drop_last() =~= self.partitions@.take(
                    p as int,
                ));
            }
            p = p + 1;
        }
        assert(self.partitions@.take(p as int) =~= self.partitions@);
        list
    }
}

/// The partition of a term of a store, and its range of terms.
pub proof fn lemma_partition_of_term(num_terms: nat, num_partitions: nat, term: nat)
    requires
        num_partitions > 0,
        term < num_terms,
    ensures
        ({
            let size = terms_per_partition(num_terms, num_partitions);
            let p = term as int / size as int;
            &&& size > 0
            &&& 0 <= p < num_partitions
            &&& size * p <= term < size * p + terms_in_partition(
                num_terms,
                num_partitions,
                p as nat,
            )
        }),
{
    let size = terms_per_partition(num_terms, num_partitions);
    lemma_partition_terms(num_terms, num_partitions, 0);
    if size == 0 {
        assert(size * num_partitions == 0) by (nonlinear_arith)
            requires
                size == 0,
        ;
    }
    let p = term as int / size as int;
    vstd::arithmetic::div_mod::lemma_fundamental_div_mod(term as int, size as int);
    assert(0 <= p < num_partitions) by (nonlinear_arith)
        requires
            size * p <= term < size * p + size,
            0 <= term,
            term < size * num_partitions,
            size > 0,
    ;
    assert(size * (p + 1) == size * p + size) by (nonlinear_arith);
}

/// All the quads of intact partitions can be read.
pub proof fn lemma_intact_results(partitions: Seq<QuadPartition>)
    requires
        forall|p: int| 0 <= p < partitions.len() ==> (#[trigger] partitions[p]).intact(),
    ensures
        results_of_partitions(partitions) == results(quads_of_partitions(partitions), None),
    decreases partitions.len(),
{
    if partitions.len() == 0 {
        assert(results_of_partitions(partitions) =~= results(
            quads_of_partitions(partitions),
            None,
        ));
    } else {
        let n = partitions.len() - 1;
        assert(partitions[n].intact());
        let before = partitions.drop_last();
        assert forall|p: int| 0 <= p < before.len() implies (#[trigger] before[p]).intact() by {
            assert(before[p] == partitions[p]);
        }
        lemma_intact_results(before);
        assert(results_of_partitions(partitions) =~= results(
            quads_of_partitions(partitions),
            None,
        ));
    }
}

proof fn lemma_no_prefix(quads: Seq<Seq<usize>>, term: usize, second: Option<usize>)
    requires
        forall|i: int| 0 <= i < quads.len() ==> (#[trigger] quads[i])[0] != term,
    ensures
        with_prefix(quads, term, second) == Seq::<Seq<usize>>::empty(),
    decreases quads.len(),
{
    reveal(Seq::filter);
    if quads.len() > 0 {
        assert(quads[quads.len() - 1][0] != term);
        lemma_no_prefix(quads.drop_last(), term, second);
    }
}

/// A term is in a single partition.
pub proof fn lemma_terms_disjoint(config: QuadStoreConfiguration, p: int, q: int, term: int)
    requires
        config.num_partitions > 0,
        0 <= p,
        0 <= q,
        ({
            let size = terms_per_partition(config.num_terms as nat, config.num_partitions as nat);
            &&& size * p <= term < size * p + terms_in_partition(
                config.num_terms as nat,
                config.num_partitions as nat,
                p as nat,
            )
            &&& size * q <= term < size * q + terms_in_partition(
                config.num_terms as nat,
                config.num_partitions as nat,
                q as nat,
            )
        }),
    ensures
        p == q,
{
    let size = terms_per_partition(config.num_terms as nat, config.num_partitions as nat);
    let np = terms_in_partition(config.num_terms as nat, config.num_partitions as nat, p as nat);
    let nq = terms_in_partition(config.num_terms as nat, config.num_partitions as nat, q as nat);
    assert(size * (p + 1) == size * p + size) by (nonlinear_arith);
    assert(size * (q + 1) == size * q + size) by (nonlinear_arith);
    assert(np <= size && nq <= size);
    assert(p == q) by (nonlinear_arith)
        requires
            size * p <= term < size * p + size,
            size * q <= term < size * q + size,
            size >= 0,
    ;
}

/// The quads that start with a term are all in the partition of that term.
proof fn lemma_prefix_in_partition(
    partitions: Seq<QuadPartition>,
    config: QuadStoreConfiguration,
    p: int,
    term: usize,
    second: Option<usize>,
)
    requires
        config.num_partitions > 0,
        are_partitions(partitions, config),
        0 <= p < partitions.len(),
        partitions[p].first_term() <= term < partitions[p].first_term() + partitions[p].num_terms(),
    ensures
        with_prefix(quads_of_partitions(partitions), term, second) == with_prefix(
            partitions[p].quads(),
            term,
            second,
        ),
    decreases partitions.len(),
{
    let before = partitions.drop_last();
    let last = partitions.last();
    let n = partitions.len() - 1;
    let pred = |quad: Seq<usize>| has_prefix(quad, term, second);
    assert(partitions[n].intact());
    assert(are_partitions(before, config)) by {
        assert forall|q: int| 0 <= q < before.len() implies {
            &&& (#[trigger] before[q]).intact()
            &&& before[q].first_term() == terms_per_partition(
                config.num_terms as nat,
                config.num_partitions as nat,
            ) * q
            &&& before[q].num_terms() == terms_in_partition(
                config.num_terms as nat,
                config.num_partitions as nat,
                q as nat,
            )
        } by {
            assert(before[q] == partitions[q]);
        }
    }
    Seq::filter_distributes_over_add(quads_of_partitions(before), last.quads(), pred);
    assert(partitions[p].intact());
    if p == n {
        lemma_prefix_elsewhere(before, config, p, term, second);
        assert(with_prefix(quads_of_partitions(partitions), term, second) =~= with_prefix(
            last.quads(),
            term,
            second,
        ));
    } else {
        lemma_prefix_in_partition(before, config, p, term, second);
        last.lemma_quads();
        assert forall|i: int| 0 <= i < last.quads().len() implies (#[trigger] last.quads()[i])[0]
            != term by {
            if last.quads()[i][0] == term {
                lemma_terms_disjoint(config, p, n, term as int);
            }
        }
        lemma_no_prefix(last.quads(), term, second);
        assert(with_prefix(quads_of_partitions(partitions), term, second) =~= with_prefix(
            quads_of_partitions(before),
            term,
            second,
        ));
    }
}

proof fn lemma_prefix_elsewhere(
    partitions: Seq<QuadPartition>,
    config: QuadStoreConfiguration,
    p: int,
    term: usize,
    second: Option<usize>,
)
    requires
        config.num_partitions > 0,
        are_partitions(partitions, config),
        p >= partitions.len(),
        ({
            let size = terms_per_partition(config.num_terms as nat, config.num_partitions as nat);
            size * p <= term < size * p + terms_in_partition(
                config.num_terms as nat,
                config.num_partitions as nat,
                p as nat,
            )
        }),
    ensures
        with_prefix(quads_of_partitions(partitions), term, second) == Seq::<Seq<usize>>::empty(),
    decreases partitions.len(),
{
    if partitions.len() == 0 {
        lemma_no_prefix(quads_of_partitions(partitions), term, second);
    } else {
        let before = partitions.drop_last();
        let last = partitions.last();
        let n = partitions.len() - 1;
        let pred = |quad: Seq<usize>| has_prefix(quad, term, second);
        assert(partitions[n].intact());
        assert forall|q: int| 0 <= q < before.len() implies {
            &&& (#[trigger] before[q]).intact()
            &&& before[q].first_term() == terms_per_partition(
                config.num_terms as nat,
                config.num_partitions as nat,
            ) * q
            &&& before[q].num_terms() == terms_in_partition(
                config.num_terms as nat,
                config.num_partitions as nat,
                q as nat,
            )
        } by {
            assert(before[q] == partitions[q]);
        }
        Seq::filter_distributes_over_add(quads_of_partitions(before), last.quads(), pred);
        lemma_prefix_elsewhere(before, config, p, term, second);
        last.lemma_quads();
        assert forall|i: int| 0 <= i < last.quads().len() implies (#[trigger] last.quads()[i])[0]
            != term by {
            if last.quads()[i][0] == term {
                lemma_terms_disjoint(config, p, n, term as int);
            }
        }
        lemma_no_prefix(last.quads(), term, second);
        assert(with_prefix(quads_of_partitions(partitions), term, second) =~= Seq::empty());
    }
}

/// Whether an index of a partition of a store is too large to be built.
pub open spec fn partition_too_large(
    file: SortedArraysFile<4>,
    config: QuadStoreConfiguration,
    p: nat,
) -> bool {
    let num_terms = terms_in_partition(config.num_terms as nat, config.num_partitions as nat, p);
    ||| too_large_to_index(file, num_terms)
    ||| too_large_to_index(file, frame_starts(file.listing()).len())
}

/// Whether a file cannot be a partition of a store.
pub open spec fn partition_fails(
    file: SortedArraysFile<4>,
    config: QuadStoreConfiguration,
    p: nat,
) -> bool {
    ||| partition_too_large(file, config, p)
    ||| partition_is_invalid(file, config, p)
}

/// Whether a file cannot be read, or has quads that are not those of a partition of a store.
pub open spec fn partition_is_invalid(
    file: SortedArraysFile<4>,
    config: QuadStoreConfiguration,
    p: nat,
) -> bool {
    let size = terms_per_partition(config.num_terms as nat, config.num_partitions as nat);
    let num_terms = terms_in_partition(config.num_terms as nat, config.num_partitions as nat, p);
    ||| !crate::quads_store::in_partition(file.listing(), (size * p) as int, num_terms as int)
    ||| file.read_error() is Some
}

/// Whether indexing a file as a partition of a store can give an error.
pub open spec fn partition_may_fail(
    file: SortedArraysFile<4>,
    config: QuadStoreConfiguration,
    p: nat,
    error: QuadsError,
) -> bool {
    let size = terms_per_partition(config.num_terms as nat, config.num_partitions as nat);
    let num_terms = terms_in_partition(config.num_terms as nat, config.num_partitions as nat, p);
    match error {
        QuadsError::IndexTooLarge => partition_too_large(file, config, p),
        QuadsError::WrongPartition => !crate::quads_store::in_partition(
            file.listing(),
            (size * p) as int,
            num_terms as int,
        ),
        QuadsError::Arrays(e) => file.read_error() == Some(e),
        QuadsError::StaticFunction => file.listing().len() > 0 && construction_failed(
            pair_keys(items_only(file.listing())),
        ),
        QuadsError::InvalidTerm => false,
        QuadsError::EmptyFrame => false,
    }
}

proof fn lemma_partition_count(
    quads: Seq<Seq<usize>>,
    max_value: nat,
    num_partitions: nat,
    p: int,
    quad: Seq<usize>,
)
    ensures
        quads_of_partition(quads, max_value, num_partitions, p).to_multiset().count(quad) == if
            partition_of(max_value, num_partitions, quad[0] as nat) == p {
            quads.to_multiset().count(quad)
        } else {
            0
        },
    decreases quads.len(),
{
    if quads.len() == 0 {
        reveal(Seq::filter);
        vstd::seq_lib::to_multiset_len(quads);
        assert(quads_of_partition(quads, max_value, num_partitions, p) =~= quads);
        assert(quads.to_multiset() =~= Multiset::empty());
    } else {
        let before = quads.drop_last();
        assert(quads =~= before.push(quads.last()));
        lemma_partition_count(before, max_value, num_partitions, p, quad);
        lemma_filter_push(before, quads.last(), max_value, num_partitions, p);
        vstd::seq_lib::to_multiset_build(before, quads.last());
    }
}

/// The quads of a partition do not depend on the order in which quads are given.
pub proof fn lemma_same_partition(
    a: Seq<Seq<usize>>,
    b: Seq<Seq<usize>>,
    max_value: nat,
    num_partitions: nat,
    p: int,
)
    requires
        a.to_multiset() == b.to_multiset(),
    ensures
        quads_of_partition(a, max_value, num_partitions, p).to_multiset() == quads_of_partition(
            b,
            max_value,
            num_partitions,
            p,
        ).to_multiset(),
{
    let x = quads_of_partition(a, max_value, num_partitions, p).to_multiset();
    let y = quads_of_partition(b, max_value, num_partitions, p).to_multiset();
    assert forall|quad: Seq<usize>| #[trigger] x.count(quad) == y.count(quad) by {
        lemma_partition_count(a, max_value, num_partitions, p, quad);
        lemma_partition_count(b, max_value, num_partitions, p, quad);
    }
    assert(x =~= y);
}

proof fn lemma_files_count(
    files: Seq<SortedArraysFile<4>>,
    quads: Seq<Seq<usize>>,
    max_value: nat,
    num_partitions: nat,
    quad: Seq<usize>,
)
    requires
        forall|p: int|
            0 <= p < files.len() ==> items_only((#[trigger] files[p]).listing()).to_multiset()
                == quads_of_partition(quads, max_value, num_partitions, p).to_multiset(),
    ensures
        quads_of_files(files).to_multiset().count(quad) == if partition_of(
            max_value,
            num_partitions,
            quad[0] as nat,
        ) < files.len() {
            quads.to_multiset().count(quad)
        } else {
            0
        },
    decreases files.len(),
{
    if files.len() == 0 {
        vstd::seq_lib::to_multiset_len(Seq::<Seq<usize>>::empty());
        assert(quads_of_files(files).to_multiset() =~= Multiset::empty());
    } else {
        let before = files.drop_last();
        let n = files.len() - 1;
        assert forall|p: int| 0 <= p < before.len() implies items_only(
            (#[trigger] before[p]).listing(),
        ).to_multiset() == quads_of_partition(
            quads,
            max_value,
            num_partitions,
            p,
        ).to_multiset() by {
            assert(before[p] == files[p]);
        }
        lemma_files_count(before, quads, max_value, num_partitions, quad);
        lemma_partition_count(quads, max_value, num_partitions, n, quad);
        assert(files[n] == files.last());
        vstd::seq_lib::lemma_multiset_commutative(
            quads_of_files(before),
            items_only(files.last().listing()),
        );
    }
}

/// The files of the partitions hold, together, the quads that were compressed, each as many times
/// as it was given.
pub proof fn lemma_compressed_quads(
    files: Seq<SortedArraysFile<4>>,
    quads: Seq<[usize; 4]>,
    order: QuadOrder,
    num_terms: nat,
)
    requires
        num_terms >= 2,
        files.len() > 0,
        forall|i: int|
            0 <= i < quads.len() ==> (#[trigger] ordered_quads(quads, order)[i])[0] < num_terms,
        forall|p: int|
            0 <= p < files.len() ==> items_only((#[trigger] files[p]).listing()).to_multiset()
                == quads_of_partition(
                ordered_quads(quads, order),
                (num_terms - 1) as nat,
                files.len(),
                p,
            ).to_multiset(),
    ensures
        quads_of_files(files).to_multiset() == ordered_quads(quads, order).to_multiset(),
{
    let ordered = ordered_quads(quads, order);
    let max_value = (num_terms - 1) as nat;
    assert forall|quad: Seq<usize>| #[trigger] quads_of_files(files).to_multiset().count(quad)
        == ordered.to_multiset().count(quad) by {
        lemma_files_count(files, ordered, max_value, files.len(), quad);
        if ordered.to_multiset().count(quad) > 0 {
            vstd::seq_lib::to_multiset_contains(ordered, quad);
            assert(ordered.contains(quad));
            let i = choose|i: int| 0 <= i < ordered.len() && ordered[i] == quad;
            assert(ordered[i][0] < num_terms);
            crate::array_sorter::lemma_partition_in_range(
                max_value,
                files.len(),
                quad[0] as nat,
            );
        }
    }
    assert(quads_of_files(files).to_multiset() =~= ordered.to_multiset());
}

/// In one order, a quad is as it was given: subject, predicate, object and graph; in the other one,
/// its subject and its object change places.
pub proof fn lemma_orders(subject: usize, predicate: usize, object: usize, graph: usize)
    ensures
        QuadOrder::Spog.order(seq![subject, predicate, object, graph]) == seq![
            subject,
            predicate,
            object,
            graph,
        ],
        QuadOrder::Opsg.order(seq![subject, predicate, object, graph]) == seq![
            object,
            predicate,
            subject,
            graph,
        ],
{
    let quad = seq![subject, predicate, object, graph];
    assert(QuadOrder::Opsg.order(quad) =~= seq![object, predicate, subject, graph]);
}

/// The quads of files are those of the first ones and then those of the others, wherever their list
/// is cut; those of a single file are its own.
pub proof fn lemma_quads_of_files(
    a: Seq<SortedArraysFile<4>>,
    b: Seq<SortedArraysFile<4>>,
    file: SortedArraysFile<4>,
)
    ensures
        quads_of_files(a + b) == quads_of_files(a) + quads_of_files(b),
        quads_of_files(seq![file]) == items_only(file.listing()),
    decreases b.len(),
{
    let one = seq![file];
    assert(one.drop_last() =~= Seq::empty());
    assert(quads_of_files(one.drop_last()) =~= Seq::empty());
    assert(one.last() == file);
    assert(quads_of_files(one) =~= items_only(file.listing()));
    if b.len() == 0 {
        assert(a + b =~= a);
        assert(quads_of_files(a) + quads_of_files(b) =~= quads_of_files(a));
    } else {
        lemma_quads_of_files(a, b.drop_last(), file);
        assert((a + b).drop_last() =~= a + b.drop_last());
        assert((a + b).last() == b.last());
        assert(quads_of_files(a + b) =~= quads_of_files(a) + quads_of_files(b));
    }
}

/// Which quads start with given terms: those of the list whose first term, and second one if it is
/// given, are these, as many times and in the same order as in the list.
pub proof fn lemma_with_prefix(
    a: Seq<Seq<usize>>,
    b: Seq<Seq<usize>>,
    quad: Seq<usize>,
    first: usize,
    second: Option<usize>,
)
    ensures
        with_prefix(a + b, first, second) == with_prefix(a, first, second) + with_prefix(
            b,
            first,
            second,
        ),
        with_prefix(seq![quad], first, second) == if quad[0] == first && (second is None || quad[1]
            == second->Some_0) {
            seq![quad]
        } else {
            Seq::empty()
        },
{
    let pred = |quad: Seq<usize>| has_prefix(quad, first, second);
    Seq::filter_distributes_over_add(a, b, pred);
    reveal(Seq::filter);
    let one = seq![quad];
    assert(one.drop_last() =~= Seq::empty());
    assert(one.drop_last().filter(pred) =~= Seq::empty());
    assert(one.last() == quad);
    assert(Seq::<Seq<usize>>::empty().push(quad) =~= one);
    assert(one.filter(pred) =~= if pred(quad) {
        one
    } else {
        Seq::empty()
    });
}

} // verus!
