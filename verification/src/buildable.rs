//! When a dataset can be built: the sizes of the files that quads and their terms are written to,
//! and the causes for which a construction may fail.

use crate::array_sorter::partition_of;
use crate::arrays::{
    item_views, items_only, lemma_written_len, storable, zero_cells, SortedArraysFile,
};
use crate::database_builder::{
    build_may_fail, ids_compressible, ids_of, ids_too_large, quad_ids, some_file_too_large,
    some_too_large, BuildError,
};
use crate::frames::frame_starts;
use crate::front_coding::{
    frame_code, frames_code, front_code, lemma_common_prefix, lemma_varint_round_trip,
};
use crate::indexes::func_values;
use crate::loading::{all_below, all_written, holds_ids};
use crate::quads::{
    compressible, ordered_quads, partition_too_large, quads_of_partition, terms_in_partition,
    QuadOrder, QuadStoreConfiguration,
};
use crate::quads_store::pair_keys;
use crate::secondary_indexes::second_terms_of;
use crate::strings::{
    bytes_lt, lemma_bytes_asymmetric, lemma_bytes_irreflexive, strings_increasing,
};
use crate::terms::QuadView;
use crate::terms_store::{
    ceil_div, file_error, file_num_terms, file_strings, lemma_ceil_div, lemma_file_num_terms,
    lemma_valid_file_is_indexed, stores, TermStoreConfiguration, TermsError,
};
use crate::terms_writer::{are_written, quad_strings, quads_strings};
use vstd::prelude::*;

verus! {

/// The number of bytes of strings, together.
pub open spec fn total_len(strings: Seq<Seq<u8>>) -> nat
    decreases strings.len(),
{
    if strings.len() == 0 {
        0
    } else {
        strings[0].len() + total_len(strings.drop_first())
    }
}

proof fn lemma_total_len_add(a: Seq<Seq<u8>>, b: Seq<Seq<u8>>)
    ensures
        total_len(a + b) == total_len(a) + total_len(b),
    decreases a.len(),
{
    if a.len() == 0 {
        assert(a + b =~= b);
    } else {
        lemma_total_len_add(a.drop_first(), b);
        assert((a + b).drop_first() =~= a.drop_first() + b);
    }
}

proof fn lemma_total_len_part(strings: Seq<Seq<u8>>, i: int, j: int)
    requires
        0 <= i <= j <= strings.len(),
    ensures
        total_len(strings.subrange(i, j)) <= total_len(strings),
{
    lemma_total_len_add(strings.take(i), strings.subrange(i, j));
    lemma_total_len_add(strings.take(j), strings.skip(j));
    assert(strings.take(i) + strings.subrange(i, j) =~= strings.take(j));
    assert(strings.take(j) + strings.skip(j) =~= strings);
}

proof fn lemma_frame_len(prev: Seq<u8>, strings: Seq<Seq<u8>>)
    requires
        frame_code(prev, strings) is Ok,
    ensures
        frame_code(prev, strings)->Ok_0.len() <= total_len(strings) + 10 * strings.len(),
    decreases strings.len(),
{
    if strings.len() > 0 {
        lemma_frame_len(strings[0], strings.drop_first());
        lemma_common_prefix(prev, strings[0]);
        let shared = crate::front_coding::common_prefix(prev, strings[0]);
        lemma_varint_round_trip(Seq::empty(), (prev.len() - shared) as nat, Seq::empty());
        lemma_varint_round_trip(Seq::empty(), (strings[0].len() - shared) as nat, Seq::empty());
        assert(front_code(prev, strings[0]).len() <= strings[0].len() + 10);
    }
}

proof fn lemma_frames_len(max: nat, strings: Seq<Seq<u8>>)
    requires
        frames_code(max, strings) is Ok,
    ensures
        frames_code(max, strings)->Ok_0.len() <= total_len(strings) + 10 * strings.len(),
    decreases strings.len(),
{
    if strings.len() > 0 && max > 0 {
        let n = if strings.len() < max {
            strings.len() as int
        } else {
            max as int
        };
        lemma_frame_len(Seq::empty(), strings.take(n));
        lemma_frames_len(max, strings.skip(n));
        lemma_total_len_add(strings.take(n), strings.skip(n));
        assert(strings.take(n) + strings.skip(n) =~= strings);
    }
}

/// The files of strings that are not too many, nor too long together, can be indexed.
pub proof fn lemma_terms_fit(
    config: TermStoreConfiguration,
    files: Seq<Seq<u8>>,
    strings: Seq<Seq<u8>>,
)
    requires
        config.well_formed(),
        stores(config, files, strings),
        are_written(config, files, strings),
        total_len(strings) + 11 * strings.len() < usize::MAX / 2,
    ensures
        !some_file_too_large(config, files),
{
    if some_file_too_large(config, files) {
        let i = choose|i: int|
            0 <= i < files.len() && file_error(config, #[trigger] files[i], i) == Some(
                TermsError::IndexTooLarge,
            );
        let max = config.terms_per_frame as nat;
        let held = file_strings(strings, config.terms_per_file(), i);
        lemma_file_num_terms(config, i);
        lemma_total_len_part(
            strings,
            i * config.terms_per_file(),
            crate::terms_store::file_end(strings.len(), config.terms_per_file(), i),
        );
        lemma_frames_len(max, held);
        lemma_valid_file_is_indexed(files[i], max, file_num_terms(config, i) as nat);
        let k = file_num_terms(config, i) as nat;
        lemma_ceil_div(k, max);
        assert(ceil_div(k, max) <= k) by (nonlinear_arith)
            requires
                ceil_div(k, max) > 0 ==> (ceil_div(k, max) - 1) * max < k,
                max > 0,
        ;
        assert(false);
    }
}

/// Whether a quad of ids is one that can be written: not all its ids are zero.
pub open spec fn no_zero_quad(ids: Seq<[usize; 4]>) -> bool {
    forall|i: int| 0 <= i < ids.len() ==> (#[trigger] ids[i])@ != zero_cells(4)
}

proof fn lemma_ordered_storable(ids: Seq<[usize; 4]>, order: QuadOrder, num_terms: usize, i: int)
    requires
        all_below(ids, num_terms),
        no_zero_quad(ids),
        num_terms < usize::MAX / 2,
        0 <= i < ids.len(),
    ensures
        ordered_quads(ids, order)[i].len() == 4,
        storable(ordered_quads(ids, order)[i]),
{
    let quad = ids[i]@;
    let ordered = ordered_quads(ids, order)[i];
    assert(ordered == order.order(quad));
    assert(quad[0] < num_terms && quad[1] < num_terms && quad[2] < num_terms && quad[3]
        < num_terms) by {
        assert(ids[i]@[0] < num_terms);
        assert(ids[i]@[1] < num_terms);
        assert(ids[i]@[2] < num_terms);
        assert(ids[i]@[3] < num_terms);
    }
    if ordered == zero_cells(4) {
        assert(ordered[0] == 0 && ordered[1] == 0 && ordered[2] == 0 && ordered[3] == 0);
        assert(quad =~= zero_cells(4));
    }
}

proof fn lemma_frame_starts_len(items: Seq<crate::arrays::PositionedItem>)
    ensures
        frame_starts(items).len() <= items.len(),
    decreases items.len(),
{
    if items.len() > 0 {
        lemma_frame_starts_len(items.drop_last());
    }
}

/// The files of quads of ids that are not too many can be indexed.
pub proof fn lemma_quads_fit(
    config: QuadStoreConfiguration,
    files: Seq<SortedArraysFile<4>>,
    ids: Seq<[usize; 4]>,
    order: QuadOrder,
)
    requires
        holds_ids(config, files, ids, order),
        all_written(files),
        all_below(ids, config.num_terms),
        no_zero_quad(ids),
        510 * ids.len() + config.num_terms + 68 < usize::MAX / 2,
    ensures
        !some_too_large(config, files),
{
    if some_too_large(config, files) {
        let p = choose|p: int|
            0 <= p < files.len() && partition_too_large(#[trigger] files[p], config, p as nat);
        let ordered = ordered_quads(ids, order);
        let max_value = (config.num_terms - 1) as nat;
        let n = config.num_partitions as nat;
        let pred = |quad: Seq<usize>| partition_of(max_value, n, quad[0] as nat) == p;
        let here = quads_of_partition(ordered, max_value, n, p);
        let items = items_only(files[p].listing());
        vstd::seq_lib::to_multiset_len(items);
        vstd::seq_lib::to_multiset_len(here);
        ordered.lemma_filter_len(pred);
        assert forall|k: int| 0 <= k < files[p].listing().len() implies (#[trigger] items[k]).len()
            == 4 && storable(items[k]) by {
            vstd::seq_lib::to_multiset_contains(items, items[k]);
            vstd::seq_lib::to_multiset_contains(here, items[k]);
            assert(items.contains(items[k]));
            assert(here.contains(items[k]));
            ordered.lemma_filter_contains_rev(pred, items[k]);
            let i = choose|i: int| 0 <= i < ordered.len() && ordered[i] == items[k];
            lemma_ordered_storable(ids, order, config.num_terms, i);
        }
        lemma_written_len(files[p]);
        lemma_frame_starts_len(files[p].listing());
        let t = terms_in_partition(config.num_terms as nat, n, p as nat);
        lemma_terms_in_partition(config.num_terms as nat, n, p as nat);
        let len = files[p].listing().len();
        let cells: usize = 4;
        assert(len * (127 * cells + 1) == 509 * len) by (nonlinear_arith)
            requires
                cells == 4,
        ;
        assert(false);
    }
}

proof fn lemma_terms_in_partition(num_terms: nat, num_partitions: nat, p: nat)
    requires
        num_partitions > 0,
    ensures
        terms_in_partition(num_terms, num_partitions, p) <= num_terms,
{
    let size = crate::quads::terms_per_partition(num_terms, num_partitions);
    assert(size <= size * (p + 1)) by (nonlinear_arith);
    assert(size * p >= 0) by (nonlinear_arith);
}

/// There is a single way to put a set of strings in increasing order.
pub proof fn lemma_increasing_same(a: Seq<Seq<u8>>, b: Seq<Seq<u8>>)
    requires
        strings_increasing(a),
        strings_increasing(b),
        a.to_set() == b.to_set(),
    ensures
        a == b,
    decreases a.len(),
{
    if a.len() == 0 {
        if b.len() > 0 {
            assert(b.to_set().contains(b[0]));
            assert(a.contains(b[0]));
        }
        assert(a =~= b);
    } else {
        assert(a.to_set().contains(a.last()));
        assert(b.contains(a.last()));
        let j = choose|j: int| 0 <= j < b.len() && b[j] == a.last();
        assert(b.to_set().contains(b.last()));
        assert(a.contains(b.last()));
        let i = choose|i: int| 0 <= i < a.len() && a[i] == b.last();
        if i < a.len() - 1 {
            assert(bytes_lt(a[i], a.last()));
            if j < b.len() - 1 {
                assert(bytes_lt(b[j], b.last()));
                lemma_bytes_asymmetric(a.last(), b.last());
            } else {
                lemma_bytes_irreflexive(a.last());
            }
        }
        assert(a.last() == b.last());
        let (x, y) = (a.drop_last(), b.drop_last());
        assert forall|s: Seq<u8>| #[trigger] x.to_set().contains(s) <==> y.to_set().contains(s) by {
            if x.contains(s) {
                let k = choose|k: int| 0 <= k < x.len() && x[k] == s;
                assert(bytes_lt(a[k], a.last()));
                lemma_bytes_irreflexive(a.last());
                assert(a.to_set().contains(a[k]));
                assert(b.contains(s));
                let l = choose|l: int| 0 <= l < b.len() && b[l] == s;
                assert(y[l] == s);
            }
            if y.contains(s) {
                let k = choose|k: int| 0 <= k < y.len() && y[k] == s;
                assert(bytes_lt(b[k], b.last()));
                lemma_bytes_irreflexive(b.last());
                assert(b.to_set().contains(b[k]));
                assert(a.contains(s));
                let l = choose|l: int| 0 <= l < a.len() && a[l] == s;
                assert(x[l] == s);
            }
        }
        assert(x.to_set() =~= y.to_set());
        lemma_increasing_same(x, y);
        assert(a =~= x.push(a.last()));
        assert(b =~= y.push(b.last()));
    }
}

/// Whether the four terms of a quad are the same one.
pub open spec fn same_terms(quad: QuadView) -> bool {
    let strings = quad_strings(quad);
    strings[0] == strings[1] && strings[1] == strings[2] && strings[2] == strings[3]
}

/// Whether terms and quads are few enough for all that is written of them to be indexed.
pub open spec fn sizes_fit(strings: Seq<Seq<u8>>, num_quads: nat, num_partitions: nat) -> bool {
    &&& strings.len() + num_partitions <= usize::MAX
    &&& total_len(strings) + 11 * strings.len() < usize::MAX / 2
    &&& 510 * num_quads + 2 * strings.len() + 68 < usize::MAX / 2
}

proof fn lemma_second_terms_len(quads: Seq<Seq<usize>>)
    ensures
        second_terms_of(quads).len() <= quads.len(),
{
    let f = |quad: Seq<usize>| quad[1];
    let seconds = quads.map_values(f);
    assert forall|term: usize| #[trigger] second_terms_of(quads).contains(term)
        <==> seconds.to_set().contains(term) by {
        if second_terms_of(quads).contains(term) {
            let i = choose|i: int| 0 <= i < quads.len() && (#[trigger] quads[i])[1] == term;
            assert(seconds[i] == term);
        }
        if seconds.contains(term) {
            let i = choose|i: int| 0 <= i < seconds.len() && seconds[i] == term;
            assert(quads[i][1] == term);
        }
    }
    assert(second_terms_of(quads) =~= seconds.to_set());
    seconds.lemma_cardinality_of_set();
}

proof fn lemma_ids_fit(
    quads: Seq<QuadView>,
    strings: Seq<Seq<u8>>,
    ids: Seq<[usize; 4]>,
    num_partitions: nat,
)
    requires
        ids_of(strings, quads, item_views(ids)),
        forall|i: int| 0 <= i < quads.len() ==> !same_terms(#[trigger] quads[i]),
        sizes_fit(strings, quads.len(), num_partitions),
    ensures
        ids_compressible(ids),
        !ids_too_large(ids, strings.len(), num_partitions),
{
    let num_terms = strings.len() as usize;
    let all = item_views(ids);
    assert(all.len() == ids.len());
    assert forall|i: int, j: int| 0 <= i < ids.len() && 0 <= j < 4 implies (#[trigger] ids[i]@[j])
        < num_terms by {
        assert(all[i] == ids[i]@);
        assert(quad_ids(strings, quads[i], all[i]));
        assert(all[i][j] < strings.len());
    }
    assert forall|i: int| 0 <= i < ids.len() implies (#[trigger] ids[i])@ != zero_cells(4) by {
        assert(all[i] == ids[i]@);
        assert(quad_ids(strings, quads[i], all[i]));
        if ids[i]@ == zero_cells(4) {
            assert(all[i][0] == 0 && all[i][1] == 0 && all[i][2] == 0 && all[i][3] == 0);
            assert(same_terms(quads[i]));
        }
    }
    assert forall|order: QuadOrder| #[trigger] compressible(ordered_quads(ids, order)) by {
        let ordered = ordered_quads(ids, order);
        assert forall|i: int| 0 <= i < ordered.len() implies storable(#[trigger] ordered[i]) by {
            lemma_ordered_storable(ids, order, num_terms, i);
        }
        let len = ordered.len();
        assert((4 * len + 4) * usize::BITS <= (4 * len + 4) * 64) by (nonlinear_arith)
            requires
                usize::BITS <= 64,
        ;
    }
    lemma_second_terms_len(all);
    if ids_too_large(ids, strings.len(), num_partitions) {
        let (config, files, stored, order) = choose|
            config: QuadStoreConfiguration,
            files: Seq<SortedArraysFile<4>>,
            stored: Seq<[usize; 4]>,
            order: QuadOrder,
        | #[trigger]
            holds_ids(config, files, stored, order) && config.num_terms == strings.len()
                && config.num_partitions == num_partitions && item_views(stored).to_multiset()
                == item_views(ids).to_multiset() && all_written(files) && some_too_large(
                config,
                files,
            );
        vstd::seq_lib::to_multiset_len(item_views(stored));
        vstd::seq_lib::to_multiset_len(all);
        assert forall|i: int| 0 <= i < stored.len() implies exists|k: int|
            0 <= k < ids.len() && #[trigger] ids[k]@ == (#[trigger] stored[i])@ by {
            assert(item_views(stored)[i] == stored[i]@);
            vstd::seq_lib::to_multiset_contains(item_views(stored), stored[i]@);
            vstd::seq_lib::to_multiset_contains(all, stored[i]@);
            assert(item_views(stored).contains(stored[i]@));
            assert(all.contains(stored[i]@));
            let k = choose|k: int| 0 <= k < all.len() && all[k] == stored[i]@;
            assert(ids[k]@ == stored[i]@);
        }
        assert forall|i: int, j: int| 0 <= i < stored.len() && 0 <= j < 4 implies (
        #[trigger] stored[i]@[j]) < num_terms by {
            let k = choose|k: int| 0 <= k < ids.len() && #[trigger] ids[k]@ == stored[i]@;
            assert(ids[k]@[j] < num_terms);
        }
        assert forall|i: int| 0 <= i < stored.len() implies (#[trigger] stored[i])@ != zero_cells(
            4,
        ) by {
            let k = choose|k: int| 0 <= k < ids.len() && #[trigger] ids[k]@ == stored[i]@;
            assert(ids[k]@ != zero_cells(4));
        }
        lemma_quads_fit(config, files, stored, order);
    }
}

/// The construction of a dataset does not fail without a cause: if there are two terms or more, no
/// quad is made of a single term, all that is written is small enough to be indexed, and no
/// construction of a static function failed, neither on the terms nor on the pairs of first terms
/// of a partition, then there is no error.
pub proof fn lemma_build_succeeds(
    quads: Seq<QuadView>,
    strings: Seq<Seq<u8>>,
    num_partitions: nat,
    e: BuildError,
)
    requires
        strings_increasing(strings),
        strings.to_set() == quads_strings(quads),
        strings.len() >= 2,
        forall|i: int| 0 <= i < quads.len() ==> !same_terms(#[trigger] quads[i]),
        sizes_fit(strings, quads.len(), num_partitions),
        forall|error: anyhow::Error| (#[trigger] func_values(Err(error))).dom() != strings.to_set(),
        forall|error: anyhow::Error, ids: Seq<[usize; 4]>, order: QuadOrder, p: int|
            ids_of(strings, quads, item_views(ids)) && 0 <= p < num_partitions ==> (
            #[trigger] func_values(Err(error))).dom() != pair_keys(
                #[trigger] quads_of_partition(
                    ordered_quads(ids, order),
                    (strings.len() - 1) as nat,
                    num_partitions,
                    p,
                ),
            ),
    ensures
        !build_may_fail(quads, num_partitions, e),
{
    if build_may_fail(quads, num_partitions, e) {
        lemma_terms_of_quads_fit(quads, strings, num_partitions);
        if let BuildError::Load(crate::loading::LoadError::TooFewTerms) = e {
            let few = choose|few: Seq<Seq<u8>>|
                few.len() < 2 && #[trigger] few.to_set() == quads_strings(quads);
            lemma_two_strings(strings, few);
        }
        assert forall|other: Seq<Seq<u8>>, ids: Seq<[usize; 4]>| #[trigger]
            ids_of(other, quads, item_views(ids)) && strings_increasing(other) && other.to_set()
                == quads_strings(quads) implies {
            &&& ids_of(strings, quads, item_views(ids))
            &&& other == strings
            &&& ids_compressible(ids)
            &&& !ids_too_large(ids, strings.len(), num_partitions)
        } by {
            lemma_increasing_same(other, strings);
            lemma_ids_fit(quads, strings, ids, num_partitions);
        }
        assert(false);
    }
}

proof fn lemma_two_strings(strings: Seq<Seq<u8>>, few: Seq<Seq<u8>>)
    requires
        strings_increasing(strings),
        strings.len() >= 2,
        strings.to_set() == few.to_set(),
    ensures
        few.len() >= 2,
{
    assert(strings.to_set().contains(strings[0]));
    assert(strings.to_set().contains(strings[1]));
    assert(few.contains(strings[0]) && few.contains(strings[1]));
    lemma_bytes_irreflexive(strings[0]);
    let i = choose|i: int| 0 <= i < few.len() && few[i] == strings[0];
    let j = choose|j: int| 0 <= j < few.len() && few[j] == strings[1];
    assert(bytes_lt(strings[0], strings[1]));
}

proof fn lemma_terms_of_quads_fit(
    quads: Seq<QuadView>,
    strings: Seq<Seq<u8>>,
    num_partitions: nat,
)
    requires
        strings_increasing(strings),
        strings.to_set() == quads_strings(quads),
        sizes_fit(strings, quads.len(), num_partitions),
    ensures
        !crate::database_builder::terms_too_large(quads),
        !crate::database_builder::too_many_terms(quads, num_partitions),
{
    assert forall|config: TermStoreConfiguration, files: Seq<Seq<u8>>, other: Seq<Seq<u8>>|
        config.well_formed() && strings_increasing(other) && other.to_set() == quads_strings(quads)
            && #[trigger] stores(config, files, other) && are_written(
            config,
            files,
            other,
        ) implies !some_file_too_large(config, files) by {
        lemma_increasing_same(other, strings);
        lemma_terms_fit(config, files, strings);
    }
    assert forall|other: Seq<Seq<u8>>|
        strings_increasing(other) && #[trigger] other.to_set() == quads_strings(
            quads,
        ) implies other.len() + num_partitions <= usize::MAX by {
        lemma_increasing_same(other, strings);
    }
}

/// The files that are written for the terms of quads are read back as the strings of these terms,
/// sorted and without duplicates, each of which is found by its position.
pub proof fn lemma_written_strings(
    config: TermStoreConfiguration,
    files: Seq<Seq<u8>>,
    quads: Seq<QuadView>,
) -> (strings: Seq<Seq<u8>>)
    requires
        config.well_formed(),
        crate::terms_writer::holds_strings(config, files, quads_strings(quads)),
    ensures
        strings_increasing(strings),
        strings.len() == config.num_terms,
        forall|string: Seq<u8>|
            strings.contains(string) <==> #[trigger] quads_strings(quads).contains(string),
        crate::terms_mphf::files_strings(files, config.terms_per_frame as nat) == (
            strings,
            None::<crate::front_coding::FrameError>,
        ),
        forall|id: nat|
            #[trigger] crate::terms_store::term_at(config, files, id) == Ok::<
                Option<Seq<u8>>,
                crate::front_coding::FrameError,
            >(
                if id < strings.len() {
                    Some(strings[id as int])
                } else {
                    None
                },
            ),
{
    let strings = choose|strings: Seq<Seq<u8>>|
        {
            &&& strings_increasing(strings)
            &&& strings.to_set() == quads_strings(quads)
            &&& #[trigger] stores(config, files, strings)
            &&& are_written(config, files, strings)
        };
    assert forall|string: Seq<u8>|
        strings.contains(string) <==> #[trigger] quads_strings(quads).contains(string) by {
        assert(strings.to_set().contains(string) <==> strings.contains(string));
    }
    crate::terms_mphf::lemma_files_strings(config, files, strings);
    assert forall|id: nat| #[trigger] crate::terms_store::term_at(config, files, id) == Ok::<
        Option<Seq<u8>>,
        crate::front_coding::FrameError,
    >(
        if id < strings.len() {
            Some(strings[id as int])
        } else {
            None
        },
    ) by {
        crate::terms_store::lemma_stored_term(config, files, strings, id);
    }
    strings
}

} // verus!
