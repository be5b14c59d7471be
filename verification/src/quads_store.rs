//! Sorted lists of quads of term ids, split into partitions by their first term, and the indexes
//! that find the quads with a given first term, or with given first two terms.

use crate::arrays::{
    item_views, items_only, lemma_listing_sorted, lemma_positions_increase, lemma_seek,
    ArraysError, ArraysReader, PositionedItem, SortedArraysFile,
};
use crate::frames::{
    frame_first, frame_id, frame_pos, frame_starts, lemma_frame_count, lemma_frame_first,
    lemma_frame_id_monotone, lemma_frame_of, lemma_frame_starts_increase,
    lemma_listing_well_framed,
};
use crate::bytes::push_le;
use crate::indexes::{
    build_func, construction_failed, func_get, positions_view, seq_get, seq_index_of, seq_len,
    sequence_of, MonotoneSeq, StaticFunc,
};
use crate::strings::string_views;
use vstd::prelude::*;

verus! {

/// Why a quad store could not be built or queried.
#[derive(Clone, Copy, Debug, PartialEq, Eq, Structural)]
pub enum QuadsError {
    /// A list of quads could not be written or read.
    Arrays(ArraysError),
    /// An index has too many entries, or too large ones.
    IndexTooLarge,
    /// The static function of the first two terms could not be built.
    StaticFunction,
    /// A quad is in a partition that is not that of its first term.
    WrongPartition,
    /// A term is not one of the store, or not one of the partition.
    InvalidTerm,
    /// There is no quad where an index says that a frame starts.
    EmptyFrame,
}

/// Whether an index of `n` positions in a file is too large to be built.
pub open spec fn too_large_to_index(quads: SortedArraysFile<4>, n: nat) -> bool {
    n + quads.bits().len() >= usize::MAX / 2
}

/// The number of bits of a file, unless an index of `n` positions in it is too large.
fn check_indexable(quads: &SortedArraysFile<4>, n: usize) -> (res: Result<usize, QuadsError>)
    ensures
        too_large_to_index(*quads, n as nat) ==> res == Err::<usize, QuadsError>(
            QuadsError::IndexTooLarge,
        ),
        !too_large_to_index(*quads, n as nat) ==> (res matches Ok(len) && len
            == quads.bits().len()),
{
    let len: usize = quads.file_len();
    if n as u128 + len as u128 * 8 >= (usize::MAX / 2) as u128 {
        return Err(QuadsError::IndexTooLarge);
    }
    Ok(len * 8)
}

/// Builds the index of the frames of a partition: the positions of the frames, in order.
#[verifier::rlimit(50)]
pub fn index_frames(quads: &SortedArraysFile<4>) -> (res: Result<MonotoneSeq, QuadsError>)
    ensures
        match quads.read_error() {
            Some(e) => res is Err && res->Err_0 == QuadsError::Arrays(e),
            None => if too_large_to_index(*quads, frame_starts(quads.listing()).len()) {
                res is Err && res->Err_0 == QuadsError::IndexTooLarge
            } else {
                res matches Ok(index) && positions_view(crate::indexes::seq_values(index))
                    == frame_starts(quads.listing())
            },
        },
{
    let fits: bool = check_indexable(quads, 0).is_ok();
    let mut reader = match quads.iter_with_positions(0) {
        Err(e) => {
            return Err(QuadsError::Arrays(e));
        },
        Ok(reader) => reader,
    };
    let ghost all = quads.listing();
    let mut positions: Vec<usize> = Vec::new();
    let ghost mut k: int = 0;
    proof {
        lemma_positions_increase(*quads);
    }
    assert(all.skip(0) =~= all);
    assert(positions_view(positions@) =~= frame_starts(all.take(0)));
    loop
        invariant_except_break
            reader.remaining() == (all.skip(k), quads.read_error()),
        invariant
            reader.well_formed(),
            0 <= k <= all.len(),
            all == quads.listing(),
            fits == !too_large_to_index(*quads, 0),
            forall|i: int|
                0 <= i < all.len() && (#[trigger] all[i]).0 is Some ==> all[i].0->Some_0
                    < quads.bits().len(),
            fits ==> positions_view(positions@) == frame_starts(all.take(k)),
        ensures
            quads.read_error() is None,
            k == all.len(),
        decreases all.len() - k,
    {
        match reader.next() {
            Err(e) => {
                return Err(QuadsError::Arrays(e));
            },
            Ok(None) => {
                assert(all.skip(k).len() == 0);
                break;
            },
            Ok(Some((position, _quad))) => {
                proof {
                    assert(all.skip(k)[0] == all[k]);
                    assert(all.skip(k).drop_first() =~= all.skip(k + 1));
                    assert(all.take(k + 1).drop_last() =~= all.take(k));
                    k = k + 1;
                }
                if let Some(bit_pos) = position {
                    if fits {
                        let ghost before = positions@;
                        positions.push(bit_pos as usize);
                        assert(positions_view(positions@) =~= positions_view(before).push(
                            bit_pos as nat,
                        ));
                    }
                }
            },
        }
    }
    assert(all.take(k) =~= all);
    if !fits {
        return Err(QuadsError::IndexTooLarge);
    }
    let num_bits: usize = check_indexable(quads, positions.len())?;
    proof {
        lemma_listing_well_framed(*quads);
        lemma_frame_starts_increase(all);
        lemma_frame_count(*quads);
        let starts = frame_starts(all);
        assert(positions@.len() == starts.len());
        assert forall|i: int| 0 <= i < positions@.len() implies positions@[i] == starts[i] by {
            assert(positions_view(positions@)[i] == starts[i]);
        }
        assert forall|i: int| 0 <= i < positions@.len() implies positions@[i] <= num_bits by {
            assert(positions@[i] == starts[i]);
        }
        assert forall|i: int, j: int| 0 <= i <= j < positions@.len() implies positions@[i]
            <= positions@[j] by {
            if i < j {
                assert(starts[i] < starts[j]);
            }
        }
    }
    Ok(sequence_of(&positions, num_bits))
}

/// The number of quads at the head of a list whose first term is smaller than `term`.
pub open spec fn count_below(quads: Seq<Seq<usize>>, term: int) -> nat
    decreases quads.len(),
{
    if quads.len() == 0 || quads[0][0] >= term {
        0
    } else {
        1 + count_below(quads.drop_first(), term)
    }
}

/// Where to start to read for the quads that start with `term`: the position of the first frame
/// with such a quad, or, if there are none, of the frame with the quad that `term` would come
/// right after.
pub open spec fn first_term_entry(items: Seq<PositionedItem>, term: int) -> nat {
    let k = count_below(items_only(items), term) as int;
    if k < items.len() && items[k].1[0] == term {
        frame_pos(items, k)
    } else {
        frame_pos(items, k - 1)
    }
}

proof fn lemma_count_below(quads: Seq<Seq<usize>>, term: int, k: int)
    requires
        0 <= k <= quads.len(),
        forall|i: int| 0 <= i < k ==> (#[trigger] quads[i])[0] < term,
        k < quads.len() ==> quads[k][0] >= term,
    ensures
        count_below(quads, term) == k,
    decreases k,
{
    if k > 0 {
        assert(quads[0][0] < term);
        let rest = quads.drop_first();
        assert forall|i: int| 0 <= i < k - 1 implies (#[trigger] rest[i])[0] < term by {
            assert(rest[i] == quads[i + 1]);
        }
        lemma_count_below(rest, term, k - 1);
    }
}

/// The position of the frame grows with the index of the quad.
proof fn lemma_frame_pos_monotone(items: Seq<PositionedItem>, i: int, j: int)
    requires
        crate::frames::well_framed(items),
        i <= j < items.len(),
    ensures
        frame_pos(items, i) <= frame_pos(items, j),
{
    if i >= 0 {
        lemma_frame_of(items, i);
        lemma_frame_of(items, j);
        lemma_frame_id_monotone(items, i, j);
        lemma_frame_starts_increase(items);
    }
}

/// The terms that a partition holds quads for: `num_terms` terms from `first` on.
pub open spec fn in_partition(items: Seq<PositionedItem>, first: int, num_terms: int) -> bool {
    forall|i: int|
        0 <= i < items.len() ==> first <= (#[trigger] items[i]).1[0] < first + num_terms
}

/// Builds the first-term index of a partition: for each of its terms, the position to start to
/// read from for the quads that start with it.
#[verifier::rlimit(50)]
pub fn index_quads_by_first_term(
    quads: &SortedArraysFile<4>,
    first_first_term: usize,
    num_terms: usize,
) -> (res: Result<MonotoneSeq, QuadsError>)
    ensures
        if too_large_to_index(*quads, num_terms as nat) {
            res is Err && res->Err_0 == QuadsError::IndexTooLarge
        } else if !in_partition(quads.listing(), first_first_term as int, num_terms as int) {
            res is Err && res->Err_0 == QuadsError::WrongPartition
        } else {
            match quads.read_error() {
                Some(e) => res is Err && res->Err_0 == QuadsError::Arrays(e),
                None => res matches Ok(index) && positions_view(
                    crate::indexes::seq_values(index),
                ) == Seq::new(
                    num_terms as nat,
                    |t: int| first_term_entry(quads.listing(), first_first_term + t),
                ),
            }
        },
{
    let num_bits: usize = check_indexable(quads, num_terms)?;
    let mut reader = match quads.iter_with_positions(0) {
        Err(e) => {
            return Err(QuadsError::Arrays(e));
        },
        Ok(reader) => reader,
    };
    let ghost all = quads.listing();
    let ghost first = first_first_term as int;
    let mut positions: Vec<usize> = Vec::new();
    // the position of the current frame, which stands for the terms that have no quad
    let mut previous_bit_pos: usize = 0;
    let ghost mut k: int = 0;
    proof {
        lemma_positions_increase(*quads);
        lemma_listing_sorted(*quads);
        lemma_listing_well_framed(*quads);
        assert(all.skip(0) =~= all);
    }
    loop
        invariant_except_break
            reader.remaining() == (all.skip(k), quads.read_error()),
        invariant
            reader.well_formed(),
            0 <= k <= all.len(),
            all == quads.listing(),
            first == first_first_term,
            num_bits == quads.bits().len(),
            num_bits + num_terms < usize::MAX / 2,
            crate::frames::well_framed(all),
            crate::arrays::is_sorted(items_only(all)),
            forall|i: int|
                0 <= i < all.len() && (#[trigger] all[i]).0 is Some ==> all[i].0->Some_0
                    < quads.bits().len(),
            forall|i: int| 0 <= i < all.len() ==> (#[trigger] all[i]).1.len() == 4,
            positions@.len() <= num_terms,
            previous_bit_pos == frame_pos(all, k - 1),
            previous_bit_pos <= num_bits,
            k == 0 ==> positions@.len() == 0,
            k > 0 ==> all[k - 1].1[0] == first + positions@.len() - 1,
            forall|i: int| 0 <= i < k ==> first <= (#[trigger] all[i]).1[0] < first + num_terms,
            forall|t: int|
                0 <= t < positions@.len() ==> (#[trigger] positions@[t]) == first_term_entry(
                    all,
                    first + t,
                ) && positions@[t] <= previous_bit_pos,
            forall|t: int, u: int|
                0 <= t <= u < positions@.len() ==> positions@[t] <= positions@[u],
        ensures
            quads.read_error() is None,
            k == all.len(),
        decreases all.len() - k,
    {
        match reader.next() {
            Err(e) => {
                proof {
                    assert(all.skip(k).len() == 0);
                }
                return Err(QuadsError::Arrays(e));
            },
            Ok(None) => {
                assert(all.skip(k).len() == 0);
                break;
            },
            Ok(Some((position, quad))) => {
                let ghost items = items_only(all);
                proof {
                    assert(all.skip(k)[0] == all[k]);
                    assert(all.skip(k).drop_first() =~= all.skip(k + 1));
                    assert(items[k] == quad@);
                }
                let term: usize = quad[0];
                if term < first_first_term || term - first_first_term >= num_terms {
                    assert(!(first <= all[k].1[0] < first + num_terms));
                    return Err(QuadsError::WrongPartition);
                }
                let relative_first_term: usize = term - first_first_term;
                let bit_pos: usize = match position {
                    Some(p) => p as usize,
                    None => previous_bit_pos,
                };
                assert(bit_pos == frame_pos(all, k));
                proof {
                    lemma_frame_pos_monotone(all, k - 1, k);
                    if k > 0 {
                        assert(!crate::arrays::lex_lt(items[k], items[k - 1]));
                        assert(all[k - 1].1[0] <= quad@[0]);
                    }
                    assert forall|i: int| 0 <= i < k implies (#[trigger] items[i])[0]
                        < first + positions@.len() by {
                        assert(!crate::arrays::lex_lt(items[k - 1], items[i]));
                        assert(all[i].1.len() == 4 && all[k - 1].1.len() == 4);
                        assert(items[i] == all[i].1 && items[k - 1] == all[k - 1].1);
                    }
                }
                // fill the blanks for terms with no quad
                while positions.len() < relative_first_term
                    invariant
                        0 <= k < all.len(),
                        relative_first_term < num_terms,
                        positions@.len() <= relative_first_term + 1,
                        relative_first_term + first == all[k].1[0],
                        items == items_only(all),
                        forall|i: int|
                            0 <= i < k ==> (#[trigger] items[i])[0] < first + positions@.len(),
                        previous_bit_pos == frame_pos(all, k - 1),
                        k > 0 ==> all[k - 1].1[0] < first + positions@.len(),
                        positions@.len() <= num_terms,
                        forall|t: int|
                            0 <= t < positions@.len() ==> (#[trigger] positions@[t])
                                == first_term_entry(all, first + t) && positions@[t]
                                <= previous_bit_pos,
                        forall|t: int, u: int|
                            0 <= t <= u < positions@.len() ==> positions@[t] <= positions@[u],
                    decreases relative_first_term - positions@.len(),
                {
                    proof {
                        lemma_count_below(items, first + positions@.len(), k);
                    }
                    positions.push(previous_bit_pos);
                }
                if positions.len() == relative_first_term {
                    proof {
                        lemma_count_below(items, first + relative_first_term, k);
                    }
                    positions.push(bit_pos);
                }
                previous_bit_pos = bit_pos;
                proof {
                    k = k + 1;
                }
            },
        }
    }
    while positions.len() < num_terms
        invariant
            k == all.len(),
            positions@.len() <= num_terms,
            crate::arrays::is_sorted(items_only(all)),
            forall|i: int| 0 <= i < all.len() ==> (#[trigger] all[i]).1.len() == 4,
            k > 0 ==> all[k - 1].1[0] < first + positions@.len(),
            previous_bit_pos == frame_pos(all, k - 1),
            forall|t: int|
                0 <= t < positions@.len() ==> (#[trigger] positions@[t]) == first_term_entry(
                    all,
                    first + t,
                ) && positions@[t] <= previous_bit_pos,
            forall|t: int, u: int|
                0 <= t <= u < positions@.len() ==> positions@[t] <= positions@[u],
        decreases num_terms - positions@.len(),
    {
        proof {
            let items = items_only(all);
            assert forall|i: int| 0 <= i < k implies (#[trigger] items[i])[0] < first
                + positions@.len() by {
                assert(!crate::arrays::lex_lt(items[k - 1], items[i]));
                assert(all[i].1.len() == 4 && all[k - 1].1.len() == 4);
                assert(items[i] == all[i].1 && items[k - 1] == all[k - 1].1);
            }
            lemma_count_below(items, first + positions@.len(), k);
        }
        positions.push(previous_bit_pos);
    }
    assert(positions_view(positions@) =~= Seq::new(
        num_terms as nat,
        |t: int| first_term_entry(quads.listing(), first_first_term + t),
    ));
    Ok(sequence_of(&positions, num_bits))
}

/// The lexicographic order on pairs, strict.
pub open spec fn pair_lt(a: (usize, usize), b: (usize, usize)) -> bool {
    a.0 < b.0 || (a.0 == b.0 && a.1 < b.1)
}

/// The first two terms of a quad.
pub open spec fn first_two(quad: Seq<usize>) -> (usize, usize) {
    (quad[0], quad[1])
}

/// The number of quads at the head of a list whose first two terms come before `pair`.
pub open spec fn count_below_pair(quads: Seq<Seq<usize>>, pair: (usize, usize)) -> nat
    decreases quads.len(),
{
    if quads.len() == 0 || !pair_lt(first_two(quads[0]), pair) {
        0
    } else {
        1 + count_below_pair(quads.drop_first(), pair)
    }
}

/// The number of frames from the first one with quads that start with the first term of `pair`, to
/// the first one with quads that start with both.
pub open spec fn pair_offset(items: Seq<PositionedItem>, pair: (usize, usize)) -> int {
    frame_id(items, count_below_pair(items_only(items), pair) as int) - frame_id(
        items,
        count_below(items_only(items), pair.0 as int) as int,
    )
}

/// The key of a pair of terms in the first-two-terms index.
pub open spec fn pair_key(pair: (usize, usize)) -> Seq<u8> {
    crate::bytes::le_bytes(pair.0 as nat, 8) + crate::bytes::le_bytes(pair.1 as nat, 8)
}

/// Different pairs of terms have different keys.
pub proof fn lemma_pair_key_injective(a: (usize, usize), b: (usize, usize))
    requires
        pair_key(a) == pair_key(b),
    ensures
        a == b,
{
    reveal_with_fuel(crate::bytes::byte_range, 9);
    crate::bytes::lemma_le_bytes_len(a.0 as nat, 8);
    crate::bytes::lemma_le_bytes_len(b.0 as nat, 8);
    assert(pair_key(a).take(8) =~= crate::bytes::le_bytes(a.0 as nat, 8));
    assert(pair_key(b).take(8) =~= crate::bytes::le_bytes(b.0 as nat, 8));
    assert(pair_key(a).skip(8) =~= crate::bytes::le_bytes(a.1 as nat, 8));
    assert(pair_key(b).skip(8) =~= crate::bytes::le_bytes(b.1 as nat, 8));
    crate::bytes::lemma_le_round_trip(a.0 as nat, 8);
    crate::bytes::lemma_le_round_trip(b.0 as nat, 8);
    crate::bytes::lemma_le_round_trip(a.1 as nat, 8);
    crate::bytes::lemma_le_round_trip(b.1 as nat, 8);
}

fn key_of_pair(first: usize, second: usize) -> (key: Vec<u8>)
    ensures
        key@ == pair_key((first, second)),
{
    let mut key: Vec<u8> = Vec::new();
    push_le(&mut key, first as u64, 8);
    push_le(&mut key, second as u64, 8);
    assert(key@ =~= pair_key((first, second)));
    key
}

proof fn lemma_count_below_pair(quads: Seq<Seq<usize>>, pair: (usize, usize), k: int)
    requires
        0 <= k <= quads.len(),
        forall|i: int| 0 <= i < k ==> pair_lt(first_two(#[trigger] quads[i]), pair),
        k < quads.len() ==> !pair_lt(first_two(quads[k]), pair),
    ensures
        count_below_pair(quads, pair) == k,
    decreases k,
{
    if k > 0 {
        assert(pair_lt(first_two(quads[0]), pair));
        let rest = quads.drop_first();
        assert forall|i: int| 0 <= i < k - 1 implies pair_lt(
            first_two(#[trigger] rest[i]),
            pair,
        ) by {
            assert(rest[i] == quads[i + 1]);
        }
        lemma_count_below_pair(rest, pair, k - 1);
    }
}

/// In a sorted list of quads, the first two terms do not decrease.
proof fn lemma_sorted_pairs(a: Seq<usize>, b: Seq<usize>)
    requires
        a.len() == 4,
        b.len() == 4,
        !crate::arrays::lex_lt(b, a),
    ensures
        a[0] <= b[0],
        !pair_lt(first_two(b), first_two(a)),
{
    reveal_with_fuel(crate::arrays::lex_lt, 3);
    assert(a.drop_first()[0] == a[1] && b.drop_first()[0] == b[1]);
}

/// Whether a static function maps the first two terms of each quad to their offset.
pub open spec fn indexes_pairs(func: StaticFunc, items: Seq<PositionedItem>) -> bool {
    forall|i: int|
        0 <= i < items.len() ==> crate::indexes::func_values(Ok(func))[pair_key(
            first_two((#[trigger] items[i]).1),
        )] == pair_offset(items, first_two(items[i].1))
}

/// The first two terms of quads, without those that are the same as of the quad before.
pub open spec fn pairs_of(items: Seq<Seq<usize>>) -> Seq<(usize, usize)>
    decreases items.len(),
{
    if items.len() == 0 {
        Seq::empty()
    } else {
        let before = pairs_of(items.drop_last());
        let pair = first_two(items.last());
        if before.len() > 0 && before.last() == pair {
            before
        } else {
            before.push(pair)
        }
    }
}

proof fn lemma_pair_found(items: Seq<Seq<usize>>, i: int) -> (j: int)
    requires
        0 <= i < items.len(),
    ensures
        0 <= j < pairs_of(items).len(),
        pairs_of(items)[j] == first_two(items[i]),
    decreases items.len(),
{
    if i == items.len() - 1 {
        pairs_of(items).len() - 1
    } else {
        assert(items.drop_last()[i] == items[i]);
        lemma_pair_found(items.drop_last(), i)
    }
}

/// The keys of the first two terms of quads.
pub open spec fn pair_keys(quads: Seq<Seq<usize>>) -> Set<Seq<u8>> {
    quads.map_values(|quad: Seq<usize>| pair_key(first_two(quad))).to_set()
}

proof fn lemma_pair_taken(items: Seq<Seq<usize>>, j: int) -> (i: int)
    requires
        0 <= j < pairs_of(items).len(),
    ensures
        0 <= i < items.len(),
        pairs_of(items)[j] == first_two(items[i]),
    decreases items.len(),
{
    let before = pairs_of(items.drop_last());
    if j < before.len() {
        let i = lemma_pair_taken(items.drop_last(), j);
        assert(items.drop_last()[i] == items[i]);
        i
    } else {
        items.len() - 1
    }
}

/// The keys of the pairs that quads start with are those of the quads.
proof fn lemma_pair_keys(items: Seq<Seq<usize>>, keys: Seq<Seq<u8>>)
    requires
        keys.len() == pairs_of(items).len(),
        forall|j: int| 0 <= j < keys.len() ==> #[trigger] keys[j] == pair_key(pairs_of(items)[j]),
    ensures
        keys.to_set() == pair_keys(items),
{
    let all = items.map_values(|quad: Seq<usize>| pair_key(first_two(quad)));
    assert forall|key: Seq<u8>| #[trigger] keys.to_set().contains(key)
        <==> all.to_set().contains(key) by {
        if keys.contains(key) {
            let j = choose|j: int| 0 <= j < keys.len() && keys[j] == key;
            let i = lemma_pair_taken(items, j);
            assert(all[i] == key);
        }
        if all.contains(key) {
            let i = choose|i: int| 0 <= i < all.len() && all[i] == key;
            let j = lemma_pair_found(items, i);
            assert(keys[j] == key);
        }
    }
    assert(keys.to_set() =~= pair_keys(items));
}

/// The keys of quads do not depend on their order.
pub proof fn lemma_same_pair_keys(a: Seq<Seq<usize>>, b: Seq<Seq<usize>>)
    requires
        a.to_multiset() == b.to_multiset(),
    ensures
        pair_keys(a) == pair_keys(b),
{
    let f = |quad: Seq<usize>| pair_key(first_two(quad));
    crate::radix::lemma_map_multiset(a, b, f);
    let (x, y) = (a.map_values(f), b.map_values(f));
    assert forall|key: Seq<u8>| #[trigger] x.to_set().contains(key) <==> y.to_set().contains(key) by {
        vstd::seq_lib::to_multiset_contains(x, key);
        vstd::seq_lib::to_multiset_contains(y, key);
    }
    assert(x.to_set() =~= y.to_set());
}

/// What the first-two-terms index of a partition is built from: the keys of the first two terms of
/// its quads, in order, and the number of frames from the first one with quads that start with the
/// first term to the first one with quads that start with both.
#[verifier::rlimit(50)]
pub fn pair_offsets(quads: &SortedArraysFile<4>) -> (res: Result<
    (Vec<Vec<u8>>, Vec<usize>),
    QuadsError,
>)
    ensures
        if frame_starts(quads.listing()).len() > usize::MAX {
            res is Err && res->Err_0 == QuadsError::IndexTooLarge
        } else {
            match quads.read_error() {
                Some(e) => res is Err && res->Err_0 == QuadsError::Arrays(e),
                None => res matches Ok((keys, values)) && {
                    let pairs = pairs_of(items_only(quads.listing()));
                    &&& keys@.len() == pairs.len()
                    &&& values@.len() == pairs.len()
                    &&& forall|j: int|
                        0 <= j < keys@.len() ==> (#[trigger] keys@[j])@ == pair_key(pairs[j])
                    &&& forall|j: int|
                        0 <= j < values@.len() ==> (#[trigger] values@[j]) == pair_offset(
                            quads.listing(),
                            pairs[j],
                        )
                },
            }
        },
{
    let mut reader = match quads.iter_with_positions(0) {
        Err(e) => {
            return Err(QuadsError::Arrays(e));
        },
        Ok(reader) => reader,
    };
    let ghost all = quads.listing();
    let ghost items = items_only(all);
    let mut keys: Vec<Vec<u8>> = Vec::new();
    let mut values: Vec<usize> = Vec::new();
    let mut num_frames: usize = 0;
    let mut first_frame_of_first_term: usize = 0;
    let mut previous_pair: Option<(usize, usize)> = None;
    let ghost mut k: int = 0;
    let ghost mut term_start: int = 0;
    proof {
        lemma_listing_sorted(*quads);
        lemma_listing_well_framed(*quads);
        assert(all.skip(0) =~= all);
        assert(all.take(0) =~= Seq::empty());
        assert(items.take(0) =~= Seq::empty());
    }
    loop
        invariant_except_break
            reader.remaining() == (all.skip(k), quads.read_error()),
        invariant
            reader.well_formed(),
            0 <= k <= all.len(),
            all == quads.listing(),
            items == items_only(all),
            crate::frames::well_framed(all),
            crate::arrays::is_sorted(items),
            forall|i: int| 0 <= i < all.len() ==> (#[trigger] all[i]).1.len() == 4,
            num_frames == frame_starts(all.take(k)).len(),
            keys@.len() == values@.len(),
            k == 0 <==> previous_pair is None,
            k > 0 ==> {
                &&& previous_pair == Some(first_two(items[k - 1]))
                &&& 0 <= term_start < k
                &&& items[term_start][0] == items[k - 1][0]
                &&& forall|i: int|
                    0 <= i < term_start ==> (#[trigger] items[i])[0] < items[k - 1][0]
                &&& first_frame_of_first_term == frame_id(all, term_start)
                &&& pairs_of(items.take(k)).len() > 0
                &&& pairs_of(items.take(k)).last() == first_two(items[k - 1])
            },
            keys@.len() == pairs_of(items.take(k)).len(),
            forall|j: int|
                0 <= j < keys@.len() ==> (#[trigger] keys@[j])@ == pair_key(
                    pairs_of(items.take(k))[j],
                ),
            forall|j: int|
                0 <= j < values@.len() ==> (#[trigger] values@[j]) == pair_offset(
                    all,
                    pairs_of(items.take(k))[j],
                ),
        ensures
            quads.read_error() is None,
            k == all.len(),
        decreases all.len() - k,
    {
        match reader.next() {
            Err(e) => {
                assert(all.skip(k).len() == 0);
                assert(all.take(k) =~= all);
                return Err(QuadsError::Arrays(e));
            },
            Ok(None) => {
                assert(all.skip(k).len() == 0);
                break;
            },
            Ok(Some((position, quad))) => {
                proof {
                    assert(all.skip(k)[0] == all[k]);
                    assert(all.skip(k).drop_first() =~= all.skip(k + 1));
                    assert(all.take(k + 1).drop_last() =~= all.take(k));
                    assert(all.take(k + 1).last() == all[k]);
                    assert(items[k] == quad@);
                    assert(items.take(k + 1).drop_last() =~= items.take(k));
                    assert(items.take(k + 1).last() == items[k]);
                    crate::frames::lemma_frame_starts_prefix(all, k + 1);
                    lemma_frame_of(all, k);
                    if k > 0 {
                        assert(!crate::arrays::lex_lt(items[k], items[k - 1]));
                        assert(all[k - 1].1.len() == 4 && all[k].1.len() == 4);
                        lemma_sorted_pairs(items[k - 1], items[k]);
                    }
                }
                if position.is_some() {
                    if num_frames == usize::MAX {
                        return Err(QuadsError::IndexTooLarge);
                    }
                    num_frames = num_frames + 1;
                }
                let frame: usize = num_frames - 1;
                assert(frame == frame_id(all, k));
                let pair: (usize, usize) = (quad[0], quad[1]);
                let same_pair: bool = match previous_pair {
                    Some(previous) => previous.0 == pair.0 && previous.1 == pair.1,
                    None => false,
                };
                if !same_pair {
                    let same_term: bool = match previous_pair {
                        Some(previous) => previous.0 == pair.0,
                        None => false,
                    };
                    if !same_term {
                        first_frame_of_first_term = frame;
                        proof {
                            assert forall|i: int| 0 <= i < k implies (#[trigger] items[i])[0]
                                < pair.0 by {
                                assert(!crate::arrays::lex_lt(items[k - 1], items[i]));
                                assert(all[i].1.len() == 4 && all[k - 1].1.len() == 4);
                                lemma_sorted_pairs(items[i], items[k - 1]);
                            }
                            term_start = k;
                        }
                    }
                    proof {
                        lemma_count_below(items, pair.0 as int, term_start);
                        assert forall|i: int| 0 <= i < k implies pair_lt(
                            first_two(#[trigger] items[i]),
                            pair,
                        ) by {
                            assert(!crate::arrays::lex_lt(items[k - 1], items[i]));
                            assert(all[i].1.len() == 4 && all[k - 1].1.len() == 4);
                            lemma_sorted_pairs(items[i], items[k - 1]);
                        }
                        lemma_count_below_pair(items, pair, k);
                        lemma_frame_id_monotone(all, term_start, k);
                    }
                    keys.push(key_of_pair(quad[0], quad[1]));
                    values.push(frame - first_frame_of_first_term);
                    previous_pair = Some(pair);
                }
                proof {
                    k = k + 1;
                }
            },
        }
    }
    assert(items.take(k) =~= items);
    assert(all.take(k) =~= all);
    Ok((keys, values))
}

/// Builds the first-two-terms index of a partition, which is none if the partition is empty: maps
/// the first two terms of its quads to the number of frames from the first one with quads that
/// start with the first term to the first one with quads that start with both.
pub fn index_quads_by_first_two_terms(quads: &SortedArraysFile<4>) -> (res: Result<
    Option<StaticFunc>,
    QuadsError,
>)
    ensures
        if frame_starts(quads.listing()).len() > usize::MAX {
            res is Err && res->Err_0 == QuadsError::IndexTooLarge
        } else {
            match quads.read_error() {
                Some(e) => res is Err && res->Err_0 == QuadsError::Arrays(e),
                None => match res {
                    Err(e) => quads.listing().len() > 0 && e == QuadsError::StaticFunction
                        && construction_failed(pair_keys(items_only(quads.listing()))),
                    Ok(None) => quads.listing().len() == 0,
                    Ok(Some(func)) => quads.listing().len() > 0 && indexes_pairs(
                        func,
                        quads.listing(),
                    ),
                },
            }
        },
{
    let (keys, values) = pair_offsets(quads)?;
    let ghost all = quads.listing();
    let ghost items = items_only(all);
    if keys.len() == 0 {
        proof {
            if all.len() > 0 {
                lemma_pair_found(items, 0);
            }
        }
        return Ok(None);
    }
    match build_func(&keys, &values) {
        Err(_) => {
            proof {
                lemma_pair_keys(items, string_views(keys@));
            }
            Err(QuadsError::StaticFunction)
        },
        Ok(func) => {
            proof {
                assert forall|i: int| 0 <= i < all.len() implies crate::indexes::func_values(
                    Ok(func),
                )[pair_key(first_two((#[trigger] all[i]).1))] == pair_offset(
                    all,
                    first_two(all[i].1),
                ) by {
                    assert(items[i] == all[i].1);
                    let j = lemma_pair_found(items, i);
                    assert(keys@[j]@ == pair_key(first_two(items[i])));
                    assert(values@[j] == pair_offset(all, first_two(items[i])));
                }
            }
            Ok(Some(func))
        },
    }
}

/// Whether a quad starts with a term, or with two.
pub open spec fn has_prefix(quad: Seq<usize>, first: usize, second: Option<usize>) -> bool {
    quad[0] == first && (second matches Some(t) ==> quad[1] == t)
}

/// The quads of a list that start with a term, or with two.
pub open spec fn with_prefix(
    quads: Seq<Seq<usize>>,
    first: usize,
    second: Option<usize>,
) -> Seq<Seq<usize>> {
    quads.filter(|quad: Seq<usize>| has_prefix(quad, first, second))
}

proof fn lemma_filter_none(quads: Seq<Seq<usize>>, first: usize, second: Option<usize>)
    requires
        forall|i: int| 0 <= i < quads.len() ==> !has_prefix(#[trigger] quads[i], first, second),
    ensures
        with_prefix(quads, first, second) == Seq::<Seq<usize>>::empty(),
    decreases quads.len(),
{
    reveal(Seq::filter);
    if quads.len() > 0 {
        assert(!has_prefix(quads[quads.len() - 1], first, second));
        lemma_filter_none(quads.drop_last(), first, second);
    }
}

/// Whether a quad comes after those that start with a term, or with two.
pub open spec fn after_prefix(quad: Seq<usize>, first: usize, second: Option<usize>) -> bool {
    quad[0] > first || (quad[0] == first && (second matches Some(t) && quad[1] > t))
}

/// Quads that were read, and the error that was met after them, if one was.
pub open spec fn results(quads: Seq<Seq<usize>>, error: Option<ArraysError>) -> Seq<
    Result<Seq<usize>, QuadsError>,
> {
    let read = quads.map_values(|quad: Seq<usize>| Ok::<Seq<usize>, QuadsError>(quad));
    match error {
        None => read,
        Some(e) => read.push(Err(QuadsError::Arrays(e))),
    }
}

/// What quads or errors are.
pub open spec fn result_views(list: Seq<Result<[usize; 4], QuadsError>>) -> Seq<
    Result<Seq<usize>, QuadsError>,
> {
    list.map_values(
        |item: Result<[usize; 4], QuadsError>|
            match item {
                Ok(quad) => Ok(quad@),
                Err(e) => Err(e),
            },
    )
}

/// What is found of the quads that start with a term, or with two, in a sorted list that ends with
/// an error, if it does: these quads, then the error unless some quad comes after them.
pub open spec fn found_in(
    quads: Seq<Seq<usize>>,
    error: Option<ArraysError>,
    first: usize,
    second: Option<usize>,
) -> Seq<Result<Seq<usize>, QuadsError>> {
    results(
        with_prefix(quads, first, second),
        if quads.len() > 0 && after_prefix(quads.last(), first, second) {
            None
        } else {
            error
        },
    )
}

/// Quads that were read, and the error that was met after them, as a list.
fn list_results(quads: Vec<[usize; 4]>, error: Option<ArraysError>) -> (list: Vec<
    Result<[usize; 4], QuadsError>,
>)
    ensures
        result_views(list@) == results(item_views(quads@), error),
{
    let mut list: Vec<Result<[usize; 4], QuadsError>> = Vec::new();
    let mut i: usize = 0;
    while i < quads.len()
        invariant
            i <= quads@.len(),
            list@.len() == i,
            forall|j: int|
                0 <= j < i ==> (#[trigger] list@[j]) == Ok::<[usize; 4], QuadsError>(quads@[j]),
        decreases quads@.len() - i,
    {
        list.push(Ok(quads[i]));
        i = i + 1;
    }
    assert(result_views(list@) =~= results(item_views(quads@), None));
    let ghost before = list@;
    match error {
        None => {},
        Some(e) => {
            list.push(Err(QuadsError::Arrays(e)));
            assert(result_views(list@) =~= result_views(before).push(
                Err::<Seq<usize>, QuadsError>(QuadsError::Arrays(e)),
            ));
        },
    }
    list
}

/// Reads the quads that start with a term, or with two, from a reader that stands before them.
#[verifier::rlimit(50)]
fn take_prefix(reader: ArraysReader<'_, 4>, first: usize, second: Option<usize>) -> (list: Vec<
    Result<[usize; 4], QuadsError>,
>)
    requires
        reader.well_formed(),
        crate::arrays::is_sorted(items_only(reader.remaining().0)),
        forall|i: int|
            0 <= i < reader.remaining().0.len() ==> (#[trigger] reader.remaining().0[i]).1.len()
                == 4,
    ensures
        result_views(list@) == found_in(
            items_only(reader.remaining().0),
            reader.remaining().1,
            first,
            second,
        ),
{
    let mut rest = reader;
    let ghost all = reader.remaining().0;
    let ghost items = items_only(all);
    let mut quads: Vec<[usize; 4]> = Vec::new();
    let ghost mut k: int = 0;
    proof {
        assert(all.skip(0) =~= all);
        assert(items.take(0) =~= Seq::empty());
        lemma_filter_none(items.take(0), first, second);
        assert(item_views(quads@) =~= with_prefix(items.take(0), first, second));
    }
    loop
        invariant
            rest.well_formed(),
            0 <= k <= all.len(),
            all == reader.remaining().0,
            items == items_only(all),
            rest.remaining() == (all.skip(k), reader.remaining().1),
            crate::arrays::is_sorted(items),
            forall|i: int| 0 <= i < all.len() ==> (#[trigger] all[i]).1.len() == 4,
            forall|i: int| 0 <= i < k ==> !after_prefix(#[trigger] items[i], first, second),
            item_views(quads@) == with_prefix(items.take(k), first, second),
        decreases all.len() - k,
    {
        match rest.next() {
            Err(e) => {
                assert(all.skip(k).len() == 0);
                assert(items.take(k) =~= items);
                return list_results(quads, Some(e));
            },
            Ok(None) => {
                assert(all.skip(k).len() == 0);
                assert(items.take(k) =~= items);
                return list_results(quads, None);
            },
            Ok(Some((_position, quad))) => {
                proof {
                    assert(all.skip(k)[0] == all[k]);
                    assert(all.skip(k).drop_first() =~= all.skip(k + 1));
                    assert(items[k] == quad@);
                    assert(items.take(k + 1).drop_last() =~= items.take(k));
                    assert(items.take(k + 1).last() == quad@);
                    reveal(Seq::filter);
                }
                let second_matches: bool = match second {
                    None => true,
                    Some(t) => quad[1] == t,
                };
                let second_below: bool = match second {
                    None => false,
                    Some(t) => quad[1] < t,
                };
                if quad[0] == first && second_matches {
                    let ghost before = quads@;
                    quads.push(quad);
                    assert(item_views(quads@) =~= item_views(before).push(quad@));
                } else if !(quad[0] < first || (quad[0] == first && second_below)) {
                    // the quads are sorted, so no other one can match
                    proof {
                        let tail = items.skip(k);
                        assert(after_prefix(items[k], first, second));
                        assert forall|i: int| 0 <= i < tail.len() implies after_prefix(
                            #[trigger] tail[i],
                            first,
                            second,
                        ) by {
                            assert(tail[i] == items[k + i]);
                            assert(!crate::arrays::lex_lt(items[k + i], items[k]));
                            assert(all[k + i].1.len() == 4 && all[k].1.len() == 4);
                            lemma_sorted_pairs(items[k], items[k + i]);
                        }
                        assert forall|i: int| 0 <= i < tail.len() implies !has_prefix(
                            #[trigger] tail[i],
                            first,
                            second,
                        ) by {
                            assert(after_prefix(tail[i], first, second));
                        }
                        assert(items.last() == tail[tail.len() - 1]);
                        lemma_filter_none(tail, first, second);
                        assert(items =~= items.take(k) + tail);
                        Seq::filter_distributes_over_add(
                            items.take(k),
                            tail,
                            |quad: Seq<usize>| has_prefix(quad, first, second),
                        );
                        assert(with_prefix(items, first, second) =~= with_prefix(
                            items.take(k),
                            first,
                            second,
                        ));
                    }
                    return list_results(quads, None);
                }
                proof {
                    k = k + 1;
                }
            },
        }
    }
}

proof fn lemma_count_below_facts(quads: Seq<Seq<usize>>, term: int)
    ensures
        count_below(quads, term) <= quads.len(),
        forall|i: int| 0 <= i < count_below(quads, term) ==> (#[trigger] quads[i])[0] < term,
        count_below(quads, term) < quads.len() ==> quads[count_below(quads, term) as int][0]
            >= term,
    decreases quads.len(),
{
    if quads.len() > 0 && quads[0][0] < term {
        let rest = quads.drop_first();
        lemma_count_below_facts(rest, term);
        assert forall|i: int| 0 <= i < count_below(quads, term) implies (#[trigger] quads[i])[0]
            < term by {
            if i > 0 {
                assert(rest[i - 1] == quads[i]);
            }
        }
    }
}

/// In a sorted list, either the quads that start with a pair come first after those before it, or
/// there are none.
proof fn lemma_find_pair(quads: Seq<Seq<usize>>, pair: (usize, usize))
    requires
        crate::arrays::is_sorted(quads),
        forall|i: int| 0 <= i < quads.len() ==> (#[trigger] quads[i]).len() == 4,
    ensures
        ({
            let p = count_below_pair(quads, pair) as int;
            let c = count_below(quads, pair.0 as int) as int;
            &&& p <= quads.len()
            &&& forall|i: int| 0 <= i < p ==> pair_lt(first_two(#[trigger] quads[i]), pair)
            &&& if p < quads.len() && first_two(quads[p]) == pair {
                c <= p && quads[c][0] == pair.0
            } else {
                forall|i: int|
                    0 <= i < quads.len() ==> !has_prefix(
                        #[trigger] quads[i],
                        pair.0,
                        Some(pair.1),
                    )
            }
        }),
{
    let p = count_below_pair(quads, pair) as int;
    let c = count_below(quads, pair.0 as int) as int;
    lemma_count_below_pair_facts(quads, pair);
    lemma_count_below_facts(quads, pair.0 as int);
    if p < quads.len() && first_two(quads[p]) == pair {
        if c > p {
            assert(quads[p][0] < pair.0);
        }
        assert(!crate::arrays::lex_lt(quads[p], quads[c]));
        lemma_sorted_pairs(quads[c], quads[p]);
    } else {
        assert forall|i: int| 0 <= i < quads.len() implies !has_prefix(
            #[trigger] quads[i],
            pair.0,
            Some(pair.1),
        ) by {
            if i < p {
                assert(pair_lt(first_two(quads[i]), pair));
            } else {
                assert(!crate::arrays::lex_lt(quads[i], quads[p]));
                lemma_sorted_pairs(quads[p], quads[i]);
            }
        }
    }
}

proof fn lemma_count_below_pair_facts(quads: Seq<Seq<usize>>, pair: (usize, usize))
    ensures
        count_below_pair(quads, pair) <= quads.len(),
        forall|i: int|
            0 <= i < count_below_pair(quads, pair) ==> pair_lt(
                first_two(#[trigger] quads[i]),
                pair,
            ),
        count_below_pair(quads, pair) < quads.len() ==> !pair_lt(
            first_two(quads[count_below_pair(quads, pair) as int]),
            pair,
        ),
    decreases quads.len(),
{
    if quads.len() > 0 && pair_lt(first_two(quads[0]), pair) {
        let rest = quads.drop_first();
        lemma_count_below_pair_facts(rest, pair);
        assert forall|i: int| 0 <= i < count_below_pair(quads, pair) implies pair_lt(
            first_two(#[trigger] quads[i]),
            pair,
        ) by {
            if i > 0 {
                assert(rest[i - 1] == quads[i]);
            }
        }
    }
}

/// Reading from the frame of a quad gives that quad, those after it, and those of its frame before
/// it.
proof fn lemma_seek_frame(quads: SortedArraysFile<4>, i: int) -> (start: int)
    requires
        0 <= i < quads.listing().len(),
    ensures
        0 <= start <= i,
        start == frame_first(quads.listing(), frame_id(quads.listing(), i)),
        crate::arrays::open_at(quads.bits(), 4, frame_pos(quads.listing(), i)) matches Ok(state)
            && crate::arrays::read_all(quads.bits(), state) == (
            quads.listing().skip(start),
            quads.read_error(),
        ),
{
    let items = quads.listing();
    lemma_listing_well_framed(quads);
    lemma_frame_of(items, i);
    let f = frame_id(items, i);
    lemma_frame_first(items, f, i);
    lemma_seek(quads, frame_first(items, f));
    frame_first(items, f)
}

/// The indexes of a partition of a quad store.
pub struct PartitionIndexes {
    /// The position of each frame.
    pub frame_index: MonotoneSeq,
    /// The position to start from for each first term.
    pub first_term_index: MonotoneSeq,
    /// The frame to start from for each pair of first terms, relative to that of the first one.
    pub first_two_terms_index: Option<StaticFunc>,
}

impl PartitionIndexes {
    /// Whether the indexes are those of a list of quads, whose first terms are `num_terms` ones
    /// from `first` on.
    pub open spec fn index(self, items: Seq<PositionedItem>, first: nat, num_terms: nat) -> bool {
        &&& positions_view(crate::indexes::seq_values(self.frame_index)) == frame_starts(items)
        &&& positions_view(crate::indexes::seq_values(self.first_term_index)) == Seq::new(
            num_terms,
            |t: int| first_term_entry(items, first + t),
        )
        &&& match self.first_two_terms_index {
            None => items.len() == 0,
            Some(func) => indexes_pairs(func, items),
        }
    }
}

/// Builds the indexes of a partition, whose first terms are `num_terms` ones from
/// `first_first_term` on.
pub fn index_partition(
    quads: &SortedArraysFile<4>,
    first_first_term: usize,
    num_terms: usize,
) -> (res: Result<PartitionIndexes, QuadsError>)
    ensures
        if too_large_to_index(*quads, num_terms as nat) {
            res is Err && res->Err_0 == QuadsError::IndexTooLarge
        } else if !in_partition(quads.listing(), first_first_term as int, num_terms as int) {
            res is Err && res->Err_0 == QuadsError::WrongPartition
        } else {
            match quads.read_error() {
                Some(e) => res is Err && res->Err_0 == QuadsError::Arrays(e),
                None => if too_large_to_index(*quads, frame_starts(quads.listing()).len()) {
                    res is Err && res->Err_0 == QuadsError::IndexTooLarge
                } else {
                    match res {
                        Err(e) => quads.listing().len() > 0 && e == QuadsError::StaticFunction
                            && construction_failed(pair_keys(items_only(quads.listing()))),
                        Ok(indexes) => indexes.index(
                            quads.listing(),
                            first_first_term as nat,
                            num_terms as nat,
                        ),
                    }
                },
            }
        },
{
    let first_term_index = index_quads_by_first_term(quads, first_first_term, num_terms)?;
    let frame_index = index_frames(quads)?;
    let first_two_terms_index = index_quads_by_first_two_terms(quads)?;
    Ok(PartitionIndexes { frame_index, first_term_index, first_two_terms_index })
}

/// What is read of a file from a position on: quads, with the positions of the frames, and the
/// error that is met after them, if one is.
pub open spec fn read_from(quads: SortedArraysFile<4>, position: nat) -> Result<
    (Seq<PositionedItem>, Option<ArraysError>),
    ArraysError,
> {
    match crate::arrays::open_at(quads.bits(), 4, position) {
        Err(e) => Err(e),
        Ok(state) => Ok(crate::arrays::read_all(quads.bits(), state)),
    }
}

/// What is found in a file, from a position on, of the quads that start with a term, or with two.
pub open spec fn found_from(
    quads: SortedArraysFile<4>,
    position: nat,
    first: usize,
    second: Option<usize>,
) -> Result<Seq<Result<Seq<usize>, QuadsError>>, QuadsError> {
    match read_from(quads, position) {
        Err(e) => Err(QuadsError::Arrays(e)),
        Ok((items, error)) => Ok(found_in(items_only(items), error, first, second)),
    }
}

/// Finds in a file, from a position on, the quads that start with a term, or with two.
fn find_from(
    quads: &SortedArraysFile<4>,
    position: usize,
    first: usize,
    second: Option<usize>,
) -> (res: Result<Vec<Result<[usize; 4], QuadsError>>, QuadsError>)
    ensures
        match found_from(*quads, position as nat, first, second) {
            Err(e) => res is Err && res->Err_0 == e,
            Ok(found) => res matches Ok(list) && result_views(list@) == found,
        },
{
    match quads.iter_with_positions(position) {
        Err(e) => Err(QuadsError::Arrays(e)),
        Ok(reader) => {
            proof {
                crate::arrays::lemma_read_all_sorted(reader.bits(), reader.state());
            }
            Ok(take_prefix(reader, first, second))
        },
    }
}

/// What the quads that were found are.
pub open spec fn list_view(res: Result<Vec<Result<[usize; 4], QuadsError>>, QuadsError>) -> Result<
    Option<Seq<Result<Seq<usize>, QuadsError>>>,
    QuadsError,
> {
    match res {
        Err(e) => Err(e),
        Ok(list) => Ok(Some(result_views(list@))),
    }
}

/// What the quads that were found are, if some were.
pub open spec fn answer_view(
    res: Result<Option<Vec<Result<[usize; 4], QuadsError>>>, QuadsError>,
) -> Result<Option<Seq<Result<Seq<usize>, QuadsError>>>, QuadsError> {
    match res {
        Err(e) => Err(e),
        Ok(None) => Ok(None),
        Ok(Some(list)) => Ok(Some(result_views(list@))),
    }
}

/// A partition of a quad store: quads whose first terms are in a range, sorted, and their indexes.
pub struct QuadPartition {
    first_first_term: usize,
    quads: SortedArraysFile<4>,
    indexes: PartitionIndexes,
}

impl QuadPartition {
    /// Whether the quads can be read to the end, their first terms are in the range, and the
    /// indexes are theirs.
    pub open spec fn intact(self) -> bool {
        &&& self.file().read_error() is None
        &&& in_partition(self.file().listing(), self.first_term() as int, self.num_terms() as int)
        &&& self.indexes().index(self.file().listing(), self.first_term(), self.num_terms())
    }

    /// The file of the quads.
    pub closed spec fn file(self) -> SortedArraysFile<4> {
        self.quads
    }

    /// The indexes.
    pub closed spec fn indexes(self) -> PartitionIndexes {
        self.indexes
    }

    /// The smallest of the first terms that the partition holds quads for.
    pub closed spec fn first_term(self) -> nat {
        self.first_first_term as nat
    }

    /// The number of first terms that the partition holds quads for.
    pub open spec fn num_terms(self) -> nat {
        crate::indexes::seq_values(self.indexes().first_term_index).len()
    }

    /// The quads of the partition that can be read.
    pub open spec fn quads(self) -> Seq<Seq<usize>> {
        items_only(self.file().listing())
    }

    /// The quads of a partition are sorted, and their first terms are in the range of the
    /// partition.
    pub proof fn lemma_quads(self)
        requires
            self.intact(),
        ensures
            crate::arrays::is_sorted(self.quads()),
            forall|i: int|
                0 <= i < self.quads().len() ==> {
                    &&& (#[trigger] self.quads()[i]).len() == 4
                    &&& self.first_term() <= self.quads()[i][0] < self.first_term()
                        + self.num_terms()
                },
    {
        lemma_listing_sorted(self.quads);
        let all = self.quads.listing();
        assert forall|i: int| 0 <= i < self.quads().len() implies {
            &&& (#[trigger] self.quads()[i]).len() == 4
            &&& self.first_term() <= self.quads()[i][0] < self.first_term() + self.num_terms()
        } by {
            assert(self.quads()[i] == all[i].1);
            assert(all[i].1.len() == 4);
        }
    }

    /// Opens a partition, whose first terms are those of its index from `first_first_term` on.
    /// Nothing is read.
    pub fn mmap(
        first_first_term: usize,
        quads: SortedArraysFile<4>,
        indexes: PartitionIndexes,
    ) -> (partition: Self)
        ensures
            partition.first_term() == first_first_term,
            partition.file() == quads,
            partition.indexes() == indexes,
    {
        QuadPartition { first_first_term, quads, indexes }
    }

    /// All the quads of the partition, then the error that is met after them, if one is.
    pub fn iter_all_quads(&self) -> (list: Vec<Result<[usize; 4], QuadsError>>)
        ensures
            result_views(list@) == results(self.quads(), self.file().read_error()),
    {
        match self.quads.iter() {
            Ok(scan) => list_results(scan.items, scan.error),
            Err(_) => Vec::new(),
        }
    }

    /// Where the index says to start to read for the quads that start with a term.
    pub open spec fn first_position(self, term: usize) -> nat {
        crate::indexes::seq_values(self.indexes().first_term_index)[term - self.first_term()] as nat
    }

    /// Reading from where the index of an intact partition says finds all the quads that start
    /// with a term of the partition.
    pub proof fn lemma_first_term(self, term: usize)
        requires
            self.intact(),
            self.first_term() <= term < self.first_term() + self.num_terms(),
        ensures
            found_from(self.file(), self.first_position(term), term, None) == Ok::<
                Seq<Result<Seq<usize>, QuadsError>>,
                QuadsError,
            >(results(with_prefix(self.quads(), term, None), None)),
    {
        let all = self.quads.listing();
        let items = items_only(all);
        let k = count_below(items, term as int) as int;
        let values = crate::indexes::seq_values(self.indexes.first_term_index);
        assert(positions_view(values)[term - self.first_first_term] == self.first_position(term));
        lemma_count_below_facts(items, term as int);
        lemma_listing_sorted(self.quads);
        lemma_listing_well_framed(self.quads);
        let i = if k < all.len() && all[k].1[0] == term {
            k
        } else {
            k - 1
        };
        let start = if i >= 0 {
            lemma_seek_frame(self.quads, i)
        } else {
            assert(all.skip(0) =~= all);
            0
        };
        assert(start <= k);
        self.lemma_skip(start, term, None);
    }

    /// What is found of the quads that start with a term: what can be read of them from where the
    /// index says.
    pub open spec fn first_term_answer(
        self,
        term: usize,
        res: Result<Option<Seq<Result<Seq<usize>, QuadsError>>>, QuadsError>,
    ) -> bool {
        if self.first_term() <= term < self.first_term() + self.num_terms() {
            match found_from(self.file(), self.first_position(term), term, None) {
                Err(e) => res == Err::<Option<Seq<Result<Seq<usize>, QuadsError>>>, QuadsError>(e),
                Ok(found) => res == Ok::<Option<Seq<Result<Seq<usize>, QuadsError>>>, QuadsError>(
                    Some(found),
                ),
            }
        } else {
            res == Err::<Option<Seq<Result<Seq<usize>, QuadsError>>>, QuadsError>(
                QuadsError::InvalidTerm,
            )
        }
    }

    /// The quads that start with a term of the partition, then the error that is met before the
    /// end of them is, if one is.
    pub fn iter_quads_by_first_term(&self, term: usize) -> (res: Result<
        Vec<Result<[usize; 4], QuadsError>>,
        QuadsError,
    >)
        ensures
            self.first_term_answer(term, list_view(res)),
    {
        if term < self.first_first_term || term - self.first_first_term >= seq_len(
            &self.indexes.first_term_index,
        ) {
            return Err(QuadsError::InvalidTerm);
        }
        // the position of the first frame with a quad that starts with the term or, if there is
        // none, of the frame of a quad that it would come right after
        let from_bit_position: usize = seq_get(
            &self.indexes.first_term_index,
            term - self.first_first_term,
        );
        find_from(&self.quads, from_bit_position, term, None)
    }

    /// The first quad of a frame.
    fn first_quad_of_frame(&self, frame: usize) -> (res: Result<[usize; 4], QuadsError>)
        requires
            frame < crate::indexes::seq_values(self.indexes().frame_index).len(),
        ensures
            self.intact() ==> (res matches Ok(quad) && quad@ == self.quads()[frame_first(
                self.file().listing(),
                frame as int,
            )]),
            res matches Err(e) ==> e is Arrays || e is EmptyFrame,
    {
        let position: usize = seq_get(&self.indexes.frame_index, frame);
        proof {
            if self.intact() {
                let all = self.quads.listing();
                let start = frame_first(all, frame as int);
                lemma_listing_well_framed(self.quads);
                lemma_frame_starts_increase(all);
                assert(positions_view(
                    crate::indexes::seq_values(self.indexes.frame_index),
                )[frame as int] == position);
                assert(all[start].0 == Some(position as nat));
                lemma_seek(self.quads, start);
                assert(all.skip(start)[0] == all[start]);
            }
        }
        match self.quads.iter_with_positions(position) {
            Err(e) => Err(QuadsError::Arrays(e)),
            Ok(mut reader) => match reader.next() {
                Err(e) => Err(QuadsError::Arrays(e)),
                Ok(None) => Err(QuadsError::EmptyFrame),
                Ok(Some((_position, quad))) => Ok(quad),
            },
        }
    }

    /// Whether quads are what is found, from one of the frames of the index on, of those that start
    /// with two terms.
    pub open spec fn found_in_frame(
        self,
        frame: int,
        term1: usize,
        term2: usize,
        found: Seq<Result<Seq<usize>, QuadsError>>,
    ) -> bool {
        let frames = crate::indexes::seq_values(self.indexes().frame_index);
        &&& 0 <= frame < frames.len()
        &&& found_from(self.file(), frames[frame] as nat, term1, Some(term2)) == Ok::<
            Seq<Result<Seq<usize>, QuadsError>>,
            QuadsError,
        >(found)
    }

    /// Whether quads are what is found, from some frame of the index on, of those that start with
    /// two terms.
    pub open spec fn found_in_some_frame(
        self,
        term1: usize,
        term2: usize,
        found: Seq<Result<Seq<usize>, QuadsError>>,
    ) -> bool {
        exists|frame: int| #[trigger] self.found_in_frame(frame, term1, term2, found)
    }

    /// What is found of the quads that start with two terms: those of the partition if it is
    /// intact, or else what can be read of them from a frame on, or the error that is met on the way
    /// to that frame. `None` says that there are no such quads.
    pub open spec fn two_terms_answer(
        self,
        term1: usize,
        term2: usize,
        res: Result<Option<Seq<Result<Seq<usize>, QuadsError>>>, QuadsError>,
    ) -> bool {
        if self.first_term() <= term1 < self.first_term() + self.num_terms() {
            let wanted = with_prefix(self.quads(), term1, Some(term2));
            &&& self.intact() ==> (res matches Ok(found) && match found {
                None => wanted.len() == 0,
                Some(found) => found == results(wanted, None),
            })
            &&& res matches Ok(Some(found)) ==> self.found_in_some_frame(term1, term2, found)
            &&& res matches Err(e) ==> e is Arrays || e is EmptyFrame
        } else {
            res == Err::<Option<Seq<Result<Seq<usize>, QuadsError>>>, QuadsError>(
                QuadsError::InvalidTerm,
            )
        }
    }

    /// The quads that start with a term of the partition and another term, then the error that is
    /// met before the end of them is, if one is. `None` says that there are no such quads.
    #[verifier::rlimit(50)]
    pub fn iter_quads_by_first_two_terms(&self, term1: usize, term2: usize) -> (res: Result<
        Option<Vec<Result<[usize; 4], QuadsError>>>,
        QuadsError,
    >)
        ensures
            self.two_terms_answer(term1, term2, answer_view(res)),
    {
        let ghost intact = self.intact();
        let ghost all = self.quads.listing();
        let ghost items = items_only(all);
        let ghost pair = (term1, term2);
        let ghost p = count_below_pair(items, pair) as int;
        let ghost c = count_below(items, term1 as int) as int;
        let ghost found = intact && p < all.len() && first_two(items[p]) == pair;
        let ghost starts = frame_starts(all);
        if term1 < self.first_first_term || term1 - self.first_first_term >= seq_len(
            &self.indexes.first_term_index,
        ) {
            return Err(QuadsError::InvalidTerm);
        }
        proof {
            lemma_listing_sorted(self.quads);
            lemma_listing_well_framed(self.quads);
            lemma_frame_starts_increase(all);
            lemma_find_pair(items, pair);
            if intact && !found {
                lemma_filter_none(items, term1, Some(term2));
            }
        }
        let relative_term1: usize = term1 - self.first_first_term;
        let func = match &self.indexes.first_two_terms_index {
            None => {
                return Ok(None);
            },
            Some(func) => func,
        };
        // the first frame with quads that start with the first term
        let first_position: usize = seq_get(&self.indexes.first_term_index, relative_term1);
        proof {
            if found {
                assert(positions_view(
                    crate::indexes::seq_values(self.indexes.first_term_index),
                )[relative_term1 as int] == first_position);
                lemma_frame_of(all, c);
                lemma_frame_of(all, p);
                lemma_frame_id_monotone(all, c, p);
                assert(first_position == frame_pos(all, c));
            }
        }
        let first_frame: usize = match seq_index_of(&self.indexes.frame_index, first_position) {
            None => {
                proof {
                    if found {
                        let values = crate::indexes::seq_values(self.indexes.frame_index);
                        assert(positions_view(values)[frame_id(all, c)] == first_position);
                        assert(values[frame_id(all, c)] == first_position);
                    }
                }
                return Ok(None);
            },
            Some(frame) => frame,
        };
        proof {
            if found {
                assert(positions_view(
                    crate::indexes::seq_values(self.indexes.frame_index),
                )[first_frame as int] == first_position);
                assert(starts[first_frame as int] == starts[frame_id(all, c)]);
                if first_frame < frame_id(all, c) {
                    assert(starts[first_frame as int] < starts[frame_id(all, c)]);
                } else if first_frame > frame_id(all, c) {
                    assert(starts[frame_id(all, c)] < starts[first_frame as int]);
                }
            }
        }
        // from it, the number of frames to the first one with quads that start with both terms
        let key: Vec<u8> = key_of_pair(term1, term2);
        let offset: usize = func_get(func, key.as_slice());
        proof {
            if found {
                assert(all[p].1 == items[p]);
                assert(offset == pair_offset(all, pair));
            }
        }
        let num_frames: usize = seq_len(&self.indexes.frame_index);
        if offset >= num_frames || first_frame >= num_frames - offset {
            // no such frame, so the offset is a false positive
            return Ok(None);
        }
        let frame: usize = first_frame + offset;
        let position: usize = seq_get(&self.indexes.frame_index, frame);
        let ghost start = frame_first(all, frame as int);
        proof {
            if intact {
                assert(positions_view(
                    crate::indexes::seq_values(self.indexes.frame_index),
                )[frame as int] == position);
                assert(found ==> frame == frame_id(all, p));
                assert(all[start].0 == Some(position as nat));
            }
        }
        // quick checks for false positives, based on the first term only
        if first_position > position {
            return Ok(None);
        }
        if relative_term1 + 1 < seq_len(&self.indexes.first_term_index) {
            let next_position: usize = seq_get(&self.indexes.first_term_index, relative_term1 + 1);
            proof {
                if found {
                    assert(positions_view(
                        crate::indexes::seq_values(self.indexes.first_term_index),
                    )[relative_term1 + 1] == next_position);
                    self.lemma_next_term(p);
                }
            }
            if next_position < position {
                return Ok(None);
            }
        }
        // checks for false positives based on the frames before and after
        if frame > 0 {
            let quad: [usize; 4] = self.first_quad_of_frame(frame - 1)?;
            proof {
                if found {
                    lemma_frame_first(all, frame - 1, p);
                    let i = frame_first(all, frame - 1);
                    assert(!crate::arrays::lex_lt(items[p], items[i]));
                    assert(all[i].1.len() == 4 && all[p].1.len() == 4);
                    lemma_sorted_pairs(items[i], items[p]);
                }
            }
            if quad[0] > term1 || (quad[0] == term1 && quad[1] > term2) {
                return Ok(None);
            }
        }
        if frame + 1 < num_frames {
            let quad: [usize; 4] = self.first_quad_of_frame(frame + 1)?;
            proof {
                if found {
                    lemma_frame_first(all, frame + 1, p);
                    let i = frame_first(all, frame + 1);
                    assert(!crate::arrays::lex_lt(items[i], items[p]));
                    assert(all[i].1.len() == 4 && all[p].1.len() == 4);
                    lemma_sorted_pairs(items[p], items[i]);
                }
            }
            if quad[0] < term1 || (quad[0] == term1 && quad[1] < term2) {
                return Ok(None);
            }
        }
        proof {
            if intact {
                lemma_seek(self.quads, start);
                if found {
                    lemma_frame_first(all, frame as int, p);
                }
                self.lemma_skip(start, term1, Some(term2));
                assert(read_from(self.quads, position as nat) == Ok::<
                    (Seq<PositionedItem>, Option<ArraysError>),
                    ArraysError,
                >((all.skip(start), None)));
                assert(found_from(self.quads, position as nat, term1, Some(term2)) == Ok::<
                    Seq<Result<Seq<usize>, QuadsError>>,
                    QuadsError,
                >(results(with_prefix(self.quads(), term1, Some(term2)), None)));
            }
        }
        match find_from(&self.quads, position, term1, Some(term2)) {
            Err(e) => Err(e),
            Ok(list) => {
                let ghost list_views = result_views(list@);
                let res: Result<Option<Vec<Result<[usize; 4], QuadsError>>>, QuadsError> = Ok(
                    Some(list),
                );
                proof {
                    assert(answer_view(res) == Ok::<
                        Option<Seq<Result<Seq<usize>, QuadsError>>>,
                        QuadsError,
                    >(Some(list_views)));
                    self.lemma_found(frame as int, term1, term2, list_views);
                }
                res
            },
        }
    }

    proof fn lemma_found(
        self,
        frame: int,
        term1: usize,
        term2: usize,
        found: Seq<Result<Seq<usize>, QuadsError>>,
    )
        requires
            self.first_term() <= term1 < self.first_term() + self.num_terms(),
            self.found_in_frame(frame, term1, term2, found),
            self.intact() ==> found == results(with_prefix(self.quads(), term1, Some(term2)), None),
        ensures
            self.two_terms_answer(term1, term2, Ok(Some(found))),
    {
        assert(self.found_in_some_frame(term1, term2, found));
        let res = Ok::<Option<Seq<Result<Seq<usize>, QuadsError>>>, QuadsError>(Some(found));
        assert(res->Ok_0->Some_0 == found);
        assert(self.two_terms_answer(term1, term2, res));
    }

    /// The quads of the term after that of the quad `p` are not in an earlier frame than it.
    proof fn lemma_next_term(self, p: int)
        requires
            0 <= p < self.quads.listing().len(),
        ensures
            first_term_entry(self.quads.listing(), self.quads.listing()[p].1[0] + 1) >= frame_pos(
                self.quads.listing(),
                p,
            ),
    {
        let all = self.quads.listing();
        let items = items_only(all);
        lemma_listing_well_framed(self.quads);
        let term = all[p].1[0] + 1;
        let k = count_below(items, term) as int;
        lemma_count_below_facts(items, term);
        lemma_listing_sorted(self.quads);
        if k <= p {
            assert(!crate::arrays::lex_lt(items[p], items[k]));
            assert(all[k].1.len() == 4 && all[p].1.len() == 4);
            lemma_sorted_pairs(items[k], items[p]);
            assert(items[p] == all[p].1);
        }
        if k < all.len() && all[k].1[0] == term {
            lemma_frame_pos_monotone(all, p, k);
        } else {
            lemma_frame_pos_monotone(all, p, k - 1);
        }
    }

    /// Reading from an array that no matching one comes before finds all the matching ones.
    proof fn lemma_skip(self, start: int, first: usize, second: Option<usize>)
        requires
            0 <= start <= self.quads.listing().len(),
            forall|i: int|
                0 <= i < start ==> !has_prefix((#[trigger] self.quads()[i]), first, second),
        ensures
            items_only(self.quads.listing().skip(start)) == self.quads().skip(start),
            crate::arrays::is_sorted(items_only(self.quads.listing().skip(start))),
            forall|i: int|
                0 <= i < self.quads.listing().skip(start).len() ==> (
                #[trigger] self.quads.listing().skip(start)[i]).1.len() == 4,
            with_prefix(items_only(self.quads.listing().skip(start)), first, second)
                == with_prefix(self.quads(), first, second),
    {
        let all = self.quads.listing();
        let items = self.quads();
        lemma_listing_sorted(self.quads);
        assert(items_only(all.skip(start)) =~= items.skip(start));
        assert forall|i: int, j: int|
            0 <= i <= j < items.skip(start).len() implies !crate::arrays::lex_lt(
            items.skip(start)[j],
            items.skip(start)[i],
        ) by {
            assert(items.skip(start)[j] == items[start + j]);
            assert(items.skip(start)[i] == items[start + i]);
        }
        assert(items =~= items.take(start) + items.skip(start));
        lemma_filter_none(items.take(start), first, second);
        Seq::filter_distributes_over_add(
            items.take(start),
            items.skip(start),
            |quad: Seq<usize>| has_prefix(quad, first, second),
        );
        assert(with_prefix(items, first, second) =~= with_prefix(
            items.skip(start),
            first,
            second,
        ));
    }
}

} // verus!
