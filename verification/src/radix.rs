//! Radix sort of arrays of integers.

use crate::arrays::{is_sorted, item_views, lex_lt};
use rdst::RadixSort;
use vstd::prelude::*;

verus! {

/// `RadixSort::radix_sort_unstable` on integers: sorts them.
#[verifier::external_body]
pub(crate) fn radix_sort_keys(keys: &mut Vec<u128>)
    ensures
        final(keys)@.to_multiset() == old(keys)@.to_multiset(),
        forall|i: int, j: int|
            0 <= i <= j < final(keys)@.len() ==> final(keys)@[i] <= final(keys)@[j],
{
    keys.radix_sort_unstable();
}

/// The same values in another order are mapped to the same values in another order.
pub proof fn lemma_map_multiset<A, B>(a: Seq<A>, b: Seq<A>, f: spec_fn(A) -> B)
    requires
        a.to_multiset() == b.to_multiset(),
    ensures
        a.map_values(f).to_multiset() == b.map_values(f).to_multiset(),
    decreases a.len(),
{
    vstd::seq_lib::to_multiset_len(a);
    vstd::seq_lib::to_multiset_len(b);
    if a.len() == 0 {
        assert(a.map_values(f) =~= b.map_values(f));
    } else {
        let last = a.last();
        let rest = a.drop_last();
        assert(a =~= rest.push(last));
        vstd::seq_lib::to_multiset_build(rest, last);
        vstd::seq_lib::to_multiset_contains(b, last);
        assert(b.contains(last));
        let i = b.index_of(last);
        vstd::seq_lib::to_multiset_remove(b, i);
        assert(rest.to_multiset() =~= b.to_multiset().remove(last));
        lemma_map_multiset(rest, b.remove(i), f);
        assert(a.map_values(f) =~= rest.map_values(f).push(f(last)));
        vstd::seq_lib::to_multiset_build(rest.map_values(f), f(last));
        assert(b.map_values(f).remove(i) =~= b.remove(i).map_values(f));
        vstd::seq_lib::to_multiset_remove(b.map_values(f), i);
        vstd::seq_lib::to_multiset_contains(b.map_values(f), f(last));
        assert(b.map_values(f)[i] == f(last));
        assert(b.map_values(f).contains(f(last)));
        assert(a.map_values(f).to_multiset() =~= b.map_values(f).to_multiset());
    }
}

/// Whether arrays are sorted by their cells from the `k`-th one on.
pub open spec fn sorted_from(items: Seq<Seq<usize>>, k: int) -> bool {
    forall|i: int, j: int|
        0 <= i <= j < items.len() ==> !lex_lt(
            (#[trigger] items[j]).skip(k),
            (#[trigger] items[i]).skip(k),
        )
}

/// The key of an array at an index: its `k`-th cell, then the index.
spec fn key_of(items: Seq<Seq<usize>>, k: int, i: int) -> int {
    items[i][k] * 0x1_0000_0000_0000_0000 + i
}

proof fn lemma_key(items: Seq<Seq<usize>>, k: int, i: int)
    requires
        0 <= i < 0x1_0000_0000_0000_0000,
    ensures
        key_of(items, k, i) / 0x1_0000_0000_0000_0000 == items[i][k],
        key_of(items, k, i) % 0x1_0000_0000_0000_0000 == i,
        0 <= key_of(items, k, i) <= u128::MAX,
{
}

/// Sorts arrays by a cell. Those with the same cell stay in their order.
fn sort_by_cell<const N: usize>(items: &mut Vec<[usize; N]>, k: usize)
    requires
        k < N,
        sorted_from(item_views(old(items)@), k + 1),
    ensures
        sorted_from(item_views(final(items)@), k as int),
        item_views(final(items)@).to_multiset() == item_views(old(items)@).to_multiset(),
{
    let ghost views = item_views(items@);
    let mut keys: Vec<u128> = Vec::new();
    let mut i: usize = 0;
    while i < items.len()
        invariant
            k < N,
            i <= items@.len(),
            views == item_views(items@),
            keys@.len() == i,
            forall|j: int| 0 <= j < i ==> (#[trigger] keys@[j]) == key_of(views, k as int, j),
        decreases items@.len() - i,
    {
        proof {
            lemma_key(views, k as int, i as int);
            assert(views[i as int] == items@[i as int]@);
        }
        keys.push(items[i][k] as u128 * 0x1_0000_0000_0000_0000 + i as u128);
        i = i + 1;
    }
    let ghost unsorted = keys@;
    radix_sort_keys(&mut keys);
    proof {
        vstd::seq_lib::to_multiset_len(unsorted);
        vstd::seq_lib::to_multiset_len(keys@);
        assert forall|j: int| 0 <= j < keys@.len() implies {
            let index = #[trigger] keys@[j] % 0x1_0000_0000_0000_0000;
            &&& index < views.len()
            &&& keys@[j] == key_of(views, k as int, index as int)
        } by {
            vstd::seq_lib::to_multiset_contains(keys@, keys@[j]);
            vstd::seq_lib::to_multiset_contains(unsorted, keys@[j]);
            assert(keys@.contains(keys@[j]));
            let i = unsorted.index_of(keys@[j]);
            lemma_key(views, k as int, i);
        }
    }
    let mut sorted: Vec<[usize; N]> = Vec::new();
    let mut j: usize = 0;
    while j < keys.len()
        invariant
            j <= keys@.len(),
            views == item_views(items@),
            views.len() <= usize::MAX,
            sorted@.len() == j,
            forall|j: int|
                0 <= j < keys@.len() ==> (#[trigger] keys@[j]) % 0x1_0000_0000_0000_0000
                    < views.len(),
            forall|i: int|
                0 <= i < j ==> (#[trigger] sorted@[i])@ == views[(keys@[i]
                    % 0x1_0000_0000_0000_0000) as int],
        decreases keys@.len() - j,
    {
        let index: usize = (keys[j] % 0x1_0000_0000_0000_0000) as usize;
        assert(views[index as int] == items@[index as int]@);
        sorted.push(items[index]);
        j = j + 1;
    }
    proof {
        let f = |key: u128| views[(key % 0x1_0000_0000_0000_0000) as int];
        let result = item_views(sorted@);
        assert forall|i: int| 0 <= i < views.len() implies unsorted.map_values(f)[i]
            == views[i] by {
            lemma_key(views, k as int, i);
        }
        assert(unsorted.map_values(f) =~= views);
        assert(keys@.map_values(f) =~= result);
        lemma_map_multiset(keys@, unsorted, f);
        assert forall|i: int, j: int| 0 <= i <= j < result.len() implies !lex_lt(
            (#[trigger] result[j]).skip(k as int),
            (#[trigger] result[i]).skip(k as int),
        ) by {
            let a = (keys@[i] % 0x1_0000_0000_0000_0000) as int;
            let b = (keys@[j] % 0x1_0000_0000_0000_0000) as int;
            assert(keys@[i] <= keys@[j]);
            lemma_key(views, k as int, a);
            lemma_key(views, k as int, b);
            assert(result[i] == views[a] && result[j] == views[b]);
            assert(views[a] == items@[a]@ && views[b] == items@[b]@);
            let x = views[a].skip(k as int);
            let y = views[b].skip(k as int);
            assert(x[0] == views[a][k as int] && y[0] == views[b][k as int]);
            assert(x.drop_first() =~= views[a].skip(k + 1));
            assert(y.drop_first() =~= views[b].skip(k + 1));
            if x[0] == y[0] {
                assert(a <= b);
                assert(!lex_lt(views[b].skip(k + 1), views[a].skip(k + 1)));
            }
        }
    }
    *items = sorted;
}

/// Sorts arrays, by one cell after the other from the last one on.
pub fn radix_sort<const N: usize>(items: &mut Vec<[usize; N]>)
    ensures
        is_sorted(item_views(final(items)@)),
        item_views(final(items)@).to_multiset() == item_views(old(items)@).to_multiset(),
{
    let ghost start = item_views(items@);
    proof {
        assert forall|i: int, j: int| 0 <= i <= j < start.len() implies !lex_lt(
            (#[trigger] start[j]).skip(N as int),
            (#[trigger] start[i]).skip(N as int),
        ) by {
            assert(start[i] == items@[i]@ && start[j] == items@[j]@);
        }
    }
    let mut k: usize = N;
    while k > 0
        invariant
            k <= N,
            sorted_from(item_views(items@), k as int),
            item_views(items@).to_multiset() == start.to_multiset(),
        decreases k,
    {
        k = k - 1;
        sort_by_cell(items, k);
    }
    proof {
        let views = item_views(items@);
        assert forall|i: int, j: int| 0 <= i <= j < views.len() implies !lex_lt(
            views[j],
            views[i],
        ) by {
            assert(views[i].skip(0) =~= views[i]);
            assert(views[j].skip(0) =~= views[j]);
        }
    }
}

} // verus!
