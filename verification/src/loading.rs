//! Quads of RDF terms turned into quads of term ids, and written to quad stores.

use crate::array_sorter::{lemma_bit_len, partition_of, SorterError};
use crate::arrays::{item_views, items_only, storable, zero_cells, SortedArraysFile};
use crate::quads::{
    compress_quads, compressible, lemma_compressed_quads, lemma_order_inverse, ordered_quads,
    quads_of_files, quads_of_partition, terms_in_partition, terms_per_partition, QuadOrder,
    QuadStoreConfiguration,
};
use crate::quads_store::{in_partition, QuadsError};
use crate::secondary_indexes::{files_read_error, read_quads};
use crate::terms::{
    serialized_graph_name, serialized_term, Quad, QuadView, TermError, TermView,
};
use crate::terms_mphf::{hash_result, HashError, TermHasher, TermMphf};
use crate::terms_writer::quad_views;
use vstd::prelude::*;

verus! {

/// Why quads could not be written to a quad store.
#[derive(Clone, Copy, Debug, PartialEq, Eq, Structural)]
pub enum LoadError {
    /// A subject is not known.
    UnknownSubject(HashError),
    /// A predicate is not known.
    UnknownPredicate(HashError),
    /// An object is not known.
    UnknownObject(HashError),
    /// The name of a graph is not known.
    UnknownGraphName(HashError),
    /// There are fewer than two terms.
    TooFewTerms,
    /// The quads could not be sorted.
    Sorter(SorterError),
    /// The quads of another store could not be read.
    Quads(QuadsError),
    /// A term is not one of the store.
    InvalidTerm,
}

/// The id of a term of a quad.
pub open spec fn hashed(mphf: TermMphf, bytes: Result<Seq<u8>, TermError>) -> Result<
    usize,
    HashError,
> {
    hash_result(bytes, mphf.id_of(bytes->Ok_0))
}

/// The ids of the terms of a quad.
pub open spec fn hashed_quad(mphf: TermMphf, quad: QuadView) -> Result<Seq<usize>, LoadError> {
    match hashed(mphf, serialized_term(quad.subject, None)) {
        Err(e) => Err(LoadError::UnknownSubject(e)),
        Ok(s) => match hashed(mphf, serialized_term(TermView::NamedNode(quad.predicate), None)) {
            Err(e) => Err(LoadError::UnknownPredicate(e)),
            Ok(p) => match hashed(mphf, serialized_term(quad.object, None)) {
                Err(e) => Err(LoadError::UnknownObject(e)),
                Ok(o) => match hashed(mphf, Ok(serialized_graph_name(quad.graph_name))) {
                    Err(e) => Err(LoadError::UnknownGraphName(e)),
                    Ok(g) => Ok(seq![s, p, o, g]),
                },
            },
        },
    }
}

/// The ids of the terms of quads, up to the first quad that has an unknown term.
pub open spec fn hashed_quads(mphf: TermMphf, quads: Seq<QuadView>) -> Result<
    Seq<Seq<usize>>,
    LoadError,
>
    decreases quads.len(),
{
    if quads.len() == 0 {
        Ok(Seq::empty())
    } else {
        match hashed_quads(mphf, quads.drop_last()) {
            Err(e) => Err(e),
            Ok(before) => match hashed_quad(mphf, quads.last()) {
                Err(e) => Err(e),
                Ok(last) => Ok(before.push(last)),
            },
        }
    }
}

proof fn lemma_hashed_prefix(mphf: TermMphf, quads: Seq<QuadView>, n: int)
    requires
        0 <= n <= quads.len(),
    ensures
        hashed_quads(mphf, quads.take(n)) is Err ==> hashed_quads(mphf, quads) == hashed_quads(
            mphf,
            quads.take(n),
        ),
    decreases quads.len() - n,
{
    if n == quads.len() {
        assert(quads.take(n) =~= quads);
    } else {
        lemma_hashed_prefix(mphf, quads, n + 1);
        assert(quads.take(n + 1).drop_last() =~= quads.take(n));
    }
}

/// The ids of the terms of a quad.
fn hash_quad(mphf: &TermMphf, quad: &Quad) -> (res: Result<[usize; 4], LoadError>)
    ensures
        match hashed_quad(*mphf, quad@) {
            Err(e) => res is Err && res->Err_0 == e,
            Ok(ids) => res matches Ok(q) && q@ == ids && forall|j: int|
                0 <= j < 4 ==> (#[trigger] q@[j]) < mphf.num_known(),
        },
{
    let s: usize = match mphf.hash_namedorblanknode(&quad.subject) {
        Err(e) => {
            return Err(LoadError::UnknownSubject(e));
        },
        Ok(id) => id,
    };
    let p: usize = match mphf.hash_namednode(quad.predicate.as_str()) {
        Err(e) => {
            return Err(LoadError::UnknownPredicate(e));
        },
        Ok(id) => id,
    };
    let o: usize = match mphf.hash_term(&quad.object) {
        Err(e) => {
            return Err(LoadError::UnknownObject(e));
        },
        Ok(id) => id,
    };
    let g: usize = match mphf.hash_graphname(&quad.graph_name) {
        Err(e) => {
            return Err(LoadError::UnknownGraphName(e));
        },
        Ok(id) => id,
    };
    let ids: [usize; 4] = [s, p, o, g];
    assert(ids@ =~= seq![s, p, o, g]);
    Ok(ids)
}

/// The ids of the terms of quads.
pub fn hash_quads(mphf: &TermMphf, quads: &Vec<Quad>) -> (res: Result<Vec<[usize; 4]>, LoadError>)
    ensures
        match hashed_quads(*mphf, quad_views(quads@)) {
            Err(e) => res is Err && res->Err_0 == e,
            Ok(ids) => res matches Ok(v) && item_views(v@) == ids && forall|i: int, j: int|
                0 <= i < v@.len() && 0 <= j < 4 ==> (#[trigger] v@[i]@[j]) < mphf.num_known(),
        },
{
    let ghost views = quad_views(quads@);
    let mut hashed: Vec<[usize; 4]> = Vec::new();
    let mut i: usize = 0;
    assert(views.take(0) =~= Seq::empty());
    assert(item_views(hashed@) =~= Seq::empty());
    while i < quads.len()
        invariant
            views == quad_views(quads@),
            i <= quads@.len(),
            hashed_quads(*mphf, views.take(i as int)) == Ok::<Seq<Seq<usize>>, LoadError>(
                item_views(hashed@),
            ),
            forall|i: int, j: int|
                0 <= i < hashed@.len() && 0 <= j < 4 ==> (#[trigger] hashed@[i]@[j])
                    < mphf.num_known(),
        decreases quads@.len() - i,
    {
        let ghost before = hashed@;
        proof {
            assert(views.take(i + 1).drop_last() =~= views.take(i as int));
            assert(views.take(i + 1).last() == quads@[i as int]@);
            lemma_hashed_prefix(*mphf, views, i + 1);
        }
        let ids: [usize; 4] = hash_quad(mphf, &quads[i])?;
        hashed.push(ids);
        assert(item_views(hashed@) =~= item_views(before).push(ids@));
        i = i + 1;
    }
    assert(views.take(i as int) =~= views);
    Ok(hashed)
}

/// Whether files are those of a quad store that holds given quads of ids, in the order subject,
/// predicate, object, graph.
pub open spec fn holds_ids(
    config: QuadStoreConfiguration,
    files: Seq<SortedArraysFile<4>>,
    ids: Seq<[usize; 4]>,
    order: QuadOrder,
) -> bool {
    &&& config.num_quads == ids.len()
    &&& config.num_partitions > 0
    &&& files.len() == config.num_partitions
    &&& files_read_error(files) is None
    &&& quads_of_files(files).to_multiset() == ordered_quads(ids, order).to_multiset()
    &&& forall|p: int|
        0 <= p < files.len() ==> items_only((#[trigger] files[p]).listing()).to_multiset()
            == quads_of_partition(
            ordered_quads(ids, order),
            (config.num_terms - 1) as nat,
            config.num_partitions as nat,
            p,
        ).to_multiset()
}

/// Whether files are made of the bits that stand for their lists, and of nothing else.
pub open spec fn all_written(files: Seq<SortedArraysFile<4>>) -> bool {
    forall|p: int| 0 <= p < files.len() ==> (#[trigger] files[p]).is_written()
}

proof fn lemma_no_read_error(files: Seq<SortedArraysFile<4>>)
    requires
        forall|p: int| 0 <= p < files.len() ==> (#[trigger] files[p]).read_error() is None,
    ensures
        files_read_error(files) is None,
    decreases files.len(),
{
    if files.len() > 0 {
        assert forall|p: int| 0 <= p < files.drop_last().len() implies (
        #[trigger] files.drop_last()[p]).read_error() is None by {
            assert(files.drop_last()[p] == files[p]);
        }
        lemma_no_read_error(files.drop_last());
        assert(files[files.len() - 1].read_error() is None);
    }
}

/// Writes quads of ids of known terms, in a given order, to the files of a quad store.
pub fn write_ids(
    ids: &Vec<[usize; 4]>,
    num_terms: usize,
    num_partitions: usize,
    order: QuadOrder,
) -> (res: Result<(QuadStoreConfiguration, Vec<SortedArraysFile<4>>), LoadError>)
    requires
        num_partitions > 0,
        forall|i: int, j: int|
            0 <= i < ids@.len() && 0 <= j < 4 ==> (#[trigger] ids@[i]@[j]) < num_terms,
    ensures
        if num_terms < 2 {
            res is Err && res->Err_0 == LoadError::TooFewTerms
        } else {
            match res {
                Err(e) => e is Sorter && !compressible(ordered_quads(ids@, order)),
                Ok((config, files)) => {
                    &&& config.num_terms == num_terms
                    &&& config.num_partitions == num_partitions
                    &&& holds_ids(config, files@, ids@, order)
                    &&& all_written(files@)
                    &&& !ordered_quads(ids@, order).contains(zero_cells(4))
                },
            }
        },
{
    if num_terms < 2 {
        return Err(LoadError::TooFewTerms);
    }
    let ghost ordered = ordered_quads(ids@, order);
    proof {
        lemma_bit_len((num_terms - 1) as nat);
        assert forall|i: int| 0 <= i < ordered.len() implies (#[trigger] ordered[i])[0]
            < num_terms by {
            assert(ids@[i]@[0] < num_terms && ids@[i]@[2] < num_terms);
        }
    }
    match compress_quads(ids, num_terms, num_partitions, order) {
        Err(e) => Err(LoadError::Sorter(e)),
        Ok((config, files)) => {
            proof {
                lemma_no_read_error(files@);
                lemma_compressed_quads(files@, ids@, order, num_terms as nat);
            }
            Ok((config, files))
        },
    }
}

/// Writes quads, in a given order of their terms, to the files of a quad store.
pub fn compress_parsed_quads(
    quads: &Vec<Quad>,
    mphf: &TermMphf,
    num_partitions: usize,
    order: QuadOrder,
) -> (res: Result<(QuadStoreConfiguration, Vec<SortedArraysFile<4>>), LoadError>)
    requires
        num_partitions > 0,
    ensures
        match hashed_quads(*mphf, quad_views(quads@)) {
            Err(e) => res is Err && res->Err_0 == e,
            Ok(ids) => exists|written: Seq<[usize; 4]>| #[trigger]
                item_views(written) == ids && if mphf.num_known() < 2 {
                    res is Err && res->Err_0 == LoadError::TooFewTerms
                } else {
                    match res {
                        Err(e) => e is Sorter && !compressible(ordered_quads(written, order)),
                        Ok((config, files)) => {
                            &&& config.num_terms == mphf.num_known()
                            &&& config.num_partitions == num_partitions
                            &&& holds_ids(config, files@, written, order)
                            &&& all_written(files@)
                            &&& !ordered_quads(written, order).contains(zero_cells(4))
                        },
                    }
                },
        },
{
    let ids: Vec<[usize; 4]> = hash_quads(mphf, quads)?;
    assert(item_views(ids@) == hashed_quads(*mphf, quad_views(quads@))->Ok_0);
    write_ids(&ids, mphf.len(), num_partitions, order)
}

/// The quads of the files of a quad store, in the order subject, predicate, object, graph.
pub fn par_iter_quads(files: &Vec<SortedArraysFile<4>>, order: QuadOrder) -> (res: Result<
    Vec<[usize; 4]>,
    QuadsError,
>)
    ensures
        match files_read_error(files@) {
            Some(e) => res is Err && res->Err_0 == QuadsError::Arrays(e),
            None => res matches Ok(quads) && item_views(quads@) == quads_of_files(
                files@,
            ).map_values(|quad: Seq<usize>| order.reverse(quad)),
        },
{
    let stored: Vec<[usize; 4]> = read_quads(files)?;
    let ghost f = |quad: Seq<usize>| order.reverse(quad);
    let ghost all = item_views(stored@);
    let mut quads: Vec<[usize; 4]> = Vec::new();
    let mut i: usize = 0;
    assert(item_views(quads@) =~= all.take(0).map_values(f));
    while i < stored.len()
        invariant
            i <= stored@.len(),
            all == item_views(stored@),
            f == (|quad: Seq<usize>| order.reverse(quad)),
            item_views(quads@) == all.take(i as int).map_values(f),
        decreases stored@.len() - i,
    {
        let quad: [usize; 4] = order.reverse_mapper(stored[i]);
        let ghost before = quads@;
        quads.push(quad);
        proof {
            assert(all[i as int] == stored@[i as int]@);
            assert(item_views(quads@) =~= item_views(before).push(quad@));
            assert(all.take(i + 1).map_values(f) =~= all.take(i as int).map_values(f).push(
                f(all[i as int]),
            ));
        }
        i = i + 1;
    }
    assert(all.take(i as int) =~= all);
    Ok(quads)
}

/// Writes the quads of a quad store to the files of a quad store in another order.
pub fn recompress_quads(
    config: &QuadStoreConfiguration,
    files: &Vec<SortedArraysFile<4>>,
    from_order: QuadOrder,
    to_order: QuadOrder,
) -> (res: Result<(QuadStoreConfiguration, Vec<SortedArraysFile<4>>), LoadError>)
    requires
        config.num_partitions > 0,
    ensures
        match files_read_error(files@) {
            Some(e) => res is Err && res->Err_0 == LoadError::Quads(QuadsError::Arrays(e)),
            None => exists|ids: Seq<[usize; 4]>| #[trigger]
                item_views(ids) == quads_of_files(files@).map_values(
                    |quad: Seq<usize>| from_order.reverse(quad),
                ) && if !all_below(ids, config.num_terms) {
                    res is Err && res->Err_0 == LoadError::InvalidTerm
                } else if config.num_terms < 2 {
                    res is Err && res->Err_0 == LoadError::TooFewTerms
                } else {
                    match res {
                        Err(e) => e is Sorter && !compressible(ordered_quads(ids, to_order)),
                        Ok((new_config, new_files)) => {
                            &&& new_config.num_terms == config.num_terms
                            &&& new_config.num_partitions == config.num_partitions
                            &&& holds_ids(new_config, new_files@, ids, to_order)
                            &&& all_written(new_files@)
                            &&& !ordered_quads(ids, to_order).contains(zero_cells(4))
                        },
                    }
                },
        },
{
    let ids: Vec<[usize; 4]> = match par_iter_quads(files, from_order) {
        Err(e) => {
            return Err(LoadError::Quads(e));
        },
        Ok(ids) => ids,
    };
    if !check_below(&ids, config.num_terms) {
        return Err(LoadError::InvalidTerm);
    }
    write_ids(&ids, config.num_terms, config.num_partitions, to_order)
}

/// Whether all ids are those of known terms.
pub open spec fn all_below(ids: Seq<[usize; 4]>, num_terms: usize) -> bool {
    forall|i: int, j: int| 0 <= i < ids.len() && 0 <= j < 4 ==> (#[trigger] ids[i]@[j]) < num_terms
}

fn check_below(ids: &Vec<[usize; 4]>, num_terms: usize) -> (below: bool)
    ensures
        below == all_below(ids@, num_terms),
{
    let mut i: usize = 0;
    while i < ids.len()
        invariant
            i <= ids@.len(),
            forall|k: int, j: int|
                0 <= k < i && 0 <= j < 4 ==> (#[trigger] ids@[k]@[j]) < num_terms,
        decreases ids@.len() - i,
    {
        let mut c: usize = 0;
        while c < 4
            invariant
                i < ids@.len(),
                c <= 4,
                forall|j: int| 0 <= j < c ==> (#[trigger] ids@[i as int]@[j]) < num_terms,
            decreases 4 - c,
        {
            if ids[i][c] >= num_terms {
                assert(ids@[i as int]@[c as int] >= num_terms);
                return false;
            }
            c = c + 1;
        }
        i = i + 1;
    }
    true
}

proof fn lemma_ordered_count(quads: Seq<[usize; 4]>, order: QuadOrder, quad: Seq<usize>)
    requires
        quad.len() == 4,
    ensures
        ordered_quads(quads, order).to_multiset().count(order.order(quad)) == item_views(
            quads,
        ).to_multiset().count(quad),
    decreases quads.len(),
{
    broadcast use vstd::multiset::group_multiset_axioms;

    if quads.len() == 0 {
        vstd::seq_lib::to_multiset_contains(ordered_quads(quads, order), order.order(quad));
        vstd::seq_lib::to_multiset_contains(item_views(quads), quad);
    } else {
        let before = quads.drop_last();
        let last = quads.last();
        lemma_ordered_count(before, order, quad);
        assert(item_views(before).push(last@) =~= item_views(quads));
        assert(ordered_quads(before, order).push(order.order(last@)) =~= ordered_quads(
            quads,
            order,
        ));
        vstd::seq_lib::to_multiset_build(item_views(before), last@);
        vstd::seq_lib::to_multiset_build(ordered_quads(before, order), order.order(last@));
        lemma_order_inverse(order, last@);
        lemma_order_inverse(order, quad);
    }
}

proof fn lemma_reversed_count(quads: Seq<Seq<usize>>, order: QuadOrder, quad: Seq<usize>)
    requires
        forall|i: int| 0 <= i < quads.len() ==> (#[trigger] quads[i]).len() == 4,
        quad.len() == 4,
    ensures
        quads.map_values(|quad: Seq<usize>| order.reverse(quad)).to_multiset().count(quad)
            == quads.to_multiset().count(order.order(quad)),
    decreases quads.len(),
{
    broadcast use vstd::multiset::group_multiset_axioms;

    let f = |quad: Seq<usize>| order.reverse(quad);
    if quads.len() == 0 {
        vstd::seq_lib::to_multiset_contains(quads.map_values(f), quad);
        vstd::seq_lib::to_multiset_contains(quads, order.order(quad));
    } else {
        let before = quads.drop_last();
        let last = quads.last();
        lemma_reversed_count(before, order, quad);
        assert(before.push(last) =~= quads);
        assert(before.map_values(f).push(f(last)) =~= quads.map_values(f));
        vstd::seq_lib::to_multiset_build(before, last);
        vstd::seq_lib::to_multiset_build(before.map_values(f), f(last));
        lemma_order_inverse(order, last);
        lemma_order_inverse(order, quad);
    }
}

/// The quads that are read from a store are those that were written to it, each as often, whatever
/// the order of their terms in the store.
pub proof fn lemma_read_ids(
    config: QuadStoreConfiguration,
    files: Seq<SortedArraysFile<4>>,
    ids: Seq<[usize; 4]>,
    order: QuadOrder,
)
    requires
        holds_ids(config, files, ids, order),
    ensures
        quads_of_files(files).map_values(
            |quad: Seq<usize>| order.reverse(quad),
        ).to_multiset() == item_views(ids).to_multiset(),
{
    broadcast use vstd::multiset::group_multiset_axioms;

    let stored = quads_of_files(files);
    let ordered = ordered_quads(ids, order);
    let f = |quad: Seq<usize>| order.reverse(quad);
    assert forall|i: int| 0 <= i < stored.len() implies (#[trigger] stored[i]).len() == 4 by {
        vstd::seq_lib::to_multiset_contains(stored, stored[i]);
        vstd::seq_lib::to_multiset_contains(ordered, stored[i]);
        assert(stored.contains(stored[i]));
        assert(ordered.contains(stored[i]));
    }
    assert forall|quad: Seq<usize>| #[trigger] stored.map_values(f).to_multiset().count(quad)
        == item_views(ids).to_multiset().count(quad) by {
        if quad.len() == 4 {
            lemma_reversed_count(stored, order, quad);
            lemma_ordered_count(ids, order, quad);
        } else {
            vstd::seq_lib::to_multiset_contains(stored.map_values(f), quad);
            vstd::seq_lib::to_multiset_contains(item_views(ids), quad);
            if stored.map_values(f).contains(quad) {
                let i = choose|i: int|
                    0 <= i < stored.len() && stored.map_values(f)[i] == quad;
                assert(quad == f(stored[i]));
            }
        }
    }
    assert(stored.map_values(f).to_multiset() =~= item_views(ids).to_multiset());
}

proof fn lemma_files_read_error(files: Seq<SortedArraysFile<4>>, p: int)
    requires
        files_read_error(files) is None,
        0 <= p < files.len(),
    ensures
        files[p].read_error() is None,
    decreases files.len(),
{
    if p < files.len() - 1 {
        lemma_files_read_error(files.drop_last(), p);
        assert(files.drop_last()[p] == files[p]);
    }
}

proof fn lemma_in_range(num_terms: nat, num_partitions: nat, p: nat, term: nat)
    requires
        num_partitions > 0,
        term < num_terms,
        partition_of((num_terms - 1) as nat, num_partitions, term) == p,
    ensures
        ({
            let first = terms_per_partition(num_terms, num_partitions) * p;
            first <= term < first + terms_in_partition(num_terms, num_partitions, p)
        }),
{
    let size = ((num_terms - 1) as nat / num_partitions + 1) as nat;
    let np = num_partitions as int;
    let q = (num_terms - 1) / np;
    let r = (num_terms - 1) % np;
    vstd::arithmetic::div_mod::lemma_fundamental_div_mod(num_terms - 1, np);
    assert((q + 1) * np == np * q + np) by (nonlinear_arith);
    vstd::arithmetic::div_mod::lemma_fundamental_div_mod_converse(
        num_terms + np - 1,
        np,
        q + 1,
        r,
    );
    assert(terms_per_partition(num_terms, num_partitions) == size);
    vstd::arithmetic::div_mod::lemma_fundamental_div_mod(term as int, size as int);
    assert(size * (p + 1) == size * p + size) by (nonlinear_arith);
}

/// The files that quads of known terms were written to can be opened as the partitions of a quad
/// store: they can be read, and the quads of each of them start with its terms.
pub proof fn lemma_written_partitions(
    config: QuadStoreConfiguration,
    files: Seq<SortedArraysFile<4>>,
    ids: Seq<[usize; 4]>,
    order: QuadOrder,
    p: int,
)
    requires
        holds_ids(config, files, ids, order),
        all_below(ids, config.num_terms),
        0 <= p < files.len(),
    ensures
        files[p].read_error() is None,
        in_partition(
            files[p].listing(),
            (terms_per_partition(config.num_terms as nat, config.num_partitions as nat) * p) as int,
            terms_in_partition(
                config.num_terms as nat,
                config.num_partitions as nat,
                p as nat,
            ) as int,
        ),
{
    let nt = config.num_terms as nat;
    let np = config.num_partitions as nat;
    let ordered = ordered_quads(ids, order);
    let part = quads_of_partition(ordered, (nt - 1) as nat, np, p);
    let items = files[p].listing();
    lemma_files_read_error(files, p);
    let pred = |quad: Seq<usize>| partition_of((nt - 1) as nat, np, quad[0] as nat) == p;
    assert forall|i: int| 0 <= i < items.len() implies (terms_per_partition(nt, np) * p)
        <= (#[trigger] items[i]).1[0] < (terms_per_partition(nt, np) * p) + terms_in_partition(
        nt,
        np,
        p as nat,
    ) by {
        let quad = items_only(items)[i];
        assert(quad == items[i].1);
        vstd::seq_lib::to_multiset_contains(items_only(items), quad);
        assert(items_only(items).contains(quad));
        vstd::seq_lib::to_multiset_contains(part, quad);
        assert(part.contains(quad));
        let k = choose|k: int| 0 <= k < part.len() && part[k] == quad;
        ordered.lemma_filter_pred(pred, k);
        ordered.lemma_filter_contains_rev(pred, quad);
        let j = choose|j: int| 0 <= j < ordered.len() && ordered[j] == quad;
        assert(ordered[j] == order.order(ids[j]@));
        assert(ids[j]@[0] < nt && ids[j]@[2] < nt);
        lemma_in_range(nt, np, p as nat, quad[0] as nat);
    }
}

/// Whether quads can be written does not depend on the order in which they are given.
pub proof fn lemma_same_compressible(
    a: Seq<[usize; 4]>,
    b: Seq<[usize; 4]>,
    order: QuadOrder,
)
    requires
        item_views(a).to_multiset() == item_views(b).to_multiset(),
        compressible(ordered_quads(a, order)),
    ensures
        compressible(ordered_quads(b, order)),
{
    vstd::seq_lib::to_multiset_len(item_views(a));
    vstd::seq_lib::to_multiset_len(item_views(b));
    let ordered = ordered_quads(b, order);
    assert forall|i: int| 0 <= i < ordered.len() implies storable(#[trigger] ordered[i]) by {
        let quad = b[i]@;
        assert(item_views(b)[i] == quad);
        vstd::seq_lib::to_multiset_contains(item_views(b), quad);
        vstd::seq_lib::to_multiset_contains(item_views(a), quad);
        assert(item_views(b).contains(quad));
        assert(item_views(a).contains(quad));
        let k = choose|k: int| 0 <= k < item_views(a).len() && item_views(a)[k] == quad;
        assert(ordered_quads(a, order)[k] == order.order(quad));
    }
}

/// Whether all the terms of a quad have ids.
pub open spec fn is_known_quad(mphf: TermMphf, quad: QuadView) -> bool {
    &&& serialized_term(quad.subject, None) matches Ok(bytes) && mphf.id_of(bytes) is Some
    &&& serialized_term(TermView::NamedNode(quad.predicate), None) matches Ok(bytes) && mphf.id_of(
        bytes,
    ) is Some
    &&& serialized_term(quad.object, None) matches Ok(bytes) && mphf.id_of(bytes) is Some
    &&& mphf.id_of(serialized_graph_name(quad.graph_name)) is Some
}

/// Quads are turned into ids if all their terms have ids, and only then. Each quad is turned into
/// the ids of its subject, of its predicate, of its object and of its graph, in this order.
pub proof fn lemma_hashed(mphf: TermMphf, quads: Seq<QuadView>)
    ensures
        hashed_quads(mphf, quads) is Ok <==> forall|i: int|
            0 <= i < quads.len() ==> is_known_quad(mphf, #[trigger] quads[i]),
        hashed_quads(mphf, quads) matches Ok(ids) ==> ids.len() == quads.len() && forall|i: int|
            0 <= i < quads.len() ==> {
                let quad = #[trigger] quads[i];
                &&& ids[i].len() == 4
                &&& mphf.id_of(serialized_term(quad.subject, None)->Ok_0) == Some(ids[i][0])
                &&& mphf.id_of(
                    serialized_term(TermView::NamedNode(quad.predicate), None)->Ok_0,
                ) == Some(ids[i][1])
                &&& mphf.id_of(serialized_term(quad.object, None)->Ok_0) == Some(ids[i][2])
                &&& mphf.id_of(serialized_graph_name(quad.graph_name)) == Some(ids[i][3])
            },
    decreases quads.len(),
{
    if quads.len() > 0 {
        let before = quads.drop_last();
        let n = quads.len() - 1;
        lemma_hashed(mphf, before);
        assert(quads[n] == quads.last());
        assert(hashed_quad(mphf, quads[n]) is Ok <==> is_known_quad(mphf, quads[n]));
        if hashed_quads(mphf, quads) is Ok {
            let ids = hashed_quads(mphf, quads)->Ok_0;
            assert forall|i: int| 0 <= i < quads.len() implies {
                let quad = #[trigger] quads[i];
                &&& is_known_quad(mphf, quad)
                &&& ids[i].len() == 4
                &&& mphf.id_of(serialized_term(quad.subject, None)->Ok_0) == Some(ids[i][0])
                &&& mphf.id_of(
                    serialized_term(TermView::NamedNode(quad.predicate), None)->Ok_0,
                ) == Some(ids[i][1])
                &&& mphf.id_of(serialized_term(quad.object, None)->Ok_0) == Some(ids[i][2])
                &&& mphf.id_of(serialized_graph_name(quad.graph_name)) == Some(ids[i][3])
            } by {
                if i < n {
                    assert(before[i] == quads[i]);
                }
            }
        }
        if forall|i: int| 0 <= i < quads.len() ==> is_known_quad(mphf, #[trigger] quads[i]) {
            assert forall|i: int| 0 <= i < before.len() implies is_known_quad(
                mphf,
                #[trigger] before[i],
            ) by {
                assert(before[i] == quads[i]);
            }
        }
    }
}

/// Quads of ids can be written in any order of their terms if no id overflows 63 bits, none has
/// zeros only, and there are not too many for the bits of their terms to be counted.
pub proof fn lemma_writable(ids: Seq<[usize; 4]>, order: QuadOrder)
    requires
        forall|i: int, j: int|
            0 <= i < ids.len() && 0 <= j < 4 ==> #[trigger] ids[i]@[j] < 0x8000_0000_0000_0000,
        forall|i: int|
            0 <= i < ids.len() ==> (#[trigger] ids[i])@[0] != 0 || ids[i]@[1] != 0 || ids[i]@[2]
                != 0 || ids[i]@[3] != 0,
        256 * (ids.len() + 1) <= usize::MAX,
        512 * (ids.len() + 1) <= u64::MAX,
    ensures
        compressible(ordered_quads(ids, order)),
{
    let ordered = ordered_quads(ids, order);
    assert forall|i: int| 0 <= i < ordered.len() implies storable(#[trigger] ordered[i]) by {
        let quad = ids[i]@;
        assert(ordered[i] == order.order(quad));
        assert(ids[i]@[0] < 0x8000_0000_0000_0000 && ids[i]@[1] < 0x8000_0000_0000_0000);
        assert(ids[i]@[2] < 0x8000_0000_0000_0000 && ids[i]@[3] < 0x8000_0000_0000_0000);
        if ordered[i] == zero_cells(4) {
            assert(ordered[i][0] == 0 && ordered[i][1] == 0 && ordered[i][2] == 0
                && ordered[i][3] == 0);
            assert(quad[0] == 0 && quad[1] == 0 && quad[2] == 0 && quad[3] == 0);
        }
    }
    let len = ids.len();
    assert((4 * len + 4) * usize::BITS <= 256 * (len + 1)) by (nonlinear_arith)
        requires
            usize::BITS <= 64,
    ;
}

} // verus!
