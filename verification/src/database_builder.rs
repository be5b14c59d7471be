//! Databases built from quads.

use crate::array_sorter::partition_of;
use crate::arrays::{item_views, items_only, SortedArraysFile};
use crate::indexes::construction_failed;
use crate::loading::{
    all_below, all_written, hash_quads, hashed_quad, hashed_quads, holds_ids, lemma_read_ids,
    lemma_same_compressible, lemma_written_partitions, recompress_quads, write_ids, LoadError,
};
use crate::quads::{
    compressible, index_quads, lemma_same_partition, ordered_quads, partition_is_invalid,
    partition_may_fail, partition_too_large, quads_of_files, quads_of_partition, QuadOrder,
    QuadStore, QuadStoreConfiguration,
};
use crate::quads_store::{lemma_same_pair_keys, pair_keys, QuadsError};
use crate::queryable_dataset::{
    all_found, known_id, DatasetFailure, InternalQuad, QuadPattern, SuccinctDatasetError,
    SuccinctDatasetView,
};
use crate::secondary_indexes::{build_secondary_index, second_terms_of};
use crate::strings::{bytes_lt, copy_range, string_views, strings_increasing};
use crate::terms::{
    serialized_graph_name, serialized_term, GraphNameView, Quad, QuadView,
};
use crate::terms_mphf::{
    build_terms_mphf, lemma_files_strings, lemma_mphf_keys, TermHasher, TermMphf,
};
use crate::terms_store::{
    file_error, file_num_terms, index_terms_files, lemma_file_num_terms, lemma_stored_term,
    lemma_valid_file_is_indexed, stores, TermStore, TermStoreConfiguration, TermsError,
};
use crate::terms_writer::{
    are_written, chunk_views, quad_error, quad_strings, quad_views, quads_error, quads_strings,
    write_unique_terms,
};
use crate::utils::RdfFormat;
use vstd::prelude::*;

verus! {

/// Why a database could not be built.
#[derive(Clone, Copy, Debug, PartialEq, Eq, Structural)]
pub enum BuildError {
    /// No input was given.
    NoInput,
    /// The terms could not be written or indexed.
    Terms(TermsError),
    /// The quads could not be written.
    Load(LoadError),
    /// The quads could not be indexed.
    Quads(QuadsError),
    /// The dataset could not be opened.
    Dataset(DatasetFailure),
}

/// A copy of files.
fn copy_files(files: &Vec<Vec<u8>>) -> (copies: Vec<Vec<u8>>)
    ensures
        string_views(copies@) == string_views(files@),
{
    let mut copies: Vec<Vec<u8>> = Vec::new();
    let mut i: usize = 0;
    assert(string_views(copies@) =~= string_views(files@).take(0));
    while i < files.len()
        invariant
            i <= files@.len(),
            string_views(copies@) == string_views(files@).take(i as int),
        decreases files@.len() - i,
    {
        let copy: Vec<u8> = copy_range(files[i].as_slice(), 0, files[i].len());
        assert(copy@ =~= files@[i as int]@);
        let ghost before = copies@;
        copies.push(copy);
        assert(string_views(copies@) =~= string_views(before).push(copy@));
        assert(string_views(files@).take(i + 1) =~= string_views(files@).take(i as int).push(
            files@[i as int]@,
        ));
        i = i + 1;
    }
    assert(string_views(files@).take(i as int) =~= string_views(files@));
    copies
}

proof fn lemma_hashed_concat(mphf: TermMphf, left: Seq<QuadView>, right: Seq<QuadView>)
    requires
        hashed_quads(mphf, left) is Ok,
    ensures
        hashed_quads(mphf, left + right) == (match hashed_quads(mphf, right) {
            Err(e) => Err::<Seq<Seq<usize>>, LoadError>(e),
            Ok(more) => Ok(hashed_quads(mphf, left)->Ok_0 + more),
        }),
    decreases right.len(),
{
    if right.len() == 0 {
        assert(left + right =~= left);
        assert(hashed_quads(mphf, left)->Ok_0 + Seq::<Seq<usize>>::empty() =~= hashed_quads(
            mphf,
            left,
        )->Ok_0);
    } else {
        lemma_hashed_concat(mphf, left, right.drop_last());
        assert((left + right).drop_last() =~= left + right.drop_last());
        match hashed_quads(mphf, right) {
            Err(e) => {},
            Ok(more) => {
                let before = hashed_quads(mphf, right.drop_last())->Ok_0;
                assert(hashed_quads(mphf, left)->Ok_0 + before.push(more.last())
                    =~= (hashed_quads(mphf, left)->Ok_0 + before).push(more.last()));
            },
        }
    }
}

/// The ids of the terms of the quads of several lists.
fn hash_chunks(mphf: &TermMphf, chunks: &Vec<Vec<Quad>>) -> (res: Result<
    Vec<[usize; 4]>,
    LoadError,
>)
    ensures
        match res {
            Err(e) => hashed_quads(*mphf, chunk_views(chunks@)) is Err,
            Ok(ids) => {
                &&& hashed_quads(*mphf, chunk_views(chunks@)) == Ok::<Seq<Seq<usize>>, LoadError>(
                    item_views(ids@),
                )
                &&& forall|i: int, j: int|
                    0 <= i < ids@.len() && 0 <= j < 4 ==> (#[trigger] ids@[i]@[j])
                        < mphf.num_known()
            },
        },
{
    let mut ids: Vec<[usize; 4]> = Vec::new();
    let mut i: usize = 0;
    assert(chunks@.take(0) =~= Seq::empty());
    assert(item_views(ids@) =~= Seq::empty());
    while i < chunks.len()
        invariant
            i <= chunks@.len(),
            hashed_quads(*mphf, chunk_views(chunks@.take(i as int))) == Ok::<
                Seq<Seq<usize>>,
                LoadError,
            >(item_views(ids@)),
            forall|i: int, j: int|
                0 <= i < ids@.len() && 0 <= j < 4 ==> (#[trigger] ids@[i]@[j]) < mphf.num_known(),
        decreases chunks@.len() - i,
    {
        let ghost before = ids@;
        proof {
            assert(chunks@.take(i + 1).drop_last() =~= chunks@.take(i as int));
            lemma_hashed_concat(
                *mphf,
                chunk_views(chunks@.take(i as int)),
                quad_views(chunks@[i as int]@),
            );
            lemma_hashed_chunks(*mphf, chunks@, i + 1);
        }
        let mut more: Vec<[usize; 4]> = hash_quads(mphf, &chunks[i])?;
        let ghost added = more@;
        ids.append(&mut more);
        proof {
            assert(item_views(ids@) =~= item_views(before) + item_views(added));
            assert forall|i: int, j: int| 0 <= i < ids@.len() && 0 <= j < 4 implies (
            #[trigger] ids@[i]@[j]) < mphf.num_known() by {
                if i < before.len() {
                    assert(ids@[i] == before[i]);
                } else {
                    assert(ids@[i] == added[i - before.len()]);
                    assert(added[i - before.len()]@[j] < mphf.num_known());
                }
            }
        }
        i = i + 1;
    }
    assert(chunks@.take(i as int) =~= chunks@);
    Ok(ids)
}

proof fn lemma_hashed_chunks(mphf: TermMphf, chunks: Seq<Vec<Quad>>, n: int)
    requires
        0 <= n <= chunks.len(),
    ensures
        hashed_quads(mphf, chunk_views(chunks.take(n))) is Err ==> hashed_quads(
            mphf,
            chunk_views(chunks),
        ) is Err,
    decreases chunks.len() - n,
{
    if n == chunks.len() {
        assert(chunks.take(n) =~= chunks);
    } else {
        lemma_hashed_chunks(mphf, chunks, n + 1);
        let next = chunks.take(n + 1);
        assert(next.drop_last() =~= chunks.take(n));
        lemma_hashed_error(mphf, chunk_views(chunks.take(n)), quad_views(next.last()@));
    }
}

proof fn lemma_hashed_error(mphf: TermMphf, left: Seq<QuadView>, right: Seq<QuadView>)
    ensures
        hashed_quads(mphf, left) is Err ==> hashed_quads(mphf, left + right) is Err,
    decreases right.len(),
{
    if right.len() == 0 {
        assert(left + right =~= left);
    } else {
        lemma_hashed_error(mphf, left, right.drop_last());
        assert((left + right).drop_last() =~= left + right.drop_last());
    }
}

/// Whether quads of ids stand for quads, when ids are positions in a list of terms.
pub open spec fn ids_of(
    strings: Seq<Seq<u8>>,
    quads: Seq<QuadView>,
    ids: Seq<Seq<usize>>,
) -> bool {
    &&& ids.len() == quads.len()
    &&& forall|i: int| 0 <= i < ids.len() ==> quad_ids(strings, quads[i], #[trigger] ids[i])
}

/// Whether a quad of ids stands for a quad, when ids are positions in a list of terms.
pub open spec fn quad_ids(strings: Seq<Seq<u8>>, quad: QuadView, ids: Seq<usize>) -> bool {
    &&& ids.len() == 4
    &&& forall|j: int|
        0 <= j < 4 ==> (#[trigger] ids[j]) < strings.len() && strings[ids[j] as int]
            == quad_strings(quad)[j]
}

/// Whether a dataset is that of quads: it has their terms, in increasing order, and the quads of
/// the ids of their terms, and it knows which id the default graph has, if any.
pub open spec fn is_dataset_of(
    view: SuccinctDatasetView,
    quads: Seq<QuadView>,
    strings: Seq<Seq<u8>>,
    ids: Seq<Seq<usize>>,
) -> bool {
    &&& view.well_formed()
    &&& view.intact()
    &&& view.terms().config().well_formed()
    &&& strings_increasing(strings)
    &&& strings.to_set() == quads_strings(quads)
    &&& view.holds_terms(strings)
    &&& known_id(
        view.mphf(),
        view.terms(),
        Ok(serialized_graph_name(GraphNameView::DefaultGraph)),
    ) == Ok::<Option<usize>, DatasetFailure>(view.default_graph())
    &&& ids_of(strings, quads, ids)
    &&& view.holds_quads(ids)
    &&& view.spog().config().num_terms == strings.len()
    &&& view.opsg().config().num_terms == strings.len()
}

/// Whether a dataset is that of quads.
pub open spec fn has_quads(view: SuccinctDatasetView, quads: Seq<QuadView>) -> bool {
    exists|strings: Seq<Seq<u8>>, ids: Seq<Seq<usize>>| #[trigger]
        is_dataset_of(view, quads, strings, ids)
}

proof fn lemma_hashed_known(mphf: TermMphf, strings: Seq<Seq<u8>>, quads: Seq<QuadView>)
    requires
        mphf.numbers(strings),
        strings.len() <= usize::MAX,
        forall|i: int|
            0 <= i < quads.len() ==> serialized_term((#[trigger] quads[i]).subject, None) is Ok
                && serialized_term(quads[i].object, None) is Ok,
        forall|i: int, j: int|
            0 <= i < quads.len() && 0 <= j < 4 ==> strings.contains(
                #[trigger] quad_strings(quads[i])[j],
            ),
    ensures
        hashed_quads(mphf, quads) matches Ok(ids) && ids_of(strings, quads, ids),
    decreases quads.len(),
{
    if quads.len() > 0 {
        let before = quads.drop_last();
        let last = quads.last();
        assert forall|i: int, j: int| 0 <= i < before.len() && 0 <= j < 4 implies strings.contains(
            #[trigger] quad_strings(before[i])[j],
        ) by {
            assert(before[i] == quads[i]);
            assert(strings.contains(quad_strings(quads[i])[j]));
        }
        lemma_hashed_known(mphf, strings, before);
        let n = quads.len() - 1;
        let of_last = quad_strings(last);
        assert(strings.contains(quad_strings(quads[n])[0]));
        assert(strings.contains(quad_strings(quads[n])[1]));
        assert(strings.contains(quad_strings(quads[n])[2]));
        assert(strings.contains(quad_strings(quads[n])[3]));
        let a = choose|a: int| 0 <= a < strings.len() && strings[a] == of_last[0];
        let b = choose|b: int| 0 <= b < strings.len() && strings[b] == of_last[1];
        let c = choose|c: int| 0 <= c < strings.len() && strings[c] == of_last[2];
        let d = choose|d: int| 0 <= d < strings.len() && strings[d] == of_last[3];
        assert(mphf.id_of(strings[a]) == Some(a as usize));
        assert(mphf.id_of(strings[b]) == Some(b as usize));
        assert(mphf.id_of(strings[c]) == Some(c as usize));
        assert(mphf.id_of(strings[d]) == Some(d as usize));
        let ids = seq![a as usize, b as usize, c as usize, d as usize];
        assert(hashed_quad(mphf, last) == Ok::<Seq<usize>, LoadError>(ids));
        assert(quad_ids(strings, last, ids));
        let all = hashed_quads(mphf, quads)->Ok_0;
        assert forall|i: int| 0 <= i < all.len() implies quad_ids(
            strings,
            quads[i],
            #[trigger] all[i],
        ) by {
            if i < n {
                assert(before[i] == quads[i]);
                assert(all[i] == hashed_quads(mphf, before)->Ok_0[i]);
            }
        }
    }
}

proof fn lemma_no_error(quads: Seq<QuadView>, i: int)
    requires
        quads_error(quads) is None,
        0 <= i < quads.len(),
    ensures
        quad_error(quads[i]) is None,
    decreases quads.len(),
{
    if i < quads.len() - 1 {
        lemma_no_error(quads.drop_last(), i);
        assert(quads.drop_last()[i] == quads[i]);
    }
}

proof fn lemma_subjects(chunks: Seq<Vec<Quad>>, i: int)
    requires
        0 <= i < chunk_views(chunks).len(),
    ensures
        serialized_term(chunk_views(chunks)[i].subject, None) is Ok,
    decreases chunks.len(),
{
    let before = chunk_views(chunks.drop_last());
    if i < before.len() {
        lemma_subjects(chunks.drop_last(), i);
    } else {
        let quad = chunks.last()@[i - before.len()];
        assert(chunk_views(chunks)[i] == quad@);
    }
}

proof fn lemma_chunks_hashed(mphf: TermMphf, strings: Seq<Seq<u8>>, chunks: Seq<Vec<Quad>>)
    requires
        mphf.numbers(strings),
        strings.len() <= usize::MAX,
        quads_error(chunk_views(chunks)) is None,
        strings.to_set() == quads_strings(chunk_views(chunks)),
    ensures
        hashed_quads(mphf, chunk_views(chunks)) matches Ok(ids) && ids_of(
            strings,
            chunk_views(chunks),
            ids,
        ),
{
    let quads = chunk_views(chunks);
    assert forall|i: int| 0 <= i < quads.len() implies serialized_term(
        (#[trigger] quads[i]).subject,
        None,
    ) is Ok && serialized_term(quads[i].object, None) is Ok by {
        lemma_subjects(chunks, i);
        lemma_no_error(quads, i);
    }
    assert forall|i: int, j: int| 0 <= i < quads.len() && 0 <= j < 4 implies strings.contains(
        #[trigger] quad_strings(quads[i])[j],
    ) by {
        let s = quad_strings(quads[i])[j];
        assert(quad_strings(quads[i]).contains(s));
        assert(quads_strings(quads).contains(s));
        assert(strings.to_set().contains(s));
    }
    lemma_hashed_known(mphf, strings, quads);
}

/// Whether quads of ids can be written in both orders.
pub open spec fn ids_compressible(ids: Seq<[usize; 4]>) -> bool {
    compressible(ordered_quads(ids, QuadOrder::Spog)) && compressible(
        ordered_quads(ids, QuadOrder::Opsg),
    )
}

/// Whether the files of quads of ids are too large to be indexed, or the ids are.
pub open spec fn ids_too_large(ids: Seq<[usize; 4]>, num_terms: nat, num_partitions: nat) -> bool {
    ||| second_terms_of(item_views(ids)).len() + num_terms >= usize::MAX / 2
    ||| exists|
        config: QuadStoreConfiguration,
        files: Seq<SortedArraysFile<4>>,
        stored: Seq<[usize; 4]>,
        order: QuadOrder,
    | #[trigger]
        holds_ids(config, files, stored, order) && config.num_terms == num_terms
            && config.num_partitions == num_partitions && item_views(stored).to_multiset()
            == item_views(ids).to_multiset() && all_written(files) && some_too_large(config, files)
}

/// Whether the construction of a static function failed on the pairs of first terms of one of the
/// partitions of quads of ids, in one of the orders.
pub open spec fn pair_construction_failed(
    ids: Seq<[usize; 4]>,
    num_terms: nat,
    num_partitions: nat,
) -> bool {
    exists|order: QuadOrder, p: int|
        0 <= p < num_partitions && construction_failed(
            pair_keys(
                #[trigger] quads_of_partition(
                    ordered_quads(ids, order),
                    (num_terms - 1) as nat,
                    num_partitions,
                    p,
                ),
            ),
        )
}

/// Whether one of the files of a store is too large to be indexed.
pub open spec fn some_too_large(
    config: QuadStoreConfiguration,
    files: Seq<SortedArraysFile<4>>,
) -> bool {
    exists|p: int|
        0 <= p < files.len() && partition_too_large(#[trigger] files[p], config, p as nat)
}

/// The same quads in another order have the same second terms.
proof fn lemma_same_second_terms(a: Seq<Seq<usize>>, b: Seq<Seq<usize>>)
    requires
        a.to_multiset() == b.to_multiset(),
    ensures
        second_terms_of(a) == second_terms_of(b),
{
    assert forall|term: usize| #[trigger] second_terms_of(a).contains(term)
        <==> second_terms_of(b).contains(term) by {
        if second_terms_of(a).contains(term) {
            let i = choose|i: int| 0 <= i < a.len() && (#[trigger] a[i])[1] == term;
            vstd::seq_lib::to_multiset_contains(a, a[i]);
            vstd::seq_lib::to_multiset_contains(b, a[i]);
            assert(a.contains(a[i]) && b.contains(a[i]));
            let j = choose|j: int| 0 <= j < b.len() && b[j] == a[i];
            assert(b[j][1] == term);
        }
        if second_terms_of(b).contains(term) {
            let i = choose|i: int| 0 <= i < b.len() && (#[trigger] b[i])[1] == term;
            vstd::seq_lib::to_multiset_contains(a, b[i]);
            vstd::seq_lib::to_multiset_contains(b, b[i]);
            assert(b.contains(b[i]) && a.contains(b[i]));
            let j = choose|j: int| 0 <= j < a.len() && a[j] == b[i];
            assert(a[j][1] == term);
        }
    }
    assert(second_terms_of(a) =~= second_terms_of(b));
}

/// Writes the quads of a dataset in both orders, with the index of their second terms.
#[verifier::rlimit(50)]
fn build_quads(ids: &Vec<[usize; 4]>, num_terms: usize, num_partitions: usize) -> (res: Result<
    (QuadStore, QuadStore, crate::secondary_indexes::SecondaryIndex),
    BuildError,
>)
    requires
        num_partitions > 0,
        num_terms + num_partitions <= usize::MAX,
        forall|i: int, j: int|
            0 <= i < ids@.len() && 0 <= j < 4 ==> (#[trigger] ids@[i]@[j]) < num_terms,
    ensures
        num_terms < 2 ==> res is Err && res->Err_0 == BuildError::Load(LoadError::TooFewTerms),
        res matches Err(e) ==> match e {
            BuildError::Load(LoadError::TooFewTerms) => num_terms < 2,
            BuildError::Load(LoadError::Sorter(_)) => !ids_compressible(ids@),
            BuildError::Quads(QuadsError::StaticFunction) => ids@.len() > 0
                && pair_construction_failed(ids@, num_terms as nat, num_partitions as nat),
            BuildError::Quads(e) => e == QuadsError::IndexTooLarge && ids_too_large(
                ids@,
                num_terms as nat,
                num_partitions as nat,
            ),
            _ => false,
        },
        res matches Ok((spog, opsg, index)) ==> {
            &&& spog.intact()
            &&& opsg.intact()
            &&& index.well_formed()
            &&& spog.config().num_terms == num_terms
            &&& opsg.config().num_terms == num_terms
            &&& index.indexes(spog.quads())
            &&& exists|stored: Seq<[usize; 4]>|
                {
                    &&& spog.quads().to_multiset() == item_views(stored).to_multiset()
                    &&& opsg.quads().to_multiset() == #[trigger] ordered_quads(
                        stored,
                        QuadOrder::Opsg,
                    ).to_multiset()
                    &&& item_views(stored).to_multiset() == item_views(ids@).to_multiset()
                }
        },
{
    let (config, files) = match write_ids(ids, num_terms, num_partitions, QuadOrder::Spog) {
        Err(e) => {
            return Err(BuildError::Load(e));
        },
        Ok(written) => written,
    };
    let ghost spog_quads = quads_of_files(files@);
    proof {
        lemma_read_ids(config, files@, ids@, QuadOrder::Spog);
        assert(spog_quads.map_values(|quad: Seq<usize>| QuadOrder::Spog.reverse(quad))
            =~= spog_quads);
        assert(ordered_quads(ids@, QuadOrder::Spog) =~= item_views(ids@));
    }
    let (opsg_config, opsg_files) = match recompress_quads(
        &config,
        &files,
        QuadOrder::Spog,
        QuadOrder::Opsg,
    ) {
        Err(e) => {
            proof {
                assert forall|stored: Seq<[usize; 4]>| #[trigger]
                    item_views(stored) == spog_quads implies all_below(stored, num_terms) && (
                ids_compressible(ids@) ==> compressible(
                    ordered_quads(stored, QuadOrder::Opsg),
                )) by {
                    lemma_same_below(ids@, stored, num_terms);
                    if ids_compressible(ids@) {
                        lemma_same_compressible(ids@, stored, QuadOrder::Opsg);
                    }
                }
            }
            return Err(BuildError::Load(e));
        },
        Ok(written) => written,
    };
    proof {
        assert forall|p: int| 0 <= p < files@.len() implies !partition_is_invalid(
            #[trigger] files@[p],
            config,
            p as nat,
        ) by {
            lemma_written_partitions(config, files@, ids@, QuadOrder::Spog, p);
        }
        let stored = choose|stored: Seq<[usize; 4]>| #[trigger]
            item_views(stored) == spog_quads && holds_ids(
                opsg_config,
                opsg_files@,
                stored,
                QuadOrder::Opsg,
            );
        lemma_same_below(ids@, stored, num_terms);
        assert forall|p: int| 0 <= p < opsg_files@.len() implies !partition_is_invalid(
            #[trigger] opsg_files@[p],
            opsg_config,
            p as nat,
        ) by {
            lemma_written_partitions(opsg_config, opsg_files@, stored, QuadOrder::Opsg, p);
        }
    }
    let index = match build_secondary_index(&files, num_terms) {
        Err(e) => {
            proof {
                lemma_same_second_terms(spog_quads, item_views(ids@));
            }
            return Err(BuildError::Quads(e));
        },
        Ok(index) => index,
    };
    let ghost spog_files = files@;
    let spog_indexes = match index_quads(&config, &files) {
        Err(e) => {
            proof {
                lemma_index_fails(config, spog_files, ids@, ids@, QuadOrder::Spog, e);
            }
            return Err(BuildError::Quads(e));
        },
        Ok(indexes) => indexes,
    };
    let spog = QuadStore::mmap(config, files, spog_indexes);
    let ghost new_files = opsg_files@;
    let opsg_indexes = match index_quads(&opsg_config, &opsg_files) {
        Err(e) => {
            proof {
                let stored = choose|stored: Seq<[usize; 4]>| #[trigger]
                    item_views(stored) == spog_quads && holds_ids(
                        opsg_config,
                        new_files,
                        stored,
                        QuadOrder::Opsg,
                    );
                lemma_index_fails(opsg_config, new_files, ids@, stored, QuadOrder::Opsg, e);
            }
            return Err(BuildError::Quads(e));
        },
        Ok(indexes) => indexes,
    };
    let opsg = QuadStore::mmap(opsg_config, opsg_files, opsg_indexes);
    proof {
        let stored = choose|stored: Seq<[usize; 4]>| #[trigger]
            item_views(stored) == spog_quads && holds_ids(
                opsg_config,
                new_files,
                stored,
                QuadOrder::Opsg,
            );
        assert(opsg.quads().to_multiset() == ordered_quads(
            stored,
            QuadOrder::Opsg,
        ).to_multiset());
    }
    Ok((spog, opsg, index))
}

/// Files that were written from quads cannot be indexed only if they are too large, or if a static
/// function could not be built.
proof fn lemma_index_fails(
    config: QuadStoreConfiguration,
    files: Seq<SortedArraysFile<4>>,
    ids: Seq<[usize; 4]>,
    stored: Seq<[usize; 4]>,
    order: QuadOrder,
    e: QuadsError,
)
    requires
        holds_ids(config, files, stored, order),
        all_written(files),
        item_views(stored).to_multiset() == item_views(ids).to_multiset(),
        forall|p: int|
            0 <= p < files.len() ==> !partition_is_invalid(#[trigger] files[p], config, p as nat),
        exists|p: int|
            0 <= p < files.len() && partition_may_fail(#[trigger] files[p], config, p as nat, e),
    ensures
        match e {
            QuadsError::StaticFunction => ids.len() > 0 && pair_construction_failed(
                ids,
                config.num_terms as nat,
                config.num_partitions as nat,
            ),
            QuadsError::IndexTooLarge => ids_too_large(
                ids,
                config.num_terms as nat,
                config.num_partitions as nat,
            ),
            _ => false,
        },
{
    let p = choose|p: int|
        0 <= p < files.len() && partition_may_fail(#[trigger] files[p], config, p as nat, e);
    assert(!partition_is_invalid(files[p], config, p as nat));
    let ordered = ordered_quads(stored, order);
    let here = quads_of_partition(
        ordered,
        (config.num_terms - 1) as nat,
        config.num_partitions as nat,
        p,
    );
    if e == QuadsError::IndexTooLarge {
        assert(some_too_large(config, files));
    } else if e == QuadsError::StaticFunction {
        let items = items_only(files[p].listing());
        vstd::seq_lib::to_multiset_len(items);
        vstd::seq_lib::to_multiset_len(here);
        vstd::seq_lib::to_multiset_len(item_views(stored));
        vstd::seq_lib::to_multiset_len(item_views(ids));
        let max_value = (config.num_terms - 1) as nat;
        let n = config.num_partitions as nat;
        ordered.lemma_filter_len(
            |quad: Seq<usize>| partition_of(max_value, n, quad[0] as nat) == p,
        );
        assert(here.len() <= ordered.len());
        assert(items.len() > 0);
        let given = ordered_quads(ids, order);
        let f = |quad: Seq<usize>| order.order(quad);
        crate::radix::lemma_map_multiset(item_views(stored), item_views(ids), f);
        assert(item_views(stored).map_values(f) =~= ordered);
        assert(item_views(ids).map_values(f) =~= given);
        lemma_same_partition(ordered, given, max_value, n, p);
        lemma_same_pair_keys(items, quads_of_partition(given, max_value, n, p));
        assert(construction_failed(pair_keys(quads_of_partition(given, max_value, n, p))));
    }
}

proof fn lemma_same_below(a: Seq<[usize; 4]>, b: Seq<[usize; 4]>, num_terms: usize)
    requires
        all_below(a, num_terms),
        item_views(a).to_multiset() == item_views(b).to_multiset(),
    ensures
        all_below(b, num_terms),
{
    assert forall|i: int, j: int| 0 <= i < b.len() && 0 <= j < 4 implies (#[trigger] b[i]@[j])
        < num_terms by {
        vstd::seq_lib::to_multiset_contains(item_views(a), b[i]@);
        vstd::seq_lib::to_multiset_contains(item_views(b), b[i]@);
        assert(item_views(b)[i] == b[i]@);
        assert(item_views(b).contains(b[i]@));
        assert(item_views(a).contains(b[i]@));
        let k = choose|k: int| 0 <= k < item_views(a).len() && item_views(a)[k] == b[i]@;
        assert(a[k]@[j] < num_terms);
    }
}

/// Whether terms and their ids are those of quads.
pub open spec fn are_terms_of(
    mphf: TermMphf,
    terms: TermStore,
    quads: Seq<QuadView>,
    strings: Seq<Seq<u8>>,
) -> bool {
    &&& terms.config().well_formed()
    &&& strings_increasing(strings)
    &&& strings.to_set() == quads_strings(quads)
    &&& stores(terms.config(), terms.files(), strings)
    &&& terms.is_indexed()
    &&& terms.dictionary() is None
    &&& mphf.numbers(strings)
}

/// Whether terms and their ids are those of quads, in increasing order.
pub open spec fn have_terms(mphf: TermMphf, terms: TermStore, quads: Seq<QuadView>) -> bool {
    exists|strings: Seq<Seq<u8>>| #[trigger] are_terms_of(mphf, terms, quads, strings)
}

proof fn lemma_stored_files_indexed(
    config: TermStoreConfiguration,
    files: Seq<Seq<u8>>,
    strings: Seq<Seq<u8>>,
    i: int,
)
    requires
        config.well_formed(),
        stores(config, files, strings),
        0 <= i < files.len(),
    ensures
        file_error(config, files[i], i) matches Some(e) ==> e == TermsError::IndexTooLarge,
{
    lemma_file_num_terms(config, i);
    lemma_valid_file_is_indexed(
        files[i],
        config.terms_per_frame as nat,
        file_num_terms(config, i) as nat,
    );
}

/// Numbers the terms of a store.
fn number_terms(
    config: &TermStoreConfiguration,
    files: Vec<Vec<u8>>,
    Ghost(strings): Ghost<Seq<Seq<u8>>>,
) -> (res: Result<TermMphf, TermsError>)
    requires
        config.well_formed(),
        stores(*config, string_views(files@), strings),
    ensures
        match res {
            Err(e) => e == TermsError::StaticFunction && strings.len() > 0 && construction_failed(
                strings.to_set(),
            ),
            Ok(mphf) => mphf.numbers(strings),
        },
{
    proof {
        lemma_files_strings(*config, string_views(files@), strings);
        lemma_mphf_keys(strings);
        assert(files@.len() == string_views(files@).len());
    }
    build_terms_mphf(config, files, None)
}

/// Whether one of the files of a store of terms is too large to be indexed.
pub open spec fn some_file_too_large(
    config: TermStoreConfiguration,
    files: Seq<Seq<u8>>,
) -> bool {
    exists|i: int|
        0 <= i < files.len() && file_error(config, #[trigger] files[i], i) == Some(
            TermsError::IndexTooLarge,
        )
}

/// Whether the files of the terms of quads are too large to be indexed.
pub open spec fn terms_too_large(quads: Seq<QuadView>) -> bool {
    exists|config: TermStoreConfiguration, files: Seq<Seq<u8>>, strings: Seq<Seq<u8>>|
        {
            &&& config.well_formed()
            &&& config.terms_per_frame == 16
            &&& config.frames_per_file == 1_048_576
            &&& strings_increasing(strings)
            &&& strings.to_set() == quads_strings(quads)
            &&& #[trigger] stores(config, files, strings)
            &&& are_written(config, files, strings)
            &&& some_file_too_large(config, files)
        }
}

/// Whether there are too many terms in quads for their ids to be split into partitions.
pub open spec fn too_many_terms(quads: Seq<QuadView>, num_partitions: nat) -> bool {
    exists|strings: Seq<Seq<u8>>|
        {
            &&& strings_increasing(strings)
            &&& #[trigger] strings.to_set() == quads_strings(quads)
            &&& strings.len() + num_partitions > usize::MAX
        }
}

/// Opens a store of terms.
fn open_terms(
    config: TermStoreConfiguration,
    files: Vec<Vec<u8>>,
    Ghost(strings): Ghost<Seq<Seq<u8>>>,
) -> (res: Result<TermStore, TermsError>)
    requires
        config.well_formed(),
        stores(config, string_views(files@), strings),
    ensures
        match res {
            Err(e) => e == TermsError::IndexTooLarge && some_file_too_large(
                config,
                string_views(files@),
            ),
            Ok(terms) => terms.well_formed() && terms.config() == config && terms.files()
                == string_views(files@) && terms.is_indexed() && terms.dictionary() is None,
        },
{
    let ghost views = string_views(files@);
    assert(files@.len() == views.len());
    let indexes = match index_terms_files(&config, &files) {
        Err(e) => {
            proof {
                let i = choose|i: int|
                    0 <= i < files@.len() && file_error(config, #[trigger] files@[i]@, i) == Some(
                        e,
                    );
                assert(views[i] == files@[i]@);
                lemma_stored_files_indexed(config, views, strings, i);
                assert(file_error(config, views[i], i) == Some(TermsError::IndexTooLarge));
            }
            return Err(e);
        },
        Ok(indexes) => indexes,
    };
    assert(indexes@.len() == crate::terms_store::index_views(indexes@).len());
    TermStore::mmap(config, files, indexes)
}

/// Builds the terms of a dataset.
fn build_terms(chunks: &Vec<Vec<Quad>>) -> (res: Result<(TermMphf, TermStore), BuildError>)
    ensures
        match quads_error(chunk_views(chunks@)) {
            Some(e) => res is Err && res->Err_0 == BuildError::Terms(e),
            None => match res {
                Err(e) => {
                    ||| e == BuildError::Terms(TermsError::StaticFunction) && chunk_views(
                        chunks@,
                    ).len() > 0 && construction_failed(quads_strings(chunk_views(chunks@)))
                    ||| e == BuildError::Terms(TermsError::IndexTooLarge) && terms_too_large(
                        chunk_views(chunks@),
                    )
                },
                Ok((mphf, terms)) => terms.well_formed() && have_terms(
                    mphf,
                    terms,
                    chunk_views(chunks@),
                ),
            },
        },
{
    let (config, files) = match write_unique_terms(chunks) {
        Err(e) => {
            return Err(BuildError::Terms(e));
        },
        Ok(written) => written,
    };
    let ghost quads = chunk_views(chunks@);
    let ghost strings = choose|strings: Seq<Seq<u8>>|
        {
            &&& strings_increasing(strings)
            &&& strings.to_set() == quads_strings(quads)
            &&& #[trigger] stores(config, string_views(files@), strings)
            &&& are_written(config, string_views(files@), strings)
        };
    let copies: Vec<Vec<u8>> = copy_files(&files);
    let mphf: TermMphf = match number_terms(&config, copies, Ghost(strings)) {
        Err(e) => {
            proof {
                assert(strings.to_set().contains(strings[0]));
                assert(quads_strings(quads).contains(strings[0]));
            }
            return Err(BuildError::Terms(e));
        },
        Ok(mphf) => mphf,
    };
    match open_terms(config, files, Ghost(strings)) {
        Err(e) => Err(BuildError::Terms(e)),
        Ok(terms) => {
            assert(are_terms_of(mphf, terms, quads, strings));
            Ok((mphf, terms))
        },
    }
}

/// Builds the dataset of quads.
///
/// Static functions are built at random, and their construction may fail.
pub fn build_dataset(chunks: &Vec<Vec<Quad>>, num_partitions: usize) -> (res: Result<
    SuccinctDatasetView,
    BuildError,
>)
    requires
        num_partitions > 0,
    ensures
        match quads_error(chunk_views(chunks@)) {
            Some(e) => res is Err && res->Err_0 == BuildError::Terms(e),
            None => match res {
                Ok(view) => has_quads(view, chunk_views(chunks@)) && view.extras().len() == 0,
                Err(e) => build_may_fail(chunk_views(chunks@), num_partitions as nat, e),
            },
        },
{
    let (mphf, terms) = build_terms(chunks)?;
    let ghost quads = chunk_views(chunks@);
    let ghost strings = choose|strings: Seq<Seq<u8>>| #[trigger]
        are_terms_of(mphf, terms, quads, strings);
    let num_terms: usize = mphf.len();
    if num_terms > usize::MAX - num_partitions {
        assert(strings.to_set() == quads_strings(quads));
        return Err(BuildError::Terms(TermsError::IndexTooLarge));
    }
    proof {
        lemma_chunks_hashed(mphf, strings, chunks@);
    }
    let ids: Vec<[usize; 4]> = match hash_chunks(&mphf, chunks) {
        Err(e) => {
            return Err(BuildError::Load(e));
        },
        Ok(ids) => ids,
    };
    let (spog, opsg, index) = match build_quads(&ids, num_terms, num_partitions) {
        Err(e) => {
            assert(e == BuildError::Load(LoadError::TooFewTerms) ==> strings.len() < 2
                && strings.to_set() == quads_strings(quads));
            assert(ids_of(strings, quads, item_views(ids@)));
            return Err(e);
        },
        Ok(built) => built,
    };
    let opened = SuccinctDatasetView::new(mphf, terms, spog, opsg, index);
    proof {
        lemma_opened(mphf, terms, strings);
    }
    match opened {
        Err(e) => {
            Err(BuildError::Dataset(e.0))
        },
        Ok(view) => {
            proof {
                lemma_built(view, quads, strings, ids@, num_terms);
                assert(is_dataset_of(view, chunk_views(chunks@), strings, item_views(ids@)));
            }
            Ok(view)
        },
    }
}

proof fn lemma_opened(mphf: TermMphf, terms: TermStore, strings: Seq<Seq<u8>>)
    requires
        terms.config().well_formed(),
        stores(terms.config(), terms.files(), strings),
        terms.is_indexed(),
        terms.dictionary() is None,
    ensures
        forall|bytes: Seq<u8>| #[trigger]
            known_id(mphf, terms, Ok(bytes)) is Ok,
{
    assert forall|bytes: Seq<u8>| #[trigger] known_id(mphf, terms, Ok(bytes)) is Ok by {
        match mphf.id_of(bytes) {
            None => {},
            Some(id) => {
                lemma_stored_term(terms.config(), terms.files(), strings, id as nat);
                terms.lemma_indexed_term(id as nat);
            },
        }
    }
}

proof fn lemma_built(
    view: SuccinctDatasetView,
    quads: Seq<QuadView>,
    strings: Seq<Seq<u8>>,
    ids: Seq<[usize; 4]>,
    num_terms: usize,
)
    requires
        view.well_formed(),
        view.intact(),
        are_terms_of(view.mphf(), view.terms(), quads, strings),
        ids_of(strings, quads, item_views(ids)),
        all_below(ids, num_terms),
        view.mphf().num_known() == num_terms,
        view.spog().config().num_terms == num_terms,
        view.opsg().config().num_terms == num_terms,
        view.predicates().indexes(view.spog().quads()),
        known_id(
            view.mphf(),
            view.terms(),
            Ok(serialized_graph_name(GraphNameView::DefaultGraph)),
        ) == Ok::<Option<usize>, DatasetFailure>(view.default_graph()),
        exists|stored: Seq<[usize; 4]>|
            {
                &&& view.spog().quads().to_multiset() == item_views(stored).to_multiset()
                &&& view.opsg().quads().to_multiset() == #[trigger] ordered_quads(
                    stored,
                    QuadOrder::Opsg,
                ).to_multiset()
                &&& item_views(stored).to_multiset() == item_views(ids).to_multiset()
            },
    ensures
        is_dataset_of(view, quads, strings, item_views(ids)),
{
    let stored = choose|stored: Seq<[usize; 4]>|
        {
            &&& view.spog().quads().to_multiset() == item_views(stored).to_multiset()
            &&& view.opsg().quads().to_multiset() == #[trigger] ordered_quads(
                stored,
                QuadOrder::Opsg,
            ).to_multiset()
            &&& item_views(stored).to_multiset() == item_views(ids).to_multiset()
        };
    lemma_same_below(ids, stored, num_terms);
    let all = item_views(stored);
    assert(all.map_values(|quad: Seq<usize>| QuadOrder::Opsg.order(quad)) =~= ordered_quads(
        stored,
        QuadOrder::Opsg,
    ));
    assert forall|i: int| 0 <= i < all.len() implies (#[trigger] all[i]).len() == 4 && all[i][0]
        < view.spog().config().num_terms by {
        assert(stored[i]@[0] < num_terms);
    }
    assert(view.holds_quads(all));
    lemma_mphf_keys(strings);
    assert(view.holds_strings(strings, strings));
    view.lemma_same_quads(all, item_views(ids));
}

/// A dataset built from quads, when it is searched by ids of its terms, answers with the quads that
/// match, each as often as it was given, and no other.
pub proof fn lemma_built_query(
    view: SuccinctDatasetView,
    quads: Seq<QuadView>,
    strings: Seq<Seq<u8>>,
    ids: Seq<Seq<usize>>,
    pattern: QuadPattern,
    res: Seq<Result<InternalQuad, SuccinctDatasetError>>,
) -> (found: Seq<InternalQuad>)
    requires
        is_dataset_of(view, quads, strings, ids),
        view.answers(pattern, res),
        pattern.subject matches Some(t) ==> t < strings.len(),
        pattern.subject is None ==> (pattern.object matches Some(t) ==> t < strings.len()),
    ensures
        res == all_found(found),
        view.finds(ids, pattern, found),
{
    view.lemma_query(ids, pattern, res)
}

/// In a dataset that has quads in the default graph, this graph has the smallest id, so that it can
/// be searched.
#[verifier::rlimit(50)]
pub proof fn lemma_default_graph_first(
    view: SuccinctDatasetView,
    quads: Seq<QuadView>,
    strings: Seq<Seq<u8>>,
    ids: Seq<Seq<usize>>,
    i: int,
)
    requires
        is_dataset_of(view, quads, strings, ids),
        0 <= i < quads.len(),
        quads[i].graph_name is DefaultGraph,
    ensures
        ids[i][3] == 0,
        view.wanted_graph(Some(None)) == Ok::<Option<usize>, DatasetFailure>(Some(0usize)),
{
    let empty = serialized_graph_name(GraphNameView::DefaultGraph);
    let k = ids[i][3] as int;
    assert(quad_ids(strings, quads[i], ids[i]));
    assert(strings[k] == quad_strings(quads[i])[3]);
    if k > 0 {
        assert(bytes_lt(strings[0], strings[k]));
    }
    assert(view.mphf().id_of(strings[0]) == Some(0usize));
    view.lemma_held(strings, 0);
}

/// Whether the construction of the dataset of storable quads may fail in some way.
pub open spec fn build_may_fail(
    quads: Seq<QuadView>,
    num_partitions: nat,
    e: BuildError,
) -> bool {
    match e {
        BuildError::NoInput => false,
        BuildError::Terms(TermsError::StaticFunction) => quads.len() > 0 && construction_failed(
            quads_strings(quads),
        ),
        BuildError::Terms(e) => e == TermsError::IndexTooLarge && (terms_too_large(quads)
            || too_many_terms(quads, num_partitions)),
        BuildError::Load(LoadError::TooFewTerms) => exists|strings: Seq<Seq<u8>>|
            strings.len() < 2 && #[trigger] strings.to_set() == quads_strings(quads),
        BuildError::Load(LoadError::Sorter(_)) => exists|
            strings: Seq<Seq<u8>>,
            ids: Seq<[usize; 4]>,
        | #[trigger]
            ids_of(strings, quads, item_views(ids)) && strings_increasing(strings)
                && strings.to_set() == quads_strings(quads) && !ids_compressible(ids),
        BuildError::Load(_) => false,
        BuildError::Quads(QuadsError::StaticFunction) => quads.len() > 0 && exists|
            strings: Seq<Seq<u8>>,
            ids: Seq<[usize; 4]>,
        | #[trigger]
            ids_of(strings, quads, item_views(ids)) && strings_increasing(strings)
                && strings.to_set() == quads_strings(quads) && pair_construction_failed(
                ids,
                strings.len(),
                num_partitions,
            ),
        BuildError::Quads(e) => e == QuadsError::IndexTooLarge && exists|
            strings: Seq<Seq<u8>>,
            ids: Seq<[usize; 4]>,
        | #[trigger]
            ids_of(strings, quads, item_views(ids)) && strings_increasing(strings)
                && strings.to_set() == quads_strings(quads) && ids_too_large(
                ids,
                strings.len(),
                num_partitions,
            ),
        BuildError::Dataset(_) => false,
    }
}

/// The files that quads are parsed from.
pub struct ParseQuadsArgs {
    /// The paths of the files.
    pub file: Vec<String>,
    /// The format of the files, unless it is guessed from their paths.
    pub format: Option<RdfFormat>,
    /// The IRI against which relative ones are resolved.
    pub base: Option<String>,
    /// Whether to keep loading even if a file is invalid.
    pub lenient: bool,
    /// Whether to parse each file in chunks.
    pub parallel_parser: bool,
    /// The graph in which the quads of the default graph are put.
    pub graph: Option<String>,
}

/// How a database is built.
pub struct DatabaseBuilder {
    /// The files that quads are parsed from.
    pub parse_quad_args: Option<ParseQuadsArgs>,
    /// The directory of the database.
    pub location: String,
    /// The number of quads, if it is known.
    pub approx_num_quads: Option<usize>,
    /// The number of quads of each file, if it is known.
    pub approx_quads_per_file: Option<usize>,
    /// Whether to build again what exists already.
    pub rebuild: bool,
    /// The orders in which quads are stored.
    pub quad_orders: Vec<QuadOrder>,
}

/// A step of the construction of a database.
#[derive(Clone, Copy, Debug, PartialEq, Eq, Structural)]
pub enum BuildStep {
    /// Read quads, and write their terms.
    ExtractTerms,
    /// Write the terms again, with a dictionary made from them.
    RecompressTerms,
    /// Index the terms by their ids.
    IndexTerms,
    /// Number the terms.
    BuildTermsMphf,
    /// Read quads, and write the ids of their terms in some order.
    CompressQuads(QuadOrder),
    /// Read quads of ids in some order, and write them in another one.
    RecompressQuads(QuadOrder, QuadOrder),
    /// Index the frames of quads in some order.
    IndexQuadsFrames(QuadOrder),
    /// Index quads in some order by their first terms.
    IndexQuadsByFirstTerm(QuadOrder),
    /// Index quads in some order by their first two terms.
    IndexQuadsByFirstTwoTerms(QuadOrder),
    /// Index quads in some order by their second terms.
    IndexBySecondTerm(QuadOrder),
}

/// The steps that write quads: from the input in the first order, and from there in the others.
pub open spec fn compress_steps(orders: Seq<QuadOrder>) -> Seq<BuildStep> {
    Seq::new(
        orders.len(),
        |i: int|
            if i == 0 {
                BuildStep::CompressQuads(orders[0])
            } else {
                BuildStep::RecompressQuads(orders[0], orders[i])
            },
    )
}

/// The steps that index quads in some order.
pub open spec fn index_steps(order: QuadOrder) -> Seq<BuildStep> {
    seq![
        BuildStep::IndexQuadsFrames(order),
        BuildStep::IndexQuadsByFirstTerm(order),
        BuildStep::IndexQuadsByFirstTwoTerms(order),
    ]
}

/// The steps that index quads in several orders.
pub open spec fn all_index_steps(orders: Seq<QuadOrder>) -> Seq<BuildStep>
    decreases orders.len(),
{
    if orders.len() == 0 {
        Seq::empty()
    } else {
        all_index_steps(orders.drop_last()) + index_steps(orders.last())
    }
}

/// The steps that index quads in the first order by their second terms.
pub open spec fn second_term_steps(orders: Seq<QuadOrder>) -> Seq<BuildStep> {
    if orders.len() == 0 {
        Seq::empty()
    } else {
        seq![BuildStep::IndexBySecondTerm(orders[0])]
    }
}

/// All the steps of the construction of a database.
pub open spec fn build_steps(orders: Seq<QuadOrder>) -> Seq<BuildStep> {
    seq![
        BuildStep::ExtractTerms,
        BuildStep::RecompressTerms,
        BuildStep::IndexTerms,
        BuildStep::BuildTermsMphf,
    ] + compress_steps(orders) + all_index_steps(orders) + second_term_steps(orders)
}

/// Whether a step is not needed when its result exists.
pub open spec fn is_skippable(step: BuildStep) -> bool {
    step is ExtractTerms || step is BuildTermsMphf || step is CompressQuads
        || step is RecompressQuads
}

impl DatabaseBuilder {
    /// Builds a database in both orders of quads, and keeps what exists already.
    pub fn new(location: String) -> (builder: Self)
        ensures
            builder.location == location,
            builder.parse_quad_args is None,
            builder.approx_num_quads is None,
            builder.approx_quads_per_file is None,
            !builder.rebuild,
            builder.quad_orders@ == seq![QuadOrder::Spog, QuadOrder::Opsg],
    {
        DatabaseBuilder {
            parse_quad_args: None,
            location,
            approx_num_quads: None,
            approx_quads_per_file: None,
            rebuild: false,
            quad_orders: vec![QuadOrder::Spog, QuadOrder::Opsg],
        }
    }

    /// Sets the orders in which quads are stored.
    pub fn with_quad_orders(self, quad_orders: Vec<QuadOrder>) -> (builder: Self)
        ensures
            builder == (DatabaseBuilder { quad_orders, ..self }),
    {
        DatabaseBuilder { quad_orders, ..self }
    }

    /// Sets the number of quads of each file.
    pub fn with_approx_quads_per_file(self, approx_quads_per_file: Option<usize>) -> (builder: Self)
        ensures
            builder == (DatabaseBuilder { approx_quads_per_file, ..self }),
    {
        DatabaseBuilder { approx_quads_per_file, ..self }
    }

    /// Sets the number of quads of each file.
    pub fn with_approx_num_quads(self, approx_quads_per_file: Option<usize>) -> (builder: Self)
        ensures
            builder == (DatabaseBuilder { approx_quads_per_file, ..self }),
    {
        DatabaseBuilder { approx_quads_per_file, ..self }
    }

    /// Sets whether to build again what exists already.
    pub fn with_rebuild(self, rebuild: bool) -> (builder: Self)
        ensures
            builder == (DatabaseBuilder { rebuild, ..self }),
    {
        DatabaseBuilder { rebuild, ..self }
    }

    /// Sets the files that quads are parsed from.
    pub fn with_parse_quad_args(self, parse_quad_args: Option<ParseQuadsArgs>) -> (builder: Self)
        ensures
            builder == (DatabaseBuilder { parse_quad_args, ..self }),
    {
        DatabaseBuilder { parse_quad_args, ..self }
    }

    /// The number of quads, if it is known, or can be told from the number of files.
    pub fn compute_approx_num_quads(&self) -> (num_quads: Option<usize>)
        requires
            self.approx_quads_per_file matches Some(n) ==> (self.parse_quad_args matches Some(args)
                ==> n * args.file@.len() <= usize::MAX),
        ensures
            match self.approx_num_quads {
                Some(n) => num_quads == Some(n),
                None => match (self.approx_quads_per_file, self.parse_quad_args) {
                    (Some(n), Some(args)) => num_quads is Some && num_quads->Some_0 == n
                        * args.file@.len(),
                    _ => num_quads is None,
                },
            },
    {
        if let Some(approx_num_quads) = self.approx_num_quads {
            return Some(approx_num_quads);
        }
        if let Some(approx_quads_per_file) = self.approx_quads_per_file {
            if let Some(parse_quad_args) = &self.parse_quad_args {
                return Some(approx_quads_per_file * parse_quad_args.file.len());
            }
        }
        None
    }

    /// The steps that write quads.
    pub fn compress_all_quads_stores(&self) -> (steps: Vec<BuildStep>)
        ensures
            steps@ == compress_steps(self.quad_orders@),
    {
        let mut steps: Vec<BuildStep> = Vec::new();
        let mut already_compressed_order: Option<QuadOrder> = None;
        let mut i: usize = 0;
        while i < self.quad_orders.len()
            invariant
                i <= self.quad_orders@.len(),
                steps@ == compress_steps(self.quad_orders@).take(i as int),
                already_compressed_order == (if i == 0 {
                    None
                } else {
                    Some(self.quad_orders@[0])
                }),
            decreases self.quad_orders@.len() - i,
        {
            let order: QuadOrder = self.quad_orders[i];
            match already_compressed_order {
                Some(from) => {
                    steps.push(BuildStep::RecompressQuads(from, order));
                },
                None => {
                    steps.push(BuildStep::CompressQuads(order));
                    already_compressed_order = Some(order);
                },
            }
            assert(steps@ =~= compress_steps(self.quad_orders@).take(i + 1));
            i = i + 1;
        }
        assert(compress_steps(self.quad_orders@).take(i as int) =~= compress_steps(
            self.quad_orders@,
        ));
        steps
    }

    /// The steps that index quads in some order.
    pub fn index_quad_store(&self, order: QuadOrder) -> (steps: Vec<BuildStep>)
        ensures
            steps@ == index_steps(order),
    {
        let steps: Vec<BuildStep> = vec![
            BuildStep::IndexQuadsFrames(order),
            BuildStep::IndexQuadsByFirstTerm(order),
            BuildStep::IndexQuadsByFirstTwoTerms(order),
        ];
        assert(steps@ =~= index_steps(order));
        steps
    }

    /// The steps of the construction of the database from its input.
    pub fn build_all(&self) -> (res: Result<Vec<BuildStep>, BuildError>)
        ensures
            match self.parse_quad_args {
                None => res is Err && res->Err_0 == BuildError::NoInput,
                Some(_) => res is Ok && res->Ok_0@ == build_steps(self.quad_orders@),
            },
    {
        if self.parse_quad_args.is_none() {
            return Err(BuildError::NoInput);
        }
        let mut steps: Vec<BuildStep> = vec![
            BuildStep::ExtractTerms,
            BuildStep::RecompressTerms,
            BuildStep::IndexTerms,
            BuildStep::BuildTermsMphf,
        ];
        let mut compress: Vec<BuildStep> = self.compress_all_quads_stores();
        steps.append(&mut compress);
        let ghost before = steps@;
        let mut i: usize = 0;
        let ghost orders = self.quad_orders@;
        proof {
            assert(orders.take(0) =~= Seq::empty());
            assert(steps@ =~= before + all_index_steps(orders.take(0)));
        }
        while i < self.quad_orders.len()
            invariant
                orders == self.quad_orders@,
                i <= orders.len(),
                steps@ == before + all_index_steps(orders.take(i as int)),
            decreases orders.len() - i,
        {
            let mut more: Vec<BuildStep> = self.index_quad_store(self.quad_orders[i]);
            steps.append(&mut more);
            proof {
                assert(orders.take(i + 1).drop_last() =~= orders.take(i as int));
                assert(steps@ =~= before + all_index_steps(orders.take(i + 1)));
            }
            i = i + 1;
        }
        assert(orders.take(i as int) =~= orders);
        if self.quad_orders.len() > 0 {
            steps.push(BuildStep::IndexBySecondTerm(self.quad_orders[0]));
        }
        assert(steps@ =~= build_steps(orders));
        Ok(steps)
    }

    /// Whether a step is left out, given whether its result exists.
    pub fn skips(&self, step: BuildStep, exists_already: bool) -> (skipped: bool)
        ensures
            skipped == (!self.rebuild && exists_already && is_skippable(step)),
    {
        let skippable: bool = match step {
            BuildStep::ExtractTerms => true,
            BuildStep::BuildTermsMphf => true,
            BuildStep::CompressQuads(_) => true,
            BuildStep::RecompressQuads(_, _) => true,
            _ => false,
        };
        !self.rebuild && exists_already && skippable
    }
}

/// The steps of the construction of a database: first the terms are written, written again with a
/// dictionary, indexed and numbered; then the quads are written, from the input in the first order
/// and from there in each of the others; then each of them is indexed, in three steps; last, those
/// of the first order are indexed by their second terms.
pub proof fn lemma_build_steps(orders: Seq<QuadOrder>)
    ensures
        ({
            let steps = build_steps(orders);
            let n = orders.len() as int;
            &&& steps.len() == if n == 0 {
                4
            } else {
                5 + 4 * n
            }
            &&& steps[0] == BuildStep::ExtractTerms
            &&& steps[1] == BuildStep::RecompressTerms
            &&& steps[2] == BuildStep::IndexTerms
            &&& steps[3] == BuildStep::BuildTermsMphf
            &&& n > 0 ==> steps[4] == BuildStep::CompressQuads(orders[0])
            &&& forall|i: int|
                0 < i < n ==> steps[4 + i] == BuildStep::RecompressQuads(
                    orders[0],
                    #[trigger] orders[i],
                )
            &&& forall|i: int|
                0 <= i < n ==> {
                    &&& steps[4 + n + 3 * i] == BuildStep::IndexQuadsFrames(#[trigger] orders[i])
                    &&& steps[4 + n + 3 * i + 1] == BuildStep::IndexQuadsByFirstTerm(orders[i])
                    &&& steps[4 + n + 3 * i + 2] == BuildStep::IndexQuadsByFirstTwoTerms(orders[i])
                }
            &&& n > 0 ==> steps[4 + 4 * n] == BuildStep::IndexBySecondTerm(orders[0])
        }),
{
    let n = orders.len() as int;
    let steps = build_steps(orders);
    lemma_index_steps(orders);
    assert forall|i: int| 0 <= i < n implies {
        &&& steps[4 + n + 3 * i] == BuildStep::IndexQuadsFrames(#[trigger] orders[i])
        &&& steps[4 + n + 3 * i + 1] == BuildStep::IndexQuadsByFirstTerm(orders[i])
        &&& steps[4 + n + 3 * i + 2] == BuildStep::IndexQuadsByFirstTwoTerms(orders[i])
    } by {
        let all = all_index_steps(orders);
        assert(all[3 * i] == BuildStep::IndexQuadsFrames(orders[i]));
        assert(steps[4 + n + 3 * i] == all[3 * i]);
        assert(steps[4 + n + 3 * i + 1] == all[3 * i + 1]);
        assert(steps[4 + n + 3 * i + 2] == all[3 * i + 2]);
    }
}

proof fn lemma_index_steps(orders: Seq<QuadOrder>)
    ensures
        all_index_steps(orders).len() == 3 * orders.len(),
        forall|i: int|
            0 <= i < orders.len() ==> {
                &&& all_index_steps(orders)[3 * i] == BuildStep::IndexQuadsFrames(
                    #[trigger] orders[i],
                )
                &&& all_index_steps(orders)[3 * i + 1] == BuildStep::IndexQuadsByFirstTerm(
                    orders[i],
                )
                &&& all_index_steps(orders)[3 * i + 2] == BuildStep::IndexQuadsByFirstTwoTerms(
                    orders[i],
                )
            },
    decreases orders.len(),
{
    if orders.len() > 0 {
        let before = orders.drop_last();
        lemma_index_steps(before);
        let all = all_index_steps(orders);
        assert forall|i: int| 0 <= i < orders.len() implies {
            &&& all[3 * i] == BuildStep::IndexQuadsFrames(#[trigger] orders[i])
            &&& all[3 * i + 1] == BuildStep::IndexQuadsByFirstTerm(orders[i])
            &&& all[3 * i + 2] == BuildStep::IndexQuadsByFirstTwoTerms(orders[i])
        } by {
            if i < before.len() {
                assert(before[i] == orders[i]);
                assert(all[3 * i] == all_index_steps(before)[3 * i]);
                assert(all[3 * i + 1] == all_index_steps(before)[3 * i + 1]);
                assert(all[3 * i + 2] == all_index_steps(before)[3 * i + 2]);
            } else {
                assert(all[3 * i] == index_steps(orders[i])[0]);
                assert(all[3 * i + 1] == index_steps(orders[i])[1]);
                assert(all[3 * i + 2] == index_steps(orders[i])[2]);
            }
        }
    }
}

/// The steps that are not needed when their results exist are those that write terms and quads from
/// the input, that number terms, and that write quads in another order; the others are always
/// needed.
pub proof fn lemma_skippable(step: BuildStep)
    ensures
        match step {
            BuildStep::ExtractTerms => is_skippable(step),
            BuildStep::RecompressTerms => !is_skippable(step),
            BuildStep::IndexTerms => !is_skippable(step),
            BuildStep::BuildTermsMphf => is_skippable(step),
            BuildStep::CompressQuads(_) => is_skippable(step),
            BuildStep::RecompressQuads(_, _) => is_skippable(step),
            BuildStep::IndexQuadsFrames(_) => !is_skippable(step),
            BuildStep::IndexQuadsByFirstTerm(_) => !is_skippable(step),
            BuildStep::IndexQuadsByFirstTwoTerms(_) => !is_skippable(step),
            BuildStep::IndexBySecondTerm(_) => !is_skippable(step),
        },
{
}

} // verus!
