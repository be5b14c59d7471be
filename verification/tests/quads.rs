use oxigraph_succinct::analyze::{
    analyze_quad_store_codes, count_bits, read_cells, tried_codes, AnalyzeError, Code,
};
use oxigraph_succinct::array_sorter::SorterError;
use oxigraph_succinct::arrays::{ArraysError, SortedArraysFile};
use oxigraph_succinct::bits::BitsError;
use oxigraph_succinct::graphs::{bv, symmetric_bv, GraphError};
use oxigraph_succinct::loading::{par_iter_quads, recompress_quads, write_ids, LoadError};
use oxigraph_succinct::quads::{
    choose_num_partitions, compress_quads, div_ceil, index_quads, QuadOrder, QuadStore,
    QuadStoreConfiguration,
};
use oxigraph_succinct::quads_store::{
    index_frames, index_partition, index_quads_by_first_term, index_quads_by_first_two_terms,
    pair_offsets, QuadPartition, QuadsError,
};
use oxigraph_succinct::secondary_indexes::build_secondary_index;
use oxigraph_succinct::terms_mphf::ids_below;

fn some_quads(n: usize) -> Vec<[usize; 4]> {
    (0..n).map(|i| [1 + (i * 17) % 50, (i * 7) % 6, 1 + (i * 31) % 49, i % 2]).collect()
}

fn store_of(quads: &Vec<[usize; 4]>, num_partitions: usize, order: QuadOrder) -> QuadStore {
    let (config, files) = compress_quads(quads, 64, num_partitions, order).unwrap();
    open(config, files)
}

fn open(config: QuadStoreConfiguration, files: Vec<SortedArraysFile<4>>) -> QuadStore {
    let indexes = index_quads(&config, &files).unwrap();
    QuadStore::mmap(config, files, indexes)
}

fn oks(quads: Vec<[usize; 4]>) -> Vec<Result<[usize; 4], QuadsError>> {
    quads.into_iter().map(Ok).collect()
}

#[test]
fn orders_map_quads_and_back() {
    let quad = [1, 2, 3, 4];
    assert_eq!(QuadOrder::Spog.mapper(quad), [1, 2, 3, 4]);
    assert_eq!(QuadOrder::Opsg.mapper(quad), [3, 2, 1, 4]);
    for order in [QuadOrder::Spog, QuadOrder::Opsg] {
        assert_eq!(order.reverse_mapper(order.mapper(quad)), quad);
    }
    assert_eq!(QuadOrder::Spog.name(), "spog");
    assert_eq!(QuadOrder::Opsg.name(), "opsg");
}

#[test]
fn there_are_always_as_many_partitions() {
    assert_eq!(div_ceil(7, 2), 4);
    assert_eq!(div_ceil(8, 2), 4);
    assert_eq!(div_ceil(0, 2), 0);
    assert_eq!(choose_num_partitions(1), 256);
    assert_eq!(choose_num_partitions(64), 256);
}

#[test]
fn compressed_quads_are_sorted_in_their_order() {
    let quads = some_quads(500);
    for order in [QuadOrder::Spog, QuadOrder::Opsg] {
        for num_partitions in [1, 3, 7] {
            let (config, files) = compress_quads(&quads, 64, num_partitions, order).unwrap();
            assert_eq!(
                config,
                QuadStoreConfiguration { num_partitions, num_quads: 500, num_terms: 64 }
            );
            assert_eq!(files.len(), num_partitions);
            let mut expected: Vec<[usize; 4]> = quads.iter().map(|q| order.mapper(*q)).collect();
            expected.sort();
            assert_eq!(open(config, files).iter_all_quads(), oks(expected));
        }
    }
}

#[test]
fn quads_are_found_by_their_first_term() {
    let quads = some_quads(700);
    let store = store_of(&quads, 3, QuadOrder::Spog);
    for term in 0..64 {
        let mut expected: Vec<[usize; 4]> =
            quads.iter().copied().filter(|q| q[0] == term).collect();
        expected.sort();
        assert_eq!(store.iter_quads_by_first_term(term), Ok(oks(expected)));
    }
    assert_eq!(store.iter_quads_by_first_term(64), Err(QuadsError::InvalidTerm));
}

#[test]
fn quads_are_found_by_their_first_two_terms() {
    let quads = some_quads(900);
    let store = store_of(&quads, 2, QuadOrder::Spog);
    for term1 in 0..64 {
        for term2 in 0..8 {
            let mut expected: Vec<[usize; 4]> =
                quads.iter().copied().filter(|q| q[0] == term1 && q[1] == term2).collect();
            expected.sort();
            let found = store.iter_quads_by_first_two_terms(term1, term2).unwrap();
            assert_eq!(found.unwrap_or(vec![]), oks(expected));
        }
    }
    assert_eq!(store.iter_quads_by_first_two_terms(64, 1), Err(QuadsError::InvalidTerm));
}

#[test]
fn quads_are_found_in_later_frames() {
    // many quads with the same first term, and others around them
    let mut quads: Vec<[usize; 4]> = (1..300).map(|i| [20, i / 10, i, 0]).collect();
    quads.extend((1..20).map(|i| [i, 1, 1, 0]));
    quads.extend((21..60).map(|i| [i, 1, 1, 0]));
    let (config, files) = compress_quads(&quads, 512, 1, QuadOrder::Spog).unwrap();
    let store = open(config, files);
    quads.sort();
    let expected: Vec<[usize; 4]> =
        quads.iter().copied().filter(|q| q[0] == 20 && q[1] == 17).collect();
    assert_eq!(store.iter_quads_by_first_two_terms(20, 17), Ok(Some(oks(expected))));
    assert_eq!(store.iter_quads_by_first_term(59), Ok(vec![Ok([59, 1, 1, 0])]));
    assert_eq!(store.iter_all_quads(), oks(quads));
}

#[test]
fn partitions_have_their_terms() {
    let file = SortedArraysFile::<4>::create(&[[3, 1, 1, 1], [5, 1, 1, 1]]).unwrap();
    assert!(index_frames(&file).is_ok());
    assert!(index_quads_by_first_term(&file, 3, 4).is_ok());
    assert!(index_quads_by_first_two_terms(&file).unwrap().is_some());
    assert_eq!(
        index_quads_by_first_term(&file, 4, 4).err(),
        Some(QuadsError::WrongPartition)
    );
    let indexes = index_partition(&file, 3, 4).unwrap();
    let partition = QuadPartition::mmap(3, file, indexes);
    assert_eq!(partition.iter_quads_by_first_term(5), Ok(vec![Ok([5, 1, 1, 1])]));
    assert_eq!(partition.iter_quads_by_first_term(4), Ok(vec![]));
    assert_eq!(partition.iter_quads_by_first_term(7), Err(QuadsError::InvalidTerm));
    assert_eq!(partition.iter_all_quads(), oks(vec![[3, 1, 1, 1], [5, 1, 1, 1]]));
    let empty = SortedArraysFile::<4>::create(&[]).unwrap();
    assert!(index_quads_by_first_two_terms(&empty).unwrap().is_none());
    let unexpected_end = QuadsError::Arrays(ArraysError::Bits(BitsError::UnexpectedEnd));
    let truncated = SortedArraysFile::<4>::mmap(vec![]).unwrap();
    assert_eq!(index_partition(&truncated, 0, 4).err(), Some(unexpected_end));
    // a file that was cut since it was indexed can be opened, and tells the error when it is read
    let file = SortedArraysFile::<4>::create(&[[3, 1, 1, 1], [5, 1, 1, 1]]).unwrap();
    let indexes = index_partition(&file, 3, 4).unwrap();
    let partition = QuadPartition::mmap(3, truncated, indexes);
    assert_eq!(partition.iter_all_quads(), vec![Err(unexpected_end)]);
    assert_eq!(partition.iter_quads_by_first_term(3), Ok(vec![Err(unexpected_end)]));
    assert_eq!(
        partition.iter_quads_by_first_two_terms(3, 1),
        Ok(Some(vec![Err(unexpected_end)]))
    );
}

#[test]
fn quads_are_written_in_another_order() {
    let quads = some_quads(300);
    let (config, files) = write_ids(&quads, 64, 3, QuadOrder::Spog).unwrap();
    let mut read = par_iter_quads(&files, QuadOrder::Spog).unwrap();
    let mut expected = quads.clone();
    expected.sort();
    read.sort();
    assert_eq!(read, expected);
    let (config, files) =
        recompress_quads(&config, &files, QuadOrder::Spog, QuadOrder::Opsg).unwrap();
    assert_eq!(config.num_quads, 300);
    let store = open(config, files);
    let mut expected: Vec<[usize; 4]> =
        quads.iter().map(|q| QuadOrder::Opsg.mapper(*q)).collect();
    expected.sort();
    assert_eq!(store.iter_all_quads(), oks(expected));
}

#[test]
fn quads_of_zeros_cannot_be_written() {
    assert_eq!(
        write_ids(&vec![[0, 0, 0, 0]], 2, 1, QuadOrder::Spog).err(),
        Some(LoadError::Sorter(SorterError::Arrays(ArraysError::ZeroItem)))
    );
    assert_eq!(
        write_ids(&vec![], 1, 1, QuadOrder::Spog).err(),
        Some(LoadError::TooFewTerms)
    );
}

#[test]
fn pairs_of_terms_have_offsets_in_frames() {
    let quads = [[1, 2, 0, 0], [1, 2, 1, 0], [1, 3, 0, 0], [2, 3, 0, 0]];
    let file = SortedArraysFile::<4>::create(&quads).unwrap();
    let (keys, values) = pair_offsets(&file).unwrap();
    assert_eq!(keys.len(), 3);
    assert!(keys[0] != keys[1] && keys[1] != keys[2] && keys[0] != keys[2]);
    assert_eq!(values, vec![0, 0, 0]);
    let quads: Vec<[usize; 4]> = (0..10_002).map(|i| [7, i, 1, 1]).collect();
    let file = SortedArraysFile::<4>::create(&quads).unwrap();
    let (keys, values) = pair_offsets(&file).unwrap();
    assert_eq!(keys.len(), 10_002);
    assert_eq!(values[..10_000], vec![0; 10_000]);
    assert_eq!(values[10_000..], [1, 1]);
    assert_eq!(ids_below(4), vec![0, 1, 2, 3]);
}

#[test]
fn graphs_have_sorted_successors() {
    let graph = bv(&vec![(2, 1), (0, 5), (2, 0), (0, 5), (0, 1)], 3).unwrap();
    assert_eq!(graph.len(), 3);
    assert_eq!(graph.successors(0), &vec![1, 5]);
    assert_eq!(graph.successors(1), &Vec::<usize>::new());
    assert_eq!(graph.successors(2), &vec![0, 1]);
    assert_eq!(bv(&vec![(3, 0)], 3).err(), Some(GraphError::InvalidNode));
}

#[test]
fn symmetric_graphs_link_the_terms_of_quads() {
    let graph = symmetric_bv(&vec![[1, 2, 3, 0]], 4).unwrap();
    for node in 0..4 {
        for &other in graph.successors(node) {
            assert!(graph.successors(other).contains(&node));
        }
    }
    assert!(graph.successors(1).contains(&3));
    assert!(graph.successors(3).contains(&1));
    assert_eq!(symmetric_bv(&vec![[1, 2, 4, 0]], 4).err(), Some(GraphError::InvalidNode));
}

#[test]
fn secondary_indexes_list_first_terms() {
    let quads = some_quads(400);
    let (_, files) = compress_quads(&quads, 64, 4, QuadOrder::Spog).unwrap();
    let index = build_secondary_index(&files, 64).unwrap();
    for predicate in 0..64 {
        let mut expected: Vec<usize> =
            quads.iter().filter(|q| q[1] == predicate).map(|q| q[0]).collect();
        expected.sort();
        expected.dedup();
        match index.get(predicate) {
            None => assert_eq!(expected, Vec::<usize>::new()),
            Some(firsts) => assert_eq!(firsts, &expected),
        }
    }
    assert_eq!(index.get(1000), None);
    assert_eq!(build_secondary_index(&files, 3).err(), Some(QuadsError::InvalidTerm));
}

#[test]
fn codes_of_quads_are_measured() {
    let file = SortedArraysFile::<4>::create(&[[1, 2, 2, 2], [1, 2, 3, 4]]).unwrap();
    let read = read_cells(&file).unwrap();
    assert_eq!(read.num_items, 2);
    let values: Vec<(usize, bool, u64)> =
        read.cells.iter().map(|cell| (cell.column, cell.signed, cell.value)).collect();
    assert_eq!(
        values,
        vec![
            (0, false, 1),
            (1, false, 2),
            (2, false, 2),
            (3, false, 2),
            (0, false, 0),
            (1, false, 0),
            (2, false, 1),
            (3, true, 4),
            // the end of the list
            (0, false, 0),
            (1, false, 0),
            (2, false, 0),
            (3, false, 0),
        ]
    );
    let empty = SortedArraysFile::<4>::create(&[]).unwrap();
    let codes = analyze_quad_store_codes(&vec![file, empty]).unwrap();
    assert_eq!((codes.true_newframe_bits, codes.false_newframe_bits), (2, 2));
    assert_eq!(codes.counters.len(), tried_codes().len());
    let unary = &codes.counters[0];
    assert_eq!(unary.code, Code::Unary);
    assert_eq!(unary.u64_bits, [5, 6, 7, 5]);
    assert_eq!(unary.i64_bits, [0, 0, 0, 5]);
    let gamma = &codes.counters[1];
    assert_eq!(gamma.code, Code::Gamma);
    assert_eq!(gamma.u64_bits, [6, 6, 8, 5]);
    assert_eq!(gamma.i64_bits, [0, 0, 0, 5]);
    let bytes = count_bits(&read.cells, Code::VByteLe);
    assert_eq!(bytes.u64_bits, [24, 24, 24, 16]);
    assert_eq!(bytes.i64_bits, [0, 0, 0, 8]);
}

#[test]
fn codes_of_truncated_quads_are_not_measured() {
    let file = SortedArraysFile::<4>::mmap(vec![]).unwrap();
    assert_eq!(
        analyze_quad_store_codes(&vec![file]).err(),
        Some(AnalyzeError::Arrays(ArraysError::Bits(BitsError::UnexpectedEnd)))
    );
}
