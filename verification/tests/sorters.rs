use oxigraph_succinct::array_sorter::{ExternalArraySorter, SorterError};
use oxigraph_succinct::radix::radix_sort;
use oxigraph_succinct::arrays::ArraysError;
use oxigraph_succinct::string_sorter::{ExternalDeduplicatingStringSorter, StringSorterError};
use oxigraph_succinct::strings::{
    read_length_prefixed_string, write_length_prefixed_string, StringsError,
};

fn bytes(strings: &[&str]) -> Vec<Vec<u8>> {
    strings.iter().map(|s| s.as_bytes().to_vec()).collect()
}

#[test]
fn strings_come_out_sorted_without_duplicates() {
    let mut sorter = ExternalDeduplicatingStringSorter::new(1000, 10);
    for s in bytes(&["b", "a", "", "b", "ab", "a"]) {
        sorter.push_boxed_bytes(s).unwrap();
    }
    assert_eq!(sorter.drain_boxed_bytes(), bytes(&["", "a", "ab", "b"]));
    assert_eq!(sorter.drain_boxed_bytes(), bytes(&[]));
}

#[test]
fn strings_are_sorted_across_runs() {
    // at most two strings fit in the buffer, and at most three runs are kept
    let mut sorter = ExternalDeduplicatingStringSorter::new(24, 3);
    let mut expected = Vec::new();
    for i in 0..100u32 {
        let s = format!("s{:03}", (i * 37) % 50).into_bytes();
        expected.push(s.clone());
        sorter.push_boxed_bytes(s).unwrap();
    }
    expected.sort();
    expected.dedup();
    assert!(sorter.num_unique_items_upperbound() >= 40);
    sorter.compact_files();
    assert!(sorter.num_unique_items_upperbound() <= 50);
    assert_eq!(sorter.drain_boxed_bytes(), expected);
}

#[test]
fn sorters_of_strings_are_merged() {
    let mut left = ExternalDeduplicatingStringSorter::new(30, 1);
    let mut right = ExternalDeduplicatingStringSorter::new(30, 1);
    for s in bytes(&["e", "c", "a", "g", "i"]) {
        left.push_boxed_bytes(s).unwrap();
    }
    for s in bytes(&["d", "c", "b", "i", "h", "a", "f"]) {
        right.push_boxed_bytes(s).unwrap();
    }
    let mut merged = left.merge(right).unwrap();
    assert_eq!(
        merged.drain_boxed_bytes(),
        bytes(&["a", "b", "c", "d", "e", "f", "g", "h", "i"])
    );
}

#[test]
fn strings_that_do_not_fit_are_refused() {
    let mut sorter = ExternalDeduplicatingStringSorter::new(16, 10);
    // 8 bytes are counted for each string, besides its own
    assert_eq!(sorter.push_boxed_bytes(vec![0; 8]), Err(StringSorterError::DoesNotFit));
    assert_eq!(sorter.push_boxed_bytes(vec![0; 7]), Ok(()));
}

#[test]
fn strings_are_preceded_by_their_lengths() {
    let mut out = Vec::new();
    write_length_prefixed_string(&mut out, b"abc").unwrap();
    write_length_prefixed_string(&mut out, b"").unwrap();
    assert_eq!(out, [3, 0, 0, 0, b'a', b'b', b'c', 0, 0, 0, 0]);
    assert_eq!(read_length_prefixed_string(&out, 0), Ok(Some((b"abc".to_vec(), 7))));
    assert_eq!(read_length_prefixed_string(&out, 7), Ok(Some((vec![], 11))));
    assert_eq!(read_length_prefixed_string(&out, 11), Ok(None));
    // less than a length is the end too
    assert_eq!(read_length_prefixed_string(&[3, 0, 0], 0), Ok(None));
    assert_eq!(
        read_length_prefixed_string(&[3, 0, 0, 0, 1, 2], 0),
        Err(StringsError::Truncated)
    );
}

#[test]
fn quads_come_out_sorted_by_partition() {
    let mut sorter = ExternalArraySorter::<4>::new(9, 1000, 2);
    for quad in [[7, 1, 1, 1], [2, 3, 4, 5], [9, 0, 0, 1], [2, 3, 4, 1], [0, 1, 0, 0], [7, 1, 1, 1]]
    {
        sorter.push(quad).unwrap();
    }
    let lists = sorter.iter_partitions().unwrap();
    assert_eq!(
        lists,
        vec![
            vec![[0, 1, 0, 0], [2, 3, 4, 1], [2, 3, 4, 5]],
            vec![[7, 1, 1, 1], [7, 1, 1, 1], [9, 0, 0, 1]],
        ]
    );
}

#[test]
fn quads_are_sorted_across_runs() {
    // a small buffer, so that many runs are written and merged
    let mut sorter = ExternalArraySorter::<4>::new(63, 16, 3);
    let mut expected = Vec::new();
    for i in 0..600usize {
        let quad = [(i * 29) % 64, (i * 7) % 13, i % 5, 1];
        expected.push(quad);
        sorter.push(quad).unwrap();
    }
    expected.sort();
    let lists = sorter.iter_partitions().unwrap();
    assert_eq!(lists.len(), 3);
    assert_eq!(lists.concat(), expected);
}

#[test]
fn sorters_of_quads_are_merged() {
    let mut left = ExternalArraySorter::<4>::new(9, 100, 2);
    let mut right = ExternalArraySorter::<4>::new(9, 100, 2);
    left.push([5, 1, 1, 1]).unwrap();
    left.push([1, 1, 1, 1]).unwrap();
    right.push([3, 1, 1, 1]).unwrap();
    right.push([9, 1, 1, 1]).unwrap();
    let mut merged = left.merge(right).unwrap();
    let lists = merged.iter_partitions().unwrap();
    assert_eq!(
        lists,
        vec![vec![[1, 1, 1, 1], [3, 1, 1, 1]], vec![[5, 1, 1, 1], [9, 1, 1, 1]]]
    );
}

#[test]
fn sorters_of_different_values_are_not_merged() {
    let left = ExternalArraySorter::<4>::new(9, 100, 2);
    let right = ExternalArraySorter::<4>::new(10, 100, 2);
    assert_eq!(left.merge(right).err(), Some(SorterError::DifferentMaxValues));
}

#[test]
fn first_terms_that_are_too_large_are_refused() {
    let mut sorter = ExternalArraySorter::<4>::new(9, 100, 2);
    assert_eq!(sorter.push([10, 1, 1, 1]), Err(SorterError::ValueTooLarge));
}

#[test]
fn the_quad_of_zeros_cannot_be_sorted() {
    let mut sorter = ExternalArraySorter::<4>::new(9, 100, 2);
    sorter.push([0, 0, 0, 0]).unwrap();
    assert_eq!(sorter.iter_partitions(), Err(SorterError::Arrays(ArraysError::ZeroItem)));
}

#[test]
fn arrays_of_any_length_are_sorted() {
    let mut sorter = ExternalArraySorter::<2>::new(20, 8, 4);
    for pair in [[20, 1], [3, 9], [3, 2], [11, 0], [0, 5], [3, 9]] {
        sorter.push(pair).unwrap();
    }
    let lists = sorter.iter_partitions().unwrap();
    assert_eq!(lists.len(), 4);
    assert_eq!(lists.concat(), vec![[0, 5], [3, 2], [3, 9], [3, 9], [11, 0], [20, 1]]);
    // reading again gives the same
    assert_eq!(sorter.iter_partitions(), Ok(lists));
}

#[test]
fn partitions_are_ranges_of_the_first_term() {
    let sorter = ExternalArraySorter::<3>::new(9, 100, 4);
    let partition = |first: usize| sorter.get_partition([first, 7, 7]);
    assert_eq!(partition(0), Ok(0));
    assert_eq!(partition(2), Ok(0));
    assert_eq!(partition(3), Ok(1));
    assert_eq!(partition(9), Ok(3));
    assert_eq!(partition(10), Err(SorterError::ValueTooLarge));
}

#[test]
fn a_refused_quad_changes_nothing() {
    let mut sorter = ExternalArraySorter::<4>::new(9, 100, 2);
    sorter.push([1, 2, 3, 4]).unwrap();
    assert_eq!(sorter.push([10, 1, 1, 1]), Err(SorterError::ValueTooLarge));
    assert_eq!(sorter.iter_partitions(), Ok(vec![vec![[1, 2, 3, 4]], vec![]]));
}

#[test]
fn large_cells_are_sorted() {
    let mut items = vec![[7, usize::MAX], [usize::MAX, 0], [7, 3], [0, usize::MAX]];
    radix_sort(&mut items);
    assert_eq!(items, vec![[0, usize::MAX], [7, 3], [7, usize::MAX], [usize::MAX, 0]]);
}
