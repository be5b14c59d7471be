use oxigraph_succinct::arrays::{ArraysError, SortedArraysFile};
use oxigraph_succinct::bits::BitsError;

fn quads_of_first_terms(n: usize) -> Vec<[usize; 4]> {
    (1..n + 1).map(|i| [i, 2 * i % 7, i * i, 3]).collect()
}

#[test]
fn test_read_write_sorted_array() {
    let quads = [[1, 2, 2, 2], [1, 2, 3, 4]];
    let file = SortedArraysFile::<4>::create(&quads).unwrap();
    let scan = file.iter().unwrap();
    assert_eq!(scan.error, None);
    assert_eq!(scan.items, quads.to_vec());
}

#[test]
fn two_quads_have_the_documented_bits() {
    let file = SortedArraysFile::<4>::create(&[[1, 2, 2, 2], [1, 2, 3, 4]]).unwrap();
    // 0 010 011 011 011, then 0 1 1 010 00110, then 1 1 1 1 1, from the lowest bit of each byte: in
    // the second quad, once a cell has increased, the next ones are zigzag-encoded differences
    assert_eq!(file.as_bytes(), [100, 219, 98, 31, 0, 0, 0, 0]);
    assert_eq!(file.file_len(), 8);
}

#[test]
fn an_empty_list_is_an_end_marker() {
    let file = SortedArraysFile::<4>::create(&[]).unwrap();
    assert_eq!(file.as_bytes(), [31, 0, 0, 0, 0, 0, 0, 0]);
    let scan = file.iter().unwrap();
    assert_eq!(scan.items.len(), 0);
    assert_eq!(scan.error, None);
}

#[test]
fn duplicates_are_kept() {
    let quads = [[5, 0, 0, 0], [5, 0, 0, 0], [5, 0, 0, 0]];
    let file = SortedArraysFile::<4>::create(&quads).unwrap();
    assert_eq!(file.iter().unwrap().items, quads.to_vec());
}

#[test]
fn written_bytes_are_read_back() {
    let quads = quads_of_first_terms(250);
    let file = SortedArraysFile::<4>::create(&quads).unwrap();
    let again = SortedArraysFile::<4>::mmap(file.as_bytes().to_vec()).unwrap();
    let scan = again.iter().unwrap();
    assert_eq!(scan.error, None);
    assert_eq!(scan.items, quads);
}

#[test]
fn a_frame_of_different_first_terms_has_a_hundred_quads() {
    let quads = quads_of_first_terms(250);
    let file = SortedArraysFile::<4>::create(&quads).unwrap();
    let mut reader = file.iter_with_positions(0).unwrap();
    let mut starts = Vec::new();
    let mut positions = Vec::new();
    let mut i = 0;
    while let Some((position, item)) = reader.next().unwrap() {
        assert_eq!(item, quads[i]);
        if let Some(position) = position {
            starts.push(i);
            positions.push(position);
        }
        i += 1;
    }
    assert_eq!(i, 250);
    assert_eq!(positions[0], 0);
    assert_eq!(starts, vec![0, 100, 200]);
    for k in 1..positions.len() {
        assert!(positions[k - 1] < positions[k]);
        let scan = file.iter_from_position(positions[k] as usize).unwrap();
        assert_eq!(scan.error, None);
        assert_eq!(scan.items, quads[starts[k]..].to_vec());
    }
}

#[test]
fn quads_with_the_same_first_term_stay_in_a_frame() {
    let quads: Vec<[usize; 4]> = (0..500).map(|i| [7, i, 1, 1]).collect();
    let file = SortedArraysFile::<4>::create(&quads).unwrap();
    let mut reader = file.iter_with_positions(0).unwrap();
    let mut num_frames = 0;
    while let Some((position, _)) = reader.next().unwrap() {
        if position.is_some() {
            num_frames += 1;
        }
    }
    assert_eq!(num_frames, 1);
}

#[test]
fn unsorted_quads_are_refused() {
    let res = SortedArraysFile::<4>::create(&[[1, 2, 3, 4], [1, 2, 2, 2]]);
    assert_eq!(res.err(), Some(ArraysError::NotSorted));
}

#[test]
fn the_quad_of_zeros_is_refused() {
    let res = SortedArraysFile::<4>::create(&[[0, 0, 0, 0]]);
    assert_eq!(res.err(), Some(ArraysError::ZeroItem));
}

#[test]
fn large_cells_are_refused_after_an_increase() {
    let res = SortedArraysFile::<4>::create(&[[1, 0, 0, 1], [2, usize::MAX, 0, 0]]);
    assert_eq!(res.err(), Some(ArraysError::CellOverflowsI64));
}

#[test]
fn the_largest_increase_is_refused() {
    let res = SortedArraysFile::<4>::create(&[[usize::MAX, 0, 0, 0]]);
    assert_eq!(res.err(), Some(ArraysError::IncreaseTooLarge));
    let res = SortedArraysFile::<4>::create(&[[1, usize::MAX, 0, 0]]);
    assert_eq!(res.err(), Some(ArraysError::IncreaseTooLarge));
}

#[test]
fn positions_have_to_be_those_of_frames() {
    let file = SortedArraysFile::<4>::create(&[[1, 2, 2, 2], [1, 2, 3, 4]]).unwrap();
    assert_eq!(file.iter_from_position(65).err(), Some(ArraysError::PastTheEnd));
    assert_eq!(file.iter_from_position(64).err(), Some(ArraysError::Bits(BitsError::UnexpectedEnd)));
    // the bit of the second quad says that it does not start a frame
    assert_eq!(file.iter_from_position(13).err(), Some(ArraysError::NotAFrameStart));
}

#[test]
fn files_that_end_too_early_give_what_they_hold() {
    let quads = quads_of_first_terms(50);
    let file = SortedArraysFile::<4>::create(&quads).unwrap();
    let half = file.as_bytes()[..16].to_vec();
    let scan = SortedArraysFile::<4>::mmap(half).unwrap().iter().unwrap();
    assert!(matches!(scan.error, Some(ArraysError::Bits(_))));
    assert_eq!(scan.items, quads[..scan.items.len()].to_vec());
}

#[test]
fn an_empty_file_has_no_end_marker() {
    let scan = SortedArraysFile::<4>::mmap(vec![]).unwrap().iter().unwrap();
    assert_eq!(scan.items.len(), 0);
    assert_eq!(scan.error, Some(ArraysError::Bits(BitsError::UnexpectedEnd)));
}

#[test]
fn bytes_are_padded_to_words() {
    let file = SortedArraysFile::<4>::mmap(vec![31]).unwrap();
    assert_eq!(file.as_bytes(), [31, 0, 0, 0, 0, 0, 0, 0]);
}

#[test]
fn the_largest_first_cell_that_has_a_code_is_kept() {
    let quads = [[usize::MAX - 1, 0, 0, 1]];
    let file = SortedArraysFile::<4>::create(&quads).unwrap();
    assert_eq!(file.iter().unwrap().items, quads.to_vec());
}
