use oxigraph_succinct::flatten::FallibleRewindableFlattenLender;
use oxigraph_succinct::front_coding::{
    get_frame_end, get_frame_size, get_from_frame, write_frame, FrameError, FrameLender,
};

fn strings(texts: &[&str]) -> Vec<Vec<u8>> {
    texts.iter().map(|s| s.as_bytes().to_vec()).collect()
}

fn frames(texts: &[&str], max: usize) -> Vec<u8> {
    let mut out = Vec::new();
    for chunk in strings(texts).chunks(max) {
        assert_eq!(write_frame(&mut out, chunk), Ok(chunk.len()));
    }
    out
}

#[test]
fn strings_are_coded_by_what_they_share_with_the_one_before() {
    let out = frames(&["abc", "abd", "b"], 16);
    assert_eq!(out, [0, 3, b'a', b'b', b'c', 1, 1, b'd', 3, 1, b'b']);
}

#[test]
fn long_strings_have_long_lengths() {
    let long = "x".repeat(300);
    let out = frames(&[&long, "x"], 16);
    assert_eq!(out[..3], [0, 0xac, 2]);
    assert_eq!(out[303..], [0xab, 2, 0]);
}

#[test]
fn frames_are_read_back() {
    let texts = ["", "a", "aa", "ab", "b", "ba", "c"];
    for max in 1..9 {
        let out = frames(&texts, max);
        let mut lender = FrameLender::new(&out, max);
        for text in strings(&texts) {
            assert_eq!(lender.next(), Ok(Some(text)));
        }
        assert_eq!(lender.next(), Ok(None));
        lender.rewind();
        assert_eq!(lender.next(), Ok(Some(vec![])));
    }
}

#[test]
fn strings_of_a_frame_are_found() {
    let out = frames(&["abc", "abd", "b"], 16);
    assert_eq!(get_from_frame(&out, 16, 0), Ok(b"abc".to_vec()));
    assert_eq!(get_from_frame(&out, 16, 1), Ok(b"abd".to_vec()));
    assert_eq!(get_from_frame(&out, 16, 2), Ok(b"b".to_vec()));
    assert_eq!(get_from_frame(&out, 16, 3), Err(FrameError::TooFewStrings));
}

#[test]
fn frames_end_after_their_strings() {
    let out = frames(&["abc", "abd", "b", "c", "d"], 2);
    let end = get_frame_size(&out, 2).unwrap();
    assert_eq!(end, 8);
    assert_eq!(get_frame_end(&out, end, 2), Ok(end + 6));
    assert_eq!(get_frame_end(&out, end + 6, 2), Ok(out.len()));
}

#[test]
fn invalid_frames_are_refused() {
    let mut lender = FrameLender::new(&[0, 3, b'a'], 4);
    assert_eq!(lender.next(), Err(FrameError::Truncated));
    assert_eq!(lender.next(), Err(FrameError::AlreadyFailed));
    let mut lender = FrameLender::new(&[1, 0], 4);
    assert_eq!(lender.next(), Err(FrameError::DropsTooMuch));
    let mut lender = FrameLender::new(&[0xff], 4);
    assert_eq!(lender.next(), Err(FrameError::InvalidNumber));
    assert!(get_frame_size(&[0, 3, b'a'], 4).is_err());
}

#[test]
fn readers_are_read_one_after_the_other() {
    let first = frames(&["a", "b", "c"], 2);
    let second = frames(&[], 2);
    let third = frames(&["d", "e"], 2);
    let mut lender = FallibleRewindableFlattenLender::new(vec![
        FrameLender::new(&first, 2),
        FrameLender::new(&second, 2),
        FrameLender::new(&third, 2),
    ]);
    for _ in 0..2 {
        for text in strings(&["a", "b", "c", "d", "e"]) {
            assert_eq!(lender.next(), Ok(Some(text)));
        }
        assert_eq!(lender.next(), Ok(None));
        assert_eq!(lender.next(), Ok(None));
        lender.rewind();
    }
    // also from the middle of a file
    assert_eq!(lender.next(), Ok(Some(b"a".to_vec())));
    lender.rewind();
    assert_eq!(lender.next(), Ok(Some(b"a".to_vec())));
    let mut empty = FallibleRewindableFlattenLender::new(vec![]);
    assert_eq!(empty.next(), Ok(None));
    empty.rewind();
    assert_eq!(empty.next(), Ok(None));
}
