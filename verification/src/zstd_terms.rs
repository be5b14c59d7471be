//! Term files whose frames are compressed with Zstandard: each frame holds a number of sorted
//! strings, each preceded by its length.

use crate::indexes::{positions_view, sequence_of, MonotoneSeq};
use crate::strings::{
    bytes_lt, lemma_bytes_asymmetric, lemma_bytes_transitive, lemma_strings_round_trip, prefixed,
    prefixed_all, read_length_prefixed_string, string_lt, string_views, strings_from,
    strings_increasing, write_length_prefixed_string, StringsError,
};
use crate::terms_store::ceil_div;
use std::io::{ErrorKind, Read};
use vstd::prelude::*;
use zstd::stream::read::Decoder;

verus! {

/// The level that frames are compressed with.
pub const COMPRESSION_LEVEL: i32 = 1;

/// What a list of compressed frames holds, as far as the data go: the last frame may be incomplete.
pub uninterp spec fn zstd_content(data: Seq<u8>) -> Option<Seq<u8>>;

/// The length of the compressed frame at the beginning of data.
pub uninterp spec fn zstd_frame_size(data: Seq<u8>) -> Option<usize>;

/// Whether bytes are a compressed frame that holds some data: so are the contents and the length of
/// the frame told, also when other frames follow.
pub open spec fn is_frame_of(frame: Seq<u8>, data: Seq<u8>) -> bool {
    &&& frame.len() > 0
    &&& zstd_content(frame) == Some(data)
    &&& forall|tail: Seq<u8>|
        zstd_content(tail) is Some && tail.len() > 0 ==> #[trigger] zstd_content(frame + tail)
            == Some(data + zstd_content(tail)->Some_0)
    &&& forall|tail: Seq<u8>|
        (#[trigger] zstd_frame_size(frame + tail)) is Some && zstd_frame_size(frame + tail)->Some_0
            == frame.len()
}

/// Whether data can be compressed to one frame: the largest size that a frame of them can have is
/// one of a vector.
pub open spec fn fits_frame(len: nat) -> bool {
    len + len / 256 + 64 <= isize::MAX
}

/// `zstd_safe::compress`, with a buffer of `zstd_safe::compress_bound` bytes, which is enough: a
/// frame that holds some data. Nothing is said of what happens when memory lacks.
#[verifier::external_body]
pub(crate) fn compress_frame(data: &[u8], level: i32) -> (frame: Vec<u8>)
    requires
        fits_frame(data@.len()),
    ensures
        is_frame_of(frame@, data@),
{
    let mut frame = Vec::with_capacity(zstd::zstd_safe::compress_bound(data.len()));
    zstd::zstd_safe::compress(&mut frame, data, level).expect("frames can be compressed");
    frame
}

/// `zstd_safe::find_frame_compressed_size`: the length of the frame at the beginning of data, which
/// is within them.
#[verifier::external_body]
pub(crate) fn find_frame_size(data: &[u8]) -> (size: Option<usize>)
    ensures
        size == zstd_frame_size(data@),
        size matches Some(n) ==> 0 < n <= data@.len(),
{
    zstd::zstd_safe::find_frame_compressed_size(data).ok()
}

/// `zstd::stream::read::Decoder`, read to its end: what a list of frames holds, unless one of them
/// is corrupted. Data that end in the middle of a frame give what could be read of it.
#[verifier::external_body]
pub(crate) fn decompress_all(data: &[u8]) -> (content: Option<Vec<u8>>)
    ensures
        match zstd_content(data@) {
            None => content is None,
            Some(bytes) => content matches Some(v) && v@ == bytes,
        },
{
    let mut content = Vec::new();
    match Decoder::with_buffer(data).ok()?.read_to_end(&mut content) {
        Err(e) if e.kind() != ErrorKind::UnexpectedEof => None,
        _ => Some(content),
    }
}

/// Why a file could not be written, indexed or read.
#[derive(Clone, Copy, Debug, PartialEq, Eq, Structural)]
pub enum ZstdError {
    /// The strings of a frame are too large to be compressed.
    FrameTooLarge,
    /// A frame could not be decompressed.
    Decompression,
    /// A string could not be written or read.
    Strings(StringsError),
    /// Strings are not in increasing order.
    Unsorted,
    /// A file has fewer frames than expected.
    FewerFrames,
    /// A file has more frames than expected.
    MoreFrames,
    /// The index has too many entries, or too large ones.
    IndexTooLarge,
    /// The number of files is not the one that the number of terms calls for.
    WrongNumberOfFiles,
    /// The files have more terms than expected.
    TooManyTerms,
    /// The map from terms to their ids could not be built.
    StaticFunction,
    /// A term is too long to be sorted.
    TermTooLong,
}

/// The bytes of frames, one after the other.
pub open spec fn joined_frames(frames: Seq<Seq<u8>>) -> Seq<u8>
    decreases frames.len(),
{
    if frames.len() == 0 {
        Seq::empty()
    } else {
        frames[0] + joined_frames(frames.drop_first())
    }
}

/// Whether frames hold a list of strings, `max` of them in each frame but the last one.
pub open spec fn are_frames_of(frames: Seq<Seq<u8>>, max: nat, strings: Seq<Seq<u8>>) -> bool
    decreases frames.len(),
{
    if frames.len() == 0 {
        strings.len() == 0
    } else {
        let n = if strings.len() < max {
            strings.len() as int
        } else {
            max as int
        };
        &&& strings.len() > 0
        &&& is_frame_of(frames[0], prefixed_all(strings.take(n)))
        &&& are_frames_of(frames.drop_first(), max, strings.skip(n))
    }
}

/// Whether a file holds a list of strings, in frames of `max` ones.
pub open spec fn is_zstd_file(file: Seq<u8>, max: nat, strings: Seq<Seq<u8>>) -> bool {
    exists|frames: Seq<Seq<u8>>| #[trigger]
        joined_frames(frames) == file && are_frames_of(frames, max, strings)
}

proof fn lemma_prefixed_concat(left: Seq<Seq<u8>>, right: Seq<Seq<u8>>)
    ensures
        prefixed_all(left + right) == prefixed_all(left) + prefixed_all(right),
    decreases right.len(),
{
    if right.len() == 0 {
        assert(left + right =~= left);
        assert(prefixed_all(left) + prefixed_all(right) =~= prefixed_all(left));
    } else {
        lemma_prefixed_concat(left, right.drop_last());
        assert((left + right).drop_last() =~= left + right.drop_last());
        assert((prefixed_all(left) + prefixed_all(right.drop_last())) + prefixed(right.last())
            =~= prefixed_all(left) + (prefixed_all(right.drop_last()) + prefixed(right.last())));
    }
}

/// What frames hold is the list of strings that were written to them.
pub proof fn lemma_frames_content(frames: Seq<Seq<u8>>, max: nat, strings: Seq<Seq<u8>>)
    requires
        are_frames_of(frames, max, strings),
        frames.len() > 0,
    ensures
        joined_frames(frames).len() > 0,
        zstd_content(joined_frames(frames)) == Some(prefixed_all(strings)),
    decreases frames.len(),
{
    let n = if strings.len() < max {
        strings.len() as int
    } else {
        max as int
    };
    let rest = frames.drop_first();
    lemma_prefixed_concat(strings.take(n), strings.skip(n));
    assert(strings.take(n) + strings.skip(n) =~= strings);
    assert(are_frames_of(rest, max, strings.skip(n)));
    assert(joined_frames(frames) == frames[0] + joined_frames(rest));
    if rest.len() == 0 {
        assert(joined_frames(rest) =~= Seq::empty());
        assert(joined_frames(frames) =~= frames[0]);
        assert(prefixed_all(strings.skip(n)) =~= Seq::empty());
        assert(prefixed_all(strings) =~= prefixed_all(strings.take(n)));
    } else {
        lemma_frames_content(rest, max, strings.skip(n));
        let tail = joined_frames(rest);
        assert(zstd_content(tail) is Some);
    }
}

/// The bytes of consecutive strings of a list, each after its length.
pub open spec fn prefixed_range(strings: Seq<Seq<u8>>, i: int, j: int) -> Seq<u8> {
    prefixed_all(strings.subrange(i, j))
}

/// Consecutive strings that are all short take a bounded number of bytes.
pub proof fn lemma_prefixed_len(strings: Seq<Seq<u8>>, len: nat)
    requires
        forall|i: int| 0 <= i < strings.len() ==> (#[trigger] strings[i]).len() <= len,
    ensures
        prefixed_all(strings).len() <= strings.len() * (len + 4),
    decreases strings.len(),
{
    if strings.len() > 0 {
        assert forall|i: int| 0 <= i < strings.drop_last().len() implies (
        #[trigger] strings.drop_last()[i]).len() <= len by {
            assert(strings.drop_last()[i] == strings[i]);
        }
        lemma_prefixed_len(strings.drop_last(), len);
        assert(strings.last().len() <= len);
        crate::bytes::lemma_le_bytes_len(strings.last().len(), 4);
        assert(strings.len() * (len + 4) == (strings.len() - 1) * (len + 4) + (len + 4))
            by (nonlinear_arith);
    }
}

/// Writes consecutive sorted strings to a file of frames of `max` ones.
#[verifier::rlimit(50)]
pub fn write_zstd_file(strings: &Vec<Vec<u8>>, start: usize, end: usize, max: usize) -> (res:
    Result<Vec<u8>, ZstdError>)
    requires
        start <= end <= strings@.len(),
        max > 0,
    ensures
        match res {
            Ok(file) => is_zstd_file(
                file@,
                max as nat,
                string_views(strings@).subrange(start as int, end as int),
            ),
            Err(ZstdError::FrameTooLarge) => exists|i: int, j: int|
                start <= i <= j <= end && j - i <= max && !fits_frame(
                    (#[trigger] prefixed_range(string_views(strings@), i, j)).len(),
                ),
            Err(e) => e == ZstdError::Strings(StringsError::TooLong) && exists|i: int|
                start <= i < end && (#[trigger] strings@[i])@.len() > u32::MAX,
        },
{
    let ghost views = string_views(strings@);
    let mut file: Vec<u8> = Vec::new();
    let ghost mut frames: Seq<Seq<u8>> = Seq::empty();
    let mut pos: usize = start;
    proof {
        assert(views.subrange(start as int, pos as int) =~= Seq::empty());
        assert(joined_frames(frames) =~= file@);
        assert(full_frames(frames, max as nat, views.subrange(start as int, pos as int)));
    }
    while pos < end
        invariant
            start <= pos <= end <= strings@.len(),
            max > 0,
            views == string_views(strings@),
            joined_frames(frames) == file@,
            if pos < end {
                full_frames(frames, max as nat, views.subrange(start as int, pos as int))
            } else {
                are_frames_of(frames, max as nat, views.subrange(start as int, pos as int))
            },
        decreases end - pos,
    {
        let stop: usize = if end - pos < max {
            end
        } else {
            pos + max
        };
        let ghost here = views.subrange(pos as int, stop as int);
        let mut data: Vec<u8> = Vec::new();
        let mut i: usize = pos;
        assert(here.take(0) =~= Seq::empty());
        while i < stop
            invariant
                start <= pos <= i <= stop <= end <= strings@.len(),
                views == string_views(strings@),
                here == views.subrange(pos as int, stop as int),
                data@ == prefixed_all(here.take(i - pos)),
            decreases stop - i,
        {
            match write_length_prefixed_string(&mut data, strings[i].as_slice()) {
                Err(e) => {
                    assert(strings@[i as int]@.len() > u32::MAX);
                    return Err(ZstdError::Strings(e));
                },
                Ok(()) => {},
            }
            proof {
                assert(here.take(i + 1 - pos).drop_last() =~= here.take(i - pos));
                assert(here.take(i + 1 - pos).last() == strings@[i as int]@);
            }
            i = i + 1;
        }
        assert(here.take(i - pos) =~= here);
        let len: usize = data.len();
        if len > isize::MAX as usize - 64 || len / 256 > isize::MAX as usize - 64 - len {
            assert(prefixed_range(views, pos as int, stop as int) == data@);
            return Err(ZstdError::FrameTooLarge);
        }
        let mut frame: Vec<u8> = compress_frame(data.as_slice(), COMPRESSION_LEVEL);
        proof {
            let before = views.subrange(start as int, pos as int);
            lemma_frames_push(frames, max as nat, before, frame@, here);
            assert(before + here =~= views.subrange(start as int, stop as int));
            lemma_joined_push(frames, frame@);
            frames = frames.push(frame@);
        }
        file.append(&mut frame);
        pos = stop;
    }
    proof {
        if start == end {
            assert(are_frames_of(frames, max as nat, views.subrange(start as int, end as int)));
        }
    }
    Ok(file)
}

/// Whether frames hold a list of strings, `max` of them in each frame.
spec fn full_frames(frames: Seq<Seq<u8>>, max: nat, strings: Seq<Seq<u8>>) -> bool {
    are_frames_of(frames, max, strings) && strings.len() == frames.len() * max
}

proof fn lemma_joined_push(frames: Seq<Seq<u8>>, frame: Seq<u8>)
    ensures
        joined_frames(frames.push(frame)) == joined_frames(frames) + frame,
    decreases frames.len(),
{
    let more = frames.push(frame);
    if frames.len() == 0 {
        assert(more.drop_first() =~= Seq::empty());
        assert(joined_frames(more.drop_first()) =~= Seq::empty());
        assert(joined_frames(more) =~= joined_frames(frames) + frame);
    } else {
        lemma_joined_push(frames.drop_first(), frame);
        assert(more.drop_first() =~= frames.drop_first().push(frame));
        assert(joined_frames(more) =~= joined_frames(frames) + frame);
    }
}

proof fn lemma_frames_push(
    frames: Seq<Seq<u8>>,
    max: nat,
    strings: Seq<Seq<u8>>,
    frame: Seq<u8>,
    more: Seq<Seq<u8>>,
)
    requires
        max > 0,
        full_frames(frames, max, strings),
        0 < more.len() <= max,
        is_frame_of(frame, prefixed_all(more)),
    ensures
        are_frames_of(frames.push(frame), max, strings + more),
        more.len() == max ==> full_frames(frames.push(frame), max, strings + more),
    decreases frames.len(),
{
    let pushed = frames.push(frame);
    let all = strings + more;
    if frames.len() == 0 {
        assert(all =~= more);
        assert(all.take(more.len() as int) =~= more);
        assert(all.skip(more.len() as int) =~= Seq::empty());
        assert(pushed.drop_first() =~= Seq::empty());
        assert(are_frames_of(pushed.drop_first(), max, all.skip(more.len() as int)));
        assert(frames.len() * max == 0) by (nonlinear_arith)
            requires
                frames.len() == 0,
        ;
    } else {
        assert(frames.len() * max == max + (frames.len() - 1) * max) by (nonlinear_arith);
        assert((frames.len() - 1) * max >= 0) by (nonlinear_arith)
            requires
                frames.len() >= 1,
        ;
        let rest = frames.drop_first();
        assert(are_frames_of(rest, max, strings.skip(max as int)));
        lemma_frames_push(rest, max, strings.skip(max as int), frame, more);
        assert(pushed.drop_first() =~= rest.push(frame));
        assert(all.skip(max as int) =~= strings.skip(max as int) + more);
        assert(all.take(max as int) =~= strings.take(max as int));
    }
    assert((frames.len() + 1) * max == frames.len() * max + max) by (nonlinear_arith);
}

/// The positions of `n` frames, from a position to the end of a file.
pub open spec fn zstd_walk(data: Seq<u8>, pos: nat, n: nat) -> Result<Seq<nat>, ZstdError>
    decreases n,
{
    if n == 0 {
        if pos == data.len() {
            Ok(Seq::empty())
        } else {
            Err(ZstdError::MoreFrames)
        }
    } else if pos >= data.len() {
        Err(ZstdError::FewerFrames)
    } else {
        match zstd_frame_size(data.skip(pos as int)) {
            None => Err(ZstdError::Decompression),
            Some(size) => match zstd_walk(data, pos + size as nat, (n - 1) as nat) {
                Err(e) => Err(e),
                Ok(rest) => Ok(seq![pos] + rest),
            },
        }
    }
}

/// The index of a file of `num_terms` strings.
pub open spec fn zstd_index(data: Seq<u8>, num_terms: nat, terms_per_frame: nat) -> Result<
    Seq<nat>,
    ZstdError,
> {
    let n = ceil_div(num_terms, terms_per_frame);
    if n + data.len() >= usize::MAX / 2 {
        Err(ZstdError::IndexTooLarge)
    } else {
        zstd_walk(data, 0, n)
    }
}

/// Builds the index of a file of `num_terms` strings: the positions of its frames.
pub fn index_zstd_file(data: &[u8], num_terms: usize, terms_per_frame: usize) -> (res: Result<
    MonotoneSeq,
    ZstdError,
>)
    requires
        terms_per_frame > 0,
    ensures
        match zstd_index(data@, num_terms as nat, terms_per_frame as nat) {
            Err(e) => res is Err && res->Err_0 == e,
            Ok(positions) => res matches Ok(index) && positions_view(
                crate::indexes::seq_values(index),
            ) == positions,
        },
{
    let num_frames: usize = crate::quads::div_ceil(num_terms, terms_per_frame);
    let len: usize = data.len();
    if num_frames as u128 + len as u128 >= (usize::MAX / 2) as u128 {
        return Err(ZstdError::IndexTooLarge);
    }
    let ghost walk = zstd_walk(data@, 0, num_frames as nat);
    let mut offsets: Vec<usize> = Vec::new();
    let mut offset: usize = 0;
    let mut frame_id: usize = 0;
    proof {
        match walk {
            Ok(all) => {
                assert(positions_view(offsets@) + all =~= all);
            },
            Err(e) => {},
        }
    }
    while frame_id < num_frames
        invariant
            frame_id <= num_frames,
            offset <= len == data@.len(),
            offsets@.len() == frame_id,
            forall|i: int| 0 <= i < offsets@.len() ==> offsets@[i] <= offset,
            forall|i: int, j: int| 0 <= i <= j < offsets@.len() ==> offsets@[i] <= offsets@[j],
            walk == (match zstd_walk(data@, offset as nat, (num_frames - frame_id) as nat) {
                Err(e) => Err::<Seq<nat>, ZstdError>(e),
                Ok(rest) => Ok(positions_view(offsets@) + rest),
            }),
            walk == zstd_walk(data@, 0, num_frames as nat),
            num_frames == ceil_div(num_terms as nat, terms_per_frame as nat),
            num_frames + len < usize::MAX / 2,
        decreases num_frames - frame_id,
    {
        if offset == len {
            return Err(ZstdError::FewerFrames);
        }
        let tail = vstd::slice::slice_subrange(data, offset, len);
        assert(tail@ =~= data@.skip(offset as int));
        let size: usize = match find_frame_size(tail) {
            None => {
                return Err(ZstdError::Decompression);
            },
            Some(size) => size,
        };
        let ghost before = offsets@;
        offsets.push(offset);
        proof {
            assert(positions_view(offsets@) =~= positions_view(before).push(offset as nat));
            match zstd_walk(data@, (offset + size) as nat, (num_frames - frame_id - 1) as nat) {
                Ok(rest) => {
                    assert(positions_view(before) + (seq![offset as nat] + rest)
                        =~= positions_view(offsets@) + rest);
                },
                Err(e) => {},
            }
        }
        offset = offset + size;
        frame_id = frame_id + 1;
    }
    if offset != len {
        return Err(ZstdError::MoreFrames);
    }
    assert(positions_view(offsets@) + Seq::<nat>::empty() =~= positions_view(offsets@));
    Ok(sequence_of(&offsets, len))
}

/// What is read of a file of sorted strings.
pub open spec fn zstd_strings(data: Seq<u8>) -> Result<Seq<Seq<u8>>, ZstdError> {
    match zstd_content(data) {
        None => Err(ZstdError::Decompression),
        Some(content) => {
            let (strings, error) = strings_from(content, 0);
            if !strings_increasing(strings) {
                Err(ZstdError::Unsorted)
            } else {
                match error {
                    Some(e) => Err(ZstdError::Strings(e)),
                    None => Ok(strings),
                }
            }
        },
    }
}

proof fn lemma_increasing_push(strings: Seq<Seq<u8>>, string: Seq<u8>)
    requires
        strings_increasing(strings),
        strings.len() > 0 ==> bytes_lt(strings.last(), string),
    ensures
        strings_increasing(strings.push(string)),
{
    let more = strings.push(string);
    assert forall|i: int, j: int| 0 <= i < j < more.len() implies bytes_lt(
        #[trigger] more[i],
        #[trigger] more[j],
    ) by {
        if j == strings.len() && i < strings.len() - 1 {
            assert(bytes_lt(strings[i], strings[strings.len() - 1]));
            lemma_bytes_asymmetric(strings[i], strings.last());
            lemma_bytes_asymmetric(strings.last(), string);
            lemma_bytes_transitive(strings[i], strings.last(), string);
        }
    }
}

/// Reads the strings of a file, which have to be in increasing order.
pub fn read_zstd_file(data: &[u8]) -> (res: Result<Vec<Vec<u8>>, ZstdError>)
    ensures
        match zstd_strings(data@) {
            Err(e) => res is Err && res->Err_0 == e,
            Ok(strings) => res matches Ok(v) && string_views(v@) == strings,
        },
{
    let content: Vec<u8> = match decompress_all(data) {
        None => {
            return Err(ZstdError::Decompression);
        },
        Some(content) => content,
    };
    let ghost all = strings_from(content@, 0);
    let mut strings: Vec<Vec<u8>> = Vec::new();
    let mut pos: usize = 0;
    proof {
        assert(string_views(strings@) + all.0 =~= all.0);
    }
    loop
        invariant
            zstd_content(data@) == Some(content@),
            all == strings_from(content@, 0),
            pos <= content@.len(),
            all == (
                string_views(strings@) + strings_from(content@, pos as nat).0,
                strings_from(content@, pos as nat).1,
            ),
            strings_increasing(string_views(strings@)),
        decreases content@.len() - pos,
    {
        let ghost rest = strings_from(content@, pos as nat);
        let ghost read = string_views(strings@);
        match read_length_prefixed_string(content.as_slice(), pos) {
            Err(e) => {
                assert(read + rest.0 =~= read);
                return Err(ZstdError::Strings(e));
            },
            Ok(None) => {
                assert(read + rest.0 =~= read);
                return Ok(strings);
            },
            Ok(Some((string, next))) => {
                let ghost after = strings_from(content@, next as nat);
                proof {
                    assert(read + (seq![string@] + after.0) =~= read.push(string@) + after.0);
                }
                if strings.len() > 0 && !string_lt(&strings[strings.len() - 1], &string) {
                    proof {
                        let n = strings@.len() as int;
                        assert(all.0[n - 1] == strings@[n - 1]@);
                        assert(all.0[n] == string@);
                    }
                    return Err(ZstdError::Unsorted);
                }
                proof {
                    if read.len() > 0 {
                        assert(read.last() == strings@[strings@.len() - 1]@);
                    }
                    lemma_increasing_push(read, string@);
                }
                let ghost view = string@;
                strings.push(string);
                assert(string_views(strings@) =~= read.push(view));
                pos = next;
            },
        }
    }
}

/// Sorted strings that were written to a file are read back.
pub proof fn lemma_zstd_round_trip(file: Seq<u8>, max: nat, strings: Seq<Seq<u8>>)
    requires
        is_zstd_file(file, max, strings),
        strings.len() > 0,
        strings_increasing(strings),
        forall|i: int| 0 <= i < strings.len() ==> (#[trigger] strings[i]).len() <= u32::MAX,
    ensures
        zstd_strings(file) == Ok::<Seq<Seq<u8>>, ZstdError>(strings),
{
    let frames = choose|frames: Seq<Seq<u8>>| #[trigger]
        joined_frames(frames) == file && are_frames_of(frames, max, strings);
    lemma_frames_content(frames, max, strings);
    lemma_strings_round_trip(strings);
}

/// The frames that were written to a file are found, one after the other.
pub proof fn lemma_zstd_index(file: Seq<u8>, max: nat, strings: Seq<Seq<u8>>)
    requires
        max > 0,
        is_zstd_file(file, max, strings),
    ensures
        zstd_walk(file, 0, ceil_div(strings.len(), max)) is Ok,
{
    let frames = choose|frames: Seq<Seq<u8>>| #[trigger]
        joined_frames(frames) == file && are_frames_of(frames, max, strings);
    lemma_num_frames(frames, max, strings);
    lemma_zstd_walk_from(Seq::empty(), frames, max, strings);
    assert(Seq::<u8>::empty() + joined_frames(frames) =~= joined_frames(frames));
}

proof fn lemma_num_frames(frames: Seq<Seq<u8>>, max: nat, strings: Seq<Seq<u8>>)
    requires
        max > 0,
        are_frames_of(frames, max, strings),
    ensures
        frames.len() == ceil_div(strings.len(), max),
    decreases frames.len(),
{
    if frames.len() == 0 {
        vstd::arithmetic::div_mod::lemma_fundamental_div_mod_converse(
            max - 1,
            max as int,
            0,
            max - 1,
        );
    } else {
        let n = if strings.len() < max {
            strings.len() as int
        } else {
            max as int
        };
        let rest = frames.drop_first();
        lemma_num_frames(rest, max, strings.skip(n));
        if strings.len() < max {
            assert(strings.skip(n).len() == 0);
            vstd::arithmetic::div_mod::lemma_fundamental_div_mod_converse(
                max - 1,
                max as int,
                0,
                max - 1,
            );
            vstd::arithmetic::div_mod::lemma_fundamental_div_mod_converse(
                strings.len() + max - 1,
                max as int,
                1,
                strings.len() - 1,
            );
        } else {
            let a = strings.len() - max + max - 1;
            vstd::arithmetic::div_mod::lemma_fundamental_div_mod(a, max as int);
            let q = a / (max as int);
            let r = a % (max as int);
            assert((q + 1) * max == max * q + max) by (nonlinear_arith);
            vstd::arithmetic::div_mod::lemma_fundamental_div_mod_converse(
                strings.len() + max - 1,
                max as int,
                q + 1,
                r,
            );
        }
    }
}

proof fn lemma_zstd_walk_from(
    before: Seq<u8>,
    frames: Seq<Seq<u8>>,
    max: nat,
    strings: Seq<Seq<u8>>,
)
    requires
        are_frames_of(frames, max, strings),
    ensures
        zstd_walk(before + joined_frames(frames), before.len(), frames.len()) is Ok,
    decreases frames.len(),
{
    let data = before + joined_frames(frames);
    if frames.len() > 0 {
        let n = if strings.len() < max {
            strings.len() as int
        } else {
            max as int
        };
        let rest = frames.drop_first();
        let tail = joined_frames(rest);
        lemma_zstd_walk_from(before + frames[0], rest, max, strings.skip(n));
        assert(data =~= (before + frames[0]) + tail);
        assert(data.skip(before.len() as int) =~= frames[0] + tail);
        assert(zstd_frame_size(frames[0] + tail)->Some_0 == frames[0].len());
    }
}

proof fn lemma_walk_positions(data: Seq<u8>, pos: nat, n: nat)
    requires
        zstd_walk(data, pos, n) is Ok,
    ensures
        ({
            let positions = zstd_walk(data, pos, n)->Ok_0;
            &&& positions.len() == n
            &&& n == 0 ==> pos == data.len()
            &&& n > 0 ==> positions[0] == pos
            &&& forall|i: int|
                0 <= i < n ==> (#[trigger] positions[i]) < data.len() && (zstd_frame_size(
                    data.skip(positions[i] as int),
                ) matches Some(size) && positions[i] + size == if i + 1 < n {
                    positions[i + 1]
                } else {
                    data.len()
                })
        }),
    decreases n,
{
    if n > 0 {
        let size = zstd_frame_size(data.skip(pos as int))->Some_0;
        let rest = zstd_walk(data, pos + size as nat, (n - 1) as nat)->Ok_0;
        let positions = zstd_walk(data, pos, n)->Ok_0;
        lemma_walk_positions(data, pos + size as nat, (n - 1) as nat);
        assert(positions == seq![pos] + rest);
        assert forall|i: int| 0 <= i < n implies (#[trigger] positions[i]) < data.len() && (
        zstd_frame_size(data.skip(positions[i] as int)) matches Some(size) && positions[i] + size
            == if i + 1 < n {
            positions[i + 1]
        } else {
            data.len()
        }) by {
            if i > 0 {
                assert(positions[i] == rest[i - 1]);
                if i + 1 < n {
                    assert(positions[i + 1] == rest[i]);
                }
            } else if n > 1 {
                assert(positions[1] == rest[0]);
            }
        }
    }
}

/// The index of a file lists the position of each of its frames: the first one is at the beginning,
/// each frame ends where the next one starts, and the last one ends where the file does.
pub proof fn lemma_zstd_positions(data: Seq<u8>, num_terms: nat, terms_per_frame: nat)
    requires
        zstd_index(data, num_terms, terms_per_frame) is Ok,
    ensures
        ({
            let positions = zstd_index(data, num_terms, terms_per_frame)->Ok_0;
            let n = ceil_div(num_terms, terms_per_frame);
            &&& positions.len() == n
            &&& n == 0 ==> data.len() == 0
            &&& n > 0 ==> positions[0] == 0
            &&& forall|i: int|
                0 <= i < n ==> (#[trigger] positions[i]) < data.len() && (zstd_frame_size(
                    data.skip(positions[i] as int),
                ) matches Some(size) && positions[i] + size == if i + 1 < n {
                    positions[i + 1]
                } else {
                    data.len()
                })
        }),
{
    lemma_walk_positions(data, 0, ceil_div(num_terms, terms_per_frame));
}

/// A file that was written can be indexed, unless its frames and bytes are half as many as a `usize`
/// can count.
pub proof fn lemma_zstd_indexable(file: Seq<u8>, max: nat, strings: Seq<Seq<u8>>)
    requires
        max > 0,
        is_zstd_file(file, max, strings),
        ceil_div(strings.len(), max) + file.len() < usize::MAX / 2,
    ensures
        zstd_index(file, strings.len(), max) is Ok,
{
    lemma_zstd_index(file, max, strings);
}

} // verus!
