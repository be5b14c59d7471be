//! Term stores: sorted lists of byte strings in files of frames, which give the string of an id.

use crate::dictionary::TermDictionary;
use crate::front_coding::{
    frame_end, frame_position, get_frame_end, get_from_frame, lemma_frame_strings, lemma_frames_end,
    lender_start, lender_strings, FrameError,
};
use crate::indexes::{positions_view, seq_get, seq_len, seq_values, sequence_of, MonotoneSeq};
use crate::strings::string_views;
use crate::terms::{dictionary_view, TermError};
use vstd::prelude::*;

verus! {

/// Why a term store could not be built or read.
#[derive(Clone, Copy, Debug, PartialEq, Eq, Structural)]
pub enum TermsError {
    /// A frame could not be written or read.
    Frame(FrameError),
    /// A file has fewer frames than expected.
    FewerFrames,
    /// A file has more frames than expected.
    MoreFrames,
    /// An index has too many entries, or too large ones.
    IndexTooLarge,
    /// There are not as many files as the number of terms calls for.
    WrongNumberOfFiles,
    /// An index has not as many frames as the number of terms calls for.
    WrongNumberOfFrames,
    /// There are not as many terms in the files as expected.
    WrongNumberOfTerms,
    /// A static function could not be built.
    StaticFunction,
    /// A term does not fit in the buffer in which terms are sorted.
    TermTooLong,
    /// A term could not be stored or read.
    Term(TermError),
}

/// How a term store is laid out.
#[derive(Clone, Debug, PartialEq, Eq)]
pub struct TermStoreConfiguration {
    /// The number of terms of each frame but the last one of a file.
    pub terms_per_frame: usize,
    /// The number of frames of each file but the last one.
    pub frames_per_file: usize,
    /// The number of terms.
    pub num_terms: usize,
    /// The name of the dictionary, if there is one.
    pub dictionary_filename: Option<String>,
}

impl TermStoreConfiguration {
    /// Frames and files hold terms, and their number in a file does not overflow.
    pub open spec fn well_formed(self) -> bool {
        &&& self.terms_per_frame > 0
        &&& self.frames_per_file > 0
        &&& self.terms_per_frame * self.frames_per_file <= usize::MAX
    }

    /// The number of terms of each file but the last one.
    pub open spec fn terms_per_file(self) -> nat {
        (self.terms_per_frame * self.frames_per_file) as nat
    }
}

/// `a / b`, rounded up.
pub open spec fn ceil_div(a: nat, b: nat) -> nat {
    (a + b - 1) as nat / b
}

/// The positions of the `n` frames from a position to the end of a file.
pub open spec fn walk_frames(data: Seq<u8>, max: nat, pos: nat, n: nat) -> Result<
    Seq<nat>,
    TermsError,
>
    decreases n,
{
    if n == 0 {
        if pos == data.len() {
            Ok(Seq::empty())
        } else {
            Err(TermsError::MoreFrames)
        }
    } else if pos >= data.len() {
        Err(TermsError::FewerFrames)
    } else {
        match frame_end(data, pos, max) {
            Err(e) => Err(TermsError::Frame(e)),
            Ok(end) => match walk_frames(data, max, end, (n - 1) as nat) {
                Err(e) => Err(e),
                Ok(rest) => Ok(seq![pos] + rest),
            },
        }
    }
}

proof fn lemma_walk_position(data: Seq<u8>, max: nat, n: nat, f: nat)
    requires
        f <= n,
        walk_frames(data, max, 0, n) is Ok,
    ensures
        frame_position(data, max, f) matches Ok(pos) && walk_frames(
            data,
            max,
            pos,
            (n - f) as nat,
        ) == Ok::<Seq<nat>, TermsError>(walk_frames(data, max, 0, n)->Ok_0.skip(f as int)),
        walk_frames(data, max, 0, n)->Ok_0.len() == n,
    decreases f,
{
    let all = walk_frames(data, max, 0, n)->Ok_0;
    if f == 0 {
        assert(all.skip(0) =~= all);
        lemma_walk_len(data, max, 0, n);
    } else {
        lemma_walk_position(data, max, n, (f - 1) as nat);
        let before = frame_position(data, max, (f - 1) as nat)->Ok_0;
        let m = (n - f + 1) as nat;
        let pos = frame_end(data, before, max)->Ok_0;
        let rest = walk_frames(data, max, pos, (m - 1) as nat)->Ok_0;
        assert(all.skip(f - 1) == seq![before] + rest);
        assert(all.skip(f as int) =~= rest) by {
            assert(all.skip(f as int) =~= all.skip(f - 1).skip(1));
            assert((seq![before] + rest).skip(1) =~= rest);
        }
    }
}

proof fn lemma_walk_len(data: Seq<u8>, max: nat, pos: nat, n: nat)
    ensures
        walk_frames(data, max, pos, n) matches Ok(all) ==> all.len() == n,
    decreases n,
{
    if n > 0 {
        match frame_end(data, pos, max) {
            Ok(end) => {
                lemma_walk_len(data, max, end, (n - 1) as nat);
            },
            Err(e) => {},
        }
    }
}

/// The positions found by walking over a file are those of its frames.
pub proof fn lemma_walk_frames(data: Seq<u8>, max: nat, n: nat, f: nat)
    requires
        f < n,
        walk_frames(data, max, 0, n) is Ok,
    ensures
        walk_frames(data, max, 0, n)->Ok_0.len() == n,
        frame_position(data, max, f) == Ok::<nat, FrameError>(
            walk_frames(data, max, 0, n)->Ok_0[f as int],
        ),
{
    lemma_walk_position(data, max, n, f);
    let all = walk_frames(data, max, 0, n)->Ok_0;
    let pos = frame_position(data, max, f)->Ok_0;
    assert(walk_frames(data, max, pos, (n - f) as nat)->Ok_0[0] == pos);
    assert(all.skip(f as int)[0] == all[f as int]);
}

proof fn lemma_valid_walk(data: Seq<u8>, max: nat, num_terms: nat, f: nat)
    requires
        max > 0,
        lender_strings(data, max, lender_start(max)).1 is None,
        lender_strings(data, max, lender_start(max)).0.len() == num_terms,
        f <= ceil_div(num_terms, max),
    ensures
        frame_position(data, max, f) matches Ok(pos) && walk_frames(
            data,
            max,
            pos,
            (ceil_div(num_terms, max) - f) as nat,
        ) is Ok,
    decreases ceil_div(num_terms, max) - f,
{
    let n = ceil_div(num_terms, max);
    lemma_ceil_div(num_terms, max);
    lemma_frames_end(data, max, f);
    if f == n {
        if f > 0 {
            assert((f - 1) * max < num_terms);
        }
    } else {
        assert(f * max < num_terms) by (nonlinear_arith)
            requires
                f <= n - 1,
                n >= 1 ==> (n - 1) * max < num_terms,
                max > 0,
                f < n,
        ;
        lemma_valid_walk(data, max, num_terms, f + 1);
    }
}

/// Rounding up gives the least number of groups that is enough.
pub proof fn lemma_ceil_div(a: nat, b: nat)
    requires
        b > 0,
    ensures
        ceil_div(a, b) * b >= a,
        ceil_div(a, b) > 0 ==> (ceil_div(a, b) - 1) * b < a,
        ceil_div(a, b) == 0 <==> a == 0,
{
    let q = ceil_div(a, b) as int;
    vstd::arithmetic::div_mod::lemma_fundamental_div_mod((a + b - 1) as int, b as int);
    assert(q * b >= a && (q - 1) * b < a) by (nonlinear_arith)
        requires
            a + b - 1 == b * q + (a + b - 1) % (b as int),
            0 <= (a + b - 1) % (b as int) < b,
    ;
    if q > 0 && a == 0 {
        assert((q - 1) * b >= 0) by (nonlinear_arith)
            requires
                q >= 1,
                b > 0,
        ;
    }
    if q == 0 {
        assert(q * b == 0) by (nonlinear_arith)
            requires
                q == 0,
        ;
    }
}

/// The frames of a file of `num_terms` strings are found, one after the other.
pub proof fn lemma_valid_file_is_indexed(data: Seq<u8>, max: nat, num_terms: nat)
    requires
        max > 0,
        lender_strings(data, max, lender_start(max)).1 is None,
        lender_strings(data, max, lender_start(max)).0.len() == num_terms,
    ensures
        walk_frames(data, max, 0, ceil_div(num_terms, max)) is Ok,
{
    lemma_valid_walk(data, max, num_terms, 0);
}

/// Builds the index of a file of `num_terms` strings: the positions of its frames.
#[verifier::rlimit(50)]
pub fn index_terms(frames: &[u8], num_terms: usize, terms_per_frame: usize) -> (res: Result<
    MonotoneSeq,
    TermsError,
>)
    requires
        terms_per_frame > 0,
    ensures
        ({
            let max = terms_per_frame as nat;
            let n = ceil_div(num_terms as nat, max);
            if n + frames@.len() >= usize::MAX / 2 {
                res is Err && res->Err_0 == TermsError::IndexTooLarge
            } else {
                match walk_frames(frames@, max, 0, n) {
                    Err(e) => res is Err && res->Err_0 == e,
                    Ok(positions) => res matches Ok(index) && positions_view(
                        crate::indexes::seq_values(index),
                    ) == positions,
                }
            }
        }),
{
    let num_frames: usize = crate::quads::div_ceil(num_terms, terms_per_frame);
    let len: usize = frames.len();
    if num_frames as u128 + len as u128 >= (usize::MAX / 2) as u128 {
        return Err(TermsError::IndexTooLarge);
    }
    let ghost max = terms_per_frame as nat;
    let ghost walk = walk_frames(frames@, max, 0, num_frames as nat);
    let mut offsets: Vec<usize> = Vec::new();
    let mut offset: usize = 0;
    let mut frame_id: usize = 0;
    proof {
        match walk {
            Ok(all) => {
                assert(positions_view(offsets@) + all =~= all);
            },
            Err(e) => {},
        }
    }
    while frame_id < num_frames
        invariant
            terms_per_frame > 0,
            max == terms_per_frame,
            frame_id <= num_frames,
            offset <= len == frames@.len(),
            offsets@.len() == frame_id,
            forall|i: int| 0 <= i < offsets@.len() ==> offsets@[i] <= offset,
            forall|i: int, j: int| 0 <= i <= j < offsets@.len() ==> offsets@[i] <= offsets@[j],
            walk == (match walk_frames(
                frames@,
                max,
                offset as nat,
                (num_frames - frame_id) as nat,
            ) {
                Err(e) => Err::<Seq<nat>, TermsError>(e),
                Ok(rest) => Ok(positions_view(offsets@) + rest),
            }),
            walk == walk_frames(frames@, max, 0, num_frames as nat),
            num_frames == ceil_div(num_terms as nat, max),
            num_frames + len < usize::MAX / 2,
        decreases num_frames - frame_id,
    {
        if offset == len {
            return Err(TermsError::FewerFrames);
        }
        let end: usize = match get_frame_end(frames, offset, terms_per_frame) {
            Err(e) => {
                return Err(TermsError::Frame(e));
            },
            Ok(end) => end,
        };
        let ghost before = offsets@;
        offsets.push(offset);
        proof {
            assert(positions_view(offsets@) =~= positions_view(before).push(offset as nat));
            match walk_frames(frames@, max, end as nat, (num_frames - frame_id - 1) as nat) {
                Ok(rest) => {
                    assert(positions_view(before) + (seq![offset as nat] + rest)
                        =~= positions_view(offsets@) + rest);
                },
                Err(e) => {},
            }
        }
        offset = end;
        frame_id = frame_id + 1;
    }
    if offset != len {
        return Err(TermsError::MoreFrames);
    }
    assert(positions_view(offsets@) + Seq::<nat>::empty() =~= positions_view(offsets@));
    Ok(sequence_of(&offsets, len))
}

/// The number of files of a store.
pub open spec fn num_files(config: TermStoreConfiguration) -> nat {
    ceil_div(config.num_terms as nat, config.terms_per_file())
}

/// Where the strings of a file end, among all those of a store.
pub open spec fn file_end(num_terms: nat, terms_per_file: nat, file_id: int) -> int {
    if (file_id + 1) * terms_per_file < num_terms {
        (file_id + 1) * terms_per_file
    } else {
        num_terms as int
    }
}

/// The number of strings of a file.
pub open spec fn file_num_terms(config: TermStoreConfiguration, file_id: int) -> int {
    file_end(config.num_terms as nat, config.terms_per_file(), file_id) - file_id
        * config.terms_per_file()
}

/// One of the files of a store.
pub struct TermsFile {
    /// The id of the first string of the file.
    pub first_term_id: usize,
    /// The number of strings of the file.
    pub num_terms: usize,
    /// The frames of the file.
    pub compressed_frames: Vec<u8>,
}

/// Every file but the last one has as many strings as a file can have, and the last one has some.
pub proof fn lemma_file_num_terms(config: TermStoreConfiguration, file_id: int)
    requires
        config.well_formed(),
        0 <= file_id < num_files(config),
    ensures
        0 <= file_id * config.terms_per_file() < config.num_terms,
        0 < file_num_terms(config, file_id) <= config.terms_per_file(),
        file_num_terms(config, file_id) == (if file_id < num_files(config) - 1 {
            config.terms_per_file() as int
        } else if config.num_terms as int % config.terms_per_file() as int == 0 {
            config.terms_per_file() as int
        } else {
            config.num_terms as int % config.terms_per_file() as int
        }),
{
    let t = config.terms_per_file() as int;
    let n = config.num_terms as int;
    let c = num_files(config) as int;
    assert(t > 0) by (nonlinear_arith)
        requires
            t == config.terms_per_frame * config.frames_per_file,
            config.terms_per_frame > 0,
            config.frames_per_file > 0,
    ;
    lemma_ceil_div(n as nat, t as nat);
    vstd::arithmetic::div_mod::lemma_fundamental_div_mod(n, t);
    let q = n / t;
    let r = n % t;
    assert((file_id + 1) * t == file_id * t + t) by (nonlinear_arith);
    assert(0 <= file_id * t <= (c - 1) * t) by (nonlinear_arith)
        requires
            0 <= file_id <= c - 1,
            t > 0,
    ;
    if file_id < c - 1 {
        assert((file_id + 1) * t <= (c - 1) * t) by (nonlinear_arith)
            requires
                file_id + 1 <= c - 1,
                t > 0,
        ;
    } else {
        assert(c * t == file_id * t + t);
        assert(n == t * q + r && 0 <= r < t);
        // n lies between (c - 1) * t, excluded, and c * t
        assert(r == 0 ==> q == c) by (nonlinear_arith)
            requires
                n == t * q + r,
                0 <= r < t,
                (c - 1) * t < n <= c * t,
        ;
        assert(r != 0 ==> q == c - 1) by (nonlinear_arith)
            requires
                n == t * q + r,
                0 <= r < t,
                (c - 1) * t < n <= c * t,
        ;
        assert(t * q == q * t) by (nonlinear_arith);
    }
}

/// Tells which strings each of the files of a store holds.
pub fn list_terms_files(config: &TermStoreConfiguration, files: Vec<Vec<u8>>) -> (res: Result<
    Vec<TermsFile>,
    TermsError,
>)
    requires
        config.well_formed(),
    ensures
        if files@.len() != num_files(*config) {
            res is Err && res->Err_0 == TermsError::WrongNumberOfFiles
        } else {
            res matches Ok(listed) && listed@.len() == files@.len() && forall|i: int|
                0 <= i < listed@.len() ==> (#[trigger] listed@[i]).first_term_id == i
                    * config.terms_per_file() && listed@[i].num_terms == file_num_terms(*config, i)
                    && listed@[i].compressed_frames == files@[i]
        },
{
    let terms_per_file: usize = config.terms_per_frame * config.frames_per_file;
    assert(terms_per_file > 0) by (nonlinear_arith)
        requires
            terms_per_file == config.terms_per_frame * config.frames_per_file,
            config.terms_per_frame > 0,
            config.frames_per_file > 0,
    ;
    let expected: usize = crate::quads::div_ceil(config.num_terms, terms_per_file);
    if files.len() != expected {
        return Err(TermsError::WrongNumberOfFiles);
    }
    let mut listed: Vec<TermsFile> = Vec::new();
    let mut file_id: usize = 0;
    for frames in it: files
        invariant
            config.well_formed(),
            it.seq() == files@,
            files@.len() == expected == num_files(*config),
            terms_per_file == config.terms_per_file(),
            terms_per_file > 0,
            file_id == it.index(),
            listed@.len() == file_id,
            forall|i: int|
                0 <= i < listed@.len() ==> (#[trigger] listed@[i]).first_term_id == i
                    * config.terms_per_file() && listed@[i].num_terms == file_num_terms(*config, i)
                    && listed@[i].compressed_frames == files@[i],
    {
        proof {
            lemma_file_num_terms(*config, file_id as int);
        }
        let num_terms: usize = if file_id == expected - 1 {
            let rest: usize = config.num_terms % terms_per_file;
            if rest == 0 {
                terms_per_file
            } else {
                rest
            }
        } else {
            terms_per_file
        };
        listed.push(
            TermsFile {
                first_term_id: file_id * terms_per_file,
                num_terms,
                compressed_frames: frames,
            },
        );
        file_id = file_id + 1;
    }
    Ok(listed)
}

/// One of the files of a store, and its index.
struct TermsPartition {
    first_term_id: usize,
    frames_index: MonotoneSeq,
    compressed_frames: Vec<u8>,
}

/// A term store: the strings of consecutive ids, in files of frames.
pub struct TermStore {
    config: TermStoreConfiguration,
    partitions: Vec<TermsPartition>,
    dictionary: Option<TermDictionary>,
}

/// The number of frames of a file of a store.
pub open spec fn num_frames(config: TermStoreConfiguration, file_id: int) -> nat {
    ceil_div(file_num_terms(config, file_id) as nat, config.terms_per_frame as nat)
}

/// The positions of each index.
pub open spec fn index_views(indexes: Seq<MonotoneSeq>) -> Seq<Seq<usize>> {
    indexes.map_values(|index: MonotoneSeq| seq_values(index))
}

/// Whether indexes hold the positions of the frames of files.
pub open spec fn are_indexed(
    config: TermStoreConfiguration,
    files: Seq<Seq<u8>>,
    indexes: Seq<Seq<usize>>,
) -> bool {
    &&& indexes.len() == files.len()
    &&& forall|i: int|
        0 <= i < files.len() ==> walk_frames(
            #[trigger] files[i],
            config.terms_per_frame as nat,
            0,
            num_frames(config, i),
        ) == Ok::<Seq<nat>, TermsError>(positions_view(indexes[i]))
}

/// A string of a frame, which is at the head of given bytes.
pub open spec fn string_in_frame(frame: Seq<u8>, max: nat, i: nat) -> Result<Seq<u8>, FrameError> {
    let (strings, error) = lender_strings(frame, max, lender_start(max));
    if i < strings.len() {
        Ok(strings[i as int])
    } else {
        match error {
            Some(e) => Err(e),
            None => Err(FrameError::TooFewStrings),
        }
    }
}

/// The string of an id, in files of frames.
pub open spec fn term_at(config: TermStoreConfiguration, files: Seq<Seq<u8>>, id: nat) -> Result<
    Option<Seq<u8>>,
    FrameError,
> {
    let max = config.terms_per_frame as nat;
    if id >= config.num_terms {
        Ok(None)
    } else {
        let data = files[(id / config.terms_per_file()) as int];
        match frame_position(data, max, (id % config.terms_per_file()) / max) {
            Err(e) => Err(e),
            Ok(pos) => {
                let (strings, error) = lender_strings(data.skip(pos as int), max, lender_start(max));
                if id % max < strings.len() {
                    Ok(Some(strings[(id % max) as int]))
                } else {
                    match error {
                        Some(e) => Err(e),
                        None => Err(FrameError::TooFewStrings),
                    }
                }
            },
        }
    }
}

/// The strings of a file, among all those of a store.
pub open spec fn file_strings(
    strings: Seq<Seq<u8>>,
    terms_per_file: nat,
    file_id: int,
) -> Seq<Seq<u8>> {
    strings.subrange(
        file_id * terms_per_file,
        file_end(strings.len(), terms_per_file, file_id),
    )
}

/// Whether files hold a list of strings.
pub open spec fn stores(
    config: TermStoreConfiguration,
    files: Seq<Seq<u8>>,
    strings: Seq<Seq<u8>>,
) -> bool {
    let max = config.terms_per_frame as nat;
    &&& strings.len() == config.num_terms
    &&& files.len() == num_files(config)
    &&& forall|i: int|
        0 <= i < files.len() ==> lender_strings(#[trigger] files[i], max, lender_start(max)) == (
            file_strings(strings, config.terms_per_file(), i),
            None::<FrameError>,
        )
}

/// Where a string is: in which file, frame and position in the frame.
proof fn lemma_place(config: TermStoreConfiguration, id: nat)
    requires
        config.well_formed(),
        id < config.num_terms,
    ensures
        config.terms_per_file() > 0,
        id / config.terms_per_file() < num_files(config),
        id == (id / config.terms_per_file()) * config.terms_per_file() + id
            % config.terms_per_file(),
        id % config.terms_per_file() < file_num_terms(
            config,
            (id / config.terms_per_file()) as int,
        ),
        id % config.terms_per_file() == ((id % config.terms_per_file())
            / config.terms_per_frame as nat) * config.terms_per_frame + id
            % config.terms_per_frame as nat,
        (id % config.terms_per_file()) / (config.terms_per_frame as nat) < ceil_div(
            file_num_terms(config, (id / config.terms_per_file()) as int) as nat,
            config.terms_per_frame as nat,
        ),
{
    let t = config.terms_per_file() as int;
    let m = config.terms_per_frame as int;
    let k = config.frames_per_file as int;
    let n = config.num_terms as int;
    assert(t > 0) by (nonlinear_arith)
        requires
            t == m * k,
            m > 0,
            k > 0,
    ;
    let p = id as int / t;
    let r = id as int % t;
    vstd::arithmetic::div_mod::lemma_fundamental_div_mod(id as int, t);
    assert(t * p == p * t) by (nonlinear_arith);
    lemma_ceil_div(n as nat, t as nat);
    let c = num_files(config) as int;
    assert(0 <= p < c) by (nonlinear_arith)
        requires
            id == p * t + r,
            0 <= r < t,
            0 <= id < n,
            n <= c * t,
    ;
    assert((p + 1) * t == p * t + t) by (nonlinear_arith);
    vstd::arithmetic::div_mod::lemma_fundamental_div_mod(r, m);
    let f = r / m;
    let o = r % m;
    assert(id == m * (k * p + f) + o) by (nonlinear_arith)
        requires
            id == p * t + r,
            t == m * k,
            r == m * f + o,
    ;
    vstd::arithmetic::div_mod::lemma_fundamental_div_mod_converse(id as int, m, k * p + f, o);
    assert(m * f == f * m) by (nonlinear_arith);
    let len = file_num_terms(config, p);
    lemma_file_num_terms(config, p);
    lemma_ceil_div(len as nat, m as nat);
    let frames = ceil_div(len as nat, m as nat) as int;
    assert(f < frames) by (nonlinear_arith)
        requires
            r == f * m + o,
            0 <= o,
            r < len <= frames * m,
            m > 0,
    ;
}

/// The string of an id is the one that was stored with it.
pub proof fn lemma_stored_term(
    config: TermStoreConfiguration,
    files: Seq<Seq<u8>>,
    strings: Seq<Seq<u8>>,
    id: nat,
)
    requires
        config.well_formed(),
        stores(config, files, strings),
    ensures
        term_at(config, files, id) == (if id < strings.len() {
            Ok::<Option<Seq<u8>>, FrameError>(Some(strings[id as int]))
        } else {
            Ok(None)
        }),
{
    if id < strings.len() {
        let t = config.terms_per_file();
        let m = config.terms_per_frame as nat;
        let p = (id / t) as int;
        lemma_place(config, id);
        lemma_file_num_terms(config, p);
        let data = files[p];
        let held = file_strings(strings, t, p);
        assert(lender_strings(data, m, lender_start(m)) == (held, None::<FrameError>));
        assert(held.len() == file_num_terms(config, p));
        let f = (id % t) / m;
        lemma_frame_strings(data, m, f, (id % m) as int);
        assert(held[(id % t) as int] == strings[p * t + (id % t) as int]);
    }
}

impl TermStore {
    /// How the store is laid out.
    pub closed spec fn config(self) -> TermStoreConfiguration {
        self.config
    }

    /// The files of the store.
    pub closed spec fn files(self) -> Seq<Seq<u8>> {
        Seq::new(self.partitions@.len(), |i: int| self.partitions@[i].compressed_frames@)
    }

    /// The dictionary that the terms are written with, if there is one.
    pub closed spec fn dictionary(self) -> Option<TermDictionary> {
        self.dictionary
    }

    /// The indexes of the files: the positions of their frames.
    pub closed spec fn indexes(self) -> Seq<Seq<usize>> {
        Seq::new(self.partitions@.len(), |i: int| seq_values(self.partitions@[i].frames_index))
    }

    /// There are as many files as needed, and their indexes have as many frames as needed.
    pub closed spec fn well_formed(self) -> bool {
        &&& self.config.well_formed()
        &&& self.dictionary matches Some(dictionary) ==> dictionary.well_formed()
        &&& self.partitions@.len() == num_files(self.config)
        &&& forall|i: int|
            0 <= i < self.partitions@.len() ==> (#[trigger] self.partitions@[i]).first_term_id == i
                * self.config.terms_per_file()
        &&& forall|i: int|
            0 <= i < self.partitions@.len() ==> seq_values(
                (#[trigger] self.partitions@[i]).frames_index,
            ).len() == num_frames(self.config, i)
    }

    /// Whether the indexes hold the positions of the frames of the files.
    pub open spec fn is_indexed(self) -> bool {
        are_indexed(self.config(), self.files(), self.indexes())
    }

    /// What is read of the string of an id, if there is one, in the frame that the index tells.
    pub open spec fn term(self, id: nat) -> Result<Option<Seq<u8>>, TermsError> {
        let max = self.config().terms_per_frame as nat;
        if id >= self.config().num_terms {
            Ok(None)
        } else {
            let file_id = (id / self.config().terms_per_file()) as int;
            let frame_id = ((id % self.config().terms_per_file()) / max) as int;
            let data = self.files()[file_id];
            let position = self.indexes()[file_id][frame_id];
            if position > data.len() {
                Err(TermsError::FewerFrames)
            } else {
                match string_in_frame(data.skip(position as int), max, id % max) {
                    Err(e) => Err(TermsError::Frame(e)),
                    Ok(string) => Ok(Some(string)),
                }
            }
        }
    }

    /// The string of an id is found in its file if the indexes are those of the files.
    pub proof fn lemma_indexed_term(self, id: nat)
        requires
            self.config().well_formed(),
            self.files().len() == num_files(self.config()),
            self.is_indexed(),
        ensures
            self.term(id) == (match term_at(self.config(), self.files(), id) {
                Err(e) => Err(TermsError::Frame(e)),
                Ok(string) => Ok(string),
            }),
    {
        if id < self.config().num_terms {
            let max = self.config().terms_per_frame as nat;
            let file_id = (id / self.config().terms_per_file()) as int;
            let frame_id = (id % self.config().terms_per_file()) / max;
            let n = num_frames(self.config(), file_id);
            lemma_place(self.config(), id);
            let data = self.files()[file_id];
            lemma_walk_frames(data, max, n, frame_id);
            lemma_walk_bound(data, max, n, frame_id);
            assert(positions_view(self.indexes()[file_id])[frame_id as int]
                == self.indexes()[file_id][frame_id as int]);
        }
    }

    /// The same store, whose terms are written with a dictionary.
    pub fn with_dictionary(self, dictionary: TermDictionary) -> (store: Self)
        requires
            self.well_formed(),
            dictionary.well_formed(),
        ensures
            store.well_formed(),
            store.config() == self.config(),
            store.files() == self.files(),
            store.indexes() == self.indexes(),
            store.dictionary() == Some(dictionary),
    {
        let store = TermStore { dictionary: Some(dictionary), ..self };
        assert(store.files() =~= self.files());
        assert(store.indexes() =~= self.indexes());
        store
    }

    /// The dictionary that the terms are written with, if there is one.
    pub fn get_dictionary(&self) -> (dictionary: Option<&TermDictionary>)
        requires
            self.well_formed(),
        ensures
            dictionary_view(dictionary) == self.dictionary(),
            dictionary matches Some(dictionary) ==> dictionary.well_formed(),
    {
        match &self.dictionary {
            None => None,
            Some(dictionary) => Some(dictionary),
        }
    }

    /// Opens a store, whose files are given in order, with their indexes. Nothing is read.
    pub fn mmap(
        config: TermStoreConfiguration,
        files: Vec<Vec<u8>>,
        indexes: Vec<MonotoneSeq>,
    ) -> (res: Result<Self, TermsError>)
        requires
            config.well_formed(),
            files@.len() == indexes@.len(),
        ensures
            if files@.len() != num_files(config) {
                res is Err && res->Err_0 == TermsError::WrongNumberOfFiles
            } else if exists|i: int|
                0 <= i < indexes@.len() && seq_values(#[trigger] indexes@[i]).len() != num_frames(
                    config,
                    i,
                ) {
                res is Err && res->Err_0 == TermsError::WrongNumberOfFrames
            } else {
                res matches Ok(store) && {
                    &&& store.well_formed()
                    &&& store.config() == config
                    &&& store.files() == string_views(files@)
                    &&& store.indexes() == index_views(indexes@)
                    &&& store.dictionary() is None
                }
            },
    {
        let ghost given = files@;
        let ghost given_indexes = indexes@;
        let mut rest = indexes;
        let listed: Vec<TermsFile> = list_terms_files(&config, files)?;
        let mut partitions: Vec<TermsPartition> = Vec::new();
        for file in it: listed
            invariant
                config.well_formed(),
                it.seq() == listed@,
                given == files@,
                given.len() == listed@.len() == num_files(config),
                given_indexes.len() == given.len(),
                given_indexes == indexes@,
                rest@ == given_indexes.skip(it.index() as int),
                partitions@.len() == it.index(),
                forall|i: int|
                    0 <= i < listed@.len() ==> (#[trigger] listed@[i]).first_term_id == i
                        * config.terms_per_file() && listed@[i].num_terms == file_num_terms(
                        config,
                        i,
                    ) && listed@[i].compressed_frames == given[i],
                forall|i: int|
                    0 <= i < partitions@.len() ==> (#[trigger] partitions@[i]).first_term_id == i
                        * config.terms_per_file() && partitions@[i].compressed_frames == given[i]
                        && partitions@[i].frames_index == given_indexes[i],
                forall|i: int|
                    0 <= i < partitions@.len() ==> seq_values(#[trigger] given_indexes[i]).len()
                        == num_frames(config, i),
        {
            let ghost i = it.index() as int;
            assert(file == listed@[i]);
            proof {
                lemma_file_num_terms(config, i);
            }
            let frames_index: MonotoneSeq = rest.remove(0);
            assert(rest@ =~= given_indexes.skip(i + 1));
            assert(frames_index == given_indexes[i]);
            let expected: usize = crate::quads::div_ceil(file.num_terms, config.terms_per_frame);
            if seq_len(&frames_index) != expected {
                assert(seq_values(given_indexes[i]).len() != num_frames(config, i));
                return Err(TermsError::WrongNumberOfFrames);
            }
            partitions.push(
                TermsPartition {
                    first_term_id: file.first_term_id,
                    frames_index,
                    compressed_frames: file.compressed_frames,
                },
            );
        }
        let store = TermStore { config, partitions, dictionary: None };
        proof {
            assert(store.files() =~= string_views(given));
            assert(store.indexes() =~= index_views(given_indexes));
            assert forall|i: int| 0 <= i < store.partitions@.len() implies seq_values(
                (#[trigger] store.partitions@[i]).frames_index,
            ).len() == num_frames(config, i) by {
                assert(store.partitions@[i].frames_index == given_indexes[i]);
            }
        }
        Ok(store)
    }

    /// The number of strings.
    pub fn len(&self) -> (len: usize)
        ensures
            len == self.config().num_terms,
    {
        self.config.num_terms
    }

    /// The bytes of a file, from the start of a frame on, which the index tells.
    fn get_frame(&self, partition_id: usize, frame_id: usize) -> (res: Result<&[u8], TermsError>)
        requires
            self.well_formed(),
            partition_id < self.files().len(),
            frame_id < num_frames(self.config(), partition_id as int),
        ensures
            ({
                let data = self.files()[partition_id as int];
                let position = self.indexes()[partition_id as int][frame_id as int];
                if position > data.len() {
                    res is Err && res->Err_0 == TermsError::FewerFrames
                } else {
                    res matches Ok(frame) && frame@ == data.skip(position as int)
                }
            }),
    {
        let partition = &self.partitions[partition_id];
        proof {
            assert(partition.compressed_frames@ == self.files()[partition_id as int]);
            assert(seq_values(partition.frames_index) == self.indexes()[partition_id as int]);
        }
        let position: usize = seq_get(&partition.frames_index, frame_id);
        let frames = partition.compressed_frames.as_slice();
        if position > frames.len() {
            return Err(TermsError::FewerFrames);
        }
        let frame = vstd::slice::slice_subrange(frames, position, frames.len());
        assert(frame@ =~= frames@.skip(position as int));
        Ok(frame)
    }

    /// The string of an id, if there is one.
    pub fn get(&self, id: usize) -> (res: Result<Option<Vec<u8>>, TermsError>)
        requires
            self.well_formed(),
        ensures
            match self.term(id as nat) {
                Err(e) => res is Err && res->Err_0 == e,
                Ok(None) => res matches Ok(None),
                Ok(Some(string)) => res matches Ok(Some(s)) && s@ == string,
            },
    {
        if id >= self.len() {
            return Ok(None);
        }
        proof {
            lemma_place(self.config, id as nat);
        }
        let terms_per_partition: usize = self.config.terms_per_frame * self.config.frames_per_file;
        let partition_id: usize = id / terms_per_partition;
        let frame_id: usize = (id % terms_per_partition) / self.config.terms_per_frame;
        let offset_in_frame: usize = id % self.config.terms_per_frame;
        let frame = self.get_frame(partition_id, frame_id)?;
        match get_from_frame(frame, self.config.terms_per_frame, offset_in_frame) {
            Err(e) => Err(TermsError::Frame(e)),
            Ok(string) => Ok(Some(string)),
        }
    }
}

/// Builds the indexes of the files of a store, which are given in order.
pub fn index_terms_files(config: &TermStoreConfiguration, files: &Vec<Vec<u8>>) -> (res: Result<
    Vec<MonotoneSeq>,
    TermsError,
>)
    requires
        config.well_formed(),
    ensures
        if files@.len() != num_files(*config) {
            res is Err && res->Err_0 == TermsError::WrongNumberOfFiles
        } else {
            match res {
                Ok(indexes) => {
                    &&& are_indexed(*config, string_views(files@), index_views(indexes@))
                    &&& forall|i: int|
                        0 <= i < indexes@.len() ==> seq_values(#[trigger] indexes@[i]).len()
                            == num_frames(*config, i)
                    &&& forall|i: int|
                        0 <= i < files@.len() ==> file_error(*config, #[trigger] files@[i]@, i)
                            is None
                },
                Err(e) => exists|i: int|
                    0 <= i < files@.len() && file_error(*config, #[trigger] files@[i]@, i)
                        == Some(e) && forall|j: int|
                        0 <= j < i ==> file_error(*config, #[trigger] files@[j]@, j) is None,
            }
        },
{
    let terms_per_file: usize = config.terms_per_frame * config.frames_per_file;
    assert(terms_per_file > 0) by (nonlinear_arith)
        requires
            terms_per_file == config.terms_per_frame * config.frames_per_file,
            config.terms_per_frame > 0,
            config.frames_per_file > 0,
    ;
    let expected: usize = crate::quads::div_ceil(config.num_terms, terms_per_file);
    if files.len() != expected {
        return Err(TermsError::WrongNumberOfFiles);
    }
    let mut indexes: Vec<MonotoneSeq> = Vec::new();
    let mut i: usize = 0;
    while i < files.len()
        invariant
            config.well_formed(),
            i <= files@.len() == num_files(*config),
            terms_per_file == config.terms_per_file(),
            terms_per_file > 0,
            indexes@.len() == i,
            forall|j: int|
                0 <= j < i ==> walk_frames(
                    (#[trigger] files@[j])@,
                    config.terms_per_frame as nat,
                    0,
                    num_frames(*config, j),
                ) == Ok::<Seq<nat>, TermsError>(positions_view(seq_values(indexes@[j]))),
            forall|j: int|
                0 <= j < i ==> file_error(*config, #[trigger] files@[j]@, j) is None,
        decreases files@.len() - i,
    {
        proof {
            lemma_file_num_terms(*config, i as int);
        }
        let first: usize = i * terms_per_file;
        let num_terms: usize = if config.num_terms - first < terms_per_file {
            config.num_terms - first
        } else {
            terms_per_file
        };
        proof {
            assert((i + 1) * terms_per_file == i * terms_per_file + terms_per_file)
                by (nonlinear_arith);
            assert(num_terms == file_num_terms(*config, i as int));
        }
        match index_terms(files[i].as_slice(), num_terms, config.terms_per_frame) {
            Err(e) => {
                assert(file_error(*config, files@[i as int]@, i as int) == Some(e));
                return Err(e);
            },
            Ok(index) => {
                let ghost before = indexes@;
                indexes.push(index);
                assert forall|j: int| 0 <= j < i + 1 implies walk_frames(
                    (#[trigger] files@[j])@,
                    config.terms_per_frame as nat,
                    0,
                    num_frames(*config, j),
                ) == Ok::<Seq<nat>, TermsError>(positions_view(seq_values(indexes@[j]))) by {
                    if j < i {
                        assert(indexes@[j] == before[j]);
                    }
                }
            },
        }
        i = i + 1;
    }
    proof {
        let views = string_views(files@);
        let positions = index_views(indexes@);
        assert forall|j: int| 0 <= j < views.len() implies walk_frames(
            #[trigger] views[j],
            config.terms_per_frame as nat,
            0,
            num_frames(*config, j),
        ) == Ok::<Seq<nat>, TermsError>(positions_view(positions[j])) by {
            assert(views[j] == files@[j]@);
            assert(positions[j] == seq_values(indexes@[j]));
        }
        assert forall|j: int| 0 <= j < indexes@.len() implies seq_values(
            #[trigger] indexes@[j],
        ).len() == num_frames(*config, j) by {
            lemma_walk_len(
                files@[j]@,
                config.terms_per_frame as nat,
                0,
                num_frames(*config, j),
            );
            assert(positions_view(seq_values(indexes@[j])).len() == seq_values(indexes@[j]).len());
        }
    }
    Ok(indexes)
}

/// Why a file of a store cannot be indexed, if so.
pub open spec fn file_error(
    config: TermStoreConfiguration,
    frames: Seq<u8>,
    file_id: int,
) -> Option<TermsError> {
    let max = config.terms_per_frame as nat;
    let n = ceil_div(file_num_terms(config, file_id) as nat, max);
    if n + frames.len() >= usize::MAX / 2 {
        Some(TermsError::IndexTooLarge)
    } else {
        match walk_frames(frames, max, 0, n) {
            Err(e) => Some(e),
            Ok(_) => None,
        }
    }
}

proof fn lemma_walk_bound(data: Seq<u8>, max: nat, n: nat, f: nat)
    requires
        f < n,
        walk_frames(data, max, 0, n) is Ok,
    ensures
        walk_frames(data, max, 0, n)->Ok_0[f as int] < data.len(),
{
    lemma_walk_position(data, max, n, f);
    let all = walk_frames(data, max, 0, n)->Ok_0;
    let pos = frame_position(data, max, f)->Ok_0;
    assert(walk_frames(data, max, pos, (n - f) as nat)->Ok_0[0] == pos);
    assert(all.skip(f as int)[0] == all[f as int]);
}

} // verus!
