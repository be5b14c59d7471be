//! Front-coded lists of byte strings.
//!
//! Each string is written as the number of bytes to drop from the end of the string before it, the
//! number of bytes to append, and these bytes. Strings are grouped in frames of a fixed number of
//! strings, and the first string of a frame is written as if it came after the empty string.

use crate::strings::string_views;
use vstd::prelude::*;

verus! {

/// The code of a number as a string of bytes of seven bits each, the least significant ones first,
/// in which all the bytes but the last one are at least 128.
pub open spec fn varint(n: nat) -> Seq<u8>
    decreases n,
{
    if n < 128 {
        seq![n as u8]
    } else {
        seq![(n % 128 + 128) as u8] + varint(n / 128)
    }
}

/// The number whose code starts at a position and has at most `max` bytes, and the length of the
/// code.
pub open spec fn varint_at(data: Seq<u8>, pos: nat, max: nat) -> Option<(nat, nat)>
    decreases max,
{
    if pos >= data.len() || max == 0 {
        None
    } else if data[pos as int] < 128 {
        Some((data[pos as int] as nat, 1))
    } else {
        match varint_at(data, pos + 1, (max - 1) as nat) {
            None => None,
            Some((n, len)) => Some(((data[pos as int] - 128 + 128 * n) as nat, len + 1)),
        }
    }
}

/// The number of 32 bits whose code starts at a position, and the length of the code.
pub open spec fn varint_u32_at(data: Seq<u8>, pos: nat) -> Option<(nat, nat)> {
    match varint_at(data, pos, 5) {
        None => None,
        Some((n, len)) => Some((n % 0x1_0000_0000, len)),
    }
}

/// `tiny_varint::encode` on `u32`, with a buffer of eight bytes, which is always enough: the code
/// of a number.
#[verifier::external_body]
pub(crate) fn encode_varint(n: u32) -> (code: Vec<u8>)
    ensures
        code@ == varint(n as nat),
{
    let mut buf = [0; 8];
    let len = tiny_varint::encode(n, &mut buf).unwrap();
    buf[..len].to_vec()
}

/// `tiny_varint::decode` on `u32`: the number whose code is at the head of the data, and the length
/// of the code, or `None` (an error of the outside crate) if the data end before the code does, or
/// the code has more than five bytes. The bits of the last byte that do not fit are lost.
#[verifier::external_body]
pub(crate) fn decode_varint(data: &[u8]) -> (res: Option<(u32, usize)>)
    ensures
        match varint_u32_at(data@, 0) {
            None => res is None,
            Some((n, len)) => res matches Some((m, k)) && m == n && k == len,
        },
{
    tiny_varint::decode::<u32>(data).ok()
}

/// A number of 32 bits is read back as it was written, whatever stands around its code.
pub proof fn lemma_varint_round_trip(before: Seq<u8>, n: nat, after: Seq<u8>)
    requires
        n <= u32::MAX,
    ensures
        varint_u32_at(before + varint(n) + after, before.len()) == Some((n, varint(n).len())),
        1 <= varint(n).len() <= 5,
{
    lemma_varint_at(before, n, after, 5);
}

proof fn lemma_varint_at(before: Seq<u8>, n: nat, after: Seq<u8>, max: nat)
    requires
        max <= 5,
        max == 5 ==> n <= u32::MAX,
        max == 4 ==> n < 0x1000_0000,
        max == 3 ==> n < 0x20_0000,
        max == 2 ==> n < 0x4000,
        max == 1 ==> n < 0x80,
        max > 0,
    ensures
        varint_at(before + varint(n) + after, before.len(), max) == Some((n, varint(n).len())),
        1 <= varint(n).len() <= max,
    decreases max,
{
    let data = before + varint(n) + after;
    let pos = before.len() as int;
    if n < 128 {
        assert(data[pos] == n as u8);
    } else {
        let first = (n % 128 + 128) as u8;
        assert(varint(n) == seq![first] + varint(n / 128));
        assert(data[pos] == first);
        lemma_varint_at(before.push(first), n / 128, after, (max - 1) as nat);
        assert(before.push(first) + varint(n / 128) + after =~= data);
    }
}

/// Whether reading a code depends on nothing before it.
proof fn lemma_varint_at_skip(data: Seq<u8>, pos: nat, max: nat, start: nat)
    requires
        start <= pos,
        start <= data.len(),
    ensures
        varint_at(data.skip(start as int), (pos - start) as nat, max) == varint_at(data, pos, max),
    decreases max,
{
    if pos < data.len() && max > 0 {
        assert(data.skip(start as int)[pos - start] == data[pos as int]);
        lemma_varint_at_skip(data, pos + 1, (max - 1) as nat, start);
    }
}

proof fn lemma_varint_at_len(data: Seq<u8>, pos: nat, max: nat)
    ensures
        varint_at(data, pos, max) matches Some((n, len)) ==> 1 <= len && pos + len <= data.len(),
    decreases max,
{
    if pos < data.len() && max > 0 {
        lemma_varint_at_len(data, pos + 1, (max - 1) as nat);
    }
}

/// Reads the number whose code is at a position, and gives the position after it.
fn read_varint(data: &[u8], pos: usize) -> (res: Option<(u32, usize)>)
    requires
        pos <= data@.len(),
    ensures
        match varint_u32_at(data@, pos as nat) {
            None => res is None,
            Some((n, len)) => res matches Some((m, next)) && m == n && next == pos + len && next
                <= data@.len(),
        },
{
    proof {
        lemma_varint_at_skip(data@, pos as nat, 5, pos as nat);
        lemma_varint_at_len(data@, pos as nat, 5);
        assert(data@.subrange(pos as int, data@.len() as int) =~= data@.skip(pos as int));
    }
    match decode_varint(vstd::slice::slice_subrange(data, pos, data.len())) {
        None => None,
        Some((n, len)) => Some((n, pos + len)),
    }
}

/// The length of the longest common prefix of two strings.
pub open spec fn common_prefix(a: Seq<u8>, b: Seq<u8>) -> nat
    decreases a.len(),
{
    if a.len() == 0 || b.len() == 0 || a[0] != b[0] {
        0
    } else {
        1 + common_prefix(a.drop_first(), b.drop_first())
    }
}

/// The code of a string that comes after another one.
pub open spec fn front_code(prev: Seq<u8>, string: Seq<u8>) -> Seq<u8> {
    let shared = common_prefix(prev, string);
    varint((prev.len() - shared) as nat) + varint((string.len() - shared) as nat) + string.skip(
        shared as int,
    )
}

/// Whether the numbers in the code of a string have 32 bits.
pub open spec fn front_codable(prev: Seq<u8>, string: Seq<u8>) -> bool {
    let shared = common_prefix(prev, string);
    prev.len() - shared <= u32::MAX && string.len() - shared <= u32::MAX
}

/// The code of a list of strings that come after another one, up to the first one that cannot be
/// coded.
pub open spec fn frame_code(prev: Seq<u8>, strings: Seq<Seq<u8>>) -> Result<Seq<u8>, FrameError>
    decreases strings.len(),
{
    if strings.len() == 0 {
        Ok(Seq::empty())
    } else if !front_codable(prev, strings[0]) {
        Err(FrameError::StringTooLong)
    } else {
        match frame_code(strings[0], strings.drop_first()) {
            Err(e) => Err(e),
            Ok(rest) => Ok(front_code(prev, strings[0]) + rest),
        }
    }
}

/// Why a frame could not be written or read.
#[derive(Clone, Copy, Debug, PartialEq, Eq, Structural)]
pub enum FrameError {
    /// A string is 2^32 bytes or longer.
    StringTooLong,
    /// A number could not be decoded.
    InvalidNumber,
    /// More bytes are to be dropped than the string before has.
    DropsTooMuch,
    /// There are fewer bytes left than are to be appended.
    Truncated,
    /// An earlier string could not be decoded.
    AlreadyFailed,
    /// A frame has fewer strings than expected.
    TooFewStrings,
}

pub proof fn lemma_common_prefix(a: Seq<u8>, b: Seq<u8>)
    ensures
        common_prefix(a, b) <= a.len(),
        common_prefix(a, b) <= b.len(),
        a.take(common_prefix(a, b) as int) == b.take(common_prefix(a, b) as int),
    decreases a.len(),
{
    if a.len() > 0 && b.len() > 0 && a[0] == b[0] {
        lemma_common_prefix(a.drop_first(), b.drop_first());
        let n = common_prefix(a, b) as int;
        assert forall|i: int| 0 <= i < n implies a.take(n)[i] == b.take(n)[i] by {
            if i > 0 {
                assert(a.drop_first().take(n - 1)[i - 1] == b.drop_first().take(n - 1)[i - 1]);
            }
        }
        assert(a.take(n) =~= b.take(n));
    } else {
        assert(a.take(0) =~= b.take(0));
    }
}

fn common_prefix_len(a: &[u8], b: &[u8]) -> (len: usize)
    ensures
        len == common_prefix(a@, b@),
{
    let mut i: usize = 0;
    assert(a@.skip(0) =~= a@ && b@.skip(0) =~= b@);
    while i < a.len() && i < b.len()
        invariant
            i <= a@.len(),
            i <= b@.len(),
            common_prefix(a@, b@) == i + common_prefix(a@.skip(i as int), b@.skip(i as int)),
        decreases a@.len() - i,
    {
        assert(a@.skip(i as int)[0] == a@[i as int] && b@.skip(i as int)[0] == b@[i as int]);
        if a[i] != b[i] {
            return i;
        }
        assert(a@.skip(i as int).drop_first() =~= a@.skip(i + 1));
        assert(b@.skip(i as int).drop_first() =~= b@.skip(i + 1));
        i = i + 1;
    }
    i
}

/// Appends a frame of strings, and gives their number.
#[verifier::rlimit(50)]
pub fn write_frame(out: &mut Vec<u8>, strings: &[Vec<u8>]) -> (res: Result<usize, FrameError>)
    ensures
        match frame_code(Seq::empty(), string_views(strings@)) {
            Err(e) => res is Err && res->Err_0 == e,
            Ok(code) => res matches Ok(n) && n == strings@.len() && final(out)@ == old(out)@ + code,
        },
{
    let ghost all = string_views(strings@);
    let ghost whole = frame_code(Seq::empty(), all);
    let ghost mut prev: Seq<u8> = Seq::empty();
    let ghost start = out@;
    let mut i: usize = 0;
    proof {
        assert(all.skip(0) =~= all);
        match whole {
            Ok(code) => {
                assert(start + code =~= out@ + code);
            },
            Err(e) => {},
        }
    }
    while i < strings.len()
        invariant
            i <= strings@.len(),
            all == string_views(strings@),
            start == old(out)@,
            whole == frame_code(Seq::empty(), all),
            prev == (if i == 0 {
                Seq::<u8>::empty()
            } else {
                all[i - 1]
            }),
            match (whole, frame_code(prev, all.skip(i as int))) {
                (Err(e), Err(f)) => e == f,
                (Ok(code), Ok(rest)) => start + code == out@ + rest,
                _ => false,
            },
        decreases strings@.len() - i,
    {
        proof {
            assert(all.skip(i as int)[0] == strings@[i as int]@);
            assert(all.skip(i as int).drop_first() =~= all.skip(i + 1));
            lemma_common_prefix(prev, strings@[i as int]@);
        }
        let ghost string = strings@[i as int]@;
        let ghost before = out@;
        let len: usize = strings[i].len();
        let mut shared: usize = 0;
        let mut prev_len: usize = 0;
        if i > 0 {
            assert(prev == strings@[i - 1]@);
            shared = common_prefix_len(strings[i - 1].as_slice(), strings[i].as_slice());
            prev_len = strings[i - 1].len();
        }
        if (prev_len - shared) as u64 > u32::MAX as u64 {
            return Err(FrameError::StringTooLong);
        }
        if (len - shared) as u64 > u32::MAX as u64 {
            return Err(FrameError::StringTooLong);
        }
        let mut dropped: Vec<u8> = encode_varint((prev_len - shared) as u32);
        let mut appended: Vec<u8> = encode_varint((len - shared) as u32);
        out.append(&mut dropped);
        out.append(&mut appended);
        out.extend_from_slice(vstd::slice::slice_subrange(strings[i].as_slice(), shared, len));
        proof {
            assert(string.subrange(shared as int, len as int) =~= string.skip(shared as int));
            assert(out@ =~= before + front_code(prev, string));
            match frame_code(string, all.skip(i + 1)) {
                Ok(rest) => {
                    assert(before + (front_code(prev, string) + rest) =~= out@ + rest);
                },
                Err(e) => {},
            }
            prev = string;
        }
        i = i + 1;
    }
    proof {
        assert(all.skip(i as int) =~= Seq::empty());
        assert(out@ + Seq::<u8>::empty() =~= out@);
        assert(whole is Ok);
    }
    Ok(strings.len())
}

/// Where a reader of front-coded strings stands.
pub struct LenderState {
    /// The position of the next code.
    pub pos: nat,
    /// The string read last.
    pub prev: Seq<u8>,
    /// The number of strings that the current frame still has.
    pub remaining: nat,
    /// Whether a string could not be decoded.
    pub failed: bool,
}

/// What comes next in a list of front-coded strings.
pub enum LenderStep {
    /// The end of the list.
    End,
    /// A string, and where the reader then stands.
    Item(Seq<u8>, LenderState),
    /// An error, and where the reader then stands.
    Fail(FrameError, LenderState),
}

/// Where a reader of frames of `max` strings starts.
pub open spec fn lender_start(max: nat) -> LenderState {
    LenderState { pos: 0, prev: Seq::empty(), remaining: max, failed: false }
}

/// What a reader of frames of `max` strings reads next.
pub open spec fn lender_step(data: Seq<u8>, max: nat, state: LenderState) -> LenderStep {
    if state.pos >= data.len() {
        LenderStep::End
    } else if state.failed {
        LenderStep::Fail(FrameError::AlreadyFailed, state)
    } else {
        let prev = if state.remaining == 0 {
            Seq::empty()
        } else {
            state.prev
        };
        let remaining = (if state.remaining == 0 {
            max - 1
        } else {
            state.remaining - 1
        }) as nat;
        match varint_u32_at(data, state.pos) {
            None => LenderStep::Fail(
                FrameError::InvalidNumber,
                LenderState { pos: state.pos, prev, remaining, failed: true },
            ),
            Some((dropped, len1)) => {
                let pos1 = state.pos + len1;
                match varint_u32_at(data, pos1) {
                    None => LenderStep::Fail(
                        FrameError::InvalidNumber,
                        LenderState { pos: pos1, prev, remaining, failed: true },
                    ),
                    Some((appended, len2)) => {
                        let pos2 = pos1 + len2;
                        if dropped > prev.len() {
                            LenderStep::Fail(
                                FrameError::DropsTooMuch,
                                LenderState { pos: pos2, prev, remaining, failed: true },
                            )
                        } else if pos2 + appended > data.len() {
                            LenderStep::Fail(
                                FrameError::Truncated,
                                LenderState { pos: pos2, prev, remaining, failed: true },
                            )
                        } else {
                            let string = prev.take(prev.len() - dropped) + data.subrange(
                                pos2 as int,
                                (pos2 + appended) as int,
                            );
                            LenderStep::Item(
                                string,
                                LenderState {
                                    pos: pos2 + appended,
                                    prev: string,
                                    remaining,
                                    failed: false,
                                },
                            )
                        }
                    },
                }
            },
        }
    }
}

/// Each string that is read moves the reader forward, within the list.
pub proof fn lemma_lender_step_advances(data: Seq<u8>, max: nat, state: LenderState)
    ensures
        lender_step(data, max, state) matches LenderStep::Item(string, next) ==> state.pos
            < next.pos <= data.len(),
        lender_step(data, max, state) matches LenderStep::Fail(error, next) ==> state.pos
            <= next.pos <= data.len() && next.failed,
{
    if state.pos < data.len() {
        lemma_varint_at_len(data, state.pos, 5);
        match varint_u32_at(data, state.pos) {
            Some((dropped, len1)) => {
                lemma_varint_at_len(data, state.pos + len1, 5);
            },
            None => {},
        }
    }
}

/// The strings that a reader reads, up to the first error, and that error.
pub open spec fn lender_strings(data: Seq<u8>, max: nat, state: LenderState) -> (
    Seq<Seq<u8>>,
    Option<FrameError>,
)
    decreases data.len() - state.pos,
{
    match lender_step(data, max, state) {
        LenderStep::End => (Seq::empty(), None),
        LenderStep::Fail(e, _) => (Seq::empty(), Some(e)),
        LenderStep::Item(string, next) => {
            proof {
                lemma_lender_step_advances(data, max, state);
            }
            let (strings, error) = lender_strings(data, max, next);
            (seq![string] + strings, error)
        },
    }
}

/// Reads the strings of frames one by one.
pub struct FrameLender<'frame> {
    data: &'frame [u8],
    pos: usize,
    previous_string: Vec<u8>,
    failed: bool,
    max_strings_per_frame: usize,
    remaining_strings_in_frame: usize,
}

impl<'frame> FrameLender<'frame> {
    /// A reader stands within its frames, which hold at least one string each.
    pub closed spec fn well_formed(self) -> bool {
        &&& self.pos <= self.data@.len()
        &&& self.max_strings_per_frame > 0
    }

    /// The bytes of the frames.
    pub closed spec fn data(self) -> Seq<u8> {
        self.data@
    }

    /// The number of strings of each frame but the last one.
    pub closed spec fn max(self) -> nat {
        self.max_strings_per_frame as nat
    }

    /// Where the reader stands.
    pub closed spec fn state(self) -> LenderState {
        LenderState {
            pos: self.pos as nat,
            prev: self.previous_string@,
            remaining: self.remaining_strings_in_frame as nat,
            failed: self.failed,
        }
    }

    /// A reader of frames with a number of strings each.
    pub fn new(frame: &'frame [u8], max_strings_per_frame: usize) -> (lender: Self)
        requires
            max_strings_per_frame > 0,
        ensures
            lender.well_formed(),
            lender.data() == frame@,
            lender.max() == max_strings_per_frame,
            lender.state() == lender_start(max_strings_per_frame as nat),
    {
        let lender = FrameLender {
            data: frame,
            pos: 0,
            previous_string: Vec::new(),
            failed: false,
            max_strings_per_frame,
            remaining_strings_in_frame: max_strings_per_frame,
        };
        assert(lender.state().prev =~= Seq::empty());
        lender
    }

    /// Reads the next string.
    pub fn next(&mut self) -> (res: Result<Option<Vec<u8>>, FrameError>)
        requires
            old(self).well_formed(),
        ensures
            final(self).well_formed(),
            final(self).data() == old(self).data(),
            final(self).max() == old(self).max(),
            match lender_step(old(self).data(), old(self).max(), old(self).state()) {
                LenderStep::End => (res matches Ok(None)) && final(self).state() == old(
                    self).state(),
                LenderStep::Fail(e, state) => res is Err && res->Err_0 == e && final(self).state()
                    == state,
                LenderStep::Item(string, state) => (res matches Ok(Some(s)) && s@ == string)
                    && final(self).state() == state,
            },
    {
        if self.pos == self.data.len() {
            return Ok(None);
        }
        if self.failed {
            return Err(FrameError::AlreadyFailed);
        }
        if self.remaining_strings_in_frame == 0 {
            self.previous_string = Vec::new();
            assert(self.previous_string@ =~= Seq::empty());
            self.remaining_strings_in_frame = self.max_strings_per_frame;
        }
        self.remaining_strings_in_frame = self.remaining_strings_in_frame - 1;
        let data: &'frame [u8] = self.data;
        let dropped: usize = match read_varint(data, self.pos) {
            None => {
                self.failed = true;
                return Err(FrameError::InvalidNumber);
            },
            Some((n, next)) => {
                self.pos = next;
                n as usize
            },
        };
        let appended: usize = match read_varint(data, self.pos) {
            None => {
                self.failed = true;
                return Err(FrameError::InvalidNumber);
            },
            Some((n, next)) => {
                self.pos = next;
                n as usize
            },
        };
        let len: usize = self.previous_string.len();
        if dropped > len {
            self.failed = true;
            return Err(FrameError::DropsTooMuch);
        }
        if appended > data.len() - self.pos {
            self.failed = true;
            return Err(FrameError::Truncated);
        }
        let ghost prev = self.previous_string@;
        let end: usize = self.pos + appended;
        self.previous_string.truncate(len - dropped);
        let ghost kept = self.previous_string@;
        assert(kept =~= prev.take(len - dropped));
        self.previous_string.extend_from_slice(
            vstd::slice::slice_subrange(data, self.pos, end),
        );
        assert(self.previous_string@ =~= kept + data@.subrange(self.pos as int, end as int));
        self.pos = end;
        Ok(Some(vstd::slice::slice_to_vec(self.previous_string.as_slice())))
    }

    /// Goes back to the first string.
    pub fn rewind(&mut self)
        requires
            old(self).well_formed(),
        ensures
            final(self).well_formed(),
            final(self).data() == old(self).data(),
            final(self).max() == old(self).max(),
            final(self).state() == lender_start(old(self).max()),
    {
        self.pos = 0;
        self.failed = false;
        self.previous_string = Vec::new();
        assert(self.previous_string@ =~= Seq::empty());
        self.remaining_strings_in_frame = self.max_strings_per_frame;
    }
}

/// The string at an index of a frame.
pub fn get_from_frame(frame: &[u8], terms_per_frame: usize, position: usize) -> (res: Result<
    Vec<u8>,
    FrameError,
>)
    requires
        terms_per_frame > 0,
    ensures
        ({
            let (strings, error) = lender_strings(
                frame@,
                terms_per_frame as nat,
                lender_start(terms_per_frame as nat),
            );
            if position < strings.len() {
                res matches Ok(s) && s@ == strings[position as int]
            } else {
                match error {
                    None => res is Err && res->Err_0 == FrameError::TooFewStrings,
                    Some(e) => res is Err && res->Err_0 == e,
                }
            }
        }),
{
    let mut lender = FrameLender::new(frame, terms_per_frame);
    let ghost max = terms_per_frame as nat;
    let ghost all = lender_strings(frame@, max, lender_start(max));
    let mut i: usize = 0;
    assert(all.0.skip(0) =~= all.0);
    loop
        invariant
            lender.well_formed(),
            lender.data() == frame@,
            lender.max() == max,
            max == terms_per_frame,
            all == lender_strings(frame@, max, lender_start(max)),
            i <= position,
            i <= all.0.len(),
            lender_strings(frame@, max, lender.state()) == (all.0.skip(i as int), all.1),
        decreases position - i,
    {
        let ghost before = lender.state();
        match lender.next() {
            Err(e) => {
                assert(all.0.skip(i as int).len() == 0);
                return Err(e);
            },
            Ok(None) => {
                assert(all.0.skip(i as int).len() == 0);
                return Err(FrameError::TooFewStrings);
            },
            Ok(Some(string)) => {
                proof {
                    assert(lender_strings(frame@, max, before).0.len() > 0);
                    assert(all.0.skip(i as int)[0] == string@);
                    assert(all.0.skip(i as int)[0] == all.0[i as int]);
                    assert(lender_strings(frame@, max, lender.state()).0 =~= all.0.skip(
                        i as int,
                    ).drop_first());
                    assert(all.0.skip(i as int).drop_first() =~= all.0.skip(i + 1));
                }
                if i == position {
                    return Ok(string);
                }
                i = i + 1;
            },
        }
    }
}

/// The position after `n` strings, or after the last one if there are fewer.
pub open spec fn frame_end(data: Seq<u8>, pos: nat, n: nat) -> Result<nat, FrameError>
    decreases n,
{
    if n == 0 || pos >= data.len() {
        Ok(pos)
    } else {
        match varint_u32_at(data, pos) {
            None => Err(FrameError::InvalidNumber),
            Some((_, len1)) => match varint_u32_at(data, pos + len1) {
                None => Err(FrameError::InvalidNumber),
                Some((appended, len2)) => if pos + len1 + len2 + appended > data.len() {
                    Err(FrameError::Truncated)
                } else {
                    frame_end(data, pos + len1 + len2 + appended, (n - 1) as nat)
                },
            },
        }
    }
}

/// The position after the frame of at most `max_num_strings` strings that starts at a position.
pub fn get_frame_end(data: &[u8], start: usize, max_num_strings: usize) -> (res: Result<
    usize,
    FrameError,
>)
    requires
        start <= data@.len(),
    ensures
        match frame_end(data@, start as nat, max_num_strings as nat) {
            Err(e) => res is Err && res->Err_0 == e,
            Ok(end) => res matches Ok(pos) && pos == end && start <= pos <= data@.len(),
        },
{
    let mut pos: usize = start;
    let mut i: usize = 0;
    while i < max_num_strings
        invariant
            start <= pos <= data@.len(),
            i <= max_num_strings,
            frame_end(data@, start as nat, max_num_strings as nat) == frame_end(
                data@,
                pos as nat,
                (max_num_strings - i) as nat,
            ),
        decreases max_num_strings - i,
    {
        if pos == data.len() {
            return Ok(pos);
        }
        let (_dropped, next): (u32, usize) = match read_varint(data, pos) {
            None => {
                return Err(FrameError::InvalidNumber);
            },
            Some(r) => r,
        };
        let (appended, next): (u32, usize) = match read_varint(data, next) {
            None => {
                return Err(FrameError::InvalidNumber);
            },
            Some(r) => r,
        };
        if appended as usize > data.len() - next {
            return Err(FrameError::Truncated);
        }
        pos = next + appended as usize;
        i = i + 1;
    }
    Ok(pos)
}

/// The number of bytes of a frame of at most `max_num_strings` strings.
pub fn get_frame_size(frame: &[u8], max_num_strings: usize) -> (res: Result<usize, FrameError>)
    ensures
        match frame_end(frame@, 0, max_num_strings as nat) {
            Err(e) => res is Err && res->Err_0 == e,
            Ok(end) => res matches Ok(size) && size == end,
        },
{
    get_frame_end(frame, 0, max_num_strings)
}

/// The code of a list of strings in frames of `max` strings.
pub open spec fn frames_code(max: nat, strings: Seq<Seq<u8>>) -> Result<Seq<u8>, FrameError>
    decreases strings.len(),
{
    if strings.len() == 0 || max == 0 {
        Ok(Seq::empty())
    } else {
        let n = if strings.len() < max {
            strings.len() as int
        } else {
            max as int
        };
        match frame_code(Seq::empty(), strings.take(n)) {
            Err(e) => Err(e),
            Ok(code) => match frames_code(max, strings.skip(n)) {
                Err(e) => Err(e),
                Ok(rest) => Ok(code + rest),
            },
        }
    }
}

proof fn lemma_front_code_read(
    before: Seq<u8>,
    max: nat,
    prev: Seq<u8>,
    remaining: nat,
    string: Seq<u8>,
    after: Seq<u8>,
)
    requires
        front_codable(prev, string),
        remaining > 0,
    ensures
        lender_step(
            before + front_code(prev, string) + after,
            max,
            (LenderState { pos: before.len(), prev, remaining, failed: false }),
        ) == LenderStep::Item(
            string,
            (LenderState {
                pos: before.len() + front_code(prev, string).len(),
                prev: string,
                remaining: (remaining - 1) as nat,
                failed: false,
            }),
        ),
{
    let shared = common_prefix(prev, string) as int;
    lemma_common_prefix(prev, string);
    let dropped = (prev.len() - shared) as nat;
    let appended = (string.len() - shared) as nat;
    let c1 = varint(dropped);
    let c2 = varint(appended);
    let tail = string.skip(shared);
    let data = before + front_code(prev, string) + after;
    assert(data =~= before + c1 + (c2 + tail + after));
    assert(data =~= (before + c1) + c2 + (tail + after));
    lemma_varint_round_trip(before, dropped, c2 + tail + after);
    lemma_varint_round_trip(before + c1, appended, tail + after);
    let pos2 = (before.len() + c1.len() + c2.len()) as int;
    assert(data.subrange(pos2, pos2 + appended) =~= tail);
    assert(prev.take(shared) + tail =~= string) by {
        assert(prev.take(shared) =~= string.take(shared));
    }
}

proof fn lemma_frame_read(
    before: Seq<u8>,
    max: nat,
    prev: Seq<u8>,
    remaining: nat,
    strings: Seq<Seq<u8>>,
    after: Seq<u8>,
)
    requires
        frame_code(prev, strings) is Ok,
        remaining >= strings.len(),
    ensures
        ({
            let code = frame_code(prev, strings)->Ok_0;
            let data = before + code + after;
            let rest = lender_strings(
                data,
                max,
                (LenderState {
                    pos: before.len() + code.len(),
                    prev: if strings.len() == 0 {
                        prev
                    } else {
                        strings.last()
                    },
                    remaining: (remaining - strings.len()) as nat,
                    failed: false,
                }),
            );
            lender_strings(
                data,
                max,
                (LenderState { pos: before.len(), prev, remaining, failed: false }),
            ) == (strings + rest.0, rest.1)
        }),
    decreases strings.len(),
{
    let code = frame_code(prev, strings)->Ok_0;
    let data = before + code + after;
    if strings.len() == 0 {
        let rest = lender_strings(
            data,
            max,
            LenderState { pos: before.len(), prev, remaining, failed: false },
        );
        assert(strings + rest.0 =~= rest.0);
    } else {
        let string = strings[0];
        let others = strings.drop_first();
        let first = front_code(prev, string);
        let rest_code = frame_code(string, others)->Ok_0;
        assert(data =~= before + first + (rest_code + after));
        assert(data =~= (before + first) + rest_code + after);
        lemma_front_code_read(before, max, prev, remaining, string, rest_code + after);
        lemma_frame_read(before + first, max, string, (remaining - 1) as nat, others, after);
        if others.len() > 0 {
            assert(others.last() == strings.last());
        } else {
            assert(strings.last() == string);
        }
        let last = LenderState {
            pos: before.len() + code.len(),
            prev: strings.last(),
            remaining: (remaining - strings.len()) as nat,
            failed: false,
        };
        let rest = lender_strings(data, max, last);
        assert(seq![string] + (others + rest.0) =~= strings + rest.0);
    }
}

/// At the end of a frame, a reader forgets the string before.
proof fn lemma_frame_reset(data: Seq<u8>, max: nat, pos: nat, prev: Seq<u8>)
    requires
        max > 0,
    ensures
        lender_strings(
            data,
            max,
            (LenderState { pos, prev, remaining: 0, failed: false }),
        ) == lender_strings(
            data,
            max,
            (LenderState { pos, prev: Seq::empty(), remaining: max, failed: false }),
        ),
{
    let a = LenderState { pos, prev, remaining: 0, failed: false };
    let b = LenderState { pos, prev: Seq::empty(), remaining: max, failed: false };
    assert(lender_step(data, max, a) == lender_step(data, max, b));
}

proof fn lemma_frames_read_from(before: Seq<u8>, max: nat, strings: Seq<Seq<u8>>)
    requires
        max > 0,
        frames_code(max, strings) is Ok,
    ensures
        lender_strings(
            before + frames_code(max, strings)->Ok_0,
            max,
            (LenderState { pos: before.len(), prev: Seq::empty(), remaining: max, failed: false }),
        ) == (strings, None::<FrameError>),
    decreases strings.len(),
{
    let all = frames_code(max, strings)->Ok_0;
    let data = before + all;
    if strings.len() == 0 {
        assert(strings =~= Seq::empty());
    } else {
        let n = if strings.len() < max {
            strings.len() as int
        } else {
            max as int
        };
        let code = frame_code(Seq::empty(), strings.take(n))->Ok_0;
        let rest = frames_code(max, strings.skip(n))->Ok_0;
        assert(data =~= before + code + rest);
        assert(data =~= (before + code) + rest);
        lemma_frame_read(before, max, Seq::empty(), max, strings.take(n), rest);
        lemma_frames_read_from(before + code, max, strings.skip(n));
        let state = LenderState {
            pos: before.len() + code.len(),
            prev: strings.take(n).last(),
            remaining: (max - n) as nat,
            failed: false,
        };
        if n == max {
            lemma_frame_reset(data, max, state.pos, state.prev);
        } else {
            assert(strings.skip(n) =~= Seq::empty());
            assert(rest =~= Seq::empty());
        }
        assert(lender_strings(data, max, state).0 =~= strings.skip(n));
        assert(strings.take(n) + strings.skip(n) =~= strings);
    }
}

/// Strings that were written in frames are read back, in order and without error.
pub proof fn lemma_frames_round_trip(max: nat, strings: Seq<Seq<u8>>)
    requires
        max > 0,
        frames_code(max, strings) is Ok,
    ensures
        lender_strings(frames_code(max, strings)->Ok_0, max, lender_start(max)) == (
            strings,
            None::<FrameError>,
        ),
{
    lemma_frames_read_from(Seq::empty(), max, strings);
    assert(Seq::<u8>::empty() + frames_code(max, strings)->Ok_0 =~= frames_code(
        max,
        strings,
    )->Ok_0);
}

proof fn lemma_lender_skip(data: Seq<u8>, max: nat, state: LenderState, start: nat)
    requires
        start <= state.pos,
        start <= data.len(),
    ensures
        lender_strings(
            data.skip(start as int),
            max,
            (LenderState { pos: (state.pos - start) as nat, ..state }),
        ) == lender_strings(data, max, state),
    decreases data.len() - state.pos,
{
    let moved = LenderState { pos: (state.pos - start) as nat, ..state };
    let tail = data.skip(start as int);
    lemma_lender_step_advances(data, max, state);
    if state.pos < data.len() && !state.failed {
        lemma_varint_at_skip(data, state.pos, 5, start);
        match varint_u32_at(data, state.pos) {
            Some((dropped, len1)) => {
                lemma_varint_at_skip(data, state.pos + len1, 5, start);
                match varint_u32_at(data, state.pos + len1) {
                    Some((appended, len2)) => {
                        let pos2 = (state.pos + len1 + len2) as int;
                        if pos2 + appended <= data.len() {
                            assert(tail.subrange(pos2 - start, pos2 + appended - start)
                                =~= data.subrange(pos2, pos2 + appended));
                        }
                    },
                    None => {},
                }
            },
            None => {},
        }
        match lender_step(data, max, state) {
            LenderStep::Item(string, next) => {
                lemma_lender_skip(data, max, next, start);
            },
            _ => {},
        }
    }
}

/// Where a reader of error-free frames stands after `k` strings of a frame.
proof fn lemma_frame_end_state(data: Seq<u8>, max: nat, state: LenderState, k: nat) -> (after:
    LenderState)
    requires
        !state.failed,
        state.pos <= data.len(),
        lender_strings(data, max, state).1 is None,
        k <= lender_strings(data, max, state).0.len(),
        k <= state.remaining,
    ensures
        !after.failed,
        after.remaining == state.remaining - k,
        frame_end(data, state.pos, k) == Ok::<nat, FrameError>(after.pos),
        after.pos <= data.len(),
        lender_strings(data, max, after) == (
            lender_strings(data, max, state).0.skip(k as int),
            None::<FrameError>,
        ),
    decreases k,
{
    let strings = lender_strings(data, max, state).0;
    if k == 0 {
        assert(strings.skip(0) =~= strings);
        state
    } else {
        lemma_lender_step_advances(data, max, state);
        match lender_step(data, max, state) {
            LenderStep::Item(string, next) => {
                let rest = lender_strings(data, max, next).0;
                assert(strings == seq![string] + rest);
                let after = lemma_frame_end_state(data, max, next, (k - 1) as nat);
                assert(strings.skip(k as int) =~= rest.skip(k - 1));
                after
            },
            _ => state,
        }
    }
}

/// After the last string, a frame ends where the data end.
proof fn lemma_last_frame_end(data: Seq<u8>, max: nat, state: LenderState, k: nat)
    requires
        !state.failed,
        state.pos <= data.len(),
        lender_strings(data, max, state).1 is None,
        k >= lender_strings(data, max, state).0.len(),
        state.remaining >= lender_strings(data, max, state).0.len(),
    ensures
        frame_end(data, state.pos, k) == Ok::<nat, FrameError>(data.len()),
    decreases lender_strings(data, max, state).0.len(),
{
    let strings = lender_strings(data, max, state).0;
    lemma_lender_step_advances(data, max, state);
    match lender_step(data, max, state) {
        LenderStep::Item(string, next) => {
            let rest = lender_strings(data, max, next).0;
            assert(strings == seq![string] + rest);
            lemma_last_frame_end(data, max, next, (k - 1) as nat);
        },
        _ => {},
    }
}

/// The position of frame `f`, which is found by walking over the frames before it.
pub open spec fn frame_position(data: Seq<u8>, max: nat, f: nat) -> Result<nat, FrameError>
    decreases f,
{
    if f == 0 {
        Ok(0)
    } else {
        match frame_position(data, max, (f - 1) as nat) {
            Err(e) => Err(e),
            Ok(pos) => frame_end(data, pos, max),
        }
    }
}

proof fn lemma_frame_position_state(data: Seq<u8>, max: nat, f: nat)
    requires
        max > 0,
        lender_strings(data, max, lender_start(max)).1 is None,
        f * max <= lender_strings(data, max, lender_start(max)).0.len(),
    ensures
        frame_position(data, max, f) matches Ok(pos) && pos <= data.len() && lender_strings(
            data,
            max,
            (LenderState { pos, prev: Seq::empty(), remaining: max, failed: false }),
        ) == (
            lender_strings(data, max, lender_start(max)).0.skip((f * max) as int),
            None::<FrameError>,
        ),
    decreases f,
{
    let strings = lender_strings(data, max, lender_start(max)).0;
    if f == 0 {
        assert(strings.skip(0) =~= strings);
    } else {
        let g = (f - 1) as nat;
        assert(f * max == g * max + max) by (nonlinear_arith)
            requires
                f == g + 1,
        ;
        lemma_frame_position_state(data, max, g);
        let pos = frame_position(data, max, g)->Ok_0;
        let state = LenderState { pos, prev: Seq::empty(), remaining: max, failed: false };
        let after = lemma_frame_end_state(data, max, state, max);
        lemma_frame_reset(data, max, after.pos, after.prev);
        assert(strings.skip((g * max) as int).skip(max as int) =~= strings.skip((f * max) as int));
    }
}

/// In error-free frames, the frame at position `f` holds the strings from `f * max` on: it gives
/// the string at index `f * max + i` at its index `i`.
pub proof fn lemma_frame_strings(data: Seq<u8>, max: nat, f: nat, i: int)
    requires
        max > 0,
        lender_strings(data, max, lender_start(max)).1 is None,
        0 <= i,
        f * max + i < lender_strings(data, max, lender_start(max)).0.len(),
    ensures
        frame_position(data, max, f) matches Ok(pos) && pos <= data.len() && ({
            let tail = lender_strings(data.skip(pos as int), max, lender_start(max));
            &&& i < tail.0.len()
            &&& tail.0[i] == lender_strings(data, max, lender_start(max)).0[f * max + i]
        }),
{
    lemma_frame_position_state(data, max, f);
    let pos = frame_position(data, max, f)->Ok_0;
    let state = LenderState { pos, prev: Seq::empty(), remaining: max, failed: false };
    lemma_lender_skip(data, max, state, pos);
    assert(LenderState { pos: (state.pos - pos) as nat, ..state } == lender_start(max));
}

/// In error-free frames, walking over all the frames ends where the data end, and not before.
pub proof fn lemma_frames_end(data: Seq<u8>, max: nat, f: nat)
    requires
        max > 0,
        lender_strings(data, max, lender_start(max)).1 is None,
    ensures
        f * max < lender_strings(data, max, lender_start(max)).0.len() ==> (frame_position(
            data,
            max,
            f,
        ) matches Ok(pos) && pos < data.len()),
        f * max >= lender_strings(data, max, lender_start(max)).0.len() && (f == 0 || (f - 1) * max
            < lender_strings(data, max, lender_start(max)).0.len()) ==> frame_position(
            data,
            max,
            f,
        ) == Ok::<nat, FrameError>(data.len()),
{
    let strings = lender_strings(data, max, lender_start(max)).0;
    if f * max < strings.len() {
        lemma_frame_position_state(data, max, f);
        let pos = frame_position(data, max, f)->Ok_0;
        let state = LenderState { pos, prev: Seq::empty(), remaining: max, failed: false };
        if pos == data.len() {
            assert(lender_strings(data, max, state).0.len() == 0);
        }
    } else if f > 0 && (f - 1) * max < strings.len() {
        let g = (f - 1) as nat;
        assert(f * max == g * max + max) by (nonlinear_arith)
            requires
                f == g + 1,
        ;
        lemma_frame_position_state(data, max, g);
        let pos = frame_position(data, max, g)->Ok_0;
        let state = LenderState { pos, prev: Seq::empty(), remaining: max, failed: false };
        lemma_last_frame_end(data, max, state, max);
    } else if f == 0 {
        lemma_lender_step_advances(data, max, lender_start(max));
    }
}

} // verus!
