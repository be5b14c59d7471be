//! Files of lines split into chunks that can be parsed one by one.

use crate::parsing::{is_line_based, ParseError};
use crate::utils::RdfFormat;
use vstd::prelude::*;

verus! {

/// The number of bytes that are read at a time.
pub const BLOCK_SIZE: usize = 10_485_760;

/// What is to be read next.
#[derive(Clone, Copy, Debug, PartialEq, Eq, Structural)]
pub enum ReadAction {
    /// At most this number of bytes.
    Block(usize),
    /// All bytes up to the next line break.
    Line,
}

/// The number of bytes up to the last line break, which is counted.
pub open spec fn last_line_end(bytes: Seq<u8>) -> nat
    decreases bytes.len(),
{
    if bytes.len() == 0 || bytes.last() == 10 {
        bytes.len()
    } else {
        last_line_end(bytes.drop_last())
    }
}

/// What is to be read next, given the bytes of an unfinished line.
pub open spec fn read_action(buf: Seq<u8>) -> ReadAction {
    if buf.len() >= BLOCK_SIZE {
        ReadAction::Line
    } else {
        ReadAction::Block((BLOCK_SIZE - buf.len()) as usize)
    }
}

/// How bytes are split that follow those of an unfinished line: a chunk of whole lines, and the
/// bytes of another unfinished line.
pub open spec fn split_block(buf: Seq<u8>, bytes: Seq<u8>) -> (Seq<u8>, Seq<u8>) {
    let all = buf + bytes;
    let end = last_line_end(all) as int;
    (all.take(end), all.skip(end))
}

/// Splits a file of lines into chunks of whole lines.
pub struct ChunkSplitter {
    buf: Vec<u8>,
}

proof fn lemma_last_line_end(bytes: Seq<u8>, n: int)
    requires
        0 <= n <= bytes.len(),
        n > 0 ==> bytes[n - 1] == 10,
        forall|i: int| n <= i < bytes.len() ==> bytes[i] != 10,
    ensures
        last_line_end(bytes) == n,
    decreases bytes.len(),
{
    if n < bytes.len() {
        assert(bytes.last() != 10);
        lemma_last_line_end(bytes.drop_last(), n);
    }
}

impl ChunkSplitter {
    /// The bytes of an unfinished line.
    pub closed spec fn buffered(self) -> Seq<u8> {
        self.buf@
    }

    /// A splitter for files of a format, of which the lines can be parsed one by one.
    pub fn new(format: &RdfFormat) -> (res: Result<Self, ParseError>)
        ensures
            if is_line_based(format@) {
                res matches Ok(splitter) && splitter.buffered() == Seq::<u8>::empty()
            } else {
                res is Err && res->Err_0 == ParseError::UnsupportedFormat
            },
    {
        match format {
            RdfFormat::NQuads => {},
            RdfFormat::NTriples => {},
            _ => {
                return Err(ParseError::UnsupportedFormat);
            },
        }
        let splitter = ChunkSplitter { buf: Vec::new() };
        assert(splitter.buffered() =~= Seq::empty());
        Ok(splitter)
    }

    /// What is to be read next.
    pub fn next_read(&self) -> (action: ReadAction)
        ensures
            action == read_action(self.buffered()),
    {
        let len: usize = self.buf.len();
        if len >= BLOCK_SIZE {
            ReadAction::Line
        } else {
            ReadAction::Block(BLOCK_SIZE - len)
        }
    }

    /// Makes a chunk of a long line, of which the end was read.
    pub fn on_line(&mut self, line: &[u8]) -> (chunk: Vec<u8>)
        ensures
            chunk@ == old(self).buffered() + line@,
            final(self).buffered() == Seq::<u8>::empty(),
    {
        let mut chunk: Vec<u8> = Vec::new();
        chunk.append(&mut self.buf);
        chunk.extend_from_slice(line);
        assert(self.buffered() =~= Seq::empty());
        assert(chunk@ =~= old(self).buffered() + line@);
        chunk
    }

    /// Makes a chunk of the whole lines that were read. At the end of the file, when no bytes are
    /// read, the last chunk is a line without a line break, if there is one.
    pub fn on_block(&mut self, bytes: &[u8]) -> (chunk: Option<Vec<u8>>)
        ensures
            if bytes@.len() == 0 {
                &&& final(self).buffered() == Seq::<u8>::empty()
                &&& if old(self).buffered().len() == 0 {
                    chunk is None
                } else {
                    chunk matches Some(c) && c@ == old(self).buffered()
                }
            } else {
                let (lines, rest) = split_block(old(self).buffered(), bytes@);
                final(self).buffered() == rest && (chunk matches Some(c) && c@ == lines)
            },
    {
        let ghost before = self.buf@;
        if bytes.len() == 0 {
            if self.buf.len() == 0 {
                assert(self.buffered() =~= Seq::empty());
                return None;
            }
            let mut chunk: Vec<u8> = Vec::new();
            chunk.append(&mut self.buf);
            assert(self.buffered() =~= Seq::empty());
            assert(chunk@ =~= before);
            return Some(chunk);
        }
        self.buf.extend_from_slice(bytes);
        let ghost all = before + bytes@;
        assert(self.buf@ =~= all);
        let len: usize = self.buf.len();
        let mut end: usize = len;
        while end > 0 && self.buf[end - 1] != 10
            invariant
                end <= len == self.buf@.len(),
                forall|i: int| end <= i < len ==> self.buf@[i] != 10,
            decreases end,
        {
            end = end - 1;
        }
        proof {
            lemma_last_line_end(all, end as int);
        }
        let mut chunk: Vec<u8> = Vec::new();
        chunk.append(&mut self.buf);
        self.buf = chunk.split_off(end);
        assert(self.buffered() =~= all.skip(end as int));
        assert(chunk@ =~= all.take(end as int));
        Some(chunk)
    }
}

/// The bytes of several lists, one list after the other.
pub open spec fn joined(parts: Seq<Seq<u8>>) -> Seq<u8>
    decreases parts.len(),
{
    if parts.len() == 0 {
        Seq::empty()
    } else {
        joined(parts.drop_last()) + parts.last()
    }
}

/// How blocks are split, one after the other: into chunks, and the bytes of an unfinished line.
pub open spec fn split_blocks(blocks: Seq<Seq<u8>>) -> (Seq<Seq<u8>>, Seq<u8>)
    decreases blocks.len(),
{
    if blocks.len() == 0 {
        (Seq::empty(), Seq::empty())
    } else {
        let (chunks, buf) = split_blocks(blocks.drop_last());
        let (chunk, rest) = split_block(buf, blocks.last());
        (chunks.push(chunk), rest)
    }
}

/// No byte is lost or added by splitting blocks, each chunk ends with a line, and no whole line
/// waits for more bytes.
pub proof fn lemma_split_blocks(blocks: Seq<Seq<u8>>)
    ensures
        ({
            let (chunks, rest) = split_blocks(blocks);
            &&& joined(chunks) + rest == joined(blocks)
            &&& forall|i: int|
                0 <= i < chunks.len() ==> (#[trigger] chunks[i]).len() == 0 || chunks[i].last()
                    == 10
            &&& !rest.contains(10u8)
        }),
    decreases blocks.len(),
{
    if blocks.len() == 0 {
        assert(joined(Seq::<Seq<u8>>::empty()) + Seq::<u8>::empty() =~= joined(blocks));
    } else {
        lemma_split_blocks(blocks.drop_last());
        let (chunks, buf) = split_blocks(blocks.drop_last());
        let (chunk, rest) = split_block(buf, blocks.last());
        let all = buf + blocks.last();
        let end = last_line_end(all) as int;
        lemma_last_line_end_bounds(all);
        assert(chunks.push(chunk).drop_last() =~= chunks);
        assert(chunk + rest =~= all);
        assert(joined(chunks.push(chunk)) + rest =~= joined(chunks) + (chunk + rest));
        assert(joined(chunks) + all =~= (joined(chunks) + buf) + blocks.last());
        assert(rest =~= all.skip(end));
    }
}

proof fn lemma_last_line_end_bounds(bytes: Seq<u8>)
    ensures
        last_line_end(bytes) <= bytes.len(),
        last_line_end(bytes) > 0 ==> bytes[last_line_end(bytes) - 1] == 10,
        forall|i: int| last_line_end(bytes) <= i < bytes.len() ==> bytes[i] != 10,
    decreases bytes.len(),
{
    if bytes.len() > 0 && bytes.last() != 10 {
        lemma_last_line_end_bounds(bytes.drop_last());
        assert forall|i: int| last_line_end(bytes) <= i < bytes.len() implies bytes[i] != 10 by {
            if i < bytes.len() - 1 {
                assert(bytes.drop_last()[i] == bytes[i]);
            }
        }
    }
}

/// As long as an unfinished line has less than 10 MiB, blocks are read that fill a buffer of this
/// size with it; a longer line is read to its end.
pub proof fn lemma_read_action(buf: Seq<u8>)
    ensures
        match read_action(buf) {
            ReadAction::Block(size) => size > 0 && buf.len() + size == 10 * 1024 * 1024,
            ReadAction::Line => buf.len() >= 10 * 1024 * 1024,
        },
{
}

/// A block that ends with a line break makes a chunk of all the bytes read so far, and one without
/// a line break makes an empty chunk, if no line break came before.
pub proof fn lemma_split_block(buf: Seq<u8>, bytes: Seq<u8>)
    requires
        bytes.len() > 0,
    ensures
        bytes.last() == 10 ==> split_block(buf, bytes) == (buf + bytes, Seq::<u8>::empty()),
        !buf.contains(10u8) && !bytes.contains(10u8) ==> split_block(buf, bytes) == (
            Seq::<u8>::empty(),
            buf + bytes,
        ),
{
    let all = buf + bytes;
    assert(all.last() == bytes.last());
    lemma_last_line_end_bounds(all);
    let end = last_line_end(all) as int;
    if bytes.last() == 10 {
        assert(all.take(end) =~= all);
        assert(all.skip(end) =~= Seq::empty());
    }
    if !buf.contains(10u8) && !bytes.contains(10u8) {
        if end > 0 {
            if end - 1 < buf.len() {
                assert(buf[end - 1] == 10);
            } else {
                assert(bytes[end - 1 - buf.len()] == 10);
            }
        }
        assert(all.take(0) =~= Seq::empty());
        assert(all.skip(0) =~= all);
    }
}

} // verus!
