//! Buffered line scanning over partition file contents.
//!
//! A partition file is a sequence of newline-separated records. The scanners
//! stream those records out of an in-memory copy of the file through a
//! fixed-capacity working buffer, forward from a seek position or backward
//! from the end, exactly as a file-backed scanner would refill its buffer
//! from disk. A byte-offset binary search locates a record in a sorted
//! partition with a caller-supplied comparator.

use vstd::prelude::*;
use vstd::utf8::{decode_utf8, valid_utf8};

use crate::util::{find_byte, lemma_find_byte, lemma_find_byte_none, lemma_find_byte_unique, lemma_rfind_byte, lemma_rfind_byte_unique, memchr, memrchr, rfind_byte};

verus! {

/// Default working-buffer capacity of the forward scanner: 512 KiB.
pub const DEFAULT_BUF_SIZE: usize = 512 * 1024;

/// Default working-buffer capacity of the reverse scanner: 64 KiB.
pub const DEFAULT_REV_BUF_SIZE: usize = 64 * 1024;

/// Default working-buffer capacity of the binary search: 4 KiB.
pub const DEFAULT_SEEK_BUF_SIZE: usize = 4 * 1024;

/// The record delimiter, a newline byte.
pub const NL: u8 = 10;

/// The fragments of `s` between delimiter bytes: one fragment per delimiter,
/// plus the final fragment after the last delimiter. Empty input has one
/// empty fragment.
pub open spec fn split_lines(s: Seq<u8>) -> Seq<Seq<u8>>
    decreases s.len(),
{
    match find_byte(s, NL) {
        None => seq![s],
        Some(i) => {
            if 0 <= i < s.len() {
                seq![s.take(i)] + split_lines(s.skip(i + 1))
            } else {
                seq![s]
            }
        },
    }
}

/// The fragments joined back with one delimiter between each two.
pub open spec fn join_lines(frags: Seq<Seq<u8>>) -> Seq<u8>
    decreases frags.len(),
{
    if frags.len() == 0 {
        Seq::empty()
    } else if frags.len() == 1 {
        frags[0]
    } else {
        frags[0] + seq![NL] + join_lines(frags.drop_first())
    }
}

/// Splitting always yields at least one fragment, and no fragment holds a
/// delimiter.
pub proof fn lemma_split_lines_wf(s: Seq<u8>)
    ensures
        split_lines(s).len() >= 1,
        forall|k: int|
            0 <= k < split_lines(s).len() ==> find_byte(#[trigger] split_lines(s)[k], NL) is None,
    decreases s.len(),
{
    lemma_find_byte(s, NL);
    match find_byte(s, NL) {
        None => {
        },
        Some(i) => {
            let head = s.take(i);
            assert(forall|j: int| 0 <= j < i ==> head[j] != NL);
            lemma_find_byte(head, NL);
            lemma_split_lines_wf(s.skip(i + 1));
            assert forall|k: int| 0 <= k < split_lines(s).len() implies find_byte(
                #[trigger] split_lines(s)[k],
                NL,
            ) is None by {
                if k > 0 {
                    assert(split_lines(s)[k] == split_lines(s.skip(i + 1))[k - 1]);
                }
            }
        },
    }
}

/// Joining the fragments of `s` gives `s` back.
pub proof fn lemma_split_then_join(s: Seq<u8>)
    ensures
        join_lines(split_lines(s)) == s,
    decreases s.len(),
{
    lemma_find_byte(s, NL);
    match find_byte(s, NL) {
        None => {
        },
        Some(i) => {
            lemma_split_then_join(s.skip(i + 1));
            let fr = seq![s.take(i)] + split_lines(s.skip(i + 1));
            lemma_split_lines_wf(s.skip(i + 1));
            assert(fr.drop_first() =~= split_lines(s.skip(i + 1)));
            assert(join_lines(fr) =~= s.take(i) + seq![NL] + s.skip(i + 1));
            assert(s.take(i) + seq![NL] + s.skip(i + 1) =~= s);
        },
    }
}

/// Splitting the join of delimiter-free fragments gives the fragments back:
/// the scanners reproduce exactly what was written, for every fragment
/// sequence and in particular for every working-buffer capacity.
pub proof fn lemma_join_then_split(frags: Seq<Seq<u8>>)
    requires
        frags.len() >= 1,
        forall|k: int| 0 <= k < frags.len() ==> find_byte(#[trigger] frags[k], NL) is None,
    ensures
        split_lines(join_lines(frags)) == frags,
    decreases frags.len(),
{
    let s = join_lines(frags);
    if frags.len() == 1 {
        assert(s == frags[0]);
        assert(split_lines(s) =~= frags);
    } else {
        let head = frags[0];
        let rest = join_lines(frags.drop_first());
        assert(s == head + seq![NL] + rest);
        lemma_find_byte(head, NL);
        assert(s[head.len() as int] == NL);
        assert(forall|j: int| 0 <= j < head.len() ==> s[j] == head[j] && s[j] != NL);
        lemma_find_byte_unique(s, NL, head.len() as int);
        assert(s.take(head.len() as int) =~= head);
        assert(s.skip(head.len() as int + 1) =~= rest);
        lemma_join_then_split(frags.drop_first());
        assert(split_lines(s) =~= seq![head] + frags.drop_first());
        assert(seq![head] + frags.drop_first() =~= frags);
    }
}

/// A zero-length file still yields exactly one record, an empty one.
pub proof fn lemma_split_lines_empty()
    ensures
        split_lines(Seq::<u8>::empty()) =~= seq![Seq::<u8>::empty()],
{
    lemma_find_byte(Seq::<u8>::empty(), NL);
}

/// Content that ends on a delimiter yields a trailing empty record.
pub proof fn lemma_split_lines_trailing(s: Seq<u8>)
    requires
        s.len() > 0,
        s[s.len() - 1] == NL,
    ensures
        split_lines(s).len() >= 2,
        split_lines(s).last() =~= Seq::<u8>::empty(),
    decreases s.len(),
{
    lemma_find_byte(s, NL);
    match find_byte(s, NL) {
        None => {
            assert(false);
        },
        Some(i) => {
            let rest = s.skip(i + 1);
            lemma_split_lines_wf(rest);
            if i + 1 == s.len() {
                assert(rest =~= Seq::<u8>::empty());
                lemma_split_lines_empty();
                assert(split_lines(s).last() == split_lines(rest).last());
            } else {
                assert(rest[rest.len() - 1] == NL);
                lemma_split_lines_trailing(rest);
                assert(split_lines(s).last() == split_lines(rest).last());
            }
        },
    }
}

/// Fixed-capacity working buffer with a filled and a processed watermark.
pub struct Buffer {
    processed: usize,
    filled: usize,
    size: usize,
    data: Vec<u8>,
}

impl Buffer {
    pub closed spec fn wf(self) -> bool {
        &&& self.processed <= self.filled <= self.size
        &&& self.data@.len() == self.size
        &&& self.size >= 1
    }

    pub closed spec fn spec_capacity(self) -> int {
        self.size as int
    }

    pub closed spec fn spec_filled(self) -> int {
        self.filled as int
    }

    pub closed spec fn spec_processed(self) -> int {
        self.processed as int
    }

    pub closed spec fn spec_data(self) -> Seq<u8> {
        self.data@
    }

    /// The unconsumed bytes, for forward scanning: between the two
    /// watermarks.
    pub closed spec fn unproc_fwd(self) -> Seq<u8> {
        self.data@.subrange(self.processed as int, self.filled as int)
    }

    /// The unconsumed bytes, for backward scanning: the filled chunk with the
    /// processed tail cut off.
    pub closed spec fn unproc_bwd(self) -> Seq<u8> {
        self.data@.subrange(0, self.filled - self.processed)
    }

    pub fn new(size: usize) -> (r: Buffer)
        requires
            size >= 1,
        ensures
            r.wf(),
            r.spec_capacity() == size,
            r.spec_filled() == 0,
            r.spec_processed() == 0,
    {
        Buffer { filled: 0, processed: 0, size, data: vec![0u8; size] }
    }

    pub fn capacity(&self) -> (r: usize)
        ensures
            r == self.spec_capacity(),
    {
        self.size
    }

    pub fn advance_filled(&mut self, n: usize)
        requires
            old(self).wf(),
            old(self).spec_filled() + n <= old(self).spec_capacity(),
        ensures
            final(self).wf(),
            final(self).spec_filled() == old(self).spec_filled() + n,
            final(self).spec_processed() == old(self).spec_processed(),
            final(self).spec_capacity() == old(self).spec_capacity(),
            final(self).spec_data() == old(self).spec_data(),
    {
        self.filled += n;
    }

    pub fn advance_processed(&mut self, n: usize)
        requires
            old(self).wf(),
            old(self).spec_processed() + n <= old(self).spec_filled(),
        ensures
            final(self).wf(),
            final(self).spec_processed() == old(self).spec_processed() + n,
            final(self).spec_filled() == old(self).spec_filled(),
            final(self).spec_capacity() == old(self).spec_capacity(),
            final(self).spec_data() == old(self).spec_data(),
            final(self).unproc_fwd() == old(self).unproc_fwd().skip(n as int),
            final(self).unproc_bwd() == old(self).unproc_bwd().take(
                old(self).unproc_bwd().len() - n,
            ),
    {
        self.processed += n;
        proof {
            assert(self.unproc_fwd() =~= old(self).unproc_fwd().skip(n as int));
            assert(self.unproc_bwd() =~= old(self).unproc_bwd().take(
                old(self).unproc_bwd().len() - n,
            ));
        }
    }

    pub fn unprocessed_len(&self) -> (r: usize)
        requires
            self.wf(),
        ensures
            r == self.unproc_fwd().len(),
            r == self.unproc_bwd().len(),
    {
        self.filled - self.processed
    }

    pub fn unprocessed_forward(&self) -> (r: &[u8])
        requires
            self.wf(),
        ensures
            r@ == self.unproc_fwd(),
    {
        &self.data[self.processed..self.filled]
    }

    pub fn unprocessed_backward(&self) -> (r: &[u8])
        requires
            self.wf(),
        ensures
            r@ == self.unproc_bwd(),
    {
        &self.data[0..(self.filled - self.processed)]
    }

    pub fn reset(&mut self)
        requires
            old(self).wf(),
        ensures
            final(self).wf(),
            final(self).spec_filled() == 0,
            final(self).spec_processed() == 0,
            final(self).spec_capacity() == old(self).spec_capacity(),
            final(self).unproc_fwd() =~= Seq::<u8>::empty(),
            final(self).unproc_bwd() =~= Seq::<u8>::empty(),
    {
        self.filled = 0;
        self.processed = 0;
    }

    /// Copy up to `count` bytes of `src[start..]` into the unfilled region,
    /// as one read from the underlying file would.
    pub fn fill_from(&mut self, src: &[u8], start: usize, count: usize) -> (n: usize)
        requires
            old(self).wf(),
            start <= src@.len(),
            count <= src@.len() - start,
        ensures
            final(self).wf(),
            n == vstd::math::min(count as int, old(self).spec_capacity() - old(self).spec_filled()),
            final(self).spec_filled() == old(self).spec_filled() + n,
            final(self).spec_processed() == old(self).spec_processed(),
            final(self).spec_capacity() == old(self).spec_capacity(),
            final(self).unproc_fwd() == old(self).unproc_fwd() + src@.subrange(
                start as int,
                start + n,
            ),
            old(self).spec_filled() == 0 && old(self).spec_processed() == 0 ==> final(self).unproc_bwd() == src@.subrange(start as int, start + n),
    {
        let src_len = src.len();
        let room = self.size - self.filled;
        let n = if count < room {
            count
        } else {
            room
        };
        let filled0 = self.filled;
        let mut k: usize = 0;
        while k < n
            invariant
                k <= n,
                self.size == old(self).size,
                self.processed == old(self).processed,
                self.filled == filled0 == old(self).filled,
                self.data@.len() == self.size,
                n <= self.size - filled0,
                src_len == src@.len(),
                start + n <= src_len,
                forall|j: int| 0 <= j < filled0 ==> self.data@[j] == old(self).data@[j],
                forall|j: int|
                    filled0 <= j < filled0 + k ==> self.data@[j] == src@[start + (j - filled0)],
                forall|j: int| filled0 + k <= j < self.size ==> self.data@[j] == old(self).data@[j],
            decreases n - k,
        {
            let b = src[start + k];
            self.data[filled0 + k] = b;
            k += 1;
        }
        self.filled = filled0 + n;
        proof {
            assert(self.unproc_fwd() =~= old(self).unproc_fwd() + src@.subrange(
                start as int,
                start + n,
            ));
            if old(self).filled == 0 && old(self).processed == 0 {
                assert(self.unproc_bwd() =~= src@.subrange(start as int, start + n));
            }
        }
        n
    }
}

/// Error from scanning: an I/O failure at the file boundary, a record that
/// is not valid UTF-8, or a comparator failure during binary search.
#[derive(Debug)]
pub enum LineReaderError {
    Io(std::io::Error),
    Utf8(std::string::FromUtf8Error),
    Compare(String),
}

impl LineReaderError {
    /// Wrap a comparator failure, keeping its message.
    pub fn compare(e: String) -> (r: LineReaderError)
        ensures
            r == LineReaderError::Compare(e),
    {
        LineReaderError::Compare(e)
    }
}

pub type ReaderResult<T> = Result<T, LineReaderError>;

/// Forward scanner: streams delimiter-separated records from the file
/// contents, refilling the working buffer chunk by chunk. Records that
/// straddle a refill accumulate in a growth-only overflow buffer.
pub struct FileLineReader {
    content: Vec<u8>,
    pos: usize,
    buffer: Buffer,
    line_buf: Vec<u8>,
    eof: bool,
}

impl FileLineReader {
    /// The full file contents being scanned.
    pub closed spec fn contents(self) -> Seq<u8> {
        self.content@
    }

    pub closed spec fn buffer_capacity(self) -> int {
        self.buffer.spec_capacity()
    }

    /// The bytes not yet yielded: accumulated partial record, then the
    /// unconsumed buffered bytes, then the unread tail of the file.
    pub closed spec fn remaining(self) -> Seq<u8> {
        self.line_buf@ + self.buffer.unproc_fwd() + self.content@.skip(self.pos as int)
    }

    pub closed spec fn wf(self) -> bool {
        &&& self.buffer.wf()
        &&& self.pos <= self.content@.len()
        &&& find_byte(self.line_buf@, NL) is None
        &&& (self.buffer.spec_processed() == self.buffer.spec_filled()
            ==> self.buffer.spec_processed() == 0)
        &&& (self.eof ==> self.pos == self.content@.len() && self.buffer.unproc_fwd().len() == 0
            && self.line_buf@.len() == 0)
    }

    /// The records not yet yielded, in order. A scanner that has reported
    /// end-of-file has none; otherwise they are the fragments of the
    /// remaining bytes, so the final record is yielded before the end marker
    /// even when it is empty.
    pub closed spec fn pending(self) -> Seq<Seq<u8>> {
        if self.eof {
            Seq::empty()
        } else {
            split_lines(self.remaining())
        }
    }

    pub fn new(content: Vec<u8>) -> (r: FileLineReader)
        ensures
            r.wf(),
            r.contents() == content@,
            r.buffer_capacity() == DEFAULT_BUF_SIZE as int,
            r.pending() == split_lines(content@),
    {
        Self::with_buffer_size(content, DEFAULT_BUF_SIZE)
    }

    pub fn with_buffer_size(content: Vec<u8>, buffer_size: usize) -> (r: FileLineReader)
        requires
            buffer_size >= 1,
        ensures
            r.wf(),
            r.contents() == content@,
            r.buffer_capacity() == buffer_size,
            r.pending() == split_lines(content@),
    {
        let r = FileLineReader {
            content,
            pos: 0,
            buffer: Buffer::new(buffer_size),
            line_buf: Vec::new(),
            eof: false,
        };
        proof {
            assert(r.remaining() =~= r.content@);
        }
        r
    }

    /// Give the file contents back, consuming the scanner.
    pub fn into_contents(self) -> (r: Vec<u8>)
        ensures
            r@ == self.contents(),
    {
        self.content
    }

    fn reset(&mut self)
        requires
            old(self).buffer.wf(),
        ensures
            final(self).buffer.wf(),
            final(self).content@ == old(self).content@,
            final(self).pos == old(self).pos,
            final(self).line_buf@ == Seq::<u8>::empty(),
            final(self).buffer.unproc_fwd() == Seq::<u8>::empty(),
            final(self).buffer.spec_processed() == 0,
            final(self).buffer.spec_filled() == 0,
            final(self).buffer.spec_capacity() == old(self).buffer.spec_capacity(),
            !final(self).eof,
    {
        self.line_buf.clear();
        self.buffer.reset();
        self.eof = false;
    }

    fn read_to_buffer(&mut self)
        requires
            old(self).wf(),
            !old(self).eof,
            old(self).buffer.unproc_fwd().len() == 0,
        ensures
            final(self).buffer.wf(),
            final(self).content@ == old(self).content@,
            final(self).line_buf@ == old(self).line_buf@,
            final(self).buffer.spec_processed() == 0,
            final(self).buffer.spec_capacity() == old(self).buffer.spec_capacity(),
            final(self).pos <= final(self).content@.len(),
            final(self).pos >= old(self).pos,
            final(self).remaining() == old(self).remaining(),
            final(self).buffer.unproc_fwd().len() == final(self).pos - old(self).pos,
            final(self).eof <==> old(self).pos == old(self).content@.len(),
            !final(self).eof ==> final(self).pos > old(self).pos,
    {
        let len = self.content.len();
        let n = self.buffer.fill_from(self.content.as_slice(), self.pos, len - self.pos);
        self.pos += n;
        if n == 0 {
            self.eof = true;
        }
        proof {
            assert(self.remaining() =~= old(self).remaining());
        }
    }

    /// Reposition the scanner and discard all buffered state. The next
    /// records are exactly the fragments of the contents from `pos` on.
    pub fn seek(&mut self, pos: usize) -> (r: usize)
        requires
            old(self).wf(),
            pos <= old(self).contents().len(),
        ensures
            final(self).wf(),
            final(self).contents() == old(self).contents(),
            final(self).buffer_capacity() == old(self).buffer_capacity(),
            r == pos,
            final(self).pending() == split_lines(old(self).contents().skip(pos as int)),
    {
        self.reset();
        self.pos = pos;
        proof {
            assert(self.remaining() =~= old(self).contents().skip(pos as int));
        }
        pos
    }

    /// Seek back to the start of the file; the returned position is 0.
    pub fn rewind(&mut self) -> (r: usize)
        requires
            old(self).wf(),
        ensures
            final(self).wf(),
            final(self).contents() == old(self).contents(),
            final(self).buffer_capacity() == old(self).buffer_capacity(),
            r == 0,
            final(self).pending() == split_lines(old(self).contents()),
    {
        let r = self.seek(0);
        proof {
            assert(old(self).contents().skip(0) =~= old(self).contents());
        }
        r
    }

    /// Yield the next record, delimiter stripped, or the end marker once no
    /// record is pending.
    #[verifier::rlimit(100)]
    pub fn next_line(&mut self) -> (r: ReaderResult<Option<String>>)
        requires
            old(self).wf(),
        ensures
            final(self).wf(),
            final(self).contents() == old(self).contents(),
            final(self).buffer_capacity() == old(self).buffer_capacity(),
            match r {
                Ok(Some(line)) => {
                    &&& old(self).pending().len() > 0
                    &&& valid_utf8(old(self).pending()[0])
                    &&& line@ == decode_utf8(old(self).pending()[0])
                    &&& final(self).pending() == old(self).pending().drop_first()
                },
                Ok(None) => {
                    &&& old(self).pending().len() == 0
                    &&& final(self).pending().len() == 0
                },
                Err(e) => {
                    &&& old(self).pending().len() > 0
                    &&& !valid_utf8(old(self).pending()[0])
                    &&& e is Utf8
                },
            },
    {
        while !self.eof
            invariant
                self.wf(),
                self.contents() == old(self).contents(),
                self.buffer_capacity() == old(self).buffer_capacity(),
                self.remaining() == old(self).remaining(),
                self.eof <==> old(self).eof,
            decreases (self.contents().len() - self.pos) + self.buffer.unproc_fwd().len() + (
            if self.eof {
                0int
            } else {
                1int
            }),
        {
            if self.buffer.unprocessed_len() == 0 {
                self.read_to_buffer();
            }
            let ghost lb0 = self.line_buf@;
            let ghost u = self.buffer.unproc_fwd();
            let ghost rest = self.contents().skip(self.pos as int);
            let ghost rem = self.remaining();
            proof {
                assert(rem == lb0 + u + rest);
                lemma_find_byte(lb0, NL);
            }
            let unprocessed = self.buffer.unprocessed_forward();
            match memchr(NL, unprocessed) {
                Some(n) => {
                    proof {
                        lemma_find_byte(u, NL);
                        let i: int = lb0.len() as int + n as int;
                        assert(rem[i] == u[n as int]);
                        assert forall|j: int| 0 <= j < i implies rem[j] != NL by {
                            if j < lb0.len() {
                                assert(rem[j] == lb0[j]);
                            } else {
                                assert(rem[j] == u[j - lb0.len()]);
                            }
                        }
                        lemma_find_byte_unique(rem, NL, i);
                        assert(split_lines(rem) == seq![rem.take(i)] + split_lines(
                            rem.skip(i + 1),
                        ));
                    }
                    self.line_buf.extend_from_slice(&unprocessed[0..n]);
                    let raw_line = self.line_buf.split_off(0);
                    proof {
                        assert(raw_line@ =~= rem.take(lb0.len() as int + n as int));
                    }
                    let line = match String::from_utf8(raw_line) {
                        Ok(l) => l,
                        Err(e) => {
                            return Err(LineReaderError::Utf8(e));
                        },
                    };
                    self.buffer.advance_processed(n + 1);
                    if self.buffer.unprocessed_len() == 0 {
                        self.buffer.reset();
                    }
                    proof {
                        let i: int = lb0.len() as int + n as int;
                        assert(self.remaining() =~= rem.skip(i + 1));
                        assert(split_lines(rem).drop_first() =~= split_lines(rem.skip(i + 1)));
                    }
                    return Ok(Some(line));
                },
                None => {
                    proof {
                        lemma_find_byte(u, NL);
                    }
                    self.line_buf.extend_from_slice(unprocessed);
                    self.buffer.reset();
                    proof {
                        lemma_find_byte_none(self.line_buf@, NL);
                        assert(self.remaining() =~= rem);
                    }
                    if self.eof {
                        proof {
                            assert(u =~= Seq::<u8>::empty());
                            assert(rest =~= Seq::<u8>::empty());
                            assert(self.line_buf@ =~= rem);
                            assert(split_lines(rem) =~= seq![rem]);
                        }
                        let raw_line = self.line_buf.split_off(0);
                        proof {
                            assert(raw_line@ =~= rem);
                        }
                        let line = match String::from_utf8(raw_line) {
                            Ok(l) => l,
                            Err(e) => {
                                return Err(LineReaderError::Utf8(e));
                            },
                        };
                        proof {
                            assert(self.pending() =~= split_lines(rem).drop_first());
                        }
                        return Ok(Some(line));
                    }
                },
            }
        }
        Ok(None)
    }
}

/// The records of `s` in reverse-scan order: one record per delimiter, from
/// the last delimiter backward, plus the head fragment before the first
/// delimiter only when that fragment is non-empty.
pub open spec fn rev_split_lines(s: Seq<u8>) -> Seq<Seq<u8>>
    decreases s.len(),
{
    match rfind_byte(s, NL) {
        None => if s.len() == 0 {
            Seq::empty()
        } else {
            seq![s]
        },
        Some(p) => {
            if 0 <= p < s.len() {
                seq![s.skip(p + 1)] + rev_split_lines(s.take(p))
            } else {
                seq![s]
            }
        },
    }
}

/// Splitting at the last delimiter: the final fragment follows it, and the
/// earlier fragments are those of the bytes before it.
pub proof fn lemma_split_lines_last(s: Seq<u8>, p: int)
    requires
        rfind_byte(s, NL) == Some(p),
    ensures
        0 <= p < s.len(),
        split_lines(s).len() >= 2,
        split_lines(s).last() == s.skip(p + 1),
        split_lines(s).drop_last() == split_lines(s.take(p)),
    decreases s.len(),
{
    lemma_rfind_byte(s, NL);
    lemma_find_byte(s, NL);
    let i = find_byte(s, NL)->0;
    assert(find_byte(s, NL) is Some);
    assert(i <= p);
    if i == p {
        assert forall|j: int| 0 <= j < s.skip(p + 1).len() implies #[trigger] s.skip(p + 1)[j]
            != NL by {
            assert(s.skip(p + 1)[j] == s[p + 1 + j]);
        }
        lemma_find_byte_none(s.skip(p + 1), NL);
        assert(split_lines(s) == seq![s.take(p)] + split_lines(s.skip(p + 1)));
        assert(split_lines(s.skip(p + 1)) == seq![s.skip(p + 1)]);
        assert(split_lines(s).last() == s.skip(p + 1));
        assert forall|j: int| 0 <= j < s.take(p).len() implies #[trigger] s.take(p)[j] != NL by {
            assert(s.take(p)[j] == s[j]);
        }
        lemma_find_byte_none(s.take(p), NL);
        assert(split_lines(s.take(p)) == seq![s.take(p)]);
        assert(split_lines(s).drop_last() =~= split_lines(s.take(p)));
    } else {
        let t = s.skip(i + 1);
        assert(t[p - i - 1] == s[p]);
        assert forall|j: int| p - i - 1 < j < t.len() implies #[trigger] t[j] != NL by {
            assert(t[j] == s[i + 1 + j]);
        }
        lemma_rfind_byte_unique(t, NL, p - i - 1);
        lemma_split_lines_last(t, p - i - 1);
        assert(split_lines(s) == seq![s.take(i)] + split_lines(t));
        assert(t.skip(p - i) =~= s.skip(p + 1));
        assert(split_lines(s).last() == split_lines(t).last());

        let sp = s.take(p);
        assert(sp[i] == s[i]);
        assert forall|j: int| 0 <= j < i implies #[trigger] sp[j] != NL by {
            assert(sp[j] == s[j]);
        }
        lemma_find_byte_unique(sp, NL, i);
        assert(split_lines(sp) == seq![sp.take(i)] + split_lines(sp.skip(i + 1)));
        assert(sp.take(i) =~= s.take(i));
        assert(sp.skip(i + 1) =~= t.take(p - i - 1));
        assert(split_lines(s).drop_last() =~= seq![s.take(i)] + split_lines(t).drop_last());
        assert(split_lines(s).drop_last() =~= split_lines(sp));
    }
}

/// Law: the reverse-scan records of any content are exactly the forward
/// records in reverse order, except that the first-in-file record is left
/// out when it is empty (an empty file, or content beginning with a
/// delimiter). This holds for every content and working-buffer capacity.
pub proof fn lemma_rev_split_lines(s: Seq<u8>)
    ensures
        split_lines(s).len() >= 1,
        rev_split_lines(s).len() == split_lines(s).len() - (
        if split_lines(s)[0].len() == 0 {
            1int
        } else {
            0int
        }),
        forall|k: int|
            0 <= k < rev_split_lines(s).len() ==> #[trigger] rev_split_lines(s)[k] == split_lines(
                s,
            )[split_lines(s).len() - 1 - k],
    decreases s.len(),
{
    lemma_split_lines_wf(s);
    lemma_rfind_byte(s, NL);
    match rfind_byte(s, NL) {
        None => {
            lemma_find_byte_none(s, NL);
            assert(split_lines(s) == seq![s]);
        },
        Some(p) => {
            lemma_split_lines_last(s, p);
            lemma_rev_split_lines(s.take(p));
            let fwd = split_lines(s);
            let fwdp = split_lines(s.take(p));
            let rev = rev_split_lines(s);
            let revp = rev_split_lines(s.take(p));
            assert(fwdp =~= fwd.drop_last());
            assert(fwd[0] == fwdp[0]);
            assert(rev == seq![s.skip(p + 1)] + revp);
            assert(rev[0] == fwd[fwd.len() - 1]);
            assert forall|k: int| 0 <= k < rev.len() implies #[trigger] rev[k] == fwd[fwd.len() - 1
                - k] by {
                if k > 0 {
                    assert(rev[k] == revp[k - 1]);
                    assert(revp[k - 1] == fwdp[fwdp.len() - 1 - (k - 1)]);
                    assert(fwdp[fwdp.len() - k] == fwd[fwd.len() - 1 - k]);
                }
            }
        },
    }
}

/// Law: over content built by joining delimiter-free fragments whose first
/// fragment is non-empty, the reverse scanner yields exactly the fragments
/// in reverse order. With an empty first fragment that fragment alone is
/// left out, which is why it is excluded here.
pub proof fn lemma_join_then_rev_split(frags: Seq<Seq<u8>>)
    requires
        frags.len() >= 1,
        frags[0].len() > 0,
        forall|k: int| 0 <= k < frags.len() ==> find_byte(#[trigger] frags[k], NL) is None,
    ensures
        rev_split_lines(join_lines(frags)).len() == frags.len(),
        forall|k: int|
            0 <= k < frags.len() ==> #[trigger] rev_split_lines(join_lines(frags))[k] == frags[
                frags.len() - 1 - k],
{
    lemma_join_then_split(frags);
    lemma_rev_split_lines(join_lines(frags));
}

/// Reverse scanner: streams records from the end of the file contents
/// toward the start. `position` counts the bytes that remain toward the
/// file start; each refill pulls the chunk immediately preceding it.
pub struct FileLineReverseReader {
    content: Vec<u8>,
    pos: usize,
    buffer: Buffer,
    line_buf: Vec<u8>,
    done: bool,
}

impl FileLineReverseReader {
    /// The full file contents being scanned.
    pub closed spec fn contents(self) -> Seq<u8> {
        self.content@
    }

    pub closed spec fn buffer_capacity(self) -> int {
        self.buffer.spec_capacity()
    }

    /// Bytes that remain toward the file start.
    pub closed spec fn spec_pos(self) -> int {
        self.pos as int
    }

    /// The unconsumed bytes of the buffered chunk.
    pub closed spec fn buffered(self) -> Seq<u8> {
        self.buffer.unproc_bwd()
    }

    /// The accumulated tail of a record that straddles chunk boundaries.
    pub closed spec fn acc(self) -> Seq<u8> {
        self.line_buf@
    }

    /// The bytes not yet yielded: the unread head of the file, then the
    /// unconsumed buffered chunk, then the accumulated record tail.
    pub closed spec fn remaining(self) -> Seq<u8> {
        self.content@.take(self.pos as int) + self.buffer.unproc_bwd() + self.line_buf@
    }

    pub closed spec fn wf(self) -> bool {
        &&& self.buffer.wf()
        &&& self.pos <= self.content@.len()
        &&& find_byte(self.line_buf@, NL) is None
        &&& (self.done ==> self.pos == 0 && self.buffer.unproc_bwd().len() == 0)
    }

    /// The records not yet yielded, in reverse file order.
    pub closed spec fn pending(self) -> Seq<Seq<u8>> {
        rev_split_lines(self.remaining())
    }

    pub fn new(content: Vec<u8>) -> (r: FileLineReverseReader)
        ensures
            r.wf(),
            r.contents() == content@,
            r.buffer_capacity() == DEFAULT_REV_BUF_SIZE as int,
            r.spec_pos() == 0,
    {
        Self::with_buffer_size(content, DEFAULT_REV_BUF_SIZE)
    }

    pub fn with_buffer_size(content: Vec<u8>, buffer_size: usize) -> (r: FileLineReverseReader)
        requires
            buffer_size >= 1,
        ensures
            r.wf(),
            r.contents() == content@,
            r.buffer_capacity() == buffer_size,
            r.spec_pos() == 0,
    {
        FileLineReverseReader {
            content,
            pos: 0,
            buffer: Buffer::new(buffer_size),
            line_buf: Vec::new(),
            done: false,
        }
    }

    /// Give the file contents back, consuming the scanner.
    pub fn into_contents(self) -> (r: Vec<u8>)
        ensures
            r@ == self.contents(),
    {
        self.content
    }

    fn reset(&mut self)
        requires
            old(self).buffer.wf(),
        ensures
            final(self).buffer.wf(),
            final(self).content@ == old(self).content@,
            final(self).pos == old(self).pos,
            final(self).line_buf@ == Seq::<u8>::empty(),
            final(self).buffer.unproc_bwd() == Seq::<u8>::empty(),
            final(self).buffer.spec_processed() == 0,
            final(self).buffer.spec_filled() == 0,
            final(self).buffer.spec_capacity() == old(self).buffer.spec_capacity(),
            !final(self).done,
    {
        self.line_buf.clear();
        self.buffer.reset();
        self.done = false;
    }

    /// Discard the buffered chunk and pull the chunk immediately preceding
    /// the current position; at position 0 this only marks the scan done.
    pub fn fill_buffer(&mut self)
        requires
            old(self).wf(),
        ensures
            final(self).wf(),
            final(self).contents() == old(self).contents(),
            final(self).buffer_capacity() == old(self).buffer_capacity(),
            final(self).acc() == old(self).acc(),
            final(self).remaining() == old(self).contents().take(old(self).spec_pos())
                + old(self).acc(),
            final(self).spec_pos() == old(self).spec_pos() - vstd::math::min(
                old(self).spec_pos(),
                old(self).buffer_capacity(),
            ),
            final(self).buffered().len() == vstd::math::min(
                old(self).spec_pos(),
                old(self).buffer_capacity(),
            ),
            final(self).is_done() <==> old(self).spec_pos() == 0,
    {
        self.buffer.reset();
        let cap = self.buffer.capacity();
        let read_size = if self.pos < cap {
            self.pos
        } else {
            cap
        };
        if read_size == 0 {
            self.done = true;
            proof {
                assert(self.remaining() =~= old(self).contents().take(old(self).spec_pos())
                    + old(self).acc());
            }
            return ;
        }
        self.pos = self.pos - read_size;
        let n = self.buffer.fill_from(self.content.as_slice(), self.pos, read_size);
        proof {
            assert(n == read_size);
            assert(self.remaining() =~= old(self).contents().take(old(self).spec_pos())
                + old(self).acc());
        }
    }

    /// Whether the scan has reached the file start.
    pub closed spec fn is_done(self) -> bool {
        self.done
    }

    /// Reposition the scan boundary and discard all buffered state. The
    /// records still to come are those of the contents before `pos`, in
    /// reverse order.
    pub fn seek(&mut self, pos: usize) -> (r: usize)
        requires
            old(self).wf(),
            pos <= old(self).contents().len(),
        ensures
            final(self).wf(),
            final(self).contents() == old(self).contents(),
            final(self).buffer_capacity() == old(self).buffer_capacity(),
            r == pos,
            final(self).spec_pos() == pos,
            final(self).pending() == rev_split_lines(old(self).contents().take(pos as int)),
    {
        self.reset();
        self.pos = pos;
        proof {
            assert(self.remaining() =~= old(self).contents().take(pos as int));
        }
        pos
    }

    /// Seek to end-of-file; the returned position is the file length.
    pub fn rewind(&mut self) -> (r: usize)
        requires
            old(self).wf(),
        ensures
            final(self).wf(),
            final(self).contents() == old(self).contents(),
            final(self).buffer_capacity() == old(self).buffer_capacity(),
            r == old(self).contents().len(),
            final(self).pending() == rev_split_lines(old(self).contents()),
    {
        let len = self.content.len();
        let r = self.seek(len);
        proof {
            assert(old(self).contents().take(len as int) =~= old(self).contents());
        }
        r
    }

    /// Yield the next record moving toward the file start, or the end marker
    /// once no record is pending.
    #[verifier::rlimit(100)]
    pub fn next_line(&mut self) -> (r: ReaderResult<Option<String>>)
        requires
            old(self).wf(),
        ensures
            final(self).wf(),
            final(self).contents() == old(self).contents(),
            final(self).buffer_capacity() == old(self).buffer_capacity(),
            match r {
                Ok(Some(line)) => {
                    &&& old(self).pending().len() > 0
                    &&& valid_utf8(old(self).pending()[0])
                    &&& line@ == decode_utf8(old(self).pending()[0])
                    &&& final(self).pending() == old(self).pending().drop_first()
                },
                Ok(None) => {
                    &&& old(self).pending().len() == 0
                    &&& final(self).pending().len() == 0
                },
                Err(e) => {
                    &&& old(self).pending().len() > 0
                    &&& !valid_utf8(old(self).pending()[0])
                    &&& e is Utf8
                },
            },
    {
        loop
            invariant
                self.wf(),
                self.contents() == old(self).contents(),
                self.buffer_capacity() == old(self).buffer_capacity(),
                self.remaining() == old(self).remaining(),
            decreases 2 * (self.spec_pos() + self.buffer.unproc_bwd().len()) + (
            if self.buffer.unproc_bwd().len() == 0 {
                1int
            } else {
                0int
            }) + (
            if self.done {
                0int
            } else {
                2int
            }),
        {
            let ghost head = self.contents().take(self.pos as int);
            let ghost u = self.buffer.unproc_bwd();
            let ghost lb0 = self.line_buf@;
            let ghost rem = self.remaining();
            proof {
                assert(rem == head + u + lb0);
                lemma_find_byte(lb0, NL);
            }
            let process_len = self.buffer.unprocessed_len();
            if self.done && process_len == 0 {
                if self.line_buf.len() != 0 {
                    proof {
                        assert(rem =~= lb0);
                        crate::util::lemma_rfind_byte_none(rem, NL);
                        assert(self.pending() == seq![rem]);
                    }
                    let raw_line = self.line_buf.split_off(0);
                    proof {
                        assert(raw_line@ =~= rem);
                    }
                    let line = match String::from_utf8(raw_line) {
                        Ok(l) => l,
                        Err(e) => {
                            return Err(LineReaderError::Utf8(e));
                        },
                    };
                    proof {
                        assert(self.remaining() =~= Seq::<u8>::empty());
                        assert(self.pending() =~= seq![rem].drop_first());
                    }
                    return Ok(Some(line));
                }
                proof {
                    assert(rem =~= Seq::<u8>::empty());
                }
                return Ok(None);
            }
            let process = self.buffer.unprocessed_backward();
            match memrchr(NL, process) {
                Some(n) => {
                    proof {
                        lemma_rfind_byte(u, NL);
                        let pp: int = head.len() as int + n as int;
                        assert(rem[pp] == u[n as int]);
                        assert forall|j: int| pp < j < rem.len() implies #[trigger] rem[j] != NL by {
                            if j < head.len() + u.len() {
                                assert(rem[j] == u[j - head.len()]);
                            } else {
                                assert(rem[j] == lb0[j - head.len() - u.len()]);
                            }
                        }
                        lemma_rfind_byte_unique(rem, NL, pp);
                        assert(rev_split_lines(rem) == seq![rem.skip(pp + 1)] + rev_split_lines(
                            rem.take(pp),
                        ));
                    }
                    let lb = self.line_buf.split_off(0);
                    let line_vec = concat_slices(&process[n + 1..process.len()], lb.as_slice());
                    proof {
                        assert(line_vec@ =~= rem.skip(head.len() as int + n as int + 1));
                    }
                    let line = match String::from_utf8(line_vec) {
                        Ok(l) => l,
                        Err(e) => {
                            return Err(LineReaderError::Utf8(e));
                        },
                    };
                    let k = process.len() - n;
                    self.buffer.advance_processed(k);
                    proof {
                        assert(self.buffer.unproc_bwd() =~= u.take(n as int));
                        assert(self.remaining() =~= rem.take(head.len() as int + n as int));
                    }
                    return Ok(Some(line));
                },
                None => {
                    proof {
                        lemma_rfind_byte(u, NL);
                    }
                    let lb = self.line_buf.split_off(0);
                    let merged = concat_slices(process, lb.as_slice());
                    self.line_buf = merged;
                    proof {
                        assert forall|j: int| 0 <= j < self.line_buf@.len() implies self.line_buf@[j]
                            != NL by {
                            if j < u.len() {
                                assert(self.line_buf@[j] == u[j]);
                            } else {
                                assert(self.line_buf@[j] == lb0[j - u.len()]);
                            }
                        }
                        lemma_find_byte_none(self.line_buf@, NL);
                    }
                    self.fill_buffer();
                    proof {
                        assert(self.remaining() =~= rem);
                    }
                },
            }
        }
    }
}

/// Concatenate two byte slices into one freshly allocated vector.
pub fn concat_slices(pre: &[u8], post: &[u8]) -> (r: Vec<u8>)
    ensures
        r@ == pre@ + post@,
{
    let mut concatted: Vec<u8> = Vec::new();
    concatted.extend_from_slice(pre);
    concatted.extend_from_slice(post);
    proof {
        assert(concatted@ =~= pre@ + post@);
    }
    concatted
}

} // verus!
