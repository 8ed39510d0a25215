//! Byte-offset binary search over a sorted partition file.
//!
//! The search bisects the byte range of the file, not a record index: record
//! lengths vary, so each probe first walks backward from the probe offset to
//! the start of the record containing it, then reads that record forward and
//! asks a caller-supplied comparator where the target sorts relative to it.

use std::cmp::Ordering;
use vstd::prelude::*;
use vstd::utf8::{decode_utf8, encode_utf8, valid_utf8};

use crate::readline::{
    rev_split_lines, split_lines, FileLineReader, FileLineReverseReader, LineReaderError, ReaderResult,
    DEFAULT_SEEK_BUF_SIZE, NL,
};
use crate::util::{
    find_byte, lemma_find_byte, lemma_find_byte_none, lemma_find_byte_unique, lemma_rfind_byte,
    lemma_rfind_byte_none, lemma_rfind_byte_unique, rfind_byte,
};

verus! {

/// The byte offset at which each record of `s` begins, in record order.
pub open spec fn line_starts(s: Seq<u8>) -> Seq<int>
    decreases s.len(),
{
    match find_byte(s, NL) {
        None => seq![0int],
        Some(i) => {
            if 0 <= i < s.len() {
                seq![0int] + line_starts(s.skip(i + 1)).map(|_k: int, v: int| v + i + 1)
            } else {
                seq![0int]
            }
        },
    }
}

/// The start offset of the record that contains byte offset `pos`: the
/// offset just past the last delimiter before `pos`, or 0 when no delimiter
/// precedes it.
pub open spec fn line_start_of(s: Seq<u8>, pos: int) -> int {
    match rfind_byte(s.take(pos), NL) {
        None => 0,
        Some(p) => p + 1,
    }
}

/// The start offsets are aligned with the records: there is one per record,
/// the first is 0, each record lies at its start offset, and each but the
/// last is followed by its delimiter.
pub proof fn lemma_line_starts(s: Seq<u8>)
    ensures
        line_starts(s).len() == split_lines(s).len(),
        line_starts(s)[0] == 0,
        forall|k: int|
            0 <= k < line_starts(s).len() ==> 0 <= #[trigger] line_starts(s)[k]
                && line_starts(s)[k] + split_lines(s)[k].len() <= s.len(),
        forall|k: int|
            0 <= k < line_starts(s).len() ==> #[trigger] split_lines(s)[k] == s.subrange(
                line_starts(s)[k],
                line_starts(s)[k] + split_lines(s)[k].len(),
            ),
        forall|k: int|
            0 <= k < line_starts(s).len() - 1 ==> #[trigger] line_starts(s)[k + 1] == line_starts(
                s,
            )[k] + split_lines(s)[k].len() + 1 && s[line_starts(s)[k] + split_lines(s)[k].len()]
                == NL,
        line_starts(s).last() + split_lines(s).last().len() == s.len(),
    decreases s.len(),
{
    crate::readline::lemma_split_lines_wf(s);
    lemma_find_byte(s, NL);
    match find_byte(s, NL) {
        None => {
        },
        Some(i) => {
            let t = s.skip(i + 1);
            lemma_line_starts(t);
            let st = line_starts(s);
            let fr = split_lines(s);
            let stt = line_starts(t);
            let frt = split_lines(t);
            assert(st == seq![0int] + stt.map(|_k: int, v: int| v + i + 1));
            assert(fr == seq![s.take(i)] + frt);
            assert(st.len() == fr.len());
            assert forall|k: int| 0 <= k < st.len() implies 0 <= #[trigger] st[k] && st[k]
                + fr[k].len() <= s.len() by {
                if k > 0 {
                    assert(st[k] == stt[k - 1] + i + 1);
                    assert(fr[k] == frt[k - 1]);
                }
            }
            assert forall|k: int| 0 <= k < st.len() implies #[trigger] fr[k] == s.subrange(
                st[k],
                st[k] + fr[k].len(),
            ) by {
                if k == 0 {
                    assert(fr[0] == s.take(i));
                    assert(s.take(i) =~= s.subrange(0, i as int));
                } else {
                    assert(st[k] == stt[k - 1] + i + 1);
                    assert(fr[k] == frt[k - 1]);
                    assert(frt[k - 1] == t.subrange(stt[k - 1], stt[k - 1] + frt[k - 1].len()));
                    assert(t.subrange(stt[k - 1], stt[k - 1] + frt[k - 1].len()) =~= s.subrange(
                        st[k],
                        st[k] + fr[k].len(),
                    ));
                }
            }
            assert forall|k: int| 0 <= k < st.len() - 1 implies #[trigger] st[k + 1] == st[k]
                + fr[k].len() + 1 && s[st[k] + fr[k].len()] == NL by {
                if k == 0 {
                    assert(st[1] == stt[0] + i + 1);
                    assert(fr[0].len() == i);
                    assert(s[i] == NL);
                } else {
                    assert(st[k + 1] == stt[k] + i + 1);
                    assert(st[k] == stt[k - 1] + i + 1);
                    assert(fr[k] == frt[k - 1]);
                    assert(stt[k - 1 + 1] == stt[k - 1] + frt[k - 1].len() + 1);
                    assert(t[stt[k - 1] + frt[k - 1].len()] == NL);
                    assert(s[st[k] + fr[k].len()] == t[stt[k - 1] + frt[k - 1].len()]);
                }
            }
            assert(st.last() == stt.last() + i + 1);
            assert(fr.last() == frt.last());
        },
    }
}

/// Record starts strictly increase, by at least the record length plus its
/// delimiter.
pub proof fn lemma_line_starts_increase(s: Seq<u8>, k1: int, k2: int)
    requires
        0 <= k1 < k2 < line_starts(s).len(),
    ensures
        line_starts(s)[k2] >= line_starts(s)[k1] + split_lines(s)[k1].len() + 1,
    decreases k2 - k1,
{
    lemma_line_starts(s);
    if k2 == k1 + 1 {
    } else {
        lemma_line_starts_increase(s, k1 + 1, k2);
    }
}

/// Every offset of the file lies in exactly one record's byte span, and the
/// backward walk from it lands on that record's start.
pub proof fn lemma_pos_in_record(s: Seq<u8>, pos: int)
    requires
        0 <= pos <= s.len(),
    ensures
        exists|k: int|
            {
                &&& 0 <= k < line_starts(s).len()
                &&& #[trigger] line_starts(s)[k] <= pos <= line_starts(s)[k] + split_lines(
                    s,
                )[k].len()
                &&& line_start_of(s, pos) == line_starts(s)[k]
            },
    decreases s.len(),
{
    lemma_line_starts(s);
    lemma_find_byte(s, NL);
    match find_byte(s, NL) {
        None => {
            assert forall|j: int| 0 <= j < s.take(pos).len() implies #[trigger] s.take(pos)[j]
                != NL by {
                assert(s.take(pos)[j] == s[j]);
            }
            lemma_rfind_byte_none(s.take(pos), NL);
            assert(line_starts(s)[0] <= pos <= line_starts(s)[0] + split_lines(s)[0].len());
        },
        Some(i) => {
            if pos <= i {
                assert forall|j: int| 0 <= j < s.take(pos).len() implies #[trigger] s.take(pos)[j]
                    != NL by {
                    assert(s.take(pos)[j] == s[j]);
                }
                lemma_rfind_byte_none(s.take(pos), NL);
                assert(line_starts(s)[0] <= pos <= line_starts(s)[0] + split_lines(s)[0].len());
            } else {
                let t = s.skip(i + 1);
                let posr = pos - i - 1;
                lemma_pos_in_record(t, posr);
                let kt = choose|k: int|
                    {
                        &&& 0 <= k < line_starts(t).len()
                        &&& #[trigger] line_starts(t)[k] <= posr <= line_starts(t)[k] + split_lines(
                            t,
                        )[k].len()
                        &&& line_start_of(t, posr) == line_starts(t)[k]
                    };
                let k = kt + 1;
                assert(line_starts(s)[k] == line_starts(t)[kt] + i + 1);
                assert(split_lines(s)[k] == split_lines(t)[kt]);
                // Relate the backward delimiter search in s to the one in t.
                let tp = t.take(posr);
                let sp = s.take(pos);
                assert(sp =~= s.take(i + 1) + tp);
                match rfind_byte(tp, NL) {
                    Some(p) => {
                        lemma_rfind_byte(tp, NL);
                        assert(sp[i + 1 + p] == tp[p]);
                        assert forall|j: int| i + 1 + p < j < sp.len() implies #[trigger] sp[j]
                            != NL by {
                            assert(sp[j] == tp[j - i - 1]);
                        }
                        lemma_rfind_byte_unique(sp, NL, i + 1 + p);
                    },
                    None => {
                        lemma_rfind_byte(tp, NL);
                        assert(sp[i as int] == NL);
                        assert forall|j: int| i < j < sp.len() implies #[trigger] sp[j] != NL by {
                            if j > i {
                                assert(sp[j] == tp[j - i - 1]);
                            }
                        }
                        lemma_rfind_byte_unique(sp, NL, i as int);
                    },
                }
                assert(line_start_of(s, pos) == line_starts(s)[k]);
            }
        },
    }
}

/// Reading forward from a record's start yields exactly that record first.
pub proof fn lemma_forward_from_start(s: Seq<u8>, k: int)
    requires
        0 <= k < line_starts(s).len(),
    ensures
        split_lines(s.skip(line_starts(s)[k]))[0] == split_lines(s)[k],
        split_lines(s.skip(line_starts(s)[k])).len() >= 1,
    decreases s.len(),
{
    lemma_line_starts(s);
    lemma_find_byte(s, NL);
    crate::readline::lemma_split_lines_wf(s.skip(line_starts(s)[k]));
    match find_byte(s, NL) {
        None => {
            assert(s.skip(line_starts(s)[0]) =~= s);
        },
        Some(i) => {
            if k == 0 {
                assert(s.skip(0) =~= s);
            } else {
                let t = s.skip(i + 1);
                lemma_forward_from_start(t, k - 1);
                lemma_line_starts(t);
                assert(line_starts(s)[k] == line_starts(t)[k - 1] + i + 1);
                assert(s.skip(line_starts(s)[k]) =~= t.skip(line_starts(t)[k - 1]));
                assert(split_lines(s)[k] == split_lines(t)[k - 1]);
            }
        },
    }
}

/// All bytes ASCII.
pub open spec fn ascii_bytes(s: Seq<u8>) -> bool {
    forall|j: int| 0 <= j < s.len() ==> #[trigger] s[j] < 128
}

/// An all-ASCII byte sequence is valid UTF-8, decodes to characters whose
/// codes are its bytes, and re-encodes to itself.
pub proof fn lemma_ascii_valid(s: Seq<u8>)
    ensures
        ascii_bytes(s) ==> valid_utf8(s) && encode_utf8(decode_utf8(s)) == s && decode_utf8(
            s,
        ).len() == s.len(),
{
    if ascii_bytes(s) {
        assert(vstd::utf8::partial_valid_utf8(s, 0)) by {
            assert(s.subrange(0, 0) =~= Seq::<u8>::empty());
        }
        assert forall|j: int| 0 <= 0 <= j < s.len() <= s.len() implies #[trigger] vstd::utf8::is_leading_byte_width_1(
            s[j],
        ) by {
            assert(s[j] < 128);
        }
        vstd::utf8::partial_valid_utf8_extend_ascii_block(s, 0, s.len() as int);
        assert(s.subrange(0, s.len() as int) =~= s);
        vstd::utf8::decode_utf8_encode_utf8(s);
        lemma_ascii_decode_len(s);
    }
}

/// Decoding an ASCII byte sequence yields one character per byte.
proof fn lemma_ascii_decode_len(s: Seq<u8>)
    requires
        ascii_bytes(s),
        valid_utf8(s),
    ensures
        decode_utf8(s).len() == s.len(),
    decreases s.len(),
{
    if s.len() > 0 {
        assert(vstd::utf8::is_leading_byte_width_1(s[0]));
        let rest = vstd::utf8::pop_first_scalar(s);
        assert(rest =~= s.skip(1));
        assert forall|j: int| 0 <= j < rest.len() implies #[trigger] rest[j] < 128 by {
            assert(rest[j] == s[j + 1]);
        }
        lemma_ascii_decode_len(rest);
    }
}

/// A comparator function agrees with the mathematical comparator `c`: it is
/// callable on every record, and every result it may return is the ordering
/// `c` gives for that record, or an error exactly where `c` gives none.
pub open spec fn cmp_consistent<F: Fn(&str) -> ReaderResult<Ordering>>(
    f: F,
    c: spec_fn(Seq<char>) -> Option<Ordering>,
) -> bool {
    &&& forall|l: &str| #[trigger] f.requires((l,))
    &&& forall|l: &str, r: ReaderResult<Ordering>|
        #[trigger] f.ensures((l,), r) ==> (match c(l@) {
            Some(o) => r == Ok::<Ordering, LineReaderError>(o),
            None => r is Err,
        })
}

/// Where the target sorts relative to record `k` of `s` under the
/// mathematical comparator `c`; `None` when the record cannot be decoded or
/// compared.
pub open spec fn rec_ord(s: Seq<u8>, c: spec_fn(Seq<char>) -> Option<Ordering>, k: int) -> Option<
    Ordering,
> {
    if valid_utf8(split_lines(s)[k]) {
        c(decode_utf8(split_lines(s)[k]))
    } else {
        None
    }
}

/// File shape under which the bisection is exact: every record is non-empty
/// ASCII text (so the file does not end on a delimiter and no probe can cut
/// a record's character in half), and the first record is at least two bytes
/// long (a one-byte first record can make a probe land on offset 0, which
/// reports no record).
pub open spec fn searchable(s: Seq<u8>) -> bool {
    &&& forall|k: int|
        0 <= k < split_lines(s).len() ==> (#[trigger] split_lines(s)[k]).len() >= 1 && ascii_bytes(
            split_lines(s)[k],
        )
    &&& split_lines(s)[0].len() >= 2
}

/// `c` orders every record of `s`.
pub open spec fn cmp_total(s: Seq<u8>, c: spec_fn(Seq<char>) -> Option<Ordering>) -> bool {
    forall|k: int| 0 <= k < split_lines(s).len() ==> (#[trigger] rec_ord(s, c, k)) is Some
}

/// The records of `s` are sorted with respect to the target: once a record
/// sorts before the target all earlier ones do, and once one sorts after it
/// all later ones do.
pub open spec fn cmp_monotone(s: Seq<u8>, c: spec_fn(Seq<char>) -> Option<Ordering>) -> bool {
    forall|k1: int, k2: int|
        #![trigger rec_ord(s, c, k1), rec_ord(s, c, k2)]
        0 <= k1 < k2 < split_lines(s).len() ==> {
            &&& (rec_ord(s, c, k1) == Some(Ordering::Greater) ==> rec_ord(s, c, k2) == Some(
                Ordering::Greater,
            ))
            &&& (rec_ord(s, c, k2) == Some(Ordering::Less) ==> rec_ord(s, c, k1) == Some(
                Ordering::Less,
            ))
        }
}

/// What the bisection finds over a searchable sorted file: the start offset
/// of a matching record; no offset when the target sorts before every
/// record or after every record; and the start offset of the first record
/// past the target when the target falls between two records.
pub open spec fn seek_outcome(
    s: Seq<u8>,
    c: spec_fn(Seq<char>) -> Option<Ordering>,
    r: Option<usize>,
) -> bool {
    let n = split_lines(s).len() as int;
    &&& ((exists|k: int| 0 <= k < n && #[trigger] rec_ord(s, c, k) == Some(Ordering::Equal))
        ==> exists|k: int|
        0 <= k < n && #[trigger] rec_ord(s, c, k) == Some(Ordering::Equal) && r == Some(
            line_starts(s)[k] as usize,
        ))
    &&& ((forall|k: int| 0 <= k < n ==> #[trigger] rec_ord(s, c, k) == Some(Ordering::Less))
        ==> r is None)
    &&& ((forall|k: int| 0 <= k < n ==> #[trigger] rec_ord(s, c, k) == Some(Ordering::Greater))
        ==> r is None)
    &&& (forall|b: int|
        (0 < b < n && #[trigger] rec_ord(s, c, b) == Some(Ordering::Greater) && (forall|k: int|
            0 <= k < b ==> #[trigger] rec_ord(s, c, k) == Some(Ordering::Less))) ==> r == Some(
            line_starts(s)[b] as usize,
        ))
}

/// The bracket the bisection maintains around the records still in play.
pub open spec fn seek_inv(
    s: Seq<u8>,
    c: spec_fn(Seq<char>) -> Option<Ordering>,
    left: int,
    right: int,
) -> bool {
    let n = split_lines(s).len() as int;
    let st = line_starts(s);
    &&& ((exists|k: int| 0 <= k < n && #[trigger] rec_ord(s, c, k) == Some(Ordering::Equal))
        ==> exists|k: int|
        0 <= k < n && #[trigger] rec_ord(s, c, k) == Some(Ordering::Equal) && left <= st[k] < right)
    &&& ((forall|k: int| 0 <= k < n ==> #[trigger] rec_ord(s, c, k) == Some(Ordering::Less))
        ==> right == s.len() && left <= st[n - 1])
    &&& ((forall|k: int| 0 <= k < n ==> #[trigger] rec_ord(s, c, k) == Some(Ordering::Greater))
        ==> left == 0)
    &&& (forall|b: int|
        (0 < b < n && #[trigger] rec_ord(s, c, b) == Some(Ordering::Greater) && (forall|k: int|
            0 <= k < b ==> #[trigger] rec_ord(s, c, k) == Some(Ordering::Less))) ==> left <= st[b]
            && right >= st[b] - 1)
}

/// Record starts never decrease.
pub proof fn lemma_line_starts_le(s: Seq<u8>, k1: int, k2: int)
    requires
        0 <= k1 <= k2 < line_starts(s).len(),
    ensures
        line_starts(s)[k1] <= line_starts(s)[k2],
{
    if k1 < k2 {
        lemma_line_starts_increase(s, k1, k2);
        crate::readline::lemma_split_lines_wf(s);
    }
}

/// Binary search for a record by byte-offset bisection, driven by a
/// caller-supplied three-way comparator over decoded records.
pub struct BinarySearch<F> where F: Fn(&str) -> ReaderResult<Ordering> {
    content: Vec<u8>,
    cmp: F,
    buffer_size: usize,
}

impl<F> BinarySearch<F> where F: Fn(&str) -> ReaderResult<Ordering> {
    pub closed spec fn contents(self) -> Seq<u8> {
        self.content@
    }

    pub closed spec fn cmp_fn(self) -> F {
        self.cmp
    }

    pub closed spec fn spec_buffer_size(self) -> int {
        self.buffer_size as int
    }

    pub fn new(content: Vec<u8>, cmp: F) -> (r: BinarySearch<F>)
        ensures
            r.contents() == content@,
            r.cmp_fn() == cmp,
            r.spec_buffer_size() == DEFAULT_SEEK_BUF_SIZE as int,
    {
        BinarySearch { content, cmp, buffer_size: DEFAULT_SEEK_BUF_SIZE }
    }

    /// Replace the working-buffer capacity used by the probe scanners.
    pub fn buffer_size(self, size: usize) -> (r: BinarySearch<F>)
        requires
            size >= 1,
        ensures
            r.contents() == self.contents(),
            r.cmp_fn() == self.cmp_fn(),
            r.spec_buffer_size() == size,
    {
        BinarySearch { content: self.content, cmp: self.cmp, buffer_size: size }
    }

    /// Walk backward from `pos` to the start of the record containing it.
    /// At `pos` 0 there is no record to report; a record whose bytes up to
    /// `pos` are not valid UTF-8 fails to decode.
    fn line_start(content: Vec<u8>, pos: usize, buffer_size: usize) -> (r: (
        ReaderResult<Option<usize>>,
        Vec<u8>,
    ))
        requires
            buffer_size >= 1,
            pos <= content@.len(),
        ensures
            r.1@ == content@,
            match r.0 {
                Ok(Some(st)) => pos > 0 && st == line_start_of(content@, pos as int) && valid_utf8(
                    content@.subrange(st as int, pos as int),
                ),
                Ok(None) => pos == 0,
                Err(e) => pos > 0 && !valid_utf8(
                    content@.subrange(line_start_of(content@, pos as int), pos as int),
                ) && e is Utf8,
            },
    {
        let ghost s = content@;
        let mut backwards = FileLineReverseReader::with_buffer_size(content, buffer_size);
        backwards.seek(pos);
        let ghost sp = s.take(pos as int);
        proof {
            lemma_rfind_byte(sp, NL);
            match rfind_byte(sp, NL) {
                None => {
                    if sp.len() > 0 {
                        assert(backwards.pending() == seq![sp]);
                    }
                },
                Some(q) => {
                    assert(backwards.pending() == seq![sp.skip(q + 1)] + rev_split_lines(
                        sp.take(q),
                    ));
                },
            }
        }
        let res = backwards.next_line();
        let content = backwards.into_contents();
        match res {
            Ok(Some(line)) => {
                let l = line.as_str().len();
                proof {
                    let partial = if rfind_byte(sp, NL) is Some {
                        sp.skip(rfind_byte(sp, NL)->0 + 1)
                    } else {
                        sp
                    };
                    assert(line@ == decode_utf8(partial));
                    vstd::utf8::decode_utf8_encode_utf8(partial);
                    assert(l == partial.len());
                    match rfind_byte(sp, NL) {
                        None => {
                            assert(partial =~= s.subrange(0, pos as int));
                        },
                        Some(q) => {
                            assert(sp[q] == s[q]);
                            assert(partial =~= s.subrange(q + 1, pos as int));
                        },
                    }
                }
                (Ok(Some(pos - l)), content)
            },
            Ok(None) => {
                proof {
                    if pos > 0 {
                        assert(backwards.pending().len() > 0);
                    }
                }
                (Ok(None), content)
            },
            Err(e) => {
                proof {
                    let partial = if rfind_byte(sp, NL) is Some {
                        sp.skip(rfind_byte(sp, NL)->0 + 1)
                    } else {
                        sp
                    };
                    match rfind_byte(sp, NL) {
                        None => {
                            assert(partial =~= s.subrange(0, pos as int));
                        },
                        Some(q) => {
                            assert(partial =~= s.subrange(q + 1, pos as int));
                        },
                    }
                }
                (Err(e), content)
            },
        }
    }

    /// Bisect the file for the record the comparator reports as a match.
    ///
    /// Over a searchable file whose records are sorted for the target (see
    /// `searchable`, `cmp_total` and `cmp_monotone`), the result is exactly
    /// `seek_outcome`: the matching record's start offset, the insertion
    /// offset between two records, or no offset when the target sorts
    /// before or after every record. An empty file reports no offset at
    /// once.
    #[verifier::rlimit(100)]
    pub fn seek(self) -> (r: ReaderResult<Option<usize>>)
        requires
            self.spec_buffer_size() >= 1,
            self.contents().len() < usize::MAX,
            forall|l: &str| #[trigger] self.cmp_fn().requires((l,)),
        ensures
            self.contents().len() == 0 ==> r == Ok::<Option<usize>, LineReaderError>(
                None::<usize>,
            ),
            forall|c: spec_fn(Seq<char>) -> Option<Ordering>|
                (#[trigger] cmp_consistent(self.cmp_fn(), c) && searchable(self.contents())
                    && cmp_total(self.contents(), c) && cmp_monotone(self.contents(), c)
                    && self.contents().len() > 0) ==> (r matches Ok(v) && seek_outcome(
                    self.contents(),
                    c,
                    v,
                )),
    {
        let BinarySearch { content, cmp, buffer_size } = self;
        proof {
            assert(cmp == self.cmp_fn());
            assert(content@ == self.contents());
        }
        let ghost s = content@;
        let ghost n = split_lines(s).len() as int;
        let ghost st = line_starts(s);
        let file_len = content.len();
        if file_len == 0 {
            return Ok(None);
        }
        proof {
            lemma_line_starts(s);
            crate::readline::lemma_split_lines_wf(s);
        }
        let mut left: usize = 0;
        let mut right: usize = file_len;
        let mut content = content;
        loop
            invariant
                s == self.contents(),
                cmp == self.cmp_fn(),
                content@ == s,
                st == line_starts(s),
                n == split_lines(s).len() as int,
                file_len == s.len(),
                0 < file_len < usize::MAX,
                buffer_size >= 1,
                left <= file_len,
                right <= file_len,
                forall|l: &str| #[trigger] cmp.requires((l,)),
                right == s.len() || (exists|j: int|
                    1 <= j < split_lines(s).len() && right == #[trigger] line_starts(s)[j] - 1),
                forall|c: spec_fn(Seq<char>) -> Option<Ordering>|
                    (#[trigger] cmp_consistent(cmp, c) && searchable(s) && cmp_total(s, c)
                        && cmp_monotone(s, c)) ==> seek_inv(s, c, left as int, right as int),
            decreases (if right >= left {
                right - left
            } else {
                0int
            }),
        {
            proof {
                lemma_line_starts(s);
                crate::readline::lemma_split_lines_wf(s);
            }
            if left >= right {
                let mid = right + (left - right) / 2;
                proof {
                    assert forall|c: spec_fn(Seq<char>) -> Option<Ordering>|
                        (#[trigger] cmp_consistent(cmp, c) && searchable(s) && cmp_total(s, c)
                            && cmp_monotone(s, c)) implies seek_outcome(
                        s,
                        c,
                        Some((mid + 1) as usize),
                    ) by {
                        lemma_seek_exit(s, c, left as int, right as int, mid as int);
                    }
                }
                return Ok(Some(mid + 1));
            }
            let mid = left + (right - left) / 2;
            let (ls_res, content2) = Self::line_start(content, mid, buffer_size);
            content = content2;
            let line_start = match ls_res {
                Ok(Some(v)) => v,
                Ok(None) => {
                    proof {
                        assert forall|c: spec_fn(Seq<char>) -> Option<Ordering>|
                            (#[trigger] cmp_consistent(cmp, c) && searchable(s) && cmp_total(s, c)
                                && cmp_monotone(s, c)) implies seek_outcome(
                            s,
                            c,
                            None::<usize>,
                        ) by {
                            lemma_searchable_bounds(s);
                            assert(left as int == 0 && right as int == 1);
                            if right as int == s.len() {
                                assert(false);
                            } else {
                                let i = choose|i: int|
                                    1 <= i < split_lines(s).len() && right as int
                                        == #[trigger] line_starts(s)[i] - 1;
                                assert(line_starts(s)[i] >= 3);
                                assert(false);
                            }
                        }
                    }
                    return Ok(None);
                },
                Err(e) => {
                    proof {
                        lemma_pos_in_record(s, mid as int);
                        let j = choose|k: int|
                            {
                                &&& 0 <= k < line_starts(s).len()
                                &&& #[trigger] line_starts(s)[k] <= mid as int <= line_starts(s)[k]
                                    + split_lines(s)[k].len()
                                &&& line_start_of(s, mid as int) == line_starts(s)[k]
                            };
                        assert(0 <= j < line_starts(s).len());
                        assert(line_starts(s)[j] <= mid as int <= line_starts(s)[j] + split_lines(
                            s,
                        )[j].len());
                        assert forall|c: spec_fn(Seq<char>) -> Option<Ordering>|
                            (#[trigger] cmp_consistent(cmp, c) && searchable(s) && cmp_total(s, c)
                                && cmp_monotone(s, c)) implies false by {
                            assert(split_lines(s)[j].len() >= 1);
                            assert(ascii_bytes(split_lines(s)[j]));
                            assert(split_lines(s)[j] == s.subrange(
                                st[j],
                                st[j] + split_lines(s)[j].len(),
                            ));
                            let partial = s.subrange(st[j], mid as int);
                            assert forall|q: int| 0 <= q < partial.len() implies #[trigger] partial[q]
                                < 128 by {
                                assert(partial[q] == s[st[j] + q]);
                                assert(split_lines(s)[j][q] == s[st[j] + q]);
                                assert(split_lines(s)[j][q] < 128);
                            }
                            lemma_ascii_valid(partial);
                        };
                    }
                    return Err(e);
                },
            };
            let ghost j = choose|k: int|
                {
                    &&& 0 <= k < line_starts(s).len()
                    &&& #[trigger] line_starts(s)[k] <= mid as int <= line_starts(s)[k]
                        + split_lines(s)[k].len()
                    &&& line_start_of(s, mid as int) == line_starts(s)[k]
                };
            proof {
                lemma_pos_in_record(s, mid as int);
                assert(line_start == st[j]);
                lemma_forward_from_start(s, j);
            }
            let mut forwards = FileLineReader::with_buffer_size(content, buffer_size);
            forwards.seek(line_start);
            let line_res = forwards.next_line();
            content = forwards.into_contents();
            let line = match line_res {
                Ok(Some(l)) => l,
                Ok(None) => {
                    proof {
                        assert(false);
                    }
                    return Ok(None);
                },
                Err(e) => {
                    proof {
                        assert forall|c: spec_fn(Seq<char>) -> Option<Ordering>|
                            (#[trigger] cmp_consistent(cmp, c) && searchable(s) && cmp_total(s, c)
                                && cmp_monotone(s, c)) implies false by {
                            lemma_ascii_valid(split_lines(s)[j]);
                        };
                    }
                    return Err(e);
                },
            };
            proof {
                assert(line@ == decode_utf8(split_lines(s)[j]));
                vstd::utf8::decode_utf8_encode_utf8(split_lines(s)[j]);
            }
            let line_len = line.as_str().len();
            proof {
                assert(line_len == split_lines(s)[j].len());
            }
            let line_ref = line.as_str();
            let cres = cmp(line_ref);
            let ord = match cres {
                Ok(o) => o,
                Err(e) => {
                    proof {
                        assert forall|c: spec_fn(Seq<char>) -> Option<Ordering>|
                            (#[trigger] cmp_consistent(cmp, c) && searchable(s) && cmp_total(s, c)
                                && cmp_monotone(s, c)) implies false by {
                            assert(cmp.ensures((line_ref,), cres));
                            assert(rec_ord(s, c, j) == c(line@));
                        };
                    }
                    return Err(e);
                },
            };
            match ord {
                Ordering::Less => {
                    proof {
                        assert forall|c: spec_fn(Seq<char>) -> Option<Ordering>|
                            (#[trigger] cmp_consistent(cmp, c) && cmp_total(s, c)) implies rec_ord(
                            s,
                            c,
                            j,
                        ) == Some(Ordering::Less) by {
                            assert(cmp.ensures((line_ref,), cres));
                            assert(rec_ord(s, c, j) == c(line@));
                        }
                    }
                    let new_left = line_start + line_len + 1;
                    if new_left > file_len {
                        proof {
                            assert forall|c: spec_fn(Seq<char>) -> Option<Ordering>|
                                (#[trigger] cmp_consistent(cmp, c) && searchable(s) && cmp_total(
                                    s,
                                    c,
                                ) && cmp_monotone(s, c)) implies seek_outcome(
                                s,
                                c,
                                None::<usize>,
                            ) by {
                                lemma_less_overshoot(s, c, j);
                            }
                        }
                        return Ok(None);
                    }
                    let ghost left0 = left as int;
                    left = new_left;
                    proof {
                        assert forall|c: spec_fn(Seq<char>) -> Option<Ordering>|
                            (#[trigger] cmp_consistent(cmp, c) && searchable(s) && cmp_total(s, c)
                                && cmp_monotone(s, c)) implies seek_inv(
                            s,
                            c,
                            left as int,
                            right as int,
                        ) by {
                            lemma_inv_less(s, c, left0, right as int, left as int, j);
                        }
                    }
                },
                Ordering::Equal => {
                    proof {
                        assert forall|c: spec_fn(Seq<char>) -> Option<Ordering>|
                            (#[trigger] cmp_consistent(cmp, c) && searchable(s) && cmp_total(s, c)
                                && cmp_monotone(s, c)) implies seek_outcome(
                            s,
                            c,
                            Some(line_start),
                        ) by {
                            assert(cmp.ensures((line_ref,), cres));
                            assert(rec_ord(s, c, j) == c(line@));
                            lemma_equal_found(s, c, j);
                        }
                    }
                    return Ok(Some(line_start));
                },
                Ordering::Greater => {
                    proof {
                        assert forall|c: spec_fn(Seq<char>) -> Option<Ordering>|
                            (#[trigger] cmp_consistent(cmp, c) && cmp_total(s, c)) implies rec_ord(
                            s,
                            c,
                            j,
                        ) == Some(Ordering::Greater) by {
                            assert(cmp.ensures((line_ref,), cres));
                            assert(rec_ord(s, c, j) == c(line@));
                        }
                    }
                    if line_start == 0 {
                        proof {
                            assert forall|c: spec_fn(Seq<char>) -> Option<Ordering>|
                                (#[trigger] cmp_consistent(cmp, c) && searchable(s) && cmp_total(
                                    s,
                                    c,
                                ) && cmp_monotone(s, c)) implies seek_outcome(
                                s,
                                c,
                                None::<usize>,
                            ) by {
                                lemma_greater_at_first(s, c, j);
                            }
                        }
                        return Ok(None);
                    }
                    let ghost right0 = right as int;
                    right = line_start - 1;
                    proof {
                        assert forall|c: spec_fn(Seq<char>) -> Option<Ordering>|
                            (#[trigger] cmp_consistent(cmp, c) && searchable(s) && cmp_total(s, c)
                                && cmp_monotone(s, c)) implies seek_inv(
                            s,
                            c,
                            left as int,
                            right as int,
                        ) by {
                            lemma_inv_greater(s, c, left as int, right0, j);
                        }
                    }
                },
            }
        }
    }
}

proof fn lemma_inv_less(
    s: Seq<u8>,
    c: spec_fn(Seq<char>) -> Option<Ordering>,
    left0: int,
    right0: int,
    new_left: int,
    j: int,
)
    requires
        searchable(s),
        cmp_total(s, c),
        cmp_monotone(s, c),
        seek_inv(s, c, left0, right0),
        0 <= j < split_lines(s).len(),
        rec_ord(s, c, j) == Some(Ordering::Less),
        new_left == line_starts(s)[j] + split_lines(s)[j].len() + 1,
        new_left <= s.len(),
    ensures
        seek_inv(s, c, new_left, right0),
{
    lemma_line_starts(s);
    crate::readline::lemma_split_lines_wf(s);
    let n = split_lines(s).len() as int;
    let st = line_starts(s);
    assert(j < n - 1) by {
        if j == n - 1 {
            assert(st[n - 1] + split_lines(s)[n - 1].len() == s.len());
        }
    }
    assert(new_left == st[j + 1]);
    // A matching record, if any, lies past record j.
    if exists|k: int| 0 <= k < n && #[trigger] rec_ord(s, c, k) == Some(Ordering::Equal) {
        let k = choose|k: int|
            0 <= k < n && #[trigger] rec_ord(s, c, k) == Some(Ordering::Equal) && left0 <= st[k]
                < right0;
        assert(j < k) by {
            if k < j {
                assert(rec_ord(s, c, k) == Some(Ordering::Less));
            }
        }
        lemma_line_starts_le(s, j + 1, k);
        assert(rec_ord(s, c, k) == Some(Ordering::Equal) && new_left <= st[k] < right0);
    }
    if forall|k: int| 0 <= k < n ==> #[trigger] rec_ord(s, c, k) == Some(Ordering::Less) {
        lemma_line_starts_le(s, j + 1, n - 1);
    }
    assert forall|b: int|
        (0 < b < n && #[trigger] rec_ord(s, c, b) == Some(Ordering::Greater) && (forall|k: int|
            0 <= k < b ==> #[trigger] rec_ord(s, c, k) == Some(Ordering::Less))) implies new_left
        <= st[b] && right0 >= st[b] - 1 by {
        assert(j < b) by {
            if b < j {
                assert(rec_ord(s, c, b) == Some(Ordering::Less));
            } else if b == j {
            } else {
            }
            if j > b {
                assert(rec_ord(s, c, j) == Some(Ordering::Greater));
            }
        }
        lemma_line_starts_le(s, j + 1, b);
    }
}

proof fn lemma_inv_greater(
    s: Seq<u8>,
    c: spec_fn(Seq<char>) -> Option<Ordering>,
    left0: int,
    right0: int,
    j: int,
)
    requires
        searchable(s),
        cmp_total(s, c),
        cmp_monotone(s, c),
        seek_inv(s, c, left0, right0),
        0 <= j < split_lines(s).len(),
        rec_ord(s, c, j) == Some(Ordering::Greater),
        line_starts(s)[j] >= 1,
    ensures
        seek_inv(s, c, left0, line_starts(s)[j] - 1),
{
    lemma_line_starts(s);
    crate::readline::lemma_split_lines_wf(s);
    let n = split_lines(s).len() as int;
    let st = line_starts(s);
    if exists|k: int| 0 <= k < n && #[trigger] rec_ord(s, c, k) == Some(Ordering::Equal) {
        let k = choose|k: int|
            0 <= k < n && #[trigger] rec_ord(s, c, k) == Some(Ordering::Equal) && left0 <= st[k]
                < right0;
        assert(k < j) by {
            if j < k {
                assert(rec_ord(s, c, k) == Some(Ordering::Greater));
            }
        }
        lemma_line_starts_increase(s, k, j);
        assert(rec_ord(s, c, k) == Some(Ordering::Equal) && left0 <= st[k] < st[j] - 1);
    }
    if forall|k: int| 0 <= k < n ==> #[trigger] rec_ord(s, c, k) == Some(Ordering::Less) {
        assert(rec_ord(s, c, j) == Some(Ordering::Less));
        assert(false);
    }
    assert forall|b: int|
        (0 < b < n && #[trigger] rec_ord(s, c, b) == Some(Ordering::Greater) && (forall|k: int|
            0 <= k < b ==> #[trigger] rec_ord(s, c, k) == Some(Ordering::Less))) implies left0
        <= st[b] && st[j] - 1 >= st[b] - 1 by {
        assert(b <= j) by {
            if j < b {
                assert(rec_ord(s, c, j) == Some(Ordering::Less));
            }
        }
        lemma_line_starts_le(s, b, j);
    }
}

proof fn lemma_equal_found(s: Seq<u8>, c: spec_fn(Seq<char>) -> Option<Ordering>, j: int)
    requires
        searchable(s),
        cmp_total(s, c),
        cmp_monotone(s, c),
        0 <= j < split_lines(s).len(),
        rec_ord(s, c, j) == Some(Ordering::Equal),
    ensures
        seek_outcome(s, c, Some(line_starts(s)[j] as usize)),
{
    lemma_line_starts(s);
    crate::readline::lemma_split_lines_wf(s);
    let n = split_lines(s).len() as int;
    let st = line_starts(s);
    assert(0 <= st[j] <= s.len());
    assert(rec_ord(s, c, j) == Some(Ordering::Equal) && Some(st[j] as usize) == Some(
        st[j] as usize,
    ));
    assert forall|b: int|
        (0 < b < n && #[trigger] rec_ord(s, c, b) == Some(Ordering::Greater) && (forall|k: int|
            0 <= k < b ==> #[trigger] rec_ord(s, c, k) == Some(Ordering::Less))) implies Some(
        st[j] as usize,
    ) == Some(st[b] as usize) by {
        if j < b {
            assert(rec_ord(s, c, j) == Some(Ordering::Less));
        } else if j > b {
            assert(rec_ord(s, c, j) == Some(Ordering::Greater));
        }
        assert(false);
    }
}

proof fn lemma_less_overshoot(s: Seq<u8>, c: spec_fn(Seq<char>) -> Option<Ordering>, j: int)
    requires
        searchable(s),
        cmp_total(s, c),
        cmp_monotone(s, c),
        0 <= j < split_lines(s).len(),
        rec_ord(s, c, j) == Some(Ordering::Less),
        line_starts(s)[j] + split_lines(s)[j].len() + 1 > s.len(),
    ensures
        seek_outcome(s, c, None::<usize>),
{
    lemma_line_starts(s);
    crate::readline::lemma_split_lines_wf(s);
    let n = split_lines(s).len() as int;
    let st = line_starts(s);
    assert(j == n - 1) by {
        if j < n - 1 {
            lemma_line_starts_le(s, j + 1, n - 1);
            assert(st[j + 1] == st[j] + split_lines(s)[j].len() + 1);
            assert(st[n - 1] + split_lines(s)[n - 1].len() == s.len());
        }
    }
    // Every record sorts before the target, so no match and no boundary.
    assert forall|k: int| 0 <= k < n implies #[trigger] rec_ord(s, c, k) == Some(
        Ordering::Less,
    ) by {
        if k < n - 1 {
            assert(rec_ord(s, c, n - 1) == Some(Ordering::Less));
        }
    }
    if exists|k: int| 0 <= k < n && #[trigger] rec_ord(s, c, k) == Some(Ordering::Equal) {
        let k = choose|k: int| 0 <= k < n && #[trigger] rec_ord(s, c, k) == Some(Ordering::Equal);
        assert(rec_ord(s, c, k) == Some(Ordering::Less));
        assert(false);
    }
}

proof fn lemma_greater_at_first(s: Seq<u8>, c: spec_fn(Seq<char>) -> Option<Ordering>, j: int)
    requires
        searchable(s),
        cmp_total(s, c),
        cmp_monotone(s, c),
        0 <= j < split_lines(s).len(),
        rec_ord(s, c, j) == Some(Ordering::Greater),
        line_starts(s)[j] == 0,
    ensures
        seek_outcome(s, c, None::<usize>),
{
    lemma_line_starts(s);
    crate::readline::lemma_split_lines_wf(s);
    let n = split_lines(s).len() as int;
    let st = line_starts(s);
    assert(j == 0) by {
        if j > 0 {
            lemma_line_starts_increase(s, 0, j);
        }
    }
    assert forall|k: int| 0 <= k < n implies #[trigger] rec_ord(s, c, k) == Some(
        Ordering::Greater,
    ) by {
        if k > 0 {
            assert(rec_ord(s, c, 0) == Some(Ordering::Greater));
        }
    }
    if exists|k: int| 0 <= k < n && #[trigger] rec_ord(s, c, k) == Some(Ordering::Equal) {
        let k = choose|k: int| 0 <= k < n && #[trigger] rec_ord(s, c, k) == Some(Ordering::Equal);
        assert(rec_ord(s, c, k) == Some(Ordering::Greater));
        assert(false);
    }
    assert forall|b: int|
        (0 < b < n && #[trigger] rec_ord(s, c, b) == Some(Ordering::Greater) && (forall|k: int|
            0 <= k < b ==> #[trigger] rec_ord(s, c, k) == Some(Ordering::Less))) implies None::<
        usize,
    > == Some(st[b] as usize) by {
        assert(rec_ord(s, c, 0) == Some(Ordering::Less));
        assert(false);
    }
}

proof fn lemma_searchable_bounds(s: Seq<u8>)
    requires
        searchable(s),
    ensures
        s.len() >= 2,
        forall|i: int| 1 <= i < line_starts(s).len() ==> #[trigger] line_starts(s)[i] >= 3,
{
    lemma_line_starts(s);
    crate::readline::lemma_split_lines_wf(s);
    let st = line_starts(s);
    assert(st[0] + split_lines(s)[0].len() <= s.len());
    assert(split_lines(s)[0].len() >= 2);
    assert forall|i: int| 1 <= i < line_starts(s).len() implies #[trigger] line_starts(s)[i]
        >= 3 by {
        lemma_line_starts_le(s, 1, i);
        assert(st[1] == st[0] + split_lines(s)[0].len() + 1);
    }
}

proof fn lemma_seek_exit(
    s: Seq<u8>,
    c: spec_fn(Seq<char>) -> Option<Ordering>,
    left0: int,
    right0: int,
    mid: int,
)
    requires
        searchable(s),
        cmp_total(s, c),
        cmp_monotone(s, c),
        seek_inv(s, c, left0, right0),
        left0 >= right0,
        left0 <= s.len(),
        s.len() > 0,
        right0 == s.len() || (exists|i: int|
            1 <= i < split_lines(s).len() && right0 == #[trigger] line_starts(s)[i] - 1),
        mid == right0 + (left0 - right0) / 2,
    ensures
        seek_outcome(s, c, Some((mid + 1) as usize)),
{
    lemma_line_starts(s);
    crate::readline::lemma_split_lines_wf(s);
    let n = split_lines(s).len() as int;
    let st = line_starts(s);
    if exists|k: int| 0 <= k < n && #[trigger] rec_ord(s, c, k) == Some(Ordering::Equal) {
        let k = choose|k: int|
            0 <= k < n && #[trigger] rec_ord(s, c, k) == Some(Ordering::Equal) && left0 <= st[k]
                < right0;
        assert(false);
    }
    if forall|k: int| 0 <= k < n ==> #[trigger] rec_ord(s, c, k) == Some(Ordering::Less) {
        assert(right0 == s.len() && left0 <= st[n - 1]);
        assert(st[n - 1] + split_lines(s)[n - 1].len() == s.len());
        assert(split_lines(s)[n - 1].len() >= 1);
        assert(false);
    }
    if forall|k: int| 0 <= k < n ==> #[trigger] rec_ord(s, c, k) == Some(Ordering::Greater) {
        assert(left0 == 0);
        if right0 == s.len() {
            assert(false);
        } else {
            let i = choose|i: int|
                1 <= i < split_lines(s).len() && right0 == #[trigger] line_starts(s)[i] - 1;
            lemma_line_starts_le(s, 1, i);
            assert(st[1] == st[0] + split_lines(s)[0].len() + 1);
            assert(right0 >= 2);
            assert(false);
        }
    }
    assert forall|b: int|
        (0 < b < n && #[trigger] rec_ord(s, c, b) == Some(Ordering::Greater) && (forall|k: int|
            0 <= k < b ==> #[trigger] rec_ord(s, c, k) == Some(Ordering::Less))) implies Some((mid
        + 1) as usize) == Some(st[b] as usize) by {
        assert(left0 <= st[b] && right0 >= st[b] - 1);
        if right0 == s.len() {
            assert(st[b] + split_lines(s)[b].len() <= s.len());
            assert(right0 >= st[b] + 1);
            assert(false);
        }
        let i = choose|i: int|
            1 <= i < split_lines(s).len() && right0 == #[trigger] line_starts(s)[i] - 1;
        assert(right0 <= left0 <= st[b]);
        assert(right0 == st[i] - 1);
        assert(right0 == st[b] - 1) by {
            if st[i] - 1 == st[b] {
                if i <= b {
                    lemma_line_starts_le(s, i, b);
                } else {
                    lemma_line_starts_increase(s, b, i);
                    assert(split_lines(s)[b].len() >= 1);
                }
                assert(false);
            }
            assert(st[i] - 1 >= st[b] - 1 && st[i] - 1 <= st[b]);
        }
        assert(left0 - right0 <= 1);
        assert((left0 - right0) / 2 == 0);
        assert(mid + 1 == st[b]);
        assert(0 <= st[b] <= s.len());
    }
}

} // verus!
