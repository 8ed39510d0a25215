//! Multi-file forward reader for the event store.
//!
//! The reader owns the forward scanner of one partition and the key of the
//! partition it came from. When the current partition is exhausted, the
//! directory is listed again and the reader advances to the earliest
//! strictly newer partition, if one has appeared; exhaustion is otherwise a
//! non-terminal condition, and a later attempt may find new partitions.
//! The surrounding application lists directories and reads file contents.

use vstd::prelude::*;
use vstd::utf8::valid_utf8;

use crate::date::{date_le, date_lt, date_valid, ts_valid, Timestamp};
use crate::events::{encode_record, ev_valid, TimedEvent};
use crate::filepath::{parse_path, Filepath, TryIntoFilenameError};
use crate::readline::{split_lines, FileLineReader, LineReaderError};

verus! {

/// Why a read failed: an I/O failure at the file boundary, a record that
/// did not decode, a filename that did not decode where one was required,
/// no partition at or after the requested time, or a scanner failure.
#[derive(Debug)]
pub enum StoreReadError {
    Io(std::io::Error),
    EncodeError,
    FilePathError(TryIntoFilenameError),
    NoFilesToOpen,
    LineReaderError(LineReaderError),
}

/// Whether `s` holds an entry keyed by date `d`.
pub open spec fn contains_date(s: Seq<Filepath>, d: crate::date::Date) -> bool {
    exists|i: int| 0 <= i < s.len() && #[trigger] s[i].date == d
}

/// Whether two partition filenames name the same file.
pub open spec fn fp_eqv(a: Filepath, b: Filepath) -> bool {
    a.path@ == b.path@ && a.date == b.date
}

/// Whether `s` holds an entry naming the same file as `fp`.
pub open spec fn seq_contains(s: Seq<Filepath>, fp: Filepath) -> bool {
    exists|i: int| 0 <= i < s.len() && fp_eqv(#[trigger] s[i], fp)
}

/// Whether some raw directory entry parses to exactly the partition file
/// `fp`.
pub open spec fn entry_of(entries: Seq<Vec<u8>>, fp: Filepath) -> bool {
    exists|e: int|
        0 <= e < entries.len() && parse_path(#[trigger] entries[e]@) == Ok::<
            _,
            TryIntoFilenameError,
        >((fp.path@, fp.date))
}

/// The valid partition files of a store directory, in chronological order
/// with one entry per date.
pub struct StoreDirectory {
    items: Vec<Filepath>,
}

impl StoreDirectory {
    pub closed spec fn view_items(self) -> Seq<Filepath> {
        self.items@
    }

    pub closed spec fn wf(self) -> bool {
        &&& forall|i: int, j: int|
            0 <= i < j < self.items@.len() ==> date_lt(
                #[trigger] self.items@[i].date,
                #[trigger] self.items@[j].date,
            )
        &&& forall|i: int| 0 <= i < self.items@.len() ==> date_valid(#[trigger] self.items@[i].date)
    }

    pub fn new() -> (r: StoreDirectory)
        ensures
            r.wf(),
            r.view_items() == Seq::<Filepath>::empty(),
    {
        StoreDirectory { items: Vec::new() }
    }

    pub fn len(&self) -> (r: usize)
        ensures
            r == self.view_items().len(),
    {
        self.items.len()
    }

    pub fn is_empty(&self) -> (r: bool)
        ensures
            r == (self.view_items().len() == 0),
    {
        self.items.len() == 0
    }

    /// Add a partition file, keeping chronological order; a date already
    /// listed keeps its first entry, as a directory holds at most one
    /// partition per date.
    pub fn insert(&mut self, fp: Filepath)
        requires
            old(self).wf(),
            date_valid(fp.date),
        ensures
            final(self).wf(),
            contains_date(final(self).view_items(), fp.date),
            forall|d: crate::date::Date|
                #[trigger] contains_date(final(self).view_items(), d) <==> (contains_date(
                    old(self).view_items(),
                    d,
                ) || d == fp.date),
            forall|k: int|
                0 <= k < final(self).view_items().len() ==> (fp_eqv(
                    #[trigger] final(self).view_items()[k],
                    fp,
                ) || seq_contains(old(self).view_items(), final(self).view_items()[k])),
            forall|k: int|
                0 <= k < old(self).view_items().len() ==> seq_contains(
                    final(self).view_items(),
                    #[trigger] old(self).view_items()[k],
                ),
    {
        let n = self.items.len();
        let mut i: usize = 0;
        while i < n
            invariant
                i <= n,
                n == self.items@.len(),
                self == old(self),
                self.wf(),
                date_valid(fp.date),
                forall|k: int| 0 <= k < i ==> date_lt(#[trigger] self.items@[k].date, fp.date),
            ensures
                i <= n,
                self == old(self),
                forall|k: int| 0 <= k < i ==> date_lt(#[trigger] self.items@[k].date, fp.date),
                i < n ==> !date_lt(self.items@[i as int].date, fp.date),
            decreases n - i,
        {
            if self.items[i].date.lt(&fp.date) {
                i += 1;
            } else {
                break ;
            }
        }
        if i < n {
            let cur = &self.items[i];
            if cur.date.year == fp.date.year && cur.date.month == fp.date.month && cur.date.day
                == fp.date.day {
                proof {
                    assert(self.items@[i as int].date == fp.date);
                    assert(contains_date(self.view_items(), fp.date));
                    assert forall|k: int|
                        0 <= k < old(self).view_items().len() implies seq_contains(
                        final(self).view_items(),
                        #[trigger] old(self).view_items()[k],
                    ) by {
                        assert(fp_eqv(final(self).view_items()[k], old(self).view_items()[k]));
                    }
                    assert forall|k: int|
                        0 <= k < final(self).view_items().len() implies (fp_eqv(
                        #[trigger] final(self).view_items()[k],
                        fp,
                    ) || seq_contains(old(self).view_items(), final(self).view_items()[k])) by {
                        assert(fp_eqv(old(self).view_items()[k], final(self).view_items()[k]));
                    }
                }
                return ;
            }
            proof {
                // At-or-after with a different key means strictly after.
                assert(!date_lt(self.items@[i as int].date, fp.date));
                if !date_lt(fp.date, self.items@[i as int].date) {
                    crate::date::lemma_date_key_injective(self.items@[i as int].date, fp.date);
                    assert(false);
                }
            }
        }
        let ghost before = self.items@;
        self.items.insert(i, fp);
        proof {
            assert(self.items@ == before.insert(i as int, fp));
            assert(self.items@[i as int] == fp);
            assert(contains_date(self.view_items(), fp.date));
            assert forall|ii: int, jj: int|
                0 <= ii < jj < self.items@.len() implies date_lt(
                #[trigger] self.items@[ii].date,
                #[trigger] self.items@[jj].date,
            ) by {
                if ii < i && jj > i {
                    assert(self.items@[ii] == before[ii]);
                    assert(self.items@[jj] == before[jj - 1]);
                } else if jj == i {
                    assert(self.items@[ii] == before[ii]);
                } else if ii == i {
                    assert(self.items@[jj] == before[jj - 1]);
                } else if jj < i {
                    assert(self.items@[ii] == before[ii]);
                    assert(self.items@[jj] == before[jj]);
                } else {
                    assert(self.items@[ii] == before[ii - 1]);
                    assert(self.items@[jj] == before[jj - 1]);
                }
            }
            assert forall|k: int|
                0 <= k < old(self).view_items().len() implies seq_contains(
                final(self).view_items(),
                #[trigger] old(self).view_items()[k],
            ) by {
                if k < i {
                    assert(fp_eqv(final(self).view_items()[k], old(self).view_items()[k]));
                } else {
                    assert(fp_eqv(final(self).view_items()[k + 1], old(self).view_items()[k]));
                }
            }
            assert forall|k: int|
                0 <= k < final(self).view_items().len() implies (fp_eqv(
                #[trigger] final(self).view_items()[k],
                fp,
            ) || seq_contains(old(self).view_items(), final(self).view_items()[k])) by {
                if k < i {
                    assert(fp_eqv(old(self).view_items()[k], final(self).view_items()[k]));
                } else if k > i {
                    assert(fp_eqv(old(self).view_items()[k - 1], final(self).view_items()[k]));
                }
            }
            assert forall|d: crate::date::Date|
                #[trigger] contains_date(final(self).view_items(), d) implies (contains_date(
                old(self).view_items(),
                d,
            ) || d == fp.date) by {
                let k = choose|k: int|
                    0 <= k < final(self).view_items().len() && #[trigger] final(self).view_items()[k].date
                        == d;
                if k < i {
                    assert(old(self).view_items()[k].date == d);
                } else if k > i {
                    assert(old(self).view_items()[k - 1].date == d);
                }
            }
            assert forall|d: crate::date::Date|
                (contains_date(old(self).view_items(), d) || d == fp.date) implies #[trigger] contains_date(
                final(self).view_items(),
                d,
            ) by {
                if contains_date(old(self).view_items(), d) {
                    let k = choose|k: int|
                        0 <= k < old(self).view_items().len() && #[trigger] old(self).view_items()[k].date
                            == d;
                    if k < i {
                        assert(final(self).view_items()[k].date == d);
                    } else {
                        assert(final(self).view_items()[k + 1].date == d);
                    }
                }
            }
        }
    }

    /// All listed partitions from `from` onward, in order.
    pub fn range(&self, from: &Filepath) -> (r: Vec<Filepath>)
        requires
            self.wf(),
            date_valid(from.date),
        ensures
            forall|k: int|
                0 <= k < r@.len() ==> seq_contains(self.view_items(), #[trigger] r@[k])
                    && date_le(from.date, r@[k].date),
            forall|k: int|
                0 <= k < self.view_items().len() && date_le(
                    from.date,
                    #[trigger] self.view_items()[k].date,
                ) ==> seq_contains(r@, self.view_items()[k]),
    {
        let n = self.items.len();
        let mut out: Vec<Filepath> = Vec::new();
        let mut i: usize = 0;
        while i < n
            invariant
                i <= n,
                n == self.items@.len(),
                self.wf(),
                date_valid(from.date),
                forall|k: int|
                    0 <= k < out@.len() ==> seq_contains(self.view_items(), #[trigger] out@[k])
                        && date_le(from.date, out@[k].date),
                forall|k: int|
                    0 <= k < i && date_le(from.date, #[trigger] self.items@[k].date)
                        ==> seq_contains(out@, self.items@[k]),
            decreases n - i,
        {
            let cur = &self.items[i];
            if from.date.le(&cur.date) {
                let ghost out0 = out@;
                let copy = clone_filepath(cur);
                out.push(copy);
                proof {
                    assert(fp_eqv(out@[out@.len() - 1], self.items@[i as int]));
                    assert(seq_contains(out@, self.items@[i as int]));
                    assert(seq_contains(self.view_items(), out@[out@.len() - 1]));
                    assert forall|k: int|
                        0 <= k < i + 1 && date_le(from.date, #[trigger] self.items@[k].date)
                        implies seq_contains(out@, self.items@[k]) by {
                        if k < i {
                            let j = choose|j: int|
                                0 <= j < out0.len() && fp_eqv(#[trigger] out0[j], self.items@[k]);
                            assert(fp_eqv(out@[j], self.items@[k]));
                        }
                    }
                    assert forall|k: int| 0 <= k < out@.len() implies seq_contains(
                        self.view_items(),
                        #[trigger] out@[k],
                    ) && date_le(from.date, out@[k].date) by {
                        if k < out0.len() {
                            assert(out@[k] == out0[k]);
                        }
                    }
                }
            }
            i += 1;
        }
        out
    }

    /// The earliest listed partition at or after `d`.
    pub fn first_at_or_after(&self, d: &crate::date::Date) -> (r: Option<Filepath>)
        requires
            self.wf(),
            date_valid(*d),
        ensures
            match r {
                Some(fp) => seq_contains(self.view_items(), fp) && date_le(*d, fp.date) && (
                forall|k: int|
                    0 <= k < self.view_items().len() && date_le(
                        *d,
                        #[trigger] self.view_items()[k].date,
                    ) ==> date_le(fp.date, self.view_items()[k].date)),
                None => forall|k: int|
                    0 <= k < self.view_items().len() ==> date_lt(
                        #[trigger] self.view_items()[k].date,
                        *d,
                    ),
            },
    {
        let n = self.items.len();
        let mut i: usize = 0;
        while i < n
            invariant
                i <= n,
                n == self.items@.len(),
                self.wf(),
                date_valid(*d),
                forall|k: int| 0 <= k < i ==> date_lt(#[trigger] self.items@[k].date, *d),
            decreases n - i,
        {
            let cur = &self.items[i];
            if d.le(&cur.date) {
                let copy = clone_filepath(cur);
                proof {
                    assert(fp_eqv(self.items@[i as int], copy));
                    assert forall|k: int|
                        0 <= k < self.view_items().len() && date_le(
                            *d,
                            #[trigger] self.view_items()[k].date,
                        ) implies date_le(copy.date, self.view_items()[k].date) by {
                        if k < i {
                            assert(date_lt(self.items@[k].date, *d));
                        }
                    }
                }
                return Some(copy);
            }
            i += 1;
        }
        None
    }

    /// The earliest listed partition strictly after `d`.
    pub fn first_after(&self, d: &crate::date::Date) -> (r: Option<Filepath>)
        requires
            self.wf(),
            date_valid(*d),
        ensures
            match r {
                Some(fp) => seq_contains(self.view_items(), fp) && date_lt(*d, fp.date) && (
                forall|k: int|
                    0 <= k < self.view_items().len() && date_lt(
                        *d,
                        #[trigger] self.view_items()[k].date,
                    ) ==> date_le(fp.date, self.view_items()[k].date)),
                None => forall|k: int|
                    0 <= k < self.view_items().len() ==> date_le(
                        #[trigger] self.view_items()[k].date,
                        *d,
                    ),
            },
    {
        let n = self.items.len();
        let mut i: usize = 0;
        while i < n
            invariant
                i <= n,
                n == self.items@.len(),
                self.wf(),
                date_valid(*d),
                forall|k: int| 0 <= k < i ==> date_le(#[trigger] self.items@[k].date, *d),
            decreases n - i,
        {
            let cur = &self.items[i];
            if d.lt(&cur.date) {
                let copy = clone_filepath(cur);
                proof {
                    assert(fp_eqv(self.items@[i as int], copy));
                    assert forall|k: int|
                        0 <= k < self.view_items().len() && date_lt(
                            *d,
                            #[trigger] self.view_items()[k].date,
                        ) implies date_le(copy.date, self.view_items()[k].date) by {
                        if k < i {
                            assert(date_le(self.items@[k].date, *d));
                        }
                    }
                }
                return Some(copy);
            }
            i += 1;
        }
        None
    }
}

fn clone_filepath(fp: &Filepath) -> (r: Filepath)
    ensures
        fp_eqv(r, *fp),
        r.date == fp.date,
        r.path@ == fp.path@,
{
    let mut path: Vec<u8> = Vec::new();
    path.extend_from_slice(fp.path.as_slice());
    proof {
        assert(path@ =~= fp.path@);
    }
    Filepath { path, date: fp.date }
}

/// Reader over the store: the open partition's scanner plus its key.
pub struct EventReader {
    file_path: Filepath,
    line_reader: FileLineReader,
}

impl EventReader {
    pub closed spec fn current(self) -> Filepath {
        self.file_path
    }

    pub closed spec fn pending(self) -> Seq<Seq<u8>> {
        self.line_reader.pending()
    }

    pub closed spec fn wf(self) -> bool {
        self.line_reader.wf() && date_valid(self.file_path.date)
    }

    /// Build the valid partition listing from raw directory entries,
    /// silently skipping every entry that is not a partition filename.
    pub fn list_files(entries: &Vec<Vec<u8>>) -> (r: StoreDirectory)
        ensures
            r.wf(),
            forall|k: int|
                0 <= k < r.view_items().len() ==> entry_of(
                    entries@,
                    #[trigger] r.view_items()[k],
                ),
            forall|e: int|
                0 <= e < entries@.len() && (#[trigger] parse_path(entries@[e]@)) is Ok
                    ==> contains_date(r.view_items(), parse_path(entries@[e]@)->Ok_0.1),
    {
        let n = entries.len();
        let mut dir = StoreDirectory::new();
        let mut e: usize = 0;
        while e < n
            invariant
                e <= n,
                n == entries@.len(),
                dir.wf(),
                forall|k: int|
                    0 <= k < dir.view_items().len() ==> entry_of(
                        entries@,
                        #[trigger] dir.view_items()[k],
                    ),
                forall|x: int|
                    0 <= x < e && (#[trigger] parse_path(entries@[x]@)) is Ok ==> contains_date(
                        dir.view_items(),
                        parse_path(entries@[x]@)->Ok_0.1,
                    ),
            decreases n - e,
        {
            let entry = &entries[e];
            let mut copy: Vec<u8> = Vec::new();
            copy.extend_from_slice(entry.as_slice());
            proof {
                assert(copy@ =~= entry@);
            }
            match Filepath::try_from(copy) {
                Ok(fp) => {
                    proof {
                        // A parsed date is a real calendar date.
                        assert(parse_path(entry@) == Ok::<_, TryIntoFilenameError>(
                            (fp.path@, fp.date),
                        ));
                        lemma_parse_gives_valid_date(entry@);
                    }
                    let ghost before = dir.view_items();
                    let ghost fpg = fp;
                    dir.insert(fp);
                    proof {
                        assert forall|k: int| 0 <= k < dir.view_items().len() implies entry_of(
                            entries@,
                            #[trigger] dir.view_items()[k],
                        ) by {
                            if fp_eqv(dir.view_items()[k], fpg) {
                                assert(parse_path(entries@[e as int]@) == Ok::<
                                    _,
                                    TryIntoFilenameError,
                                >((dir.view_items()[k].path@, dir.view_items()[k].date)));
                            } else {
                                assert(seq_contains(before, dir.view_items()[k]));
                                let kk = choose|kk: int|
                                    0 <= kk < before.len() && fp_eqv(
                                        #[trigger] before[kk],
                                        dir.view_items()[k],
                                    );
                                assert(entry_of(entries@, before[kk]));
                                let x = choose|x: int|
                                    0 <= x < entries@.len() && parse_path(
                                        #[trigger] entries@[x]@,
                                    ) == Ok::<_, TryIntoFilenameError>(
                                        (before[kk].path@, before[kk].date),
                                    );
                                assert(parse_path(entries@[x]@) == Ok::<_, TryIntoFilenameError>(
                                    (dir.view_items()[k].path@, dir.view_items()[k].date),
                                ));
                            }
                        }
                    }
                },
                Err(_) => {
                },
            }
            e += 1;
        }
        dir
    }

    /// Choose the partition to open for a request at `open_at` read at a
    /// fixed offset east of UTC: the earliest partition on or after the
    /// requested UTC day, or the distinct no-partition error.
    pub fn open(dir: &StoreDirectory, open_at: &Timestamp, offset_secs: i32) -> (r: Result<
        Filepath,
        StoreReadError,
    >)
        requires
            dir.wf(),
            ts_valid(*open_at),
            -86400 < offset_secs < 86400,
            1 <= open_at.date.year <= 9998,
        ensures
            ({
                let u = crate::date::spec_utc_date(*open_at, offset_secs as int);
                match r {
                    Ok(fp) => seq_contains(dir.view_items(), fp) && date_le(u, fp.date) && (
                    forall|k: int|
                        0 <= k < dir.view_items().len() && date_le(
                            u,
                            #[trigger] dir.view_items()[k].date,
                        ) ==> date_le(fp.date, dir.view_items()[k].date)),
                    Err(e) => e is NoFilesToOpen && (forall|k: int|
                        0 <= k < dir.view_items().len() ==> date_lt(
                            #[trigger] dir.view_items()[k].date,
                            u,
                        )),
                }
            }),
    {
        let u = open_at.utc_date(offset_secs);
        match dir.first_at_or_after(&u) {
            Some(fp) => Ok(fp),
            None => Err(StoreReadError::NoFilesToOpen),
        }
    }

    /// Open the reader on a partition whose contents have been read.
    pub fn new(file_path: Filepath, content: Vec<u8>) -> (r: EventReader)
        requires
            date_valid(file_path.date),
        ensures
            r.wf(),
            r.current() == file_path,
            r.pending() == split_lines(content@),
    {
        EventReader { file_path, line_reader: FileLineReader::new(content) }
    }

    /// The key of the partition the reader is on.
    pub fn current_file(&self) -> (r: Filepath)
        ensures
            fp_eqv(r, self.current()),
            r.date == self.current().date,
            r.path@ == self.current().path@,
    {
        clone_filepath(&self.file_path)
    }

    /// The next record of the current partition: decoded, or the end
    /// marker once this partition is exhausted. Exhaustion is not
    /// terminal: the caller may advance to a newer partition and try
    /// again.
    pub fn next_event(&mut self) -> (r: Result<Option<TimedEvent>, StoreReadError>)
        requires
            old(self).wf(),
        ensures
            final(self).wf(),
            final(self).current() == old(self).current(),
            match r {
                Ok(Some(ev)) => {
                    &&& old(self).pending().len() > 0
                    &&& valid_utf8(old(self).pending()[0])
                    &&& ev_valid(ev@)
                    &&& encode_record(ev@) == old(self).pending()[0]
                    &&& final(self).pending() == old(self).pending().drop_first()
                },
                Ok(None) => {
                    &&& old(self).pending().len() == 0
                    &&& final(self).pending().len() == 0
                },
                Err(e) => match e {
                    StoreReadError::LineReaderError(le) => {
                        &&& old(self).pending().len() > 0
                        &&& !valid_utf8(old(self).pending()[0])
                        &&& le is Utf8
                    },
                    StoreReadError::EncodeError => {
                        &&& old(self).pending().len() > 0
                        &&& valid_utf8(old(self).pending()[0])
                        &&& (forall|v: crate::events::TimedEventView|
                            ev_valid(v) ==> encode_record(v) != old(self).pending()[0])
                        &&& final(self).pending() == old(self).pending().drop_first()
                    },
                    _ => false,
                },
            },
    {
        let ghost p0 = self.line_reader.pending();
        match self.line_reader.next_line() {
            Ok(Some(line)) => {
                let line_str = line.as_str();
                let line_bytes = line_str.as_bytes();
                proof {
                    vstd::utf8::decode_utf8_encode_utf8(p0[0]);
                    assert(line_bytes@ == p0[0]);
                }
                match TimedEvent::decode(line_bytes) {
                    Some(ev) => Ok(Some(ev)),
                    None => {
                        proof {
                            assert forall|v: crate::events::TimedEventView| ev_valid(v)
                                implies encode_record(v) != p0[0] by {
                                if encode_record(v) == p0[0] {
                                    assert(false);
                                }
                            }
                        }
                        Err(StoreReadError::EncodeError)
                    },
                }
            },
            Ok(None) => Ok(None),
            Err(e) => Err(StoreReadError::LineReaderError(e)),
        }
    }

    /// The partition to advance to once the current one is exhausted: the
    /// earliest strictly newer one listed, if any.
    pub fn open_next_file(&self, dir: &StoreDirectory) -> (r: Option<Filepath>)
        requires
            self.wf(),
            dir.wf(),
        ensures
            match r {
                Some(fp) => seq_contains(dir.view_items(), fp) && date_lt(
                    self.current().date,
                    fp.date,
                ) && (forall|k: int|
                    0 <= k < dir.view_items().len() && date_lt(
                        self.current().date,
                        #[trigger] dir.view_items()[k].date,
                    ) ==> date_le(fp.date, dir.view_items()[k].date)),
                None => forall|k: int|
                    0 <= k < dir.view_items().len() ==> date_le(
                        #[trigger] dir.view_items()[k].date,
                        self.current().date,
                    ),
            },
    {
        dir.first_after(&self.file_path.date)
    }

    /// Switch to a newer partition whose contents have been read,
    /// discarding the old handle.
    pub fn switch_to(&mut self, fp: Filepath, content: Vec<u8>)
        requires
            old(self).wf(),
            date_valid(fp.date),
        ensures
            final(self).wf(),
            final(self).current() == fp,
            final(self).pending() == split_lines(content@),
    {
        self.file_path = fp;
        self.line_reader = FileLineReader::new(content);
    }
}

/// Law: cross-file traversal visits the listed partitions in order and
/// skips none. In a chronologically sorted listing, the earliest partition
/// strictly newer than any entry is exactly the next entry, so a reader
/// that advances by "earliest strictly newer than the current key" reads
/// the partitions one after another; dates absent from the listing are
/// passed over, and only when no newer partition is listed is nothing
/// available.
pub proof fn lemma_traversal_in_order(items: Seq<Filepath>, i: int)
    requires
        forall|k1: int, k2: int|
            0 <= k1 < k2 < items.len() ==> date_lt(
                #[trigger] items[k1].date,
                #[trigger] items[k2].date,
            ),
        0 <= i < items.len() - 1,
    ensures
        date_lt(items[i].date, items[i + 1].date),
        forall|k: int|
            0 <= k < items.len() && date_lt(items[i].date, #[trigger] items[k].date) ==> date_le(
                items[i + 1].date,
                items[k].date,
            ),
{
    assert forall|k: int|
        0 <= k < items.len() && date_lt(items[i].date, #[trigger] items[k].date) implies date_le(
        items[i + 1].date,
        items[k].date,
    ) by {
        if k <= i {
            if k < i {
                assert(date_lt(items[k].date, items[i].date));
            }
        }
    }
}

/// A path that parses yields a real calendar date.
proof fn lemma_parse_gives_valid_date(p: Seq<u8>)
    requires
        parse_path(p) is Ok,
    ensures
        date_valid(parse_path(p)->Ok_0.1),
{
}

} // verus!
