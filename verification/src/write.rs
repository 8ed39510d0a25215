//! Append/rotate writer for the event store.
//!
//! The writer owns the key of the partition file it is appending to. Each
//! record is encoded, terminated with the delimiter, and appended whole;
//! when a record carries a different date than the open partition, the
//! writer first directs a rotation to that date's partition file. Rotation
//! is driven purely by the dates of written records. The surrounding
//! application performs the directed file operations.

use vstd::prelude::*;

use crate::date::{date_valid, ts_valid, Date, Timestamp};
use crate::events::{encode_record, ev_valid, TimedEvent};
use crate::filepath::{encode_path, Filepath};
use crate::readline::{split_lines, NL};

verus! {

/// Why a write failed: an I/O failure at the file boundary, or a record
/// that could not be encoded.
#[derive(Debug)]
pub enum StoreWriteError {
    Io(std::io::Error),
    EncodeError,
}

/// What one write asks the file layer to do: open (create if needed,
/// append mode) a new partition first when rotating, then append the bytes
/// to the open partition.
pub struct WritePlan {
    pub rotate_to: Option<Filepath>,
    pub bytes: Vec<u8>,
}

/// The writer's state: the store directory and the date of the open
/// partition.
pub struct EventWriter {
    dir: Vec<u8>,
    current_date: Date,
}

impl EventWriter {
    pub closed spec fn dir_view(self) -> Seq<u8> {
        self.dir@
    }

    pub closed spec fn spec_current_date(self) -> Date {
        self.current_date
    }

    pub closed spec fn wf(self) -> bool {
        date_valid(self.current_date)
    }

    /// Open the store for appending at the partition of `date`'s day. The
    /// returned filename is the partition the file layer must open.
    pub fn open(dir: Vec<u8>, date: &Timestamp) -> (r: (EventWriter, Filepath))
        requires
            ts_valid(*date),
        ensures
            r.0.wf(),
            r.0.dir_view() == dir@,
            r.0.spec_current_date() == date.date,
            r.1.path@ == dir@,
            r.1.date == date.date,
    {
        let mut fp = Filepath::from_timestamp(date);
        let dir2 = clone_bytes(&dir);
        fp.set_path(dir2);
        (EventWriter { dir, current_date: date.date }, fp)
    }

    /// Adopt `date`'s partition if it differs from the open one; the
    /// returned filename, if any, is the partition to open before the next
    /// append.
    pub fn maybe_rotate(&mut self, date: Date) -> (r: Option<Filepath>)
        requires
            old(self).wf(),
            date_valid(date),
        ensures
            final(self).wf(),
            final(self).dir_view() == old(self).dir_view(),
            final(self).spec_current_date() == date,
            r is Some <==> date != old(self).spec_current_date(),
            r matches Some(fp) ==> fp.path@ == old(self).dir_view() && fp.date == date,
    {
        if self.current_date.year == date.year && self.current_date.month == date.month
            && self.current_date.day == date.day {
            proof {
                assert(self.current_date == date);
            }
            return None;
        }
        let mut fp = Filepath::from_date(date);
        fp.set_path(clone_bytes(&self.dir));
        self.current_date = date;
        Some(fp)
    }

    /// Encode the record, rotate first if its date differs from the open
    /// partition, and hand back the append plan: the bytes are the encoded
    /// record terminated with the delimiter.
    pub fn write(&mut self, event: &TimedEvent) -> (r: WritePlan)
        requires
            old(self).wf(),
            ev_valid(event@),
        ensures
            final(self).wf(),
            final(self).dir_view() == old(self).dir_view(),
            final(self).spec_current_date() == event.timestamp.date,
            r.rotate_to is Some <==> event.timestamp.date != old(self).spec_current_date(),
            r.rotate_to matches Some(fp) ==> fp.path@ == old(self).dir_view() && fp.date
                == event.timestamp.date,
            r.bytes@ == encode_record(event@) + seq![NL],
    {
        let rotate_to = self.maybe_rotate(event.timestamp.date);
        let mut bytes = event.encode();
        bytes.push(NL);
        proof {
            assert(bytes@ =~= encode_record(event@) + seq![NL]);
        }
        WritePlan { rotate_to, bytes }
    }
}

fn clone_bytes(v: &Vec<u8>) -> (r: Vec<u8>)
    ensures
        r@ == v@,
{
    let mut out: Vec<u8> = Vec::new();
    out.extend_from_slice(v.as_slice());
    proof {
        assert(out@ =~= v@);
    }
    out
}

/// The store after appending `bytes` to the file named `file`: absent
/// files begin empty.
pub open spec fn apply_append(
    store: Map<Seq<u8>, Seq<u8>>,
    file: Seq<u8>,
    bytes: Seq<u8>,
) -> Map<Seq<u8>, Seq<u8>> {
    let before = if store.contains_key(file) {
        store[file]
    } else {
        Seq::empty()
    };
    store.insert(file, before + bytes)
}

/// Law: writing three records with pairwise distinct dates into an empty
/// store produces exactly three partition files, each holding only its own
/// date's record, terminated with the delimiter. The filenames are the
/// encodings of the three dates, which distinct dates keep distinct.
pub proof fn lemma_writer_rotation(
    dir: Seq<u8>,
    e1: crate::events::TimedEventView,
    e2: crate::events::TimedEventView,
    e3: crate::events::TimedEventView,
)
    requires
        ev_valid(e1),
        ev_valid(e2),
        ev_valid(e3),
        dir.len() == 0 || dir.last() == crate::filepath::SLASH,
        e1.timestamp.date != e2.timestamp.date,
        e2.timestamp.date != e3.timestamp.date,
        e1.timestamp.date != e3.timestamp.date,
    ensures
        ({
            let f1 = encode_path(dir, e1.timestamp.date);
            let f2 = encode_path(dir, e2.timestamp.date);
            let f3 = encode_path(dir, e3.timestamp.date);
            let b1 = encode_record(e1) + seq![NL];
            let b2 = encode_record(e2) + seq![NL];
            let b3 = encode_record(e3) + seq![NL];
            let store = apply_append(
                apply_append(apply_append(Map::empty(), f1, b1), f2, b2),
                f3,
                b3,
            );
            &&& store.dom() =~= set![f1, f2, f3]
            &&& f1 != f2 && f2 != f3 && f1 != f3
            &&& store[f1] == b1 && store[f2] == b2 && store[f3] == b3
            &&& store[f1].last() == NL && store[f2].last() == NL && store[f3].last() == NL
            &&& split_lines(store[f1]) =~= seq![encode_record(e1), Seq::<u8>::empty()]
            &&& split_lines(store[f2]) =~= seq![encode_record(e2), Seq::<u8>::empty()]
            &&& split_lines(store[f3]) =~= seq![encode_record(e3), Seq::<u8>::empty()]
        }),
{
    let f1 = encode_path(dir, e1.timestamp.date);
    let f2 = encode_path(dir, e2.timestamp.date);
    let f3 = encode_path(dir, e3.timestamp.date);
    crate::filepath::lemma_decode_after_encode(dir, e1.timestamp.date);
    crate::filepath::lemma_decode_after_encode(dir, e2.timestamp.date);
    crate::filepath::lemma_decode_after_encode(dir, e3.timestamp.date);
    assert(f1 != f2 && f2 != f3 && f1 != f3);
    lemma_single_record_lines(e1);
    lemma_single_record_lines(e2);
    lemma_single_record_lines(e3);
}

/// One encoded record plus its delimiter splits into the record and one
/// trailing empty fragment.
proof fn lemma_single_record_lines(e: crate::events::TimedEventView)
    ensures
        split_lines(encode_record(e) + seq![NL]) =~= seq![encode_record(e), Seq::<u8>::empty()],
        (encode_record(e) + seq![NL]).last() == NL,
{
    let b = encode_record(e) + seq![NL];
    crate::events::lemma_encode_no_delim(e);
    crate::util::lemma_find_byte(encode_record(e), NL);
    crate::util::lemma_find_byte_unique(b, NL, encode_record(e).len() as int);
    assert(b.take(encode_record(e).len() as int) =~= encode_record(e));
    assert(b.skip(encode_record(e).len() as int + 1) =~= Seq::<u8>::empty());
    crate::readline::lemma_split_lines_empty();
    assert(split_lines(b) == seq![b.take(encode_record(e).len() as int)] + split_lines(
        b.skip(encode_record(e).len() as int + 1),
    ));
}

} // verus!
