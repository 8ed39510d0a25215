//! Event records and their one-line text encoding.
//!
//! A record is a UTC timestamp plus a tagged event payload, serialized as
//! one self-contained JSON object per line. The field names, the tag names
//! and the timestamp format are an external-format contract: stores written
//! earlier decode with this codec and vice versa.

use vstd::prelude::*;
use vstd::utf8::{decode_utf8, encode_utf8, valid_utf8};

use crate::date::{date_valid, ts_valid, Date, Timestamp};
use crate::filepath::digit;

verus! {

/// Focus-change payload: the focused window's title, application id and
/// process id.
#[derive(Debug, Clone, PartialEq)]
pub struct Focused {
    pub title: String,
    pub id: String,
    pub pid: u32,
}

/// A tracked event.
#[derive(Debug, Clone, PartialEq)]
pub enum Event {
    Alive,
    Sleep,
    Awake,
    Idle,
    Active,
    Focused(Focused),
}

/// A timestamped event: one record of the store.
#[derive(Debug, Clone, PartialEq)]
pub struct TimedEvent {
    pub timestamp: Timestamp,
    pub event: Event,
}

/// The mathematical value of an `Event`: titles and ids as character
/// sequences.
pub enum EventView {
    Alive,
    Sleep,
    Awake,
    Idle,
    Active,
    Focused { title: Seq<char>, id: Seq<char>, pid: u32 },
}

/// The mathematical value of a record.
pub struct TimedEventView {
    pub timestamp: Timestamp,
    pub event: EventView,
}

impl View for Event {
    type V = EventView;

    open spec fn view(&self) -> EventView {
        match self {
            Event::Alive => EventView::Alive,
            Event::Sleep => EventView::Sleep,
            Event::Awake => EventView::Awake,
            Event::Idle => EventView::Idle,
            Event::Active => EventView::Active,
            Event::Focused(f) => EventView::Focused {
                title: f.title@,
                id: f.id@,
                pid: f.pid,
            },
        }
    }
}

impl View for TimedEvent {
    type V = TimedEventView;

    open spec fn view(&self) -> TimedEventView {
        TimedEventView { timestamp: self.timestamp, event: self.event@ }
    }
}

/// A record value the codec can represent.
pub open spec fn ev_valid(v: TimedEventView) -> bool {
    ts_valid(v.timestamp)
}

/// One byte of string content, escaped as JSON requires.
pub open spec fn escape_byte(b: u8) -> Seq<u8> {
    if b == 34 {
        seq![92u8, 34u8]
    } else if b == 92 {
        seq![92u8, 92u8]
    } else if b == 10 {
        seq![92u8, 110u8]
    } else if b == 13 {
        seq![92u8, 114u8]
    } else if b == 9 {
        seq![92u8, 116u8]
    } else {
        seq![b]
    }
}

/// JSON string-content escaping of a byte sequence.
pub open spec fn escape(s: Seq<u8>) -> Seq<u8>
    decreases s.len(),
{
    if s.len() == 0 {
        Seq::empty()
    } else {
        escape_byte(s[0]) + escape(s.drop_first())
    }
}

/// The decimal digits of `n`, most significant first, no leading zeros.
pub open spec fn dec_digits(n: int) -> Seq<u8>
    decreases n,
{
    if n < 10 {
        seq![digit(n)]
    } else {
        dec_digits(n / 10) + seq![digit(n % 10)]
    }
}

/// The date half of the RFC 3339 form, `YYYY-MM-DDT`.
pub open spec fn rfc_date_bytes(d: Date) -> Seq<u8> {
    seq![
        digit(d.year as int / 1000 % 10),
        digit(d.year as int / 100 % 10),
        digit(d.year as int / 10 % 10),
        digit(d.year as int % 10),
        45u8,
        digit(d.month as int / 10 % 10),
        digit(d.month as int % 10),
        45u8,
        digit(d.day as int / 10 % 10),
        digit(d.day as int % 10),
        84u8,
    ]
}

/// The time half of the RFC 3339 form, `HH:MM:SSZ`.
pub open spec fn rfc_time_bytes(s: int) -> Seq<u8> {
    seq![
        digit(s / 3600 / 10 % 10),
        digit(s / 3600 % 10),
        58u8,
        digit(s / 60 % 60 / 10 % 10),
        digit(s / 60 % 60 % 10),
        58u8,
        digit(s % 60 / 10 % 10),
        digit(s % 60 % 10),
        90u8,
    ]
}

/// The RFC 3339 UTC form of a timestamp, `YYYY-MM-DDTHH:MM:SSZ`.
pub open spec fn rfc3339_bytes(t: Timestamp) -> Seq<u8> {
    rfc_date_bytes(t.date) + rfc_time_bytes(t.secs as int)
}

/// The bytes of `{"timestamp":"`.
pub open spec fn lit_ts_open() -> Seq<u8> {
    seq![123u8, 34, 116, 105, 109, 101, 115, 116, 97, 109, 112, 34, 58, 34]
}

/// The bytes of `","event":`.
pub open spec fn lit_event_open() -> Seq<u8> {
    seq![34u8, 44, 34, 101, 118, 101, 110, 116, 34, 58]
}

/// The bytes of `{"type":"`.
pub open spec fn lit_type_open() -> Seq<u8> {
    seq![123u8, 34, 116, 121, 112, 101, 34, 58, 34]
}

/// The bytes of `","title":"`.
pub open spec fn lit_title_open() -> Seq<u8> {
    seq![34u8, 44, 34, 116, 105, 116, 108, 101, 34, 58, 34]
}

/// The bytes of `","id":"`.
pub open spec fn lit_id_open() -> Seq<u8> {
    seq![34u8, 44, 34, 105, 100, 34, 58, 34]
}

/// The bytes of `","pid":`.
pub open spec fn lit_pid_open() -> Seq<u8> {
    seq![34u8, 44, 34, 112, 105, 100, 34, 58]
}

/// The tag characters of an event kind, as bytes.
pub open spec fn tag_bytes(e: EventView) -> Seq<u8> {
    match e {
        EventView::Alive => seq![97u8, 108, 105, 118, 101],
        EventView::Sleep => seq![115u8, 108, 101, 101, 112],
        EventView::Awake => seq![97u8, 119, 97, 107, 101],
        EventView::Idle => seq![105u8, 100, 108, 101],
        EventView::Active => seq![97u8, 99, 116, 105, 118, 101],
        EventView::Focused { .. } => seq![102u8, 111, 99, 117, 115, 101, 100],
    }
}

/// The encoded payload object.
pub open spec fn encode_event(e: EventView) -> Seq<u8> {
    match e {
        EventView::Focused { title, id, pid } => lit_type_open() + tag_bytes(e)
            + lit_title_open() + escape(encode_utf8(title)) + lit_id_open() + escape(
            encode_utf8(id),
        ) + lit_pid_open() + dec_digits(pid as int) + seq![125u8],
        _ => lit_type_open() + tag_bytes(e) + seq![34u8, 125u8],
    }
}

/// The full encoded record line, without the trailing delimiter.
pub open spec fn encode_record(v: TimedEventView) -> Seq<u8> {
    lit_ts_open() + rfc3339_bytes(v.timestamp) + lit_event_open() + encode_event(v.event) + seq![
        125u8,
    ]
}

impl TimedEvent {
    /// Encode this record as one line of text, delimiter not included.
    #[verifier::rlimit(100)]
    pub fn encode(&self) -> (r: Vec<u8>)
        requires
            ev_valid(self@),
        ensures
            r@ == encode_record(self@),
    {
        let mut out: Vec<u8> = Vec::new();
        push_lit_ts_open(&mut out);
        push_rfc3339(&mut out, &self.timestamp);
        push_lit_event_open(&mut out);
        match &self.event {
            Event::Alive => {
                push_lit_type_open(&mut out);
                out.push(97);
                out.push(108);
                out.push(105);
                out.push(118);
                out.push(101);
                out.push(34);
                out.push(125);
            },
            Event::Sleep => {
                push_lit_type_open(&mut out);
                out.push(115);
                out.push(108);
                out.push(101);
                out.push(101);
                out.push(112);
                out.push(34);
                out.push(125);
            },
            Event::Awake => {
                push_lit_type_open(&mut out);
                out.push(97);
                out.push(119);
                out.push(97);
                out.push(107);
                out.push(101);
                out.push(34);
                out.push(125);
            },
            Event::Idle => {
                push_lit_type_open(&mut out);
                out.push(105);
                out.push(100);
                out.push(108);
                out.push(101);
                out.push(34);
                out.push(125);
            },
            Event::Active => {
                push_lit_type_open(&mut out);
                out.push(97);
                out.push(99);
                out.push(116);
                out.push(105);
                out.push(118);
                out.push(101);
                out.push(34);
                out.push(125);
            },
            Event::Focused(f) => {
                push_lit_type_open(&mut out);
                out.push(102);
                out.push(111);
                out.push(99);
                out.push(117);
                out.push(115);
                out.push(101);
                out.push(100);
                push_lit_title_open(&mut out);
                push_escaped(&mut out, f.title.as_str().as_bytes());
                push_lit_id_open(&mut out);
                push_escaped(&mut out, f.id.as_str().as_bytes());
                push_lit_pid_open(&mut out);
                push_decimal(&mut out, f.pid);
                out.push(125);
            },
        }
        out.push(125);
        proof {
            assert(out@ =~= encode_record(self@));
        }
        out
    }
}

fn push_lit_ts_open(out: &mut Vec<u8>)
    ensures
        final(out)@ == old(out)@ + lit_ts_open(),
{
    out.push(123);
    out.push(34);
    out.push(116);
    out.push(105);
    out.push(109);
    out.push(101);
    out.push(115);
    out.push(116);
    out.push(97);
    out.push(109);
    out.push(112);
    out.push(34);
    out.push(58);
    out.push(34);
    proof {
        assert(out@ =~= old(out)@ + lit_ts_open());
    }
}

fn push_lit_event_open(out: &mut Vec<u8>)
    ensures
        final(out)@ == old(out)@ + lit_event_open(),
{
    out.push(34);
    out.push(44);
    out.push(34);
    out.push(101);
    out.push(118);
    out.push(101);
    out.push(110);
    out.push(116);
    out.push(34);
    out.push(58);
    proof {
        assert(out@ =~= old(out)@ + lit_event_open());
    }
}

fn push_lit_type_open(out: &mut Vec<u8>)
    ensures
        final(out)@ == old(out)@ + lit_type_open(),
{
    out.push(123);
    out.push(34);
    out.push(116);
    out.push(121);
    out.push(112);
    out.push(101);
    out.push(34);
    out.push(58);
    out.push(34);
    proof {
        assert(out@ =~= old(out)@ + lit_type_open());
    }
}

fn push_lit_title_open(out: &mut Vec<u8>)
    ensures
        final(out)@ == old(out)@ + lit_title_open(),
{
    out.push(34);
    out.push(44);
    out.push(34);
    out.push(116);
    out.push(105);
    out.push(116);
    out.push(108);
    out.push(101);
    out.push(34);
    out.push(58);
    out.push(34);
    proof {
        assert(out@ =~= old(out)@ + lit_title_open());
    }
}

fn push_lit_id_open(out: &mut Vec<u8>)
    ensures
        final(out)@ == old(out)@ + lit_id_open(),
{
    out.push(34);
    out.push(44);
    out.push(34);
    out.push(105);
    out.push(100);
    out.push(34);
    out.push(58);
    out.push(34);
    proof {
        assert(out@ =~= old(out)@ + lit_id_open());
    }
}

fn push_lit_pid_open(out: &mut Vec<u8>)
    ensures
        final(out)@ == old(out)@ + lit_pid_open(),
{
    out.push(34);
    out.push(44);
    out.push(34);
    out.push(112);
    out.push(105);
    out.push(100);
    out.push(34);
    out.push(58);
    proof {
        assert(out@ =~= old(out)@ + lit_pid_open());
    }
}

/// Escaping a single byte is that byte's escape form.
pub proof fn lemma_escape_singleton(b: u8)
    ensures
        escape(seq![b]) == escape_byte(b),
{
    assert(seq![b].drop_first() =~= Seq::<u8>::empty());
    assert(seq![b][0] == b);
    assert(escape(seq![b]) == escape_byte(seq![b][0]) + escape(seq![b].drop_first()));
    assert(escape(seq![b]) =~= escape_byte(b));
}

/// Escaping distributes over concatenation.
pub proof fn lemma_escape_app(a: Seq<u8>, b: Seq<u8>)
    ensures
        escape(a + b) == escape(a) + escape(b),
    decreases a.len(),
{
    if a.len() == 0 {
        assert(a + b =~= b);
        assert(escape(a) + escape(b) =~= escape(b));
    } else {
        lemma_escape_app(a.drop_first(), b);
        assert((a + b).drop_first() =~= a.drop_first() + b);
        assert(escape(a + b) =~= escape(a) + escape(b));
    }
}

fn push_escaped(out: &mut Vec<u8>, s: &[u8])
    ensures
        final(out)@ == old(out)@ + escape(s@),
{
    let mut i: usize = 0;
    let len = s.len();
    proof {
        assert(s@.take(0) =~= Seq::<u8>::empty());
        assert(out@ =~= old(out)@ + escape(s@.take(0)));
    }
    while i < len
        invariant
            i <= len,
            len == s@.len(),
            out@ == old(out)@ + escape(s@.take(i as int)),
        decreases len - i,
    {
        let b = s[i];
        if b == 34 {
            out.push(92);
            out.push(34);
        } else if b == 92 {
            out.push(92);
            out.push(92);
        } else if b == 10 {
            out.push(92);
            out.push(110);
        } else if b == 13 {
            out.push(92);
            out.push(114);
        } else if b == 9 {
            out.push(92);
            out.push(116);
        } else {
            out.push(b);
        }
        proof {
            assert(s@.take(i + 1) =~= s@.take(i as int) + seq![b]);
            lemma_escape_app(s@.take(i as int), seq![b]);
            lemma_escape_singleton(b);
            assert(out@ =~= old(out)@ + escape(s@.take(i + 1)));
        }
        i += 1;
    }
    proof {
        assert(s@.take(len as int) =~= s@);
    }
}

fn push_decimal(out: &mut Vec<u8>, n: u32)
    ensures
        final(out)@ == old(out)@ + dec_digits(n as int),
    decreases n,
{
    if n < 10 {
        out.push(48 + n as u8);
        proof {
            assert(out@ =~= old(out)@ + dec_digits(n as int));
        }
    } else {
        push_decimal(out, n / 10);
        out.push(48 + (n % 10) as u8);
        proof {
            assert(out@ =~= old(out)@ + dec_digits(n as int));
        }
    }
}

fn push_rfc_date(out: &mut Vec<u8>, d: &Date)
    requires
        date_valid(*d),
    ensures
        final(out)@ == old(out)@ + rfc_date_bytes(*d),
{
    out.push(48 + ((d.year / 1000) % 10) as u8);
    out.push(48 + ((d.year / 100) % 10) as u8);
    out.push(48 + ((d.year / 10) % 10) as u8);
    out.push(48 + (d.year % 10) as u8);
    out.push(45);
    out.push(48 + ((d.month / 10) % 10) as u8);
    out.push(48 + (d.month % 10) as u8);
    out.push(45);
    out.push(48 + ((d.day / 10) % 10) as u8);
    out.push(48 + (d.day % 10) as u8);
    out.push(84);
    proof {
        assert(out@ =~= old(out)@ + rfc_date_bytes(*d));
    }
}

fn push_rfc_time(out: &mut Vec<u8>, secs: u32)
    requires
        secs < 86400,
    ensures
        final(out)@ == old(out)@ + rfc_time_bytes(secs as int),
{
    let hh = secs / 3600;
    let mm = (secs / 60) % 60;
    let ss = secs % 60;
    proof {
        vstd::arithmetic::div_mod::lemma_div_is_ordered(secs as int, 86399, 3600);
        vstd::arithmetic::div_mod::lemma_mod_division_less_than_divisor(secs as int / 60, 60);
        vstd::arithmetic::div_mod::lemma_mod_division_less_than_divisor(secs as int, 60);
    }
    out.push(48 + (hh / 10) as u8);
    out.push(48 + (hh % 10) as u8);
    out.push(58);
    out.push(48 + (mm / 10) as u8);
    out.push(48 + (mm % 10) as u8);
    out.push(58);
    out.push(48 + (ss / 10) as u8);
    out.push(48 + (ss % 10) as u8);
    out.push(90);
    proof {
        assert(out@ =~= old(out)@ + rfc_time_bytes(secs as int));
    }
}

fn push_rfc3339(out: &mut Vec<u8>, t: &Timestamp)
    requires
        ts_valid(*t),
    ensures
        final(out)@ == old(out)@ + rfc3339_bytes(*t),
{
    push_rfc_date(out, &t.date);
    push_rfc_time(out, t.secs);
    proof {
        assert(out@ =~= old(out)@ + rfc3339_bytes(*t));
    }
}

/// No encoded record contains the line delimiter: records stay one per
/// line whatever the titles hold.
pub proof fn lemma_encode_no_delim(v: TimedEventView)
    ensures
        crate::util::find_byte(encode_record(v), crate::readline::NL) is None,
{
    let b = encode_record(v);
    assert forall|j: int| 0 <= j < b.len() implies b[j] != 10u8 by {
        lemma_record_bytes_no_delim(v, j);
    }
    crate::util::lemma_find_byte_none(b, 10u8);
}

/// Escaped content never holds a raw delimiter byte.
proof fn lemma_escape_no_delim(s: Seq<u8>, j: int)
    requires
        0 <= j < escape(s).len(),
    ensures
        escape(s)[j] != 10u8,
    decreases s.len(),
{
    if s.len() > 0 {
        let h = escape_byte(s[0]);
        if j >= h.len() {
            lemma_escape_no_delim(s.drop_first(), j - h.len());
        }
    }
}

/// Decimal digits never hold the delimiter byte.
proof fn lemma_dec_digits_no_delim(n: int, j: int)
    requires
        n >= 0,
        0 <= j < dec_digits(n).len(),
    ensures
        dec_digits(n)[j] != 10u8,
        48 <= dec_digits(n)[j] <= 57,
    decreases n,
{
    vstd::arithmetic::div_mod::lemma_mod_division_less_than_divisor(n, 10);
    if n >= 10 {
        vstd::arithmetic::div_mod::lemma_div_pos_is_pos(n, 10);
        if j < dec_digits(n / 10).len() {
            lemma_dec_digits_no_delim(n / 10, j);
        }
    }
}

proof fn lemma_record_bytes_no_delim(v: TimedEventView, j: int)
    requires
        0 <= j < encode_record(v).len(),
    ensures
        encode_record(v)[j] != 10u8,
{
    let b = encode_record(v);
    let ts = rfc3339_bytes(v.timestamp);
    let ee = encode_event(v.event);
    assert(b == lit_ts_open() + ts + lit_event_open() + ee + seq![125u8]);
    if j < lit_ts_open().len() {
    } else if j < lit_ts_open().len() + ts.len() {
        assert(b[j] == ts[j - lit_ts_open().len()]);
        assert(ts[j - lit_ts_open().len()] != 10u8);
    } else if j < lit_ts_open().len() + ts.len() + lit_event_open().len() {
        assert(b[j] == lit_event_open()[j - lit_ts_open().len() - ts.len()]);
    } else if j < b.len() - 1 {
        let je = j - lit_ts_open().len() - ts.len() - lit_event_open().len();
        assert(b[j] == ee[je]);
        lemma_encode_event_no_delim(v.event, je);
    } else {
        assert(b[j] == 125u8);
    }
}

proof fn lemma_encode_event_no_delim(e: EventView, j: int)
    requires
        0 <= j < encode_event(e).len(),
    ensures
        encode_event(e)[j] != 10u8,
{
    let ee = encode_event(e);
    match e {
        EventView::Focused { title, id, pid } => {
            let a1 = lit_type_open() + tag_bytes(e);
            let a2 = a1 + lit_title_open();
            let t1 = escape(encode_utf8(title));
            let a3 = a2 + t1;
            let a4 = a3 + lit_id_open();
            let t2 = escape(encode_utf8(id));
            let a5 = a4 + t2;
            let a6 = a5 + lit_pid_open();
            let t3 = dec_digits(pid as int);
            assert(ee == a6 + t3 + seq![125u8]);
            if j < a1.len() {
                assert(ee[j] == a1[j]);
            } else if j < a2.len() {
                assert(ee[j] == lit_title_open()[j - a1.len()]);
            } else if j < a3.len() {
                assert(ee[j] == t1[j - a2.len()]);
                lemma_escape_no_delim(encode_utf8(title), j - a2.len());
            } else if j < a4.len() {
                assert(ee[j] == lit_id_open()[j - a3.len()]);
            } else if j < a5.len() {
                assert(ee[j] == t2[j - a4.len()]);
                lemma_escape_no_delim(encode_utf8(id), j - a4.len());
            } else if j < a6.len() {
                assert(ee[j] == lit_pid_open()[j - a5.len()]);
            } else if j < a6.len() + t3.len() {
                assert(ee[j] == t3[j - a6.len()]);
                lemma_dec_digits_no_delim(pid as int, j - a6.len());
            } else {
                assert(ee[j] == 125u8);
            }
        },
        _ => {
            let a1 = lit_type_open() + tag_bytes(e);
            assert(ee == a1 + seq![34u8, 125u8]);
            if j < a1.len() {
                assert(ee[j] == a1[j]);
            }
        },
    }
}

/// Escaped output aligns only one way: if an escaped sequence followed by
/// anything equals another escaped sequence followed by a closing quote,
/// the first source is a prefix of the second and the leftover input is
/// exactly the escape of the remaining source plus the quote.
pub proof fn lemma_escape_align(a: Seq<u8>, x: Seq<u8>, t: Seq<u8>, r: Seq<u8>)
    requires
        escape(a) + x == escape(t) + seq![34u8] + r,
    ensures
        t.len() >= a.len(),
        t.take(a.len() as int) == a,
        x == escape(t.skip(a.len() as int)) + seq![34u8] + r,
    decreases a.len(),
{
    if a.len() == 0 {
        assert(t.take(0) =~= a);
        assert(t.skip(0) =~= t);
        assert(escape(a) + x =~= x);
    } else {
        let ca = escape_byte(a[0]);
        assert(escape(a) == ca + escape(a.drop_first()));
        if t.len() == 0 {
            assert(escape(t) + seq![34u8] + r =~= seq![34u8] + r);
            assert((escape(a) + x)[0] == ca[0]);
            assert((seq![34u8] + r)[0] == 34u8);
            assert(ca[0] != 34u8);
            assert(false);
        }
        let ct = escape_byte(t[0]);
        assert(escape(t) == ct + escape(t.drop_first()));
        let lhs = escape(a) + x;
        let rhs = escape(t) + seq![34u8] + r;
        assert(lhs[0] == ca[0]);
        assert(rhs[0] == ct[0]);
        assert(a[0] == t[0]) by {
            if ca.len() == 2 && ct.len() == 2 {
                assert(lhs[1] == ca[1]);
                assert(rhs[1] == ct[1]);
            } else if ca.len() == 2 && ct.len() == 1 {
                assert(ca[0] == 92 && ct[0] == t[0] && t[0] != 92);
                assert(false);
            } else if ca.len() == 1 && ct.len() == 2 {
                assert(ct[0] == 92 && ca[0] == a[0] && a[0] != 92);
                assert(false);
            }
        }
        assert(ca == ct);
        assert(escape(a.drop_first()) + x =~= escape(t.drop_first()) + seq![34u8] + r) by {
            assert(lhs =~= ca + (escape(a.drop_first()) + x));
            assert(rhs =~= ca + (escape(t.drop_first()) + seq![34u8] + r));
            assert forall|j: int|
                0 <= j < escape(a.drop_first()).len() + x.len() implies (escape(a.drop_first())
                + x)[j] == (escape(t.drop_first()) + seq![34u8] + r)[j] by {
                assert((escape(a.drop_first()) + x)[j] == lhs[j + ca.len()]);
                assert((escape(t.drop_first()) + seq![34u8] + r)[j] == rhs[j + ca.len()]);
            }
        }
        lemma_escape_align(a.drop_first(), x, t.drop_first(), r);
        assert(t.take(a.len() as int) =~= seq![t[0]] + t.drop_first().take(a.len() - 1));
        assert(a =~= seq![a[0]] + a.drop_first());
        assert(t.take(a.len() as int) =~= a);
        assert(t.drop_first().skip(a.len() - 1) =~= t.skip(a.len() as int));
    }
}

/// A non-empty escaped sequence never begins with an unescaped quote.
proof fn lemma_escape_first(s: Seq<u8>)
    requires
        s.len() > 0,
    ensures
        escape(s).len() > 0,
        escape(s)[0] != 34u8,
        escape(s)[0] == 92u8 || escape(s)[0] == s[0],
        escape(s)[0] == 92u8 ==> escape(s).len() >= 2 && (s[0] == 34 || s[0] == 92 || s[0] == 10
            || s[0] == 13 || s[0] == 9) && escape(s)[1] == escape_byte(s[0])[1] && escape(
            s.drop_first(),
        ) == escape(s).skip(2),
        escape(s)[0] != 92u8 ==> s[0] != 34 && s[0] != 92 && s[0] != 10 && s[0] != 13 && s[0] != 9
            && escape(s.drop_first()) == escape(s).skip(1),
{
    let cb = escape_byte(s[0]);
    assert(escape(s) == cb + escape(s.drop_first()));
    if cb.len() == 2 {
        assert(escape(s.drop_first()) =~= escape(s).skip(2));
    } else {
        assert(escape(s.drop_first()) =~= escape(s).skip(1));
    }
}

/// The numeric value of a decimal digit string.
pub open spec fn dec_value(s: Seq<u8>) -> int
    decreases s.len(),
{
    if s.len() == 0 {
        0
    } else {
        dec_value(s.take(s.len() - 1)) * 10 + (s.last() - 48)
    }
}

/// Powers of ten.
pub open spec fn pow10(k: nat) -> int
    decreases k,
{
    if k == 0 {
        1
    } else {
        10 * pow10((k - 1) as nat)
    }
}

/// The digit form of a value evaluates back to the value, consists of
/// digit bytes, has no leading zero, and is as short as the value allows.
pub proof fn lemma_dec_digits_props(n: int)
    requires
        n >= 0,
    ensures
        dec_value(dec_digits(n)) == n,
        dec_digits(n).len() >= 1,
        forall|j: int| 0 <= j < dec_digits(n).len() ==> 48 <= #[trigger] dec_digits(n)[j] <= 57,
        dec_digits(n).len() > 1 ==> dec_digits(n)[0] != 48,
        n >= 10 ==> dec_digits(n).len() >= 2,
    decreases n,
{
    vstd::arithmetic::div_mod::lemma_mod_division_less_than_divisor(n, 10);
    assert(dec_value(Seq::<u8>::empty()) == 0);
    if n < 10 {
        assert(dec_digits(n) =~= seq![digit(n)]);
        assert(dec_digits(n).take(0) =~= Seq::<u8>::empty());
        assert(dec_value(dec_digits(n)) == dec_value(dec_digits(n).take(0)) * 10 + (dec_digits(
            n,
        ).last() - 48));
    } else {
        vstd::arithmetic::div_mod::lemma_div_pos_is_pos(n, 10);
        vstd::arithmetic::div_mod::lemma_div_decreases(n, 10);
        vstd::arithmetic::div_mod::lemma_fundamental_div_mod(n, 10);
        lemma_dec_digits_props(n / 10);
        let dd = dec_digits(n);
        assert(dd == dec_digits(n / 10) + seq![digit(n % 10)]);
        assert(dd.take(dd.len() - 1) =~= dec_digits(n / 10));
        assert(dd.last() == digit(n % 10));
        assert(dec_value(dd) == (n / 10) * 10 + (n % 10));
        assert(dd[0] == dec_digits(n / 10)[0]);
        assert(n / 10 >= 1);
        if n / 10 < 10 {
            assert(dec_digits(n / 10) =~= seq![digit(n / 10)]);
        }
    }
}

/// A value below `pow10(k)` has at most `k` digits.
proof fn lemma_dec_digits_len(n: int, k: nat)
    requires
        0 <= n < pow10(k),
        k >= 1,
    ensures
        dec_digits(n).len() <= k,
    decreases n,
{
    if n >= 10 {
        vstd::arithmetic::div_mod::lemma_div_pos_is_pos(n, 10);
        vstd::arithmetic::div_mod::lemma_div_decreases(n, 10);
        assert(pow10(k) == 10 * pow10((k - 1) as nat));
        assert(n / 10 < pow10((k - 1) as nat)) by {
            vstd::arithmetic::div_mod::lemma_fundamental_div_mod(n, 10);
            vstd::arithmetic::div_mod::lemma_mod_division_less_than_divisor(n, 10);
        }
        assert(k - 1 >= 1) by {
            if k == 1 {
                assert(pow10(1int as nat) == 10);
            }
        }
        lemma_dec_digits_len(n / 10, (k - 1) as nat);
    }
}

/// A digit string without a leading zero is the digit form of its value.
proof fn lemma_digits_of_dec_value(s: Seq<u8>)
    requires
        s.len() >= 1,
        forall|j: int| 0 <= j < s.len() ==> 48 <= #[trigger] s[j] <= 57,
        s.len() > 1 ==> s[0] != 48,
    ensures
        dec_value(s) >= 0,
        s.len() > 1 ==> dec_value(s) >= 10,
        dec_digits(dec_value(s)) == s,
    decreases s.len(),
{
    let v = dec_value(s);
    assert(dec_value(Seq::<u8>::empty()) == 0);
    if s.len() == 1 {
        assert(s.take(0) =~= Seq::<u8>::empty());
        assert(v == dec_value(s.take(0)) * 10 + (s.last() - 48));
        assert(v == s[0] - 48);
        assert(dec_digits(v) =~= seq![digit(v)]);
        assert(seq![digit(v)] =~= s);
    } else {
        let sp = s.take(s.len() - 1);
        assert(forall|j: int| 0 <= j < sp.len() ==> 48 <= #[trigger] sp[j] <= 57);
        lemma_digits_of_dec_value(sp);
        let vp = dec_value(sp);
        assert(v == vp * 10 + (s.last() - 48));
        assert(vp >= 1);
        assert(v >= 10);
        vstd::arithmetic::div_mod::lemma_fundamental_div_mod_converse_div(
            v,
            10,
            vp,
            s.last() - 48,
        );
        vstd::arithmetic::div_mod::lemma_fundamental_div_mod_converse_mod(
            v,
            10,
            vp,
            s.last() - 48,
        );
        assert(dec_digits(v) == dec_digits(vp) + seq![digit(v % 10)]);
        assert(dec_digits(v) =~= s);
    }
}

/// Scan escaped string content from `start` up to its closing quote,
/// undoing the escapes. Finds exactly the decompositions that exist.
fn scan_string(bytes: &[u8], start: usize) -> (r: Option<(Vec<u8>, usize)>)
    requires
        start <= bytes@.len(),
    ensures
        match r {
            Some((out, end)) => {
                &&& start <= end < bytes@.len()
                &&& bytes@[end as int] == 34
                &&& bytes@.subrange(start as int, end as int) == escape(out@)
                &&& end == start + escape(out@).len()
            },
            None => true,
        },
        forall|t: Seq<u8>, rest: Seq<u8>|
            #![trigger escape(t) + seq![34u8] + rest]
            bytes@.skip(start as int) == escape(t) + seq![34u8] + rest ==> (r matches Some(p)
                && p.0@ == t && p.1 == start + escape(t).len()),
{
    let n = bytes.len();
    let mut out: Vec<u8> = Vec::new();
    let mut i: usize = start;
    proof {
        assert(bytes@.subrange(start as int, start as int) =~= escape(out@));
    }
    loop
        invariant
            start <= i <= n,
            n == bytes@.len(),
            bytes@.subrange(start as int, i as int) == escape(out@),
        decreases n - i,
    {
        let ghost consumed = out@;
        proof {
            assert(bytes@.skip(start as int) =~= escape(consumed) + bytes@.skip(i as int));
        }
        if i >= n {
            proof {
                assert forall|t: Seq<u8>, rest: Seq<u8>|
                    #![trigger escape(t) + seq![34u8] + rest]
                    bytes@.skip(start as int) == escape(t) + seq![34u8] + rest implies false by {
                    lemma_escape_align(consumed, bytes@.skip(i as int), t, rest);
                    assert(bytes@.skip(i as int).len() == 0);
                }
            }
            return None;
        }
        let b = bytes[i];
        if b == 34 {
            proof {
                assert forall|t: Seq<u8>, rest: Seq<u8>|
                    #![trigger escape(t) + seq![34u8] + rest]
                    bytes@.skip(start as int) == escape(t) + seq![34u8] + rest implies consumed
                    == t && i == start + escape(t).len() by {
                    lemma_escape_align(consumed, bytes@.skip(i as int), t, rest);
                    if t.len() > consumed.len() {
                        lemma_escape_first(t.skip(consumed.len() as int));
                        assert(bytes@.skip(i as int)[0] == escape(t.skip(consumed.len() as int))[0]);
                        assert(false);
                    }
                    assert(t.take(t.len() as int) =~= t);
                }
            }
            return Some((out, i));
        }
        if b == 92 {
            if i + 1 >= n {
                proof {
                    assert forall|t: Seq<u8>, rest: Seq<u8>|
                        #![trigger escape(t) + seq![34u8] + rest]
                        bytes@.skip(start as int) == escape(t) + seq![34u8] + rest implies false by {
                        lemma_escape_align(consumed, bytes@.skip(i as int), t, rest);
                        if t.len() > consumed.len() {
                            lemma_escape_first(t.skip(consumed.len() as int));
                            assert(bytes@.skip(i as int).len() >= 2);
                        } else {
                            assert(bytes@.skip(i as int)[0] == 34u8);
                        }
                        assert(false);
                    }
                }
                return None;
            }
            let e = bytes[i + 1];
            let decoded: u8 = if e == 34 {
                34
            } else if e == 92 {
                92
            } else if e == 110 {
                10
            } else if e == 114 {
                13
            } else if e == 116 {
                9
            } else {
                proof {
                    assert forall|t: Seq<u8>, rest: Seq<u8>|
                        #![trigger escape(t) + seq![34u8] + rest]
                        bytes@.skip(start as int) == escape(t) + seq![34u8] + rest implies false by {
                        lemma_escape_align(consumed, bytes@.skip(i as int), t, rest);
                        if t.len() > consumed.len() {
                            let su = t.skip(consumed.len() as int);
                            lemma_escape_first(su);
                            assert(bytes@.skip(i as int)[0] == escape(su)[0]);
                            assert(bytes@.skip(i as int)[1] == escape(su)[1]);
                            assert(escape(su)[1] == escape_byte(su[0])[1]);
                        } else {
                            assert(bytes@.skip(i as int)[0] == 34u8);
                        }
                        assert(false);
                    }
                }
                return None;
            };
            out.push(decoded);
            proof {
                assert(escape_byte(decoded) =~= seq![92u8, e]);
                lemma_escape_app(consumed, seq![decoded]);
                lemma_escape_singleton(decoded);
                assert(bytes@.subrange(start as int, i + 2) =~= escape(consumed) + seq![
                    92u8,
                    e,
                ]);
                assert(out@ =~= consumed + seq![decoded]);
                assert(bytes@.subrange(start as int, i + 2) =~= escape(out@));
            }
            i += 2;
        } else if b == 9 || b == 10 || b == 13 {
            proof {
                assert forall|t: Seq<u8>, rest: Seq<u8>|
                    #![trigger escape(t) + seq![34u8] + rest]
                    bytes@.skip(start as int) == escape(t) + seq![34u8] + rest implies false by {
                    lemma_escape_align(consumed, bytes@.skip(i as int), t, rest);
                    if t.len() > consumed.len() {
                        let su = t.skip(consumed.len() as int);
                        lemma_escape_first(su);
                        assert(bytes@.skip(i as int)[0] == escape(su)[0]);
                    } else {
                        assert(bytes@.skip(i as int)[0] == 34u8);
                    }
                    assert(false);
                }
            }
            return None;
        } else {
            out.push(b);
            proof {
                assert(escape_byte(b) =~= seq![b]);
                lemma_escape_app(consumed, seq![b]);
                lemma_escape_singleton(b);
                assert(out@ =~= consumed + seq![b]);
                assert(bytes@.subrange(start as int, i + 1) =~= escape(consumed) + seq![b]);
                assert(bytes@.subrange(start as int, i + 1) =~= escape(out@));
            }
            i += 1;
        }
    }
}

/// Scan an unsigned decimal number from `start`: digit bytes without a
/// leading zero, valued within `u32`.
fn scan_number(bytes: &[u8], start: usize) -> (r: Option<(u32, usize)>)
    requires
        start <= bytes@.len(),
    ensures
        match r {
            Some(p) => {
                &&& start < p.1 <= bytes@.len()
                &&& bytes@.subrange(start as int, p.1 as int) == dec_digits(p.0 as int)
            },
            None => true,
        },
        forall|m: u32, rest: Seq<u8>|
            #![trigger dec_digits(m as int) + rest]
            (bytes@.skip(start as int) == dec_digits(m as int) + rest && (rest.len() == 0 || !(48
                <= rest[0] <= 57))) ==> (r matches Some(p) && p.0 == m && p.1 == start
                + dec_digits(m as int).len()),
{
    let n = bytes.len();
    let mut i: usize = start;
    let mut acc: u64 = 0;
    // Measure the digit run first.
    while i < n && bytes[i] >= 48 && bytes[i] <= 57
        invariant
            start <= i <= n,
            n == bytes@.len(),
            forall|j: int| start <= j < i ==> 48 <= #[trigger] bytes@[j] <= 57,
        decreases n - i,
    {
        i += 1;
    }
    let runlen = i - start;
    let ghost run = bytes@.subrange(start as int, i as int);
    proof {
        assert(forall|j: int| 0 <= j < run.len() ==> 48 <= #[trigger] run[j] <= 57);
        assert(i == n || !(48 <= bytes@[i as int] <= 57));
    }
    if runlen == 0 || runlen > 10 || (runlen > 1 && bytes[start] == 48) {
        proof {
            assert forall|m: u32, rest: Seq<u8>|
                #![trigger dec_digits(m as int) + rest]
                (bytes@.skip(start as int) == dec_digits(m as int) + rest && (rest.len() == 0 || !(
                48 <= rest[0] <= 57))) implies false by {
                lemma_dec_digits_props(m as int);
                assert(pow10(10) == 10000000000) by {
                    reveal_with_fuel(pow10, 11);
                }
                lemma_dec_digits_len(m as int, 10);
                let dl = dec_digits(m as int).len() as int;
                assert(bytes@.skip(start as int).len() == n - start);
                assert(start + dl <= n);
                assert forall|j: int| start <= j < start + dl implies 48 <= #[trigger] bytes@[j]
                    <= 57 by {
                    assert(bytes@[j] == bytes@.skip(start as int)[j - start]);
                    assert(bytes@[j] == dec_digits(m as int)[j - start]);
                }
                if start + dl < n {
                    assert(bytes@[start + dl] == bytes@.skip(start as int)[dl]);
                    assert(bytes@[start + dl] == (dec_digits(m as int) + rest)[dl]);
                    assert(rest[0] == (dec_digits(m as int) + rest)[dl]);
                }
                assert(i as int == start + dl) by {
                    if (i as int) < start + dl {
                        assert(48 <= bytes@[i as int] <= 57);
                    }
                    if (i as int) > start + dl {
                        assert(48 <= bytes@[start + dl] <= 57);
                    }
                }
                assert(bytes@[start as int] == bytes@.skip(start as int)[0]);
                assert(bytes@.skip(start as int)[0] == dec_digits(m as int)[0]);
                assert(false);
            }
        }
        return None;
    }
    let mut k: usize = start;
    proof {
        assert(run.take(0) =~= Seq::<u8>::empty());
        assert(dec_value(Seq::<u8>::empty()) == 0);
    }
    while k < i
        invariant
            start <= k <= i <= n,
            n == bytes@.len(),
            i - start <= 10,
            run == bytes@.subrange(start as int, i as int),
            forall|j: int| start <= j < i ==> 48 <= #[trigger] bytes@[j] <= 57,
            forall|j: int| 0 <= j < run.len() ==> 48 <= #[trigger] run[j] <= 57,
            acc == dec_value(run.take(k - start)),
        decreases i - k,
    {
        let b = bytes[k];
        proof {
            lemma_dec_value_bound(run.take(k - start));
            lemma_pow10_le((k - start) as nat, 9int as nat);
            assert(pow10(9int as nat) == 1000000000) by {
                reveal_with_fuel(pow10, 10);
            }
            assert(acc < 1000000000);
            assert(run.take(k - start + 1) =~= run.take(k - start).push(b));
            assert(run.take(k - start + 1).take(k - start) =~= run.take(k - start));
            assert(run.take(k - start + 1).last() == b);
        }
        acc = acc * 10 + (b - 48) as u64;
        k += 1;
        proof {
            assert(acc == dec_value(run.take(k - start)));
        }
    }
    proof {
        assert(run.take(i - start) =~= run);
    }
    if acc > 0xffffffff {
        proof {
            assert forall|m: u32, rest: Seq<u8>|
                #![trigger dec_digits(m as int) + rest]
                (bytes@.skip(start as int) == dec_digits(m as int) + rest && (rest.len() == 0 || !(
                48 <= rest[0] <= 57))) implies false by {
                lemma_dec_digits_props(m as int);
                let dl = dec_digits(m as int).len() as int;
                assert(bytes@.skip(start as int).len() == n - start);
                assert(start + dl <= n);
                assert forall|j: int| start <= j < start + dl implies 48 <= #[trigger] bytes@[j]
                    <= 57 by {
                    assert(bytes@[j] == bytes@.skip(start as int)[j - start]);
                    assert(bytes@[j] == dec_digits(m as int)[j - start]);
                }
                if start + dl < n {
                    assert(bytes@[start + dl] == bytes@.skip(start as int)[dl]);
                    assert(bytes@[start + dl] == (dec_digits(m as int) + rest)[dl]);
                    assert(rest[0] == (dec_digits(m as int) + rest)[dl]);
                }
                assert(i as int == start + dl) by {
                    if (i as int) < start + dl {
                        assert(48 <= bytes@[i as int] <= 57);
                    }
                    if (i as int) > start + dl {
                        assert(48 <= bytes@[start + dl] <= 57);
                    }
                }
                assert(run =~= dec_digits(m as int));
                assert(acc == m as int);
                assert(false);
            }
        }
        return None;
    }
    let v = acc as u32;
    proof {
        lemma_digits_of_dec_value(run);
        assert(bytes@.subrange(start as int, i as int) == dec_digits(v as int));
        assert forall|m: u32, rest: Seq<u8>|
            #![trigger dec_digits(m as int) + rest]
            (bytes@.skip(start as int) == dec_digits(m as int) + rest && (rest.len() == 0 || !(48
                <= rest[0] <= 57))) implies v == m && i as int == start + dec_digits(
            m as int,
        ).len() by {
            lemma_dec_digits_props(m as int);
            let dl = dec_digits(m as int).len() as int;
            assert(bytes@.skip(start as int).len() == n - start);
            assert(start + dl <= n);
            assert forall|j: int| start <= j < start + dl implies 48 <= #[trigger] bytes@[j]
                <= 57 by {
                assert(bytes@[j] == bytes@.skip(start as int)[j - start]);
                assert(bytes@[j] == dec_digits(m as int)[j - start]);
            }
            if start + dl < n {
                assert(bytes@[start + dl] == bytes@.skip(start as int)[dl]);
                assert(bytes@[start + dl] == (dec_digits(m as int) + rest)[dl]);
                assert(rest[0] == (dec_digits(m as int) + rest)[dl]);
            }
            assert(i as int == start + dl) by {
                if (i as int) < start + dl {
                    assert(48 <= bytes@[i as int] <= 57);
                }
                if (i as int) > start + dl {
                    assert(48 <= bytes@[start + dl] <= 57);
                }
            }
            assert(run =~= dec_digits(m as int));
            assert(acc == m as int);
        }
    }
    Some((v, i))
}

/// A digit string's value stays below the power of ten of its length.
proof fn lemma_dec_value_bound(s: Seq<u8>)
    requires
        forall|j: int| 0 <= j < s.len() ==> 48 <= #[trigger] s[j] <= 57,
    ensures
        0 <= dec_value(s) < pow10(s.len()),
    decreases s.len(),
{
    if s.len() > 0 {
        let sp = s.take(s.len() - 1);
        assert(forall|j: int| 0 <= j < sp.len() ==> 48 <= #[trigger] sp[j] <= 57);
        lemma_dec_value_bound(sp);
        assert(pow10(s.len()) == 10 * pow10(sp.len()));
    }
}

/// Powers of ten grow with the exponent.
proof fn lemma_pow10_le(a: nat, b: nat)
    requires
        a <= b,
    ensures
        pow10(a) <= pow10(b),
        pow10(a) >= 1,
    decreases b,
{
    if a < b {
        lemma_pow10_le(a, (b - 1) as nat);
    } else if b > 0 {
        lemma_pow10_le((a - 1) as nat, (b - 1) as nat);
    }
}

/// Whether `pat` occurs in `bytes` at offset `at`.
fn starts_with_at(bytes: &[u8], at: usize, pat: &[u8]) -> (r: bool)
    ensures
        r == (at + pat@.len() <= bytes@.len() && bytes@.subrange(at as int, at + pat@.len())
            == pat@),
{
    let n = bytes.len();
    let pl = pat.len();
    if at > n || pl > n - at {
        return false;
    }
    let mut j: usize = 0;
    while j < pl
        invariant
            j <= pl,
            pl == pat@.len(),
            n == bytes@.len(),
            at + pl <= n,
            forall|k: int| 0 <= k < j ==> bytes@[at + k] == #[trigger] pat@[k],
        decreases pl - j,
    {
        if bytes[at + j] != pat[j] {
            proof {
                assert(bytes@.subrange(at as int, at + pl)[j as int] != pat@[j as int]);
            }
            return false;
        }
        j += 1;
    }
    proof {
        assert(bytes@.subrange(at as int, at + pl) =~= pat@);
    }
    true
}

fn vec_lit_ts_open() -> (r: Vec<u8>)
    ensures
        r@ == lit_ts_open(),
{
    let mut v: Vec<u8> = Vec::new();
    push_lit_ts_open(&mut v);
    proof {
        assert(v@ =~= lit_ts_open());
    }
    v
}

fn vec_lit_event_open() -> (r: Vec<u8>)
    ensures
        r@ == lit_event_open(),
{
    let mut v: Vec<u8> = Vec::new();
    push_lit_event_open(&mut v);
    proof {
        assert(v@ =~= lit_event_open());
    }
    v
}

fn vec_lit_type_open() -> (r: Vec<u8>)
    ensures
        r@ == lit_type_open(),
{
    let mut v: Vec<u8> = Vec::new();
    push_lit_type_open(&mut v);
    proof {
        assert(v@ =~= lit_type_open());
    }
    v
}

fn vec_lit_title_open() -> (r: Vec<u8>)
    ensures
        r@ == lit_title_open(),
{
    let mut v: Vec<u8> = Vec::new();
    push_lit_title_open(&mut v);
    proof {
        assert(v@ =~= lit_title_open());
    }
    v
}

fn vec_lit_id_open() -> (r: Vec<u8>)
    ensures
        r@ == lit_id_open(),
{
    let mut v: Vec<u8> = Vec::new();
    push_lit_id_open(&mut v);
    proof {
        assert(v@ =~= lit_id_open());
    }
    v
}

fn vec_lit_pid_open() -> (r: Vec<u8>)
    ensures
        r@ == lit_pid_open(),
{
    let mut v: Vec<u8> = Vec::new();
    push_lit_pid_open(&mut v);
    proof {
        assert(v@ =~= lit_pid_open());
    }
    v
}

/// Two decimal digits read as a number.
fn digit2_at(bytes: &[u8], i: usize) -> (r: Option<u32>)
    requires
        i + 2 <= bytes@.len(),
    ensures
        match r {
            Some(v) => 48 <= bytes@[i as int] <= 57 && 48 <= bytes@[i + 1] <= 57 && v == (
            bytes@[i as int] - 48) * 10 + (bytes@[i + 1] - 48),
            None => !(48 <= bytes@[i as int] <= 57) || !(48 <= bytes@[i + 1] <= 57),
        },
{
    let b0 = bytes[i];
    let b1 = bytes[i + 1];
    if b0 < 48 || b0 > 57 || b1 < 48 || b1 > 57 {
        return None;
    }
    Some((b0 - 48) as u32 * 10 + (b1 - 48) as u32)
}

/// Four decimal digits read as a number.
fn digit4_at(bytes: &[u8], i: usize) -> (r: Option<u32>)
    requires
        i + 4 <= bytes@.len(),
    ensures
        match r {
            Some(v) => (forall|k: int| i <= k < i + 4 ==> 48 <= #[trigger] bytes@[k] <= 57) && v
                == (bytes@[i as int] - 48) * 1000 + (bytes@[i + 1] - 48) * 100 + (bytes@[i + 2]
                - 48) * 10 + (bytes@[i + 3] - 48),
            None => exists|k: int| i <= k < i + 4 && !(48 <= #[trigger] bytes@[k] <= 57),
        },
{
    let b0 = bytes[i];
    let b1 = bytes[i + 1];
    let b2 = bytes[i + 2];
    let b3 = bytes[i + 3];
    if b0 < 48 || b0 > 57 || b1 < 48 || b1 > 57 || b2 < 48 || b2 > 57 || b3 < 48 || b3 > 57 {
        return None;
    }
    Some(
        (b0 - 48) as u32 * 1000 + (b1 - 48) as u32 * 100 + (b2 - 48) as u32 * 10 + (b3
            - 48) as u32,
    )
}

/// A second of day splits into hours, minutes and seconds and back.
proof fn lemma_secs_split(s: int)
    requires
        0 <= s < 86400,
    ensures
        s == s / 3600 * 3600 + s / 60 % 60 * 60 + s % 60,
        0 <= s / 3600 < 24,
        0 <= s / 60 % 60 < 60,
        0 <= s % 60 < 60,
{
    vstd::arithmetic::div_mod::lemma_fundamental_div_mod(s, 60);
    vstd::arithmetic::div_mod::lemma_mod_division_less_than_divisor(s, 60);
    vstd::arithmetic::div_mod::lemma_div_pos_is_pos(s, 60);
    vstd::arithmetic::div_mod::lemma_fundamental_div_mod(s / 60, 60);
    vstd::arithmetic::div_mod::lemma_mod_division_less_than_divisor(s / 60, 60);
    vstd::arithmetic::div_mod::lemma_div_pos_is_pos(s / 60, 60);
    vstd::arithmetic::div_mod::lemma_div_denominator(s, 60, 60);
    assert(s / 60 / 60 == s / 3600);
    vstd::arithmetic::div_mod::lemma_div_is_ordered(s, 86399, 3600);
}

/// Hours, minutes and seconds assemble into a second of day and split
/// back into the same parts.
proof fn lemma_secs_of_parts(hh: int, mm: int, ss: int)
    requires
        0 <= hh < 24,
        0 <= mm < 60,
        0 <= ss < 60,
    ensures
        (hh * 3600 + mm * 60 + ss) / 3600 == hh,
        (hh * 3600 + mm * 60 + ss) / 60 % 60 == mm,
        (hh * 3600 + mm * 60 + ss) % 60 == ss,
        0 <= hh * 3600 + mm * 60 + ss < 86400,
{
    let s = hh * 3600 + mm * 60 + ss;
    vstd::arithmetic::div_mod::lemma_fundamental_div_mod_converse_div(s, 3600, hh, mm * 60 + ss);
    vstd::arithmetic::div_mod::lemma_fundamental_div_mod_converse_div(s, 60, hh * 60 + mm, ss);
    vstd::arithmetic::div_mod::lemma_fundamental_div_mod_converse_mod(
        hh * 60 + mm,
        60,
        hh,
        mm,
    );
    vstd::arithmetic::div_mod::lemma_fundamental_div_mod_converse_mod(s, 60, hh * 60 + mm, ss);
}

/// How an encoded record decomposes, byte by byte where the timestamp
/// lies and piecewise elsewhere.
#[verifier::rlimit(100)]
proof fn lemma_record_structure(v: TimedEventView)
    requires
        ev_valid(v),
    ensures
        encode_record(v).len() == 45 + encode_event(v.event).len(),
        encode_event(v.event).len() >= 15,
        encode_record(v).subrange(0, 14) == lit_ts_open(),
        encode_record(v).subrange(14, 34) == rfc3339_bytes(v.timestamp),
        encode_record(v).subrange(34, 44) == lit_event_open(),
        encode_record(v).subrange(44, encode_record(v).len() - 1) == encode_event(v.event),
        encode_record(v).last() == 125u8,
        rfc3339_bytes(v.timestamp).len() == 20,
        forall|k: int|
            0 <= k < 20 ==> #[trigger] encode_record(v)[14 + k] == rfc3339_bytes(v.timestamp)[k],
{
    let b = encode_record(v);
    let ts = rfc3339_bytes(v.timestamp);
    let ee = encode_event(v.event);
    assert(ee.len() >= 15) by {
        match v.event {
            EventView::Focused { title, id, pid } => {
                lemma_dec_digits_props(pid as int);
            },
            _ => {
            },
        }
    }
    assert(b.subrange(0, 14) =~= lit_ts_open());
    assert(b.subrange(14, 34) =~= ts);
    assert(b.subrange(34, 44) =~= lit_event_open());
    assert(b.subrange(44, b.len() - 1) =~= ee);
    assert forall|k: int| 0 <= k < 20 implies #[trigger] b[14 + k] == ts[k] by {
        assert(b.subrange(14, 34)[k] == b[14 + k]);
    }
}

/// The timestamp whose digits stand at the head of a 20-byte RFC 3339
/// region is written back as exactly that region.
#[verifier::rlimit(100)]
proof fn lemma_rfc_of_digits(t: Timestamp, s20: Seq<u8>)
    requires
        ts_valid(t),
        s20.len() == 20,
        forall|k: int|
            0 <= k < 20 && k != 4 && k != 7 && k != 10 && k != 13 && k != 16 && k != 19 ==> 48
                <= #[trigger] s20[k] <= 57,
        s20[4] == 45,
        s20[7] == 45,
        s20[10] == 84,
        s20[13] == 58,
        s20[16] == 58,
        s20[19] == 90,
        t.date.year == (s20[0] - 48) * 1000 + (s20[1] - 48) * 100 + (s20[2] - 48) * 10 + (s20[3]
            - 48),
        t.date.month == (s20[5] - 48) * 10 + (s20[6] - 48),
        t.date.day == (s20[8] - 48) * 10 + (s20[9] - 48),
        t.secs == ((s20[11] - 48) * 10 + (s20[12] - 48)) * 3600 + ((s20[14] - 48) * 10 + (s20[15]
            - 48)) * 60 + ((s20[17] - 48) * 10 + (s20[18] - 48)),
        (s20[11] - 48) * 10 + (s20[12] - 48) < 24,
        (s20[14] - 48) * 10 + (s20[15] - 48) < 60,
        (s20[17] - 48) * 10 + (s20[18] - 48) < 60,
    ensures
        rfc3339_bytes(t) == s20,
{
    crate::filepath::lemma_digits_of_value4(
        t.date.year as int,
        s20[0] - 48,
        s20[1] - 48,
        s20[2] - 48,
        s20[3] - 48,
    );
    crate::filepath::lemma_digits_of_value2(t.date.month as int, s20[5] - 48, s20[6] - 48);
    crate::filepath::lemma_digits_of_value2(t.date.day as int, s20[8] - 48, s20[9] - 48);
    let hh = (s20[11] - 48) * 10 + (s20[12] - 48);
    let mm = (s20[14] - 48) * 10 + (s20[15] - 48);
    let ss = (s20[17] - 48) * 10 + (s20[18] - 48);
    lemma_secs_of_parts(hh, mm, ss);
    crate::filepath::lemma_digits_of_value2(hh, s20[11] - 48, s20[12] - 48);
    crate::filepath::lemma_digits_of_value2(mm, s20[14] - 48, s20[15] - 48);
    crate::filepath::lemma_digits_of_value2(ss, s20[17] - 48, s20[18] - 48);
    assert(t.secs as int / 3600 == hh);
    assert(t.secs as int / 60 % 60 == mm);
    assert(t.secs as int % 60 == ss);
    assert(rfc3339_bytes(t) =~= s20);
}

/// How an encoded payload object decomposes, per event kind.
#[verifier::rlimit(100)]
proof fn lemma_event_structure(e: EventView)
    ensures
        encode_event(e).len() >= 15,
        encode_event(e).subrange(0, 9) == lit_type_open(),
        match e {
            EventView::Idle => encode_event(e).len() == 15,
            EventView::Active => encode_event(e).len() == 17,
            EventView::Focused { title, id, pid } => {
                &&& encode_event(e).len() == 44 + escape(encode_utf8(title)).len() + escape(
                    encode_utf8(id),
                ).len() + dec_digits(pid as int).len()
                &&& encode_event(e).len() >= 45
                &&& encode_event(e).subrange(9, 16) == tag_bytes(e)
                &&& encode_event(e).subrange(16, 27) == lit_title_open()
                &&& encode_event(e).skip(27) == escape(encode_utf8(title)) + seq![34u8] + (
                lit_id_open().skip(1) + escape(encode_utf8(id)) + lit_pid_open() + dec_digits(
                    pid as int,
                ) + seq![125u8])
            },
            _ => {
                &&& encode_event(e).len() == 11 + tag_bytes(e).len()
                &&& encode_event(e).subrange(9, encode_event(e).len() - 2) == tag_bytes(e)
                &&& encode_event(e)[encode_event(e).len() - 2] == 34
                &&& encode_event(e).last() == 125
            },
        },
{
    let ee = encode_event(e);
    match e {
        EventView::Focused { title, id, pid } => {
            lemma_dec_digits_props(pid as int);
            assert(ee.subrange(0, 9) =~= lit_type_open());
            assert(ee.subrange(9, 16) =~= tag_bytes(e));
            assert(ee.subrange(16, 27) =~= lit_title_open());
            assert(ee.skip(27) =~= escape(encode_utf8(title)) + seq![34u8] + (lit_id_open().skip(
                1,
            ) + escape(encode_utf8(id)) + lit_pid_open() + dec_digits(pid as int) + seq![
                125u8,
            ]));
        },
        _ => {
            assert(ee.subrange(0, 9) =~= lit_type_open());
            assert(ee.subrange(9, ee.len() - 2) =~= tag_bytes(e));
        },
    }
}

/// Decode one encoded payload object, the bytes between the record's
/// `event` key and its closing brace.
#[verifier::rlimit(100)]
fn decode_event_obj(region: &[u8]) -> (r: Option<Event>)
    ensures
        r matches Some(e) ==> region@ == encode_event(e@),
        forall|ev: EventView| region@ == encode_event(ev) ==> (r matches Some(e) && e@ == ev),
{
    let m = region.len();
    let tlit = vec_lit_type_open();
    if !starts_with_at(region, 0, tlit.as_slice()) {
        proof {
            assert forall|ev: EventView| region@ == encode_event(ev) implies false by {
                lemma_event_structure(ev);
            }
        }
        return None;
    }
    proof {
        assert(region@.subrange(0, 9) == lit_type_open());
    }
    if m == 15 {
        if region[9] == 105 && region[10] == 100 && region[11] == 108 && region[12] == 101
            && region[13] == 34 && region[14] == 125 {
            proof {
                assert(region@ =~= encode_event(EventView::Idle)) by {
                    lemma_event_structure(EventView::Idle);
                    assert forall|j: int| 0 <= j < 9 implies region@[j] == encode_event(
                        EventView::Idle,
                    )[j] by {
                        assert(region@.subrange(0, 9)[j] == region@[j]);
                        assert(encode_event(EventView::Idle).subrange(0, 9)[j] == encode_event(
                            EventView::Idle,
                        )[j]);
                    }
                    assert forall|j: int| 9 <= j < 13 implies encode_event(EventView::Idle)[j]
                        == tag_bytes(EventView::Idle)[j - 9] by {
                        assert(encode_event(EventView::Idle).subrange(9, 13)[j - 9]
                            == encode_event(EventView::Idle)[j]);
                    }
                }
            }
            return Some(Event::Idle);
        }
        proof {
            assert forall|ev: EventView| region@ == encode_event(ev) implies false by {
                lemma_event_structure(ev);
                match ev {
                    EventView::Idle => {
                        assert forall|j: int| 9 <= j < 13 implies region@[j] == tag_bytes(
                            EventView::Idle,
                        )[j - 9] by {
                            assert(region@.subrange(9, 13)[j - 9] == region@[j]);
                        }
                        assert(region@[13] == 34 && region@[14] == 125);
                        assert(false);
                    },
                    _ => {
                        assert(false);
                    },
                }
            }
        }
        return None;
    }
    if m == 16 {
        let is_alive = region[9] == 97 && region[10] == 108 && region[11] == 105 && region[12]
            == 118 && region[13] == 101;
        let is_sleep = region[9] == 115 && region[10] == 108 && region[11] == 101 && region[12]
            == 101 && region[13] == 112;
        let is_awake = region[9] == 97 && region[10] == 119 && region[11] == 97 && region[12]
            == 107 && region[13] == 101;
        let tail_ok = region[14] == 34 && region[15] == 125;
        if tail_ok && (is_alive || is_sleep || is_awake) {
            let e = if is_alive {
                Event::Alive
            } else if is_sleep {
                Event::Sleep
            } else {
                Event::Awake
            };
            proof {
                assert(region@ =~= encode_event(e@)) by {
                    lemma_event_structure(e@);
                    assert forall|j: int| 0 <= j < 9 implies region@[j] == encode_event(e@)[j] by {
                        assert(region@.subrange(0, 9)[j] == region@[j]);
                        assert(encode_event(e@).subrange(0, 9)[j] == encode_event(e@)[j]);
                    }
                    assert forall|j: int| 9 <= j < 14 implies encode_event(e@)[j] == tag_bytes(
                        e@,
                    )[j - 9] by {
                        assert(encode_event(e@).subrange(9, 14)[j - 9] == encode_event(e@)[j]);
                    }
                }
            }
            return Some(e);
        }
        proof {
            assert forall|ev: EventView| region@ == encode_event(ev) implies false by {
                lemma_event_structure(ev);
                match ev {
                    EventView::Alive | EventView::Sleep | EventView::Awake => {
                        assert forall|j: int| 9 <= j < 14 implies region@[j] == tag_bytes(ev)[j
                            - 9] by {
                            assert(region@.subrange(9, 14)[j - 9] == region@[j]);
                        }
                        assert(region@[14] == 34 && region@[15] == 125);
                        assert(false);
                    },
                    _ => {
                        assert(false);
                    },
                }
            }
        }
        return None;
    }
    if m == 17 {
        if region[9] == 97 && region[10] == 99 && region[11] == 116 && region[12] == 105
            && region[13] == 118 && region[14] == 101 && region[15] == 34 && region[16] == 125 {
            proof {
                assert(region@ =~= encode_event(EventView::Active)) by {
                    lemma_event_structure(EventView::Active);
                    assert forall|j: int| 0 <= j < 9 implies region@[j] == encode_event(
                        EventView::Active,
                    )[j] by {
                        assert(region@.subrange(0, 9)[j] == region@[j]);
                        assert(encode_event(EventView::Active).subrange(0, 9)[j] == encode_event(
                            EventView::Active,
                        )[j]);
                    }
                    assert forall|j: int| 9 <= j < 15 implies encode_event(EventView::Active)[j]
                        == tag_bytes(EventView::Active)[j - 9] by {
                        assert(encode_event(EventView::Active).subrange(9, 15)[j - 9]
                            == encode_event(EventView::Active)[j]);
                    }
                }
            }
            return Some(Event::Active);
        }
        proof {
            assert forall|ev: EventView| region@ == encode_event(ev) implies false by {
                lemma_event_structure(ev);
                match ev {
                    EventView::Active => {
                        assert forall|j: int| 9 <= j < 15 implies region@[j] == tag_bytes(ev)[j
                            - 9] by {
                            assert(region@.subrange(9, 15)[j - 9] == region@[j]);
                        }
                        assert(region@[15] == 34 && region@[16] == 125);
                        assert(false);
                    },
                    _ => {
                        assert(false);
                    },
                }
            }
        }
        return None;
    }
    // Only the focus payload is longer.
    if m < 45 {
        proof {
            assert forall|ev: EventView| region@ == encode_event(ev) implies false by {
                lemma_event_structure(ev);
            }
        }
        return None;
    }
    if !(region[9] == 102 && region[10] == 111 && region[11] == 99 && region[12] == 117
        && region[13] == 115 && region[14] == 101 && region[15] == 100) {
        proof {
            assert forall|ev: EventView| region@ == encode_event(ev) implies false by {
                lemma_event_structure(ev);
                match ev {
                    EventView::Focused { title, id, pid } => {
                        assert forall|j: int| 9 <= j < 16 implies region@[j] == tag_bytes(ev)[j
                            - 9] by {
                            assert(region@.subrange(9, 16)[j - 9] == region@[j]);
                        }
                        assert(false);
                    },
                    _ => {
                        assert(false);
                    },
                }
            }
        }
        return None;
    }
    proof {
        assert(region@.subrange(9, 16) =~= seq![102u8, 111u8, 99u8, 117u8, 115u8, 101u8, 100u8]);
    }
    decode_focused(region)
}

/// Decode the focus payload, from its title key onward.
#[verifier::rlimit(100)]
fn decode_focused(region: &[u8]) -> (r: Option<Event>)
    requires
        region@.len() >= 45,
        region@.subrange(0, 9) == lit_type_open(),
        region@.subrange(9, 16) == seq![102u8, 111u8, 99u8, 117u8, 115u8, 101u8, 100u8],
    ensures
        r matches Some(e) ==> region@ == encode_event(e@),
        forall|ev: EventView| region@ == encode_event(ev) ==> (r matches Some(e) && e@ == ev),
{
    let m = region.len();
    let titlelit = vec_lit_title_open();
    if !starts_with_at(region, 16, titlelit.as_slice()) {
        proof {
            assert forall|ev: EventView| region@ == encode_event(ev) implies false by {
                lemma_event_structure(ev);
            }
        }
        return None;
    }
    let title_scan = scan_string(region, 27);
    let (title_raw, end1) = match title_scan {
        Some(p) => p,
        None => {
            proof {
                assert forall|ev: EventView| region@ == encode_event(ev) implies false by {
                    lemma_event_structure(ev);
                    match ev {
                        EventView::Focused { title, id, pid } => {
                            assert(region@.skip(27) == escape(encode_utf8(title)) + seq![34u8]
                                + (lit_id_open().skip(1) + escape(encode_utf8(id))
                                + lit_pid_open() + dec_digits(pid as int) + seq![125u8]));
                        },
                        _ => {
                        },
                    }
                    assert(false);
                }
            }
            return None;
        },
    };
    proof {
        assert(region@[end1 as int] == 34u8);
    }
    decode_focused_after_title(region, title_raw, end1)
}

/// Continue decoding the focus payload once the title has been scanned.
#[verifier::rlimit(100)]
fn decode_focused_after_title(region: &[u8], title_raw: Vec<u8>, end1: usize) -> (r: Option<
    Event,
>)
    requires
        region@.len() >= 45,
        region@.subrange(0, 9) == lit_type_open(),
        region@.subrange(9, 16) == seq![102u8, 111u8, 99u8, 117u8, 115u8, 101u8, 100u8],
        region@.subrange(16, 27) == lit_title_open(),
        27 <= end1 < region@.len(),
        region@[end1 as int] == 34u8,
        region@.subrange(27, end1 as int) == escape(title_raw@),
        end1 == 27 + escape(title_raw@).len(),
        forall|t: Seq<u8>, rest: Seq<u8>|
            #![trigger escape(t) + seq![34u8] + rest]
            region@.skip(27) == escape(t) + seq![34u8] + rest ==> (title_raw@ == t && end1 == 27
                + escape(t).len()),
    ensures
        r matches Some(e) ==> region@ == encode_event(e@),
        forall|ev: EventView| region@ == encode_event(ev) ==> (r matches Some(e) && e@ == ev),
{
    let m = region.len();
    let idlit = vec_lit_id_open();
    if !starts_with_at(region, end1, idlit.as_slice()) {
        proof {
            assert forall|ev: EventView| region@ == encode_event(ev) implies false by {
                lemma_event_structure(ev);
                match ev {
                    EventView::Focused { title, id, pid } => {
                        let rest1 = lit_id_open().skip(1) + escape(encode_utf8(id))
                            + lit_pid_open() + dec_digits(pid as int) + seq![125u8];
                        assert(region@.skip(27) == escape(encode_utf8(title)) + seq![34u8]
                            + rest1);
                        assert(title_raw@ == encode_utf8(title));
                        assert(end1 == 27 + escape(encode_utf8(title)).len());
                        assert(region@.subrange(end1 as int, end1 + 8) =~= lit_id_open()) by {
                            assert forall|j: int| 0 <= j < 8 implies region@[end1 + j]
                                == lit_id_open()[j] by {
                                assert(region@[end1 + j] == region@.skip(27)[end1 - 27 + j]);
                                if j > 0 {
                                    assert(region@.skip(27)[end1 - 27 + j] == rest1[j - 1]);
                                    assert(rest1[j - 1] == lit_id_open().skip(1)[j - 1]);
                                }
                            }
                        }
                        assert(false);
                    },
                    _ => {
                        assert(false);
                    },
                }
            }
        }
        return None;
    }
    let id_scan = scan_string(region, end1 + 8);
    let (id_raw, end2) = match id_scan {
        Some(p) => p,
        None => {
            proof {
                assert forall|ev: EventView| region@ == encode_event(ev) implies false by {
                    lemma_event_structure(ev);
                    match ev {
                        EventView::Focused { title, id, pid } => {
                            lemma_focused_id_decomp(region@, ev);
                        },
                        _ => {
                            assert(false);
                        },
                    }
                    assert(false);
                }
            }
            return None;
        },
    };
    let pidlit = vec_lit_pid_open();
    if !starts_with_at(region, end2, pidlit.as_slice()) {
        proof {
            assert forall|ev: EventView| region@ == encode_event(ev) implies false by {
                lemma_event_structure(ev);
                match ev {
                    EventView::Focused { title, id, pid } => {
                        lemma_focused_id_decomp(region@, ev);
                        let rest2 = lit_pid_open().skip(1) + dec_digits(pid as int) + seq![
                            125u8,
                        ];
                        assert(id_raw@ == encode_utf8(id));
                        assert(end2 == end1 + 8 + escape(encode_utf8(id)).len());
                        assert(region@.subrange(end2 as int, end2 + 8) =~= lit_pid_open()) by {
                            assert forall|j: int| 0 <= j < 8 implies region@[end2 + j]
                                == lit_pid_open()[j] by {
                                assert(region@[end2 + j] == region@.skip((end1 + 8) as int)[end2
                                    - end1 - 8 + j]);
                                if j > 0 {
                                    assert(region@.skip((end1 + 8) as int)[end2 - end1 - 8 + j]
                                        == rest2[j - 1]);
                                    assert(rest2[j - 1] == lit_pid_open().skip(1)[j - 1]);
                                }
                            }
                        }
                        assert(false);
                    },
                    _ => {
                        assert(false);
                    },
                }
            }
        }
        return None;
    }
    proof {
        assert(region@[end2 as int] == 34u8) by {
            assert(region@.subrange(end2 as int, end2 + 8)[0] == region@[end2 as int]);
        }
    }
    decode_focused_after_id(region, title_raw, id_raw, end1, end2)
}

/// Finish decoding the focus payload once both strings have been scanned.
#[verifier::rlimit(100)]
fn decode_focused_after_id(
    region: &[u8],
    title_raw: Vec<u8>,
    id_raw: Vec<u8>,
    end1: usize,
    end2: usize,
) -> (r: Option<Event>)
    requires
        region@.len() >= 45,
        region@.subrange(0, 9) == lit_type_open(),
        region@.subrange(9, 16) == seq![102u8, 111u8, 99u8, 117u8, 115u8, 101u8, 100u8],
        region@.subrange(16, 27) == lit_title_open(),
        27 <= end1,
        end1 + 8 <= end2,
        end2 + 8 <= region@.len(),
        region@.subrange(27, end1 as int) == escape(title_raw@),
        end1 == 27 + escape(title_raw@).len(),
        region@.subrange(end1 as int, end1 + 8) == lit_id_open(),
        region@.subrange(end1 + 8, end2 as int) == escape(id_raw@),
        end2 == end1 + 8 + escape(id_raw@).len(),
        region@.subrange(end2 as int, end2 + 8) == lit_pid_open(),
    ensures
        r matches Some(e) ==> region@ == encode_event(e@),
        forall|ev: EventView| region@ == encode_event(ev) ==> (r matches Some(e) && e@ == ev),
{
    let m = region.len();
    let ghost traw = title_raw@;
    let ghost iraw = id_raw@;
    let num_scan = scan_number(region, end2 + 8);
    let (pid, ne) = match num_scan {
        Some(p) => p,
        None => {
            proof {
                assert forall|ev: EventView| region@ == encode_event(ev) implies false by {
                    lemma_event_structure(ev);
                    lemma_focused_strings_align(region@, traw, iraw, ev, end1 as int, end2 as int);
                    assert(false);
                }
            }
            return None;
        },
    };
    if !(ne == m - 1 && region[ne] == 125) {
        proof {
            assert forall|ev: EventView| region@ == encode_event(ev) implies false by {
                lemma_event_structure(ev);
                lemma_focused_strings_align(region@, traw, iraw, ev, end1 as int, end2 as int);
                match ev {
                    EventView::Focused { title, id, pid: pv } => {
                        assert(pid == pv && ne == end2 + 8 + dec_digits(pv as int).len());
                        assert(region@[ne as int] == region@.skip((end2 + 8) as int)[ne - end2
                            - 8]);
                        assert(false);
                    },
                    _ => {
                        assert(false);
                    },
                }
            }
        }
        return None;
    }
    proof {
        assert(region@[ne as int] == 125u8);
    }
    build_focused(region, title_raw, id_raw, pid, end1, end2, ne)
}

/// Assemble the focus payload once every region of the encoding has been
/// located, and certify that no other payload encodes to these bytes.
#[verifier::rlimit(100)]
fn build_focused(
    region: &[u8],
    title_raw: Vec<u8>,
    id_raw: Vec<u8>,
    pid: u32,
    end1: usize,
    end2: usize,
    ne: usize,
) -> (r: Option<Event>)
    requires
        region@.len() >= 45,
        ne == region@.len() - 1,
        region@[ne as int] == 125u8,
        region@.subrange(0, 9) == lit_type_open(),
        region@.subrange(9, 16) == seq![102u8, 111u8, 99u8, 117u8, 115u8, 101u8, 100u8],
        region@.subrange(16, 27) == lit_title_open(),
        27 <= end1,
        end1 + 8 <= end2,
        end2 + 8 <= ne,
        region@.subrange(27, end1 as int) == escape(title_raw@),
        end1 == 27 + escape(title_raw@).len(),
        region@.subrange(end1 as int, end1 + 8) == lit_id_open(),
        region@.subrange(end1 + 8, end2 as int) == escape(id_raw@),
        end2 == end1 + 8 + escape(id_raw@).len(),
        region@.subrange(end2 as int, end2 + 8) == lit_pid_open(),
        region@.subrange(end2 + 8, ne as int) == dec_digits(pid as int),
    ensures
        r matches Some(e) ==> region@ == encode_event(e@),
        forall|ev: EventView| region@ == encode_event(ev) ==> (r matches Some(e) && e@ == ev),
{
    let ghost traw = title_raw@;
    let title_str = match String::from_utf8(title_raw) {
        Ok(t) => t,
        Err(_) => {
            proof {
                assert forall|ev: EventView| region@ == encode_event(ev) implies false by {
                    lemma_focused_region_align(region@, traw, id_raw@, pid, ev, end1 as int, end2 as int, ne as int);
                    match ev {
                        EventView::Focused { title, id, pid: pv } => {
                            vstd::utf8::encode_utf8_valid_utf8(title);
                        },
                        _ => {
                        },
                    }
                    assert(false);
                }
            }
            return None;
        },
    };
    let ghost iraw = id_raw@;
    let id_str = match String::from_utf8(id_raw) {
        Ok(t) => t,
        Err(_) => {
            proof {
                assert forall|ev: EventView| region@ == encode_event(ev) implies false by {
                    lemma_focused_region_align(region@, traw, iraw, pid, ev, end1 as int, end2 as int, ne as int);
                    match ev {
                        EventView::Focused { title, id, pid: pv } => {
                            vstd::utf8::encode_utf8_valid_utf8(id);
                        },
                        _ => {
                        },
                    }
                    assert(false);
                }
            }
            return None;
        },
    };
    let e = Event::Focused(Focused { title: title_str, id: id_str, pid });
    proof {
        let et = encode_utf8(title_str@);
        let ei = encode_utf8(id_str@);
        vstd::utf8::decode_utf8_encode_utf8(traw);
        vstd::utf8::decode_utf8_encode_utf8(iraw);
        assert(et == traw);
        assert(ei == iraw);
        lemma_event_structure(e@);
        assert(region@ =~= encode_event(e@)) by {
            assert(encode_event(e@) =~= lit_type_open() + tag_bytes(e@) + lit_title_open()
                + escape(et) + lit_id_open() + escape(ei) + lit_pid_open() + dec_digits(
                pid as int,
            ) + seq![125u8]);
        }
        assert forall|ev: EventView| region@ == encode_event(ev) implies e@ == ev by {
            lemma_focused_region_align(region@, traw, iraw, pid, ev, end1 as int, end2 as int, ne as int);
            match ev {
                EventView::Focused { title, id, pid: pv } => {
                    vstd::utf8::encode_utf8_decode_utf8(title);
                    vstd::utf8::encode_utf8_decode_utf8(id);
                },
                _ => {
                    assert(false);
                },
            }
        }
    }
    Some(e)
}

/// A sequence tail splits at any interior point.
proof fn lemma_skip_decomp(b: Seq<u8>, a: int, e: int)
    requires
        0 <= a <= e <= b.len(),
    ensures
        b.skip(a) == b.subrange(a, e) + b.skip(e),
{
    assert(b.skip(a) =~= b.subrange(a, e) + b.skip(e));
}

/// Two digit strings followed by non-digit input align only as the same
/// value and the same leftover.
proof fn lemma_dec_digits_align(m1: int, m2: int, r1: Seq<u8>, r2: Seq<u8>)
    requires
        m1 >= 0,
        m2 >= 0,
        dec_digits(m1) + r1 == dec_digits(m2) + r2,
        r1.len() == 0 || !(48 <= r1[0] <= 57),
        r2.len() == 0 || !(48 <= r2[0] <= 57),
    ensures
        m1 == m2,
        r1 == r2,
{
    lemma_dec_digits_props(m1);
    lemma_dec_digits_props(m2);
    let d1 = dec_digits(m1);
    let d2 = dec_digits(m2);
    assert(d1.len() == d2.len()) by {
        if d1.len() < d2.len() {
            assert(r1[0] == (dec_digits(m1) + r1)[d1.len() as int]);
            assert((dec_digits(m2) + r2)[d1.len() as int] == d2[d1.len() as int]);
            assert(false);
        }
        if d1.len() > d2.len() {
            assert(r2[0] == (dec_digits(m2) + r2)[d2.len() as int]);
            assert((dec_digits(m1) + r1)[d2.len() as int] == d1[d2.len() as int]);
            assert(false);
        }
    }
    assert(d1 =~= d2) by {
        assert forall|j: int| 0 <= j < d1.len() implies d1[j] == d2[j] by {
            assert((dec_digits(m1) + r1)[j] == d1[j]);
            assert((dec_digits(m2) + r2)[j] == d2[j]);
        }
    }
    assert(dec_value(d1) == dec_value(d2));
    assert((d1 + r1).len() == (d2 + r2).len());
    assert(r1.len() == r2.len());
    assert(r1 =~= r2) by {
        assert forall|j: int| 0 <= j < r1.len() implies r1[j] == r2[j] by {
            assert((dec_digits(m1) + r1)[d1.len() + j] == r1[j]);
            assert((dec_digits(m2) + r2)[d2.len() + j] == r2[j]);
        }
    }
}

/// A focus payload whose title and id regions are known aligns every
/// payload that encodes to the same bytes: the strings must be the ones
/// found there, and the digits follow at the known offset.
#[verifier::rlimit(100)]
proof fn lemma_focused_strings_align(
    b: Seq<u8>,
    traw: Seq<u8>,
    iraw: Seq<u8>,
    ev: EventView,
    end1: int,
    end2: int,
)
    requires
        b == encode_event(ev),
        b.len() >= 45,
        27 <= end1,
        end1 + 8 <= end2,
        end2 + 8 <= b.len(),
        b.subrange(27, end1) == escape(traw),
        end1 == 27 + escape(traw).len(),
        b.subrange(end1, end1 + 8) == lit_id_open(),
        b.subrange(end1 + 8, end2) == escape(iraw),
        end2 == end1 + 8 + escape(iraw).len(),
        b.subrange(end2, end2 + 8) == lit_pid_open(),
    ensures
        ev is Focused,
        match ev {
            EventView::Focused { title, id, pid: pv } => {
                &&& traw == encode_utf8(title)
                &&& iraw == encode_utf8(id)
                &&& b.skip(end2 + 8) == dec_digits(pv as int) + seq![125u8]
                &&& b.len() == end2 + 8 + dec_digits(pv as int).len() + 1
            },
            _ => false,
        },
{
    lemma_event_structure(ev);
    match ev {
        EventView::Focused { title, id, pid: pv } => {
            let encT = encode_utf8(title);
            let encI = encode_utf8(id);
            let rest1 = lit_id_open().skip(1) + escape(encI) + lit_pid_open() + dec_digits(
                pv as int,
            ) + seq![125u8];
            lemma_skip_decomp(b, 27, end1);
            lemma_escape_align(traw, b.skip(end1), encT, rest1);
            assert(b.skip(end1)[0] == b[end1]);
            assert(b[end1] == lit_id_open()[0]) by {
                assert(b.subrange(end1, end1 + 8)[0] == b[end1]);
            }
            if encT.len() > traw.len() {
                lemma_escape_first(encT.skip(traw.len() as int));
                assert(b.skip(end1)[0] == escape(encT.skip(traw.len() as int))[0]);
                assert(false);
            }
            assert(encT.take(encT.len() as int) =~= encT);
            assert(traw == encT);
            let rest2 = lit_pid_open().skip(1) + dec_digits(pv as int) + seq![125u8];
            lemma_focused_id_decomp(b, ev);
            lemma_skip_decomp(b, end1 + 8, end2);
            lemma_escape_align(iraw, b.skip(end2), encI, rest2);
            assert(b.skip(end2)[0] == b[end2]);
            assert(b[end2] == lit_pid_open()[0]) by {
                assert(b.subrange(end2, end2 + 8)[0] == b[end2]);
            }
            if encI.len() > iraw.len() {
                lemma_escape_first(encI.skip(iraw.len() as int));
                assert(b.skip(end2)[0] == escape(encI.skip(iraw.len() as int))[0]);
                assert(false);
            }
            assert(encI.take(encI.len() as int) =~= encI);
            assert(iraw == encI);
            lemma_focused_pid_decomp(b, ev);
        },
        _ => {
            assert(false);
        },
    }
}

/// A focus payload whose encoded pieces occupy known regions pins down
/// every payload that encodes to the same bytes: the title, id and process
/// id must be the ones found there.
proof fn lemma_focused_region_align(
    b: Seq<u8>,
    traw: Seq<u8>,
    iraw: Seq<u8>,
    pid: u32,
    ev: EventView,
    end1: int,
    end2: int,
    ne: int,
)
    requires
        b == encode_event(ev),
        b.len() >= 45,
        ne == b.len() - 1,
        b[ne] == 125u8,
        b.subrange(27, end1) == escape(traw),
        end1 == 27 + escape(traw).len(),
        27 <= end1,
        end1 + 8 <= end2,
        end2 + 8 <= ne,
        b.subrange(end1, end1 + 8) == lit_id_open(),
        b.subrange(end1 + 8, end2) == escape(iraw),
        end2 == end1 + 8 + escape(iraw).len(),
        b.subrange(end2, end2 + 8) == lit_pid_open(),
        b.subrange(end2 + 8, ne) == dec_digits(pid as int),
    ensures
        ev is Focused,
        match ev {
            EventView::Focused { title, id, pid: pv } => traw == encode_utf8(title) && iraw
                == encode_utf8(id) && pid == pv,
            _ => false,
        },
{
    lemma_focused_strings_align(b, traw, iraw, ev, end1, end2);
    match ev {
        EventView::Focused { title, id, pid: pv } => {
            lemma_skip_decomp(b, end2 + 8, ne);
            assert(b.skip(ne) =~= seq![125u8]);
            lemma_dec_digits_align(pid as int, pv as int, seq![125u8], seq![125u8]);
        },
        _ => {
        },
    }
}

/// The process id of a focus payload view.
pub open spec fn pid_of(e: EventView) -> int {
    match e {
        EventView::Focused { pid, .. } => pid as int,
        _ => 0,
    }
}

/// Where the id string begins inside an encoded focus payload.
#[verifier::rlimit(100)]
proof fn lemma_focused_id_decomp(b: Seq<u8>, ev: EventView)
    requires
        ev is Focused,
        b == encode_event(ev),
    ensures
        match ev {
            EventView::Focused { title, id, pid } => b.skip(
                27 + escape(encode_utf8(title)).len() as int + 8,
            ) == escape(encode_utf8(id)) + seq![34u8] + (lit_pid_open().skip(1) + dec_digits(
                pid as int,
            ) + seq![125u8]),
            _ => true,
        },
{
    lemma_event_structure(ev);
    match ev {
        EventView::Focused { title, id, pid } => {
            let t = escape(encode_utf8(title));
            let i = escape(encode_utf8(id));
            let d = dec_digits(pid as int);
            let rest1 = lit_id_open().skip(1) + i + lit_pid_open() + d + seq![125u8];
            assert(b.skip(27) == t + seq![34u8] + rest1);
            let tail = i + seq![34u8] + (lit_pid_open().skip(1) + d + seq![125u8]);
            assert(rest1 =~= lit_id_open().skip(1) + tail) by {
                assert(lit_pid_open() =~= seq![34u8] + lit_pid_open().skip(1));
            }
            assert(b.skip(27 + t.len() as int + 8) =~= tail) by {
                assert forall|j: int| 0 <= j < b.len() - 27 - t.len() - 8 implies b.skip(
                    27 + t.len() as int + 8,
                )[j] == tail[j] by {
                    assert(b.skip(27 + t.len() as int + 8)[j] == b[27 + t.len() + 8 + j]);
                    assert(b.skip(27)[t.len() + 8 + j] == b[27 + t.len() + 8 + j]);
                    assert((t + seq![34u8] + rest1)[t.len() + 8 + j] == rest1[7 + j]);
                    assert((lit_id_open().skip(1) + tail)[7 + j] == tail[j]);
                }
            }
        },
        _ => {
        },
    }
}

/// Where the process id digits begin inside an encoded focus payload.
#[verifier::rlimit(100)]
proof fn lemma_focused_pid_decomp(b: Seq<u8>, ev: EventView)
    requires
        ev is Focused,
        b == encode_event(ev),
    ensures
        match ev {
            EventView::Focused { title, id, pid } => {
                &&& b.skip(
                    27 + escape(encode_utf8(title)).len() as int + 8 + escape(encode_utf8(id)).len() as int + 8,
                ) == dec_digits(pid as int) + seq![125u8]
                &&& b.len() == 27 + escape(encode_utf8(title)).len() + 8 + escape(
                    encode_utf8(id),
                ).len() + 8 + dec_digits(pid as int).len() + 1
            },
            _ => true,
        },
{
    lemma_event_structure(ev);
    lemma_focused_id_decomp(b, ev);
    match ev {
        EventView::Focused { title, id, pid } => {
            let t = escape(encode_utf8(title));
            let i = escape(encode_utf8(id));
            let d = dec_digits(pid as int);
            let p1: int = 27 + t.len() as int + 8;
            let rest2 = lit_pid_open().skip(1) + d + seq![125u8];
            assert(b.skip(p1) == i + seq![34u8] + rest2);
            let tail = d + seq![125u8];
            assert(rest2 =~= lit_pid_open().skip(1) + tail);
            assert(b.skip(p1 + i.len() + 8) =~= tail) by {
                assert forall|j: int| 0 <= j < b.len() - p1 - i.len() - 8 implies b.skip(
                    p1 + i.len() + 8,
                )[j] == tail[j] by {
                    assert(b.skip(p1 + i.len() + 8)[j] == b[p1 + i.len() + 8 + j]);
                    assert(b.skip(p1)[i.len() + 8 + j] == b[p1 + i.len() + 8 + j]);
                    assert((i + seq![34u8] + rest2)[i.len() + 8 + j] == rest2[7 + j]);
                    assert((lit_pid_open().skip(1) + tail)[7 + j] == tail[j]);
                }
            }
        },
        _ => {
        },
    }
}

impl TimedEvent {
    /// Decode one record line. Exactly the lines this codec writes decode,
    /// and they decode to exactly the record that was written.
    #[verifier::rlimit(100)]
    pub fn decode(bytes: &[u8]) -> (r: Option<TimedEvent>)
        ensures
            r matches Some(ev) ==> ev_valid(ev@) && bytes@ == encode_record(ev@),
            forall|v: TimedEventView|
                ev_valid(v) && bytes@ == encode_record(v) ==> (r matches Some(ev) && ev@ == v),
    {
        let n = bytes.len();
        let tslit = vec_lit_ts_open();
        if n < 60 || !starts_with_at(bytes, 0, tslit.as_slice()) {
            proof {
                assert forall|v: TimedEventView| ev_valid(v) && bytes@ == encode_record(v)
                    implies false by {
                    lemma_record_structure(v);
                }
            }
            return None;
        }
        let y = match digit4_at(bytes, 14) {
            Some(v) => v,
            None => {
                proof {
                    assert forall|v: TimedEventView| ev_valid(v) && bytes@ == encode_record(v)
                        implies false by {
                        lemma_record_structure(v);
                        crate::filepath::lemma_value_to_digits4(v.timestamp.date.year as int);
                    }
                }
                return None;
            },
        };
        let mo = match digit2_at(bytes, 19) {
            Some(v) => v,
            None => {
                proof {
                    assert forall|v: TimedEventView| ev_valid(v) && bytes@ == encode_record(v)
                        implies false by {
                        lemma_record_structure(v);
                        crate::filepath::lemma_value_to_digits2(v.timestamp.date.month as int);
                    }
                }
                return None;
            },
        };
        let dd = match digit2_at(bytes, 22) {
            Some(v) => v,
            None => {
                proof {
                    assert forall|v: TimedEventView| ev_valid(v) && bytes@ == encode_record(v)
                        implies false by {
                        lemma_record_structure(v);
                        crate::filepath::lemma_value_to_digits2(v.timestamp.date.day as int);
                    }
                }
                return None;
            },
        };
        let hh = match digit2_at(bytes, 25) {
            Some(v) => v,
            None => {
                proof {
                    assert forall|v: TimedEventView| ev_valid(v) && bytes@ == encode_record(v)
                        implies false by {
                        lemma_record_structure(v);
                        lemma_secs_split(v.timestamp.secs as int);
                        crate::filepath::lemma_value_to_digits2(v.timestamp.secs as int / 3600);
                    }
                }
                return None;
            },
        };
        let mi = match digit2_at(bytes, 28) {
            Some(v) => v,
            None => {
                proof {
                    assert forall|v: TimedEventView| ev_valid(v) && bytes@ == encode_record(v)
                        implies false by {
                        lemma_record_structure(v);
                        lemma_secs_split(v.timestamp.secs as int);
                        crate::filepath::lemma_value_to_digits2(v.timestamp.secs as int / 60 % 60);
                    }
                }
                return None;
            },
        };
        let ss = match digit2_at(bytes, 31) {
            Some(v) => v,
            None => {
                proof {
                    assert forall|v: TimedEventView| ev_valid(v) && bytes@ == encode_record(v)
                        implies false by {
                        lemma_record_structure(v);
                        lemma_secs_split(v.timestamp.secs as int);
                        crate::filepath::lemma_value_to_digits2(v.timestamp.secs as int % 60);
                    }
                }
                return None;
            },
        };
        if bytes[18] != 45 || bytes[21] != 45 || bytes[24] != 84 || bytes[27] != 58 || bytes[30]
            != 58 || bytes[33] != 90 {
            proof {
                assert forall|v: TimedEventView| ev_valid(v) && bytes@ == encode_record(v)
                    implies false by {
                    lemma_record_structure(v);
                }
            }
            return None;
        }
        let date = crate::date::Date { year: y, month: mo, day: dd };
        if !date.valid() || hh >= 24 || mi >= 60 || ss >= 60 {
            proof {
                assert forall|v: TimedEventView| ev_valid(v) && bytes@ == encode_record(v)
                    implies false by {
                    lemma_record_structure(v);
                    crate::filepath::lemma_value_to_digits4(v.timestamp.date.year as int);
                    crate::filepath::lemma_value_to_digits2(v.timestamp.date.month as int);
                    crate::filepath::lemma_value_to_digits2(v.timestamp.date.day as int);
                    lemma_secs_split(v.timestamp.secs as int);
                    crate::filepath::lemma_value_to_digits2(v.timestamp.secs as int / 3600);
                    crate::filepath::lemma_value_to_digits2(v.timestamp.secs as int / 60 % 60);
                    crate::filepath::lemma_value_to_digits2(v.timestamp.secs as int % 60);
                }
            }
            return None;
        }
        let secs = hh * 3600 + mi * 60 + ss;
        let ts = Timestamp { date, secs };
        let evlit = vec_lit_event_open();
        if !starts_with_at(bytes, 34, evlit.as_slice()) || bytes[n - 1] != 125 {
            proof {
                assert forall|v: TimedEventView| ev_valid(v) && bytes@ == encode_record(v)
                    implies false by {
                    lemma_record_structure(v);
                }
            }
            return None;
        }
        let region = &bytes[44..n - 1];
        proof {
            assert(region@ == bytes@.subrange(44, n - 1));
        }
        let ev = match decode_event_obj(region) {
            Some(e) => e,
            None => {
                proof {
                    assert forall|v: TimedEventView| ev_valid(v) && bytes@ == encode_record(v)
                        implies false by {
                        lemma_record_structure(v);
                        assert(region@ == encode_event(v.event));
                    }
                }
                return None;
            },
        };
        let te = TimedEvent { timestamp: ts, event: ev };
        proof {
            lemma_secs_of_parts(hh as int, mi as int, ss as int);
            assert(ts_valid(ts));
            assert(bytes@.subrange(14, 34) =~= rfc3339_bytes(ts)) by {
                lemma_rfc_of_digits(ts, bytes@.subrange(14, 34));
            }
            assert(bytes@ =~= encode_record(te@)) by {
                assert(encode_record(te@) == lit_ts_open() + rfc3339_bytes(ts) + lit_event_open()
                    + encode_event(te@.event) + seq![125u8]);
                assert(bytes@.subrange(0, 14) == lit_ts_open());
                assert(bytes@.subrange(34, 44) == lit_event_open());
                assert(bytes@.subrange(44, n - 1) == encode_event(te@.event));
            }
            assert forall|v: TimedEventView| ev_valid(v) && bytes@ == encode_record(v)
                implies te@ == v by {
                lemma_record_structure(v);
                assert(region@ == encode_event(v.event));
                crate::filepath::lemma_value_to_digits4(v.timestamp.date.year as int);
                crate::filepath::lemma_value_to_digits2(v.timestamp.date.month as int);
                crate::filepath::lemma_value_to_digits2(v.timestamp.date.day as int);
                lemma_secs_split(v.timestamp.secs as int);
                crate::filepath::lemma_value_to_digits2(v.timestamp.secs as int / 3600);
                crate::filepath::lemma_value_to_digits2(v.timestamp.secs as int / 60 % 60);
                crate::filepath::lemma_value_to_digits2(v.timestamp.secs as int % 60);
                assert(y == v.timestamp.date.year);
                assert(mo == v.timestamp.date.month);
                assert(dd == v.timestamp.date.day);
                assert(secs == v.timestamp.secs);
            }
        }
        Some(te)
    }
}

} // verus!
