//! Partition key / filename codec.
//!
//! A partition file is named by its date: an 8-digit zero-padded stem and a
//! fixed extension, with an arbitrary path prefix kept verbatim. Paths are
//! handled as raw bytes, as the platform hands them over; only the stem of
//! the final segment must be valid text.

use vstd::prelude::*;
use vstd::utf8::valid_utf8;

use crate::date::{date_valid, Date};
use crate::util::{lemma_rfind_byte, lemma_rfind_byte_unique, memrchr, rfind_byte};

verus! {

/// Path separator byte `/`.
pub const SLASH: u8 = 47;

/// Extension separator byte `.`.
pub const DOT: u8 = 46;

/// Why a path is not a partition filename.
#[derive(Debug, Clone, Copy, PartialEq, Eq, Structural)]
pub enum TryIntoFilenameError {
    Utf8Error,
    BadFileName,
    ExtensionMissing,
    IncorrectExtension,
}

/// A partition file: a path prefix plus the date that keys it.
#[derive(Debug, Clone, PartialEq)]
pub struct Filepath {
    pub path: Vec<u8>,
    pub date: Date,
}

/// The bytes of the fixed log extension, without the dot.
pub open spec fn ext_bytes() -> Seq<u8> {
    seq![108u8, 111u8, 103u8]
}

/// The digit byte for `x` in 0..10.
pub open spec fn digit(x: int) -> u8 {
    (48 + x) as u8
}

/// The 8-digit zero-padded stem of a date.
pub open spec fn date_digits(d: Date) -> Seq<u8> {
    seq![
        digit(d.year as int / 1000 % 10),
        digit(d.year as int / 100 % 10),
        digit(d.year as int / 10 % 10),
        digit(d.year as int % 10),
        digit(d.month as int / 10 % 10),
        digit(d.month as int % 10),
        digit(d.day as int / 10 % 10),
        digit(d.day as int % 10),
    ]
}

/// The full encoded path: the prefix verbatim, a separator unless the
/// prefix is empty or already ends in one, the 8-digit stem, and the
/// extension.
pub open spec fn encode_path(prefix: Seq<u8>, d: Date) -> Seq<u8> {
    let sep: Seq<u8> = if prefix.len() == 0 || prefix.last() == SLASH {
        Seq::empty()
    } else {
        seq![SLASH]
    };
    prefix + sep + date_digits(d) + seq![DOT] + ext_bytes()
}

/// Where the final path segment begins: just past the last separator.
pub open spec fn comp_start(p: Seq<u8>) -> int {
    match rfind_byte(p, SLASH) {
        None => 0,
        Some(i) => i + 1,
    }
}

/// The date whose stem an 8-digit byte sequence is, if it is one and forms
/// a real calendar date.
pub open spec fn parse_date8(stem: Seq<u8>) -> Option<Date> {
    if stem.len() == 8 && (forall|j: int| 0 <= j < 8 ==> 48 <= #[trigger] stem[j] <= 57) {
        let y = (stem[0] - 48) * 1000 + (stem[1] - 48) * 100 + (stem[2] - 48) * 10 + (stem[3]
            - 48);
        let m = (stem[4] - 48) * 10 + (stem[5] - 48);
        let dd = (stem[6] - 48) * 10 + (stem[7] - 48);
        let d = Date { year: y as u32, month: m as u32, day: dd as u32 };
        if date_valid(d) {
            Some(d)
        } else {
            None
        }
    } else {
        None
    }
}

/// How a path decodes: the prefix and date of a well-formed partition
/// filename, or the first failing check. The extension is inspected before
/// the stem, and the stem's encoding before its digits, so each malformed
/// input maps to its specific error.
pub open spec fn parse_path(p: Seq<u8>) -> Result<(Seq<u8>, Date), TryIntoFilenameError> {
    let comp = p.skip(comp_start(p));
    match rfind_byte(comp, DOT) {
        None => Err(TryIntoFilenameError::ExtensionMissing),
        Some(q) => {
            if q == 0 {
                Err(TryIntoFilenameError::ExtensionMissing)
            } else if comp.skip(q + 1) != ext_bytes() {
                Err(TryIntoFilenameError::IncorrectExtension)
            } else if !valid_utf8(comp.take(q)) {
                Err(TryIntoFilenameError::Utf8Error)
            } else {
                match parse_date8(comp.take(q)) {
                    Some(d) => Ok((p.take(comp_start(p)), d)),
                    None => Err(TryIntoFilenameError::BadFileName),
                }
            }
        },
    }
}

impl TryIntoFilenameError {
    /// A short description of the failed check, as its display text.
    pub fn message(&self) -> (r: &'static str)
        ensures
            match self {
                TryIntoFilenameError::BadFileName => r@ == "Path is not in date format"@,
                TryIntoFilenameError::Utf8Error => r@ == "Filename is not correct utf8"@,
                TryIntoFilenameError::ExtensionMissing => r@ == "Extension log not found"@,
                TryIntoFilenameError::IncorrectExtension => r@ == "Incorrect extension"@,
            },
    {
        match self {
            TryIntoFilenameError::BadFileName => "Path is not in date format",
            TryIntoFilenameError::Utf8Error => "Filename is not correct utf8",
            TryIntoFilenameError::ExtensionMissing => "Extension log not found",
            TryIntoFilenameError::IncorrectExtension => "Incorrect extension",
        }
    }
}

impl Filepath {
    /// The partition filename for a date, with no path prefix yet.
    pub fn from_date(date: Date) -> (r: Filepath)
        ensures
            r.path@ == Seq::<u8>::empty(),
            r.date == date,
    {
        Filepath { path: Vec::new(), date }
    }

    /// The partition filename for the date of a timestamp.
    pub fn from_timestamp(t: &crate::date::Timestamp) -> (r: Filepath)
        ensures
            r.path@ == Seq::<u8>::empty(),
            r.date == t.date,
    {
        Filepath::from_date(t.date)
    }

    /// Replace the path prefix, keeping the date.
    pub fn set_path(&mut self, path: Vec<u8>)
        ensures
            final(self).path@ == path@,
            final(self).date == old(self).date,
    {
        self.path = path;
    }

    /// The full encoded path of this partition file.
    pub fn to_path_buf(&self) -> (r: Vec<u8>)
        requires
            date_valid(self.date),
        ensures
            r@ == encode_path(self.path@, self.date),
    {
        let mut out: Vec<u8> = Vec::new();
        out.extend_from_slice(self.path.as_slice());
        if self.path.len() != 0 && self.path[self.path.len() - 1] != SLASH {
            out.push(SLASH);
        }
        let d = self.date;
        out.push(48 + ((d.year / 1000) % 10) as u8);
        out.push(48 + ((d.year / 100) % 10) as u8);
        out.push(48 + ((d.year / 10) % 10) as u8);
        out.push(48 + (d.year % 10) as u8);
        out.push(48 + ((d.month / 10) % 10) as u8);
        out.push(48 + (d.month % 10) as u8);
        out.push(48 + ((d.day / 10) % 10) as u8);
        out.push(48 + (d.day % 10) as u8);
        out.push(DOT);
        out.push(108);
        out.push(111);
        out.push(103);
        proof {
            assert(out@ =~= encode_path(self.path@, self.date));
        }
        out
    }

    /// Decode a path into a partition filename, or say which check failed.
    pub fn try_from(path: Vec<u8>) -> (r: Result<Filepath, TryIntoFilenameError>)
        ensures
            match r {
                Ok(fp) => parse_path(path@) == Ok::<_, TryIntoFilenameError>(
                    (fp.path@, fp.date),
                ),
                Err(e) => parse_path(path@) == Err::<(Seq<u8>, Date), _>(e),
            },
    {
        let plen = path.len();
        let slash_pos = memrchr(SLASH, path.as_slice());
        proof {
            lemma_rfind_byte(path@, SLASH);
        }
        let cs: usize = match slash_pos {
            Some(i) => i + 1,
            None => 0,
        };
        let ghost comp = path@.skip(comp_start(path@));
        proof {
            assert(cs as int == comp_start(path@));
        }
        let comp_len = plen - cs;
        let comp_slice = &path.as_slice()[cs..plen];
        proof {
            assert(comp_slice@ =~= comp);
        }
        // Locate the extension dot inside the final segment.
        let q = match memrchr(DOT, comp_slice) {
            Some(q) => q,
            None => {
                return Err(TryIntoFilenameError::ExtensionMissing);
            },
        };
        proof {
            lemma_rfind_byte(comp, DOT);
        }
        if q == 0 {
            return Err(TryIntoFilenameError::ExtensionMissing);
        }
        // The extension must be exactly the log extension.
        if comp_len - q - 1 != 3 || path[cs + q + 1] != 108 || path[cs + q + 2] != 111 || path[cs
            + q + 3] != 103 {
            proof {
                let ex = comp.skip(q + 1);
                if comp_len - q - 1 != 3 {
                    assert(ex.len() != 3);
                } else {
                    assert(ex[0] == path@[cs + q + 1]);
                    assert(ex[1] == path@[cs + q + 2]);
                    assert(ex[2] == path@[cs + q + 3]);
                }
                assert(ex != ext_bytes());
            }
            return Err(TryIntoFilenameError::IncorrectExtension);
        }
        proof {
            assert(comp.skip(q + 1) =~= ext_bytes());
        }
        // The stem must be valid text.
        let mut stem: Vec<u8> = Vec::new();
        stem.extend_from_slice(&path.as_slice()[cs..cs + q]);
        proof {
            assert(stem@ =~= comp.take(q as int));
        }
        let ghost stem_view = stem@;
        match String::from_utf8(stem) {
            Ok(_) => {
            },
            Err(_) => {
                return Err(TryIntoFilenameError::Utf8Error);
            },
        }
        proof {
            assert(valid_utf8(comp.take(q as int)));
        }
        // The stem must be exactly eight digits forming a real date.
        if q != 8 {
            proof {
                assert(parse_date8(comp.take(q as int)) is None);
            }
            return Err(TryIntoFilenameError::BadFileName);
        }
        let mut k: usize = 0;
        while k < 8
            invariant
                k <= 8,
                path@.len() == plen,
                cs + 8 < plen,
                comp == path@.skip(cs as int),
                cs as int == comp_start(path@),
                rfind_byte(comp, DOT) == Some(8int),
                comp.skip(9) == ext_bytes(),
                valid_utf8(comp.take(8)),
                forall|j: int| 0 <= j < k ==> 48 <= #[trigger] comp[j] <= 57,
            decreases 8 - k,
        {
            let b = path[cs + k];
            proof {
                assert(comp[k as int] == b);
            }
            if b < 48 || b > 57 {
                proof {
                    assert(comp.take(8)[k as int] == b);
                    assert(parse_date8(comp.take(8)) is None);
                }
                return Err(TryIntoFilenameError::BadFileName);
            }
            k += 1;
        }
        proof {
            assert forall|j: int| 0 <= j < 8 implies path@[cs + j] == comp.take(8)[j] && 48
                <= #[trigger] comp.take(8)[j] <= 57 by {
                assert(comp.take(8)[j] == comp[j]);
            }
        }
        let y = (path[cs] - 48) as u32 * 1000 + (path[cs + 1] - 48) as u32 * 100 + (path[cs + 2]
            - 48) as u32 * 10 + (path[cs + 3] - 48) as u32;
        let m = (path[cs + 4] - 48) as u32 * 10 + (path[cs + 5] - 48) as u32;
        let dd = (path[cs + 6] - 48) as u32 * 10 + (path[cs + 7] - 48) as u32;
        let date = Date { year: y, month: m, day: dd };
        proof {
            let st8 = comp.take(8);
            assert(y as int == (st8[0] - 48) * 1000 + (st8[1] - 48) * 100 + (st8[2] - 48) * 10 + (
            st8[3] - 48));
            assert(m as int == (st8[4] - 48) * 10 + (st8[5] - 48));
            assert(dd as int == (st8[6] - 48) * 10 + (st8[7] - 48));
        }
        if !date.valid() {
            proof {
                assert(parse_date8(comp.take(8)) is None);
            }
            return Err(TryIntoFilenameError::BadFileName);
        }
        let mut prefix: Vec<u8> = Vec::new();
        prefix.extend_from_slice(&path.as_slice()[0..cs]);
        proof {
            assert(prefix@ =~= path@.take(cs as int));
            assert(parse_date8(comp.take(8)) == Some(date));
        }
        Ok(Filepath { path: prefix, date })
    }
}

/// Law: any path that decodes encodes back to exactly the same bytes, for
/// every path prefix and every valid date.
pub proof fn lemma_encode_after_decode(p: Seq<u8>)
    requires
        parse_path(p) is Ok,
    ensures
        encode_path(parse_path(p)->Ok_0.0, parse_path(p)->Ok_0.1) == p,
{
    let cs = comp_start(p);
    let comp = p.skip(cs);
    let prefix = p.take(cs);
    lemma_rfind_byte(p, SLASH);
    assert(0 <= cs <= p.len());
    let q = rfind_byte(comp, DOT)->0;
    lemma_rfind_byte(comp, DOT);
    let stem = comp.take(q);
    let d = parse_date8(stem)->0;
    lemma_date_digits_of_parse(stem);
    assert(date_digits(d) == stem);
    // The prefix is empty or ends in a separator, so no separator is added.
    if cs != 0 {
        assert(p[cs - 1] == SLASH);
        assert(prefix.last() == SLASH);
    }
    assert(comp =~= stem + seq![DOT] + comp.skip(q + 1));
    assert(comp.skip(q + 1) =~= ext_bytes());
    assert(encode_path(prefix, d) =~= prefix + stem + seq![DOT] + ext_bytes());
    assert(encode_path(prefix, d) =~= p);
}

/// Splitting a four-digit value into its digits and reassembling them.
pub(crate) proof fn lemma_digits_of_value4(y: int, a: int, b: int, c: int, e: int)
    requires
        0 <= a <= 9,
        0 <= b <= 9,
        0 <= c <= 9,
        0 <= e <= 9,
        y == a * 1000 + b * 100 + c * 10 + e,
    ensures
        y / 1000 % 10 == a,
        y / 100 % 10 == b,
        y / 10 % 10 == c,
        y % 10 == e,
{
    vstd::arithmetic::div_mod::lemma_fundamental_div_mod_converse_div(
        y,
        1000,
        a,
        b * 100 + c * 10 + e,
    );
    vstd::arithmetic::div_mod::lemma_fundamental_div_mod_converse_mod(a, 10, 0, a);
    vstd::arithmetic::div_mod::lemma_fundamental_div_mod_converse_div(
        y,
        100,
        a * 10 + b,
        c * 10 + e,
    );
    vstd::arithmetic::div_mod::lemma_fundamental_div_mod_converse_mod(a * 10 + b, 10, a, b);
    vstd::arithmetic::div_mod::lemma_fundamental_div_mod_converse_div(
        y,
        10,
        a * 100 + b * 10 + c,
        e,
    );
    vstd::arithmetic::div_mod::lemma_fundamental_div_mod_converse_mod(
        a * 100 + b * 10 + c,
        10,
        a * 10 + b,
        c,
    );
    vstd::arithmetic::div_mod::lemma_fundamental_div_mod_converse_mod(
        y,
        10,
        a * 100 + b * 10 + c,
        e,
    );
}

/// The same for a two-digit value.
pub(crate) proof fn lemma_digits_of_value2(m: int, a: int, b: int)
    requires
        0 <= a <= 9,
        0 <= b <= 9,
        m == a * 10 + b,
    ensures
        m / 10 % 10 == a,
        m % 10 == b,
{
    vstd::arithmetic::div_mod::lemma_fundamental_div_mod_converse_div(m, 10, a, b);
    vstd::arithmetic::div_mod::lemma_fundamental_div_mod_converse_mod(a, 10, 0, a);
    vstd::arithmetic::div_mod::lemma_fundamental_div_mod_converse_mod(m, 10, a, b);
}

/// Every value up to 9999 is the reassembly of its four digits.
pub(crate) proof fn lemma_value_to_digits4(y: int)
    requires
        0 <= y <= 9999,
    ensures
        y == y / 1000 % 10 * 1000 + y / 100 % 10 * 100 + y / 10 % 10 * 10 + y % 10,
        0 <= y / 1000 % 10 <= 9,
        0 <= y / 100 % 10 <= 9,
        0 <= y / 10 % 10 <= 9,
        0 <= y % 10 <= 9,
{
    let a = y / 1000;
    vstd::arithmetic::div_mod::lemma_fundamental_div_mod(y, 1000);
    vstd::arithmetic::div_mod::lemma_remainder_upper(y, 1000);
    vstd::arithmetic::div_mod::lemma_remainder_lower(y, 1000);
    vstd::arithmetic::div_mod::lemma_div_pos_is_pos(y, 1000);
    vstd::arithmetic::div_mod::lemma_div_is_ordered(y, 9999, 1000);
    let r3 = y % 1000;
    assert(y == a * 1000 + r3 && 0 <= r3 < 1000 && 0 <= a <= 9);
    let b = r3 / 100;
    vstd::arithmetic::div_mod::lemma_fundamental_div_mod(r3, 100);
    vstd::arithmetic::div_mod::lemma_remainder_upper(r3, 100);
    vstd::arithmetic::div_mod::lemma_remainder_lower(r3, 100);
    vstd::arithmetic::div_mod::lemma_div_pos_is_pos(r3, 100);
    vstd::arithmetic::div_mod::lemma_div_is_ordered(r3, 999, 100);
    let r2 = r3 % 100;
    assert(r3 == b * 100 + r2 && 0 <= r2 < 100 && 0 <= b <= 9);
    let c = r2 / 10;
    vstd::arithmetic::div_mod::lemma_fundamental_div_mod(r2, 10);
    vstd::arithmetic::div_mod::lemma_remainder_upper(r2, 10);
    vstd::arithmetic::div_mod::lemma_remainder_lower(r2, 10);
    vstd::arithmetic::div_mod::lemma_div_pos_is_pos(r2, 10);
    vstd::arithmetic::div_mod::lemma_div_is_ordered(r2, 99, 10);
    let e = r2 % 10;
    assert(r2 == c * 10 + e && 0 <= e < 10 && 0 <= c <= 9);
    lemma_digits_of_value4(y, a, b, c, e);
}

/// And of its two digits, below 100.
pub(crate) proof fn lemma_value_to_digits2(m: int)
    requires
        0 <= m <= 99,
    ensures
        m == m / 10 % 10 * 10 + m % 10,
        0 <= m / 10 % 10 <= 9,
        0 <= m % 10 <= 9,
{
    let a = m / 10;
    vstd::arithmetic::div_mod::lemma_fundamental_div_mod(m, 10);
    vstd::arithmetic::div_mod::lemma_remainder_upper(m, 10);
    vstd::arithmetic::div_mod::lemma_remainder_lower(m, 10);
    vstd::arithmetic::div_mod::lemma_div_pos_is_pos(m, 10);
    vstd::arithmetic::div_mod::lemma_div_is_ordered(m, 99, 10);
    lemma_digits_of_value2(m, a, m % 10);
}

/// A stem that parses to a date is that date's zero-padded digit form.
proof fn lemma_date_digits_of_parse(stem: Seq<u8>)
    requires
        parse_date8(stem) is Some,
    ensures
        date_digits(parse_date8(stem)->0) == stem,
{
    let d = parse_date8(stem)->0;
    assert(forall|j: int| 0 <= j < 8 ==> 48 <= #[trigger] stem[j] <= 57);
    lemma_digits_of_value4(
        d.year as int,
        stem[0] - 48,
        stem[1] - 48,
        stem[2] - 48,
        stem[3] - 48,
    );
    lemma_digits_of_value2(d.month as int, stem[4] - 48, stem[5] - 48);
    lemma_digits_of_value2(d.day as int, stem[6] - 48, stem[7] - 48);
    assert(date_digits(d) =~= stem);
}

/// A valid date's digit form parses back to exactly that date.
proof fn lemma_parse_of_date_digits(d: Date)
    requires
        date_valid(d),
    ensures
        parse_date8(date_digits(d)) == Some(d),
{
    let stem = date_digits(d);
    lemma_value_to_digits4(d.year as int);
    lemma_value_to_digits2(d.month as int);
    lemma_value_to_digits2(d.day as int);
    assert forall|j: int| 0 <= j < 8 implies 48 <= #[trigger] stem[j] <= 57 by {}
    assert((stem[0] - 48) * 1000 + (stem[1] - 48) * 100 + (stem[2] - 48) * 10 + (stem[3] - 48)
        == d.year as int);
    assert((stem[4] - 48) * 10 + (stem[5] - 48) == d.month as int);
    assert((stem[6] - 48) * 10 + (stem[7] - 48) == d.day as int);
}

/// Law: a partition filename built from a valid date and a canonical prefix
/// (empty, or ending in a separator, as every decoded prefix is) decodes
/// back to exactly that prefix and date. A prefix without a trailing
/// separator gains one in the encoding, so it is excluded here.
pub proof fn lemma_decode_after_encode(prefix: Seq<u8>, d: Date)
    requires
        date_valid(d),
        prefix.len() == 0 || prefix.last() == SLASH,
    ensures
        parse_path(encode_path(prefix, d)) == Ok::<_, TryIntoFilenameError>((prefix, d)),
{
    let p = encode_path(prefix, d);
    let stem = date_digits(d);
    lemma_parse_of_date_digits(d);
    assert(p =~= prefix + stem + seq![DOT] + ext_bytes());
    assert(p.len() == prefix.len() + 12);
    assert forall|j: int| 0 <= j < 8 implies 48 <= #[trigger] stem[j] <= 57 by {
        assert(parse_date8(stem) is Some);
    }
    // The last separator is the one ending the prefix, if any.
    if prefix.len() == 0 {
        lemma_rfind_byte(p, SLASH);
        if rfind_byte(p, SLASH) is Some {
            let i = rfind_byte(p, SLASH)->0;
            assert(p[i] == SLASH);
            if i < 8 {
                assert(p[i] == stem[i]);
            } else if i == 8 {
                assert(p[i] == DOT);
            } else {
                assert(p[i] == ext_bytes()[i - 9]);
            }
            assert(false);
        }
        assert(comp_start(p) == 0);
    } else {
        assert(p[prefix.len() - 1] == SLASH);
        assert forall|j: int| prefix.len() - 1 < j < p.len() implies #[trigger] p[j] != SLASH by {
            if j < prefix.len() + 8 {
                assert(p[j] == stem[j - prefix.len()]);
            } else if j == prefix.len() + 8 {
                assert(p[j] == DOT);
            } else {
                assert(p[j] == ext_bytes()[j - prefix.len() - 9]);
            }
        }
        lemma_rfind_byte_unique(p, SLASH, prefix.len() - 1);
        assert(comp_start(p) == prefix.len());
    }
    let comp = p.skip(comp_start(p));
    assert(comp =~= stem + seq![DOT] + ext_bytes());
    // The last dot is the extension separator.
    assert(comp[8] == DOT);
    assert forall|j: int| 8 < j < comp.len() implies #[trigger] comp[j] != DOT by {
        assert(comp[j] == ext_bytes()[j - 9]);
    }
    lemma_rfind_byte_unique(comp, DOT, 8);
    assert(comp.skip(9) =~= ext_bytes());
    assert(comp.take(8) =~= stem);
    crate::search::lemma_ascii_valid(stem);
    assert(p.take(comp_start(p)) =~= prefix);
}

} // verus!
