//! Single-byte search over a byte slice, forward and backward.

use vstd::prelude::*;

verus! {

/// Index of the first occurrence of `b` in `s`, if any.
pub open spec fn find_byte(s: Seq<u8>, b: u8) -> Option<int>
    decreases s.len(),
{
    if s.len() == 0 {
        None
    } else if s[0] == b {
        Some(0int)
    } else {
        match find_byte(s.drop_first(), b) {
            Some(i) => Some(i + 1),
            None => None,
        }
    }
}

/// Index of the last occurrence of `b` in `s`, if any.
pub open spec fn rfind_byte(s: Seq<u8>, b: u8) -> Option<int>
    decreases s.len(),
{
    if s.len() == 0 {
        None
    } else if s[s.len() - 1] == b {
        Some(s.len() - 1)
    } else {
        rfind_byte(s.drop_last(), b)
    }
}

/// `find_byte` returns the first index holding `b`, and `None` only when no
/// index holds `b`.
pub proof fn lemma_find_byte(s: Seq<u8>, b: u8)
    ensures
        match find_byte(s, b) {
            Some(i) => 0 <= i < s.len() && s[i] == b && forall|j: int| 0 <= j < i ==> s[j] != b,
            None => forall|j: int| 0 <= j < s.len() ==> s[j] != b,
        },
    decreases s.len(),
{
    if s.len() != 0 && s[0] != b {
        let t = s.drop_first();
        lemma_find_byte(t, b);
        assert forall|j: int| 1 <= j < s.len() implies s[j] == t[j - 1] by {}
    }
}

/// The characterization in `lemma_find_byte` pins `find_byte` down.
pub proof fn lemma_find_byte_unique(s: Seq<u8>, b: u8, i: int)
    requires
        0 <= i < s.len(),
        s[i] == b,
        forall|j: int| 0 <= j < i ==> s[j] != b,
    ensures
        find_byte(s, b) == Some(i),
    decreases s.len(),
{
    if s[0] != b {
        lemma_find_byte_unique(s.drop_first(), b, i - 1);
    }
}

/// `rfind_byte` returns the last index holding `b`, and `None` only when no
/// index holds `b`.
pub proof fn lemma_rfind_byte(s: Seq<u8>, b: u8)
    ensures
        match rfind_byte(s, b) {
            Some(i) => 0 <= i < s.len() && s[i] == b && forall|j: int| i < j < s.len() ==> s[j] != b,
            None => forall|j: int| 0 <= j < s.len() ==> s[j] != b,
        },
    decreases s.len(),
{
    if s.len() != 0 && s[s.len() - 1] != b {
        let t = s.drop_last();
        lemma_rfind_byte(t, b);
        assert forall|j: int| 0 <= j < s.len() - 1 implies s[j] == t[j] by {}
    }
}

/// The characterization in `lemma_rfind_byte` pins `rfind_byte` down.
pub proof fn lemma_rfind_byte_unique(s: Seq<u8>, b: u8, i: int)
    requires
        0 <= i < s.len(),
        s[i] == b,
        forall|j: int| i < j < s.len() ==> s[j] != b,
    ensures
        rfind_byte(s, b) == Some(i),
    decreases s.len(),
{
    if s[s.len() - 1] != b {
        lemma_rfind_byte_unique(s.drop_last(), b, i);
    }
}

/// A sequence without `b` has no first occurrence of it.
pub proof fn lemma_find_byte_none(s: Seq<u8>, b: u8)
    requires
        forall|j: int| 0 <= j < s.len() ==> s[j] != b,
    ensures
        find_byte(s, b) is None,
{
    lemma_find_byte(s, b);
    if find_byte(s, b) is Some {
        let i = find_byte(s, b)->0;
        assert(s[i] == b);
        assert(false);
    }
}

/// A sequence without `b` has no last occurrence of it.
pub proof fn lemma_rfind_byte_none(s: Seq<u8>, b: u8)
    requires
        forall|j: int| 0 <= j < s.len() ==> s[j] != b,
    ensures
        rfind_byte(s, b) is None,
{
    lemma_rfind_byte(s, b);
    if rfind_byte(s, b) is Some {
        let i = rfind_byte(s, b)->0;
        assert(s[i] == b);
        assert(false);
    }
}

/// Position of the first occurrence of `needle` in `haystack`.
pub fn memchr(needle: u8, haystack: &[u8]) -> (r: Option<usize>)
    ensures
        match r {
            Some(i) => find_byte(haystack@, needle) == Some(i as int),
            None => find_byte(haystack@, needle) is None,
        },
{
    let mut i: usize = 0;
    while i < haystack.len()
        invariant
            i <= haystack@.len(),
            forall|j: int| 0 <= j < i ==> haystack@[j] != needle,
        decreases haystack@.len() - i,
    {
        if haystack[i] == needle {
            proof {
                lemma_find_byte_unique(haystack@, needle, i as int);
            }
            return Some(i);
        }
        i += 1;
    }
    proof {
        lemma_find_byte(haystack@, needle);
    }
    None
}

/// Position of the last occurrence of `needle` in `haystack`.
pub fn memrchr(needle: u8, haystack: &[u8]) -> (r: Option<usize>)
    ensures
        match r {
            Some(i) => rfind_byte(haystack@, needle) == Some(i as int),
            None => rfind_byte(haystack@, needle) is None,
        },
{
    let mut i: usize = haystack.len();
    while i > 0
        invariant
            i <= haystack@.len(),
            forall|j: int| i <= j < haystack@.len() ==> haystack@[j] != needle,
        decreases i,
    {
        i -= 1;
        if haystack[i] == needle {
            proof {
                lemma_rfind_byte_unique(haystack@, needle, i as int);
            }
            return Some(i);
        }
    }
    proof {
        lemma_rfind_byte(haystack@, needle);
    }
    None
}

} // verus!
