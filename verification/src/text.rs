//! Small byte-sequence helpers shared by the scanner, the dispatch table and
//! the tag table: equality, searching for a delimiter, slicing, and removing
//! quote characters from a quoted value.

use vstd::prelude::*;

verus! {

/// The `"` byte: values in the save format are sometimes quoted.
pub const QUOTE_BYTE: u8 = 34;

/// Index of the first occurrence of `b` in `s`, or `s.len()` if absent.
pub open spec fn first_index_of(s: Seq<u8>, b: u8) -> int
    decreases s.len(),
{
    if s.len() == 0 {
        0
    } else if s[0] == b {
        0
    } else {
        1 + first_index_of(s.drop_first(), b)
    }
}

pub proof fn lemma_first_index_of(s: Seq<u8>, b: u8)
    ensures
        0 <= first_index_of(s, b) <= s.len(),
        first_index_of(s, b) < s.len() ==> s[first_index_of(s, b)] == b,
        forall|j: int| 0 <= j < first_index_of(s, b) ==> s[j] != b,
    decreases s.len(),
{
    if s.len() > 0 && s[0] != b {
        lemma_first_index_of(s.drop_first(), b);
        assert forall|j: int| 0 <= j < first_index_of(s, b) implies s[j] != b by {
            if j > 0 {
                assert(s.drop_first()[j - 1] == s[j]);
            }
        }
    }
}

/// `s` with its surrounding quote characters removed: one leading and one
/// trailing quote byte are dropped when present; interior quotes stay.
pub open spec fn strip_surrounding_quotes(s: Seq<u8>) -> Seq<u8> {
    let t = if s.len() > 0 && s[0] == QUOTE_BYTE {
        s.drop_first()
    } else {
        s
    };
    if t.len() > 0 && t.last() == QUOTE_BYTE {
        t.drop_last()
    } else {
        t
    }
}

pub fn bytes_eq(a: &[u8], b: &[u8]) -> (r: bool)
    ensures
        r == (a@ == b@),
{
    if a.len() != b.len() {
        assert(a@.len() != b@.len());
        return false;
    }
    let n: usize = a.len();
    let mut i: usize = 0;
    while i < n
        invariant
            n == a@.len() == b@.len(),
            0 <= i <= n,
            forall|j: int| 0 <= j < i ==> a@[j] == b@[j],
        decreases n - i,
    {
        if a[i] != b[i] {
            assert(a@[i as int] != b@[i as int]);
            return false;
        }
        i = i + 1;
    }
    assert(a@ =~= b@);
    true
}

pub fn find_byte(s: &[u8], b: u8) -> (r: usize)
    ensures
        r as int == first_index_of(s@, b),
{
    let n: usize = s.len();
    let mut i: usize = 0;
    proof {
        lemma_first_index_of(s@, b);
    }
    while i < n
        invariant
            n == s@.len(),
            0 <= i <= n,
            forall|j: int| 0 <= j < i ==> s@[j] != b,
            0 <= first_index_of(s@, b) <= s@.len(),
            first_index_of(s@, b) < s@.len() ==> s@[first_index_of(s@, b)] == b,
            forall|j: int| 0 <= j < first_index_of(s@, b) ==> s@[j] != b,
        decreases n - i,
    {
        if s[i] == b {
            proof {
                let f = first_index_of(s@, b);
                if f < i {
                    assert(s@[f] != b);
                } else if f > i {
                    assert(s@[i as int] != b);
                }
            }
            return i;
        }
        i = i + 1;
    }
    proof {
        let f = first_index_of(s@, b);
        if f < n {
            assert(s@[f] != b);
        }
    }
    n
}

/// A freshly allocated copy of `s[from..to]`.
pub fn sub_vec(s: &[u8], from: usize, to: usize) -> (r: Vec<u8>)
    requires
        from <= to <= s@.len(),
    ensures
        r@ == s@.subrange(from as int, to as int),
{
    let mut r: Vec<u8> = Vec::new();
    let mut i: usize = from;
    while i < to
        invariant
            from <= i <= to <= s@.len(),
            r@ == s@.subrange(from as int, i as int),
        decreases to - i,
    {
        r.push(s[i]);
        proof {
            assert(s@.subrange(from as int, i + 1 as int) =~= s@.subrange(
                from as int,
                i as int,
            ).push(s@[i as int]));
        }
        i = i + 1;
    }
    r
}

pub fn starts_with(s: &[u8], pat: &[u8]) -> (r: bool)
    ensures
        r == pat@.is_prefix_of(s@),
{
    if s.len() < pat.len() {
        assert(!pat@.is_prefix_of(s@));
        return false;
    }
    let n: usize = pat.len();
    let mut i: usize = 0;
    while i < n
        invariant
            n == pat@.len() <= s@.len(),
            0 <= i <= n,
            forall|j: int| 0 <= j < i ==> s@[j] == pat@[j],
        decreases n - i,
    {
        if s[i] != pat[i] {
            proof {
                if pat@.is_prefix_of(s@) {
                    assert(pat@ =~= s@.subrange(0, n as int));
                    assert(pat@[i as int] == s@[i as int]);
                }
            }
            return false;
        }
        i = i + 1;
    }
    assert(pat@ =~= s@.subrange(0, n as int));
    true
}

/// A sequence of byte vectors as mathematical sequences of bytes.
pub open spec fn lines_view(ls: Seq<Vec<u8>>) -> Seq<Seq<u8>> {
    ls.map(|i: int, l: Vec<u8>| l@)
}

/// A freshly allocated copy of `v`.
pub fn copy_bytes(v: &Vec<u8>) -> (r: Vec<u8>)
    ensures
        r@ == v@,
{
    let r = sub_vec(v.as_slice(), 0, v.len());
    proof {
        assert(v@.subrange(0, v@.len() as int) =~= v@);
    }
    r
}

/// A freshly allocated copy of `s` with its surrounding quote characters
/// removed.
pub fn strip_surrounding_quotes_vec(s: &[u8]) -> (r: Vec<u8>)
    ensures
        r@ == strip_surrounding_quotes(s@),
{
    let n: usize = s.len();
    let from: usize = if n > 0 && s[0] == QUOTE_BYTE {
        1
    } else {
        0
    };
    let to: usize = if n > from && s[n - 1] == QUOTE_BYTE {
        n - 1
    } else {
        n
    };
    let r = sub_vec(s, from, to);
    proof {
        assert(r@ =~= strip_surrounding_quotes(s@));
    }
    r
}

} // verus!
