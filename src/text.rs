//! Byte-level helpers over `&str` shared by the parser and the model.

use vstd::prelude::*;
use vstd::string::StringSliceAdditionalSpecFns;
use vstd::utf8::*;

verus! {

broadcast use {encode_utf8_decode_utf8, encode_utf8_valid_utf8};

/// Whether two strings hold the same characters.
pub fn str_eq(a: &str, b: &str) -> (r: bool)
    ensures
        r == (a@ == b@),
{
    let x = a.as_bytes();
    let y = b.as_bytes();
    if x.len() != y.len() {
        proof {
            if a@ == b@ {
                assert(x@ == y@);
            }
        }
        return false;
    }
    let mut i: usize = 0;
    while i < x.len()
        invariant
            x@ == a.spec_bytes(),
            y@ == b.spec_bytes(),
            x@.len() == y@.len(),
            i <= x@.len(),
            forall|j: int| 0 <= j < i ==> x@[j] == y@[j],
        decreases x@.len() - i,
    {
        if x[i] != y[i] {
            proof {
                if a@ == b@ {
                    assert(x@ == y@);
                }
            }
            return false;
        }
        i = i + 1;
    }
    proof {
        assert(x@ =~= y@);
        assert(decode_utf8(encode_utf8(a@)) == a@);
        assert(decode_utf8(encode_utf8(b@)) == b@);
    }
    true
}


/// Relies on nom's `character::is_space`: true exactly for a space or a tab.
pub assume_specification[ nom::character::is_space ](chr: u8) -> (r: bool)
    ensures
        r == (chr == 32 || chr == 9),
;

/// The byte classes that the grammar scans runs of.
#[derive(Clone, Copy, Debug, PartialEq, Eq)]
pub enum Class {
    /// Spaces and tabs.
    Blank,
    /// Spaces, tabs and newlines.
    Space,
    /// Bytes that may stand in an identifier: all but blanks, `;` and newlines.
    Ident,
    /// Pointer stars, spaces and tabs.
    Star,
}

/// A space or a tab.
pub open spec fn is_blank(b: u8) -> bool {
    b == 32 || b == 9
}

/// Whether byte `b` belongs to class `c`.
pub open spec fn in_class(b: u8, c: Class) -> bool {
    match c {
        Class::Blank => is_blank(b),
        Class::Space => is_blank(b) || b == 10,
        Class::Ident => !is_blank(b) && b != 59 && b != 10,
        Class::Star => b == 42 || is_blank(b),
    }
}

/// The end of the run of bytes of class `c` that starts at `i`.
pub open spec fn run_end(s: Seq<u8>, c: Class, i: int) -> int
    decreases s.len() - i,
{
    if 0 <= i < s.len() && in_class(s[i], c) {
        run_end(s, c, i + 1)
    } else {
        i
    }
}

/// Whether `t` occurs in `s` at position `i`.
pub open spec fn occurs_at(s: Seq<u8>, t: Seq<u8>, i: int) -> bool {
    0 <= i && i + t.len() <= s.len() && s.subrange(i, i + t.len()) == t
}

/// The first position at or after `i` where `t` occurs in `s`.
pub open spec fn find_from(s: Seq<u8>, t: Seq<u8>, i: int) -> Option<int>
    decreases s.len() + 1 - i,
{
    if i < 0 || i + t.len() > s.len() {
        None
    } else if occurs_at(s, t, i) {
        Some(i)
    } else {
        find_from(s, t, i + 1)
    }
}

/// What `find_from` finds is an occurrence, and the first one from `i`.
pub proof fn lemma_find_from(s: Seq<u8>, t: Seq<u8>, i: int)
    requires
        0 <= i,
    ensures
        match find_from(s, t, i) {
            Some(j) => i <= j && occurs_at(s, t, j) && forall|k: int|
                i <= k < j ==> !#[trigger] occurs_at(s, t, k),
            None => forall|k: int| i <= k ==> !#[trigger] occurs_at(s, t, k),
        },
    decreases s.len() + 1 - i,
{
    if i + t.len() <= s.len() && !occurs_at(s, t, i) {
        lemma_find_from(s, t, i + 1);
    }
}

/// Whether byte `b` belongs to class `c`.
pub fn in_class_exec(b: u8, c: Class) -> (r: bool)
    ensures
        r == in_class(b, c),
{
    match c {
        Class::Blank => nom::character::is_space(b),
        Class::Space => nom::character::is_space(b) || b == 10,
        Class::Ident => !nom::character::is_space(b) && b != 59 && b != 10,
        Class::Star => b == 42 || nom::character::is_space(b),
    }
}

/// Length of the run of bytes of class `c` at the start of `s`.
pub fn run_len(s: &str, c: Class) -> (k: usize)
    ensures
        k == run_end(s.spec_bytes(), c, 0),
        k <= s.spec_bytes().len(),
        forall|j: int| 0 <= j < k ==> in_class(#[trigger] s.spec_bytes()[j], c),
        k < s.spec_bytes().len() ==> !in_class(s.spec_bytes()[k as int], c),
{
    let b = s.as_bytes();
    let mut i: usize = 0;
    while i < b.len() && in_class_exec(b[i], c)
        invariant
            b@ == s.spec_bytes(),
            i <= b@.len(),
            run_end(b@, c, 0) == run_end(b@, c, i as int),
            forall|j: int| 0 <= j < i ==> in_class(#[trigger] b@[j], c),
        decreases b@.len() - i,
    {
        i = i + 1;
    }
    i
}

/// First position at or after `from` where `t` occurs in `s`.
pub fn find(s: &str, t: &[u8], from: usize) -> (r: Option<usize>)
    requires
        from <= s.spec_bytes().len(),
    ensures
        match r {
            Some(i) => find_from(s.spec_bytes(), t@, from as int) == Some(i as int),
            None => find_from(s.spec_bytes(), t@, from as int) is None,
        },
{
    let b = s.as_bytes();
    let n = b.len();
    let mut i: usize = from;
    while t.len() <= n - i
        invariant
            b@ == s.spec_bytes(),
            n == b@.len(),
            from <= i <= n,
            find_from(b@, t@, from as int) == find_from(b@, t@, i as int),
        decreases b@.len() - i,
    {
        let mut j: usize = 0;
        while j < t.len() && b[i + j] == t[j]
            invariant
                    b@ == s.spec_bytes(),
                n == b@.len(),
                i + t@.len() <= n,
                j <= t@.len(),
                forall|m: int| 0 <= m < j ==> b@[i + m] == t@[m],
            decreases t@.len() - j,
        {
            j = j + 1;
        }
        if j == t.len() {
            assert(b@.subrange(i as int, i + t@.len()) =~= t@);
            return Some(i);
        }
        assert(!occurs_at(b@, t@, i as int)) by {
            if occurs_at(b@, t@, i as int) {
                assert(b@.subrange(i as int, i + t@.len())[j as int] == t@[j as int]);
            }
        }
        i = i + 1;
    }
    None
}

/// A position next to an ASCII byte of valid UTF-8 lies between characters.
pub proof fn lemma_ascii_boundary(b: Seq<u8>, k: int)
    requires
        valid_utf8(b),
        0 <= k <= b.len(),
        k == 0 || k == b.len() || b[k] < 128 || b[k - 1] < 128,
    ensures
        is_char_boundary(b, k),
{
    is_char_boundary_start_end_of_seq(b);
    if 0 < k < b.len() {
        if b[k] < 128 {
            is_char_boundary_iff_not_is_continuation_byte(b, k);
        } else {
            let j = k - 1;
            is_char_boundary_iff_not_is_continuation_byte(b, j);
            valid_utf8_split(b, j);
            let t = b.subrange(j, b.len() as int);
            assert(pop_first_scalar(t) =~= b.subrange(k, b.len() as int));
            assert(valid_utf8(b.subrange(k, b.len() as int)));
            assert(b.subrange(k, b.len() as int)[0] == b[k]);
            is_char_boundary_iff_not_is_continuation_byte(b, k);
        }
    }
}

/// Split `s` at byte `k`, a position next to an ASCII byte.
pub fn split(s: &str, k: usize) -> (r: (&str, &str))
    requires
        k <= s.spec_bytes().len(),
        k == 0 || k == s.spec_bytes().len() || s.spec_bytes()[k as int] < 128
            || s.spec_bytes()[k - 1] < 128,
    ensures
        r.0.spec_bytes() == s.spec_bytes().subrange(0, k as int),
        r.1.spec_bytes() == s.spec_bytes().subrange(k as int, s.spec_bytes().len() as int),
{
    proof {
        lemma_ascii_boundary(s.spec_bytes(), k as int);
    }
    s.split_at(k)
}

} // verus!
