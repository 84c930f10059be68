//! Byte-level scanning primitives for the track-log markup reader.
//!
//! Each scanner has a recursive specification ("the first position at or
//! after `i` where ...") and an executable loop proved equal to it.

use vstd::prelude::*;

verus! {

pub const B_TAB: u8 = 9;

pub const B_LF: u8 = 10;

pub const B_CR: u8 = 13;

pub const B_SPACE: u8 = 32;

pub const B_BANG: u8 = 33;

pub const B_QUOT: u8 = 34;

pub const B_AMP: u8 = 38;

pub const B_APOS: u8 = 39;

pub const B_DASH: u8 = 45;

pub const B_SLASH: u8 = 47;

pub const B_SEMI: u8 = 59;

pub const B_LT: u8 = 60;

pub const B_EQ: u8 = 61;

pub const B_GT: u8 = 62;

pub const B_QM: u8 = 63;

pub const B_LBRACK: u8 = 91;

pub const B_RBRACK: u8 = 93;

pub open spec fn is_space(b: u8) -> bool {
    b == B_SPACE || b == B_TAB || b == B_LF || b == B_CR
}

/// Bytes that may form an element or attribute name.
pub open spec fn is_name_byte(b: u8) -> bool {
    !is_space(b) && b != B_LT && b != B_GT && b != B_SLASH && b != B_EQ && b != B_QUOT && b
        != B_APOS
}

/// First position at or after `i` holding `b`, or the length.
pub open spec fn find_byte(s: Seq<u8>, i: int, b: u8) -> int
    decreases s.len() - i,
{
    if i >= s.len() {
        s.len() as int
    } else if s[i] == b {
        i
    } else {
        find_byte(s, i + 1, b)
    }
}

proof fn lemma_find_byte_eq(s: Seq<u8>, i: int, b: u8, r: int)
    requires
        0 <= i <= r <= s.len(),
        r < s.len() ==> s[r] == b,
        forall|k: int| i <= k < r ==> s[k] != b,
    ensures
        find_byte(s, i, b) == r,
    decreases r - i,
{
    if i < r {
        lemma_find_byte_eq(s, i + 1, b, r);
    }
}

pub fn scan_byte(s: &Vec<u8>, from: usize, b: u8) -> (r: usize)
    requires
        from <= s@.len(),
    ensures
        r as int == find_byte(s@, from as int, b),
        from <= r <= s@.len(),
        r < s@.len() ==> s@[r as int] == b,
        forall|k: int| from <= k < r ==> s@[k] != b,
{
    let n = s.len();
    let mut j = from;
    while j < n && s[j] != b
        invariant
            from <= j <= n,
            n == s@.len(),
            forall|k: int| from <= k < j ==> s@[k] != b,
        decreases n - j,
    {
        j = j + 1;
    }
    proof {
        lemma_find_byte_eq(s@, from as int, b, j as int);
    }
    j
}

/// First position at or after `i` where `a` is immediately followed by `b`,
/// or the length when no such pair exists.
pub open spec fn find_pair(s: Seq<u8>, i: int, a: u8, b: u8) -> int
    decreases s.len() - i,
{
    if i + 1 >= s.len() {
        s.len() as int
    } else if s[i] == a && s[i + 1] == b {
        i
    } else {
        find_pair(s, i + 1, a, b)
    }
}

proof fn lemma_find_pair_eq(s: Seq<u8>, i: int, a: u8, b: u8, r: int)
    requires
        0 <= i <= r <= s.len(),
        r + 1 < s.len() ==> (s[r] == a && s[r + 1] == b),
        r < s.len() ==> r + 1 < s.len(),
        forall|k: int| i <= k < r ==> !(#[trigger] s[k] == a && k + 1 < s.len() && s[k + 1] == b),
    ensures
        find_pair(s, i, a, b) == r,
    decreases r - i,
{
    if i < r {
        lemma_find_pair_eq(s, i + 1, a, b, r);
    }
}

pub fn scan_pair(s: &Vec<u8>, from: usize, a: u8, b: u8) -> (r: usize)
    requires
        from <= s@.len(),
    ensures
        r as int == find_pair(s@, from as int, a, b),
        from <= r <= s@.len(),
        r < s@.len() ==> r + 1 < s@.len() && s@[r as int] == a && s@[r + 1] == b,
{
    let n = s.len();
    let mut j = from;
    while n - j > 1 && !(s[j] == a && s[j + 1] == b)
        invariant
            from <= j <= n,
            n == s@.len(),
            forall|k: int| from <= k < j ==> !(#[trigger] s@[k] == a && k + 1 < s@.len() && s@[k + 1] == b),
        decreases n - j,
    {
        j = j + 1;
    }
    if n - j > 1 {
        proof {
            lemma_find_pair_eq(s@, from as int, a, b, j as int);
        }
        j
    } else {
        proof {
            lemma_find_pair_eq(s@, from as int, a, b, s@.len() as int);
        }
        n
    }
}

/// First position at or after `i` where `a`, `b`, `c` appear in a row, or
/// the length when no such triple exists.
pub open spec fn find_triple(s: Seq<u8>, i: int, a: u8, b: u8, c: u8) -> int
    decreases s.len() - i,
{
    if i + 2 >= s.len() {
        s.len() as int
    } else if s[i] == a && s[i + 1] == b && s[i + 2] == c {
        i
    } else {
        find_triple(s, i + 1, a, b, c)
    }
}

proof fn lemma_find_triple_eq(s: Seq<u8>, i: int, a: u8, b: u8, c: u8, r: int)
    requires
        0 <= i <= r <= s.len(),
        r + 2 < s.len() ==> (s[r] == a && s[r + 1] == b && s[r + 2] == c),
        r < s.len() ==> r + 2 < s.len(),
        forall|k: int|
            i <= k < r ==> !(#[trigger] s[k] == a && k + 2 < s.len() && s[k + 1] == b && s[k + 2] == c),
    ensures
        find_triple(s, i, a, b, c) == r,
    decreases r - i,
{
    if i < r {
        lemma_find_triple_eq(s, i + 1, a, b, c, r);
    }
}

pub fn scan_triple(s: &Vec<u8>, from: usize, a: u8, b: u8, c: u8) -> (r: usize)
    requires
        from <= s@.len(),
    ensures
        r as int == find_triple(s@, from as int, a, b, c),
        from <= r <= s@.len(),
        r < s@.len() ==> r + 2 < s@.len() && s@[r as int] == a && s@[r + 1] == b && s@[r + 2] == c,
{
    let n = s.len();
    let mut j = from;
    while n - j > 2 && !(s[j] == a && s[j + 1] == b && s[j + 2] == c)
        invariant
            from <= j <= n,
            n == s@.len(),
            forall|k: int|
                from <= k < j ==> !(#[trigger] s@[k] == a && k + 2 < s@.len() && s@[k + 1] == b && s@[k + 2]
                    == c),
        decreases n - j,
    {
        j = j + 1;
    }
    if n - j > 2 {
        proof {
            lemma_find_triple_eq(s@, from as int, a, b, c, j as int);
        }
        j
    } else {
        proof {
            lemma_find_triple_eq(s@, from as int, a, b, c, s@.len() as int);
        }
        n
    }
}

/// First position at or after `i` holding a non-space byte, or the length.
pub open spec fn skip_spaces(s: Seq<u8>, i: int) -> int
    decreases s.len() - i,
{
    if i >= s.len() {
        s.len() as int
    } else if is_space(s[i]) {
        skip_spaces(s, i + 1)
    } else {
        i
    }
}

proof fn lemma_skip_spaces_eq(s: Seq<u8>, i: int, r: int)
    requires
        0 <= i <= r <= s.len(),
        r < s.len() ==> !is_space(s[r]),
        forall|k: int| i <= k < r ==> is_space(s[k]),
    ensures
        skip_spaces(s, i) == r,
    decreases r - i,
{
    if i < r {
        lemma_skip_spaces_eq(s, i + 1, r);
    }
}

pub fn scan_spaces(s: &Vec<u8>, from: usize) -> (r: usize)
    requires
        from <= s@.len(),
    ensures
        r as int == skip_spaces(s@, from as int),
        from <= r <= s@.len(),
        r < s@.len() ==> !is_space(s@[r as int]),
        forall|k: int| from <= k < r ==> is_space(s@[k]),
{
    let n = s.len();
    let mut j = from;
    while j < n && (s[j] == B_SPACE || s[j] == B_TAB || s[j] == B_LF || s[j] == B_CR)
        invariant
            from <= j <= n,
            n == s@.len(),
            forall|k: int| from <= k < j ==> is_space(s@[k]),
        decreases n - j,
    {
        j = j + 1;
    }
    proof {
        lemma_skip_spaces_eq(s@, from as int, j as int);
    }
    j
}

/// Largest position `r` with `floor <= r <= i` such that every byte in
/// `[r, i)` is a space and the byte before `r` (if any at or after `floor`)
/// is not; trims spaces off the end of the range `[floor, i)`.
pub open spec fn rskip_spaces(s: Seq<u8>, i: int, floor: int) -> int
    decreases i - floor,
{
    if i <= floor {
        floor
    } else if is_space(s[i - 1]) {
        rskip_spaces(s, i - 1, floor)
    } else {
        i
    }
}

proof fn lemma_rskip_spaces_eq(s: Seq<u8>, i: int, floor: int, r: int)
    requires
        floor <= r <= i,
        r > floor ==> !is_space(s[r - 1]),
        forall|k: int| r <= k < i ==> is_space(s[k]),
    ensures
        rskip_spaces(s, i, floor) == r,
    decreases i - r,
{
    if r < i {
        lemma_rskip_spaces_eq(s, i - 1, floor, r);
    }
}

pub fn scan_spaces_back(s: &Vec<u8>, upto: usize, floor: usize) -> (r: usize)
    requires
        floor <= upto <= s@.len(),
    ensures
        r as int == rskip_spaces(s@, upto as int, floor as int),
        floor <= r <= upto,
{
    let mut j = upto;
    while j > floor && (s[j - 1] == B_SPACE || s[j - 1] == B_TAB || s[j - 1] == B_LF || s[j - 1]
        == B_CR)
        invariant
            floor <= j <= upto <= s@.len(),
            forall|k: int| j <= k < upto ==> is_space(s@[k]),
        decreases j,
    {
        j = j - 1;
    }
    proof {
        lemma_rskip_spaces_eq(s@, upto as int, floor as int, j as int);
    }
    j
}

/// First position at or after `i` holding a byte that cannot be part of a
/// name, or the length.
pub open spec fn name_end(s: Seq<u8>, i: int) -> int
    decreases s.len() - i,
{
    if i >= s.len() {
        s.len() as int
    } else if is_name_byte(s[i]) {
        name_end(s, i + 1)
    } else {
        i
    }
}

proof fn lemma_name_end_eq(s: Seq<u8>, i: int, r: int)
    requires
        0 <= i <= r <= s.len(),
        r < s.len() ==> !is_name_byte(s[r]),
        forall|k: int| i <= k < r ==> is_name_byte(s[k]),
    ensures
        name_end(s, i) == r,
    decreases r - i,
{
    if i < r {
        lemma_name_end_eq(s, i + 1, r);
    }
}

pub fn scan_name(s: &Vec<u8>, from: usize) -> (r: usize)
    requires
        from <= s@.len(),
    ensures
        r as int == name_end(s@, from as int),
        from <= r <= s@.len(),
{
    let n = s.len();
    let mut j = from;
    while j < n && !(s[j] == B_SPACE || s[j] == B_TAB || s[j] == B_LF || s[j] == B_CR || s[j]
        == B_LT || s[j] == B_GT || s[j] == B_SLASH || s[j] == B_EQ || s[j] == B_QUOT || s[j]
        == B_APOS)
        invariant
            from <= j <= n,
            n == s@.len(),
            forall|k: int| from <= k < j ==> is_name_byte(s@[k]),
        decreases n - j,
    {
        j = j + 1;
    }
    proof {
        lemma_name_end_eq(s@, from as int, j as int);
    }
    j
}

/// Executable test for `is_name_byte`.
pub fn name_byte_test(b: u8) -> (r: bool)
    ensures
        r == is_name_byte(b),
{
    !(b == B_SPACE || b == B_TAB || b == B_LF || b == B_CR || b == B_LT || b == B_GT || b
        == B_SLASH || b == B_EQ || b == B_QUOT || b == B_APOS)
}

/// Copies the byte range `[from, upto)` out of `s`.
pub fn copy_range(s: &Vec<u8>, from: usize, upto: usize) -> (r: Vec<u8>)
    requires
        from <= upto <= s@.len(),
    ensures
        r@ == s@.subrange(from as int, upto as int),
{
    let mut out: Vec<u8> = Vec::new();
    let mut j = from;
    while j < upto
        invariant
            from <= j <= upto <= s@.len(),
            out@ == s@.subrange(from as int, j as int),
        decreases upto - j,
    {
        out.push(s[j]);
        proof {
            assert(out@ =~= s@.subrange(from as int, j + 1 as int));
        }
        j = j + 1;
    }
    out
}

} // verus!
