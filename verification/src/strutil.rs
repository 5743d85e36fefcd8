//! Small verified string utilities.
//!
//! Rust string slices are compared here through their UTF-8 bytes; the
//! `vstd::utf8` round-trip lemmas carry byte equality back to character
//! equality, so no trusted comparison is needed.

use vstd::prelude::*;
use vstd::string::StringSliceAdditionalSpecFns;
use vstd::utf8::{encode_utf8, encode_utf8_decode_utf8};

verus! {

/// Byte-slice equality.
#[verifier::loop_isolation(false)]
pub fn bytes_eq(a: &[u8], b: &[u8]) -> (r: bool)
    ensures
        r == (a@ == b@),
{
    if a.len() != b.len() {
        return false;
    }
    let n = a.len();
    for i in 0..n
        invariant
            forall|t: int| 0 <= t < i ==> a@[t] == b@[t],
    {
        if a[i] != b[i] {
            return false;
        }
    }
    proof {
        assert(a@ =~= b@);
    }
    true
}

/// String slice equality, as equality of the character sequences.
pub fn str_eq(a: &str, b: &str) -> (r: bool)
    ensures
        r == (a@ == b@),
{
    let r = bytes_eq(a.as_bytes(), b.as_bytes());
    proof {
        if a.spec_bytes() == b.spec_bytes() {
            encode_utf8_decode_utf8(a@);
            encode_utf8_decode_utf8(b@);
        }
    }
    r
}

/// String equality without a data-dependent early exit: the comparison
/// always walks the whole length, accumulating differences, so its running
/// time depends only on the lengths of the inputs, never on where they
/// first differ.
#[verifier::loop_isolation(false)]
pub fn ct_str_eq(a: &str, b: &str) -> (r: bool)
    ensures
        r == (a@ == b@),
{
    let ab = a.as_bytes();
    let bb = b.as_bytes();
    if ab.len() != bb.len() {
        return false;
    }
    let n = ab.len();
    let mut diff: u8 = 0;
    for i in 0..n
        invariant
            diff == 0 <==> (forall|t: int| 0 <= t < i ==> ab@[t] == bb@[t]),
    {
        let d: u8 = ab[i] ^ bb[i];
        proof {
            let x = ab@[i as int];
            let y = bb@[i as int];
            assert((x ^ y) == 0 <==> x == y) by (bit_vector);
            assert(forall|p: u8, q: u8| #[trigger] (p | q) == 0 <==> p == 0 && q == 0)
                by (bit_vector);
        }
        diff = diff | d;
    }
    let r = diff == 0;
    proof {
        if r {
            assert(ab@ =~= bb@);
        }
        if a.spec_bytes() == b.spec_bytes() {
            encode_utf8_decode_utf8(a@);
            encode_utf8_decode_utf8(b@);
        }
        if a@ == b@ {
            assert(a.spec_bytes() == encode_utf8(a@));
        }
    }
    r
}

/// Whether a character has the White_Space property, as the standard
/// library's classifier decides it.
pub uninterp spec fn is_space(c: char) -> bool;

/// Relies on `char::is_whitespace`: a property of the character alone.
#[verifier::external_body]
pub(crate) fn is_whitespace_char(c: char) -> (r: bool)
    ensures
        r == is_space(c),
{
    c.is_whitespace()
}

/// The lowercase form of a character sequence, as the standard library's
/// case mapping produces it.
pub uninterp spec fn lower_of(s: Seq<char>) -> Seq<char>;

/// Relies on `str::to_lowercase`: the result depends on the characters
/// alone.
#[verifier::external_body]
pub(crate) fn to_lowercase(s: &str) -> (r: String)
    ensures
        r@ == lower_of(s@),
{
    s.to_lowercase()
}

/// True when the character occurs in the sequence.
pub open spec fn has_char(s: Seq<char>, c: char) -> bool {
    exists|i: int| 0 <= i < s.len() && s[i] == c
}

/// Index of the first occurrence of `c`, or `-1` when there is none.
pub open spec fn char_index(s: Seq<char>, c: char) -> int
    decreases s.len(),
{
    if s.len() == 0 {
        -1
    } else if s[0] == c {
        0
    } else {
        let r = char_index(s.subrange(1, s.len() as int), c);
        if r == -1 {
            -1
        } else {
            1 + r
        }
    }
}

/// What `char_index` finds: the first occurrence, if any.
pub proof fn lemma_char_index(s: Seq<char>, c: char)
    ensures
        -1 <= char_index(s, c) < s.len(),
        char_index(s, c) == -1 <==> !has_char(s, c),
        char_index(s, c) >= 0 ==> s[char_index(s, c)] == c,
        forall|t: int| 0 <= t < char_index(s, c) ==> #[trigger] s[t] != c,
    decreases s.len(),
{
    if s.len() > 0 {
        let tail = s.subrange(1, s.len() as int);
        lemma_char_index(tail, c);
        assert(forall|i: int| 1 <= i < s.len() ==> #[trigger] s[i] == tail[i - 1]);
        if s[0] != c {
            if char_index(tail, c) == -1 {
                assert forall|i: int| 0 <= i < s.len() implies #[trigger] s[i] != c by {
                    if i >= 1 {
                        assert(tail[i - 1] != c);
                    }
                }
            } else {
                assert(s[1 + char_index(tail, c)] == c);
                assert forall|t: int| 0 <= t < char_index(s, c) implies #[trigger] s[t] != c by {
                    if t >= 1 {
                        assert(tail[t - 1] != c);
                    }
                }
            }
        }
    }
}

/// Scans for `c`, reporting the first position, if any.
#[verifier::loop_isolation(false)]
pub fn find_char(s: &str, c: char) -> (r: Option<usize>)
    ensures
        r is Some <==> has_char(s@, c),
        r matches Some(i) ==> i == char_index(s@, c),
{
    proof {
        lemma_char_index(s@, c);
    }
    let n = s.unicode_len();
    let mut i: usize = 0;
    while i < n
        invariant
            i <= n,
            n == s@.len(),
            forall|t: int| 0 <= t < i ==> #[trigger] s@[t] != c,
        decreases n - i,
    {
        if s.get_char(i) == c {
            proof {
                assert(s@[i as int] == c);
                assert(char_index(s@, c) == i);
            }
            return Some(i);
        }
        i = i + 1;
    }
    None
}

/// Length of the leading run of whitespace.
pub open spec fn leading_ws(s: Seq<char>) -> int
    decreases s.len(),
{
    if s.len() == 0 || !is_space(s[0]) {
        0
    } else {
        1 + leading_ws(s.subrange(1, s.len() as int))
    }
}

/// Length of the trailing run of whitespace.
pub open spec fn trailing_ws(s: Seq<char>) -> int
    decreases s.len(),
{
    if s.len() == 0 || !is_space(s[s.len() - 1]) {
        0
    } else {
        1 + trailing_ws(s.subrange(0, s.len() - 1))
    }
}

/// The sequence with leading and trailing whitespace removed.
pub open spec fn trim_spec(s: Seq<char>) -> Seq<char> {
    if leading_ws(s) == s.len() {
        Seq::empty()
    } else {
        s.subrange(leading_ws(s), s.len() - trailing_ws(s))
    }
}

/// A maximal run of leading whitespace pins `leading_ws` down.
proof fn lemma_leading_ws_exact(s: Seq<char>, m: int)
    requires
        0 <= m <= s.len(),
        forall|t: int| 0 <= t < m ==> is_space(#[trigger] s[t]),
        m == s.len() || !is_space(s[m]),
    ensures
        leading_ws(s) == m,
    decreases m,
{
    if m == 0 {
    } else {
        let tail = s.subrange(1, s.len() as int);
        assert(forall|i: int| 0 <= i < tail.len() ==> #[trigger] tail[i] == s[i + 1]);
        lemma_leading_ws_exact(tail, m - 1);
    }
}

/// A maximal run of trailing whitespace pins `trailing_ws` down.
proof fn lemma_trailing_ws_exact(s: Seq<char>, m: int)
    requires
        0 <= m <= s.len(),
        forall|t: int| s.len() - m <= t < s.len() ==> is_space(#[trigger] s[t]),
        m == s.len() || !is_space(s[s.len() - m - 1]),
    ensures
        trailing_ws(s) == m,
    decreases m,
{
    if m == 0 {
    } else {
        let front = s.subrange(0, s.len() - 1);
        assert(forall|i: int| 0 <= i < front.len() ==> #[trigger] front[i] == s[i]);
        lemma_trailing_ws_exact(front, m - 1);
    }
}

/// The slice with leading and trailing whitespace removed.
#[verifier::loop_isolation(false)]
pub fn trim_str<'a>(s: &'a str) -> (r: &'a str)
    ensures
        r@ == trim_spec(s@),
{
    let n = s.unicode_len();
    let mut a: usize = 0;
    while a < n && is_whitespace_char(s.get_char(a))
        invariant
            a <= n,
            n == s@.len(),
            forall|t: int| 0 <= t < a ==> is_space(#[trigger] s@[t]),
        decreases n - a,
    {
        a = a + 1;
    }
    if a == n {
        proof {
            lemma_leading_ws_exact(s@, n as int);
        }
        let r = s.substring_char(0, 0);
        proof {
            assert(r@ =~= trim_spec(s@));
        }
        return r;
    }
    proof {
        lemma_leading_ws_exact(s@, a as int);
    }
    let mut e: usize = n;
    while e > a + 1 && is_whitespace_char(s.get_char(e - 1))
        invariant
            a < e <= n,
            forall|t: int| e <= t < n ==> is_space(#[trigger] s@[t]),
        decreases e,
    {
        e = e - 1;
    }
    proof {
        // the character at `a` is not whitespace, so the trailing run
        // stops at or after it
        if e == a + 1 {
            assert(!is_space(s@[a as int]));
        }
        assert(!is_space(s@[e - 1]));
        lemma_trailing_ws_exact(s@, n - e);
    }
    s.substring_char(a, e)
}

} // verus!
