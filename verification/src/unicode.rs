use vstd::prelude::*;
use vstd::utf8::{decode_utf8, valid_utf8};

verus! {

/// Whether `b` is UTF-8, as `std::str::from_utf8` decides it; the contract claims
/// that std's decision is vstd's `valid_utf8`.
#[verifier::external_body]
pub(crate) fn is_utf8(b: &[u8]) -> (r: bool)
    ensures
        r == valid_utf8(b@),
{
    std::str::from_utf8(b).is_ok()
}

/// The length of `c` in UTF-8, as `char::len_utf8` gives it.
pub open spec fn char_width(c: char) -> nat {
    let u = c as u32;
    if u < 0x80 {
        1
    } else if u < 0x800 {
        2
    } else if u < 0x10000 {
        3
    } else {
        4
    }
}

/// The length of `s` in UTF-8 bytes, as `str::len` gives it.
pub open spec fn utf8_len(s: Seq<char>) -> nat
    decreases s.len(),
{
    if s.len() == 0 {
        0
    } else {
        utf8_len(s.drop_last()) + char_width(s.last())
    }
}

/// The length in bytes of what `str::trim_end` leaves of the UTF-8 text `b`: its
/// characters without the trailing ones that are whitespace.
pub open spec fn trim_end_len_of(b: Seq<u8>) -> nat {
    utf8_len(trimmed_end(decode_utf8(b)))
}

/// Calls `str::trim_end` on the text `b` (read with `std::str::from_utf8`) and
/// returns the length of what remains, a prefix of `b`. The contract claims what
/// std documents: trailing characters with Unicode's White_Space property go,
/// and the rest is measured in UTF-8 bytes; and that nothing goes where `b` ends
/// with `/` (which is no whitespace).
#[verifier::external_body]
pub(crate) fn trim_end_len(b: &[u8]) -> (r: usize)
    requires
        valid_utf8(b@),
    ensures
        r == trim_end_len_of(b@),
        r <= b@.len(),
        b@.len() > 0 && b@.last() == 47 ==> r == b@.len(),
{
    std::str::from_utf8(b).unwrap().trim_end().len()
}


/// Whether `c` is alphabetic or numeric, in Unicode's terms.
pub uninterp spec fn alphanumeric(c: char) -> bool;

/// Calls `char::is_alphanumeric`. The contract claims that the answer depends on
/// `c` alone and, as std's source shows, that an ASCII character is alphanumeric
/// exactly when it is a letter or a digit; which other characters are (Unicode's
/// Alphabetic and Numeric properties) is left unsaid.
#[verifier::external_body]
pub(crate) fn is_alphanumeric(c: char) -> (b: bool)
    ensures
        b == alphanumeric(c),
        (c as u32) < 0x80 ==> (b <==> ('0' <= c <= '9' || 'a' <= c <= 'z' || 'A' <= c <= 'Z')),
{
    c.is_alphanumeric()
}

/// Whether `c` has Unicode's White_Space property, as `char::is_whitespace` says.
pub open spec fn whitespace(c: char) -> bool {
    let u = c as u32;
    ||| 9 <= u <= 13
    ||| u == 32
    ||| u == 0x85
    ||| u == 0xa0
    ||| u == 0x1680
    ||| 0x2000 <= u <= 0x200a
    ||| u == 0x2028
    ||| u == 0x2029
    ||| u == 0x202f
    ||| u == 0x205f
    ||| u == 0x3000
}

pub fn is_whitespace(c: char) -> (b: bool)
    ensures
        b == whitespace(c),
{
    let u = c as u32;
    (9 <= u && u <= 13) || u == 32 || u == 0x85 || u == 0xa0 || u == 0x1680 || (0x2000 <= u && u
        <= 0x200a) || u == 0x2028 || u == 0x2029 || u == 0x202f || u == 0x205f || u == 0x3000
}

/// `s` without its leading whitespace.
pub open spec fn trimmed_start(s: Seq<char>) -> Seq<char>
    decreases s.len(),
{
    if s.len() > 0 && whitespace(s[0]) {
        trimmed_start(s.drop_first())
    } else {
        s
    }
}

/// `s` without its trailing whitespace.
pub open spec fn trimmed_end(s: Seq<char>) -> Seq<char>
    decreases s.len(),
{
    if s.len() > 0 && whitespace(s.last()) {
        trimmed_end(s.drop_last())
    } else {
        s
    }
}

/// `s` without its leading and trailing whitespace, as `str::trim` gives it.
pub open spec fn trimmed(s: Seq<char>) -> Seq<char> {
    trimmed_end(trimmed_start(s))
}

/// Removes the leading and trailing whitespace of `s`.
pub fn trim_chars(s: &[char]) -> (r: Vec<char>)
    ensures
        r@ == trimmed(s@),
{
    let n = s.len();
    let mut a: usize = 0;
    assert(s@.skip(0) =~= s@);
    while a < n && is_whitespace(s[a])
        invariant
            n == s@.len(),
            a <= n,
            trimmed_start(s@) == trimmed_start(s@.skip(a as int)),
        decreases n - a,
    {
        assert(s@.skip(a as int).drop_first() =~= s@.skip(a + 1));
        a = a + 1;
    }
    assert(trimmed_start(s@) =~= s@.subrange(a as int, n as int)) by {
        assert(s@.skip(a as int) =~= s@.subrange(a as int, n as int));
    }
    let mut b: usize = n;
    let ghost st = s@.subrange(a as int, n as int);
    assert(st.take((b - a) as int) =~= st);
    while b > a && is_whitespace(s[b - 1])
        invariant
            n == s@.len(),
            a <= b <= n,
            st == s@.subrange(a as int, n as int),
            trimmed_end(st) == trimmed_end(st.take((b - a) as int)),
        decreases b,
    {
        assert(st.take((b - a) as int).drop_last() =~= st.take((b - 1 - a) as int));
        b = b - 1;
    }
    let mut r: Vec<char> = Vec::new();
    let mut i: usize = a;
    while i < b
        invariant
            a <= i <= b <= n,
            n == s@.len(),
            r@ == s@.subrange(a as int, i as int),
        decreases b - i,
    {
        r.push(s[i]);
        assert(s@.subrange(a as int, i + 1) =~= s@.subrange(a as int, i as int).push(s@[i as int]));
        i = i + 1;
    }
    assert(st.take((b - a) as int) =~= s@.subrange(a as int, b as int));
    r
}

/// The characters of `s`.
pub fn chars_of(s: &str) -> (v: Vec<char>)
    ensures
        v@ == s@,
{
    let mut v: Vec<char> = Vec::new();
    for c in it: s.chars()
        invariant
            v@ == it.seq().take(it.index() as int),
    {
        v.push(c);
    }
    v
}

} // verus!
