use vstd::prelude::*;

use crate::text::{replaced, split_on};
use crate::unicode::{alphanumeric, char_width, chars_of, is_alphanumeric, trim_chars, trimmed, utf8_len};

verus! {

/// A Boguscoin address: starts with `7`, is 26 to 35 bytes long and holds only
/// alphanumeric characters.
pub open spec fn is_boguscoin(x: Seq<char>) -> bool {
    &&& x.len() > 0
    &&& x[0] == '7'
    &&& 26 <= utf8_len(x) <= 35
    &&& forall|i: int| 0 <= i < x.len() ==> alphanumeric(#[trigger] x[i])
}

/// The address that replaces every Boguscoin address.
pub open spec fn tony_address() -> Seq<char> {
    seq![
        '7', 'Y', 'W', 'H', 'M', 'f', 'k', '9', 'J', 'Z', 'e', '0', 'L', 'M', '0', 'g', '1', 'Z',
        'a', 'u', 'H', 'u', 'i', 'S', 'x', 'h', 'I',
    ]
}

/// The addresses in `words`, trimmed, in order.
pub open spec fn addresses_in(words: Seq<Seq<char>>) -> Seq<Seq<char>>
    decreases words.len(),
{
    if words.len() == 0 {
        Seq::empty()
    } else {
        let prev = addresses_in(words.drop_last());
        if is_boguscoin(trimmed(words.last())) {
            prev.push(trimmed(words.last()))
        } else {
            prev
        }
    }
}

/// The addresses that a line's words hold are all of its words, trimmed, that are
/// Boguscoin addresses, in order: none is left out and nothing else is taken.
pub proof fn lemma_addresses_are_the_boguscoin_words(words: Seq<Seq<char>>)
    ensures
        addresses_in(words) == words.map_values(|w: Seq<char>| trimmed(w)).filter(
            |x: Seq<char>| is_boguscoin(x),
        ),
    decreases words.len(),
{
    let f = |w: Seq<char>| trimmed(w);
    let p = |x: Seq<char>| is_boguscoin(x);
    if words.len() == 0 {
        reveal(Seq::filter);
        assert(words.map_values(f) =~= Seq::<Seq<char>>::empty());
    } else {
        let d = words.drop_last();
        lemma_addresses_are_the_boguscoin_words(d);
        assert(words.map_values(f) =~= d.map_values(f).push(trimmed(words.last())));
        d.map_values(f).lemma_filter_push(trimmed(words.last()), p);
    }
}

proof fn lemma_addresses_none(words: Seq<Seq<char>>)
    requires
        forall|i: int| 0 <= i < words.len() ==> !is_boguscoin(trimmed(#[trigger] words[i])),
    ensures
        addresses_in(words) == Seq::<Seq<char>>::empty(),
    decreases words.len(),
{
    if words.len() > 0 {
        let d = words.drop_last();
        assert forall|i: int| 0 <= i < d.len() implies !is_boguscoin(trimmed(#[trigger] d[i])) by {
            assert(d[i] == words[i]);
        }
        lemma_addresses_none(d);
        assert(!is_boguscoin(trimmed(words[words.len() - 1])));
    }
}

proof fn lemma_addresses_one(words: Seq<Seq<char>>, k: int)
    requires
        0 <= k < words.len(),
        is_boguscoin(trimmed(words[k])),
        forall|i: int| 0 <= i < words.len() && i != k ==> !is_boguscoin(trimmed(#[trigger] words[i])),
    ensures
        addresses_in(words) == seq![trimmed(words[k])],
    decreases words.len(),
{
    let d = words.drop_last();
    if k == words.len() - 1 {
        assert forall|i: int| 0 <= i < d.len() implies !is_boguscoin(trimmed(#[trigger] d[i])) by {
            assert(d[i] == words[i]);
        }
        lemma_addresses_none(d);
        assert(Seq::<Seq<char>>::empty().push(trimmed(words[k])) =~= seq![trimmed(words[k])]);
    } else {
        assert forall|i: int| 0 <= i < d.len() && i != k implies !is_boguscoin(trimmed(#[trigger] d[i])) by {
            assert(d[i] == words[i]);
        }
        assert(d[k] == words[k]);
        lemma_addresses_one(d, k);
        assert(!is_boguscoin(trimmed(words[words.len() - 1])));
    }
}

/// Where exactly one word of a line is a Boguscoin address `a` (once trimmed),
/// the line comes out with every occurrence of `a` replaced by Tony's address.
pub proof fn lemma_one_address_rewritten(msg: Seq<char>, k: int)
    requires
        0 <= k < split_on(msg, ' ').len(),
        is_boguscoin(trimmed(split_on(msg, ' ')[k])),
        forall|i: int|
            0 <= i < split_on(msg, ' ').len() && i != k ==> !is_boguscoin(
                trimmed(#[trigger] split_on(msg, ' ')[i]),
            ),
    ensures
        rewritten(msg) == replaced(msg, trimmed(split_on(msg, ' ')[k]), tony_address()),
{
    let words = split_on(msg, ' ');
    lemma_addresses_one(words, k);
    let addrs = addresses_in(words);
    assert(addrs.drop_last() =~= Seq::<Seq<char>>::empty());
    assert(replace_all_addresses(msg, addrs.drop_last()) == msg);
}

/// A line with no Boguscoin address among its words is passed on as it is.
pub proof fn lemma_no_address_unchanged(msg: Seq<char>)
    requires
        forall|i: int|
            0 <= i < split_on(msg, ' ').len() ==> !is_boguscoin(trimmed(#[trigger] split_on(msg, ' ')[i])),
    ensures
        rewritten(msg) == msg,
{
    let words = split_on(msg, ' ');
    lemma_addresses_are_the_boguscoin_words(words);
    let t = words.map_values(|w: Seq<char>| trimmed(w));
    let p = |x: Seq<char>| is_boguscoin(x);
    t.filter_lemma(p);
    if t.filter(p).len() > 0 {
        let x = t.filter(p)[0];
        assert(p(x));
        assert(t.filter(p).contains(x));
        t.lemma_filter_contains_rev(p, x);
        assert(t.contains(x));
        let i = choose|i: int| 0 <= i < t.len() && t[i] == x;
        assert(t[i] == trimmed(words[i]));
    }
    assert(addresses_in(words).len() == 0);
}

/// `s` after replacing each address of `addrs` in turn by Tony's.
pub open spec fn replace_all_addresses(s: Seq<char>, addrs: Seq<Seq<char>>) -> Seq<char>
    decreases addrs.len(),
{
    if addrs.len() == 0 {
        s
    } else {
        replaced(replace_all_addresses(s, addrs.drop_last()), addrs.last(), tony_address())
    }
}

/// A chat line with every Boguscoin address among its space-separated words
/// replaced by Tony's.
pub open spec fn rewritten(msg: Seq<char>) -> Seq<char> {
    replace_all_addresses(msg, addresses_in(split_on(msg, ' ')))
}

fn split_chars(s: &[char], sep: char) -> (parts: Vec<Vec<char>>)
    ensures
        parts@.map_values(|p: Vec<char>| p@) == split_on(s@, sep),
{
    let mut parts: Vec<Vec<char>> = Vec::new();
    let mut cur: Vec<char> = Vec::new();
    let mut i: usize = 0;
    assert(s@.take(0) =~= Seq::<char>::empty());
    assert(parts@.map_values(|p: Vec<char>| p@).push(cur@) =~= seq![Seq::<char>::empty()]);
    while i < s.len()
        invariant
            i <= s@.len(),
            split_on(s@.take(i as int), sep) == parts@.map_values(|p: Vec<char>| p@).push(cur@),
        decreases s@.len() - i,
    {
        let ghost prev = s@.take(i as int);
        let ghost old_parts = parts@.map_values(|p: Vec<char>| p@);
        let c = s[i];
        assert(s@.take(i + 1).drop_last() =~= prev);
        assert(s@.take(i + 1).last() == c);
        if c == sep {
            let done = cur;
            let ghost done_v = done@;
            parts.push(done);
            cur = Vec::new();
            assert(parts@.map_values(|p: Vec<char>| p@) =~= old_parts.push(done_v));
            assert(split_on(s@.take(i + 1), sep) =~= parts@.map_values(|p: Vec<char>| p@).push(
                cur@,
            ));
        } else {
            cur.push(c);
            assert(split_on(s@.take(i + 1), sep) =~= parts@.map_values(|p: Vec<char>| p@).push(
                cur@,
            )) by {
                crate::text::lemma_split_on_nonempty(prev, sep);
                assert(old_parts.push(cur@.drop_last()).last() == cur@.drop_last());
                assert(cur@.drop_last().push(c) =~= cur@);
            }
        }
        i = i + 1;
    }
    assert(s@.take(s@.len() as int) =~= s@);
    let ghost old_parts = parts@.map_values(|p: Vec<char>| p@);
    let ghost cur_v = cur@;
    parts.push(cur);
    assert(parts@.map_values(|p: Vec<char>| p@) =~= old_parts.push(cur_v));
    parts
}

fn width(c: char) -> (w: usize)
    ensures
        w == char_width(c),
{
    let u = c as u32;
    if u < 0x80 {
        1
    } else if u < 0x800 {
        2
    } else if u < 0x10000 {
        3
    } else {
        4
    }
}

/// Whether `x` is a Boguscoin address.
pub fn is_boguscoin_address(x: &[char]) -> (b: bool)
    ensures
        b == is_boguscoin(x@),
{
    if x.len() == 0 || x[0] != '7' {
        return false;
    }
    let mut len: usize = 0;
    let mut i: usize = 0;
    while i < x.len()
        invariant
            i <= x@.len(),
            len == utf8_len(x@.take(i as int)),
            len <= 35,
            forall|j: int| 0 <= j < i ==> alphanumeric(#[trigger] x@[j]),
        decreases x@.len() - i,
    {
        assert(x@.take(i + 1).drop_last() =~= x@.take(i as int));
        len = len + width(x[i]);
        if len > 35 {
            proof {
                lemma_utf8_len_prefix(x@, i + 1);
            }
            return false;
        }
        if !is_alphanumeric(x[i]) {
            return false;
        }
        i = i + 1;
    }
    assert(x@.take(x@.len() as int) =~= x@);
    len >= 26
}

proof fn lemma_utf8_len_prefix(s: Seq<char>, k: int)
    requires
        0 <= k <= s.len(),
    ensures
        utf8_len(s.take(k)) <= utf8_len(s),
    decreases s.len() - k,
{
    if k < s.len() {
        lemma_utf8_len_prefix(s, k + 1);
        assert(s.take(k + 1).drop_last() =~= s.take(k));
    } else {
        assert(s.take(k) =~= s);
    }
}

/// Replaces every occurrence of `pat` in `s` by `rep`.
fn replace_chars(s: &[char], pat: &[char], rep: &[char]) -> (r: Vec<char>)
    requires
        pat@.len() > 0,
    ensures
        r@ == replaced(s@, pat@, rep@),
{
    let mut out: Vec<char> = Vec::new();
    let mut i: usize = 0;
    let n = s.len();
    let m = pat.len();
    assert(s@.skip(0) =~= s@);
    while i < n
        invariant
            n == s@.len(),
            m == pat@.len(),
            m > 0,
            i <= n,
            replaced(s@, pat@, rep@) == out@ + replaced(s@.skip(i as int), pat@, rep@),
        decreases n - i,
    {
        let ghost rest = s@.skip(i as int);
        let mut matches = n - i >= m;
        let mut j: usize = 0;
        while matches && j < m
            invariant
                n == s@.len(),
                m == pat@.len(),
                i <= n,
                j <= m,
                matches ==> n - i >= m,
                matches ==> forall|k: int| 0 <= k < j ==> s@[i + k] == pat@[k],
                !matches ==> (n - i >= m ==> rest.take(m as int) != pat@),
                !matches ==> n - i < m || rest.take(m as int) != pat@,
                rest == s@.skip(i as int),
            decreases m - j + (if matches {
                1int
            } else {
                0int
            }),
        {
            if s[i + j] != pat[j] {
                assert(rest.take(m as int)[j as int] != pat@[j as int]);
                matches = false;
            } else {
                j = j + 1;
            }
        }
        if matches {
            assert(rest.take(m as int) =~= pat@);
            let mut k: usize = 0;
            let ghost before = out@;
            while k < rep.len()
                invariant
                    k <= rep@.len(),
                    out@ == before + rep@.take(k as int),
                decreases rep@.len() - k,
            {
                out.push(rep[k]);
                assert(rep@.take(k + 1) =~= rep@.take(k as int).push(rep@[k as int]));
                k = k + 1;
            }
            assert(rep@.take(rep@.len() as int) =~= rep@);
            assert(rest.skip(m as int) =~= s@.skip(i + m));
            assert(out@ + replaced(s@.skip(i + m), pat@, rep@) =~= before + (rep@ + replaced(
                rest.skip(m as int),
                pat@,
                rep@,
            )));
            i = i + m;
        } else {
            let ghost before = out@;
            out.push(s[i]);
            assert(rest.drop_first() =~= s@.skip(i + 1));
            assert(out@ + replaced(s@.skip(i + 1), pat@, rep@) =~= before + (seq![rest[0]]
                + replaced(rest.drop_first(), pat@, rep@)));
            i = i + 1;
        }
    }
    assert(s@.skip(n as int) =~= Seq::<char>::empty());
    assert(out@ + Seq::<char>::empty() =~= out@);
    out
}

/// Rewrites a chat line: every Boguscoin address among its space-separated words
/// becomes Tony's.
pub fn rewrite_address(msg: &str) -> (r: Vec<char>)
    ensures
        r@ == rewritten(msg@),
{
    let chars = chars_of(msg);
    let words = split_chars(chars.as_slice(), ' ');
    let ghost ws = split_on(msg@, ' ');
    let mut addresses: Vec<Vec<char>> = Vec::new();
    let mut i: usize = 0;
    while i < words.len()
        invariant
            words@.map_values(|p: Vec<char>| p@) == ws,
            i <= words@.len(),
            addresses@.map_values(|p: Vec<char>| p@) == addresses_in(ws.take(i as int)),
            forall|k: int| 0 <= k < addresses@.len() ==> (#[trigger] addresses@[k])@.len() > 0,
        decreases words@.len() - i,
    {
        assert(ws.take(i + 1).drop_last() =~= ws.take(i as int));
        assert(ws.take(i + 1).last() == words@[i as int]@);
        let x = trim_chars(words[i].as_slice());
        if is_boguscoin_address(x.as_slice()) {
            let ghost old_a = addresses@.map_values(|p: Vec<char>| p@);
            let ghost xv = x@;
            addresses.push(x);
            assert(addresses@.map_values(|p: Vec<char>| p@) =~= old_a.push(xv));
        }
        i = i + 1;
    }
    assert(ws.take(words@.len() as int) =~= ws);
    let tony: Vec<char> = vec![
        '7', 'Y', 'W', 'H', 'M', 'f', 'k', '9', 'J', 'Z', 'e', '0', 'L', 'M', '0', 'g', '1', 'Z',
        'a', 'u', 'H', 'u', 'i', 'S', 'x', 'h', 'I',
    ];
    assert(tony@ =~= tony_address());
    let ghost addrs = addresses_in(ws);
    let mut res = chars;
    let mut k: usize = 0;
    while k < addresses.len()
        invariant
            addresses@.map_values(|p: Vec<char>| p@) == addrs,
            forall|j: int| 0 <= j < addresses@.len() ==> (#[trigger] addresses@[j])@.len() > 0,
            k <= addresses@.len(),
            tony@ == tony_address(),
            res@ == replace_all_addresses(msg@, addrs.take(k as int)),
        decreases addresses@.len() - k,
    {
        assert(addrs.take(k + 1).drop_last() =~= addrs.take(k as int));
        assert(addrs.take(k + 1).last() == addresses@[k as int]@);
        assert(addresses@[k as int]@.len() > 0);
        res = replace_chars(res.as_slice(), addresses[k].as_slice(), tony.as_slice());
        k = k + 1;
    }
    assert(addrs.take(addresses@.len() as int) =~= addrs);
    res
}

} // verus!
