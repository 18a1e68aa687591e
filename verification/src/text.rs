use vstd::prelude::*;

verus! {

/// The pieces of `s` between the occurrences of `sep`, as `str::split` with a
/// one-character pattern gives them: always at least one piece, empty pieces kept.
pub open spec fn split_on<A>(s: Seq<A>, sep: A) -> Seq<Seq<A>>
    decreases s.len(),
{
    if s.len() == 0 {
        seq![Seq::empty()]
    } else {
        let parts = split_on(s.drop_last(), sep);
        if s.last() == sep {
            parts.push(Seq::empty())
        } else {
            parts.update(parts.len() - 1, parts.last().push(s.last()))
        }
    }
}

pub proof fn lemma_split_on_nonempty<A>(s: Seq<A>, sep: A)
    ensures
        split_on(s, sep).len() >= 1,
    decreases s.len(),
{
    if s.len() > 0 {
        lemma_split_on_nonempty(s.drop_last(), sep);
    }
}

/// The contents of each vector of `v`.
pub open spec fn views(v: Seq<Vec<u8>>) -> Seq<Seq<u8>> {
    Seq::new(v.len(), |i: int| v[i]@)
}

/// No piece of a split is longer than what was split.
pub proof fn lemma_split_piece_len<A>(s: Seq<A>, sep: A, k: int)
    requires
        0 <= k < split_on(s, sep).len(),
    ensures
        split_on(s, sep)[k].len() <= s.len(),
    decreases s.len(),
{
    if s.len() > 0 {
        let parts = split_on(s.drop_last(), sep);
        lemma_split_on_nonempty(s.drop_last(), sep);
        if s.last() == sep {
            if k < parts.len() {
                lemma_split_piece_len(s.drop_last(), sep, k);
            }
        } else {
            lemma_split_piece_len(s.drop_last(), sep, if k < parts.len() - 1 {
                k
            } else {
                parts.len() - 1
            });
        }
    }
}

/// Splits `s` at every `sep`.
pub fn split_bytes(s: &[u8], sep: u8) -> (parts: Vec<Vec<u8>>)
    ensures
        views(parts@) == split_on(s@, sep),
{
    let mut parts: Vec<Vec<u8>> = Vec::new();
    let mut cur: Vec<u8> = Vec::new();
    let mut i: usize = 0;
    assert(s@.take(0) =~= Seq::<u8>::empty());
    assert(views(parts@).push(cur@) =~= seq![Seq::<u8>::empty()]);
    while i < s.len()
        invariant
            i <= s@.len(),
            split_on(s@.take(i as int), sep) == views(parts@).push(cur@),
        decreases s@.len() - i,
    {
        let ghost prev = s@.take(i as int);
        let b = s[i];
        assert(s@.take(i + 1).drop_last() =~= prev);
        assert(s@.take(i + 1).last() == b);
        if b == sep {
            let ghost old_parts = views(parts@);
            let done = cur;
            let ghost done_v = done@;
            parts.push(done);
            cur = Vec::new();
            assert(views(parts@) =~= old_parts.push(done_v));
            assert(split_on(s@.take(i + 1), sep) =~= views(parts@).push(cur@));
        } else {
            let ghost old_parts = views(parts@);
            cur.push(b);
            assert(split_on(s@.take(i + 1), sep) =~= views(parts@).push(cur@)) by {
                lemma_split_on_nonempty(prev, sep);
                assert(old_parts.push(cur@.drop_last()).last() == cur@.drop_last());
                assert(cur@.drop_last().push(b) =~= cur@);
            }
        }
        i = i + 1;
    }
    assert(s@.take(s@.len() as int) =~= s@);
    let ghost old_parts = views(parts@);
    let ghost cur_v = cur@;
    parts.push(cur);
    assert(views(parts@) =~= old_parts.push(cur_v));
    parts
}

pub open spec fn is_digit(b: u8) -> bool {
    48 <= b <= 57
}

pub open spec fn all_digits(s: Seq<u8>) -> bool {
    forall|i: int| 0 <= i < s.len() ==> is_digit(#[trigger] s[i])
}

/// The number that the decimal digits `s` write.
pub open spec fn digits_value(s: Seq<u8>) -> nat
    decreases s.len(),
{
    if s.len() == 0 {
        0
    } else {
        digits_value(s.drop_last()) * 10 + (s.last() - 48) as nat
    }
}

/// What `usize::from_str` gives for the bytes `s`: an optional `+` followed by at
/// least one decimal digit, with a value that fits in `usize`.
pub open spec fn parsed_usize(s: Seq<u8>) -> Option<usize> {
    let body = if s.len() > 0 && s[0] == 43 {
        s.drop_first()
    } else {
        s
    };
    if body.len() > 0 && all_digits(body) && digits_value(body) <= usize::MAX {
        Some(digits_value(body) as usize)
    } else {
        None
    }
}

proof fn lemma_digits_value_prefix(s: Seq<u8>, k: int)
    requires
        0 <= k <= s.len(),
        all_digits(s),
    ensures
        digits_value(s.take(k)) <= digits_value(s),
    decreases s.len() - k,
{
    if k < s.len() {
        lemma_digits_value_prefix(s, k + 1);
        assert(s.take(k + 1).drop_last() =~= s.take(k));
        assert(is_digit(s[k]));
        assert(digits_value(s.take(k + 1)) == digits_value(s.take(k)) * 10 + (s[k] - 48) as nat);
    } else {
        assert(s.take(k) =~= s);
    }
}

/// Parses a decimal `usize`, as `str::parse::<usize>` does.
pub fn parse_usize(s: &[u8]) -> (r: Option<usize>)
    ensures
        r == parsed_usize(s@),
{
    let mut start: usize = 0;
    if s.len() > 0 && s[0] == 43 {
        start = 1;
    }
    let ghost body = if s@.len() > 0 && s@[0] == 43 {
        s@.drop_first()
    } else {
        s@
    };
    assert(body =~= s@.subrange(start as int, s@.len() as int));
    if start >= s.len() {
        return None;
    }
    let mut v: usize = 0;
    let mut i: usize = start;
    while i < s.len()
        invariant
            start <= i <= s@.len(),
            body =~= s@.subrange(start as int, s@.len() as int),
            body == (if s@.len() > 0 && s@[0] == 43 {
                s@.drop_first()
            } else {
                s@
            }),
            all_digits(body.take(i - start)),
            v == digits_value(body.take(i - start)),
        decreases s@.len() - i,
    {
        let b = s[i];
        assert(body.take(i - start + 1).drop_last() =~= body.take(i - start));
        assert(body.take(i - start + 1).last() == b);
        if b < 48 || b > 57 {
            assert(!is_digit(body[i - start]));
            assert(!all_digits(body));
            return None;
        }
        let d: usize = (b - 48) as usize;
        let ghost next = body.take(i - start + 1);
        assert(all_digits(next)) by {
            assert forall|j: int| 0 <= j < next.len() implies is_digit(#[trigger] next[j]) by {
                if j < next.len() - 1 {
                    assert(next[j] == body.take(i - start)[j]);
                }
            }
        }
        assert(digits_value(next) == v * 10 + d);
        match v.checked_mul(10) {
            Some(m) => match m.checked_add(d) {
                Some(w) => {
                    v = w;
                },
                None => {
                    proof {
                        assert(all_digits(body.take(i - start + 1)));
                        if all_digits(body) {
                            lemma_digits_value_prefix(body, i - start + 1);
                        }
                    }
                    return None;
                },
            },
            None => {
                proof {
                    assert(v * 10 > usize::MAX);
                    assert(digits_value(next) > usize::MAX);
                    if all_digits(body) {
                        lemma_digits_value_prefix(body, i - start + 1);
                    }
                }
                return None;
            },
        }
        i = i + 1;
    }
    assert(body.take(s@.len() - start) =~= body);
    Some(v)
}


/// The index of the first `c` in `s`, if any.
pub open spec fn first_index_of(s: Seq<u8>, c: u8) -> Option<int>
    decreases s.len(),
{
    if s.len() == 0 {
        None
    } else if s[0] == c {
        Some(0)
    } else {
        match first_index_of(s.drop_first(), c) {
            Some(k) => Some(k + 1),
            None => None,
        }
    }
}

pub proof fn lemma_first_index_of(s: Seq<u8>, c: u8, k: int)
    requires
        0 <= k <= s.len(),
        forall|j: int| 0 <= j < k ==> s[j] != c,
    ensures
        k < s.len() && s[k] == c ==> first_index_of(s, c) == Some(k),
        k == s.len() ==> first_index_of(s, c) is None,
    decreases k,
{
    if k > 0 {
        lemma_first_index_of(s.drop_first(), c, k - 1);
    }
}

/// Finds the first `c` in `s`.
pub fn find_byte(s: &[u8], c: u8) -> (r: Option<usize>)
    ensures
        r matches Some(k) ==> first_index_of(s@, c) == Some(k as int) && k < s@.len() && s@[k as int] == c,
        r is None ==> first_index_of(s@, c) is None,
{
    let mut i: usize = 0;
    while i < s.len()
        invariant
            i <= s@.len(),
            forall|j: int| 0 <= j < i ==> s@[j] != c,
        decreases s@.len() - i,
    {
        if s[i] == c {
            proof {
                lemma_first_index_of(s@, c, i as int);
            }
            return Some(i);
        }
        i = i + 1;
    }
    proof {
        lemma_first_index_of(s@, c, i as int);
    }
    None
}


/// The index of the last `c` in `s`, if any.
pub open spec fn last_index_of(s: Seq<u8>, c: u8) -> Option<int>
    decreases s.len(),
{
    if s.len() == 0 {
        None
    } else if s.last() == c {
        Some(s.len() - 1)
    } else {
        last_index_of(s.drop_last(), c)
    }
}

pub proof fn lemma_last_index_of(s: Seq<u8>, c: u8, k: int)
    requires
        0 <= k <= s.len(),
        forall|j: int| k <= j < s.len() ==> s[j] != c,
    ensures
        k > 0 && s[k - 1] == c ==> last_index_of(s, c) == Some(k - 1),
        k == 0 ==> last_index_of(s, c) is None,
    decreases s.len() - k,
{
    if k < s.len() {
        lemma_last_index_of(s.drop_last(), c, k);
    }
}

/// Finds the last `c` in `s`.
pub fn rfind_byte(s: &[u8], c: u8) -> (r: Option<usize>)
    ensures
        r matches Some(k) ==> last_index_of(s@, c) == Some(k as int) && k < s@.len() && s@[k as int] == c,
        r is None ==> last_index_of(s@, c) is None,
{
    let mut i: usize = s.len();
    while i > 0
        invariant
            i <= s@.len(),
            forall|j: int| i <= j < s@.len() ==> s@[j] != c,
        decreases i,
    {
        if s[i - 1] == c {
            proof {
                lemma_last_index_of(s@, c, i as int);
            }
            return Some(i - 1);
        }
        i = i - 1;
    }
    proof {
        lemma_last_index_of(s@, c, 0);
    }
    None
}


/// `s` with every occurrence of the nonempty `pat` replaced by `rep`, the
/// occurrences taken from left to right without overlap, as `str::replace` does.
pub open spec fn replaced<A>(s: Seq<A>, pat: Seq<A>, rep: Seq<A>) -> Seq<A>
    decreases s.len(),
{
    if pat.len() == 0 || s.len() < pat.len() {
        s
    } else if s.take(pat.len() as int) == pat {
        rep + replaced(s.skip(pat.len() as int), pat, rep)
    } else {
        seq![s[0]] + replaced(s.drop_first(), pat, rep)
    }
}

/// Replacing in text that starts with the pattern gives the replacement, then the
/// rest with its own occurrences replaced; text in which the pattern never starts
/// is left as it is.
pub proof fn lemma_replaced_laws<A>(s: Seq<A>, pat: Seq<A>, rep: Seq<A>)
    requires
        pat.len() > 0,
    ensures
        replaced(pat + s, pat, rep) == rep + replaced(s, pat, rep),
        (forall|i: int| 0 <= i <= s.len() - pat.len() ==> #[trigger] s.subrange(i, i + pat.len()) != pat)
            ==> replaced(s, pat, rep) == s,
    decreases s.len(),
{
    assert((pat + s).take(pat.len() as int) =~= pat);
    assert((pat + s).skip(pat.len() as int) =~= s);
    if s.len() >= pat.len() {
        let r = s.drop_first();
        lemma_replaced_laws(r, pat, rep);
        if forall|i: int| 0 <= i <= s.len() - pat.len() ==> #[trigger] s.subrange(i, i + pat.len()) != pat {
            assert(s.take(pat.len() as int) =~= s.subrange(0, pat.len() as int));
            assert forall|i: int| 0 <= i <= r.len() - pat.len() implies #[trigger] r.subrange(i, i + pat.len()) != pat by {
                assert(r.subrange(i, i + pat.len()) =~= s.subrange(i + 1, i + 1 + pat.len()));
            }
            assert(seq![s[0]] + r =~= s);
        }
    }
}

/// Replaces every occurrence of `pat` in `s` by `rep`.
pub fn replace_bytes(s: &[u8], pat: &[u8], rep: &[u8]) -> (r: Vec<u8>)
    requires
        pat@.len() > 0,
    ensures
        r@ == replaced(s@, pat@, rep@),
{
    let mut out: Vec<u8> = Vec::new();
    let mut i: usize = 0;
    let n = s.len();
    let m = pat.len();
    assert(s@.skip(0) =~= s@);
    while i < n
        invariant
            n == s@.len(),
            m == pat@.len(),
            m > 0,
            i <= n,
            replaced(s@, pat@, rep@) == out@ + replaced(s@.skip(i as int), pat@, rep@),
        decreases n - i,
    {
        let ghost rest = s@.skip(i as int);
        if n - i >= m && starts_with_at(s, i, pat) {
            assert(rest.take(m as int) =~= pat@);
            let mut j: usize = 0;
            let ghost before = out@;
            while j < rep.len()
                invariant
                    j <= rep@.len(),
                    out@ == before + rep@.take(j as int),
                decreases rep@.len() - j,
            {
                out.push(rep[j]);
                assert(rep@.take(j + 1) =~= rep@.take(j as int).push(rep@[j as int]));
                j = j + 1;
            }
            assert(rep@.take(rep@.len() as int) =~= rep@);
            assert(rest.skip(m as int) =~= s@.skip(i + m));
            assert(out@ + replaced(s@.skip(i + m), pat@, rep@) =~= before + (rep@ + replaced(rest.skip(m as int), pat@, rep@)));
            i = i + m;
        } else {
            if n - i >= m {
                assert(rest.take(m as int) != pat@);
            }
            let ghost before = out@;
            out.push(s[i]);
            assert(rest.drop_first() =~= s@.skip(i + 1));
            assert(out@ + replaced(s@.skip(i + 1), pat@, rep@) =~= before + (seq![rest[0]] + replaced(rest.drop_first(), pat@, rep@)));
            i = i + 1;
        }
    }
    assert(s@.skip(n as int) =~= Seq::<u8>::empty());
    assert(out@ + Seq::<u8>::empty() =~= out@);
    out
}

/// Whether `pat` occurs in `s` at index `i`.
pub fn starts_with_at(s: &[u8], i: usize, pat: &[u8]) -> (b: bool)
    requires
        i + pat@.len() <= s@.len(),
    ensures
        b == (s@.subrange(i as int, i + pat@.len()) == pat@),
        b == (s@.skip(i as int).take(pat@.len() as int) == pat@),
{
    let mut j: usize = 0;
    let sl = s.len();
    assert(s@.skip(i as int).take(pat@.len() as int) =~= s@.subrange(i as int, i + pat@.len()));
    while j < pat.len()
        invariant
            sl == s@.len(),
            i + pat@.len() <= s@.len(),
            j <= pat@.len(),
            forall|k: int| 0 <= k < j ==> s@[i + k] == pat@[k],
        decreases pat@.len() - j,
    {
        if s[i + j] != pat[j] {
            assert(s@.subrange(i as int, i + pat@.len())[j as int] != pat@[j as int]);
            return false;
        }
        j = j + 1;
    }
    assert(s@.subrange(i as int, i + pat@.len()) =~= pat@);
    true
}

/// The decimal digits of `n`, without leading zeros.
pub open spec fn decimal(n: nat) -> Seq<u8>
    decreases n,
{
    if n < 10 {
        seq![(48 + n) as u8]
    } else {
        decimal(n / 10).push((48 + n % 10) as u8)
    }
}

/// Writes `n` in decimal.
pub fn format_usize(n: usize) -> (r: Vec<u8>)
    ensures
        r@ == decimal(n as nat),
    decreases n,
{
    if n < 10 {
        let mut r = Vec::new();
        r.push((48 + n) as u8);
        r
    } else {
        let mut r = format_usize(n / 10);
        r.push((48 + n % 10) as u8);
        r
    }
}

proof fn lemma_decimal_digits(n: nat)
    ensures
        all_digits(decimal(n)),
        decimal(n).len() > 0,
        digits_value(decimal(n)) == n,
        decimal(n)[0] != 43,
    decreases n,
{
    let d = decimal(n);
    if n >= 10 {
        lemma_decimal_digits(n / 10);
        assert(d.drop_last() =~= decimal(n / 10));
        assert(d[0] == decimal(n / 10)[0]);
        assert(d.last() == (48 + n % 10) as u8);
        assert(n == (n / 10) * 10 + n % 10);
        assert(digits_value(d) == digits_value(d.drop_last()) * 10 + (d.last() - 48) as nat);
    } else {
        assert(d.drop_last() =~= Seq::<u8>::empty());
        assert(digits_value(d) == digits_value(d.drop_last()) * 10 + (d.last() - 48) as nat);
    }
}

/// Parsing the decimal digits of a number gives the number back.
pub proof fn lemma_parse_decimal(n: usize)
    ensures
        parsed_usize(decimal(n as nat)) == Some(n),
{
    lemma_decimal_digits(n as nat);
}

/// Whether two byte strings are equal.
pub fn bytes_equal(a: &[u8], b: &[u8]) -> (r: bool)
    ensures
        r == (a@ == b@),
{
    if a.len() != b.len() {
        return false;
    }
    let mut i: usize = 0;
    while i < a.len()
        invariant
            a@.len() == b@.len(),
            i <= a@.len(),
            forall|j: int| 0 <= j < i ==> a@[j] == b@[j],
        decreases a@.len() - i,
    {
        if a[i] != b[i] {
            return false;
        }
        i = i + 1;
    }
    assert(a@ =~= b@);
    true
}

} // verus!
