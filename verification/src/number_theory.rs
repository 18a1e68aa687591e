use vstd::arithmetic::div_mod::{
    lemma_fundamental_div_mod, lemma_mod_multiples_basic, lemma_mul_mod_noop_general, lemma_small_mod,
    lemma_sub_mod_noop,
};
use vstd::arithmetic::power::pow;
use vstd::prelude::*;

verus! {

/// `n` is prime: above 1, and divisible by no number strictly between 1 and `n`.
pub open spec fn is_prime(n: nat) -> bool {
    n > 1 && forall|d: nat| 1 < d < n ==> #[trigger] (n % d) != 0
}

/// The greatest common divisor, by Euclid's algorithm.
pub open spec fn gcd(a: nat, b: nat) -> nat
    decreases b,
{
    if b == 0 {
        a
    } else {
        gcd(b, a % b)
    }
}

/// A multiple of `g`, plus a multiple of `g`, is a multiple of `g`.
proof fn lemma_multiple_sum(g: int, x: int, y: int, q: int)
    requires
        g > 0,
        x % g == 0,
        y % g == 0,
    ensures
        (q * x + y) % g == 0,
{
    lemma_fundamental_div_mod(x, g);
    lemma_fundamental_div_mod(y, g);
    let kx = x / g;
    let ky = y / g;
    assert(q * x + y == (q * kx + ky) * g) by (nonlinear_arith)
        requires
            x == g * kx,
            y == g * ky,
    ;
    lemma_mod_multiples_basic(q * kx + ky, g);
}

/// `gcd(a, b)` divides both, and is positive where one of them is.
proof fn lemma_gcd_divides(a: nat, b: nat)
    requires
        a > 0 || b > 0,
    ensures
        gcd(a, b) > 0,
        a % gcd(a, b) == 0,
        b % gcd(a, b) == 0,
    decreases b,
{
    if b == 0 {
        lemma_mod_multiples_basic(1, a as int);
        lemma_mod_multiples_basic(0, a as int);
    } else {
        let r = a % b;
        lemma_gcd_divides(b, r);
        let g = gcd(b, r);
        lemma_fundamental_div_mod(a as int, b as int);
        assert(a == (a / b) * b + r) by (nonlinear_arith)
            requires
                a == b * (a / b) + r,
        ;
        lemma_multiple_sum(g as int, b as int, r as int, (a / b) as int);
    }
}

/// A positive multiple of `g` is at least `g`.
proof fn lemma_divisor_le(g: nat, x: nat)
    requires
        g > 0,
        x > 0,
        x % g == 0,
    ensures
        g <= x,
{
    lemma_fundamental_div_mod(x as int, g as int);
    let k = x / g;
    assert(k >= 1) by (nonlinear_arith)
        requires
            x == g * k,
            x > 0,
            g > 0,
            k >= 0,
    ;
    assert(g <= x) by (nonlinear_arith)
        requires
            x == g * k,
            k >= 1,
            g > 0,
    ;
}

/// Where `p` divides `x * b` and `y * b`, it divides `gcd(x, y) * b`.
proof fn lemma_divides_gcd_times(x: nat, y: nat, b: int, p: int)
    requires
        p > 0,
        (x * b) % p == 0,
        (y * b) % p == 0,
    ensures
        (gcd(x, y) * b) % p == 0,
    decreases y,
{
    if y > 0 {
        let r = x % y;
        lemma_fundamental_div_mod(x as int, y as int);
        let q = (x / y) as int;
        assert(r * b == (-q) * (y * b) + x * b) by (nonlinear_arith)
            requires
                x == y * q + r,
        ;
        lemma_multiple_sum(p, y * b, x * b, -q);
        lemma_divides_gcd_times(y, r, b, p);
    }
}

/// Euclid's lemma: a prime that divides a product divides one of its factors.
pub proof fn lemma_euclid(p: nat, a: int, b: int)
    requires
        is_prime(p),
        (a * b) % (p as int) == 0,
    ensures
        a % (p as int) == 0 || b % (p as int) == 0,
{
    let pi = p as int;
    if a % pi != 0 {
        let x = (a % pi) as nat;
        lemma_mul_mod_noop_general(a, b, pi);
        assert((x * b) % pi == 0);
        lemma_mod_multiples_basic(b, pi);
        assert((p * b) % pi == 0) by {
            assert(p * b == b * pi) by (nonlinear_arith)
                requires
                    pi == p,
            ;
        }
        lemma_divides_gcd_times(x, p, b, pi);
        lemma_gcd_divides(x, p);
        let g = gcd(x, p);
        lemma_divisor_le(g, x);
        assert(g == 1) by {
            if g > 1 {
                assert(p % g != 0);
            }
        }
        assert(1 * b == b);
    }
}

/// The only square roots of 1 modulo a prime `p` are 1 and `p - 1`.
pub proof fn lemma_square_root_of_one(p: nat, x: int)
    requires
        is_prime(p),
        0 <= x < p,
        (x * x) % (p as int) == 1,
    ensures
        x == 1 || x == p - 1,
{
    let pi = p as int;
    lemma_small_mod(1, p);
    lemma_small_mod(0, p);
    if x == 0 {
        assert(x * x == 0);
    } else {
        assert((x - 1) * (x + 1) == x * x - 1) by (nonlinear_arith);
        lemma_sub_mod_noop(x * x, 1, pi);
        lemma_euclid(p, x - 1, x + 1);
        if (x - 1) % pi == 0 {
            lemma_small_mod((x - 1) as nat, p);
        } else if x + 1 < pi {
            lemma_small_mod((x + 1) as nat, p);
        }
    }
}

/// The product of the numbers of `s`.
pub open spec fn product(s: Seq<int>) -> int
    decreases s.len(),
{
    if s.len() == 0 {
        1
    } else {
        product(s.drop_last()) * s.last()
    }
}

/// The numbers from 1 to `n`.
pub open spec fn one_to(n: nat) -> Seq<int> {
    Seq::new(n, |i: int| i + 1)
}

/// The numbers `a * i` modulo `p`, for `i` from 1 to `n`.
pub open spec fn residues(a: int, p: int, n: nat) -> Seq<int> {
    Seq::new(n, |i: int| (a * (i + 1)) % p)
}

pub open spec fn all_distinct(s: Seq<int>) -> bool {
    forall|i: int, j: int| 0 <= i < j < s.len() ==> #[trigger] s[i] != #[trigger] s[j]
}

proof fn lemma_product_remove(s: Seq<int>, j: int)
    requires
        0 <= j < s.len(),
    ensures
        product(s) == product(s.remove(j)) * s[j],
    decreases s.len(),
{
    if j == s.len() - 1 {
        assert(s.remove(j) =~= s.drop_last());
    } else {
        let d = s.drop_last();
        lemma_product_remove(d, j);
        assert(s.remove(j).drop_last() =~= d.remove(j));
        assert(s.remove(j).last() == s.last());
        let a = product(d.remove(j));
        assert(a * s[j] * s.last() == a * s.last() * s[j]) by (nonlinear_arith);
    }
}

/// Distinct numbers from 1 to `m` are at most `m` of them.
proof fn lemma_no_room(s: Seq<int>, m: nat)
    requires
        all_distinct(s),
        forall|i: int| 0 <= i < s.len() ==> 1 <= #[trigger] s[i] <= m,
    ensures
        s.len() <= m,
    decreases m,
{
    if s.len() > 0 {
        if m == 0 {
            assert(1 <= s[0] <= m);
        } else if exists|j: int| 0 <= j < s.len() && s[j] == m {
            let j = choose|j: int| 0 <= j < s.len() && s[j] == m;
            let r = s.remove(j);
            assert forall|i: int| 0 <= i < r.len() implies 1 <= #[trigger] r[i] <= m - 1 by {
                if i < j {
                    assert(r[i] == s[i]);
                } else {
                    assert(r[i] == s[i + 1]);
                }
            }
            assert forall|a: int, b: int| 0 <= a < b < r.len() implies #[trigger] r[a] != #[trigger] r[b] by {
                let a2 = if a < j { a } else { a + 1 };
                let b2 = if b < j { b } else { b + 1 };
                assert(r[a] == s[a2] && r[b] == s[b2]);
            }
            lemma_no_room(r, (m - 1) as nat);
        } else {
            assert forall|i: int| 0 <= i < s.len() implies 1 <= #[trigger] s[i] <= m - 1 by {
                assert(s[i] != m);
            }
            lemma_no_room(s, (m - 1) as nat);
        }
    }
}

/// `n` distinct numbers from 1 to `n` multiply to `n!`.
proof fn lemma_permutation_product(s: Seq<int>, n: nat)
    requires
        s.len() == n,
        all_distinct(s),
        forall|i: int| 0 <= i < s.len() ==> 1 <= #[trigger] s[i] <= n,
    ensures
        product(s) == product(one_to(n)),
    decreases n,
{
    if n > 0 {
        if !(exists|j: int| 0 <= j < s.len() && s[j] == n) {
            assert forall|i: int| 0 <= i < s.len() implies 1 <= #[trigger] s[i] <= n - 1 by {
                assert(s[i] != n);
            }
            lemma_no_room(s, (n - 1) as nat);
        }
        let j = choose|j: int| 0 <= j < s.len() && s[j] == n;
        let r = s.remove(j);
        assert forall|i: int| 0 <= i < r.len() implies 1 <= #[trigger] r[i] <= n - 1 by {
            if i < j {
                assert(r[i] == s[i]);
            } else {
                assert(r[i] == s[i + 1]);
            }
        }
        assert forall|a: int, b: int| 0 <= a < b < r.len() implies #[trigger] r[a] != #[trigger] r[b] by {
            let a2 = if a < j { a } else { a + 1 };
            let b2 = if b < j { b } else { b + 1 };
            assert(r[a] == s[a2] && r[b] == s[b2]);
        }
        lemma_permutation_product(r, (n - 1) as nat);
        lemma_product_remove(s, j);
        assert(one_to(n).drop_last() =~= one_to((n - 1) as nat));
    }
}

/// Multiplying by `a` modulo `p` takes 1 to `p - 1` to distinct numbers of the
/// same range, where `p` is a prime that does not divide `a`.
proof fn lemma_residues_permute(a: int, p: nat)
    requires
        is_prime(p),
        a % (p as int) != 0,
    ensures
        all_distinct(residues(a, p as int, (p - 1) as nat)),
        forall|i: int|
            0 <= i < p - 1 ==> 1 <= #[trigger] residues(a, p as int, (p - 1) as nat)[i] <= p - 1,
{
    let pi = p as int;
    let s = residues(a, pi, (p - 1) as nat);
    assert forall|i: int| 0 <= i < p - 1 implies 1 <= #[trigger] s[i] <= p - 1 by {
        lemma_small_mod((i + 1) as nat, p);
        if s[i] == 0 {
            lemma_euclid(p, a, i + 1);
        }
    }
    assert forall|i: int, j: int| 0 <= i < j < s.len() implies #[trigger] s[i] != #[trigger] s[j] by {
        if s[i] == s[j] {
            lemma_sub_mod_noop(a * (j + 1), a * (i + 1), pi);
            lemma_small_mod(0, p);
            assert(a * (j + 1) - a * (i + 1) == a * (j - i)) by (nonlinear_arith);
            lemma_euclid(p, a, j - i);
            lemma_small_mod((j - i) as nat, p);
        }
    }
}

/// The product of the residues is `a^k * k!` modulo `p`.
proof fn lemma_residues_product(a: int, p: int, k: nat)
    requires
        p > 0,
    ensures
        product(residues(a, p, k)) % p == (pow(a, k) * product(one_to(k))) % p,
    decreases k,
{
    if k > 0 {
        let k1 = (k - 1) as nat;
        lemma_residues_product(a, p, k1);
        assert(residues(a, p, k).drop_last() =~= residues(a, p, k1));
        assert(one_to(k).drop_last() =~= one_to(k1));
        let r = product(residues(a, p, k1));
        let f = product(one_to(k1));
        let w = pow(a, k1);
        let m = a * k;
        assert(residues(a, p, k).last() == m % p);
        assert(product(residues(a, p, k)) == r * (m % p));
        assert(pow(a, k) == a * w) by {
            reveal(pow);
        }
        assert(product(one_to(k)) == f * k);
        lemma_mul_mod_noop_general(r, m, p);
        lemma_mul_mod_noop_general(w * f, m, p);
        assert((r * (m % p)) % p == ((r % p) * m) % p);
        assert(((r % p) * m) % p == (((w * f) % p) * m) % p);
        assert((((w * f) % p) * m) % p == ((w * f) * m) % p);
        assert((w * f) * m == (a * w) * (f * k)) by (nonlinear_arith)
            requires
                m == a * k,
        ;
    } else {
        assert(pow(a, 0) == 1) by {
            reveal(pow);
        }
    }
}

/// The factorial of a number below a prime `p` is not a multiple of `p`.
proof fn lemma_factorial_coprime(p: nat, k: nat)
    requires
        is_prime(p),
        k < p,
    ensures
        product(one_to(k)) % (p as int) != 0,
    decreases k,
{
    if k == 0 {
        lemma_small_mod(1, p);
    } else {
        let k1 = (k - 1) as nat;
        lemma_factorial_coprime(p, k1);
        assert(one_to(k).drop_last() =~= one_to(k1));
        lemma_small_mod(k, p);
        if product(one_to(k)) % (p as int) == 0 {
            lemma_euclid(p, product(one_to(k1)), k as int);
        }
    }
}

/// Fermat's little theorem: `a^(p - 1)` is 1 modulo a prime `p` that does not
/// divide `a`.
pub proof fn lemma_fermat(p: nat, a: int)
    requires
        is_prime(p),
        a % (p as int) != 0,
    ensures
        pow(a, (p - 1) as nat) % (p as int) == 1,
{
    let pi = p as int;
    let n = (p - 1) as nat;
    lemma_residues_permute(a, p);
    lemma_permutation_product(residues(a, pi, n), n);
    lemma_residues_product(a, pi, n);
    lemma_factorial_coprime(p, n);
    let f = product(one_to(n));
    let w = pow(a, n);
    lemma_sub_mod_noop(w * f, f, pi);
    lemma_small_mod(0, p);
    assert(w * f - f == (w - 1) * f) by (nonlinear_arith);
    lemma_euclid(p, w - 1, f);
    lemma_fundamental_div_mod(w - 1, pi);
    lemma_small_mod(1, p);
    let q = (w - 1) / pi;
    assert(w == q * pi + 1) by (nonlinear_arith)
        requires
            w - 1 == pi * q + 0,
    ;
    vstd::arithmetic::div_mod::lemma_fundamental_div_mod_converse(w, pi, q, 1);
}

} // verus!
