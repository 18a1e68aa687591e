use vstd::arithmetic::div_mod::{lemma_mod_bound, lemma_mul_mod_noop_general, lemma_small_mod};
use vstd::arithmetic::power::{lemma_pow0, lemma_pow1, lemma_pow_adds, lemma_pow_mod_noop, lemma_pow_multiplies, lemma_square_is_pow2, pow};
use vstd::arithmetic::power2::{lemma_pow2_pos, lemma_pow2_unfold, pow2};
use crate::number_theory::{is_prime, lemma_fermat, lemma_square_root_of_one};
use vstd::prelude::*;

verus! {

/// `(a * b) % m`, computed in 128 bits.
pub fn mod_mul_(a: u64, b: u64, m: u64) -> (r: u64)
    requires
        m > 0,
    ensures
        r == (a as int * b as int) % (m as int),
{
    assert((a as u128) * (b as u128) <= u128::MAX) by (nonlinear_arith)
        requires
            a <= u64::MAX,
            b <= u64::MAX,
    ;
    let p: u128 = (a as u128) * (b as u128);
    let r: u128 = p % (m as u128);
    assert(r < m);
    r as u64
}

/// `(a * b) % m`, in 64 bits where the product fits.
pub fn mod_mul(a: u64, b: u64, m: u64) -> (r: u64)
    requires
        m > 0,
    ensures
        r == (a as int * b as int) % (m as int),
{
    match a.checked_mul(b) {
        Some(r) => if r >= m {
            r % m
        } else {
            proof {
                lemma_small_mod(r as nat, m as nat);
            }
            r
        },
        None => mod_mul_(a, b, m),
    }
}

/// `(a * a) % m`.
pub fn mod_sqr(a: u64, m: u64) -> (r: u64)
    requires
        m > 0,
    ensures
        r == (a as int * a as int) % (m as int),
{
    let bound: u64 = 1u64 << 32u64;
    assert(bound == 0x1_0000_0000) by (bit_vector)
        requires
            bound == 1u64 << 32u64,
    ;
    if a < bound {
        assert(a * a < 0x1_0000_0000_0000_0000) by (nonlinear_arith)
            requires
                a < 0x1_0000_0000,
        ;
        let r = a * a;
        if r >= m {
            r % m
        } else {
            proof {
                lemma_small_mod(r as nat, m as nat);
            }
            r
        }
    } else {
        mod_mul_(a, a, m)
    }
}

proof fn lemma_pow_double(x: int, e: nat)
    ensures
        pow(x, 2 * e) == pow(x * x, e),
{
    lemma_pow_multiplies(x, 2, e);
    lemma_square_is_pow2(x);
}

/// `x` to the power `d`, modulo `n` (1 where `d` is 0, whatever `n`).
pub fn mod_exp(x: u64, d: u64, n: u64) -> (r: u64)
    requires
        n > 0 || d == 0,
    ensures
        d == 0 ==> r == 1,
        d > 0 ==> r == pow(x as int, d as nat) % (n as int),
{
    let ghost x0 = x;
    let ghost d0 = d;
    let mut x = x;
    let mut d = d;
    let mut ret: u64 = 1;
    if d == 0 {
        return ret;
    }
    proof {
        lemma_pow1(pow(x0 as int, d0 as nat));
    }
    while d != 0
        invariant
            n > 0,
            d0 > 0,
            ret < n || d > 0,
            (ret as int * pow(x as int, d as nat)) % (n as int) == pow(x0 as int, d0 as nat) % (
            n as int),
        decreases d,
    {
        let ghost old_ret = ret;
        let ghost old_x = x;
        let ghost old_d = d;
        let half = d / 2;
        if d % 2 == 1 {
            ret = mod_mul(ret, x, n);
        }
        d = d / 2;
        x = mod_sqr(x, n);
        proof {
            let n_ = n as int;
            let xx = old_x as int * old_x as int;
            lemma_pow_double(old_x as int, half as nat);
            lemma_pow_mod_noop(xx, half as nat, n_);
            let p = pow(xx, half as nat);
            if old_d % 2 == 1 {
                assert(old_d as nat == 2 * half + 1);
                lemma_pow_adds(old_x as int, 2 * half as nat, 1);
                lemma_pow1(old_x as int);
                assert(pow(old_x as int, old_d as nat) == pow(old_x as int, 2 * half as nat) * old_x);
                lemma_mul_mod_noop_general(old_ret as int * old_x as int, p, n_);
                lemma_mul_mod_noop_general(ret as int, pow(x as int, d as nat), n_);
                assert((ret as int * pow(x as int, d as nat)) % n_ == ((old_ret as int * old_x as int) * p) % n_);
                assert((old_ret as int * old_x as int) * p == old_ret as int * (p * old_x as int)) by (nonlinear_arith);
            } else {
                assert(old_d as nat == 2 * half);
                lemma_mul_mod_noop_general(old_ret as int, p, n_);
                lemma_mul_mod_noop_general(ret as int, pow(x as int, d as nat), n_);
            }
        }
    }
    proof {
        lemma_pow0(x as int);
        lemma_small_mod(ret as nat, n as nat);
    }
    ret
}


/// The odd part of `m`: `m` without its factors of two.
pub open spec fn odd_part(m: nat) -> nat
    decreases m,
{
    if m > 0 && m % 2 == 0 {
        odd_part(m / 2)
    } else {
        m
    }
}

/// The number of factors of two in `m` (0 where `m` is 0).
pub open spec fn twos(m: nat) -> nat
    decreases m,
{
    if m > 0 && m % 2 == 0 {
        twos(m / 2) + 1
    } else {
        0
    }
}

/// `a` to the power `d * 2^j`, modulo `n`: the `j`-th term of the squaring chain
/// that the Miller-Rabin test walks.
pub open spec fn chain(a: int, d: nat, j: nat, n: int) -> int {
    pow(a, d * pow2(j)) % n
}

/// `n` is a strong probable prime to base `a`: writing `n - 1` as `d * 2^s` with
/// `d` odd, either `a^d` is 1 modulo `n`, or one of `a^d`, `a^(2d)`, ...,
/// `a^(d * 2^s)` is `n - 1` modulo `n`.
pub open spec fn strong_probable_prime(n: nat, a: nat) -> bool {
    let d = odd_part((n - 1) as nat);
    let s = twos((n - 1) as nat);
    ||| pow(a as int, d) % (n as int) == 1
    ||| exists|j: nat| j <= s && #[trigger] chain(a as int, d, j, n as int) == n - 1
}

/// The bases that the test tries for `n`: the smallest sets known to decide
/// primality for all numbers up to the bound of each line.
pub open spec fn witnesses(n: u64) -> Seq<u64> {
    if n <= 2_046 {
        seq![2]
    } else if n <= 1_373_652 {
        seq![2, 3]
    } else if n <= 9_080_190 {
        seq![31, 73]
    } else if n <= 25_326_000 {
        seq![2, 3, 5]
    } else if n <= 4_759_123_140 {
        seq![2, 7, 61]
    } else if n <= 1_112_004_669_632 {
        seq![2, 13, 23, 1662803]
    } else if n <= 2_152_302_898_746 {
        seq![2, 3, 5, 7, 11]
    } else if n <= 3_474_749_660_382 {
        seq![2, 3, 5, 7, 11, 13]
    } else if n <= 341_550_071_728_320 {
        seq![2, 3, 5, 7, 11, 13, 17]
    } else if n <= 3_825_123_056_546_413_050 {
        seq![2, 3, 5, 7, 11, 13, 17, 19, 23]
    } else {
        seq![2, 3, 5, 7, 11, 13, 17, 19, 23, 29, 31, 37]
    }
}

/// What the deterministic Miller-Rabin test answers for `n`: even numbers are
/// prime only when they are 2, 1 is not, and an odd `n > 1` is when it is a strong
/// probable prime to every base of `witnesses(n)`.
pub open spec fn passes_miller_rabin(n: u64) -> bool {
    if n % 2 == 0 {
        n == 2
    } else if n == 1 {
        false
    } else {
        forall|i: int|
            0 <= i < witnesses(n).len() ==> strong_probable_prime(
                n as nat,
                #[trigger] witnesses(n)[i] as nat,
            )
    }
}

fn witnesses_for(n: u64) -> (w: Vec<u64>)
    ensures
        w@ == witnesses(n),
{
    if n <= 2_046 {
        vec![2]
    } else if n <= 1_373_652 {
        vec![2, 3]
    } else if n <= 9_080_190 {
        vec![31, 73]
    } else if n <= 25_326_000 {
        vec![2, 3, 5]
    } else if n <= 4_759_123_140 {
        vec![2, 7, 61]
    } else if n <= 1_112_004_669_632 {
        vec![2, 13, 23, 1662803]
    } else if n <= 2_152_302_898_746 {
        vec![2, 3, 5, 7, 11]
    } else if n <= 3_474_749_660_382 {
        vec![2, 3, 5, 7, 11, 13]
    } else if n <= 341_550_071_728_320 {
        vec![2, 3, 5, 7, 11, 13, 17]
    } else if n <= 3_825_123_056_546_413_050 {
        vec![2, 3, 5, 7, 11, 13, 17, 19, 23]
    } else {
        vec![2, 3, 5, 7, 11, 13, 17, 19, 23, 29, 31, 37]
    }
}

proof fn lemma_chain_step(a: int, d: nat, j: nat, n: int)
    requires
        n > 0,
    ensures
        chain(a, d, j + 1, n) == (chain(a, d, j, n) * chain(a, d, j, n)) % n,
{
    let e = d * pow2(j);
    lemma_pow2_unfold(j + 1);
    assert(d * pow2(j + 1) == 2 * e) by (nonlinear_arith)
        requires
            pow2(j + 1) == 2 * pow2(j),
            e == d * pow2(j),
    ;
    lemma_pow_multiplies(a, e, 2);
    assert(e * 2 == 2 * e);
    lemma_square_is_pow2(pow(a, e));
    lemma_mul_mod_noop_general(pow(a, e), pow(a, e), n);
}

proof fn lemma_chain_one_stays(a: int, d: nat, j: nat, k: nat, n: int)
    requires
        n > 1,
        j <= k,
        chain(a, d, j, n) == 1,
    ensures
        chain(a, d, k, n) == 1,
    decreases k - j,
{
    if j < k {
        lemma_chain_step(a, d, j, n);
        lemma_small_mod(1, n as nat);
        lemma_chain_one_stays(a, d, j + 1, k, n);
    }
}

/// Whether the odd `n > 2`, with `n - 1 == d * 2^s` and `d` odd, is a strong
/// probable prime to base `a`.
fn is_strong_probable_prime(a: u64, d: u64, s: u64, n: u64) -> (r: bool)
    requires
        n > 2,
        d == odd_part((n - 1) as nat),
        s == twos((n - 1) as nat),
        d > 0,
    ensures
        r == strong_probable_prime(n as nat, a as nat),
{
    let mut power = mod_exp(a, d, n);
    assert(power < n) by {
        lemma_mod_bound(pow(a as int, d as nat), n as int);
    }
    proof {
        lemma_pow2_pos(0);
        assert(pow2(0) == 1) by {
            vstd::arithmetic::power2::lemma_pow2(0);
            lemma_pow0(2);
        }
        assert(d * pow2(0) == d);
        assert(chain(a as int, d as nat, 0, n as int) == power);
    }
    if power == 1 || power == n - 1 {
        return true;
    }
    let mut r: u64 = 0;
    while r < s
        invariant
            n > 2,
            d == odd_part((n - 1) as nat),
            s == twos((n - 1) as nat),
            r <= s,
            power == chain(a as int, d as nat, r as nat, n as int),
            pow(a as int, d as nat) % (n as int) != 1,
            forall|j: nat| j <= r ==> #[trigger] chain(a as int, d as nat, j, n as int) != n - 1,
        decreases s - r,
    {
        proof {
            lemma_chain_step(a as int, d as nat, r as nat, n as int);
        }
        power = mod_sqr(power, n);
        assert(power < n) by {
            lemma_mod_bound(power as int, n as int);
        }
        r = r + 1;
        if power == 1 {
            proof {
                assert forall|j: nat| j <= s implies #[trigger] chain(a as int, d as nat, j, n as int)
                    != n - 1 by {
                    if j >= r {
                        lemma_chain_one_stays(a as int, d as nat, r as nat, j, n as int);
                    }
                }
            }
            return false;
        }
        if power == n - 1 {
            return true;
        }
    }
    false
}

/// Whether `n` is prime, by the deterministic Miller-Rabin test. Every prime
/// passes.
pub fn miller_rabin(n: u64) -> (r: bool)
    ensures
        r == passes_miller_rabin(n),
        is_prime(n as nat) ==> r,
{
    proof {
        if is_prime(n as nat) {
            lemma_primes_pass(n);
        }
    }
    if n % 2 == 0 {
        return n == 2;
    }
    if n == 1 {
        return false;
    }
    let mut d = n - 1;
    let mut s: u64 = 0;
    proof {
        vstd::arithmetic::power2::lemma_pow2(0);
        lemma_pow0(2);
    }
    while d % 2 == 0
        invariant
            d > 0,
            s < n,
            odd_part(d as nat) == odd_part((n - 1) as nat),
            twos(d as nat) + s == twos((n - 1) as nat),
            (n - 1) as nat == d * pow2(s as nat),
        decreases d,
    {
        proof {
            lemma_pow2_unfold((s + 1) as nat);
            assert(d as nat * pow2(s as nat) == (d / 2) as nat * pow2((s + 1) as nat)) by (nonlinear_arith)
                requires
                    d % 2 == 0,
                    pow2((s + 1) as nat) == 2 * pow2(s as nat),
            ;
            lemma_pow2_lower_bound((s + 1) as nat);
            assert((d / 2) as nat * pow2((s + 1) as nat) >= pow2((s + 1) as nat)) by (nonlinear_arith)
                requires
                    d / 2 >= 1,
            ;
        }
        d = d / 2;
        s = s + 1;
    }
    let bases = witnesses_for(n);
    let mut i: usize = 0;
    while i < bases.len()
        invariant
            n > 2,
            n % 2 == 1,
            d > 0,
            d == odd_part((n - 1) as nat),
            s == twos((n - 1) as nat),
            bases@ == witnesses(n),
            i <= bases@.len(),
            is_prime(n as nat) ==> passes_miller_rabin(n),
            forall|j: int|
                0 <= j < i ==> strong_probable_prime(n as nat, #[trigger] witnesses(n)[j] as nat),
        decreases bases@.len() - i,
    {
        if !is_strong_probable_prime(bases[i], d, s, n) {
            return false;
        }
        i = i + 1;
    }
    true
}

proof fn lemma_pow2_lower_bound(e: nat)
    ensures
        pow2(e) >= e + 1,
    decreases e,
{
    if e == 0 {
        lemma_pow2_pos(0);
    } else {
        lemma_pow2_unfold(e);
        lemma_pow2_lower_bound((e - 1) as nat);
    }
}

proof fn lemma_odd_part_twos(m: nat)
    requires
        m > 0,
    ensures
        odd_part(m) * pow2(twos(m)) == m,
    decreases m,
{
    if m % 2 == 0 {
        let h = m / 2;
        lemma_odd_part_twos(h);
        let t = twos(h);
        assert(odd_part(m) == odd_part(h) && twos(m) == t + 1);
        lemma_pow2_unfold(t + 1);
        assert(odd_part(h) * pow2(t + 1) == m) by (nonlinear_arith)
            requires
                odd_part(h) * pow2(t) == h,
                pow2(t + 1) == 2 * pow2(t),
                m == 2 * h,
        ;
    } else {
        vstd::arithmetic::power2::lemma_pow2(0);
        lemma_pow0(2);
        assert(odd_part(m) == m && twos(m) == 0);
        assert(m * pow2(0) == m);
    }
}

/// Where the squaring chain of `a` modulo the prime `n` reaches 1 at step `k` but
/// does not start at 1, a step before `k` is `n - 1`.
proof fn lemma_chain_reaches_minus_one(n: nat, a: int, d: nat, k: nat)
    requires
        is_prime(n),
        chain(a, d, k, n as int) == 1,
        chain(a, d, 0, n as int) != 1,
    ensures
        exists|j: nat| j < k && #[trigger] chain(a, d, j, n as int) == n - 1,
    decreases k,
{
    let k1 = (k - 1) as nat;
    let c = chain(a, d, k1, n as int);
    lemma_chain_step(a, d, k1, n as int);
    lemma_mod_bound(pow(a, d * pow2(k1)), n as int);
    lemma_square_root_of_one(n, c);
    if c != n - 1 {
        lemma_chain_reaches_minus_one(n, a, d, k1);
        let j = choose|j: nat| j < k1 && #[trigger] chain(a, d, j, n as int) == n - 1;
        assert(j < k && chain(a, d, j, n as int) == n - 1);
    }
}

/// A prime `n` is a strong probable prime to every base that it does not divide.
pub proof fn lemma_prime_is_strong_probable_prime(n: nat, a: nat)
    requires
        is_prime(n),
        n > 2,
        a % n != 0,
    ensures
        strong_probable_prime(n, a),
{
    let m = (n - 1) as nat;
    let d = odd_part(m);
    let s = twos(m);
    lemma_odd_part_twos(m);
    lemma_fermat(n, a as int);
    assert(chain(a as int, d, s, n as int) == 1);
    vstd::arithmetic::power2::lemma_pow2(0);
    lemma_pow0(2);
    assert(d * pow2(0) == d);
    if pow(a as int, d) % (n as int) != 1 {
        lemma_chain_reaches_minus_one(n, a as int, d, s);
    }
}

/// Every prime passes the test: it never calls a prime composite.
pub proof fn lemma_primes_pass(n: u64)
    requires
        is_prime(n as nat),
    ensures
        passes_miller_rabin(n),
{
    if n % 2 == 0 {
        if n != 2 {
            assert((n as nat) % 2nat != 0);
        }
    } else if n > 1 {
        let w = witnesses(n);
        assert forall|i: int| 0 <= i < w.len() implies strong_probable_prime(
            n as nat,
            #[trigger] w[i] as nat,
        ) by {
            assert(0 < w[i] < n);
            lemma_small_mod(w[i] as nat, n as nat);
            lemma_prime_is_strong_probable_prime(n as nat, w[i] as nat);
        }
    }
}

} // verus!
