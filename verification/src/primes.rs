//! The prime table: sieve, generation bound, and factorization.
//!
//! A `Primes` value holds an ascending list of primes that is complete up to
//! its largest entry; `factorize` decomposes a number into
//! (prime-index, exponent) pairs against that list by trial division.

use vstd::prelude::*;
use vstd::arithmetic::div_mod::{
    lemma_div_is_strictly_smaller, lemma_fundamental_div_mod, lemma_mod_add_multiples_vanish,
    lemma_mod_multiples_basic, lemma_mod_self_0, lemma_small_mod,
};
use vstd::arithmetic::power::{
    pow, lemma_pow0, lemma_pow1, lemma_pow_adds, lemma_pow_increases, lemma_pow_positive,
    lemma_pow_strictly_increases_converse,
};
use vstd::arithmetic::power2::{pow2, lemma_pow2, lemma_pow2_unfold, lemma2_to64};
use vstd::arithmetic::div_mod::{
    lemma_div_denominator, lemma_div_is_ordered, lemma_div_multiples_vanish,
    lemma_multiply_divide_lt,
};
use crate::bit_array::BitArray;

verus! {

/// Holds exactly when `p` is a prime number.
pub open spec fn is_prime(p: int) -> bool {
    p >= 2 && forall|d: int| 2 <= d < p ==> #[trigger] (p % d) != 0
}

/// The entries of `s` are strictly increasing.
pub open spec fn ascending(s: Seq<usize>) -> bool {
    forall|a: int, b: int| 0 <= a < b < s.len() ==> s[a] < s[b]
}

/// Every entry of `s` is prime.
pub open spec fn all_prime(s: Seq<usize>) -> bool {
    forall|k: int| 0 <= k < s.len() ==> is_prime(#[trigger] s[k] as int)
}

/// `s` has an entry equal to `p`.
pub open spec fn contains_value(s: Seq<usize>, p: int) -> bool {
    exists|k: int| 0 <= k < s.len() && #[trigger] s[k] as int == p
}

/// `s` holds every prime below `n`.
pub open spec fn complete_below(s: Seq<usize>, n: int) -> bool {
    forall|p: int| 2 <= p < n && is_prime(p) ==> #[trigger] contains_value(s, p)
}

/// Every prime factor of `num` is at most the largest entry of `primes`.
pub open spec fn factors_covered(primes: Seq<usize>, num: int) -> bool {
    forall|q: int| is_prime(q) && #[trigger] (num % q) == 0 ==> q <= primes.last() as int
}

/// There is no prime strictly between 61 and 64.
pub proof fn lemma_prime_below_64(q: int)
    requires
        is_prime(q),
        q <= 63,
    ensures
        q <= 61,
{
    if q == 62 {
        assert(q % 2 == 0);
    }
    if q == 63 {
        assert(q % 3 == 0);
    }
}

/// A number `k` has been crossed out once every divisor below `i` was
/// processed: some `d < i` divides it with `d * d <= k`.
spec fn crossed(k: int, i: int) -> bool {
    exists|d: int| 2 <= d < i && #[trigger] (k % d) == 0 && d * d <= k
}

/// Divisibility carries over a middle term: if `a` divides `b` and `b`
/// divides `c`, then `a` divides `c`.
proof fn lemma_divides_transfer(a: int, b: int, c: int)
    requires
        1 <= a,
        1 <= b,
        b % a == 0,
        c % b == 0,
        c >= 0,
    ensures
        c % a == 0,
{
    lemma_fundamental_div_mod(b, a);
    lemma_fundamental_div_mod(c, b);
    let qb = b / a;
    let qc = c / b;
    assert(c == (qb * qc) * a) by (nonlinear_arith)
        requires b == a * qb, c == b * qc;
    lemma_mod_multiples_basic(qb * qc, a);
}

/// A positive divisor of a positive number is at most that number.
proof fn lemma_divisor_le(d: int, n: int)
    requires
        1 <= d,
        1 <= n,
        n % d == 0,
    ensures
        d <= n,
{
    lemma_fundamental_div_mod(n, d);
    let q = n / d;
    assert(d >= 1 && q >= 1 && n == d * q ==> d <= n) by (nonlinear_arith);
    assert(q >= 1) by {
        if q <= 0 {
            assert(d * q <= 0) by (nonlinear_arith)
                requires d >= 1, q <= 0;
        }
    }
}

/// A composite number has a divisor no larger than its square root.
proof fn lemma_small_divisor(n: int)
    requires
        n >= 2,
        !is_prime(n),
    ensures
        exists|d: int| 2 <= d && #[trigger] (n % d) == 0 && d * d <= n,
{
    let d0 = choose|d: int| 2 <= d < n && #[trigger] (n % d) == 0;
    lemma_fundamental_div_mod(n, d0);
    let m = n / d0;
    assert(n == d0 * m);
    assert(m >= 1) by {
        if m <= 0 {
            assert(d0 * m <= 0) by (nonlinear_arith)
                requires d0 >= 1, m <= 0;
        }
    }
    assert(m >= 2) by {
        if m == 1 {
            assert(n == d0) by (nonlinear_arith)
                requires n == d0 * m, m == 1;
        }
    }
    if d0 <= m {
        assert(d0 * d0 <= n) by (nonlinear_arith)
            requires n == d0 * m, 2 <= d0, d0 <= m;
        assert(2 <= d0 && n % d0 == 0 && d0 * d0 <= n);
    } else {
        assert(m * m <= n) by (nonlinear_arith)
            requires n == d0 * m, 2 <= m, m < d0;
        assert(n == m * d0) by (nonlinear_arith)
            requires n == d0 * m;
        lemma_mod_multiples_basic(d0, m);
        assert(2 <= m && n % m == 0 && m * m <= n);
    }
}

/// Every number from 2 up has a prime factor.
proof fn lemma_prime_factor(n: int)
    requires
        n >= 2,
    ensures
        exists|q: int| is_prime(q) && #[trigger] (n % q) == 0 && q <= n,
    decreases n,
{
    if is_prime(n) {
        lemma_mod_self_0(n);
        assert(is_prime(n) && n % n == 0 && n <= n);
    } else {
        lemma_small_divisor(n);
        let d = choose|d: int| 2 <= d && #[trigger] (n % d) == 0 && d * d <= n;
        assert(d < n) by (nonlinear_arith)
            requires 2 <= d, d * d <= n;
        lemma_prime_factor(d);
        let q = choose|q: int| is_prime(q) && #[trigger] (d % q) == 0 && q <= d;
        lemma_divides_transfer(q, d, n);
        assert(is_prime(q) && n % q == 0 && q <= n);
    }
}

/// A composite number has a prime factor no larger than its square root.
proof fn lemma_composite_small_prime_factor(n: int)
    requires
        n >= 2,
        !is_prime(n),
    ensures
        exists|q: int| is_prime(q) && #[trigger] (n % q) == 0 && q * q <= n,
{
    lemma_small_divisor(n);
    let d = choose|d: int| 2 <= d && #[trigger] (n % d) == 0 && d * d <= n;
    lemma_prime_factor(d);
    let q = choose|q: int| is_prime(q) && #[trigger] (d % q) == 0 && q <= d;
    lemma_divides_transfer(q, d, n);
    assert(q * q <= d * d) by (nonlinear_arith)
        requires 2 <= q, q <= d;
    assert(is_prime(q) && n % q == 0 && q * q <= n);
}

/// Crossing out the multiples of `i` extends the crossed-out set by exactly
/// the multiples of `i` at or above `i * i`.
proof fn lemma_crossed_step(k: int, i: int)
    requires
        2 <= i,
    ensures
        crossed(k, i + 1) == (crossed(k, i) || (k % i == 0 && i * i <= k)),
{
    if crossed(k, i + 1) {
        let d = choose|d: int| 2 <= d < i + 1 && #[trigger] (k % d) == 0 && d * d <= k;
        if d == i {
            assert(k % i == 0 && i * i <= k);
        } else {
            assert(2 <= d < i && k % d == 0 && d * d <= k);
        }
    }
    if crossed(k, i) {
        let d = choose|d: int| 2 <= d < i && #[trigger] (k % d) == 0 && d * d <= k;
        assert(2 <= d < i + 1 && k % d == 0 && d * d <= k);
    }
    if k % i == 0 && i * i <= k {
        assert(2 <= i < i + 1 && k % i == 0 && i * i <= k);
    }
}

/// When `i` is itself crossed out, its multiples are already covered by a
/// smaller divisor, so step `i` crosses out nothing new.
proof fn lemma_crossed_step_composite(k: int, i: int)
    requires
        2 <= i,
        crossed(i, i),
        k >= 0,
    ensures
        crossed(k, i + 1) == crossed(k, i),
{
    lemma_crossed_step(k, i);
    if k % i == 0 && i * i <= k {
        let d0 = choose|d: int| 2 <= d < i && #[trigger] (i % d) == 0 && d * d <= i;
        lemma_divides_transfer(d0, i, k);
        assert(i <= i * i) by (nonlinear_arith)
            requires 2 <= i;
        assert(2 <= d0 < i && k % d0 == 0 && d0 * d0 <= k);
    }
}

/// Once every divisor up to the square root of the range was processed, a
/// number survives the sieve exactly when it is prime.
proof fn lemma_sieve_final(k: int, i: int)
    requires
        2 <= k,
        2 <= i,
        k < i * i,
    ensures
        (!crossed(k, i)) == is_prime(k),
{
    if is_prime(k) {
        if crossed(k, i) {
            let d = choose|d: int| 2 <= d < i && #[trigger] (k % d) == 0 && d * d <= k;
            assert(d < k) by (nonlinear_arith)
                requires 2 <= d, d * d <= k;
            assert(k % d != 0);
        }
    } else {
        lemma_composite_small_prime_factor(k);
        let q = choose|q: int| is_prime(q) && #[trigger] (k % q) == 0 && q * q <= k;
        assert(q < i) by (nonlinear_arith)
            requires q * q <= k, k < i * i, q >= 0, i >= 0;
        assert(2 <= q < i && k % q == 0 && q * q <= k);
    }
}

/// `p <= n / p` is the overflow-free form of `p * p <= n`.
proof fn lemma_sqr_le_via_div(p: int, n: int)
    requires
        1 <= p,
        0 <= n,
    ensures
        (p <= n / p) == (p * p <= n),
{
    lemma_fundamental_div_mod(n, p);
    if p <= n / p {
        assert(p * p <= p * (n / p)) by (nonlinear_arith)
            requires 1 <= p, p <= n / p;
        assert(n == p * (n / p) + n % p);
    }
    if p * p <= n {
        if n / p < p {
            assert(p * (n / p) + (n % p) < p * p) by (nonlinear_arith)
                requires 1 <= p, n / p < p, n % p < p, 0 <= n % p;
        }
    }
}

/// In an ascending list two positions holding the same value are the same.
proof fn lemma_ascending_unique(s: Seq<usize>, a: int, b: int)
    requires
        ascending(s),
        0 <= a < s.len(),
        0 <= b < s.len(),
        s[a] == s[b],
    ensures
        a == b,
{
    if a < b {
        assert(s[a] < s[b]);
    }
    if b < a {
        assert(s[b] < s[a]);
    }
}


/// Fully divides `p` out of `num`: the reduced number and the exponent.
pub open spec fn divide_out(num: nat, p: nat) -> (nat, nat)
    decreases num via divide_out_decreases
{
    if 2 <= p && 1 <= num && num % p == 0 {
        let r = divide_out(num / p, p);
        (r.0, (r.1 + 1) as nat)
    } else {
        (num, 0)
    }
}

#[via_fn]
proof fn divide_out_decreases(num: nat, p: nat) {
    if 2 <= p && 1 <= num && num % p == 0 {
        if num < p {
            lemma_small_mod(num, p);
        }
        lemma_div_is_strictly_smaller(num as int, p as int);
    }
}

/// Trial division of `num` against `primes` from position `i` on, while the
/// square of the candidate does not exceed the remaining number: the
/// (index, exponent) pairs found, and the remaining cofactor.
pub open spec fn trial_division(primes: Seq<usize>, num: nat, i: int) -> (Seq<(usize, usize)>, nat)
    decreases primes.len() - i,
{
    if i < 0 || i >= primes.len() {
        (Seq::<(usize, usize)>::empty(), num)
    } else {
        let p = primes[i] as nat;
        if p * p > num {
            (Seq::<(usize, usize)>::empty(), num)
        } else {
            let d = divide_out(num, p);
            let rest = trial_division(primes, d.0, i + 1);
            if d.1 > 0 {
                (seq![(i as usize, d.1 as usize)] + rest.0, rest.1)
            } else {
                (rest.0, rest.1)
            }
        }
    }
}

/// The position of value `v` in `primes`.
pub open spec fn index_of_value(primes: Seq<usize>, v: nat) -> usize {
    choose|k: usize| (k as int) < primes.len() && primes[k as int] as nat == v
}

/// The factorization of `num` against `primes`: trial division up to the
/// square root, then the remaining cofactor (a prime of the list) with
/// exponent 1.
pub open spec fn spec_factorize(primes: Seq<usize>, num: nat) -> Seq<(usize, usize)> {
    let td = trial_division(primes, num, 0);
    if td.1 > 1 {
        td.0.push((index_of_value(primes, td.1), 1usize))
    } else {
        td.0
    }
}

/// Pairs are valid positions with positive exponents, at strictly
/// ascending positions.
pub open spec fn factors_wf(f: Seq<(usize, usize)>, primes: Seq<usize>) -> bool {
    &&& forall|k: int| 0 <= k < f.len() ==> (#[trigger] f[k]).0 < primes.len() && f[k].1 >= 1
    &&& forall|a: int, b: int| 0 <= a < b < f.len() ==> f[a].0 < f[b].0
}

/// The product over the pairs of `prime(index) ^ exponent`.
pub open spec fn factor_product(f: Seq<(usize, usize)>, primes: Seq<usize>) -> int
    decreases f.len(),
{
    if f.len() == 0 {
        1
    } else {
        factor_product(f.drop_last(), primes) * pow(
            primes[f.last().0 as int] as int,
            f.last().1 as nat,
        )
    }
}

/// In a table of ascending primes the entry at position `k` is at least
/// `k + 2`.
pub proof fn lemma_index_lower(s: Seq<usize>, k: int)
    requires
        ascending(s),
        all_prime(s),
        0 <= k < s.len(),
    ensures
        s[k] as int >= k + 2,
    decreases k,
{
    if k == 0 {
        assert(is_prime(s[0] as int));
    } else {
        lemma_index_lower(s, k - 1);
        assert(s[k - 1] < s[k]);
    }
}

/// The floor of the base-two logarithm.
pub open spec fn spec_log2_floor(x: nat) -> nat
    decreases x via spec_log2_floor_decreases
{
    if x < 2 {
        0
    } else {
        1 + spec_log2_floor(x / 2)
    }
}

#[via_fn]
proof fn spec_log2_floor_decreases(x: nat) {
    if x >= 2 {
        lemma_div_is_strictly_smaller(x as int, 2);
    }
}

/// The natural logarithm in Q16 fixed point, from a piecewise-linear
/// base-two logarithm scaled by `ln 2` (45426 is `ln 2` in Q16).
pub open spec fn spec_ln_q16(x: int) -> int {
    let k = spec_log2_floor(x as nat);
    let frac = (x - pow2(k)) * 65536 / pow2(k) as int;
    ((k * 65536 + frac) * 45426) / 65536
}

/// The sieve bound for a request of `n` primes: `n (ln n + ln ln n)` in
/// fixed point, and at least `n + 1` so that the sieve always has room.
pub open spec fn spec_sieve_limit(n: int) -> int {
    let ln = spec_ln_q16(n);
    let lv = spec_ln_q16(ln);
    let lnln = if lv > 726816 { lv - 726816 } else { 0 };
    let raw = (n * (ln + lnln)) / 65536;
    if raw < n + 1 {
        n + 1
    } else {
        raw
    }
}

/// The floor of the base-two logarithm of `x`, with `2` raised to it.
fn floor_log2_with_pow(x: u64) -> (r: (u64, u64))
    requires
        1 <= x,
    ensures
        r.0 as nat == spec_log2_floor(x as nat),
        r.1 == pow2(r.0 as nat),
        r.1 <= x < 2 * r.1,
        r.0 <= 63,
{
    let mut k: u64 = 0;
    let mut pw: u64 = 1;
    let mut y: u64 = x;
    proof {
        lemma_pow2(0);
        lemma_pow2_unfold(1);
        lemma2_to64();
    }
    while y >= 2
        invariant
            1 <= y,
            1 <= pw,
            pw == pow2(k as nat),
            y == x as int / pw as int,
            k <= 63,
            spec_log2_floor(x as nat) == k + spec_log2_floor(y as nat),
        decreases y,
    {
        proof {
            lemma_fundamental_div_mod(x as int, pw as int);
            assert(x as int >= 2 * pw) by (nonlinear_arith)
                requires
                    x as int == pw as int * (x as int / pw as int) + (x as int % pw as int),
                    x as int / pw as int >= 2,
                    x as int % pw as int >= 0,
                    pw >= 1,
            ;
            lemma_div_denominator(x as int, pw as int, 2);
            lemma_pow2_unfold((k + 1) as nat);
            lemma_pow2((k + 1) as nat);
            lemma_pow2(64);
            lemma2_to64();
            lemma_pow_strictly_increases_converse(2, (k + 1) as nat, 64);
        }
        y = y / 2;
        pw = pw * 2;
        k = k + 1;
    }
    proof {
        lemma_fundamental_div_mod(x as int, pw as int);
    }
    (k, pw)
}

/// The natural logarithm of `x` in Q16 fixed point.
fn ln_q16(x: u64) -> (r: u64)
    requires
        2 <= x,
    ensures
        r as int == spec_ln_q16(x as int),
        45426 <= r <= 2_910_000,
{
    let (k, pw) = floor_log2_with_pow(x);
    proof {
        assert(((x - pw) as u128) * 65536 < (pw as u128) * 65536) by (nonlinear_arith)
            requires pw <= x < 2 * pw;
        lemma_multiply_divide_lt((((x - pw) as u128) * 65536) as int, pw as int, 65536);
        assert(k >= 1) by {
            if k == 0 {
                lemma_pow2(0);
            }
        }
    }
    let frac = (((x - pw) as u128) * 65536 / (pw as u128)) as u64;
    let l2 = k * 65536 + frac;
    let r = l2 * 45426 / 65536;
    proof {
        assert(frac < 65536);
        assert(l2 <= 4194303);
        assert((l2 * 45426) as int <= (4194303u64 * 45426) as int) by (nonlinear_arith)
            requires l2 <= 4194303u64;
        assert((65536 * 45426) as int <= (l2 * 45426) as int) by (nonlinear_arith)
            requires 65536 <= l2;
        lemma_div_is_ordered((65536 * 45426) as int, (l2 * 45426) as int, 65536);
        lemma_div_multiples_vanish(45426, 65536);
        lemma_div_is_ordered((l2 * 45426) as int, (4194303u64 * 45426) as int, 65536);
    }
    r
}


/// An ascending, fully populated prime list: nonempty, strictly
/// increasing, every entry prime, and no prime below its largest entry
/// missing.
pub open spec fn is_prime_table(s: Seq<usize>) -> bool {
    &&& s.len() >= 1
    &&& ascending(s)
    &&& all_prime(s)
    &&& complete_below(s, s.last() as int + 1)
}

/// Two ascending lists with the same members are the same list.
proof fn lemma_ascending_same_members(s1: Seq<usize>, s2: Seq<usize>)
    requires
        ascending(s1),
        ascending(s2),
        forall|v: int| contains_value(s1, v) == contains_value(s2, v),
    ensures
        s1 =~= s2,
    decreases s1.len(),
{
    if s1.len() == 0 {
        if s2.len() > 0 {
            assert(contains_value(s2, s2[0] as int));
            assert(contains_value(s1, s2[0] as int));
            let k = choose|k: int| 0 <= k < s1.len() && #[trigger] s1[k] as int == s2[0] as int;
            assert(false);
        }
    } else if s2.len() == 0 {
        assert(contains_value(s1, s1[0] as int));
        assert(contains_value(s2, s1[0] as int));
        let k = choose|k: int| 0 <= k < s2.len() && #[trigger] s2[k] as int == s1[0] as int;
        assert(false);
    } else {
        assert(contains_value(s1, s1[0] as int));
        assert(contains_value(s2, s2[0] as int));
        assert(contains_value(s2, s1[0] as int));
        assert(contains_value(s1, s2[0] as int));
        let a = choose|k: int| 0 <= k < s2.len() && #[trigger] s2[k] as int == s1[0] as int;
        let b = choose|k: int| 0 <= k < s1.len() && #[trigger] s1[k] as int == s2[0] as int;
        assert(s2[0] <= s2[a]) by {
            if a > 0 {
                assert(s2[0] < s2[a]);
            }
        }
        assert(s1[0] <= s1[b]) by {
            if b > 0 {
                assert(s1[0] < s1[b]);
            }
        }
        assert(s1[0] == s2[0]);
        let t1 = s1.subrange(1, s1.len() as int);
        let t2 = s2.subrange(1, s2.len() as int);
        assert(ascending(t1)) by {
            assert forall|x: int, y: int| 0 <= x < y < t1.len() implies t1[x] < t1[y] by {
                assert(s1[x + 1] < s1[y + 1]);
            }
        }
        assert(ascending(t2)) by {
            assert forall|x: int, y: int| 0 <= x < y < t2.len() implies t2[x] < t2[y] by {
                assert(s2[x + 1] < s2[y + 1]);
            }
        }
        assert forall|v: int| contains_value(t1, v) == contains_value(t2, v) by {
            if contains_value(t1, v) {
                let k = choose|k: int| 0 <= k < t1.len() && #[trigger] t1[k] as int == v;
                assert(s1[k + 1] as int == v);
                assert(contains_value(s1, v));
                let j = choose|j: int| 0 <= j < s2.len() && #[trigger] s2[j] as int == v;
                assert(s1[0] < s1[k + 1]);
                assert(j != 0);
                assert(t2[j - 1] as int == v);
                assert(contains_value(t2, v));
            }
            if contains_value(t2, v) {
                let k = choose|k: int| 0 <= k < t2.len() && #[trigger] t2[k] as int == v;
                assert(s2[k + 1] as int == v);
                assert(contains_value(s2, v));
                let j = choose|j: int| 0 <= j < s1.len() && #[trigger] s1[j] as int == v;
                assert(s2[0] < s2[k + 1]);
                assert(j != 0);
                assert(t1[j - 1] as int == v);
                assert(contains_value(t1, v));
            }
        }
        lemma_ascending_same_members(t1, t2);
        assert forall|k: int| 0 <= k < s1.len() implies s1[k] == s2[k] by {
            if k > 0 {
                assert(t1[k - 1] == t2[k - 1]);
            }
        }
    }
}

/// The remaining number's largest prime factor is not in the table: the
/// generating bound was too small for the request.
#[derive(Debug)]
pub struct InsufficientBound {
    /// The cofactor that was not found in the table.
    pub remainder: usize,
}

/// An ascending, complete table of primes.
pub struct Primes {
    primes: Vec<usize>,
}

impl View for Primes {
    type V = Seq<usize>;

    closed spec fn view(&self) -> Seq<usize> {
        self.primes@
    }
}

impl Primes {
    /// The largest prime held.
    pub open spec fn last_prime(&self) -> int {
        self@.last() as int
    }

    /// The table is nonempty and ascending, every entry is prime, and every
    /// prime up to the largest entry is present.
    pub open spec fn wf(&self) -> bool {
        &&& self@.len() >= 1
        &&& ascending(self@)
        &&& all_prime(self@)
        &&& complete_below(self@, self.last_prime() + 1)
    }

    /// The count of primes held.
    pub fn extent(&self) -> (r: usize)
        ensures
            r == self@.len(),
    {
        self.primes.len()
    }

    /// All primes below `n`, ascending: the sieve.
    ///
    /// Allocates flags for `[0, n)`, clears 0 and 1, then for each `i` whose
    /// flag still stands clears every multiple of `i` from `i * i` on, and
    /// collects the surviving indices.
    #[verifier::loop_isolation(false)]
    pub fn all_less_than(n: usize) -> (r: Vec<usize>)
        requires
            1 <= n,
            n <= usize::MAX / 2,
        ensures
            ascending(r@),
            all_prime(r@),
            forall|k: int| 0 <= k < r@.len() ==> (#[trigger] r@[k] as int) < n,
            complete_below(r@, n as int),
            n > 2 ==> r@.len() >= 1,
    {
        let mut mask = BitArray::new_ones(n);
        let ghost cap = mask@.len();
        mask.reset_unchecked(0);
        mask.reset_unchecked(1);
        proof {
            assert(forall|k: int| 0 <= k < n ==> #[trigger] mask@[k] == (k >= 2 && !crossed(k, 2)));
        }
        let mut i: usize = 2;
        while i <= (n - 1) / i
            invariant
                2 <= i,
                1 <= n <= usize::MAX / 2,
                mask@.len() == cap,
                n <= cap,
                forall|k: int| 0 <= k < n ==> #[trigger] mask@[k] == (k >= 2 && !crossed(k, i as int)),
            decreases n - i,
        {
            proof {
                lemma_sqr_le_via_div(i as int, (n - 1) as int);
                assert(i <= i * i) by (nonlinear_arith)
                    requires 2 <= i;
            }
            if mask.get_unchecked(i) {
                let mut j: usize = i * i;
                proof {
                    lemma_mod_multiples_basic(i as int, i as int);
                }
                proof {
                    assert forall|k: int| 0 <= k < n implies mask@[k] == (k >= 2 && !crossed(
                        k,
                        i as int,
                    ) && !(k % (i as int) == 0 && i * i <= k < j as int)) by {
                        assert(mask@[k] == (k >= 2 && !crossed(k, i as int)));
                        assert(!(i * i <= k < j as int));
                    }
                }
                while j < n
                    invariant
                        2 <= i,
                        1 <= n <= usize::MAX / 2,
                        mask@.len() == cap,
                        n <= cap,
                        i * i <= j,
                        j % i == 0,
                        i < n,
                        forall|k: int| 0 <= k < n ==> #[trigger] mask@[k] == (k >= 2 && !crossed(
                            k,
                            i as int,
                        ) && !(k % (i as int) == 0 && i * i <= k < j)),
                    decreases n + i - j,
                {
                    let ghost m0 = mask@;
                    mask.reset_unchecked(j);
                    proof {
                        assert forall|k: int| 0 <= k < n implies mask@[k] == (k >= 2 && !crossed(
                            k,
                            i as int,
                        ) && !(k % (i as int) == 0 && i * i <= k < j + i)) by {
                            assert(m0[k] == (k >= 2 && !crossed(k, i as int) && !(k % (i as int) == 0
                                && i * i <= k < j as int)));
                            if k == j {
                                assert(!mask@[k]);
                                assert(k % (i as int) == 0 && i * i <= k < j + i);
                            } else {
                                assert(mask@[k] == m0[k]);
                                if k % (i as int) == 0 && j < k < j + i {
                                    lemma_fundamental_div_mod(k, i as int);
                                    lemma_fundamental_div_mod(j as int, i as int);
                                    let a = k / (i as int);
                                    let b = (j as int) / (i as int);
                                    assert(k - j == (a - b) * (i as int)) by (nonlinear_arith)
                                        requires k == (i as int) * a, j as int == (i as int) * b;
                                    assert(false) by (nonlinear_arith)
                                        requires
                                            k - j == (a - b) * (i as int),
                                            0 < k - j < i as int,
                                    ;
                                }
                            }
                        }
                        lemma_mod_add_multiples_vanish(j as int, i as int);
                        assert((j + i) as int % (i as int) == 0);
                    }
                    j = j + i;
                }
                proof {
                    assert forall|k: int| 0 <= k < n implies mask@[k] == (k >= 2 && !crossed(
                        k,
                        i as int + 1,
                    )) by {
                        assert(mask@[k] == (k >= 2 && !crossed(k, i as int) && !(k % (i as int) == 0
                            && i * i <= k < j as int)));
                        assert(k < j as int);
                        lemma_crossed_step(k, i as int);
                    }
                }
            } else {
                proof {
                    assert(i < n);
                    assert(mask@[i as int] == (i >= 2 && !crossed(i as int, i as int)));
                    assert(crossed(i as int, i as int));
                    assert forall|k: int| 0 <= k < n implies mask@[k] == (k >= 2 && !crossed(
                        k,
                        i as int + 1,
                    )) by {
                        assert(mask@[k] == (k >= 2 && !crossed(k, i as int)));
                        lemma_crossed_step_composite(k, i as int);
                    }
                }
            }
            i = i + 1;
        }
        proof {
            lemma_sqr_le_via_div(i as int, (n - 1) as int);
            assert(n as int <= (i as int) * (i as int));
        }
        let mut out: Vec<usize> = Vec::new();
        let mut idx: usize = 0;
        while idx < n
            invariant
                idx <= n,
                n <= cap,
                mask@.len() == cap,
                2 <= i,
                n as int <= (i as int) * (i as int),
                forall|k: int| 0 <= k < n ==> #[trigger] mask@[k] == (k >= 2 && !crossed(k, i as int)),
                forall|k: int| 0 <= k < out@.len() ==> (#[trigger] out@[k] as int) < idx,
                ascending(out@),
                all_prime(out@),
                forall|p: int| 2 <= p < idx && is_prime(p) ==> #[trigger] contains_value(out@, p),
            decreases n - idx,
        {
            if mask.get_unchecked(idx) {
                proof {
                    assert(mask@[idx as int]);
                    assert(idx >= 2);
                    lemma_sieve_final(idx as int, i as int);
                    assert(is_prime(idx as int));
                }
                let ghost old_out = out@;
                out.push(idx);
                proof {
                    assert forall|p: int| 2 <= p < idx + 1 && is_prime(p) implies #[trigger]
                        contains_value(out@, p) by {
                        if p < idx {
                            assert(contains_value(old_out, p));
                            let k = choose|k: int| 0 <= k < old_out.len()
                                && #[trigger] old_out[k] as int == p;
                            assert(out@[k] as int == p);
                        } else {
                            assert(out@[out@.len() - 1] as int == p);
                        }
                    }
                }
            } else {
                proof {
                    if idx >= 2 {
                        lemma_sieve_final(idx as int, i as int);
                    }
                    assert forall|p: int| 2 <= p < idx + 1 && is_prime(p) implies #[trigger]
                        contains_value(out@, p) by {
                        assert(p != idx);
                    }
                }
            }
            idx = idx + 1;
        }
        proof {
            if n > 2 {
                assert(is_prime(2)) by {
                    assert(forall|d: int| 2 <= d < 2 ==> #[trigger] (2int % d) != 0);
                }
                assert(contains_value(out@, 2));
            }
        }
        out
    }

    /// The sieve bound for a request of `n` primes.
    fn sieve_limit(n: usize) -> (r: usize)
        requires
            3 <= n <= usize::MAX / 256,
        ensures
            r as int == spec_sieve_limit(n as int),
            n < r,
            2 < r,
            r <= usize::MAX / 2,
    {
        let ln = ln_q16(n as u64);
        let lv = ln_q16(ln);
        let lnln: u64 = if lv > 726816 { lv - 726816 } else { 0 };
        proof {
            let cap = usize::MAX as int / 256;
            let sum = (ln + lnln) as int;
            lemma_fundamental_div_mod(usize::MAX as int, 256);
            lemma_fundamental_div_mod(usize::MAX as int, 2);
            assert((n as int) * sum <= cap * 6_000_000) by (nonlinear_arith)
                requires
                    n as int <= cap,
                    sum <= 6_000_000,
                    0 <= n as int,
                    0 <= sum,
            ;
            assert(cap * 6_000_000 <= 0xffff_ffff_ffff_ffff * 6_000_000);
            // cap * 6_000_000 / 65536 is at most cap * 92, which fits in
            // half the address range since 184 <= 256
            assert(cap * 6_000_000 <= (cap * 92) * 65536) by (nonlinear_arith)
                requires 0 <= cap;
            lemma_div_is_ordered((n as int) * sum, (cap * 92) * 65536, 65536);
            lemma_div_multiples_vanish(cap * 92, 65536);
            assert((n as int) * sum / 65536 <= cap * 92);
            assert(184 * cap <= 256 * cap) by (nonlinear_arith)
                requires 0 <= cap;
            assert(256 * cap <= usize::MAX as int);
            assert(cap * 92 <= usize::MAX as int / 2);
        }
        let raw = ((n as u128) * ((ln + lnln) as u128) / 65536) as usize;
        if raw < n + 1 {
            n + 1
        } else {
            raw
        }
    }

    /// All primes below roughly the value of the `n`-th prime: sieves below
    /// `n (ln n + ln ln n)`, the prime-counting approximation, computed in
    /// Q16 fixed point.
    pub fn aproximatly_to_nth(n: usize) -> (r: Vec<usize>)
        requires
            3 <= n <= usize::MAX / 256,
        ensures
            ascending(r@),
            all_prime(r@),
            forall|k: int| 0 <= k < r@.len() ==> (#[trigger] r@[k] as int) < spec_sieve_limit(
                n as int,
            ),
            complete_below(r@, spec_sieve_limit(n as int)),
            r@.len() >= 1,
    {
        Self::all_less_than(Self::sieve_limit(n))
    }

    /// A fresh table generated for a requested count of `bound` primes:
    /// exactly the ascending primes below the sieve bound for `bound`.
    pub fn with_bound(bound: usize) -> (r: Primes)
        requires
            3 <= bound <= usize::MAX / 256,
        ensures
            r.wf(),
            ascending(r@),
            all_prime(r@),
            complete_below(r@, spec_sieve_limit(bound as int)),
            forall|k: int| 0 <= k < r@.len() ==> (#[trigger] r@[k] as int) < spec_sieve_limit(
                bound as int,
            ),
            r@.len() >= 1,
    {
        let list = Self::aproximatly_to_nth(bound);
        let r = Primes { primes: list };
        proof {
            assert((r@[r@.len() - 1] as int) < spec_sieve_limit(bound as int));
        }
        r
    }

    /// A table taken from a cached list: accepted only when the list equals
    /// the sieve of everything up to its own largest entry, so an accepted
    /// table is well formed; anything else is rejected.
    pub fn from_cached_list(list: Vec<usize>) -> (r: Option<Primes>)
        ensures
            match r {
                Some(t) => t.wf() && t@ == list@,
                None => !(is_prime_table(list@) && list@.last() as int <= usize::MAX as int / 2
                    - 1),
            },
    {
        let len = list.len();
        if len == 0 {
            return None;
        }
        let last = list[len - 1];
        if last > usize::MAX / 2 - 1 {
            return None;
        }
        let expected = Self::all_less_than(last + 1);
        proof {
            if is_prime_table(list@) {
                assert forall|v: int| contains_value(list@, v) == contains_value(
                    expected@,
                    v,
                ) by {
                    if contains_value(list@, v) {
                        let j = choose|j: int| 0 <= j < list@.len() && #[trigger] list@[
                        j] as int == v;
                        assert(list@[j] <= list@[len - 1]) by {
                            if j < len - 1 {
                                assert(list@[j] < list@[len - 1]);
                            }
                        }
                        assert(is_prime(v) && 2 <= v < last + 1);
                    }
                    if contains_value(expected@, v) {
                        let j = choose|j: int| 0 <= j < expected@.len() && #[trigger] expected@[
                        j] as int == v;
                        assert(is_prime(v) && v < last + 1);
                    }
                }
                lemma_ascending_same_members(list@, expected@);
            }
        }
        if expected.len() != len {
            return None;
        }
        let mut k: usize = 0;
        while k < len
            invariant
                k <= len,
                len == list@.len(),
                expected@.len() == len,
                forall|j: int| 0 <= j < k ==> list@[j] == expected@[j],
                is_prime_table(list@) ==> list@ == expected@,
            decreases len - k,
        {
            if list[k] != expected[k] {
                return None;
            }
            k = k + 1;
        }
        proof {
            assert(list@ =~= expected@);
        }
        Some(Primes { primes: list })
    }

    /// The list of primes held, for persisting.
    pub fn as_list(&self) -> (r: &Vec<usize>)
        ensures
            r@ == self@,
    {
        &self.primes
    }

    /// The prime at position `index`.
    pub fn prime_at(&self, index: usize) -> (r: usize)
        requires
            index < self@.len(),
        ensures
            r == self@[index as int],
    {
        self.primes[index]
    }

    /// Position of `v` in the table by binary search, or nothing when `v`
    /// is not held.
    fn find_index(&self, v: usize) -> (r: Option<usize>)
        requires
            ascending(self@),
        ensures
            match r {
                Some(k) => k < self@.len() && self@[k as int] == v,
                None => !contains_value(self@, v as int),
            },
    {
        let mut lo: usize = 0;
        let mut hi: usize = self.primes.len();
        while lo < hi
            invariant
                lo <= hi <= self@.len(),
                ascending(self@),
                forall|k: int| 0 <= k < lo ==> self@[k] < v,
                forall|k: int| hi <= k < self@.len() ==> self@[k] > v,
            decreases hi - lo,
        {
            let mid = lo + (hi - lo) / 2;
            let x = self.primes[mid];
            if x == v {
                return Some(mid);
            } else if x < v {
                proof {
                    assert forall|k: int| 0 <= k < mid + 1 implies self@[k] < v by {
                        if k < mid {
                            assert(self@[k] < self@[mid as int]);
                        }
                    }
                }
                lo = mid + 1;
            } else {
                proof {
                    assert forall|k: int| mid <= k < self@.len() implies self@[k] > v by {
                        if k > mid {
                            assert(self@[mid as int] < self@[k]);
                        }
                    }
                }
                hi = mid;
            }
        }
        proof {
            assert forall|k: int| 0 <= k < self@.len() implies self@[k] != v by {
                if k < lo {
                } else {
                }
            }
        }
        None
    }

    /// Factorizes `num` by trial division against the table, ascending.
    ///
    /// Yields the (prime-index, exponent) pairs whose product of prime
    /// powers is `num`; fails exactly when some prime factor of `num`
    /// exceeds the largest prime held, and reports a remainder all of
    /// whose prime factors lie beyond the table.
    pub fn factorize(&self, num: usize) -> (r: Result<Vec<(usize, usize)>, InsufficientBound>)
        requires
            self.wf(),
        ensures
            match r {
                Ok(f) => {
                    &&& f@ == spec_factorize(self@, num as nat)
                    &&& factors_wf(f@, self@)
                    &&& num >= 1 ==> factor_product(f@, self@) == num as int
                    &&& num == 0 ==> f@.len() == 0
                    &&& forall|k: int| 0 <= k < f@.len() ==> (#[trigger] f@[k]).1 < num
                        && self@[f@[k].0 as int] <= num && f@[k].1 < 64
                },
                Err(e) => {
                    &&& 2 <= e.remainder
                    &&& e.remainder as int > self.last_prime()
                    &&& e.remainder as nat == trial_division(self@, num as nat, 0).1
                    &&& num as int % e.remainder as int == 0
                    &&& num >= 2
                    &&& forall|q: int| is_prime(q) && #[trigger] ((e.remainder as int) % q) == 0
                        ==> q > self.last_prime()
                    &&& exists|q: int| is_prime(q) && #[trigger] ((num as int) % q) == 0
                        && q > self.last_prime()
                },
            },
            2 <= num <= self.last_prime() ==> r is Ok,
            1 <= num && factors_covered(self@, num as int) ==> r is Ok,
    {
        let mut factors: Vec<(usize, usize)> = Vec::new();
        if num == 0 {
            proof {
                assert(self@[0] as int >= 2);
                assert((self@[0] as nat) * (self@[0] as nat) > 0) by (nonlinear_arith)
                    requires self@[0] as nat >= 2;
            }
            return Ok(factors);
        }
        let mut n: usize = num;
        let mut i: usize = 0;
        let len = self.primes.len();
        while i < len && self.primes[i] <= n / self.primes[i]
            invariant
                self.wf(),
                len == self@.len(),
                i <= len,
                1 <= n <= num,
                num >= 1,
                trial_division(self@, num as nat, 0) == (
                    factors@ + trial_division(self@, n as nat, i as int).0,
                    trial_division(self@, n as nat, i as int).1,
                ),
                factors_wf(factors@, self@),
                forall|k: int| 0 <= k < factors@.len() ==> (#[trigger] factors@[k]).0 < i,
                forall|k: int| 0 <= k < factors@.len() ==> (#[trigger] factors@[k]).1 < num
                    && self@[factors@[k].0 as int] <= num && factors@[k].1 < 64,
                factor_product(factors@, self@) >= 1,
                factor_product(factors@, self@) * n == num,
                forall|k: int| 0 <= k < i ==> (n as int) % (#[trigger] self@[k] as int) != 0,
            decreases len - i,
        {
            let p = self.primes[i];
            proof {
                assert(is_prime(p as int));
                lemma_sqr_le_via_div(p as int, n as int);
            }
            let ghost n_entry = n as nat;
            let mut e: usize = 0;
            proof {
                lemma_pow0(p as int);
                lemma_pow2(0);
                lemma2_to64();
            }
            while n % p == 0
                invariant
                    self.wf(),
                    is_prime(p as int),
                    p == self@[i as int],
                    1 <= n,
                    n <= num,
                    pow(p as int, e as nat) * n == n_entry,
                    pow2(e as nat) <= n_entry,
                    n_entry <= num,
                    num <= usize::MAX,
                    divide_out(n_entry, p as nat) == (
                        divide_out(n as nat, p as nat).0,
                        (e + divide_out(n as nat, p as nat).1) as nat,
                    ),
                decreases n,
            {
                proof {
                    // e stays below 64: pow2(e) <= n_entry <= usize::MAX < pow2(64)
                    lemma2_to64();
                    lemma_pow2(e as nat);
                    lemma_pow2(64);
                    lemma_pow_strictly_increases_converse(2, e as nat, 64);
                }
                let n_next = n / p;
                proof {
                    lemma_fundamental_div_mod(n as int, p as int);
                    assert(n_next >= 1) by (nonlinear_arith)
                        requires
                            n as int == (p as int) * (n_next as int),
                            n >= 1,
                            p >= 2,
                            n_next == n as int / p as int,
                    ;
                    lemma_pow_adds(p as int, e as nat, 1);
                    lemma_pow1(p as int);
                    assert(pow(p as int, (e + 1) as nat) * n_next == n_entry) by (nonlinear_arith)
                        requires
                            pow(p as int, e as nat) * n == n_entry,
                            n as int == (p as int) * (n_next as int),
                            pow(p as int, (e + 1) as nat) == pow(p as int, e as nat) * (p as int),
                    ;
                    lemma_pow2((e + 1) as nat);
                    lemma_pow_base_le(2, p as int, (e + 1) as nat);
                    lemma_pow_positive(p as int, (e + 1) as nat);
                    assert(pow2((e + 1) as nat) <= n_entry) by (nonlinear_arith)
                        requires
                            pow(p as int, (e + 1) as nat) * n_next == n_entry,
                            pow2((e + 1) as nat) <= pow(p as int, (e + 1) as nat),
                            n_next >= 1,
                            pow(p as int, (e + 1) as nat) > 0,
                    ;
                }
                n = n_next;
                e = e + 1;
            }
            proof {
                assert(divide_out(n as nat, p as nat) == (n as nat, 0nat));
                assert(divide_out(n_entry, p as nat) == (n as nat, e as nat));
            }
            if e != 0 {
                let ghost old_factors = factors@;
                factors.push((i, e));
                proof {
                    assert(factors@.drop_last() =~= old_factors);
                    assert(factors@.last() == (i, e));
                    lemma_pow_positive(p as int, e as nat);
                    assert(factor_product(factors@, self@) * n == num) by (nonlinear_arith)
                        requires
                            factor_product(factors@, self@) == factor_product(old_factors, self@)
                                * pow(p as int, e as nat),
                            factor_product(old_factors, self@) * n_entry == num,
                            pow(p as int, e as nat) * n == n_entry,
                    ;
                    assert(factor_product(factors@, self@) >= 1) by (nonlinear_arith)
                        requires
                            factor_product(factors@, self@) == factor_product(old_factors, self@)
                                * pow(p as int, e as nat),
                            factor_product(old_factors, self@) >= 1,
                            pow(p as int, e as nat) >= 1,
                    ;
                    // exponent and prime bounds against num
                    lemma_pow2(e as nat);
                    lemma2_to64();
                    lemma_pow2(64);
                    lemma_pow_strictly_increases_converse(2, e as nat, 64);
                    assert(e < pow2(e as nat)) by {
                        lemma_pow2_greater(e as nat);
                    }
                    assert(pow2(e as nat) <= n_entry);
                    assert(p as int <= pow(p as int, e as nat)) by {
                        lemma_pow_increases(p as nat, 1, e as nat);
                        lemma_pow1(p as int);
                    }
                    assert(pow(p as int, e as nat) <= n_entry) by (nonlinear_arith)
                        requires
                            pow(p as int, e as nat) * n == n_entry,
                            n >= 1,
                            pow(p as int, e as nat) >= 1,
                    ;
                }
            }
            proof {
                // remaining cofactor is not divisible by any tried prime
                assert forall|k: int| 0 <= k < i + 1 implies (n as int) % (
                    #[trigger] self@[k] as int) != 0 by {
                    if k < i {
                        if (n as int) % (self@[k] as int) == 0 {
                            lemma_mod_multiples_basic(pow(p as int, e as nat), n as int);
                            assert((n_entry as int) % (n as int) == 0) by {
                                assert(n_entry as int == pow(p as int, e as nat) * (n as int));
                            }
                            lemma_divides_transfer(self@[k] as int, n as int, n_entry as int);
                            assert((n_entry as int) % (self@[k] as int) != 0);
                        }
                    }
                }
                // one unfolding of the trial-division mirror
                assert(trial_division(self@, num as nat, 0) == (
                    factors@ + trial_division(self@, n as nat, i as int + 1).0,
                    trial_division(self@, n as nat, i as int + 1).1,
                )) by {
                    let d = divide_out(n_entry, p as nat);
                    let rest = trial_division(self@, n as nat, i as int + 1);
                    if e != 0 {
                        assert(trial_division(self@, n_entry, i as int) == (
                            seq![(i, e)] + rest.0,
                            rest.1,
                        ));
                        assert(factors@.drop_last() + (seq![(i, e)] + rest.0) =~= factors@
                            + rest.0);
                    } else {
                        assert(trial_division(self@, n_entry, i as int) == rest);
                    }
                }
            }
            i = i + 1;
        }
        // the loop ended: either the table is exhausted or p * p > n
        proof {
            if i < len {
                lemma_sqr_le_via_div(self@[i as int] as int, n as int);
            }
            assert(trial_division(self@, n as nat, i as int)
                == (Seq::<(usize, usize)>::empty(), n as nat));
            assert(factors@ + Seq::<(usize, usize)>::empty() =~= factors@);
        }
        if n > 1 {
            match self.find_index(n) {
                Some(k) => {
                    let ghost old_factors = factors@;
                    factors.push((k, 1));
                    proof {
                        // the found position equals the chosen one in the mirror
                        let kc = index_of_value(self@, n as nat);
                        assert((k as int) < self@.len() && self@[k as int] as nat == n as nat);
                        assert((kc as int) < self@.len() && self@[kc as int] as nat == n as nat);
                        lemma_ascending_unique(self@, k as int, kc as int);
                        assert(factors@ =~= spec_factorize(self@, num as nat));
                        // ascending positions: n is divisible by no prime before i
                        assert forall|a: int, b: int| 0 <= a < b < factors@.len() implies
                            factors@[a].0 < factors@[b].0 by {
                            if b == factors@.len() - 1 {
                                lemma_mod_self_0(n as int);
                                if k < i {
                                    assert((n as int) % (self@[k as int] as int) != 0);
                                }
                                assert(k >= i);
                                assert(factors@[a].0 < i);
                            }
                        }
                        // product gains the factor n itself
                        assert(factors@.drop_last() =~= old_factors);
                        lemma_pow1(n as int);
                        assert(factor_product(factors@, self@) == num) by (nonlinear_arith)
                            requires
                                factor_product(factors@, self@) == factor_product(
                                    old_factors,
                                    self@,
                                ) * (n as int),
                                factor_product(old_factors, self@) * (n as int) == num,
                        ;
                        assert(1 < num && self@[k as int] <= num) by {
                            assert(factor_product(old_factors, self@) >= 1);
                            assert(n <= num);
                        }
                    }
                    Ok(factors)
                },
                None => {
                    proof {
                        // every prime factor of the remainder lies beyond the table
                        assert forall|q: int| is_prime(q) && #[trigger] ((n as int) % q) == 0
                            implies q > self.last_prime() by {
                            lemma_divisor_le(q, n as int);
                            if q <= self.last_prime() {
                                assert(contains_value(self@, q));
                                let kq = choose|kq: int| 0 <= kq < self@.len()
                                    && #[trigger] self@[kq] as int == q;
                                if kq < i {
                                    assert((n as int) % (self@[kq] as int) != 0);
                                } else {
                                    assert(i < len);
                                    assert(self@[i as int] <= self@[kq] || i as int == kq);
                                    assert((self@[i as int] as int) * (self@[i as int] as int)
                                        > n as int);
                                    if !is_prime(n as int) {
                                        lemma_composite_small_prime_factor(n as int);
                                        let q2 = choose|q2: int| is_prime(q2) && #[trigger] ((
                                        n as int) % q2) == 0 && q2 * q2 <= n as int;
                                        assert(q2 < self@[i as int] as int) by (nonlinear_arith)
                                            requires
                                                q2 * q2 <= n as int,
                                                (self@[i as int] as int) * (self@[
                                                i as int] as int) > n as int,
                                                q2 >= 0,
                                                self@[i as int] as int >= 0,
                                        ;
                                        assert(contains_value(self@, q2));
                                        let kq2 = choose|kq2: int| 0 <= kq2 < self@.len()
                                            && #[trigger] self@[kq2] as int == q2;
                                        if kq2 >= i {
                                            assert(self@[i as int] <= self@[kq2]);
                                            assert(false);
                                        }
                                        assert((n as int) % (self@[kq2] as int) != 0);
                                        assert(false);
                                    }
                                    // n itself is prime, so its one prime factor is n,
                                    // which the completeness of the table would then hold
                                    assert(is_prime(n as int));
                                    assert(q == n as int);
                                    assert(contains_value(self@, n as int));
                                    assert(false);
                                }
                                assert(false);
                            }
                        }
                        // the remainder itself then exceeds the largest prime
                        lemma_prime_factor(n as int);
                        let q0 = choose|q0: int| is_prime(q0) && #[trigger] ((n as int) % q0)
                            == 0 && q0 <= n as int;
                        assert(q0 > self.last_prime());
                        // the remainder divides the input, so the input too has a
                        // prime factor beyond the table
                        lemma_mod_multiples_basic(factor_product(factors@, self@), n as int);
                        assert((num as int) % (n as int) == 0) by {
                            assert(num as int == factor_product(factors@, self@) * (n as int));
                        }
                        lemma_divides_transfer(q0, n as int, num as int);
                        assert(is_prime(q0) && (num as int) % q0 == 0 && q0
                            > self.last_prime());
                        // success owed below the bound, and owed whenever the
                        // table covers every prime factor of the input
                        if 2 <= num <= self.last_prime() {
                            lemma_divisor_le(n as int, num as int);
                            assert(false);
                        }
                        if factors_covered(self@, num as int) {
                            assert(q0 <= self@.last() as int);
                            assert(false);
                        }
                    }
                    Err(InsufficientBound { remainder: n })
                },
            }
        } else {
            proof {
                assert(factors@ =~= spec_factorize(self@, num as nat));
                assert(factor_product(factors@, self@) == num) by {
                    assert(factor_product(factors@, self@) * 1 == factor_product(
                        factors@,
                        self@,
                    ));
                }
            }
            Ok(factors)
        }
    }
}

/// Two to a power outgrows the exponent.
proof fn lemma_pow2_greater(e: nat)
    ensures
        pow2(e) > e,
    decreases e,
{
    if e == 0 {
        lemma2_to64();
    } else {
        lemma_pow2_greater((e - 1) as nat);
        assert(pow2(e) == 2 * pow2((e - 1) as nat)) by {
            vstd::arithmetic::power2::lemma_pow2_unfold(e);
        }
    }
}

/// Raising a larger base to the same power gives a larger result.
proof fn lemma_pow_base_le(a: int, b: int, e: nat)
    requires
        1 <= a <= b,
    ensures
        pow(a, e) <= pow(b, e),
    decreases e,
{
    if e == 0 {
        lemma_pow0(a);
        lemma_pow0(b);
    } else {
        lemma_pow_base_le(a, b, (e - 1) as nat);
        lemma_pow_positive(a, (e - 1) as nat);
        lemma_pow_positive(b, (e - 1) as nat);
        assert(a * pow(a, (e - 1) as nat) <= b * pow(b, (e - 1) as nat)) by (nonlinear_arith)
            requires
                1 <= a <= b,
                0 < pow(a, (e - 1) as nat),
                pow(a, (e - 1) as nat) <= pow(b, (e - 1) as nat),
        ;
        lemma_pow1(a);
        lemma_pow1(b);
        lemma_pow_adds(a, (e - 1) as nat, 1);
        lemma_pow_adds(b, (e - 1) as nat, 1);
        assert(pow(a, e) == pow(a, (e - 1) as nat) * a);
        assert(pow(b, e) == pow(b, (e - 1) as nat) * b);
    }
}

} // verus!


