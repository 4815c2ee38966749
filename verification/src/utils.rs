//! Integer helpers for choosing FFT sizes.
use vstd::prelude::*;
use vstd::arithmetic::power::{pow, lemma_pow_positive};
use vstd::arithmetic::div_mod::{lemma_mul_mod_noop, lemma_mod_multiples_basic, lemma_div_multiples_vanish};

verus! {

/// `2^a * 3^b * 5^c * 7^d`.
pub open spec fn smooth_product(a: nat, b: nat, c: nat, d: nat) -> int {
    pow(2, a) * pow(3, b) * pow(5, c) * pow(7, d)
}

/// `n` is a product of the primes 2, 3, 5 and 7 only: a length for which
/// mixed-radix FFTs are fast.
pub open spec fn is_fast(n: int) -> bool {
    exists|a: nat, b: nat, c: nat, d: nat| #[trigger] smooth_product(a, b, c, d) == n
}

/// The primes that a fast length is built from.
pub open spec fn is_small_prime(p: int) -> bool {
    p == 2 || p == 3 || p == 5 || p == 7
}

/// A small prime dividing neither factor divides no product of them.
proof fn lemma_small_prime_product(p: int, x: int, y: int)
    requires
        is_small_prime(p),
        x % p != 0,
        y % p != 0,
    ensures
        (x * y) % p != 0,
{
    lemma_mul_mod_noop(x, y, p);
    let r = x % p;
    let s = y % p;
    assert(0 < r < p && 0 < s < p);
    assert((r * s) % p != 0) by (nonlinear_arith)
        requires
            p == 2 || p == 3 || p == 5 || p == 7,
            0 < r < p,
            0 < s < p,
    ;
}


/// A power of a small prime is not divisible by another small prime.
proof fn lemma_pow_not_multiple(q: int, p: int, k: nat)
    requires
        is_small_prime(q),
        is_small_prime(p),
        q != p,
    ensures
        pow(q, k) % p != 0,
    decreases k,
{
    reveal(pow);
    if k == 0 {
        assert(pow(q, 0) == 1);
    } else {
        lemma_pow_not_multiple(q, p, (k - 1) as nat);
        assert(q % p != 0);
        lemma_small_prime_product(p, q, pow(q, (k - 1) as nat));
        assert(pow(q, k) == q * pow(q, (k - 1) as nat));
    }
}

/// Peels one factor `p` off `p^e * rest` when `rest` is coprime to `p`.
proof fn lemma_peel(p: int, e: nat, rest: int, n: int)
    requires
        is_small_prime(p),
        rest % p != 0,
        n == pow(p, e) * rest,
        n % p == 0,
    ensures
        e >= 1,
        n / p == pow(p, (e - 1) as nat) * rest,
{
    reveal(pow);
    if e == 0 {
        assert(pow(p, 0) == 1);
        assert(n == rest);
    }
    let m = pow(p, (e - 1) as nat) * rest;
    assert(pow(p, e) == p * pow(p, (e - 1) as nat));
    assert(n == p * m) by (nonlinear_arith)
        requires
            n == pow(p, e) * rest,
            pow(p, e) == p * pow(p, (e - 1) as nat),
            m == pow(p, (e - 1) as nat) * rest,
    ;
    lemma_div_multiples_vanish(m, p);
}

/// Fast lengths are positive.
pub proof fn lemma_fast_positive(n: int)
    requires
        is_fast(n),
    ensures
        n >= 1,
{
    let (a, b, c, d) = choose|a: nat, b: nat, c: nat, d: nat| #[trigger] smooth_product(a, b, c, d) == n;
    lemma_pow_positive(2, a);
    lemma_pow_positive(3, b);
    lemma_pow_positive(5, c);
    lemma_pow_positive(7, d);
    let (x2, x3, x5, x7) = (pow(2, a), pow(3, b), pow(5, c), pow(7, d));
    assert(x2 * x3 * x5 * x7 >= 1) by (nonlinear_arith)
        requires
            x2 >= 1,
            x3 >= 1,
            x5 >= 1,
            x7 >= 1,
    ;
}

/// Dividing a fast length by one of its small prime factors leaves a fast length.
pub proof fn lemma_fast_div(n: int, p: int)
    requires
        is_fast(n),
        is_small_prime(p),
        n % p == 0,
    ensures
        is_fast(n / p),
{
    let (a, b, c, d) = choose|a: nat, b: nat, c: nat, d: nat| #[trigger] smooth_product(a, b, c, d) == n;
    let (x2, x3, x5, x7) = (pow(2, a), pow(3, b), pow(5, c), pow(7, d));
    assert(n == x2 * x3 * x5 * x7);
    if p == 2 {
        lemma_pow_not_multiple(3, 2, b);
        lemma_pow_not_multiple(5, 2, c);
        lemma_pow_not_multiple(7, 2, d);
        lemma_small_prime_product(2, x3, x5);
        lemma_small_prime_product(2, x3 * x5, x7);
        let rest = x3 * x5 * x7;
        assert(n == x2 * rest) by (nonlinear_arith)
            requires
                n == x2 * x3 * x5 * x7,
                rest == x3 * x5 * x7,
        ;
        lemma_peel(2, a, rest, n);
        let y2 = pow(2, (a - 1) as nat);
        assert(y2 * rest == y2 * x3 * x5 * x7) by (nonlinear_arith)
            requires
                rest == x3 * x5 * x7,
        ;
        assert(smooth_product((a - 1) as nat, b, c, d) == n / p);
    } else if p == 3 {
        lemma_pow_not_multiple(2, 3, a);
        lemma_pow_not_multiple(5, 3, c);
        lemma_pow_not_multiple(7, 3, d);
        lemma_small_prime_product(3, x2, x5);
        lemma_small_prime_product(3, x2 * x5, x7);
        let rest = x2 * x5 * x7;
        assert(n == x3 * rest) by (nonlinear_arith)
            requires
                n == x2 * x3 * x5 * x7,
                rest == x2 * x5 * x7,
        ;
        lemma_peel(3, b, rest, n);
        let y3 = pow(3, (b - 1) as nat);
        assert(y3 * rest == x2 * y3 * x5 * x7) by (nonlinear_arith)
            requires
                rest == x2 * x5 * x7,
        ;
        assert(smooth_product(a, (b - 1) as nat, c, d) == n / p);
    } else if p == 5 {
        lemma_pow_not_multiple(2, 5, a);
        lemma_pow_not_multiple(3, 5, b);
        lemma_pow_not_multiple(7, 5, d);
        lemma_small_prime_product(5, x2, x3);
        lemma_small_prime_product(5, x2 * x3, x7);
        let rest = x2 * x3 * x7;
        assert(n == x5 * rest) by (nonlinear_arith)
            requires
                n == x2 * x3 * x5 * x7,
                rest == x2 * x3 * x7,
        ;
        lemma_peel(5, c, rest, n);
        let y5 = pow(5, (c - 1) as nat);
        assert(y5 * rest == x2 * x3 * y5 * x7) by (nonlinear_arith)
            requires
                rest == x2 * x3 * x7,
        ;
        assert(smooth_product(a, b, (c - 1) as nat, d) == n / p);
    } else {
        lemma_pow_not_multiple(2, 7, a);
        lemma_pow_not_multiple(3, 7, b);
        lemma_pow_not_multiple(5, 7, c);
        lemma_small_prime_product(7, x2, x3);
        lemma_small_prime_product(7, x2 * x3, x5);
        let rest = x2 * x3 * x5;
        assert(n == x7 * rest) by (nonlinear_arith)
            requires
                n == x2 * x3 * x5 * x7,
                rest == x2 * x3 * x5,
        ;
        lemma_peel(7, d, rest, n);
        let y7 = pow(7, (d - 1) as nat);
        assert(y7 * rest == x2 * x3 * x5 * y7) by (nonlinear_arith)
            requires
                rest == x2 * x3 * x5,
        ;
        assert(smooth_product(a, b, c, (d - 1) as nat) == n / p);
    }
}

/// A fast length that none of 2, 3, 5, 7 divides is 1.
proof fn lemma_fast_coprime_is_one(n: int)
    requires
        is_fast(n),
        n % 2 != 0,
        n % 3 != 0,
        n % 5 != 0,
        n % 7 != 0,
    ensures
        n == 1,
{
    reveal(pow);
    let (a, b, c, d) = choose|a: nat, b: nat, c: nat, d: nat| #[trigger] smooth_product(a, b, c, d) == n;
    let (x2, x3, x5, x7) = (pow(2, a), pow(3, b), pow(5, c), pow(7, d));
    if a > 0 {
        let t = pow(2, (a - 1) as nat) * x3 * x5 * x7;
        assert(x2 == 2 * pow(2, (a - 1) as nat));
        assert(n == t * 2) by (nonlinear_arith)
            requires
                n == x2 * x3 * x5 * x7,
                x2 == 2 * pow(2, (a - 1) as nat),
                t == pow(2, (a - 1) as nat) * x3 * x5 * x7,
        ;
        lemma_mod_multiples_basic(t, 2);
    }
    if b > 0 {
        let t = x2 * pow(3, (b - 1) as nat) * x5 * x7;
        assert(x3 == 3 * pow(3, (b - 1) as nat));
        assert(n == t * 3) by (nonlinear_arith)
            requires
                n == x2 * x3 * x5 * x7,
                x3 == 3 * pow(3, (b - 1) as nat),
                t == x2 * pow(3, (b - 1) as nat) * x5 * x7,
        ;
        lemma_mod_multiples_basic(t, 3);
    }
    if c > 0 {
        let t = x2 * x3 * pow(5, (c - 1) as nat) * x7;
        assert(x5 == 5 * pow(5, (c - 1) as nat));
        assert(n == t * 5) by (nonlinear_arith)
            requires
                n == x2 * x3 * x5 * x7,
                x5 == 5 * pow(5, (c - 1) as nat),
                t == x2 * x3 * pow(5, (c - 1) as nat) * x7,
        ;
        lemma_mod_multiples_basic(t, 5);
    }
    if d > 0 {
        let t = x2 * x3 * x5 * pow(7, (d - 1) as nat);
        assert(x7 == 7 * pow(7, (d - 1) as nat));
        assert(n == t * 7) by (nonlinear_arith)
            requires
                n == x2 * x3 * x5 * x7,
                x7 == 7 * pow(7, (d - 1) as nat),
                t == x2 * x3 * x5 * pow(7, (d - 1) as nat),
        ;
        lemma_mod_multiples_basic(t, 7);
    }
    assert(x2 == 1 && x3 == 1 && x5 == 1 && x7 == 1);
}


/// Removing a factor `p` keeps a number coprime to every `q` it was coprime to.
proof fn lemma_quotient_keeps_coprime(m: int, p: int, q: int)
    requires
        is_small_prime(p),
        q > 0,
        m % p == 0,
        m % q != 0,
    ensures
        (m / p) % q != 0,
{
    vstd::arithmetic::div_mod::lemma_fundamental_div_mod(m, p);
    assert(m == p * (m / p));
    lemma_mul_mod_noop(p, m / p, q);
    if (m / p) % q == 0 {
        assert((p % q) * ((m / p) % q) == 0);
        assert(0int % q == 0);
        assert((p * (m / p)) % q == 0);
    }
}

/// Divides every factor `p` out of `n`, reporting how many there were.
fn strip_factor(n: usize, p: usize) -> (res: (usize, Ghost<nat>))
    requires
        n > 0,
        is_small_prime(p as int),
    ensures
        res.0 > 0,
        (res.0 as int) % (p as int) != 0,
        n as int == res.0 as int * pow(p as int, res.1@),
        is_fast(n as int) ==> is_fast(res.0 as int),
        forall|q: int| q > 0 && #[trigger] ((n as int) % q) != 0 ==> (res.0 as int) % q != 0,
{
    let mut m = n;
    let ghost mut k: nat = 0;
    proof {
        vstd::arithmetic::power::lemma_pow0(p as int);
    }
    while m % p == 0
        invariant
            m > 0,
            is_small_prime(p as int),
            n as int == m as int * pow(p as int, k),
            is_fast(n as int) ==> is_fast(m as int),
            forall|q: int| q > 0 && #[trigger] ((n as int) % q) != 0 ==> (m as int) % q != 0,
        decreases m,
    {
        let next = m / p;
        proof {
            if is_fast(m as int) {
                lemma_fast_div(m as int, p as int);
            }
            assert forall|q: int| q > 0 && #[trigger] ((n as int) % q) != 0 implies (next as int) % q != 0 by {
                lemma_quotient_keeps_coprime(m as int, p as int, q);
            }
            vstd::arithmetic::div_mod::lemma_fundamental_div_mod(m as int, p as int);
            reveal(pow);
            let pk = pow(p as int, k);
            assert(pow(p as int, k + 1) == p * pk);
            assert(n as int == next as int * pow(p as int, k + 1)) by (nonlinear_arith)
                requires
                    n as int == m as int * pk,
                    m as int == p * (next as int),
                    pow(p as int, k + 1) == p * pk,
            ;
        }
        m = next;
        proof {
            k = k + 1;
        }
    }
    (m, Ghost(k))
}

/// Whether `n` factors completely into the primes 2, 3, 5 and 7.
pub fn is_fast_len(n: usize) -> (r: bool)
    ensures
        r == is_fast(n as int),
{
    if n == 0 {
        proof {
            if is_fast(0) {
                lemma_fast_positive(0);
            }
        }
        return false;
    }
    let (m2, Ghost(a)) = strip_factor(n, 2);
    let (m3, Ghost(b)) = strip_factor(m2, 3);
    let (m5, Ghost(c)) = strip_factor(m3, 5);
    let (m7, Ghost(d)) = strip_factor(m5, 7);
    proof {
        if m7 == 1 {
            let (x2, x3, x5, x7) = (pow(2, a), pow(3, b), pow(5, c), pow(7, d));
            assert(smooth_product(a, b, c, d) == n as int) by (nonlinear_arith)
                requires
                    n as int == m2 as int * x2,
                    m2 as int == m3 as int * x3,
                    m3 as int == m5 as int * x5,
                    m5 as int == m7 as int * x7,
                    m7 == 1,
                    smooth_product(a, b, c, d) == x2 * x3 * x5 * x7,
            ;
        }
        if is_fast(n as int) {
            assert((m3 as int) % 2 != 0);
            assert((m5 as int) % 2 != 0 && (m5 as int) % 3 != 0);
            assert((m7 as int) % 2 != 0 && (m7 as int) % 3 != 0 && (m7 as int) % 5 != 0);
            lemma_fast_coprime_is_one(m7 as int);
        }
    }
    m7 == 1
}

/// `r` is the smallest fast length that is at least `n`.
pub open spec fn is_next_fast_len(n: int, r: int) -> bool {
    &&& n <= r
    &&& is_fast(r)
    &&& forall|m: int| n <= m < r ==> !is_fast(m)
}

/// Some fast length at least `n` is representable as a `usize`.
pub open spec fn fast_len_fits(n: int) -> bool {
    exists|m: int| n <= m <= usize::MAX && #[trigger] is_fast(m)
}

/// The next length at or above `n` that factors into 2, 3, 5 and 7 (1 for `n <= 1`).
pub fn next_fast_len(n: usize) -> (r: usize)
    requires
        fast_len_fits(n as int),
    ensures
        is_next_fast_len(n as int, r as int),
{
    if n <= 1 {
        proof {
            lemma_one_is_fast();
            if is_fast(0) {
                lemma_fast_positive(0);
            }
        }
        return 1;
    }
    let ghost m0 = choose|m: int| n <= m <= usize::MAX && #[trigger] is_fast(m);
    let mut best = n;
    loop
        invariant
            n <= best <= m0,
            m0 <= usize::MAX,
            is_fast(m0),
            forall|m: int| n <= m < best ==> !is_fast(m),
        decreases m0 - best,
    {
        if is_fast_len(best) {
            return best;
        }
        best = best + 1;
    }
}

/// 1 is the empty product of small primes.
pub proof fn lemma_one_is_fast()
    ensures
        is_fast(1),
{
    reveal(pow);
    assert(smooth_product(0, 0, 0, 0) == 1);
}


/// The next fast length of `n` is unique.
pub proof fn lemma_next_fast_len_unique(n: int, r1: int, r2: int)
    requires
        is_next_fast_len(n, r1),
        is_next_fast_len(n, r2),
    ensures
        r1 == r2,
{
}

/// A fast length is its own next fast length.
pub proof fn lemma_fast_len_is_fixed_point(n: int)
    requires
        is_fast(n),
    ensures
        is_next_fast_len(n, n),
{
}

/// Taking the next fast length twice gives the same length as taking it once.
pub proof fn lemma_next_fast_len_idempotent(n: int, r: int)
    requires
        is_next_fast_len(n, r),
    ensures
        is_next_fast_len(r, r),
{
}

/// The next fast length grows with its argument.
pub proof fn lemma_next_fast_len_monotone(n1: int, n2: int, r1: int, r2: int)
    requires
        n1 <= n2,
        is_next_fast_len(n1, r1),
        is_next_fast_len(n2, r2),
    ensures
        r1 <= r2,
{
    if r2 < r1 {
        assert(n1 <= r2 < r1);
    }
}

/// Every power of two is a fast length.
pub proof fn lemma_power_of_two_is_fast(k: nat)
    ensures
        is_fast(pow(2, k)),
{
    reveal(pow);
    assert(smooth_product(k, 0, 0, 0) == pow(2, k));
}

/// `next_fast_len` may be called on any `n` up to a power of two that fits a `usize`.
pub proof fn lemma_fits_below_power_of_two(n: int, k: nat)
    requires
        n <= pow(2, k) <= usize::MAX,
    ensures
        fast_len_fits(n),
{
    lemma_power_of_two_is_fast(k);
}

proof fn lemma_swap_middle(a: int, b: int, c: int, d: int)
    ensures
        (a * b) * (c * d) == (a * c) * (b * d),
{
    assert((a * b) * (c * d) == (a * c) * (b * d)) by (nonlinear_arith);
}

/// Products of fast lengths are fast lengths.
pub proof fn lemma_fast_mul(x: int, y: int)
    requires
        is_fast(x),
        is_fast(y),
    ensures
        is_fast(x * y),
{
    let (a, b, c, d) = choose|a: nat, b: nat, c: nat, d: nat| #[trigger] smooth_product(a, b, c, d) == x;
    let (e, f, g, h) = choose|a: nat, b: nat, c: nat, d: nat| #[trigger] smooth_product(a, b, c, d) == y;
    vstd::arithmetic::power::lemma_pow_adds(2, a, e);
    vstd::arithmetic::power::lemma_pow_adds(3, b, f);
    vstd::arithmetic::power::lemma_pow_adds(5, c, g);
    vstd::arithmetic::power::lemma_pow_adds(7, d, h);
    let (x2, x3, x5, x7) = (pow(2, a), pow(3, b), pow(5, c), pow(7, d));
    let (y2, y3, y5, y7) = (pow(2, e), pow(3, f), pow(5, g), pow(7, h));
    lemma_swap_middle(x2, x3, y2, y3);
    lemma_swap_middle(x2 * x3, x5, y2 * y3, y5);
    lemma_swap_middle(x2 * x3 * x5, x7, y2 * y3 * y5, y7);
    assert(smooth_product(a + e, b + f, c + g, d + h) == x * y);
}

} // verus!
