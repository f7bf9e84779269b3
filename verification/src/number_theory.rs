use vstd::prelude::*;
use vstd::arithmetic::div_mod::*;
use vstd::math::abs;

verus! {

/// `d` divides `n`.
pub open spec fn divides(d: int, n: int) -> bool {
    n % d == 0
}

/// `n` is a prime number.
pub open spec fn is_prime(n: int) -> bool {
    n > 1 && forall|d: int| 1 < d < n ==> !#[trigger] divides(d, n)
}

/// The greatest common divisor, by Euclid's algorithm.
pub open spec fn gcd(a: nat, b: nat) -> nat
    decreases b,
{
    if b == 0 {
        a
    } else {
        gcd(b, a % b)
    }
}

/// Bezout's identity: the gcd is an integer combination of its arguments.
pub proof fn lemma_bezout(a: nat, b: nat) -> (xy: (int, int))
    ensures
        a * xy.0 + b * xy.1 == gcd(a, b) as int,
    decreases b,
{
    if b == 0 {
        (1, 0)
    } else {
        let (x, y) = lemma_bezout(b, a % b);
        lemma_fundamental_div_mod(a as int, b as int);
        let q = a as int / b as int;
        let r = a as int % b as int;
        assert(b * x + r * y == gcd(a, b));
        assert(a == b * q + r);
        assert(b * x + (a - b * q) * y == a * y + b * (x - q * y)) by (nonlinear_arith);
        (y, x - q * y)
    }
}

/// A combination of multiples of `m` is a multiple of `m`.
pub proof fn lemma_combination_divisible(m: int, a: int, b: int, x: int, y: int)
    requires
        m > 0,
        divides(m, a),
        divides(m, b),
    ensures
        divides(m, a * x + b * y),
{
    lemma_fundamental_div_mod(a, m);
    lemma_fundamental_div_mod(b, m);
    let qa = a / m;
    let qb = b / m;
    assert(a * x + b * y == m * (qa * x + qb * y)) by (nonlinear_arith)
        requires
            a == m * qa,
            b == m * qb,
    ;
    lemma_mod_multiples_vanish(qa * x + qb * y, 0, m);
}

/// The gcd divides both of its arguments, and is positive unless both are zero.
pub proof fn lemma_gcd_divides(a: nat, b: nat)
    ensures
        a > 0 || b > 0 ==> gcd(a, b) > 0,
        gcd(a, b) > 0 ==> divides(gcd(a, b) as int, a as int) && divides(gcd(a, b) as int, b as int),
    decreases b,
{
    if b == 0 {
        if a > 0 {
            lemma_mod_self_0(a as int);
            lemma_small_mod(0, a);
        }
    } else {
        lemma_gcd_divides(b, a % b);
        let g = gcd(a, b) as int;
        lemma_mod_pos_bound(a as int, b as int);
        if b > 0 {
            assert(g > 0) by {
                if a % b == 0 {
                    assert(gcd(b, 0) == b);
                }
            }
        }
        lemma_fundamental_div_mod(a as int, b as int);
        let q = a as int / b as int;
        let r = a as int % b as int;
        lemma_combination_divisible(g, b as int, r, q, 1);
        assert(b * q + r * 1 == a);
    }
}

/// A positive number has no divisor larger than itself.
proof fn lemma_divisor_le(d: int, n: int)
    requires
        n > 0,
        d > 0,
        divides(d, n),
    ensures
        d <= n,
{
    if d > n {
        lemma_small_mod(n as nat, d as nat);
    }
}

/// A prime shares no factor with a number it does not divide.
pub proof fn lemma_prime_coprime(p: int, k: nat)
    requires
        is_prime(p),
        !divides(p, k as int),
    ensures
        gcd(k, p as nat) == 1,
{
    lemma_gcd_divides(k, p as nat);
    let g = gcd(k, p as nat) as int;
    lemma_divisor_le(g, p);
    if g == p {
    } else if g > 1 {
        assert(divides(g, p));
    }
}

/// Gauss's lemma: if `m` divides `a * k` and `k` is coprime to `m`, then `m` divides `a`.
pub proof fn lemma_coprime_cancel(m: int, k: int, a: int)
    requires
        m > 0,
        gcd(abs(k) as nat, m as nat) == 1,
        divides(m, a * k),
    ensures
        divides(m, a),
{
    let (x0, y) = lemma_bezout(abs(k) as nat, m as nat);
    let x = if k < 0 { -x0 } else { x0 };
    assert(k * x == abs(k) * x0) by (nonlinear_arith)
        requires
            x == (if k < 0 { -x0 } else { x0 }),
    ;
    assert(k * x + m * y == 1);
    assert(a == (a * k) * x + m * (a * y)) by (nonlinear_arith)
        requires
            k * x + m * y == 1,
    ;
    lemma_mod_self_0(m);
    lemma_combination_divisible(m, a * k, m, x, a * y);
    assert((a * k) * x + m * (a * y) == (a * k) * x + m * (a * y));
}

/// A multiple of `m` strictly between `-m` and `m` is zero.
pub proof fn lemma_small_multiple_is_zero(m: int, d: int)
    requires
        m > 0,
        -m < d < m,
        divides(m, d),
    ensures
        d == 0,
{
    if d > 0 {
        lemma_small_mod(d as nat, m as nat);
    } else if d < 0 {
        lemma_mod_add_multiples_vanish(d, m);
        lemma_small_mod((m + d) as nat, m as nat);
    }
}

/// Modulo a prime `m`, a number strictly between `-m` and `m` that multiplies a nonzero
/// residue into zero is zero.
pub proof fn lemma_prime_product_zero(m: int, d: int, k: int)
    requires
        is_prime(m),
        -m < d < m,
        -m < k < m,
        k != 0,
        divides(m, d * k),
    ensures
        d == 0,
{
    let ak = abs(k) as int;
    if divides(m, ak) {
        lemma_small_multiple_is_zero(m, ak);
    }
    lemma_prime_coprime(m, ak as nat);
    lemma_coprime_cancel(m, k, d);
    lemma_small_multiple_is_zero(m, d);
}

/// Equal residues differ by a multiple of the modulus.
pub proof fn lemma_same_residue(m: int, x: int, y: int)
    requires
        m > 0,
        x % m == y % m,
    ensures
        divides(m, x - y),
{
    lemma_mod_equivalence(x, y, m);
}

} // verus!
