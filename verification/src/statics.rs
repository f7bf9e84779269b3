use vstd::prelude::*;
use vstd::arithmetic::div_mod::{lemma_fundamental_div_mod, lemma_fundamental_div_mod_converse, lemma_mod_multiples_basic};
use crate::binary_collections::{sorted, strictly_sorted, BinaryCollection, BinaryResizableCollection};
use crate::number_theory::{divides, is_prime};
use crate::triples_array::TriplesArray;
use crate::batches::{header_ok, steiner_system};
use crate::text::{decimal, push_decimal};
use vstd::string::*;

verus! {

/// Calls `u128::isqrt`, which its documentation says returns the square root rounded down.
#[verifier::external_body]
pub(crate) fn isqrt_u128(n: u128) -> (r: u128)
    ensures
        r * r <= n < (r + 1) * (r + 1),
{
    n.isqrt()
}

/// An even number divides only even numbers.
proof fn lemma_even_divisor(d: int, n: int)
    requires
        d > 0,
        d % 2 == 0,
        divides(d, n),
    ensures
        n % 2 == 0,
{
    lemma_fundamental_div_mod(n, d);
    lemma_fundamental_div_mod(d, 2);
    let k = n / d;
    let j = d / 2;
    assert(n == 2 * (j * k)) by (nonlinear_arith)
        requires
            n == d * k,
            d == 2 * j,
    ;
    lemma_mod_multiples_basic(j * k, 2);
    assert(2 * (j * k) == (j * k) * 2) by (nonlinear_arith);
}

/// A number with no divisor from `2` to its square root is prime.
proof fn lemma_prime_below_root(n: int, f: int, root: int)
    requires
        n > 1,
        root * root <= n < (root + 1) * (root + 1),
        f > root,
        root >= 0,
        forall|d: int| 1 < d < f ==> !#[trigger] divides(d, n),
    ensures
        is_prime(n),
{
    assert forall|d: int| 1 < d < n implies !#[trigger] divides(d, n) by {
        if divides(d, n) && d >= f {
            lemma_fundamental_div_mod(n, d);
            let e = n / d;
            assert(n == d * e);
            assert(e >= 1) by (nonlinear_arith)
                requires
                    n == d * e,
                    n > 1,
                    d > 1,
            ;
            if e >= root + 1 {
                assert(d * e >= (root + 1) * (root + 1)) by (nonlinear_arith)
                    requires
                        d >= root + 1,
                        e >= root + 1,
                        root >= 0,
                ;
            }
            assert(e != 1) by (nonlinear_arith)
                requires
                    n == d * e,
                    d < n,
            ;
            lemma_mod_multiples_basic(d, e);
            assert(d * e == n);
            assert(divides(e, n));
            assert(1 < e < f);
        }
    }
}

/// Trial division by the odd numbers up to the square root, as a `u128`.
fn is_prime_u128(n: u128) -> (r: bool)
    ensures
        r == is_prime(n as int),
{
    if n <= 1 {
        return false;
    }
    let low_bit = n & 1;
    assert(low_bit == n % 2) by (bit_vector)
        requires
            low_bit == n & 1,
    ;
    if low_bit == 0 {
        if n != 2 {
            assert(divides(2, n as int));
        }
        return n == 2;
    }
    let mut f: u128 = 3;
    let root = isqrt_u128(n);
    assert(root < 0x1_0000_0000_0000_0000) by (nonlinear_arith)
        requires
            root * root <= n,
            n < 0x1_0000_0000_0000_0000_0000_0000_0000_0000,
    ;
    while f <= root
        invariant
            n > 1,
            n % 2 == 1,
            root * root <= n < (root + 1) * (root + 1),
            root < 0x1_0000_0000_0000_0000,
            3 <= f <= root + 2,
            f % 2 == 1,
            forall|d: int| 1 < d < f ==> !#[trigger] divides(d, n as int),
        decreases root + 2 - f,
    {
        if n % f == 0 {
            assert(f < n) by (nonlinear_arith)
                requires
                    f <= root,
                    root * root <= n,
                    n > 1,
                    f >= 3,
            ;
            assert(divides(f as int, n as int));
            return false;
        }
        assert forall|d: int| 1 < d < f + 2 implies !#[trigger] divides(d, n as int) by {
            if d == f + 1 && divides(d, n as int) {
                lemma_even_divisor(d, n as int);
            }
        }
        f = f + 2;
    }
    proof {
        lemma_prime_below_root(n as int, f as int, root as int);
    }
    true
}

/// The answer when a number can be neither shown nor ruled out.
#[derive(Debug, PartialEq, Eq, Structural, PartialOrd, Ord)]
pub struct TestError;

/// The numbers that the search for `omicron` starts from.
pub open spec fn seeds(phi: int) -> Seq<int> {
    if phi == 3 {
        seq![7, 9, 13, 15, 19, 21]
    } else {
        seq![phi]
    }
}

/// From a value `c` the search reaches `c * (c - 1) + 1` when `c - 1` is prime, and `c * c`
/// when `c` is prime.
pub open spec fn quick_step(c: int, x: int) -> bool {
    (is_prime(c - 1) && x == c * (c - 1) + 1) || (is_prime(c) && x == c * c)
}

/// A sequence of values that starts at a seed and goes by steps.
pub open spec fn is_chain(seeds: Seq<int>, chain: Seq<int>) -> bool {
    &&& chain.len() >= 1
    &&& seeds.contains(chain[0])
    &&& forall|i: int| 0 <= i < chain.len() - 1 ==> #[trigger] quick_step(chain[i], chain[i + 1])
}

/// `n` is reached from the seeds by steps.
pub open spec fn derivable(seeds: Seq<int>, n: int) -> bool {
    exists|chain: Seq<int>| is_chain(seeds, chain) && chain.last() == n
}

/// What `test_quick` answers for `omicron == n`: whether `n` elements can be split into
/// batches of `phi` with every pair in exactly one batch, where a few divisibility rules and
/// the known constructions decide it, and `TestError` where they do not.
pub open spec fn quick_verdict(n: int, phi: int) -> Result<bool, TestError> {
    if n <= 1 {
        Ok(phi == 0)
    } else if phi <= 1 {
        Ok(false)
    } else if phi == 2 || phi == n {
        Ok(true)
    } else if (n - 1) % (phi - 1) != 0 {
        Ok(false)
    } else if n <= phi * (phi - 1) {
        Ok(false)
    } else if ((n % (phi * (phi - 1))) * ((n - 1) % (phi * (phi - 1)))) % (phi * (phi - 1)) > 0 {
        Ok(false)
    } else if !is_prime(phi) && !is_prime(phi - 1) {
        Err(TestError)
    } else if derivable(seeds(phi), n) {
        Ok(true)
    } else {
        Err(TestError)
    }
}

/// `test_quick` runs to its end on `n` and `phi` in a type whose largest value is `max`: it
/// reaches neither its check that `n` is not the largest value nor an overflowing product.
pub open spec fn quick_defined(n: int, phi: int, max: int) -> bool {
    (n > 1 && phi > 2 && phi != n && (n - 1) % (phi - 1) == 0) ==> {
        &&& n != max
        &&& n > phi * (phi - 1) ==> (n % (phi * (phi - 1))) * ((n - 1) % (phi * (phi - 1))) <= max
    }
}

/// A step leads to a larger value.
proof fn lemma_step_grows(c: int)
    ensures
        forall|x: int| #[trigger] quick_step(c, x) ==> x > c,
{
    assert forall|x: int| #[trigger] quick_step(c, x) implies x > c by {
        if is_prime(c - 1) && x == c * (c - 1) + 1 {
            assert(c * (c - 1) + 1 > c) by (nonlinear_arith)
                requires
                    c >= 3,
            ;
        } else {
            assert(c * c > c) by (nonlinear_arith)
                requires
                    c >= 2,
            ;
        }
    }
}

/// A chain extended by a step is a chain.
proof fn lemma_chain_push(seeds: Seq<int>, chain: Seq<int>, x: int)
    requires
        is_chain(seeds, chain),
        quick_step(chain.last(), x),
    ensures
        is_chain(seeds, chain.push(x)),
        chain.push(x).last() == x,
        derivable(seeds, x),
{
    let c = chain.push(x);
    assert forall|i: int| 0 <= i < c.len() - 1 implies #[trigger] quick_step(c[i], c[i + 1]) by {
        if i < chain.len() - 1 {
            assert(c[i] == chain[i] && c[i + 1] == chain[i + 1]);
            assert(quick_step(chain[i], chain[i + 1]));
        }
    }
}

/// The values of a chain grow.
proof fn lemma_chain_increasing(seeds: Seq<int>, chain: Seq<int>, i: int, j: int)
    requires
        is_chain(seeds, chain),
        0 <= i <= j < chain.len(),
    ensures
        chain[i] <= chain[j],
    decreases j - i,
{
    if i < j {
        lemma_chain_increasing(seeds, chain, i, j - 1);
        let i0 = j - 1;
        lemma_step_grows(chain[i0]);
        assert(quick_step(chain[i0], chain[i0 + 1]));
    }
}

/// A set that holds the seeds and is closed under steps up to `n` holds every value of a
/// chain to `n`.
proof fn lemma_chain_closed(seeds: Seq<int>, chain: Seq<int>, processed: Set<int>, n: int, i: int)
    requires
        is_chain(seeds, chain),
        chain.last() == n,
        0 <= i < chain.len(),
        forall|s: int| #[trigger] seeds.contains(s) ==> processed.contains(s),
        forall|x: int, y: int|
            #![trigger processed.contains(x), quick_step(x, y)]
            processed.contains(x) && quick_step(x, y) && y <= n ==> processed.contains(y),
    ensures
        processed.contains(chain[i]),
    decreases i,
{
    if i > 0 {
        lemma_chain_closed(seeds, chain, processed, n, i - 1);
        let i0 = i - 1;
        assert(quick_step(chain[i0], chain[i0 + 1]));
        lemma_chain_increasing(seeds, chain, i, chain.len() - 1);
    }
}

/// After an insertion that keeps the elements and adds `new`, every element still lies above
/// `cur`, within `bound` and is reached from the seeds; and every earlier element remains.
proof fn lemma_to_set_grows(prev: Seq<int>, next: Seq<int>, new: int, cur: int, bound: int, sd: Seq<int>)
    requires
        next.to_set() == prev.to_set().insert(new),
        cur < new <= bound,
        derivable(sd, new),
        forall|t: int| #[trigger] prev.contains(t) ==> cur < t <= bound && derivable(sd, t),
    ensures
        forall|t: int| #[trigger] next.contains(t) ==> cur < t <= bound && derivable(sd, t),
        forall|t: int| #[trigger] prev.contains(t) ==> next.contains(t),
        next.contains(new),
{
    assert forall|t: int| #[trigger] next.contains(t) implies cur < t <= bound && derivable(sd, t) by {
        assert(next.to_set().contains(t));
        if t != new {
            assert(prev.to_set().contains(t));
        }
    }
    assert forall|t: int| #[trigger] prev.contains(t) implies next.contains(t) by {
        assert(prev.to_set().contains(t));
        assert(next.to_set().contains(t));
    }
    assert(next.to_set().contains(new));
}

/// `(isqrt(4n - 3) + 1) / 2` is the largest `r` with `r * (r - 1) + 1 <= n`.
proof fn lemma_inverse_bounds(n: int, k: int, r: int)
    requires
        n >= 1,
        k >= 0,
        k * k <= 4 * n - 3 < (k + 1) * (k + 1),
        r == (k + 1) / 2,
    ensures
        r >= 1,
        r * (r - 1) + 1 <= n < r * (r + 1) + 1,
{
    assert(k >= 1) by (nonlinear_arith)
        requires
            k >= 0,
            4 * n - 3 < (k + 1) * (k + 1),
            n >= 1,
    ;
    if k % 2 == 1 {
        assert(k == 2 * r - 1);
        assert(4 * (r * (r - 1) + 1) == k * k + 3) by (nonlinear_arith)
            requires
                k == 2 * r - 1,
        ;
        assert((k + 1) * (k + 1) == 4 * (r * r)) by (nonlinear_arith)
            requires
                k == 2 * r - 1,
        ;
        assert(r * r <= r * (r + 1)) by (nonlinear_arith)
            requires
                r >= 1,
        ;
    } else {
        assert(k == 2 * r);
        assert(4 * (r * (r - 1) + 1) == k * k - 2 * k + 4) by (nonlinear_arith)
            requires
                k == 2 * r,
        ;
        assert(4 * (r * (r + 1) + 1) == (k + 1) * (k + 1) + 3) by (nonlinear_arith)
            requires
                k == 2 * r,
        ;
    }
}

/// `r` is the largest `phi >= 1` with `phi * (phi - 1) + 1 <= n`.
pub open spec fn weak_bounds(n: int, r: int) -> bool {
    r >= 1 && r * (r - 1) + 1 <= n < r * (r + 1) + 1
}

/// The largest `phi` with `phi * (phi - 1) + 1 <= n`, except that it is `2` for `2`: what
/// `max_phi_weak` answers.
pub open spec fn weak_phi(n: int) -> int {
    if n == 2 {
        2
    } else {
        choose|r: int| #[trigger] weak_bounds(n, r)
    }
}

/// Only one `r >= 1` has `r * (r - 1) + 1 <= n < r * (r + 1) + 1`.
proof fn lemma_weak_phi(n: int, r: int)
    requires
        n != 2,
        r >= 1,
        r * (r - 1) + 1 <= n < r * (r + 1) + 1,
    ensures
        weak_phi(n) == r,
{
    assert(weak_bounds(n, r));
    let w = weak_phi(n);
    assert(weak_bounds(n, w));
    if w < r {
        assert(r * (r - 1) >= w * (w + 1)) by (nonlinear_arith)
            requires
                w + 1 <= r,
                w >= 1,
        ;
    } else if w > r {
        assert(w * (w - 1) >= r * (r + 1)) by (nonlinear_arith)
            requires
                r + 1 <= w,
                r >= 1,
        ;
    }
}

/// How many elements batches of `phi` can be built on.
pub trait BatchNumber: Sized {
    /// The number as an integer.
    spec fn value(self) -> int;

    /// The largest value of the type.
    spec fn max_value() -> int;

    /// Decides, where a few divisibility rules and the known constructions suffice, whether
    /// `self` elements can be split into batches of `phi` with every pair in exactly one batch.
    fn test_quick(self, phi: Self) -> (r: Result<bool, TestError>)
        requires
            quick_defined(self.value(), phi.value(), Self::max_value()),
        ensures
            r == quick_verdict(self.value(), phi.value()),
    ;

    /// The largest `phi` with `phi * (phi - 1) + 1 <= self`, except that it is `2` for `2`.
    fn max_phi_weak(self) -> (r: Self)
        requires
            self.value() >= 1,
        ensures
            self.value() == 2 ==> r.value() == 2,
            self.value() != 2 ==> r.value() >= 1 && r.value() * (r.value() - 1) + 1 <= self.value()
                < r.value() * (r.value() + 1) + 1,
    ;

    /// The largest `phi` with `phi * (phi - 1) + 1 <= self`.
    fn inverse_phi_2_n_phi_p_1(self) -> (r: Self)
        requires
            self.value() >= 1,
        ensures
            r.value() >= 1,
            r.value() * (r.value() - 1) + 1 <= self.value() < r.value() * (r.value() + 1) + 1,
    ;

    /// The largest `phi` up to `max_phi_weak` that `test_quick` does not rule out.
    fn max_phi_strong(self) -> (r: Self)
        requires
            self.value() >= 1,
            forall|phi: int|
                0 <= phi <= weak_phi(self.value()) ==> #[trigger] quick_defined(self.value(), phi, Self::max_value()),
        ensures
            0 <= r.value() <= weak_phi(self.value()),
            quick_verdict(self.value(), r.value()) != Ok::<bool, TestError>(false),
            forall|phi: int|
                r.value() < phi <= weak_phi(self.value()) ==> #[trigger] quick_verdict(self.value(), phi)
                    == Ok::<bool, TestError>(false),
    ;

    /// `test_quick`, except that for `phi == 3` the answer is `TriplesArray::test`'s, which
    /// searches where the quick rules do not decide.
    fn test_slow(self, phi: Self, status_updates: bool) -> (r: Result<bool, TestError>)
        requires
            phi.value() == 3 ==> self.value() < usize::MAX,
            phi.value() != 3 ==> quick_defined(self.value(), phi.value(), Self::max_value()),
        ensures
            phi.value() != 3 ==> r == quick_verdict(self.value(), phi.value()),
            phi.value() == 3 ==> r is Ok && (quick_verdict(self.value(), 3) matches Ok(b) ==> r == Ok::<
                bool,
                TestError,
            >(b)),
            phi.value() == 3 && quick_verdict(self.value(), 3) is Err && self.value() <= u32::MAX ==> (r == Ok::<
                bool,
                TestError,
            >(true) <==> exists|blocks: Set<Set<u32>>| #[trigger] steiner_system(self.value(), 3, 0, self.value() - 1, blocks)),
    ;
}

/// Primality.
pub trait Composition {
    /// Whether the number is prime.
    fn is_prime(self) -> bool;
}

impl Composition for u8 {
    fn is_prime(self) -> (r: bool)
        ensures
            r == is_prime(self as int),
    {
        is_prime_u128(self as u128)
    }
}

impl Composition for u16 {
    fn is_prime(self) -> (r: bool)
        ensures
            r == is_prime(self as int),
    {
        is_prime_u128(self as u128)
    }
}

impl Composition for u32 {
    fn is_prime(self) -> (r: bool)
        ensures
            r == is_prime(self as int),
    {
        is_prime_u128(self as u128)
    }
}

impl Composition for u64 {
    fn is_prime(self) -> (r: bool)
        ensures
            r == is_prime(self as int),
    {
        is_prime_u128(self as u128)
    }
}

impl Composition for usize {
    fn is_prime(self) -> (r: bool)
        ensures
            r == is_prime(self as int),
    {
        is_prime_u128(self as u128)
    }
}

impl Composition for u128 {
    fn is_prime(self) -> (r: bool)
        ensures
            r == is_prime(self as int),
    {
        is_prime_u128(self)
    }
}

impl Composition for i8 {
    fn is_prime(self) -> (r: bool)
        ensures
            r == is_prime(self as int),
    {
        if self <= 1 {
            false
        } else {
            is_prime_u128(self as u128)
        }
    }
}

impl Composition for i16 {
    fn is_prime(self) -> (r: bool)
        ensures
            r == is_prime(self as int),
    {
        if self <= 1 {
            false
        } else {
            is_prime_u128(self as u128)
        }
    }
}

impl Composition for i32 {
    fn is_prime(self) -> (r: bool)
        ensures
            r == is_prime(self as int),
    {
        if self <= 1 {
            false
        } else {
            is_prime_u128(self as u128)
        }
    }
}

impl Composition for i64 {
    fn is_prime(self) -> (r: bool)
        ensures
            r == is_prime(self as int),
    {
        if self <= 1 {
            false
        } else {
            is_prime_u128(self as u128)
        }
    }
}

impl Composition for isize {
    fn is_prime(self) -> (r: bool)
        ensures
            r == is_prime(self as int),
    {
        if self <= 1 {
            false
        } else {
            is_prime_u128(self as u128)
        }
    }
}

impl Composition for i128 {
    fn is_prime(self) -> (r: bool)
        ensures
            r == is_prime(self as int),
    {
        if self <= 1 {
            false
        } else {
            is_prime_u128(self as u128)
        }
    }
}

/// `x * y`, or the largest value when that overflows.
fn saturating_mul_u32(x: u32, y: u32) -> (r: u32)
    ensures
        r == (if x * y > u32::MAX { u32::MAX as int } else { x * y }),
{
    match x.checked_mul(y) {
        Some(v) => v,
        None => u32::MAX,
    }
}

impl BatchNumber for u32 {
    open spec fn value(self) -> int {
        self as int
    }

    open spec fn max_value() -> int {
        u32::MAX as int
    }

    fn test_quick(self, phi: Self) -> (r: Result<bool, TestError>) {
        if self <= 1 {
            if phi == 0 {
                return Ok(true);
            } else {
                return Ok(false);
            }
        }
        if phi <= 1 {
            return Ok(false);
        }
        if phi == 2 {
            return Ok(true);
        }
        if phi == self {
            return Ok(true);
        }
        if (self - 1) % (phi - 1) != 0 {
            return Ok(false);
        }
        if self < saturating_mul_u32(phi, phi - 1) {
            return Ok(false);
        }
        let m = phi * (phi - 1);
        assert(m > 0) by (nonlinear_arith)
            requires
                m == phi * (phi - 1),
                phi >= 3,
        ;
        if self <= m {
            return Ok(false);
        }
        assert(((self as int) % (m as int)) * ((self as int - 1) % (m as int)) <= u32::MAX);
        if (self % m) * ((self - 1) % m) % m > 0 {
            return Ok(false);
        }
        let prime_phi = phi.is_prime();
        if !prime_phi && !(phi - 1).is_prime() {
            return Err(TestError);
        }
        let ghost n = self as int;
        let ghost sd = seeds(phi as int);
        let mut trivials: Vec<u32> = if phi == 3 {
            vec![7, 9, 13, 15, 19, 21]
        } else {
            vec![phi]
        };
        let ghost bound: int = if n > 21 { n } else { 21 };
        let ghost mut low: int = 0;
        let ghost mut processed: Set<int> = Set::empty();
        assert(phi < n) by (nonlinear_arith)
            requires
                n > phi * (phi - 1),
                phi >= 3,
        ;
        proof {
            assert(sd == trivials.items()) by {
                assert(sd =~= trivials.items());
            }
            assert forall|t: int| trivials.items().contains(t) implies derivable(sd, t) by {
                let chain = seq![t];
                assert(is_chain(sd, chain));
                assert(chain.last() == t);
            }
        }
        assert(quick_verdict(n, phi as int) == (if derivable(sd, n) {
            Ok::<bool, TestError>(true)
        } else {
            Err(TestError)
        }));
        while trivials.len() > 0
            invariant
                quick_verdict(n, phi as int) == (if derivable(sd, n) {
                    Ok::<bool, TestError>(true)
                } else {
                    Err(TestError)
                }),
                n == self,
                n > 21 ==> bound == n,
                n <= 21 ==> bound == 21,
                n < u32::MAX,
                phi >= 3,
                sd == seeds(phi as int),
                strictly_sorted(trivials.items()),
                sorted(trivials.items()),
                forall|t: int| #[trigger] trivials.items().contains(t) ==> low < t <= bound && derivable(sd, t),
                forall|x: int| #[trigger] processed.contains(x) ==> x <= low && x != n,
                forall|x: int, y: int|
                    #![trigger processed.contains(x), quick_step(x, y)]
                    processed.contains(x) && quick_step(x, y) && y <= n ==> processed.contains(y)
                        || trivials.items().contains(y),
                forall|s: int| #[trigger] sd.contains(s) ==> processed.contains(s) || trivials.items().contains(s),
                low >= 0,
            decreases bound - low,
        {
            let ghost before = trivials.items();
            let cur = trivials.remove(0);
            proof {
                assert(before[0] == cur);
                assert(trivials.items() =~= before.subrange(1, before.len() as int));
                assert(before.contains(cur as int));
                assert forall|t: int| #[trigger] trivials.items().contains(t) implies cur < t <= bound
                    && derivable(sd, t) by {
                    let j = choose|j: int| 0 <= j < trivials.items().len() && trivials.items()[j] == t;
                    assert(before[j + 1] == t);
                    assert(before.contains(t));
                }
                assert forall|t: int| before.contains(t) && t != cur implies trivials.items().contains(t) by {
                    let j = choose|j: int| 0 <= j < before.len() && before[j] == t;
                    assert(trivials.items()[j - 1] == t);
                }
            }
            if self == cur {
                return Ok(true);
            }
            proof {
                lemma_step_grows(cur as int);
            }
            let ghost mid = trivials.items();
            if (cur - 1).is_prime() {
                let new = saturating_mul_u32(cur, cur - 1).saturating_add(1);
                if new <= self {
                    proof {
                        assert(quick_step(cur as int, new as int));
                        let c = choose|c: Seq<int>| is_chain(sd, c) && c.last() == cur;
                        lemma_chain_push(sd, c, new as int);
                    }
                    let ghost prev = trivials.items();
                    trivials.b_insert_keep(new);
                    proof {
                        lemma_to_set_grows(prev, trivials.items(), new as int, cur as int, bound, sd);
                    }
                }
            }
            let ghost mid2 = trivials.items();
            if cur.is_prime() {
                let new = saturating_mul_u32(cur, cur);
                if new <= self {
                    proof {
                        assert(quick_step(cur as int, new as int));
                        let c = choose|c: Seq<int>| is_chain(sd, c) && c.last() == cur;
                        lemma_chain_push(sd, c, new as int);
                    }
                    let ghost prev = trivials.items();
                    trivials.b_insert_keep(new);
                    proof {
                        lemma_to_set_grows(prev, trivials.items(), new as int, cur as int, bound, sd);
                    }
                }
            }
            proof {
                processed = processed.insert(cur as int);
                low = cur as int;
                assert forall|x: int, y: int|
                    #![trigger processed.contains(x), quick_step(x, y)]
                    processed.contains(x) && quick_step(x, y) && y <= n implies processed.contains(y)
                        || trivials.items().contains(y) by {
                    if x == cur {
                        if is_prime(cur - 1) && y == cur * (cur - 1) + 1 {
                            assert(mid2.contains(y));
                        }
                    } else {
                        if before.contains(y) && y != cur {
                            assert(mid.contains(y));
                        }
                    }
                }
                assert forall|s: int| #[trigger] sd.contains(s) implies processed.contains(s)
                    || trivials.items().contains(s) by {
                    if before.contains(s) && s != cur {
                        assert(mid.contains(s));
                    }
                }
            }
        }
        proof {
            if derivable(sd, n) {
                let c = choose|c: Seq<int>| is_chain(sd, c) && c.last() == n;
                lemma_chain_closed(sd, c, processed, n, c.len() - 1);
            }
        }
        Err(TestError)
    }

    fn inverse_phi_2_n_phi_p_1(self) -> (r: Self) {
        let k = isqrt_u128(4 * (self as u128) - 3);
        assert(k < 0x100_0000_0000_0000_0000) by (nonlinear_arith)
            requires
                k * k <= 4 * (self as u128) - 3,
                self < 0x1_0000_0000_0000_0000,
        ;
        let r = (k + 1) / 2;
        proof {
            lemma_inverse_bounds(self as int, k as int, r as int);
        }
        assert(r <= u32::MAX) by (nonlinear_arith)
            requires
                r * (r - 1) + 1 <= self,
                r >= 1,
                self <= u32::MAX,
        ;
        r as u32
    }

    fn max_phi_weak(self) -> (r: Self) {
        if self == 2 {
            self
        } else {
            self.inverse_phi_2_n_phi_p_1()
        }
    }

    fn max_phi_strong(self) -> (r: Self) {
        let n = self;
        let mut max = self.max_phi_weak();
        proof {
            if n != 2 {
                lemma_weak_phi(n as int, max as int);
            }
            if n >= 3 {
                assert(max >= 2) by (nonlinear_arith)
                    requires
                        n >= 3,
                        n < max * (max + 1) + 1,
                        max >= 1,
                ;
            }
        }
        loop
            invariant
                n == self,
                n >= 1,
                0 <= max <= weak_phi(n as int),
                n >= 2 ==> max >= 2,
                forall|phi: int| 0 <= phi <= weak_phi(n as int) ==> #[trigger] quick_defined(n as int, phi, u32::MAX as int),
                forall|phi: int| max < phi <= weak_phi(n as int) ==> #[trigger] quick_verdict(n as int, phi) == Ok::<bool, TestError>(false),
            ensures
                0 <= max <= weak_phi(n as int),
                quick_verdict(n as int, max as int) != Ok::<bool, TestError>(false),
                forall|phi: int| max < phi <= weak_phi(n as int) ==> #[trigger] quick_verdict(n as int, phi) == Ok::<bool, TestError>(false),
            decreases max,
        {
            assert(quick_defined(n as int, max as int, u32::MAX as int));
            let verdict = self.test_quick(max);
            match verdict {
                Ok(false) => {},
                _ => {
                    break;
                },
            }
            max = max - 1;
        }
        max
    }

    fn test_slow(self, phi: Self, status_updates: bool) -> (r: Result<bool, TestError>) {
        if phi == 3 {
            return Ok(TriplesArray::test(self as usize, status_updates));
        }
        self.test_quick(phi)
    }
}

/// `x * y`, or the largest value when that overflows.
fn saturating_mul_usize(x: usize, y: usize) -> (r: usize)
    ensures
        r == (if x * y > usize::MAX { usize::MAX as int } else { x * y }),
{
    match x.checked_mul(y) {
        Some(v) => v,
        None => usize::MAX,
    }
}

impl BatchNumber for usize {
    open spec fn value(self) -> int {
        self as int
    }

    open spec fn max_value() -> int {
        usize::MAX as int
    }

    fn test_quick(self, phi: Self) -> (r: Result<bool, TestError>) {
        if self <= 1 {
            if phi == 0 {
                return Ok(true);
            } else {
                return Ok(false);
            }
        }
        if phi <= 1 {
            return Ok(false);
        }
        if phi == 2 {
            return Ok(true);
        }
        if phi == self {
            return Ok(true);
        }
        if (self - 1) % (phi - 1) != 0 {
            return Ok(false);
        }
        if self < saturating_mul_usize(phi, phi - 1) {
            return Ok(false);
        }
        let m = phi * (phi - 1);
        assert(m > 0) by (nonlinear_arith)
            requires
                m == phi * (phi - 1),
                phi >= 3,
        ;
        if self <= m {
            return Ok(false);
        }
        assert(((self as int) % (m as int)) * ((self as int - 1) % (m as int)) <= usize::MAX);
        if (self % m) * ((self - 1) % m) % m > 0 {
            return Ok(false);
        }
        let prime_phi = phi.is_prime();
        if !prime_phi && !(phi - 1).is_prime() {
            return Err(TestError);
        }
        let ghost n = self as int;
        let ghost sd = seeds(phi as int);
        let mut trivials: Vec<usize> = if phi == 3 {
            vec![7, 9, 13, 15, 19, 21]
        } else {
            vec![phi]
        };
        let ghost bound: int = if n > 21 { n } else { 21 };
        let ghost mut low: int = 0;
        let ghost mut processed: Set<int> = Set::empty();
        assert(phi < n) by (nonlinear_arith)
            requires
                n > phi * (phi - 1),
                phi >= 3,
        ;
        proof {
            assert(sd == trivials.items()) by {
                assert(sd =~= trivials.items());
            }
            assert forall|t: int| trivials.items().contains(t) implies derivable(sd, t) by {
                let chain = seq![t];
                assert(is_chain(sd, chain));
                assert(chain.last() == t);
            }
        }
        assert(quick_verdict(n, phi as int) == (if derivable(sd, n) {
            Ok::<bool, TestError>(true)
        } else {
            Err(TestError)
        }));
        while trivials.len() > 0
            invariant
                quick_verdict(n, phi as int) == (if derivable(sd, n) {
                    Ok::<bool, TestError>(true)
                } else {
                    Err(TestError)
                }),
                n == self,
                n > 21 ==> bound == n,
                n <= 21 ==> bound == 21,
                n < usize::MAX,
                phi >= 3,
                sd == seeds(phi as int),
                strictly_sorted(trivials.items()),
                sorted(trivials.items()),
                forall|t: int| #[trigger] trivials.items().contains(t) ==> low < t <= bound && derivable(sd, t),
                forall|x: int| #[trigger] processed.contains(x) ==> x <= low && x != n,
                forall|x: int, y: int|
                    #![trigger processed.contains(x), quick_step(x, y)]
                    processed.contains(x) && quick_step(x, y) && y <= n ==> processed.contains(y)
                        || trivials.items().contains(y),
                forall|s: int| #[trigger] sd.contains(s) ==> processed.contains(s) || trivials.items().contains(s),
                low >= 0,
            decreases bound - low,
        {
            let ghost before = trivials.items();
            let cur = trivials.remove(0);
            proof {
                assert(before[0] == cur);
                assert(trivials.items() =~= before.subrange(1, before.len() as int));
                assert(before.contains(cur as int));
                assert forall|t: int| #[trigger] trivials.items().contains(t) implies cur < t <= bound
                    && derivable(sd, t) by {
                    let j = choose|j: int| 0 <= j < trivials.items().len() && trivials.items()[j] == t;
                    assert(before[j + 1] == t);
                    assert(before.contains(t));
                }
                assert forall|t: int| before.contains(t) && t != cur implies trivials.items().contains(t) by {
                    let j = choose|j: int| 0 <= j < before.len() && before[j] == t;
                    assert(trivials.items()[j - 1] == t);
                }
            }
            if self == cur {
                return Ok(true);
            }
            proof {
                lemma_step_grows(cur as int);
            }
            let ghost mid = trivials.items();
            if (cur - 1).is_prime() {
                let new = saturating_mul_usize(cur, cur - 1).saturating_add(1);
                if new <= self {
                    proof {
                        assert(quick_step(cur as int, new as int));
                        let c = choose|c: Seq<int>| is_chain(sd, c) && c.last() == cur;
                        lemma_chain_push(sd, c, new as int);
                    }
                    let ghost prev = trivials.items();
                    trivials.b_insert_keep(new);
                    proof {
                        lemma_to_set_grows(prev, trivials.items(), new as int, cur as int, bound, sd);
                    }
                }
            }
            let ghost mid2 = trivials.items();
            if cur.is_prime() {
                let new = saturating_mul_usize(cur, cur);
                if new <= self {
                    proof {
                        assert(quick_step(cur as int, new as int));
                        let c = choose|c: Seq<int>| is_chain(sd, c) && c.last() == cur;
                        lemma_chain_push(sd, c, new as int);
                    }
                    let ghost prev = trivials.items();
                    trivials.b_insert_keep(new);
                    proof {
                        lemma_to_set_grows(prev, trivials.items(), new as int, cur as int, bound, sd);
                    }
                }
            }
            proof {
                processed = processed.insert(cur as int);
                low = cur as int;
                assert forall|x: int, y: int|
                    #![trigger processed.contains(x), quick_step(x, y)]
                    processed.contains(x) && quick_step(x, y) && y <= n implies processed.contains(y)
                        || trivials.items().contains(y) by {
                    if x == cur {
                        if is_prime(cur - 1) && y == cur * (cur - 1) + 1 {
                            assert(mid2.contains(y));
                        }
                    } else {
                        if before.contains(y) && y != cur {
                            assert(mid.contains(y));
                        }
                    }
                }
                assert forall|s: int| #[trigger] sd.contains(s) implies processed.contains(s)
                    || trivials.items().contains(s) by {
                    if before.contains(s) && s != cur {
                        assert(mid.contains(s));
                    }
                }
            }
        }
        proof {
            if derivable(sd, n) {
                let c = choose|c: Seq<int>| is_chain(sd, c) && c.last() == n;
                lemma_chain_closed(sd, c, processed, n, c.len() - 1);
            }
        }
        Err(TestError)
    }

    fn inverse_phi_2_n_phi_p_1(self) -> (r: Self) {
        let k = isqrt_u128(4 * (self as u128) - 3);
        assert(k < 0x100_0000_0000_0000_0000) by (nonlinear_arith)
            requires
                k * k <= 4 * (self as u128) - 3,
                self < 0x1_0000_0000_0000_0000,
        ;
        let r = (k + 1) / 2;
        proof {
            lemma_inverse_bounds(self as int, k as int, r as int);
        }
        assert(r <= usize::MAX) by (nonlinear_arith)
            requires
                r * (r - 1) + 1 <= self,
                r >= 1,
                self <= usize::MAX,
        ;
        r as usize
    }

    fn max_phi_weak(self) -> (r: Self) {
        if self == 2 {
            self
        } else {
            self.inverse_phi_2_n_phi_p_1()
        }
    }

    fn max_phi_strong(self) -> (r: Self) {
        let n = self;
        let mut max = self.max_phi_weak();
        proof {
            if n != 2 {
                lemma_weak_phi(n as int, max as int);
            }
            if n >= 3 {
                assert(max >= 2) by (nonlinear_arith)
                    requires
                        n >= 3,
                        n < max * (max + 1) + 1,
                        max >= 1,
                ;
            }
        }
        loop
            invariant
                n == self,
                n >= 1,
                0 <= max <= weak_phi(n as int),
                n >= 2 ==> max >= 2,
                forall|phi: int| 0 <= phi <= weak_phi(n as int) ==> #[trigger] quick_defined(n as int, phi, usize::MAX as int),
                forall|phi: int| max < phi <= weak_phi(n as int) ==> #[trigger] quick_verdict(n as int, phi) == Ok::<bool, TestError>(false),
            ensures
                0 <= max <= weak_phi(n as int),
                quick_verdict(n as int, max as int) != Ok::<bool, TestError>(false),
                forall|phi: int| max < phi <= weak_phi(n as int) ==> #[trigger] quick_verdict(n as int, phi) == Ok::<bool, TestError>(false),
            decreases max,
        {
            assert(quick_defined(n as int, max as int, usize::MAX as int));
            let verdict = self.test_quick(max);
            match verdict {
                Ok(false) => {},
                _ => {
                    break;
                },
            }
            max = max - 1;
        }
        max
    }

    fn test_slow(self, phi: Self, status_updates: bool) -> (r: Result<bool, TestError>) {
        if phi == 3 {
            return Ok(TriplesArray::test(self as usize, status_updates));
        }
        self.test_quick(phi)
    }
}

/// The number of entries in a list of results from `min` up to `top`, with the extra entry for
/// `omicron` itself when `extra`.
pub open spec fn span_len(min: int, top: int, extra: bool) -> int {
    top - min + 1 + if extra { 1int } else { 0int }
}

/// The least batch size listed: `min`, `2` by default.
pub open spec fn list_low(min: Option<usize>) -> int {
    match min {
        Some(m) => m as int,
        None => 2,
    }
}

/// The largest batch size listed: `max`, by default the largest `phi` that could work (see
/// `max_phi_weak`).
pub open spec fn list_high(omicron: usize, max: Option<usize>) -> int {
    match max {
        Some(m) => m as int,
        None => weak_phi(omicron as int),
    }
}

/// The sizes from `lo` to `hi`, one past the other; none when `lo` is `hi + 1`.
fn span_count(lo: usize, hi: usize) -> (r: usize)
    requires
        lo <= hi + 1,
        hi - lo + 1 <= usize::MAX,
    ensures
        r == hi - lo + 1,
{
    if lo > hi {
        0
    } else {
        (hi - lo) + 1
    }
}

/// The largest batch size to list: `max`, or `max_phi_weak` by default.
fn high_of(omicron: usize, max: Option<usize>) -> (r: usize)
    requires
        max is None ==> omicron >= 1,
    ensures
        r == list_high(omicron, max),
{
    match max {
        Some(m) => m,
        None => {
            let w = omicron.max_phi_weak();
            proof {
                if omicron != 2 {
                    lemma_weak_phi(omicron as int, w as int);
                }
            }
            w
        },
    }
}

/// `test_quick` for each `phi` from `min` up to and including `max`, which default to `2` and
/// the largest `phi` that could work (`max_phi_weak`); by default `omicron` itself is listed
/// as well, as a success, when it is at least `min`.
pub fn test_omicron_quick(omicron: usize, min: Option<usize>, max: Option<usize>) -> (r: Vec<(usize, Result<bool, TestError>)>)
    requires
        max is None ==> omicron >= 1,
        list_low(min) <= list_high(omicron, max) + 1,
        list_high(omicron, max) - list_low(min) + 2 <= usize::MAX,
        forall|phi: int| list_low(min) <= phi <= list_high(omicron, max) ==> #[trigger] quick_defined(omicron as int, phi, usize::MAX as int),
    ensures
        ({
            let lo = list_low(min);
            let hi = list_high(omicron, max);
            let extra = max is None && lo <= omicron;
            &&& r.len() == span_len(lo, hi, extra)
            &&& forall|k: int| 0 <= k <= hi - lo ==> #[trigger] r@[k] == ((lo + k) as usize, quick_verdict(omicron as int, lo + k))
            &&& extra ==> r@[hi - lo + 1] == (omicron, Ok::<bool, TestError>(true))
        }),
{
    let lo: usize = match min {
        Some(m) => m,
        None => 2,
    };
    let defaulted = max.is_none();
    let hi = high_of(omicron, max);
    let count = span_count(lo, hi);
    let mut out: Vec<(usize, Result<bool, TestError>)> = Vec::with_capacity(count + 1);
    let mut k: usize = 0;
    while k < count
        invariant
            0 <= k <= count,
            count == hi - lo + 1,
            lo == list_low(min),
            hi == list_high(omicron, max),
            out.len() == k,
            forall|p: int| lo <= p <= hi ==> #[trigger] quick_defined(omicron as int, p, usize::MAX as int),
            forall|j: int| 0 <= j < k ==> #[trigger] out@[j] == ((lo + j) as usize, quick_verdict(omicron as int, lo + j)),
        decreases count - k,
    {
        let phi = lo + k;
        assert(quick_defined(omicron as int, phi as int, usize::MAX as int));
        let verdict = omicron.test_quick(phi);
        out.push((phi, verdict));
        k += 1;
    }
    if defaulted && lo <= omicron {
        out.push((omicron, Ok(true)));
    }
    out
}

/// `test_slow` for each `phi` from `min` up to and including `max`, which default to `2` and
/// the largest `phi` that could work (`max_phi_weak`).
pub fn test_omicron_slow(omicron: usize, min: Option<usize>, max: Option<usize>, status_updates: bool) -> (r: Vec<(usize, Result<bool, TestError>)>)
    requires
        max is None ==> omicron >= 1,
        omicron < usize::MAX,
        list_low(min) <= list_high(omicron, max) + 1,
        list_high(omicron, max) - list_low(min) + 1 <= usize::MAX,
        forall|phi: int| list_low(min) <= phi <= list_high(omicron, max) && phi != 3 ==> #[trigger] quick_defined(omicron as int, phi, usize::MAX as int),
    ensures
        ({
            let lo = list_low(min);
            let hi = list_high(omicron, max);
            &&& r.len() == hi - lo + 1
            &&& forall|k: int| 0 <= k <= hi - lo ==> (#[trigger] r@[k]).0 == lo + k
            &&& forall|k: int| 0 <= k <= hi - lo && lo + k != 3 ==> (#[trigger] r@[k]).1 == quick_verdict(omicron as int, lo + k)
            &&& forall|k: int| 0 <= k <= hi - lo && lo + k == 3 ==> (#[trigger] r@[k]).1 is Ok && (quick_verdict(omicron as int, 3) matches Ok(b) ==> r@[k].1 == Ok::<bool, TestError>(b)) && (quick_verdict(omicron as int, 3) is Err && omicron <= u32::MAX ==> (r@[k].1 == Ok::<bool, TestError>(true) <==> exists|blocks: Set<Set<u32>>| #[trigger] steiner_system(omicron as int, 3, 0, omicron - 1, blocks)))
        }),
{
    let lo: usize = match min {
        Some(m) => m,
        None => 2,
    };
    let hi = high_of(omicron, max);
    let count = span_count(lo, hi);
    let mut out: Vec<(usize, Result<bool, TestError>)> = Vec::with_capacity(count);
    let mut k: usize = 0;
    while k < count
        invariant
            0 <= k <= count,
            count == hi - lo + 1,
            lo == list_low(min),
            hi == list_high(omicron, max),
            omicron < usize::MAX,
            out.len() == k,
            forall|p: int| lo <= p <= hi && p != 3 ==> #[trigger] quick_defined(omicron as int, p, usize::MAX as int),
            forall|j: int| 0 <= j < k ==> (#[trigger] out@[j]).0 == lo + j,
            forall|j: int| 0 <= j < k && lo + j != 3 ==> (#[trigger] out@[j]).1 == quick_verdict(omicron as int, lo + j),
            forall|j: int| 0 <= j < k && lo + j == 3 ==> (#[trigger] out@[j]).1 is Ok && (quick_verdict(omicron as int, 3) matches Ok(b) ==> out@[j].1 == Ok::<bool, TestError>(b)) && (quick_verdict(omicron as int, 3) is Err && omicron <= u32::MAX ==> (out@[j].1 == Ok::<bool, TestError>(true) <==> exists|blocks: Set<Set<u32>>| #[trigger] steiner_system(omicron as int, 3, 0, omicron - 1, blocks))),
        decreases count - k,
    {
        let phi = lo + k;
        if phi != 3 {
            assert(quick_defined(omicron as int, phi as int, usize::MAX as int));
        }
        let verdict = omicron.test_slow(phi, status_updates);
        out.push((phi, verdict));
        k += 1;
    }
    out
}

/// How one result reads in a list: its number when it is a success, the number after a `?`
/// when it is unknown and `unknowns` asks for those, and nothing otherwise.
pub open spec fn result_piece(x: (usize, Result<bool, TestError>), unknowns: bool) -> Option<Seq<char>> {
    match x.1 {
        Ok(true) => Some(decimal(x.0 as nat)),
        Ok(false) => None,
        Err(_) => if unknowns {
            Some(seq!['?'] + decimal(x.0 as nat))
        } else {
            None
        },
    }
}

/// The first `k` results' pieces, joined by `", "`.
pub open spec fn results_text(rs: Seq<(usize, Result<bool, TestError>)>, unknowns: bool, k: nat) -> Seq<char>
    decreases k,
{
    if k == 0 {
        seq![]
    } else {
        let prev = results_text(rs, unknowns, (k - 1) as nat);
        match result_piece(rs[k - 1], unknowns) {
            None => prev,
            Some(piece) => if prev.len() == 0 {
                piece
            } else {
                prev + seq![',', ' '] + piece
            },
        }
    }
}

/// What the results show, in order: each success's number, and each unknown's number after a
/// `?` when `unknowns`; a refusal shows nothing.
pub open spec fn shown_pieces(rs: Seq<(usize, Result<bool, TestError>)>, unknowns: bool) -> Seq<Seq<char>>
    decreases rs.len(),
{
    if rs.len() == 0 {
        seq![]
    } else {
        let earlier = shown_pieces(rs.drop_last(), unknowns);
        let x = rs.last();
        if x.1 == Ok::<bool, TestError>(true) {
            earlier.push(decimal(x.0 as nat))
        } else if x.1 is Err && unknowns {
            earlier.push(seq!['?'] + decimal(x.0 as nat))
        } else {
            earlier
        }
    }
}

/// Texts joined by `", "`: the first, then each later one after a separator.
pub open spec fn joined(pieces: Seq<Seq<char>>) -> Seq<char>
    decreases pieces.len(),
{
    if pieces.len() == 0 {
        seq![]
    } else if pieces.len() == 1 {
        pieces[0]
    } else {
        joined(pieces.drop_last()) + seq![',', ' '] + pieces.last()
    }
}

/// Every piece that results show holds at least one character.
proof fn lemma_shown_nonempty(rs: Seq<(usize, Result<bool, TestError>)>, unknowns: bool)
    ensures
        forall|i: int| 0 <= i < shown_pieces(rs, unknowns).len() ==> #[trigger] shown_pieces(rs, unknowns)[i].len() > 0,
    decreases rs.len(),
{
    if rs.len() > 0 {
        let earlier = shown_pieces(rs.drop_last(), unknowns);
        lemma_shown_nonempty(rs.drop_last(), unknowns);
        let x = rs.last();
        let d = decimal(x.0 as nat);
        assert(d.len() > 0);
        assert((seq!['?'] + d).len() > 0);
        let all = shown_pieces(rs, unknowns);
        assert forall|i: int| 0 <= i < all.len() implies #[trigger] all[i].len() > 0 by {
            if i < earlier.len() {
                assert(all[i] == earlier[i]);
            }
        }
    }
}

/// Joining texts that each hold a character gives nothing only when there are none.
proof fn lemma_joined_empty(pieces: Seq<Seq<char>>)
    requires
        forall|i: int| 0 <= i < pieces.len() ==> #[trigger] pieces[i].len() > 0,
    ensures
        (joined(pieces).len() == 0) == (pieces.len() == 0),
{
    if pieces.len() == 1 {
        assert(pieces[0].len() > 0);
    }
}

/// The first `k` results' text is their shown pieces joined by `", "`.
proof fn lemma_results_text_prefix(rs: Seq<(usize, Result<bool, TestError>)>, unknowns: bool, k: nat)
    requires
        k <= rs.len(),
    ensures
        results_text(rs, unknowns, k) == joined(shown_pieces(rs.take(k as int), unknowns)),
    decreases k,
{
    if k == 0 {
        assert(rs.take(0) =~= Seq::<(usize, Result<bool, TestError>)>::empty());
    } else {
        let k0 = (k - 1) as nat;
        lemma_results_text_prefix(rs, unknowns, k0);
        let pre = rs.take(k as int);
        assert(pre.drop_last() =~= rs.take(k0 as int));
        assert(pre.last() == rs[k - 1]);
        let earlier = shown_pieces(rs.take(k0 as int), unknowns);
        lemma_shown_nonempty(rs.take(k0 as int), unknowns);
        lemma_joined_empty(earlier);
        let x = rs[k - 1];
        if x.1 == Ok::<bool, TestError>(true) || (x.1 is Err && unknowns) {
            let piece = if x.1 == Ok::<bool, TestError>(true) {
                decimal(x.0 as nat)
            } else {
                seq!['?'] + decimal(x.0 as nat)
            };
            assert(shown_pieces(pre, unknowns) == earlier.push(piece));
            assert(earlier.push(piece).drop_last() =~= earlier);
            if earlier.len() == 0 {
                assert(earlier.push(piece)[0] == piece);
            }
        } else {
            assert(shown_pieces(pre, unknowns) == earlier);
        }
    }
}

/// The text of a list of results is what they show, joined by `", "`: it starts with the
/// first number shown, without a separator before it, however many results show nothing
/// before that; there is one separator between each two numbers shown, and nothing when none
/// is shown.
pub proof fn law_results_text_joins_shown(rs: Seq<(usize, Result<bool, TestError>)>, unknowns: bool)
    ensures
        results_text(rs, unknowns, rs.len() as nat) == joined(shown_pieces(rs, unknowns)),
{
    lemma_results_text_prefix(rs, unknowns, rs.len() as nat);
    assert(rs.take(rs.len() as int) =~= rs);
}

/// The numbers that the results list, comma-separated: the successes, and the unknowns with
/// a `?` in front when `display_unknowns`.
pub fn format_test_results(results: Vec<(usize, Result<bool, TestError>)>, display_unknowns: bool) -> (r: String)
    ensures
        r@ == results_text(results@, display_unknowns, results.len() as nat),
        r@ == joined(shown_pieces(results@, display_unknowns)),
{
    let mut out = String::new();
    let mut any = false;
    let mut k: usize = 0;
    proof {
        reveal_strlit(", ");
        reveal_strlit("?");
    }
    while k < results.len()
        invariant
            0 <= k <= results.len(),
            out@ == results_text(results@, display_unknowns, k as nat),
            any == (out@.len() > 0),
            ", "@ == seq![',', ' '],
            "?"@ == seq!['?'],
        decreases results.len() - k,
    {
        let num = results[k].0;
        let shown = match &results[k].1 {
            Ok(true) => 1u8,
            Ok(false) => 0u8,
            Err(_) => if display_unknowns {
                2u8
            } else {
                0u8
            },
        };
        let ghost prev = out@;
        if shown > 0 {
            if any {
                out.append(", ");
            }
            if shown == 2 {
                out.append("?");
            }
            push_decimal(&mut out, num as u64);
            any = true;
        }
        proof {
            let piece = result_piece(results@[k as int], display_unknowns);
            if shown > 0 {
                assert(out@ =~= if prev.len() == 0 { piece->0 } else { prev + seq![',', ' '] + piece->0 });
            }
        }
        k += 1;
    }
    proof {
        law_results_text_joins_shown(results@, display_unknowns);
    }
    out
}

/// Unwrapping a result, where a function of what it holds otherwise would make the message.
pub trait ExpectOr<A, E>: Sized {
    /// The result is a success.
    spec fn is_success(&self) -> bool;

    /// What a success holds.
    spec fn success(&self) -> A;

    /// What a failure holds.
    spec fn failure(&self) -> E;

    /// What a success holds; a failure is out of bounds, its message being `func`'s.
    fn expect_or<'a, F: FnMut(E) -> &'a str>(self, func: F) -> (r: A)
        requires
            self.is_success(),
        ensures
            r == self.success(),
    ;

    /// What a failure holds; a success is out of bounds, its message being `func`'s.
    fn expect_err_or<'a, F: FnMut(A) -> &'a str>(self, func: F) -> (r: E)
        requires
            !self.is_success(),
        ensures
            r == self.failure(),
    ;
}

impl<A, E> ExpectOr<A, E> for Result<A, E> {
    open spec fn is_success(&self) -> bool {
        self is Ok
    }

    open spec fn success(&self) -> A {
        self->Ok_0
    }

    open spec fn failure(&self) -> E {
        self->Err_0
    }

    fn expect_or<'a, F: FnMut(E) -> &'a str>(self, func: F) -> (r: A) {
        match self {
            Ok(ans) => ans,
            Err(_) => vstd::pervasive::unreached(),
        }
    }

    fn expect_err_or<'a, F: FnMut(A) -> &'a str>(self, func: F) -> (r: E) {
        match self {
            Ok(_) => vstd::pervasive::unreached(),
            Err(err) => err,
        }
    }
}

/// A result whose two sides hold the same type.
pub trait UnwrapEither<T>: Sized {
    /// What the result holds, on either side.
    spec fn either(&self) -> T;

    /// What the result holds, on either side.
    fn unwrap_either(self) -> (r: T)
        ensures
            r == self.either(),
    ;
}

impl<T> UnwrapEither<T> for Result<T, T> {
    open spec fn either(&self) -> T {
        match self {
            Ok(o) => *o,
            Err(e) => *e,
        }
    }

    fn unwrap_either(self) -> (r: T) {
        match self {
            Ok(o) => o,
            Err(e) => e,
        }
    }
}

/// Every chain from `phi >= 2` to `n`, other than the one-value chain, passes through the
/// value that the first step reaches.
proof fn lemma_second_value(phi: int, chain: Seq<int>)
    requires
        phi >= 4,
        is_chain(seq![phi], chain),
        chain.len() >= 2,
    ensures
        chain[0] == phi,
        quick_step(phi, chain[1]),
        chain.last() >= chain[1],
{
    assert(seq![phi].contains(chain[0]));
    assert(seq![phi][0] == phi);
    assert(chain[0] == phi) by {
        let j = choose|j: int| 0 <= j < 1 && seq![phi][j] == chain[0];
    }
    assert(quick_step(chain[0], chain[1]));
    lemma_chain_increasing(seq![phi], chain, 1, chain.len() - 1);
}

/// For `phi >= 2`, the quick test knows the affine plane of order `phi` exactly when `phi` is
/// prime: on `phi * phi` elements it answers `Ok(true)` then, and `Err` otherwise, as
/// `Batches::phi_2` builds the plane exactly then.
pub proof fn law_affine_plane_verdict(phi: int)
    requires
        phi >= 2,
    ensures
        is_prime(phi) ==> quick_verdict(phi * phi, phi) == Ok::<bool, TestError>(true),
        !is_prime(phi) ==> quick_verdict(phi * phi, phi) == Err::<bool, TestError>(TestError),
{
    let n = phi * phi;
    if phi == 2 {
        assert(n == 4);
        return;
    }
    let m = phi * (phi - 1);
    assert(n > m && m > phi && phi * phi - 1 == (phi - 1) * (phi + 1) && n == m + phi) by (nonlinear_arith)
        requires
            phi >= 3,
            n == phi * phi,
            m == phi * (phi - 1),
    ;
    lemma_fundamental_div_mod_converse(n - 1, phi - 1, phi + 1, 0);
    lemma_fundamental_div_mod_converse(n, m, 1, phi);
    lemma_fundamental_div_mod_converse(n - 1, m, 1, phi - 1);
    lemma_fundamental_div_mod_converse(phi * (phi - 1), m, 1, 0);
    assert(n != phi) by (nonlinear_arith)
        requires
            phi >= 3,
            n == phi * phi,
    ;
    if is_prime(phi) {
        if phi == 3 {
            assert(seeds(3)[1] == 9);
            let chain = seq![9int];
            assert(is_chain(seeds(3), chain) && chain.last() == 9);
        } else {
            let chain = seq![phi, n];
            assert(quick_step(phi, n));
            assert(seeds(phi)[0] == phi);
            assert(is_chain(seeds(phi), chain) && chain.last() == n);
        }
    } else if is_prime(phi - 1) {
        assert(phi >= 4);
        assert(seeds(phi) == seq![phi]);
        if derivable(seeds(phi), n) {
            let chain = choose|chain: Seq<int>| is_chain(seeds(phi), chain) && chain.last() == n;
            if chain.len() == 1 {
                assert(seq![phi].contains(chain[0]));
                let j = choose|j: int| 0 <= j < 1 && seq![phi][j] == chain[0];
            } else {
                lemma_second_value(phi, chain);
                let a = phi * (phi - 1) + 1;
                assert(chain[1] == a);
                if chain.len() == 2 {
                    assert(a != n);
                } else {
                    let i0 = 1int;
                    assert(quick_step(chain[i0], chain[i0 + 1]));
                    lemma_chain_increasing(seq![phi], chain, 2, chain.len() - 1);
                    assert(a * (a - 1) + 1 > n && a * a > n) by (nonlinear_arith)
                        requires
                            a == phi * (phi - 1) + 1,
                            n == phi * phi,
                            phi >= 4,
                    ;
                }
            }
        }
    }
}

/// For `phi >= 2`, the quick test knows the projective plane of order `phi - 1` exactly when
/// `phi - 1` is prime or `phi == 2`: on `phi * (phi - 1) + 1` elements it answers `Ok(true)`
/// then, and `Err` otherwise, as `Batches::phi_2_n_phi_p_1` builds the plane exactly then.
#[verifier::spinoff_prover]
pub proof fn law_projective_plane_verdict(phi: int)
    requires
        phi >= 2,
    ensures
        (is_prime(phi - 1) || phi == 2) ==> quick_verdict(phi * (phi - 1) + 1, phi) == Ok::<bool, TestError>(true),
        !(is_prime(phi - 1) || phi == 2) ==> quick_verdict(phi * (phi - 1) + 1, phi) == Err::<bool, TestError>(TestError),
{
    let n = phi * (phi - 1) + 1;
    if phi == 2 {
        assert(n == 3);
        return;
    }
    if phi == 3 {
        assert(phi * (phi - 1) == 6) by (nonlinear_arith)
            requires
                phi == 3,
        ;
        assert(n == 7);
        assert(is_prime(2)) by {
            assert forall|d: int| 1 < d < 2 implies !#[trigger] divides(d, 2) by {}
        }
        assert(seeds(3)[0] == 7);
        let chain = seq![7int];
        assert(is_chain(seeds(3), chain) && chain.last() == 7);
        return;
    }
    let m = phi * (phi - 1);
    assert(m > 0 && n > phi) by (nonlinear_arith)
        requires
            phi >= 4,
            m == phi * (phi - 1),
            n == m + 1,
    ;
    lemma_fundamental_div_mod_converse(n - 1, phi - 1, phi, 0);
    lemma_fundamental_div_mod_converse(n, m, 1, 1);
    lemma_fundamental_div_mod_converse(n - 1, m, 1, 0);
    assert((n % m) * ((n - 1) % m) == 0) by (nonlinear_arith)
        requires
            n % m == 1,
            (n - 1) % m == 0,
    ;
    assert(seeds(phi) == seq![phi]);
    if is_prime(phi - 1) {
        let chain = seq![phi, n];
        assert(quick_step(phi, n));
        assert(seeds(phi)[0] == phi);
        assert(is_chain(seeds(phi), chain) && chain.last() == n);
    } else if is_prime(phi) {
        if derivable(seeds(phi), n) {
            let chain = choose|chain: Seq<int>| is_chain(seeds(phi), chain) && chain.last() == n;
            if chain.len() == 1 {
                assert(seq![phi].contains(chain[0]));
                let j = choose|j: int| 0 <= j < 1 && seq![phi][j] == chain[0];
            } else {
                lemma_second_value(phi, chain);
                assert(chain[1] == phi * phi);
                assert(phi * phi > n) by (nonlinear_arith)
                    requires
                        n == phi * (phi - 1) + 1,
                        phi >= 4,
                ;
            }
        }
    }
}

/// A success of the quick test never goes against what a Steiner system needs: where it
/// answers `Ok(true)`, a batch holds no more elements than there are, and for more than one
/// element the parameters meet every condition that a Steiner system on `n` elements with
/// batches of `phi` meets (see `header_ok`): `phi` is `n` or `phi * (phi - 1) + 1 <= n`, and
/// `phi - 1` divides `n - 1` and `phi * (phi - 1)` divides `n * (n - 1)`.
pub proof fn law_quick_success_is_admissible(n: int, phi: int)
    requires
        n >= 0,
        quick_verdict(n, phi) == Ok::<bool, TestError>(true),
    ensures
        phi <= n,
        n > 1 ==> header_ok(n, phi, 0, n - 1),
{
    if n > 1 {
        if phi == n {
            let m = n * (n - 1);
            assert(m > 0) by (nonlinear_arith)
                requires
                    m == n * (n - 1),
                    n > 1,
            ;
            assert(m == 1 * m);
            lemma_mod_multiples_basic(1, m);
            lemma_mod_multiples_basic(1, n - 1);
        } else if phi == 2 {
            let h = n / 2;
            lemma_fundamental_div_mod(n, 2);
            if n % 2 == 0 {
                assert(n * (n - 1) == (h * (n - 1)) * 2) by (nonlinear_arith)
                    requires
                        n == 2 * h,
                ;
                lemma_mod_multiples_basic(h * (n - 1), 2);
            } else {
                assert(n * (n - 1) == (n * h) * 2) by (nonlinear_arith)
                    requires
                        n == 2 * h + 1,
                ;
                lemma_mod_multiples_basic(n * h, 2);
            }
            assert(phi * (phi - 1) + 1 <= n || phi == n);
        } else {
            let m = phi * (phi - 1);
            assert(m >= phi && m > 0) by (nonlinear_arith)
                requires
                    m == phi * (phi - 1),
                    phi > 2,
            ;
            vstd::arithmetic::div_mod::lemma_mul_mod_noop_general(n, n - 1, m);
        }
    }
}

/// A refusal of the quick test is never wrong: where it answers `Ok(false)` for `n` elements
/// and batches of `phi`, no collection of batches on `n` elements with those sizes is a
/// Steiner system, so none passes the audit.
pub proof fn law_quick_refusal_is_sound(n: int, phi: int, min: int, max: int, sets: Set<Set<u32>>)
    requires
        quick_verdict(n, phi) == Ok::<bool, TestError>(false),
    ensures
        !steiner_system(n, phi, min, max, sets),
{
    if n > 1 && phi > 2 && phi != n && (n - 1) % (phi - 1) == 0 && n > phi * (phi - 1) {
        let m = phi * (phi - 1);
        assert(m > 0) by (nonlinear_arith)
            requires
                m == phi * (phi - 1),
                phi > 2,
        ;
        vstd::arithmetic::div_mod::lemma_mul_mod_noop_general(n, n - 1, m);
    }
}

} // verus!
