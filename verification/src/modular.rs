//! Arithmetic modulo a prime, on mathematical integers.

use vstd::arithmetic::div_mod::*;
use vstd::arithmetic::mul::*;
use vstd::arithmetic::power::*;
use vstd::arithmetic::power2::*;
use vstd::prelude::*;

verus! {

/// `d` divides `n`.
pub open spec fn divides(d: int, n: int) -> bool {
    n % d == 0
}

/// `p` is a prime number.
pub open spec fn is_prime(p: int) -> bool {
    &&& p > 1
    &&& forall|d: int| 1 < d < p ==> !(#[trigger] divides(d, p))
}

/// The product of `a` and `b` modulo `p`.
pub open spec fn mul_mod(a: int, b: int, p: int) -> int {
    (a * b) % p
}

/// `a` to the power `e` modulo `p`.
pub open spec fn pow_mod(a: int, e: nat, p: int) -> int {
    pow(a, e) % p
}

pub proof fn lemma_mul_mod_assoc(a: int, b: int, c: int, p: int)
    requires
        p > 0,
    ensures
        mul_mod(mul_mod(a, b, p), c, p) == mul_mod(a, mul_mod(b, c, p), p),
{
    lemma_mul_mod_noop_left(a * b, c, p);
    lemma_mul_mod_noop_right(a, b * c, p);
    lemma_mul_is_associative(a, b, c);
}

pub proof fn lemma_mul_mod_comm(a: int, b: int, p: int)
    ensures
        mul_mod(a, b, p) == mul_mod(b, a, p),
{
    lemma_mul_is_commutative(a, b);
}

/// `(a b) (c d) = (a c) (b d)`.
pub proof fn lemma_mul_mod_swap(a: int, b: int, c: int, d: int, p: int)
    requires
        p > 0,
    ensures
        mul_mod(mul_mod(a, b, p), mul_mod(c, d, p), p) == mul_mod(
            mul_mod(a, c, p),
            mul_mod(b, d, p),
            p,
        ),
{
    lemma_mul_mod_assoc(a, b, mul_mod(c, d, p), p);
    lemma_mul_mod_assoc(b, c, d, p);
    lemma_mul_mod_comm(b, c, p);
    lemma_mul_mod_assoc(c, b, d, p);
    lemma_mul_mod_assoc(a, c, mul_mod(b, d, p), p);
}

pub proof fn lemma_pow_mod_add(a: int, m: nat, n: nat, p: int)
    requires
        p > 0,
    ensures
        mul_mod(pow_mod(a, m, p), pow_mod(a, n, p), p) == pow_mod(a, m + n, p),
{
    lemma_pow_adds(a, m, n);
    lemma_mul_mod_noop_general(pow(a, m), pow(a, n), p);
}

pub proof fn lemma_pow_mod_mul(a: int, m: nat, n: nat, p: int)
    requires
        p > 0,
    ensures
        pow_mod(pow_mod(a, m, p), n, p) == pow_mod(a, m * n, p),
{
    lemma_pow_multiplies(a, m, n);
    lemma_pow_mod_noop(pow(a, m), n, p);
}

pub proof fn lemma_pow_mod_distributes(a: int, b: int, n: nat, p: int)
    requires
        p > 0,
    ensures
        pow_mod(mul_mod(a, b, p), n, p) == mul_mod(pow_mod(a, n, p), pow_mod(b, n, p), p),
{
    lemma_pow_mod_noop(a * b, n, p);
    lemma_pow_distributes(a, b, n);
    lemma_mul_mod_noop_general(pow(a, n), pow(b, n), p);
}

/// The first powers.
pub proof fn lemma_pow_mod_small(a: int, p: int)
    requires
        p > 1,
    ensures
        pow_mod(a, 0, p) == 1,
        pow_mod(a, 1, p) == a % p,
        pow_mod(a, 2, p) == mul_mod(a, a, p),
{
    lemma_pow0(a);
    lemma_pow1(a);
    lemma_square_is_pow2(a);
    lemma_small_mod(1, p as nat);
}

/// One is its own power.
pub proof fn lemma_pow_mod_of_one(e: nat, p: int)
    requires
        p > 1,
    ensures
        pow_mod(1, e, p) == 1,
{
    lemma1_pow(e);
    lemma_small_mod(1, p as nat);
}

/// Zero is its own power, but for the empty product.
pub proof fn lemma_pow_mod_of_zero(e: nat, p: int)
    requires
        p > 1,
        e > 0,
    ensures
        pow_mod(0, e, p) == 0,
{
    lemma0_pow(e);
    lemma_small_mod(0, p as nat);
}

/// What divides a number is a factor of it, and the other way round.
pub proof fn law_divisors_are_factors(d: int, k: int, n: int)
    requires
        d > 0,
    ensures
        divides(d, d * k),
        divides(d, n) ==> n == d * (n / d),
{
    lemma_mul_is_commutative(d, k);
    lemma_mod_multiples_basic(k, d);
    lemma_fundamental_div_mod(n, d);
}

/// A prime is not a product of two numbers above one.
pub proof fn law_prime_has_no_factors(p: int, a: int, b: int)
    requires
        is_prime(p),
        a > 1,
        b > 1,
    ensures
        p > 1,
        a * b != p,
{
    if a * b == p {
        assert(1 < a < p) by (nonlinear_arith)
            requires
                a * b == p,
                a > 1,
                b > 1,
        ;
        law_divisors_are_factors(a, b, p);
        assert(divides(a, p));
    }
}

/// A number above one that is not a prime is a product of two numbers above one.
pub proof fn law_composite_has_factors(p: int) -> (factors: (int, int))
    requires
        p > 1,
        !is_prime(p),
    ensures
        factors.0 > 1,
        factors.1 > 1,
        factors.0 * factors.1 == p,
{
    let d = choose|d: int| 1 < d < p && #[trigger] divides(d, p);
    let c = p / d;
    lemma_fundamental_div_mod(p, d);
    assert(c > 1) by (nonlinear_arith)
        requires
            p == d * c,
            1 < d < p,
    ;
    (d, c)
}

/// Products modulo `p` are residues, one leaves a residue alone, and adding factors adds products.
pub proof fn law_products_of_residues(a: int, b: int, c: int, p: int)
    requires
        p > 0,
    ensures
        0 <= mul_mod(a, b, p) < p,
        mul_mod(a, 1, p) == a % p,
        mul_mod(a, b + c, p) == (mul_mod(a, b, p) + mul_mod(a, c, p)) % p,
{
    lemma_mod_bound(a * b, p);
    lemma_mul_basics(a);
    lemma_mul_is_distributive_add(a, b, c);
    lemma_add_mod_noop(a * b, a * c, p);
}

/// The zeroth power is one, and each power is the one before it times the base.
pub proof fn law_powers_of_residues(a: int, e: nat, p: int)
    requires
        p > 1,
    ensures
        pow_mod(a, 0, p) == 1,
        pow_mod(a, e + 1, p) == mul_mod(pow_mod(a, e, p), a, p),
{
    lemma_pow_mod_small(a, p);
    lemma_pow_mod_add(a, e, 1, p);
    lemma_mul_mod_noop_right(pow_mod(a, e, p), a, p);
}

/// A nonzero residue modulo a prime has an inverse.
pub proof fn lemma_inverse_exists(a: int, p: int) -> (x: int)
    requires
        is_prime(p),
        0 < a < p,
    ensures
        0 < x < p,
        mul_mod(a, x, p) == 1,
    decreases a,
{
    lemma_small_mod(1, p as nat);
    if a == 1 {
        1
    } else {
        let q = p / a;
        let r = p % a;
        assert(!divides(a, p));
        lemma_mod_bound(p, a);
        lemma_fundamental_div_mod(p, a);
        let y = lemma_inverse_exists(r, p);
        let x = (-(q * y)) % p;
        lemma_mod_bound(-(q * y), p);
        lemma_mul_mod_noop_right(a, -(q * y), p);
        assert(a * (-(q * y)) == p * (-y) + r * y) by (nonlinear_arith)
            requires
                p == a * q + r,
        ;
        lemma_mod_multiples_vanish(-y, r * y, p);
        if x == 0 {
            lemma_mul_by_zero_is_zero(a);
            lemma_small_mod(0, p as nat);
        }
        x
    }
}

/// Modulo a prime a nonzero factor cancels.
pub proof fn lemma_cancel(a: int, b: int, c: int, p: int)
    requires
        is_prime(p),
        0 <= a < p,
        0 <= b < p,
        0 < c < p,
        mul_mod(a, c, p) == mul_mod(b, c, p),
    ensures
        a == b,
{
    let x = lemma_inverse_exists(c, p);
    lemma_mul_mod_assoc(a, c, x, p);
    lemma_mul_mod_assoc(b, c, x, p);
    lemma_small_mod(a as nat, p as nat);
    lemma_small_mod(b as nat, p as nat);
}

/// A product of nonzero residues modulo a prime is not zero.
pub proof fn lemma_product_is_nonzero(a: int, b: int, p: int)
    requires
        is_prime(p),
        0 < a < p,
        0 < b < p,
    ensures
        0 < mul_mod(a, b, p) < p,
{
    lemma_mod_bound(a * b, p);
    lemma_small_mod(0, p as nat);
    if mul_mod(a, b, p) == 0 {
        lemma_cancel(a, 0, b, p);
    }
}

/// A power of a nonzero residue modulo a prime is not zero.
pub proof fn lemma_power_is_nonzero(a: int, e: nat, p: int)
    requires
        is_prime(p),
        0 < a < p,
    ensures
        0 < pow_mod(a, e, p) < p,
    decreases e,
{
    lemma_pow_mod_small(a, p);
    if e > 0 {
        lemma_power_is_nonzero(a, (e - 1) as nat, p);
        lemma_pow_mod_add(a, (e - 1) as nat, 1, p);
        lemma_small_mod(a as nat, p as nat);
        lemma_product_is_nonzero(pow_mod(a, (e - 1) as nat, p), a, p);
    }
}

/// The product of a sequence modulo `p`.
spec fn product(s: Seq<int>, p: int) -> int
    decreases s.len(),
{
    if s.len() == 0 {
        1
    } else {
        mul_mod(product(s.drop_last(), p), s.last(), p)
    }
}

/// Any factor can be taken out of a product.
proof fn lemma_product_take_out(s: Seq<int>, i: int, p: int)
    requires
        p > 0,
        0 <= i < s.len(),
    ensures
        product(s, p) == mul_mod(product(s.remove(i), p), s[i], p),
    decreases s.len(),
{
    if i == s.len() - 1 {
        assert(s.remove(i) =~= s.drop_last());
    } else {
        let rest = s.drop_last();
        let u = product(rest.remove(i), p);
        lemma_product_take_out(rest, i, p);
        assert(s.remove(i).drop_last() =~= rest.remove(i));
        assert(s.remove(i).last() == s.last());
        lemma_mul_mod_assoc(u, s[i], s.last(), p);
        lemma_mul_mod_comm(s[i], s.last(), p);
        lemma_mul_mod_assoc(u, s.last(), s[i], p);
    }
}

/// The order of the factors does not matter.
proof fn lemma_product_reordered(s: Seq<int>, t: Seq<int>, p: int)
    requires
        p > 0,
        s.no_duplicates(),
        t.no_duplicates(),
        forall|x: int| s.contains(x) <==> t.contains(x),
    ensures
        product(s, p) == product(t, p),
    decreases s.len(),
{
    if s.len() == 0 {
        if t.len() > 0 {
            assert(t.contains(t[0]));
        }
    } else {
        let x = s.last();
        assert(s.contains(x));
        let i = t.index_of(x);
        let s1 = s.drop_last();
        let t1 = t.remove(i);
        lemma_product_take_out(t, i, p);
        assert forall|y: int| s1.contains(y) <==> t1.contains(y) by {
            if s1.contains(y) {
                let k = s1.index_of(y);
                assert(s[k] == y);
                assert(s.contains(y));
                let m = t.index_of(y);
                assert(m != i);
                if m < i {
                    assert(t1[m] == y);
                } else {
                    assert(t1[m - 1] == y);
                }
            }
            if t1.contains(y) {
                let m = t1.index_of(y);
                if m < i {
                    assert(t[m] == y);
                } else {
                    assert(t[m + 1] == y);
                }
                assert(t.contains(y));
                let k = s.index_of(y);
                assert(k != s.len() - 1);
                assert(s1[k] == y);
            }
        }
        lemma_product_reordered(s1, t1, p);
    }
}

/// Scaling every factor by `a` scales the product by a power of `a`.
proof fn lemma_product_scaled(s: Seq<int>, a: int, p: int)
    requires
        p > 1,
    ensures
        product(s.map_values(|x: int| mul_mod(x, a, p)), p) == mul_mod(
            product(s, p),
            pow_mod(a, s.len(), p),
            p,
        ),
    decreases s.len(),
{
    let f = |x: int| mul_mod(x, a, p);
    let t = s.map_values(f);
    lemma_pow_mod_small(a, p);
    if s.len() == 0 {
        lemma_small_mod(1, p as nat);
    } else {
        let n = (s.len() - 1) as nat;
        assert(t.drop_last() =~= s.drop_last().map_values(f));
        lemma_product_scaled(s.drop_last(), a, p);
        lemma_mul_mod_swap(product(s.drop_last(), p), pow_mod(a, n, p), s.last(), a % p, p);
        lemma_pow_mod_add(a, n, 1, p);
        lemma_mul_mod_noop_right(s.last(), a, p);
    }
}

/// A product of nonzero residues modulo a prime is not zero.
proof fn lemma_product_of_nonzero(s: Seq<int>, p: int)
    requires
        is_prime(p),
        forall|i: int| 0 <= i < s.len() ==> 0 < #[trigger] s[i] < p,
    ensures
        0 < product(s, p) < p,
    decreases s.len(),
{
    if s.len() > 0 {
        lemma_product_of_nonzero(s.drop_last(), p);
        lemma_product_is_nonzero(product(s.drop_last(), p), s.last(), p);
    }
}

/// Fermat's little theorem: `a^(p - 1) = 1` modulo a prime `p` that does not divide `a`.
pub proof fn lemma_fermat(a: int, p: int)
    requires
        is_prime(p),
        0 < a < p,
    ensures
        pow_mod(a, (p - 1) as nat, p) == 1,
{
    let n = (p - 1) as nat;
    let s = Seq::new(n, |i: int| i + 1);
    let f = |x: int| mul_mod(x, a, p);
    let t = s.map_values(f);
    let inv = lemma_inverse_exists(a, p);
    assert forall|i: int| 0 <= i < n implies 0 < #[trigger] t[i] < p by {
        lemma_product_is_nonzero(s[i], a, p);
    }
    assert(t.no_duplicates()) by {
        assert forall|i: int, j: int| 0 <= i < n && 0 <= j < n && i != j implies t[i] != t[j] by {
            if t[i] == t[j] {
                lemma_cancel(s[i], s[j], a, p);
            }
        }
    }
    assert forall|x: int| s.contains(x) <==> t.contains(x) by {
        if s.contains(x) {
            let y = mul_mod(x, inv, p);
            lemma_product_is_nonzero(x, inv, p);
            lemma_mul_mod_assoc(x, inv, a, p);
            lemma_mul_mod_comm(inv, a, p);
            lemma_small_mod(x as nat, p as nat);
            assert(s[y - 1] == y);
            assert(t[y - 1] == x);
        }
        if t.contains(x) {
            let i = t.index_of(x);
            assert(t[i] == x);
            assert(s[x - 1] == x);
        }
    }
    lemma_product_reordered(s, t, p);
    lemma_product_scaled(s, a, p);
    lemma_product_of_nonzero(s, p);
    let w = product(s, p);
    let e = pow_mod(a, n, p);
    lemma_mul_mod_comm(w, e, p);
    lemma_small_mod(w as nat, p as nat);
    lemma_mod_bound(pow(a, n), p);
    lemma_cancel(e, 1, w, p);
}

/// The square roots of one modulo a prime are one and minus one.
pub proof fn lemma_roots_of_one(y: int, p: int)
    requires
        is_prime(p),
        0 <= y < p,
        mul_mod(y, y, p) == 1,
    ensures
        y == 1 || y == p - 1,
{
    lemma_small_mod(1, p as nat);
    lemma_small_mod(0, p as nat);
    lemma_mul_by_zero_is_zero(y);
    if y != 0 && y != 1 && y != p - 1 {
        assert((y - 1) * (y + 1) == y * y - 1) by (nonlinear_arith);
        lemma_mod_equivalence(y * y, 1, p);
        lemma_product_is_nonzero(y - 1, y + 1, p);
    }
}

/// Minus one to an even power is one, to an odd power minus one.
pub proof fn lemma_power_of_minus_one(n: nat, p: int)
    requires
        p > 1,
    ensures
        pow_mod(p - 1, n, p) == (if n % 2 == 0 {
            1
        } else {
            p - 1
        }),
    decreases n,
{
    lemma_pow_mod_small(p - 1, p);
    lemma_small_mod((p - 1) as nat, p as nat);
    if n >= 2 {
        assert((p - 1) * (p - 1) == p * (p - 2) + 1) by (nonlinear_arith);
        lemma_mod_multiples_vanish(p - 2, 1, p);
        lemma_power_of_minus_one((n - 2) as nat, p);
        lemma_pow_mod_add(p - 1, (n - 2) as nat, 2, p);
        lemma_small_mod(1, p as nat);
        lemma_mul_basics(pow_mod(p - 1, (n - 2) as nat, p));
    }
}

/// If `b^(2^k)` is minus one, only multiples of `2^(k + 1)` are exponents at which `b` gives one.
///
/// The modulus need not be a prime.
pub proof fn lemma_order(b: int, k: nat, n: nat, p: int)
    requires
        p > 2,
        pow_mod(b, pow2(k), p) == p - 1,
        pow_mod(b, n, p) == 1,
    ensures
        n % pow2(k + 1) == 0,
    decreases k,
{
    lemma_pow2_pos(k);
    lemma_pow2_unfold(k + 1);
    lemma_power_of_minus_one(n, p);
    lemma_pow_mod_of_one(pow2(k), p);
    lemma_pow_mod_mul(b, pow2(k), n, p);
    lemma_pow_mod_mul(b, n, pow2(k), p);
    lemma_mul_is_commutative(pow2(k) as int, n as int);
    assert(n % 2 == 0);
    if k == 0 {
        lemma2_to64();
    } else {
        let m = n / 2;
        let c = pow_mod(b, 2, p);
        lemma_pow2_unfold(k);
        lemma_pow_mod_mul(b, 2, m, p);
        lemma_pow_mod_mul(b, 2, pow2((k - 1) as nat), p);
        lemma_order(c, (k - 1) as nat, m, p);
        lemma_fundamental_div_mod(m as int, pow2(k) as int);
        let q = m as int / pow2(k) as int;
        assert(n == q * (2 * pow2(k))) by (nonlinear_arith)
            requires
                n == 2 * m,
                m == pow2(k) * q,
        ;
        lemma_mod_multiples_basic(q, (2 * pow2(k)) as int);
    }
}

/// Every number above one has a prime divisor.
proof fn lemma_prime_divisor_exists(n: int) -> (q: int)
    requires
        n > 1,
    ensures
        is_prime(q),
        q <= n,
        divides(q, n),
    decreases n,
{
    if is_prime(n) {
        lemma_mod_self_0(n);
        n
    } else {
        let d = choose|d: int| 1 < d < n && #[trigger] divides(d, n);
        let q = lemma_prime_divisor_exists(d);
        lemma_divides_transitive(q, d, n);
        q
    }
}

proof fn lemma_divides_transitive(a: int, b: int, c: int)
    requires
        a > 0,
        b > 0,
        divides(a, b),
        divides(b, c),
    ensures
        divides(a, c),
{
    lemma_fundamental_div_mod(b, a);
    lemma_fundamental_div_mod(c, b);
    assert(c == ((b / a) * (c / b)) * a) by (nonlinear_arith)
        requires
            b == a * (b / a),
            c == b * (c / b),
    ;
    lemma_mod_multiples_basic((b / a) * (c / b), a);
}

/// Proth's theorem, for numbers `k * 2^32 + 1`: such a number is a prime if the `2^31`-th power of
/// some `b` is minus one modulo it.
pub proof fn lemma_proth(k: int, b: int)
    requires
        0 < k < 0x1_0000_0000,
        pow_mod(b, 0x8000_0000, k * 0x1_0000_0000 + 1) == k * 0x1_0000_0000,
    ensures
        is_prime(k * 0x1_0000_0000 + 1),
{
    let p = k * 0x1_0000_0000 + 1;
    if !is_prime(p) {
        let d = choose|d: int| 1 < d < p && #[trigger] divides(d, p);
        let c = p / d;
        lemma_fundamental_div_mod(p, d);
        assert(1 < c < p) by (nonlinear_arith)
            requires
                p == d * c,
                1 < d < p,
        ;
        lemma_mul_is_commutative(d, c);
        lemma_mod_multiples_basic(d, c);
        // The lesser of the two factors has a prime divisor of which the square is at most p.
        let m = if d <= c {
            d
        } else {
            c
        };
        assert(m * m <= p) by (nonlinear_arith)
            requires
                p == d * c,
                m <= d,
                m <= c,
                m > 0,
        ;
        let q = lemma_prime_divisor_exists(m);
        lemma_divides_transitive(q, m, p);
        assert(q * q <= p) by (nonlinear_arith)
            requires
                0 < q <= m,
                m * m <= p,
        ;
        // Modulo that divisor the power of b is minus one as well, ...
        let e = p / q;
        lemma_fundamental_div_mod(p, q);
        assert(e > 0) by (nonlinear_arith)
            requires
                p == q * e,
                p > 0,
                q > 0,
        ;
        lemma_mod_mod(pow(b, 0x8000_0000), q, e);
        assert(pow_mod(b, 0x8000_0000, q) == (p - 1) % q);
        lemma_mod_equivalence(p - 1, q - 1, q);
        lemma_mod_sub_multiples_vanish(p, q);
        lemma_small_mod((q - 1) as nat, q as nat);
        assert(pow_mod(b, 0x8000_0000, q) == q - 1);
        // ... so that q - 1 is a multiple of 2^32, and q too large.
        if q == 2 {
            assert(p % 2 == 1);
        }
        let r = b % q;
        lemma_mod_bound(b, q);
        lemma_pow_mod_noop(b, 0x8000_0000, q);
        lemma_pow_mod_noop(b, (q - 1) as nat, q);
        if r == 0 {
            lemma_pow_mod_of_zero(0x8000_0000, q);
        }
        lemma_fermat(r, q);
        lemma2_to64();
        lemma_order(b, 31, (q - 1) as nat, q);
        if q - 1 < pow2(32) {
            lemma_small_mod((q - 1) as nat, pow2(32));
        }
        assert(q * q > p) by (nonlinear_arith)
            requires
                q > 0x1_0000_0000,
                p == k * 0x1_0000_0000 + 1,
                k < 0x1_0000_0000,
        ;
    }
}

/// One squaring of a power, with its quotient and remainder given.
pub proof fn lemma_square_step(b: int, e: nat, v: int, quotient: int, w: int, p: int)
    requires
        pow_mod(b, e, p) == v,
        v * v == quotient * p + w,
        0 <= w < p,
    ensures
        pow_mod(b, 2 * e, p) == w,
{
    lemma_pow_mod_add(b, e, e, p);
    lemma_fundamental_div_mod_converse(v * v, p, quotient, w);
}

} // verus!
