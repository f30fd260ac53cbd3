//! Prime fields of 2-adicity 32, and what a square root of a ratio is in one.

use crate::modular;
use vstd::arithmetic::div_mod::*;
use vstd::arithmetic::mul::*;
use vstd::arithmetic::power::*;
use vstd::arithmetic::power2::*;
use vstd::prelude::*;

verus! {

/// The integers that values of elements are.
pub type Integer = int;

/// `2^32`, the order of the subgroup in which discrete logarithms are taken.
pub open spec fn two_power_order() -> nat {
    0x1_0000_0000
}

/// The field of integers modulo `p`, where `p - 1 = 2^32 * t`, with a fixed element `root`.
///
/// Elements are integers in `0..p`.
pub struct PrimeFieldModel {
    /// The modulus.
    pub p: int,
    /// The odd part of `p - 1`.
    pub t: nat,
    /// A generator of the subgroup of order `2^32`.
    pub root: int,
}

impl PrimeFieldModel {
    /// `p` is a prime, `p - 1` is `2^32` times the odd number `t`, and `root` has order `2^32`.
    pub open spec fn valid(self) -> bool {
        &&& modular::is_prime(self.p)
        &&& self.p == two_power_order() * self.t + 1
        &&& self.t % 2 == 1
        &&& self.is_element(self.root)
        &&& self.pow(self.root, two_power_order()) == 1
        &&& self.pow(self.root, two_power_order() / 2) != 1
    }

    pub open spec fn is_element(self, x: int) -> bool {
        0 <= x < self.p
    }

    pub open spec fn mul(self, x: int, y: int) -> int {
        modular::mul_mod(x, y, self.p)
    }

    pub open spec fn sub(self, x: int, y: int) -> int {
        (x - y) % self.p
    }

    pub open spec fn pow(self, x: int, e: nat) -> int {
        modular::pow_mod(x, e, self.p)
    }

    /// The `e`-th power of the root of unity.
    pub open spec fn root_pow(self, e: nat) -> int {
        self.pow(self.root, e)
    }

    /// `n` is the discrete logarithm, to the base `root`, of the inverse of `x`.
    pub open spec fn is_log_of_inverse(self, x: int, n: nat) -> bool {
        &&& n < two_power_order()
        &&& self.mul(x, self.root_pow(n)) == 1
    }

    /// The discrete logarithm, to the base `root`, of the inverse of an element of the subgroup
    /// that `root` generates.
    pub open spec fn log_of_inverse(self, x: int) -> nat {
        choose|n: nat| self.is_log_of_inverse(x, n)
    }

    /// `num / div` is a square: some element's square times `div` is `num`.
    ///
    /// This holds of any `div` when `num` is zero, and of no other `num` when `div` is zero.
    pub open spec fn is_square_ratio(self, num: int, div: int) -> bool {
        exists|y: int| self.is_element(y) && #[trigger] self.mul(self.mul(y, y), div) == num
    }

    /// `u` is a square.
    pub open spec fn is_square(self, u: int) -> bool {
        exists|y: int| self.is_element(y) && #[trigger] self.mul(y, y) == u
    }

    /// The element that `div` is to be multiplied by to give `num`, when `div` is not zero.
    pub open spec fn quotient(self, num: int, div: int) -> int {
        choose|u: int| self.is_element(u) && #[trigger] self.mul(u, div) == num
    }

    /// The square root of `u` or of `root * u` that the tables lead to.
    ///
    /// With `n` the discrete logarithm of the inverse of `u^t`, it is
    /// `u^((t + 1) / 2) * root^ceil(n / 2)`.
    pub open spec fn table_root(self, u: int) -> int {
        let n = self.log_of_inverse(self.pow(u, self.t));
        self.mul(self.pow(u, (self.t + 1) / 2), self.root_pow((n + 1) / 2))
    }

    /// The square root that the tables lead to for the ratio of `num` to `div`; zero if there is no
    /// such ratio.
    pub open spec fn table_root_of_ratio(self, num: int, div: int) -> int {
        if div == 0 {
            0
        } else {
            self.table_root(self.quotient(num, div))
        }
    }

    /// `r` is a square root of `num / div` or, where that is not a square, of `root * num / div`;
    /// it is zero if `num` or `div` is.
    pub open spec fn is_root_of_ratio(self, num: int, div: int, r: int) -> bool {
        &&& self.is_element(r)
        &&& if num == 0 || div == 0 {
            r == 0
        } else if self.is_square_ratio(num, div) {
            self.mul(self.mul(r, r), div) == num
        } else {
            self.mul(self.mul(r, r), div) == self.mul(self.root, num)
        }
    }

    /// `r` is a square root of `u` or, where that is not a square, of `root * u`.
    pub open spec fn is_root(self, u: int, r: int) -> bool {
        &&& self.is_element(r)
        &&& if self.is_square(u) {
            self.mul(r, r) == u
        } else {
            self.mul(r, r) == self.mul(self.root, u)
        }
    }

    /// `root^(2^31) = -1`.
    pub proof fn lemma_half_order(self)
        requires
            self.valid(),
        ensures
            self.p > 2,
            self.root_pow(0x8000_0000) == self.p - 1,
            self.root != 0,
    {
        let h = self.root_pow(0x8000_0000);
        modular::lemma_pow_mod_add(self.root, 0x8000_0000, 0x8000_0000, self.p);
        lemma_mod_bound(pow(self.root, 0x8000_0000), self.p);
        modular::lemma_roots_of_one(h, self.p);
        modular::lemma_pow_mod_of_zero(two_power_order(), self.p);
    }

    /// An element whose `2^k`-th power is one is a power of `root^(2^32 / 2^k)`.
    proof fn lemma_subgroup(self, x: int, k: nat, size: nat, step: nat) -> (j: nat)
        requires
            self.valid(),
            self.is_element(x),
            self.pow(x, size) == 1,
            size > 0,
            size * step == two_power_order(),
            is_power_of_two(size, k),
        ensures
            j < size,
            x == self.root_pow(step * j),
        decreases k,
    {
        modular::lemma_pow_mod_small(x, self.p);
        lemma_small_mod(x as nat, self.p as nat);
        if k == 0 {
            modular::lemma_pow_mod_small(self.root, self.p);
            lemma_mul_by_zero_is_zero(step as int);
            0
        } else {
            // The square of `x` is a power of the square of the generator sought.
            let half = size / 2;
            let square = self.mul(x, x);
            lemma_mod_bound(x * x, self.p);
            modular::lemma_pow_mod_mul(x, 2, half, self.p);
            assert(half * (2 * step) == two_power_order()) by (nonlinear_arith)
                requires
                    half * 2 == size,
                    size * step == two_power_order(),
            ;
            let j = self.lemma_subgroup(square, (k - 1) as nat, half, 2 * step);
            // So `x` is, up to sign, that power of the generator itself.
            let y = self.root_pow(step * j);
            modular::lemma_pow_mod_add(self.root, step * j, step * j, self.p);
            assert(step * j + step * j == (2 * step) * j) by (nonlinear_arith);
            self.lemma_half_order();
            modular::lemma_power_is_nonzero(self.root, step * j, self.p);
            let inv = modular::lemma_inverse_exists(y, self.p);
            let s = self.mul(x, inv);
            lemma_mod_bound(x * inv, self.p);
            modular::lemma_mul_mod_swap(x, inv, x, inv, self.p);
            modular::lemma_mul_mod_swap(y, inv, y, inv, self.p);
            lemma_small_mod(1, self.p as nat);
            assert(self.mul(s, s) == 1);
            modular::lemma_roots_of_one(s, self.p);
            modular::lemma_mul_mod_assoc(x, inv, y, self.p);
            modular::lemma_mul_mod_comm(inv, y, self.p);
            assert(x == self.mul(s, y));
            if s == 1 {
                lemma_small_mod(y as nat, self.p as nat);
                j
            } else {
                modular::lemma_pow_mod_add(self.root, 0x8000_0000, step * j, self.p);
                assert(0x8000_0000 + step * j == step * (j + half)) by (nonlinear_arith)
                    requires
                        half * (2 * step) == 0x1_0000_0000,
                ;
                j + half
            }
        }
    }

    /// An element whose 256th power is one is a power of `root^(2^24)`.
    pub proof fn lemma_subgroup_of_order_256(self, x: int) -> (j: nat)
        requires
            self.valid(),
            self.is_element(x),
            self.pow(x, 256) == 1,
        ensures
            j < 256,
            x == self.root_pow(0x100_0000 * j),
    {
        reveal_with_fuel(is_power_of_two, 9);
        self.lemma_subgroup(x, 8, 256, 0x100_0000)
    }

    /// Every element whose `2^32`-th power is one has a logarithm.
    pub proof fn lemma_log(self, x: int)
        requires
            self.valid(),
            self.is_element(x),
            self.pow(x, two_power_order()) == 1,
        ensures
            self.is_log_of_inverse(x, self.log_of_inverse(x)),
    {
        lemma_is_power_of_two();
        let j = self.lemma_subgroup(x, 32, two_power_order(), 1);
        modular::lemma_pow_mod_small(self.root, self.p);
        let n: nat = if j == 0 {
            0
        } else {
            (two_power_order() - j) as nat
        };
        modular::lemma_pow_mod_add(self.root, j, n, self.p);
        assert(self.is_log_of_inverse(x, n));
    }

    /// An element has at most one logarithm: powers of the root of unity below `2^32` differ.
    pub proof fn law_log_is_unique(self, x: int, n: nat, m: nat)
        requires
            self.valid(),
            self.is_element(x),
            self.is_log_of_inverse(x, n),
            self.is_log_of_inverse(x, m),
        ensures
            n == m,
    {
        if n <= m {
            self.lemma_log_is_least(x, n, m);
        } else {
            self.lemma_log_is_least(x, m, n);
        }
    }

    proof fn lemma_log_is_least(self, x: int, n: nat, m: nat)
        requires
            self.valid(),
            self.is_element(x),
            self.is_log_of_inverse(x, n),
            self.is_log_of_inverse(x, m),
            n <= m,
        ensures
            n == m,
    {
        let gap = (m - n) as nat;
        lemma_small_mod(0, self.p as nat);
        self.lemma_half_order();
        modular::lemma_power_is_nonzero(self.root, n, self.p);
        modular::lemma_pow_mod_add(self.root, n, gap, self.p);
        let g = self.root_pow(gap);
        modular::lemma_mul_mod_assoc(x, self.root_pow(n), g, self.p);
        lemma_mod_bound(pow(self.root, gap), self.p);
        lemma_small_mod(g as nat, self.p as nat);
        assert(g == 1);
        lemma2_to64();
        modular::lemma_order(self.root, 31, gap, self.p);
        lemma_small_mod(gap, two_power_order());
    }

    /// The root of unity is not a square.
    pub proof fn law_root_is_nonsquare(self, y: int)
        requires
            self.valid(),
            self.is_element(y),
        ensures
            self.mul(y, y) != self.root,
    {
        if self.mul(y, y) == self.root {
            self.lemma_half_order();
            lemma_small_mod(0, self.p as nat);
            lemma_mul_by_zero_is_zero(y);
            modular::lemma_pow_mod_small(y, self.p);
            modular::lemma_pow_mod_mul(y, 2, 0x8000_0000, self.p);
            modular::lemma_pow_mod_mul(y, two_power_order(), self.t, self.p);
            modular::lemma_power_of_minus_one(self.t, self.p);
            modular::lemma_fermat(y, self.p);
        }
    }

    /// A nonzero element's power `t` lies in the subgroup that `root` generates.
    pub proof fn lemma_power_in_subgroup(self, u: int)
        requires
            self.valid(),
            0 < u < self.p,
        ensures
            self.is_element(self.pow(u, self.t)),
            self.pow(self.pow(u, self.t), two_power_order()) == 1,
    {
        lemma_mod_bound(pow(u, self.t), self.p);
        modular::lemma_pow_mod_mul(u, self.t, two_power_order(), self.p);
        lemma_mul_is_commutative(two_power_order() as int, self.t as int);
        modular::lemma_fermat(u, self.p);
    }

    /// The square of the table root of a nonzero `u` is `u` itself, and `u` then is a square, or it
    /// is `root * u`, and `u` then is none.
    pub proof fn lemma_table_root(self, u: int)
        requires
            self.valid(),
            0 < u < self.p,
        ensures
            self.is_element(self.table_root(u)),
            ({
                let square = self.mul(self.table_root(u), self.table_root(u));
                ||| square == u
                ||| square == self.mul(self.root, u) && !self.is_square(u)
            }),
    {
        let p = self.p;
        let x = self.pow(u, self.t);
        let n = self.log_of_inverse(x);
        let c = (n + 1) / 2;
        let h = (self.t + 1) / 2;
        let r = self.table_root(u);
        self.lemma_power_in_subgroup(u);
        self.lemma_log(x);
        lemma_mod_bound(self.pow(u, h) * self.root_pow(c), p);
        modular::lemma_pow_mod_small(u, p);
        modular::lemma_pow_mod_small(self.root, p);
        lemma_small_mod(u as nat, p as nat);
        lemma_small_mod(self.root as nat, p as nat);
        // r^2 = u^(t + 1) * root^(2 c)
        let (y, g) = (self.pow(u, h), self.root_pow(c));
        modular::lemma_mul_mod_swap(y, g, y, g, p);
        modular::lemma_pow_mod_add(u, h, h, p);
        modular::lemma_pow_mod_add(self.root, c, c, p);
        assert(h + h == 1 + self.t);
        modular::lemma_pow_mod_add(u, 1, self.t, p);
        // u^t * root^n = 1
        modular::lemma_mul_mod_assoc(u, x, self.root_pow(n), p);
        assert(self.mul(self.mul(u, x), self.root_pow(n)) == u);
        if n % 2 == 0 {
            assert(c + c == n);
        } else {
            assert(c + c == n + 1);
            modular::lemma_pow_mod_add(self.root, n, 1, p);
            modular::lemma_mul_mod_assoc(self.mul(u, x), self.root_pow(n), self.root, p);
            modular::lemma_mul_mod_comm(u, self.root, p);
            assert forall|y: int| self.is_element(y) implies #[trigger] self.mul(y, y) != u by {
                if self.mul(y, y) == u {
                    self.lemma_root_times_square(r, y);
                }
            }
        }
    }

    /// `root * y^2` is not a square unless it is zero.
    proof fn lemma_root_times_square(self, r: int, y: int)
        requires
            self.valid(),
            self.is_element(r),
            self.is_element(y),
            self.mul(y, y) != 0,
        ensures
            self.mul(r, r) != self.mul(self.root, self.mul(y, y)),
    {
        let p = self.p;
        lemma_small_mod(0, p as nat);
        lemma_small_mod(1, p as nat);
        lemma_mul_by_zero_is_zero(y);
        if self.mul(r, r) == self.mul(self.root, self.mul(y, y)) {
            let inv = modular::lemma_inverse_exists(y, p);
            let z = self.mul(r, inv);
            lemma_mod_bound(r * inv, p);
            modular::lemma_mul_mod_swap(r, inv, r, inv, p);
            modular::lemma_mul_mod_swap(y, inv, y, inv, p);
            modular::lemma_mul_mod_assoc(self.root, self.mul(y, y), self.mul(inv, inv), p);
            lemma_small_mod(self.root as nat, p as nat);
            self.law_root_is_nonsquare(z);
        }
    }

    /// Division by a nonzero element.
    pub proof fn lemma_quotient(self, num: int, div: int)
        requires
            self.valid(),
            self.is_element(num),
            0 < div < self.p,
        ensures
            self.is_element(self.quotient(num, div)),
            self.mul(self.quotient(num, div), div) == num,
            self.quotient(num, div) == 0 <==> num == 0,
    {
        let p = self.p;
        let inv = modular::lemma_inverse_exists(div, p);
        let u = self.mul(num, inv);
        lemma_mod_bound(num * inv, p);
        modular::lemma_mul_mod_assoc(num, inv, div, p);
        modular::lemma_mul_mod_comm(inv, div, p);
        lemma_small_mod(num as nat, p as nat);
        lemma_mul_basics(num);
        assert(self.is_element(u) && self.mul(u, div) == num);
        let q = self.quotient(num, div);
        lemma_small_mod(0, p as nat);
        lemma_mul_basics(div);
        if q != 0 {
            modular::lemma_product_is_nonzero(q, div, p);
        }
    }

    /// The table root of zero is zero.
    pub proof fn lemma_table_root_of_zero(self)
        requires
            self.valid(),
        ensures
            self.table_root(0) == 0,
    {
        let h = (self.t + 1) / 2;
        modular::lemma_pow_mod_of_zero(h, self.p);
        let n = self.log_of_inverse(self.pow(0, self.t));
        lemma_mul_basics(self.root_pow((n + 1) / 2));
        lemma_small_mod(0, self.p as nat);
    }

    /// A ratio is a square exactly if its quotient is.
    proof fn lemma_square_ratio(self, num: int, div: int)
        requires
            self.valid(),
            self.is_element(num),
            0 < div < self.p,
        ensures
            self.is_square_ratio(num, div) <==> self.is_square(self.quotient(num, div)),
    {
        let p = self.p;
        let u = self.quotient(num, div);
        self.lemma_quotient(num, div);
        if self.is_square_ratio(num, div) {
            let y = choose|y: int|
                self.is_element(y) && #[trigger] self.mul(self.mul(y, y), div) == num;
            lemma_mod_bound(y * y, p);
            modular::lemma_cancel(self.mul(y, y), u, div, p);
            assert(self.is_square(u));
        }
        if self.is_square(u) {
            let y = choose|y: int| self.is_element(y) && #[trigger] self.mul(y, y) == u;
            assert(self.mul(self.mul(y, y), div) == num);
        }
    }

    /// The table root `r` of a ratio is the root sought of it, and tells whether that is a square:
    ///
    /// * `num / div` is a square exactly if `r^2 * div = num`, which is the case if `num` is zero
    ///   and not the case if `div` alone is;
    /// * if neither is zero, `r^2 * div` is either `num` or `root * num`, and not both.
    pub proof fn law_sqrt_ratio(self, num: int, div: int)
        requires
            self.valid(),
            self.is_element(num),
            self.is_element(div),
        ensures
            ({
                let r = self.table_root_of_ratio(num, div);
                let sqdiv = self.mul(self.mul(r, r), div);
                &&& self.is_root_of_ratio(num, div, r)
                &&& self.is_square_ratio(num, div) <==> sqdiv == num
                &&& num == 0 ==> self.is_square_ratio(num, div)
                &&& num != 0 && div == 0 ==> !self.is_square_ratio(num, div)
                &&& num != 0 && div != 0 ==> (sqdiv == num) != (sqdiv == self.mul(self.root, num))
            }),
    {
        let p = self.p;
        let r = self.table_root_of_ratio(num, div);
        let sqdiv = self.mul(self.mul(r, r), div);
        lemma_small_mod(0, p as nat);
        lemma_mul_basics(0);
        lemma_mul_basics(div);
        if num == 0 {
            assert(self.mul(self.mul(0, 0), div) == 0);
            assert(self.is_square_ratio(num, div));
        }
        if div == 0 {
            assert forall|y: int| self.is_element(y) implies #[trigger] self.mul(
                self.mul(y, y),
                div,
            ) == 0 by {
                lemma_mul_basics(self.mul(y, y));
            }
        } else {
            let u = self.quotient(num, div);
            self.lemma_quotient(num, div);
            if num == 0 {
                self.lemma_table_root_of_zero();
            } else {
                self.lemma_table_root(u);
                self.lemma_square_ratio(num, div);
                modular::lemma_mul_mod_assoc(self.root, u, div, p);
                if self.mul(r, r) == u {
                    assert(self.is_square(u));
                }
                self.lemma_root_moves(num);
            }
        }
    }

    /// Multiplying by the root of unity moves a nonzero element.
    proof fn lemma_root_moves(self, num: int)
        requires
            self.valid(),
            0 < num < self.p,
        ensures
            self.mul(self.root, num) != num,
    {
        let p = self.p;
        lemma_small_mod(num as nat, p as nat);
        lemma_mul_basics(num);
        if self.mul(self.root, num) == num {
            modular::lemma_cancel(self.root, 1, num, p);
            lemma_small_mod(1, p as nat);
            lemma_mul_basics(1);
            self.law_root_is_nonsquare(1);
        }
    }

    /// The ratio of an element to one is that element: the square root of the one is that of the
    /// other, and the one is a square exactly if the other is.
    pub proof fn law_ratio_to_one(self, u: int)
        requires
            self.valid(),
            self.is_element(u),
        ensures
            self.table_root_of_ratio(u, 1) == self.table_root(u),
            self.is_square_ratio(u, 1) == self.is_square(u),
    {
        self.lemma_quotient(u, 1);
        lemma_mul_basics(self.quotient(u, 1));
        lemma_small_mod(self.quotient(u, 1) as nat, self.p as nat);
        self.lemma_square_ratio(u, 1);
    }

    /// The table root `r` of an element is the root sought of it, and tells whether that is a
    /// square: it is exactly if `r^2 = u`. If `u` is not zero, `r^2` is either `u` or `root * u`,
    /// and not both.
    pub proof fn law_sqrt(self, u: int)
        requires
            self.valid(),
            self.is_element(u),
        ensures
            ({
                let r = self.table_root(u);
                let sq = self.mul(r, r);
                &&& self.is_root(u, r)
                &&& self.is_square(u) <==> sq == u
                &&& u == 0 ==> r == 0 && self.is_square(u)
                &&& u != 0 ==> (sq == u) != (sq == self.mul(self.root, u))
            }),
    {
        let r = self.table_root(u);
        let sq = self.mul(r, r);
        self.law_ratio_to_one(u);
        self.law_sqrt_ratio(u, 1);
        lemma_mul_basics(sq);
        lemma_mod_bound(r * r, self.p);
        lemma_small_mod(sq as nat, self.p as nat);
    }

    /// The table root of a square is, up to sign, the element that was squared.
    pub proof fn law_root_of_square(self, y: int)
        requires
            self.valid(),
            self.is_element(y),
        ensures
            ({
                let r = self.table_root(self.mul(y, y));
                r == y || r == self.sub(0, y)
            }),
    {
        let p = self.p;
        let u = self.mul(y, y);
        let r = self.table_root(u);
        lemma_mod_bound(y * y, p);
        assert(self.is_square(u));
        self.law_sqrt(u);
        lemma_small_mod(0, p as nat);
        lemma_mul_basics(0);
        if y != 0 {
            let inv = modular::lemma_inverse_exists(y, p);
            let z = self.mul(r, inv);
            lemma_mod_bound(r * inv, p);
            modular::lemma_mul_mod_swap(r, inv, r, inv, p);
            modular::lemma_mul_mod_swap(y, inv, y, inv, p);
            lemma_mul_basics(1);
            lemma_small_mod(1, p as nat);
            modular::lemma_roots_of_one(z, p);
            modular::lemma_mul_mod_assoc(r, inv, y, p);
            modular::lemma_mul_mod_comm(inv, y, p);
            lemma_mul_basics(r);
            lemma_mul_basics(y);
            lemma_small_mod(r as nat, p as nat);
            lemma_small_mod(y as nat, p as nat);
            assert((p - 1) * y == p * (y - 1) + (p - y)) by (nonlinear_arith);
            lemma_mod_multiples_vanish(y - 1, p - y, p);
            lemma_small_mod((p - y) as nat, p as nat);
            lemma_mod_add_multiples_vanish(-y, p);
        }
    }

    /// Which fields these are: the modulus is a prime, one more than `2^32` times an odd number,
    /// and the `2^31`-th power of the root of unity is minus one. Any such modulus and root will
    /// do.
    pub proof fn law_validity(self)
        requires
            self.p > 2,
            0 <= self.root < self.p,
        ensures
            self.valid() <==> {
                &&& modular::is_prime(self.p)
                &&& self.p == pow2(32) * self.t + 1
                &&& self.t % 2 == 1
                &&& pow(self.root, pow2(31)) % self.p == self.p - 1
            },
    {
        lemma2_to64();
        if self.valid() {
            self.lemma_half_order();
        }
        if pow(self.root, pow2(31)) % self.p == self.p - 1 {
            modular::lemma_pow_mod_add(self.root, 0x8000_0000, 0x8000_0000, self.p);
            modular::lemma_power_of_minus_one(2, self.p);
            modular::lemma_pow_mod_small(self.p - 1, self.p);
        }
    }

    /// Elements are the integers that are their own remainder.
    pub proof fn law_elements_are_remainders(self, x: int)
        requires
            self.valid(),
        ensures
            self.is_element(x) <==> x % self.p == x,
            self.is_element(x % self.p),
    {
        lemma_mod_bound(x, self.p);
        if self.is_element(x) {
            lemma_small_mod(x as nat, self.p as nat);
        }
    }

    /// Subtraction undoes addition.
    pub proof fn law_sub_undoes_addition(self, x: int, y: int)
        requires
            self.valid(),
            self.is_element(x),
            self.is_element(y),
        ensures
            self.is_element(self.sub(x, y)),
            (self.sub(x, y) + y) % self.p == x,
            self.sub((x + y) % self.p, y) == x,
    {
        let p = self.p;
        lemma_mod_bound(x - y, p);
        lemma_small_mod(x as nat, p as nat);
        lemma_add_mod_noop(x - y, y, p);
        lemma_add_mod_noop((x - y) % p, y, p);
        lemma_mod_twice(x - y, p);
        lemma_sub_mod_noop(x + y, y, p);
        lemma_sub_mod_noop((x + y) % p, y, p);
        lemma_mod_twice(x + y, p);
    }

    /// The elements are a commutative ring: multiplication commutes, associates, has one as its
    /// identity and distributes over subtraction.
    pub proof fn law_ring(self, x: int, y: int, z: int)
        requires
            self.valid(),
            self.is_element(x),
            self.is_element(y),
            self.is_element(z),
        ensures
            self.is_element(self.mul(x, y)),
            self.mul(x, 1) == x,
            self.mul(x, y) == self.mul(y, x),
            self.mul(self.mul(x, y), z) == self.mul(x, self.mul(y, z)),
            self.mul(x, self.sub(y, z)) == self.sub(self.mul(x, y), self.mul(x, z)),
    {
        let p = self.p;
        lemma_mod_bound(x * y, p);
        lemma_mul_basics(x);
        lemma_small_mod(x as nat, p as nat);
        modular::lemma_mul_mod_comm(x, y, p);
        modular::lemma_mul_mod_assoc(x, y, z, p);
        lemma_mul_mod_noop_right(x, y - z, p);
        lemma_mul_is_distributive_sub(x, y, z);
        lemma_sub_mod_noop(x * y, x * z, p);
    }

    /// Every element but zero has an inverse.
    pub proof fn law_inverses(self, x: int) -> (y: int)
        requires
            self.valid(),
            self.is_element(x),
            x != 0,
        ensures
            self.is_element(y),
            self.mul(x, y) == 1,
    {
        modular::lemma_inverse_exists(x, self.p)
    }

    /// Powers multiply by adding exponents; the first power is the element and the zeroth is one.
    pub proof fn law_powers(self, x: int, m: nat, n: nat)
        requires
            self.valid(),
            self.is_element(x),
        ensures
            self.is_element(self.pow(x, m)),
            self.pow(x, 0) == 1,
            self.pow(x, 1) == x,
            self.pow(x, m + n) == self.mul(self.pow(x, m), self.pow(x, n)),
    {
        lemma_mod_bound(pow(x, m), self.p);
        lemma_small_mod(x as nat, self.p as nat);
        modular::lemma_pow_mod_small(x, self.p);
        modular::lemma_pow_mod_add(x, m, n, self.p);
    }

    /// The powers of the root of unity start with one and the root, multiply by adding exponents,
    /// and come back to one after `2^32` steps, passing minus one half way.
    pub proof fn law_powers_of_root(self, m: nat, n: nat)
        requires
            self.valid(),
        ensures
            self.root_pow(0) == 1,
            self.root_pow(1) == self.root,
            self.root_pow(m + n) == self.mul(self.root_pow(m), self.root_pow(n)),
            self.root_pow(pow2(31)) == self.p - 1,
            two_power_order() == pow2(32),
            self.root_pow(two_power_order()) == 1,
    {
        lemma2_to64();
        self.law_powers(self.root, m, n);
        self.lemma_half_order();
    }

    /// The logarithm of the inverse is an exponent below `2^32` that takes the element to one.
    pub proof fn law_log_inverts(self, k: nat)
        requires
            self.valid(),
        ensures
            ({
                let n = self.log_of_inverse(self.root_pow(k));
                &&& n < pow2(32)
                &&& self.root_pow(k + n) == 1
            }),
    {
        let x = self.root_pow(k);
        lemma2_to64();
        lemma_mod_bound(pow(self.root, k), self.p);
        modular::lemma_pow_mod_mul(self.root, k, two_power_order(), self.p);
        modular::lemma_pow_mod_mul(self.root, two_power_order(), k, self.p);
        modular::lemma_pow_mod_of_one(k, self.p);
        lemma_mul_is_commutative(k as int, two_power_order() as int);
        self.lemma_log(x);
        self.lemma_root_pow_add(k, self.log_of_inverse(x));
    }

    /// Euler's criterion: a nonzero element to the power `(p - 1) / 2` is one if it is a square,
    /// and minus one if it is not.
    pub proof fn law_euler(self, u: int)
        requires
            self.valid(),
            0 < u < self.p,
        ensures
            self.pow(u, ((self.p - 1) / 2) as nat) == (if self.is_square(u) {
                1
            } else {
                self.p - 1
            }),
    {
        let p = self.p;
        let h = ((p - 1) / 2) as nat;
        assert(2 * h == (p - 1) as nat);
        lemma_small_mod(0, p as nat);
        lemma_mul_basics(0);
        self.lemma_half_order();
        if self.is_square(u) {
            let y = choose|y: int| self.is_element(y) && #[trigger] self.mul(y, y) == u;
            modular::lemma_pow_mod_small(y, p);
            modular::lemma_pow_mod_mul(y, 2, h, p);
            modular::lemma_fermat(y, p);
        } else {
            let r = self.table_root(u);
            let w = self.pow(u, h);
            self.law_sqrt(u);
            modular::lemma_product_is_nonzero(self.root, u, p);
            modular::lemma_pow_mod_small(r, p);
            modular::lemma_pow_mod_mul(r, 2, h, p);
            modular::lemma_fermat(r, p);
            modular::lemma_pow_mod_distributes(self.root, u, h, p);
            assert(h == 0x8000_0000 * self.t);
            modular::lemma_pow_mod_mul(self.root, 0x8000_0000, self.t, p);
            modular::lemma_power_of_minus_one(self.t, p);
            assert(self.mul(p - 1, w) == 1);
            lemma_mod_bound(pow(u, h), p);
            modular::lemma_mul_mod_comm(p - 1, w, p);
            modular::lemma_power_of_minus_one(2, p);
            modular::lemma_pow_mod_small(p - 1, p);
            modular::lemma_cancel(w, p - 1, p - 1, p);
        }
    }

    /// What is squared is a square, and a square is what some element squared gives.
    pub proof fn law_squares(self, y: int, u: int) -> (root: int)
        requires
            self.valid(),
            self.is_element(y),
        ensures
            self.is_square(self.mul(y, y)),
            self.is_square(u) ==> self.is_element(root) && self.mul(root, root) == u,
    {
        choose|z: int| self.is_element(z) && #[trigger] self.mul(z, z) == u
    }

    /// A ratio is a square exactly if the product of its two terms is.
    pub proof fn law_square_ratio_is_square_product(self, num: int, div: int)
        requires
            self.valid(),
            self.is_element(num),
            0 < div < self.p,
        ensures
            self.is_square_ratio(num, div) <==> self.is_square(self.mul(num, div)),
    {
        let p = self.p;
        if self.is_square_ratio(num, div) {
            let y = choose|y: int|
                self.is_element(y) && #[trigger] self.mul(self.mul(y, y), div) == num;
            let z = self.mul(y, div);
            lemma_mod_bound(y * div, p);
            modular::lemma_mul_mod_swap(y, div, y, div, p);
            modular::lemma_mul_mod_assoc(self.mul(y, y), div, div, p);
            assert(self.mul(z, z) == self.mul(num, div));
        }
        if self.is_square(self.mul(num, div)) {
            let z = choose|z: int|
                self.is_element(z) && #[trigger] self.mul(z, z) == self.mul(num, div);
            let inv = modular::lemma_inverse_exists(div, p);
            let y = self.mul(z, inv);
            lemma_mod_bound(z * inv, p);
            modular::lemma_mul_mod_swap(z, inv, z, inv, p);
            modular::lemma_mul_mod_swap(num, div, inv, inv, p);
            modular::lemma_mul_mod_assoc(self.mul(num, inv), self.mul(div, inv), div, p);
            modular::lemma_mul_mod_assoc(num, inv, div, p);
            modular::lemma_mul_mod_comm(inv, div, p);
            lemma_mul_basics(div);
            lemma_mul_basics(num);
            lemma_small_mod(div as nat, p as nat);
            lemma_small_mod(num as nat, p as nat);
            assert(self.mul(self.mul(y, y), div) == num);
        }
    }

    /// Which of the two square roots it is: with `u^t * root^n = 1` and `n` below `2^32`, the one
    /// that takes `u^((t + 1) / 2)` half of `n` steps further, rounded up.
    pub proof fn law_choice_of_root(self, u: int, n: nat)
        requires
            self.valid(),
            0 < u < self.p,
            n < pow2(32),
            self.mul(self.pow(u, self.t), self.root_pow(n)) == 1,
        ensures
            self.table_root(u) == self.mul(
                self.pow(u, (self.t + 1) / 2),
                self.root_pow((n + 1) / 2),
            ),
    {
        let x = self.pow(u, self.t);
        lemma2_to64();
        self.lemma_power_in_subgroup(u);
        self.lemma_log(x);
        self.law_log_is_unique(x, n, self.log_of_inverse(x));
    }

    /// The root of a ratio is the root of whatever times `div` gives `num`, and the root of a ratio
    /// to zero is zero.
    pub proof fn law_root_of_ratio_is_root_of_quotient(self, num: int, div: int, u: int)
        requires
            self.valid(),
            self.is_element(num),
            self.is_element(div),
            self.is_element(u),
        ensures
            div != 0 && self.mul(u, div) == num ==> self.table_root_of_ratio(num, div)
                == self.table_root(u),
            div == 0 ==> self.table_root_of_ratio(num, div) == 0,
    {
        if div != 0 && self.mul(u, div) == num {
            self.lemma_quotient(num, div);
            modular::lemma_cancel(u, self.quotient(num, div), div, self.p);
        }
    }

    /// Scaling both terms of a ratio changes neither its root nor whether it is a square.
    pub proof fn law_ratio_is_scale_free(self, num: int, div: int, c: int)
        requires
            self.valid(),
            self.is_element(num),
            self.is_element(div),
            0 < c < self.p,
        ensures
            self.table_root_of_ratio(self.mul(num, c), self.mul(div, c))
                == self.table_root_of_ratio(num, div),
            self.is_square_ratio(self.mul(num, c), self.mul(div, c)) == self.is_square_ratio(
                num,
                div,
            ),
    {
        let p = self.p;
        let (m, d) = (self.mul(num, c), self.mul(div, c));
        lemma_mod_bound(num * c, p);
        lemma_mod_bound(div * c, p);
        lemma_small_mod(0, p as nat);
        lemma_mul_basics(c);
        if num != 0 {
            modular::lemma_product_is_nonzero(num, c, p);
        }
        if div == 0 {
            self.law_sqrt_ratio(num, 0);
            self.law_sqrt_ratio(m, 0);
        } else {
            let u = self.quotient(num, div);
            modular::lemma_product_is_nonzero(div, c, p);
            self.lemma_quotient(num, div);
            modular::lemma_mul_mod_assoc(u, div, c, p);
            self.law_root_of_ratio_is_root_of_quotient(m, d, u);
            self.lemma_quotient(m, d);
            modular::lemma_cancel(u, self.quotient(m, d), d, p);
            self.lemma_square_ratio(num, div);
            self.lemma_square_ratio(m, d);
        }
    }

    /// What a root of a ratio is: its square times `div` is `num` or `root * num`, and it is zero
    /// if either term is.
    pub proof fn law_roots_of_ratios(self, num: int, div: int, r: int)
        requires
            self.valid(),
            self.is_element(num),
            self.is_element(div),
            self.is_root_of_ratio(num, div, r),
        ensures
            self.is_element(r),
            num == 0 || div == 0 ==> r == 0,
            self.is_square_ratio(num, div) ==> self.mul(self.mul(r, r), div) == num,
            !self.is_square_ratio(num, div) && div != 0 ==> self.mul(self.mul(r, r), div)
                == self.mul(self.root, num),
    {
        lemma_small_mod(0, self.p as nat);
        lemma_mul_basics(0);
        lemma_mul_basics(div);
        self.law_sqrt_ratio(num, div);
    }

    /// What a root of an element is: its square is `u` or `root * u`.
    pub proof fn law_roots(self, u: int, r: int)
        requires
            self.valid(),
            self.is_element(u),
            self.is_root(u, r),
        ensures
            self.is_element(r),
            self.is_square(u) ==> self.mul(r, r) == u,
            !self.is_square(u) ==> self.mul(r, r) == self.mul(self.root, u),
    {
    }

    /// Elements are equal exactly if their difference is zero.
    pub proof fn lemma_difference_is_zero(self, x: int, y: int)
        requires
            self.valid(),
            self.is_element(x),
            self.is_element(y),
        ensures
            self.sub(x, y) == 0 <==> x == y,
    {
        lemma_mod_equivalence(x, y, self.p);
        lemma_small_mod(x as nat, self.p as nat);
        lemma_small_mod(y as nat, self.p as nat);
    }

    /// Powers of the root of unity multiply by adding exponents.
    pub proof fn lemma_root_pow_add(self, m: nat, n: nat)
        requires
            self.valid(),
        ensures
            self.mul(self.root_pow(m), self.root_pow(n)) == self.root_pow(m + n),
    {
        modular::lemma_pow_mod_add(self.root, m, n, self.p);
    }

    /// Multiplying by two powers of the root of unity, one after the other.
    pub proof fn lemma_mul_root_pows(self, x: int, m: nat, n: nat)
        requires
            self.valid(),
        ensures
            self.mul(self.mul(x, self.root_pow(m)), self.root_pow(n)) == self.mul(
                x,
                self.root_pow(m + n),
            ),
    {
        self.lemma_root_pow_add(m, n);
        modular::lemma_mul_mod_assoc(x, self.root_pow(m), self.root_pow(n), self.p);
    }

    /// One step of the search for the logarithm `n` of the inverse of `x`, a digit at a time.
    ///
    /// Here `low` is what is known of `n`, `rest` what is left once that is taken off, scaled so
    /// that the next digit to base 256 is its lowest. Then `x^m * root^(m * low)` is in the subgroup
    /// of order 256, and tells that digit.
    pub proof fn lemma_next_digit(self, x: int, n: nat, m: nat, low: nat, rest: nat)
        requires
            self.valid(),
            self.is_element(x),
            self.mul(x, self.root_pow(n)) == 1,
            m * n == m * low + 0x100_0000 * rest,
        ensures
            self.mul(self.pow(x, m), self.root_pow(m * low)) == self.root_pow(
                0x100_0000 * (((256 - rest % 256) % 256) as nat),
            ),
    {
        let p = self.p;
        let alpha = self.mul(self.pow(x, m), self.root_pow(m * low));
        let digit = rest % 256;
        let high = rest / 256;
        let j = ((256 - digit) % 256) as nat;
        // x^m * root^(m * n) = 1
        modular::lemma_pow_mod_distributes(x, self.root_pow(n), m, p);
        modular::lemma_pow_mod_of_one(m, p);
        modular::lemma_pow_mod_mul(self.root, n, m, p);
        lemma_mul_is_commutative(m as int, n as int);
        // root^(m * n) = root^(m * low) * root^(2^24 * digit)
        let b = self.root_pow(0x100_0000 * digit);
        modular::lemma_pow_mod_mul(self.root, two_power_order(), high, p);
        modular::lemma_pow_mod_of_one(high, p);
        self.lemma_root_pow_add(0x100_0000 * digit, two_power_order() * high);
        assert(0x100_0000 * digit + two_power_order() * high == 0x100_0000 * rest);
        lemma_mod_bound(pow(self.root, 0x100_0000 * digit), p);
        lemma_mul_basics(b);
        lemma_small_mod(b as nat, p as nat);
        self.lemma_root_pow_add(m * low, 0x100_0000 * rest);
        modular::lemma_mul_mod_assoc(self.pow(x, m), self.root_pow(m * low), b, p);
        assert(self.mul(alpha, b) == 1);
        // root^(2^24 * j) * root^(2^24 * digit) = 1
        modular::lemma_pow_mod_small(self.root, p);
        self.lemma_root_pow_add(0x100_0000 * j, 0x100_0000 * digit);
        self.lemma_half_order();
        modular::lemma_power_is_nonzero(self.root, 0x100_0000 * digit, p);
        lemma_mod_bound(self.pow(x, m) * self.root_pow(m * low), p);
        lemma_mod_bound(pow(self.root, 0x100_0000 * j), p);
        modular::lemma_cancel(alpha, self.root_pow(0x100_0000 * j), b, p);
    }

    /// With `v = u^((t - 1) / 2)`, the two products that the root is found from.
    pub proof fn lemma_root_terms(self, u: int)
        requires
            self.valid(),
            self.is_element(u),
        ensures
            ({
                let v = self.pow(u, ((self.t - 1) / 2) as nat);
                let uv = self.mul(u, v);
                &&& uv == self.pow(u, (self.t + 1) / 2)
                &&& self.mul(uv, v) == self.pow(u, self.t)
                &&& u == 0 ==> uv == 0
                &&& u != 0 ==> self.pow(self.pow(u, self.t), two_power_order()) == 1
            }),
    {
        let h = ((self.t - 1) / 2) as nat;
        assert(1 + h == (self.t + 1) / 2);
        assert(1 + h + h == self.t);
        modular::lemma_pow_mod_small(u, self.p);
        lemma_small_mod(u as nat, self.p as nat);
        modular::lemma_pow_mod_add(u, 1, h, self.p);
        assert(self.mul(u, self.pow(u, h)) == self.pow(u, 1 + h));
        modular::lemma_pow_mod_add(u, 1 + h, h, self.p);
        if u == 0 {
            modular::lemma_pow_mod_of_zero(1 + h, self.p);
        } else {
            self.lemma_power_in_subgroup(u);
        }
    }

    /// With `w = (num * div^(2^33 - 1))^((t - 1) / 2) * div^(2^32 - 1)`, the products `w * div` and
    /// `w * num` are `u^((t - 1) / 2)` and `u` times that, where `u` is the quotient.
    pub proof fn lemma_ratio_terms(self, num: int, div: int)
        requires
            self.valid(),
            self.is_element(num),
            0 < div < self.p,
        ensures
            ({
                let h = ((self.t - 1) / 2) as nat;
                let s = self.pow(div, 0xffff_ffff);
                let d = self.pow(div, 0x1_ffff_ffff);
                let w = self.mul(self.pow(self.mul(d, num), h), s);
                let u = self.quotient(num, div);
                &&& self.mul(w, div) == self.pow(u, h)
                &&& self.mul(w, num) == self.mul(u, self.pow(u, h))
            }),
    {
        let p = self.p;
        let h = ((self.t - 1) / 2) as nat;
        let s = self.pow(div, 0xffff_ffff);
        let d = self.pow(div, 0x1_ffff_ffff);
        let u = self.quotient(num, div);
        let b = self.pow(self.mul(d, num), h);
        let w = self.mul(b, s);
        let v = self.pow(u, h);
        self.lemma_quotient(num, div);
        modular::lemma_pow_mod_small(div, p);
        lemma_small_mod(div as nat, p as nat);
        // d * num = u * div^(2^33)
        let dd = self.pow(div, 0x2_0000_0000);
        modular::lemma_pow_mod_add(div, 0x1_ffff_ffff, 1, p);
        modular::lemma_mul_mod_comm(d, num, p);
        modular::lemma_mul_mod_assoc(u, div, d, p);
        modular::lemma_mul_mod_comm(div, d, p);
        assert(self.mul(d, num) == self.mul(u, dd));
        // b = v * div^(2^33 * h)
        modular::lemma_pow_mod_distributes(u, dd, h, p);
        modular::lemma_pow_mod_mul(div, 0x2_0000_0000, h, p);
        let e = 0x2_0000_0000 * h;
        assert(b == self.mul(v, self.pow(div, e)));
        // w * div = v * div^(2^33 * h + 2^32) = v * div^(p - 1)
        modular::lemma_mul_mod_assoc(b, s, div, p);
        modular::lemma_pow_mod_add(div, 0xffff_ffff, 1, p);
        modular::lemma_mul_mod_assoc(v, self.pow(div, e), self.pow(div, 0x1_0000_0000), p);
        modular::lemma_pow_mod_add(div, e, 0x1_0000_0000, p);
        modular::lemma_fermat(div, p);
        assert(e + 0x1_0000_0000 == (p - 1) as nat);
        lemma_mul_basics(v);
        lemma_mod_bound(pow(u, h), p);
        lemma_small_mod(v as nat, p as nat);
        assert(self.mul(w, div) == v);
        // w * num = w * div * u
        modular::lemma_mul_mod_comm(u, div, p);
        modular::lemma_mul_mod_assoc(w, div, u, p);
        modular::lemma_mul_mod_comm(v, u, p);
    }

    /// Ratios to zero lead to zero.
    pub proof fn lemma_ratio_to_zero(self, b: int)
        requires
            self.valid(),
        ensures
            self.mul(b, self.pow(0, 0xffff_ffff)) == 0,
    {
        modular::lemma_pow_mod_of_zero(0xffff_ffff, self.p);
        lemma_mul_basics(b);
        lemma_small_mod(0, self.p as nat);
    }
}

/// `n` is `2^k`.
spec fn is_power_of_two(n: nat, k: nat) -> bool
    decreases k,
{
    if k == 0 {
        n == 1
    } else {
        n % 2 == 0 && is_power_of_two(n / 2, (k - 1) as nat)
    }
}

proof fn lemma_is_power_of_two()
    ensures
        is_power_of_two(two_power_order(), 32),
{
    reveal_with_fuel(is_power_of_two, 33);
}

} // verus!
