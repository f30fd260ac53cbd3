//! Carry-propagating arithmetic on little-endian vectors of 64-bit limbs.

use vstd::arithmetic::div_mod::*;
use vstd::arithmetic::mul::*;
use vstd::arithmetic::power2::*;
use vstd::prelude::*;

verus! {

/// The weight of one limb relative to the previous one.
pub open spec fn limb_base() -> nat {
    0x1_0000_0000_0000_0000
}

/// The number that a sequence of limbs stands for, least significant limb first.
pub open spec fn limbs_value(limbs: Seq<u64>) -> nat
    decreases limbs.len(),
{
    if limbs.len() == 0 {
        0
    } else {
        limbs[0] as nat + limb_base() * limbs_value(limbs.drop_first())
    }
}

/// `sum` is the low limb of `a + bc + carry` and what is carried out of it.
pub open spec fn is_sum_with_carry(sum: (u64, u64), a: u64, bc: int, carry: u64) -> bool {
    sum.0 + limb_base() * sum.1 == a + bc + carry
}

/// The bit that a borrow limb stands for: its top bit.
pub open spec fn borrow_bit(borrow: u64) -> int {
    borrow as int / 0x8000_0000_0000_0000
}

/// `diff` is the low limb of `a - (b + borrow)`, and all ones if that is negative, else zero.
pub open spec fn is_difference_with_borrow(
    diff: (u64, u64),
    a: u64,
    b: u64,
    borrow: u64,
) -> bool {
    &&& diff.0 == (a - (b + borrow_bit(borrow))) % (limb_base() as int)
    &&& diff.1 == (if a < b + borrow_bit(borrow) {
        u64::MAX
    } else {
        0
    })
}

/// The eight limbs of `acc.0` and the carry `acc.1` beyond them hold `dst + n`.
pub open spec fn is_accumulated(acc: (Seq<u64>, u64), dst: Seq<u64>, n: nat) -> bool {
    &&& acc.0.len() == 8
    &&& limbs_value(acc.0) + pow2(512) * acc.1 == limbs_value(dst) + n
}

/// Compute a + b + carry, returning the result and the new carry over.
#[inline(always)]
pub fn adc(a: u64, b: u64, carry: u64) -> (r: (u64, u64))
    ensures
        is_sum_with_carry(r, a, b as int, carry),
{
    let ret: u128 = (a as u128) + (b as u128) + (carry as u128);
    proof {
        lemma_split(ret);
    }
    (ret as u64, (ret >> 64) as u64)
}

/// Compute a - (b + borrow), returning the result and the new borrow.
///
/// A borrow is a whole limb, of which the top bit alone is read; the one that is returned is
/// either zero or all ones.
#[inline(always)]
pub fn sbb(a: u64, b: u64, borrow: u64) -> (r: (u64, u64))
    ensures
        is_difference_with_borrow(r, a, b, borrow),
{
    proof {
        assert(borrow >> 63 == borrow / 0x8000_0000_0000_0000) by (bit_vector);
    }
    let ret: u128 = (a as u128).wrapping_sub((b as u128) + ((borrow >> 63) as u128));
    proof {
        lemma_split(ret);
    }
    (ret as u64, (ret >> 64) as u64)
}

/// Compute a + (b * c) + carry, returning the result and the new carry over.
#[inline(always)]
pub fn mac(a: u64, b: u64, c: u64, carry: u64) -> (r: (u64, u64))
    ensures
        is_sum_with_carry(r, a, b * c, carry),
{
    proof {
        assert(b * c <= 0xffff_ffff_ffff_ffff * 0xffff_ffff_ffff_ffff) by (nonlinear_arith)
            requires
                b <= 0xffff_ffff_ffff_ffff,
                c <= 0xffff_ffff_ffff_ffff,
        ;
    }
    let ret: u128 = (a as u128) + ((b as u128) * (c as u128)) + (carry as u128);
    proof {
        lemma_split(ret);
    }
    (ret as u64, (ret >> 64) as u64)
}

/// Multiply-accumulate: adds the 4-limb * 4-limb product `a * b` into `dst`
/// and returns `(dst, carry)`.
///
/// When `dst` is `[0; 8]` this computes a fresh 512-bit product (carry = 0).
/// When `dst` already holds a value, the product is added to it and `carry`
/// captures any overflow beyond 512 bits.
///
/// The structure mirrors the standard schoolbook with one `adc` at the end of
/// each row to propagate the row carry into the next limb.  Each `adc` also
/// folds in the overflow from the previous row's `adc`, so the total cost is
/// 16 `mac` + 4 `adc`.  When `dst` is zero the `adc` calls reduce to simple
/// moves after inlining (overflow is always 0).
#[inline]
pub fn mul_acc(mut dst: [u64; 8], a: &[u64; 4], b: &[u64; 4]) -> (r: ([u64; 8], u64))
    ensures
        is_accumulated((r.0@, r.1), dst@, limbs_value(a@) * limbs_value(b@)),
        r.1 <= 1,
        limbs_value(dst@) == 0 ==> r.1 == 0 && limbs_value(r.0@) == limbs_value(a@) * limbs_value(
            b@,
        ),
{
    let ghost d0 = dst@;

    // Row 0: a[0] * b[0..3]
    let (d, carry) = mac(dst[0], a[0], b[0], 0);
    dst[0] = d;
    let (d, carry) = mac(dst[1], a[0], b[1], carry);
    dst[1] = d;
    let (d, carry) = mac(dst[2], a[0], b[2], carry);
    dst[2] = d;
    let (d, carry) = mac(dst[3], a[0], b[3], carry);
    dst[3] = d;
    let (d, over) = adc(dst[4], carry, 0);
    dst[4] = d;

    // Row 1: a[1] * b[0..3]
    let (d, carry) = mac(dst[1], a[1], b[0], 0);
    dst[1] = d;
    let (d, carry) = mac(dst[2], a[1], b[1], carry);
    dst[2] = d;
    let (d, carry) = mac(dst[3], a[1], b[2], carry);
    dst[3] = d;
    let (d, carry) = mac(dst[4], a[1], b[3], carry);
    dst[4] = d;
    let (d, over) = adc(dst[5], carry, over);
    dst[5] = d;

    // Row 2: a[2] * b[0..3]
    let (d, carry) = mac(dst[2], a[2], b[0], 0);
    dst[2] = d;
    let (d, carry) = mac(dst[3], a[2], b[1], carry);
    dst[3] = d;
    let (d, carry) = mac(dst[4], a[2], b[2], carry);
    dst[4] = d;
    let (d, carry) = mac(dst[5], a[2], b[3], carry);
    dst[5] = d;
    let (d, over) = adc(dst[6], carry, over);
    dst[6] = d;

    // Row 3: a[3] * b[0..3]
    let (d, carry) = mac(dst[3], a[3], b[0], 0);
    dst[3] = d;
    let (d, carry) = mac(dst[4], a[3], b[1], carry);
    dst[4] = d;
    let (d, carry) = mac(dst[5], a[3], b[2], carry);
    dst[5] = d;
    let (d, carry) = mac(dst[6], a[3], b[3], carry);
    dst[6] = d;
    let (d, over) = adc(dst[7], carry, over);
    dst[7] = d;

    proof {
        lemma_value_eight(d0);
        lemma_value_eight(dst@);
        lemma_product(a@, b@);
        lemma_ninth_limb(over as int);
        law_product_carry((dst@, over), d0, a@, b@);
    }
    (dst, over)
}

/// Square-accumulate: adds `a^2` into `dst` and returns `(dst, carry)`.
///
/// When `dst` is `[0; 8]` this computes a fresh 512-bit square (carry = 0).
/// When `dst` already holds a value, the square is added to it and `carry`
/// captures any overflow beyond 512 bits.
///
/// Uses the optimised squaring strategy: 6 cross-term multiplications,
/// doubling via shifts, then 4 diagonal multiplications.  The doubled
/// cross-terms are folded into `dst` before the diagonal pass so that the
/// diagonal `mac`/`adc` chain operates on the combined value.  When `dst`
/// is zero the cross-term fold reduces to moves after inlining.
#[inline]
pub fn square_acc(mut dst: [u64; 8], a: &[u64; 4]) -> (r: ([u64; 8], u64))
    ensures
        is_accumulated((r.0@, r.1), dst@, limbs_value(a@) * limbs_value(a@)),
        r.1 <= 1,
        limbs_value(dst@) == 0 ==> r.1 == 0 && limbs_value(r.0@) == limbs_value(a@) * limbs_value(
            a@,
        ),
{
    let ghost d0 = dst@;

    // Cross-terms (into fresh temporaries).
    let (r1, carry) = mac(0, a[0], a[1], 0);
    let (r2, carry) = mac(0, a[0], a[2], carry);
    let (r3, r4) = mac(0, a[0], a[3], carry);

    let (r3, carry) = mac(r3, a[1], a[2], 0);
    let (r4, r5) = mac(r4, a[1], a[3], carry);

    let (r5, r6) = mac(r5, a[2], a[3], 0);

    let ghost cross = (r1, r2, r3, r4, r5, r6);

    // Double the cross-terms.
    let r7 = r6 >> 63;
    let r6 = (r6 << 1) | (r5 >> 63);
    let r5 = (r5 << 1) | (r4 >> 63);
    let r4 = (r4 << 1) | (r3 >> 63);
    let r3 = (r3 << 1) | (r2 >> 63);
    let r2 = (r2 << 1) | (r1 >> 63);
    let r1 = r1 << 1;

    proof {
        let low = cross.0;
        assert(low << 1 == 2 * low - 0x1_0000_0000_0000_0000 * (low >> 63)) by (bit_vector);
        lemma_double_limb(cross.0, cross.1);
        lemma_double_limb(cross.1, cross.2);
        lemma_double_limb(cross.2, cross.3);
        lemma_double_limb(cross.3, cross.4);
        lemma_double_limb(cross.4, cross.5);
        assert(combine(
            0,
            r1 as int,
            r2 as int,
            r3 as int,
            r4 as int,
            r5 as int,
            r6 as int,
            r7 as int,
        ) == combine(
            0,
            2 * (a[0] * a[1]),
            2 * (a[0] * a[2]),
            2 * (a[0] * a[3] + a[1] * a[2]),
            2 * (a[1] * a[3]),
            2 * (a[2] * a[3]),
            0,
            0,
        ));
    }

    // Fold doubled cross-terms into dst[1..7].
    // When dst is zero every adc is a move and over stays 0.
    let (d, over) = adc(dst[1], r1, 0);
    dst[1] = d;
    let (d, over) = adc(dst[2], r2, over);
    dst[2] = d;
    let (d, over) = adc(dst[3], r3, over);
    dst[3] = d;
    let (d, over) = adc(dst[4], r4, over);
    dst[4] = d;
    let (d, over) = adc(dst[5], r5, over);
    dst[5] = d;
    let (d, over) = adc(dst[6], r6, over);
    dst[6] = d;
    let (d, over) = adc(dst[7], r7, over);
    dst[7] = d;

    let ghost mid = dst@;
    assert(combine_limbs(mid) + ninth_limb(over as int) == combine_limbs(d0) + combine(
        0,
        r1 as int,
        r2 as int,
        r3 as int,
        r4 as int,
        r5 as int,
        r6 as int,
        r7 as int,
    ));

    // Add diagonal terms a[i]^2 into dst[2i..2i+1].
    let (d, carry) = mac(dst[0], a[0], a[0], 0);
    dst[0] = d;
    let (d, carry) = adc(dst[1], 0, carry);
    dst[1] = d;
    let (d, carry) = mac(dst[2], a[1], a[1], carry);
    dst[2] = d;
    let (d, carry) = adc(dst[3], 0, carry);
    dst[3] = d;
    let (d, carry) = mac(dst[4], a[2], a[2], carry);
    dst[4] = d;
    let (d, carry) = adc(dst[5], 0, carry);
    dst[5] = d;
    let (d, carry) = mac(dst[6], a[3], a[3], carry);
    dst[6] = d;
    let (d, carry) = adc(dst[7], 0, carry);
    dst[7] = d;

    assert(combine_limbs(dst@) + ninth_limb(carry as int) == combine_limbs(mid) + combine(
        a[0] * a[0],
        0,
        a[1] * a[1],
        0,
        a[2] * a[2],
        0,
        a[3] * a[3],
        0,
    ));
    proof {
        lemma_value_eight(d0);
        lemma_value_eight(dst@);
        lemma_product(a@, a@);
        lemma_mul_is_commutative(a[0] as int, a[1] as int);
        lemma_mul_is_commutative(a[0] as int, a[2] as int);
        lemma_mul_is_commutative(a[0] as int, a[3] as int);
        lemma_mul_is_commutative(a[1] as int, a[2] as int);
        lemma_mul_is_commutative(a[1] as int, a[3] as int);
        lemma_mul_is_commutative(a[2] as int, a[3] as int);
        lemma_ninth_limb(over + carry);
        law_product_carry((dst@, (over + carry) as u64), d0, a@, a@);
    }
    (dst, over + carry)
}

/// Shifting a limb left by one and pulling in the top bit of the limb below doubles it.
proof fn lemma_double_limb(below: u64, x: u64)
    ensures
        (x << 1) | (below >> 63) == 2 * x + (below >> 63) - limb_base() * (x >> 63),
{
    assert((x << 1) | (below >> 63) == 2 * x + (below >> 63) - 0x1_0000_0000_0000_0000 * (x >> 63))
        by (bit_vector);
}

/// A number of `n` limbs is below `2^(64 * n)`.
pub proof fn law_value_bound(s: Seq<u64>)
    ensures
        limbs_value(s) < pow2(64 * s.len()),
    decreases s.len(),
{
    lemma2_to64();
    if s.len() > 0 {
        let rest = limbs_value(s.drop_first());
        law_value_bound(s.drop_first());
        lemma_pow2_adds(64, 64 * s.drop_first().len());
        assert(64 + 64 * s.drop_first().len() == 64 * s.len());
        assert(limb_base() * (rest + 1) <= limb_base() * pow2(64 * s.drop_first().len()));
    }
}

/// Two numbers of as many limbs are equal only if their limbs are.
pub proof fn law_value_injective(x: Seq<u64>, y: Seq<u64>)
    requires
        x.len() == y.len(),
        limbs_value(x) == limbs_value(y),
    ensures
        x == y,
    decreases x.len(),
{
    if x.len() > 0 {
        law_value_injective(x.drop_first(), y.drop_first());
        assert(x =~= seq![x[0]] + x.drop_first());
        assert(y =~= seq![y[0]] + y.drop_first());
    } else {
        assert(x =~= y);
    }
}

/// An accumulated value has one representation only.
pub proof fn law_accumulated_is_unique(
    x: (Seq<u64>, u64),
    y: (Seq<u64>, u64),
    dst: Seq<u64>,
    n: nat,
)
    requires
        is_accumulated(x, dst, n),
        is_accumulated(y, dst, n),
    ensures
        x == y,
{
    let total = (limbs_value(dst) + n) as int;
    let bound = pow2(512) as int;
    law_value_bound(x.0);
    law_value_bound(y.0);
    lemma_mul_is_commutative(bound, x.1 as int);
    lemma_mul_is_commutative(bound, y.1 as int);
    lemma_fundamental_div_mod_converse(total, bound, x.1 as int, limbs_value(x.0) as int);
    lemma_fundamental_div_mod_converse(total, bound, y.1 as int, limbs_value(y.0) as int);
    law_value_injective(x.0, y.0);
}

/// Adding a product of two 4-limb numbers carries at most one out of 512 bits, and nothing when it
/// is added to zero: the eight limbs then hold the product.
pub proof fn law_product_carry(acc: (Seq<u64>, u64), dst: Seq<u64>, a: Seq<u64>, b: Seq<u64>)
    requires
        dst.len() == 8,
        a.len() == 4,
        b.len() == 4,
        is_accumulated(acc, dst, limbs_value(a) * limbs_value(b)),
    ensures
        acc.1 <= 1,
        limbs_value(dst) == 0 ==> acc.1 == 0 && limbs_value(acc.0) == limbs_value(a) * limbs_value(
            b,
        ),
{
    lemma_value_eight(acc.0);
    lemma_value_eight(dst);
    lemma_value_four(a);
    lemma_value_four(b);
    lemma_ninth_limb(acc.1 as int);
    lemma_ninth_limb(1);
    lemma_mul_upper_bound(
        limbs_value(a) as int,
        0xffff_ffff_ffff_ffff_ffff_ffff_ffff_ffff_ffff_ffff_ffff_ffff_ffff_ffff_ffff_ffffint,
        limbs_value(b) as int,
        0xffff_ffff_ffff_ffff_ffff_ffff_ffff_ffff_ffff_ffff_ffff_ffff_ffff_ffff_ffff_ffffint,
    );
}

/// A single limb stands for itself, and no limbs stand for zero.
pub proof fn law_value_of_one_limb(x: u64)
    ensures
        limbs_value(seq![x]) == x,
        limbs_value(Seq::<u64>::empty()) == 0,
{
    reveal_with_fuel(limbs_value, 2);
}

/// Limbs put behind others count for `2^64` times more per limb in front of them.
pub proof fn law_value_concatenates(s: Seq<u64>, t: Seq<u64>)
    ensures
        limbs_value(s + t) == limbs_value(s) + pow2(64 * s.len()) * limbs_value(t),
    decreases s.len(),
{
    lemma2_to64();
    if s.len() == 0 {
        assert(s + t =~= t);
        lemma_mul_basics(limbs_value(t) as int);
    } else {
        let rest = s.drop_first();
        law_value_concatenates(rest, t);
        assert((s + t).drop_first() =~= rest + t);
        assert(64 + 64 * rest.len() == 64 * s.len());
        lemma_shift_limb(64 * rest.len(), limbs_value(t) as int);
    }
}

/// What a limb addition gives is a number of two limbs, the sum itself.
pub proof fn law_sum_is_two_limbs(sum: (u64, u64), a: u64, bc: int, carry: u64)
    requires
        is_sum_with_carry(sum, a, bc, carry),
    ensures
        limbs_value(seq![sum.0, sum.1]) == a + bc + carry,
{
    lemma_value_two(sum.0, sum.1);
}

/// The bit that a borrow stands for is what doubling the borrow carries out.
pub proof fn law_borrow_bit_is_carried_by_doubling(twice: (u64, u64), borrow: u64)
    requires
        is_sum_with_carry(twice, borrow, borrow as int, 0),
    ensures
        twice.1 == borrow_bit(borrow),
{
}

/// A limb subtraction borrows exactly if it goes below zero, and a borrow is worth `2^64`; it comes
/// back as no bits or all of them.
pub proof fn law_difference_and_borrow(diff: (u64, u64), a: u64, b: u64, borrow: u64)
    requires
        is_difference_with_borrow(diff, a, b, borrow),
    ensures
        diff.0 + b + borrow_bit(borrow) == a + pow2(64) * borrow_bit(diff.1),
        diff.1 == 0 || diff.1 == u64::MAX,
        diff.1 == u64::MAX <==> a < b + borrow_bit(borrow),
{
    lemma2_to64();
}

/// The accumulated limbs with the carry as a ninth limb are the number that was there and the one
/// that was added.
pub proof fn law_accumulated_is_nine_limbs(acc: (Seq<u64>, u64), dst: Seq<u64>, n: nat)
    requires
        is_accumulated(acc, dst, n),
    ensures
        acc.0.len() == 8,
        limbs_value(acc.0.push(acc.1)) == limbs_value(dst) + n,
{
    assert(acc.0.push(acc.1) =~= acc.0 + seq![acc.1]);
    law_value_concatenates(acc.0, seq![acc.1]);
    law_value_of_one_limb(acc.1);
}

/// Accumulating twice adds both numbers, and the two carries add up.
pub proof fn law_accumulation_composes(
    x: (Seq<u64>, u64),
    y: (Seq<u64>, u64),
    dst: Seq<u64>,
    m: nat,
    n: nat,
)
    requires
        is_accumulated(x, dst, m),
        is_accumulated(y, x.0, n),
    ensures
        limbs_value(y.0) + pow2(512) * (x.1 + y.1) == limbs_value(dst) + m + n,
{
    lemma_mul_is_distributive_add(pow2(512) as int, x.1 as int, y.1 as int);
}

/// What `adc` carries out is what it carries in one limb up: two calls of it add two limbs to two.
pub proof fn law_adc_chains(
    low: (u64, u64),
    high: (u64, u64),
    a: (u64, u64),
    b: (u64, u64),
    carry: u64,
)
    requires
        is_sum_with_carry(low, a.0, b.0 as int, carry),
        is_sum_with_carry(high, a.1, b.1 as int, low.1),
    ensures
        limbs_value(seq![low.0, high.0, high.1]) == limbs_value(seq![a.0, a.1]) + limbs_value(
            seq![b.0, b.1],
        ) + carry,
{
    lemma_value_two(a.0, a.1);
    lemma_value_two(b.0, b.1);
    lemma_value_three(low.0, high.0, high.1);
}

/// What `sbb` borrows is what it takes one limb up: two calls of it subtract two limbs from two,
/// and leave a borrow exactly if the difference is negative.
pub proof fn law_sbb_chains(
    low: (u64, u64),
    high: (u64, u64),
    a: (u64, u64),
    b: (u64, u64),
    borrow: u64,
)
    requires
        is_difference_with_borrow(low, a.0, b.0, borrow),
        is_difference_with_borrow(high, a.1, b.1, low.1),
    ensures
        limbs_value(seq![low.0, high.0]) == limbs_value(seq![a.0, a.1]) - limbs_value(
            seq![b.0, b.1],
        ) - borrow_bit(borrow) + pow2(128) * borrow_bit(high.1),
{
    lemma_value_two(a.0, a.1);
    lemma_value_two(b.0, b.1);
    lemma_value_two(low.0, high.0);
    lemma2_to64();
    lemma_shift_limb(64, borrow_bit(high.1));
}

/// `adc` undoes `sbb`: adding back what was subtracted, with the borrow that went in as the carry,
/// gives the number that it was subtracted from, and carries exactly if there was a borrow.
pub proof fn law_adc_undoes_sbb(
    diff: (u64, u64),
    sum: (u64, u64),
    a: u64,
    b: u64,
    borrow: u64,
)
    requires
        is_difference_with_borrow(diff, a, b, borrow),
        is_sum_with_carry(sum, diff.0, b as int, borrow_bit(borrow) as u64),
    ensures
        sum.0 == a,
        sum.1 == borrow_bit(diff.1),
{
}

/// Squaring is multiplying by itself: `square_acc` and `mul_acc` accumulate the same limbs and the
/// same carry.
pub proof fn law_square_is_product(
    square: (Seq<u64>, u64),
    product: (Seq<u64>, u64),
    dst: Seq<u64>,
    a: Seq<u64>,
)
    requires
        is_accumulated(square, dst, limbs_value(a) * limbs_value(a)),
        is_accumulated(product, dst, limbs_value(a) * limbs_value(a)),
    ensures
        square == product,
{
    law_accumulated_is_unique(square, product, dst, limbs_value(a) * limbs_value(a));
}

/// The order of the factors does not matter to `mul_acc`.
pub proof fn law_product_commutes(
    x: (Seq<u64>, u64),
    y: (Seq<u64>, u64),
    dst: Seq<u64>,
    a: Seq<u64>,
    b: Seq<u64>,
)
    requires
        is_accumulated(x, dst, limbs_value(a) * limbs_value(b)),
        is_accumulated(y, dst, limbs_value(b) * limbs_value(a)),
    ensures
        x == y,
{
    lemma_mul_is_commutative(limbs_value(a) as int, limbs_value(b) as int);
    law_accumulated_is_unique(x, y, dst, limbs_value(a) * limbs_value(b));
}

/// Two limbs, written out.
proof fn lemma_value_two(x: u64, y: u64)
    ensures
        limbs_value(seq![x, y]) == x + limb_base() * y,
{
    reveal_with_fuel(limbs_value, 3);
}

/// Three limbs, written out.
proof fn lemma_value_three(x: u64, y: u64, z: u64)
    ensures
        limbs_value(seq![x, y, z]) == x + limb_base() * (y + limb_base() * z),
{
    reveal_with_fuel(limbs_value, 4);
}

/// The number with the given coefficients to the base of one limb, lowest first.
#[verifier::inline]
spec fn combine(
    c0: int,
    c1: int,
    c2: int,
    c3: int,
    c4: int,
    c5: int,
    c6: int,
    c7: int,
) -> int {
    c0 + limb_base() * (c1 + limb_base() * (c2 + limb_base() * (c3 + limb_base() * (c4 + limb_base()
        * (c5 + limb_base() * (c6 + limb_base() * c7))))))
}

/// The number with eight limbs as its coefficients.
#[verifier::inline]
spec fn combine_limbs(s: Seq<u64>) -> int {
    combine(
        s[0] as int,
        s[1] as int,
        s[2] as int,
        s[3] as int,
        s[4] as int,
        s[5] as int,
        s[6] as int,
        s[7] as int,
    )
}

/// The number that has `c` as its ninth coefficient.
#[verifier::inline]
spec fn ninth_limb(c: int) -> int {
    limb_base() * combine(0, 0, 0, 0, 0, 0, 0, c)
}

/// Four limbs, written out.
proof fn lemma_value_four(s: Seq<u64>)
    requires
        s.len() == 4,
    ensures
        limbs_value(s) == combine(
            s[0] as int,
            s[1] as int,
            s[2] as int,
            s[3] as int,
            0,
            0,
            0,
            0,
        ),
{
    reveal_with_fuel(limbs_value, 5);
}

/// Eight limbs, written out.
proof fn lemma_value_eight(s: Seq<u64>)
    requires
        s.len() == 8,
    ensures
        limbs_value(s) == combine_limbs(s),
{
    reveal_with_fuel(limbs_value, 9);
}

/// `2^512` is the weight of a ninth limb.
proof fn lemma_ninth_limb(c: int)
    ensures
        pow2(512) * c == ninth_limb(c),
{
    lemma2_to64();
    lemma_shift_limb(448, c);
    lemma_shift_limb(384, c);
    lemma_shift_limb(320, c);
    lemma_shift_limb(256, c);
    lemma_shift_limb(192, c);
    lemma_shift_limb(128, c);
    lemma_shift_limb(64, c);
}

/// Scaling by a power of two, one limb at a time.
proof fn lemma_shift_limb(k: nat, c: int)
    ensures
        pow2(64 + k) * c == limb_base() * (pow2(k) * c),
{
    lemma2_to64();
    lemma_pow2_adds(64, k);
    lemma_mul_is_associative(limb_base() as int, pow2(k) as int, c);
}

/// A number times a 4-limb number, limb by limb.
proof fn lemma_scale_four(x: int, s: Seq<u64>)
    requires
        s.len() == 4,
    ensures
        x * limbs_value(s) == combine(
            x * s[0],
            x * s[1],
            x * s[2],
            x * s[3],
            0,
            0,
            0,
            0,
        ),
{
    let t3 = s[3] as int;
    let t2 = s[2] + limb_base() * t3;
    let t1 = s[1] + limb_base() * t2;
    lemma_value_four(s);
    lemma_scale_step(x, s[2] as int, t3);
    lemma_scale_step(x, s[1] as int, t2);
    lemma_scale_step(x, s[0] as int, t1);
}

proof fn lemma_scale_step(x: int, low: int, rest: int)
    ensures
        x * (low + limb_base() * rest) == x * low + limb_base() * (x * rest),
{
    lemma_mul_is_distributive_add(x, low, limb_base() * rest);
    lemma_mul_is_associative(x, limb_base() as int, rest);
    lemma_mul_is_commutative(x, limb_base() as int);
    lemma_mul_is_associative(limb_base() as int, x, rest);
}

/// The product of two 4-limb numbers, as the sum of the products of their limbs.
proof fn lemma_product(a: Seq<u64>, b: Seq<u64>)
    requires
        a.len() == 4,
        b.len() == 4,
    ensures
        limbs_value(a) * limbs_value(b) == combine(
            a[0] * b[0],
            a[0] * b[1] + a[1] * b[0],
            a[0] * b[2] + a[1] * b[1] + a[2] * b[0],
            a[0] * b[3] + a[1] * b[2] + a[2] * b[1] + a[3] * b[0],
            a[1] * b[3] + a[2] * b[2] + a[3] * b[1],
            a[2] * b[3] + a[3] * b[2],
            a[3] * b[3],
            0,
        ),
{
    let v = limbs_value(b) as int;
    lemma_mul_is_commutative(limbs_value(a) as int, v);
    lemma_scale_four(v, a);
    lemma_mul_is_commutative(v, a[0] as int);
    lemma_mul_is_commutative(v, a[1] as int);
    lemma_mul_is_commutative(v, a[2] as int);
    lemma_mul_is_commutative(v, a[3] as int);
    lemma_scale_four(a[0] as int, b);
    lemma_scale_four(a[1] as int, b);
    lemma_scale_four(a[2] as int, b);
    lemma_scale_four(a[3] as int, b);
}

/// A double-width integer is its low half plus its high half shifted up.
proof fn lemma_split(x: u128)
    ensures
        (x as u64) + limb_base() * ((x >> 64) as u64) == x,
{
    assert((x as u64) == x % 0x1_0000_0000_0000_0000) by (bit_vector);
    assert(((x >> 64) as u64) == x / 0x1_0000_0000_0000_0000) by (bit_vector);
}

} // verus!
