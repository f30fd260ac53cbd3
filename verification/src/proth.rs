//! A small prime field in which square roots can be taken.

use crate::choice;
use crate::field::PrimeFieldModel;
use crate::helpers::SqrtTableHelpers;
use crate::modular;
use subtle::Choice;
use vstd::arithmetic::div_mod::*;
use vstd::prelude::*;

verus! {

/// The modulus, the Proth prime `43 * 2^32 + 1`.
pub const PROTH_MODULUS: u64 = 0x2b_0000_0001;

/// The 43rd power of 3, which generates the subgroup of order `2^32`.
pub const PROTH_ROOT_OF_UNITY: u64 = 0x20ec6c7b60;

/// The field of the integers modulo `PROTH_MODULUS`.
pub open spec fn proth_field() -> PrimeFieldModel {
    PrimeFieldModel { p: PROTH_MODULUS as int, t: 43, root: PROTH_ROOT_OF_UNITY as int }
}

/// The modulus is a prime, and the root of unity has order `2^32`.
pub proof fn law_proth_field_is_valid()
    ensures
        proth_field().valid(),
{
    let p = PROTH_MODULUS as int;
    let g = PROTH_ROOT_OF_UNITY as int;
    modular::lemma_pow_mod_small(g, p);
    modular::lemma_square_step(g, 0x1, 141405485920, 108269018620, 17702012420, p);
    modular::lemma_square_step(g, 0x2, 17702012420, 1696746513, 49844839423, p);
    modular::lemma_square_step(g, 0x4, 49844839423, 13452781413, 101120413852, p);
    modular::lemma_square_step(g, 0x8, 101120413852, 55366791879, 140420951113, p);
    modular::lemma_square_step(g, 0x10, 140420951113, 106766622380, 34056883749, p);
    modular::lemma_square_step(g, 0x20, 34056883749, 6280316011, 27642399982, p);
    modular::lemma_square_step(g, 0x40, 27642399982, 4137358718, 178625320902, p);
    modular::lemma_square_step(g, 0x80, 178625320902, 172765780777, 49532146171, p);
    modular::lemma_square_step(g, 0x100, 49532146171, 13284523301, 99991981812, p);
    modular::lemma_square_step(g, 0x200, 99991981812, 54137978500, 88001976844, p);
    modular::lemma_square_step(g, 0x400, 88001976844, 41933058438, 73904865034, p);
    modular::lemma_square_step(g, 0x800, 73904865034, 29574522378, 105984853594, p);
    modular::lemma_square_step(g, 0x1000, 105984853594, 60821803196, 26356958952, p);
    modular::lemma_square_step(g, 0x2000, 26356958952, 3761510544, 81967159728, p);
    modular::lemma_square_step(g, 0x4000, 81967159728, 36379058573, 136038545267, p);
    modular::lemma_square_step(g, 0x8000, 136038545267, 100206441864, 121974630433, p);
    modular::lemma_square_step(g, 0x10000, 121974630433, 80558376458, 29819735607, p);
    modular::lemma_square_step(g, 0x20000, 29819735607, 4814811179, 7100161958, p);
    modular::lemma_square_step(g, 0x40000, 7100161958, 272965772, 91859549976, p);
    modular::lemma_square_step(g, 0x80000, 91859549976, 45689910789, 123311758395, p);
    modular::lemma_square_step(g, 0x100000, 123311758395, 82334274807, 39025090722, p);
    modular::lemma_square_step(g, 0x200000, 39025090722, 8246307509, 103772470223, p);
    modular::lemma_square_step(g, 0x400000, 103772470223, 58309053656, 56255546505, p);
    modular::lemma_square_step(g, 0x800000, 56255546505, 17135720876, 59489728421, p);
    modular::lemma_square_step(g, 0x1000000, 59489728421, 19162653899, 151981353870, p);
    modular::lemma_square_step(g, 0x2000000, 151981353870, 125069755562, 160417906202, p);
    modular::lemma_square_step(g, 0x4000000, 160417906202, 139340501831, 82285447005, p);
    modular::lemma_square_step(g, 0x8000000, 82285447005, 36662134692, 117458923557, p);
    modular::lemma_square_step(g, 0x10000000, 117458923557, 74703975835, 116995993534, p);
    modular::lemma_square_step(g, 0x20000000, 116995993534, 74116288440, 53430616396, p);
    modular::lemma_square_step(g, 0x40000000, 53430616396, 15457955472, 184683593728, p);
    modular::lemma_proth(43, g);
    modular::lemma_pow_mod_add(g, 0x8000_0000, 0x8000_0000, p);
    modular::lemma_power_of_minus_one(2, p);
    modular::lemma_pow_mod_small(p - 1, p);
}

/// An element of the field of the integers modulo `PROTH_MODULUS`.
///
/// It is held as any word that is congruent to its value.
#[derive(Debug, Clone, Copy)]
pub struct ProthElement {
    word: u64,
}

impl ProthElement {
    /// The element that `word` is congruent to.
    pub fn from_word(word: u64) -> (r: Self)
        ensures
            r.value() == word % PROTH_MODULUS,
    {
        ProthElement { word }
    }

    /// The canonical integer that this element stands for.
    pub fn to_word(&self) -> (r: u64)
        ensures
            r == self.value(),
    {
        self.word % PROTH_MODULUS
    }
}

impl SqrtTableHelpers for ProthElement {
    open spec fn field() -> PrimeFieldModel {
        proth_field()
    }

    closed spec fn value(self) -> int {
        (self.word % PROTH_MODULUS) as int
    }

    proof fn field_is_valid() {
        law_proth_field_is_valid();
    }

    proof fn value_is_canonical(self) {
    }

    fn one() -> (r: Self) {
        ProthElement { word: 1 }
    }

    fn root_of_unity() -> (r: Self) {
        ProthElement { word: PROTH_ROOT_OF_UNITY }
    }

    fn mul(&self, other: &Self) -> (r: Self) {
        let a: u64 = self.to_word();
        let b: u64 = other.to_word();
        proof {
            assert(a * b <= 0x2b_0000_0001 * 0x2b_0000_0001) by (nonlinear_arith)
                requires
                    a <= 0x2b_0000_0001,
                    b <= 0x2b_0000_0001,
            ;
        }
        let product: u128 = (a as u128) * (b as u128) % (PROTH_MODULUS as u128);
        ProthElement { word: product as u64 }
    }

    fn sub(&self, other: &Self) -> (r: Self) {
        let a: u64 = self.to_word();
        let b: u64 = other.to_word();
        proof {
            lemma_mod_add_multiples_vanish(a - b, PROTH_MODULUS as int);
        }
        ProthElement { word: a + (PROTH_MODULUS - b) }
    }

    fn square(&self) -> (r: Self) {
        self.mul(self)
    }

    fn is_zero(&self) -> (c: Choice) {
        choice::choice_from_byte(if self.to_word() == 0 {
            1
        } else {
            0
        })
    }

    fn pow_by_t_minus1_over2(&self) -> (r: Self) {
        // 21 = 2 * 2 * (2 * 2 * 1 + 1) + 1
        let x5 = self.square().square().mul(self);
        let x21 = x5.square().square().mul(self);
        proof {
            let p = PROTH_MODULUS as int;
            let x = self.value();
            modular::lemma_pow_mod_small(x, p);
            lemma_small_mod(x as nat, p as nat);
            modular::lemma_pow_mod_add(x, 1, 1, p);
            modular::lemma_pow_mod_add(x, 2, 2, p);
            modular::lemma_pow_mod_add(x, 4, 1, p);
            modular::lemma_pow_mod_add(x, 5, 5, p);
            modular::lemma_pow_mod_add(x, 10, 10, p);
            modular::lemma_pow_mod_add(x, 20, 1, p);
        }
        x21
    }

    fn get_lower_32(&self) -> (r: u32) {
        let x: u64 = self.to_word();
        proof {
            assert(x as u32 == x % 0x1_0000_0000) by (bit_vector);
        }
        x as u32
    }
}

} // verus!
