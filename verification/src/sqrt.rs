//! Square roots by discrete logarithms, with tables.

use crate::choice;
use crate::field;
use crate::field::PrimeFieldModel;
use crate::helpers::SqrtTableHelpers;
use crate::modular;
use core::marker::PhantomData;
use subtle::Choice;
use vstd::arithmetic::div_mod::*;
use vstd::arithmetic::mul::*;
use vstd::arithmetic::power::*;
use vstd::arithmetic::power2::*;
use vstd::bits::*;
use vstd::prelude::*;

verus! {

/// The hash of an element: its low 32 bits, salted and reduced.
pub open spec fn hash_of(hash_xor: u32, hash_mod: usize, value: int) -> int {
    (((value % 0x1_0000_0000) as u32) ^ hash_xor) as int % hash_mod as int
}

/// The `j`-th power of the generator of the subgroup of order 256.
pub open spec fn subgroup_element(f: PrimeFieldModel, j: nat) -> int {
    f.root_pow(0x100_0000 * j)
}

/// The hash tells the elements of the subgroup of order 256 apart.
pub open spec fn is_perfect_hash(f: PrimeFieldModel, hash_xor: u32, hash_mod: usize) -> bool {
    &&& hash_mod > 0
    &&& forall|i: nat, j: nat|
        i < j < 256 ==> hash_of(hash_xor, hash_mod, #[trigger] subgroup_element(f, i)) != hash_of(
            hash_xor,
            hash_mod,
            #[trigger] subgroup_element(f, j),
        )
}

/// A perfect hash tells the elements of the subgroup of order 256 apart, however they come about:
/// two elements whose 256th power is one have the same hash exactly if they are equal.
pub proof fn law_hash_is_perfect(
    f: PrimeFieldModel,
    hash_xor: u32,
    hash_mod: usize,
    x: int,
    y: int,
)
    requires
        f.valid(),
        is_perfect_hash(f, hash_xor, hash_mod),
        f.is_element(x),
        f.is_element(y),
        f.pow(x, 256) == 1,
        f.pow(y, 256) == 1,
    ensures
        hash_of(hash_xor, hash_mod, x) == hash_of(hash_xor, hash_mod, y) <==> x == y,
{
    let i = f.lemma_subgroup_of_order_256(x);
    let j = f.lemma_subgroup_of_order_256(y);
    assert(x == subgroup_element(f, i));
    assert(y == subgroup_element(f, j));
}

/// Every element hashes to an entry of the table of inverses.
pub proof fn law_hash_is_an_index(
    f: PrimeFieldModel,
    hash_xor: u32,
    hash_mod: usize,
    inv: Seq<u8>,
    z: int,
)
    requires
        is_perfect_hash(f, hash_xor, hash_mod),
        is_inverse_table(f, hash_xor, hash_mod, inv),
    ensures
        0 <= hash_of(hash_xor, hash_mod, z) < inv.len(),
{
    lemma_mod_bound(
        (((z % 0x1_0000_0000) as u32) ^ hash_xor) as int,
        hash_mod as int,
    );
}

/// Zero hashes to the salt itself, reduced; and a hash is a remainder.
pub proof fn law_hash_of_zero(hash_xor: u32, hash_mod: usize, value: int)
    requires
        hash_mod > 0,
    ensures
        hash_of(hash_xor, hash_mod, 0) == hash_xor as int % hash_mod as int,
        0 <= hash_of(hash_xor, hash_mod, value) < hash_mod,
{
    assert(0u32 ^ hash_xor == hash_xor) by (bit_vector);
    lemma_mod_bound(
        (((value % 0x1_0000_0000) as u32) ^ hash_xor) as int,
        hash_mod as int,
    );
}

/// The hash reads the low 32 bits alone.
pub proof fn law_hash_reads_low_bits(hash_xor: u32, hash_mod: usize, value: int, k: int)
    ensures
        hash_of(hash_xor, hash_mod, value + pow2(32) * k) == hash_of(hash_xor, hash_mod, value),
{
    lemma2_to64();
    lemma_mod_multiples_vanish(k, value, 0x1_0000_0000);
}

/// Salt can be moved between the hash and the number: salting with `a ^ c` is salting `value ^ c`
/// with `a`.
pub proof fn law_salt_moves(a: u32, c: u32, hash_mod: usize, value: u32)
    ensures
        hash_of(a ^ c, hash_mod, value as int) == hash_of(a, hash_mod, (value ^ c) as int),
{
    assert(value ^ (a ^ c) == (value ^ c) ^ a) by (bit_vector);
}

/// The salt and the number play the same part.
pub proof fn law_hash_is_symmetric(a: u32, b: u32, hash_mod: usize)
    ensures
        hash_of(a, hash_mod, b as int) == hash_of(b, hash_mod, a as int),
{
    assert(a ^ b == b ^ a) by (bit_vector);
}

/// A modulus of at least `2^32` loses nothing: no two salts give the same number the same hash, and
/// no salt gives numbers with different low bits the same hash.
pub proof fn law_wide_hash_is_injective(
    a: u32,
    b: u32,
    hash_mod: usize,
    x: int,
    y: int,
)
    requires
        hash_mod >= pow2(32),
    ensures
        hash_of(a, hash_mod, x) == hash_of(b, hash_mod, x) <==> a == b,
        hash_of(a, hash_mod, x) == hash_of(a, hash_mod, y) <==> (x - y) % 0x1_0000_0000 == 0,
{
    let lx = (x % 0x1_0000_0000) as u32;
    let ly = (y % 0x1_0000_0000) as u32;
    lemma2_to64();
    lemma_small_mod((lx ^ a) as nat, hash_mod as nat);
    lemma_small_mod((lx ^ b) as nat, hash_mod as nat);
    lemma_small_mod((ly ^ a) as nat, hash_mod as nat);
    assert(lx ^ a == lx ^ b <==> a == b) by (bit_vector);
    assert(lx ^ a == ly ^ a <==> lx == ly) by (bit_vector);
    lemma_mod_equivalence(x, y, 0x1_0000_0000);
}

/// Reducing a hash further is hashing with the lesser modulus.
pub proof fn law_hash_reduces(
    hash_xor: u32,
    hash_mod: usize,
    factor: nat,
    divisor: usize,
    value: int,
)
    requires
        divisor > 0,
        factor > 0,
        hash_mod == divisor * factor,
    ensures
        hash_of(hash_xor, hash_mod, value) % (divisor as int) == hash_of(hash_xor, divisor, value),
{
    lemma_mod_mod(
        (((value % 0x1_0000_0000) as u32) ^ hash_xor) as int,
        divisor as int,
        factor as int,
    );
}

/// The complement of a salt collides exactly where the salt does.
pub proof fn law_complement_collides_alike(hash_xor: u32, hash_mod: usize, x: int, y: int)
    requires
        hash_mod > 0,
    ensures
        hash_of(hash_xor, hash_mod, x) == hash_of(hash_xor, hash_mod, y) <==> hash_of(
            !hash_xor,
            hash_mod,
            x,
        ) == hash_of(!hash_xor, hash_mod, y),
{
    let lx = (x % 0x1_0000_0000) as u32;
    let ly = (y % 0x1_0000_0000) as u32;
    let m = hash_mod as int;
    let (sx, sy) = ((lx ^ hash_xor) as int, (ly ^ hash_xor) as int);
    assert(lx ^ !hash_xor == 0xffff_ffff - (lx ^ hash_xor)) by (bit_vector);
    assert(ly ^ !hash_xor == 0xffff_ffff - (ly ^ hash_xor)) by (bit_vector);
    lemma_mod_equivalence(sy, sx, m);
    lemma_mod_equivalence(0xffff_ffff - sx, 0xffff_ffff - sy, m);
    assert((0xffff_ffff - sx) - (0xffff_ffff - sy) == sy - sx);
}

/// A salt makes a perfect hash exactly if its complement does.
pub proof fn law_complement_is_as_perfect(f: PrimeFieldModel, hash_xor: u32, hash_mod: usize)
    ensures
        is_perfect_hash(f, hash_xor, hash_mod) <==> is_perfect_hash(f, !hash_xor, hash_mod),
{
    if hash_mod > 0 {
        assert forall|i: nat, j: nat| i < j < 256 implies (hash_of(
            hash_xor,
            hash_mod,
            #[trigger] subgroup_element(f, i),
        ) == hash_of(hash_xor, hash_mod, #[trigger] subgroup_element(f, j)) <==> hash_of(
            !hash_xor,
            hash_mod,
            subgroup_element(f, i),
        ) == hash_of(!hash_xor, hash_mod, subgroup_element(f, j))) by {
            law_complement_collides_alike(
                hash_xor,
                hash_mod,
                subgroup_element(f, i),
                subgroup_element(f, j),
            );
        }
    }
}

/// A hash is perfect exactly if the low 32 bits of the 256 powers of `root^(2^24)`, salted, leave
/// different remainders.
pub proof fn law_perfect_by_remainders(f: PrimeFieldModel, hash_xor: u32, hash_mod: usize)
    ensures
        is_perfect_hash(f, hash_xor, hash_mod) <==> {
            &&& hash_mod > 0
            &&& forall|i: nat, j: nat|
                i < j < 256 ==> (((#[trigger] subgroup_element(f, i) % 0x1_0000_0000) as u32)
                    ^ hash_xor) as int % (hash_mod as int) != (((#[trigger] subgroup_element(f, j)
                    % 0x1_0000_0000) as u32) ^ hash_xor) as int % (hash_mod as int)
        },
{
}

/// A hash that gives different elements of the subgroup of order 256 different values is perfect.
pub proof fn law_injective_hash_is_perfect(f: PrimeFieldModel, hash_xor: u32, hash_mod: usize)
    requires
        f.valid(),
        hash_mod > 0,
        forall|x: int, y: int|
            f.is_element(x) && f.is_element(y) && f.pow(x, 256) == 1 && f.pow(y, 256) == 1 && x != y
                ==> #[trigger] hash_of(hash_xor, hash_mod, x) != #[trigger] hash_of(
                hash_xor,
                hash_mod,
                y,
            ),
    ensures
        is_perfect_hash(f, hash_xor, hash_mod),
{
    assert forall|i: nat, j: nat| i < j < 256 implies hash_of(
        hash_xor,
        hash_mod,
        #[trigger] subgroup_element(f, i),
    ) != hash_of(hash_xor, hash_mod, #[trigger] subgroup_element(f, j)) by {
        law_subgroup(f, i, j);
        law_subgroup(f, j, i);
    }
}

/// The subgroup of order 256: its elements are the powers of `root^(2^24)`, multiply by adding
/// exponents modulo 256, have a 256th power of one, and differ where the exponents do.
pub proof fn law_subgroup(f: PrimeFieldModel, i: nat, j: nat)
    requires
        f.valid(),
        i < 256,
        j < 256,
    ensures
        subgroup_element(f, 0) == 1,
        subgroup_element(f, 1) == f.pow(f.root, pow2(24)),
        f.is_element(subgroup_element(f, i)),
        f.pow(subgroup_element(f, i), 256) == 1,
        f.mul(subgroup_element(f, i), subgroup_element(f, j)) == subgroup_element(
            f,
            (i + j) % 256,
        ),
        i != j ==> subgroup_element(f, i) != subgroup_element(f, j),
{
    lemma2_to64();
    modular::lemma_pow_mod_small(f.root, f.p);
    lemma_mod_bound(pow(f.root, 0x100_0000 * i), f.p);
    modular::lemma_pow_mod_mul(f.root, 0x100_0000 * i, 256, f.p);
    modular::lemma_pow_mod_mul(f.root, field::two_power_order(), i, f.p);
    modular::lemma_pow_mod_of_one(i, f.p);
    assert(0x100_0000 * i * 256 == field::two_power_order() * i);
    f.lemma_root_pow_add(0x100_0000 * i, 0x100_0000 * j);
    if i + j >= 256 {
        let k = (i + j - 256) as nat;
        f.lemma_root_pow_add(0x100_0000 * k, field::two_power_order());
        lemma_mod_bound(pow(f.root, 0x100_0000 * k), f.p);
        lemma_mul_basics(f.root_pow(0x100_0000 * k));
        lemma_small_mod(f.root_pow(0x100_0000 * k) as nat, f.p as nat);
        assert(0x100_0000 * k + field::two_power_order() == 0x100_0000 * i + 0x100_0000 * j);
    }
    if subgroup_element(f, i) == subgroup_element(f, j) {
        let x = subgroup_element(f, i);
        let a = (0x100_0000 * ((256 - i) % 256)) as nat;
        let b = (0x100_0000 * ((256 - j) % 256)) as nat;
        f.lemma_root_pow_add(0x100_0000 * i, a);
        f.lemma_root_pow_add(0x100_0000 * j, b);
        assert(f.is_log_of_inverse(x, a));
        assert(f.is_log_of_inverse(x, b));
        f.law_log_is_unique(x, a, b);
    }
}

/// A table of powers starts with one, goes on with `root^step`, and multiplies by adding indices.
pub proof fn law_power_table<F: SqrtTableHelpers>(
    table: Seq<F>,
    step: nat,
    len: nat,
    i: int,
    j: int,
)
    requires
        F::field().valid(),
        is_power_table(table, step, len),
        len > 1,
        0 <= i,
        0 <= j,
        i + j < len,
    ensures
        table.len() == len,
        table[0].value() == 1,
        table[1].value() == F::field().pow(F::field().root, step),
        table[i + j].value() == F::field().mul(table[i].value(), table[j].value()),
{
    let f = F::field();
    modular::lemma_pow_mod_small(f.root, f.p);
    assert(step * (0 as nat) == 0) by (nonlinear_arith);
    assert(step * (1 as nat) == step) by (nonlinear_arith);
    f.lemma_root_pow_add(step * i as nat, step * j as nat);
    lemma_mul_is_distributive_add(step as int, i, j);
    assert((i + j) as nat == i as nat + j as nat);
}

/// The four tables of powers follow on from each other: the first goes up by the root of unity, and
/// each goes up by what the one before it would have held next, up to the element minus one, the
/// last of the fourth. The table of inverses has as many entries as there are hashes.
pub proof fn law_tables_follow_on<F: SqrtTableHelpers>(
    tables: SqrtTables<F>,
    hash_xor: u32,
    hash_mod: usize,
)
    requires
        F::field().valid(),
        tables.built_from(hash_xor, hash_mod),
    ensures
        tables.hash_xor() == hash_xor,
        tables.hash_mod() == hash_mod,
        tables.inverses().len() == hash_mod,
        tables.powers(0).len() == 256,
        tables.powers(1).len() == 256,
        tables.powers(2).len() == 256,
        tables.powers(3).len() == 129,
        tables.powers(0)[1].value() == F::field().root,
        tables.powers(1)[1].value() == F::field().mul(
            tables.powers(0)[255].value(),
            tables.powers(0)[1].value(),
        ),
        tables.powers(2)[1].value() == F::field().mul(
            tables.powers(1)[255].value(),
            tables.powers(1)[1].value(),
        ),
        tables.powers(3)[1].value() == F::field().mul(
            tables.powers(2)[255].value(),
            tables.powers(2)[1].value(),
        ),
        tables.powers(3)[128].value() == F::field().p - 1,
{
    let f = F::field();
    modular::lemma_pow_mod_small(f.root, f.p);
    lemma_small_mod(f.root as nat, f.p as nat);
    f.lemma_root_pow_add(255, 1);
    f.lemma_root_pow_add(0xff00, 0x100);
    f.lemma_root_pow_add(0xff_0000, 0x1_0000);
    f.lemma_half_order();
    assert(tables.powers(0)[255].value() == f.root_pow(255));
    assert(tables.powers(1)[255].value() == f.root_pow(0xff00));
    assert(tables.powers(2)[255].value() == f.root_pow(0xff_0000));
    assert(tables.powers(3)[128].value() == f.root_pow(0x8000_0000));
}

/// Each of the tables of powers multiplies by adding indices.
pub proof fn law_tables_multiply<F: SqrtTableHelpers>(
    tables: SqrtTables<F>,
    hash_xor: u32,
    hash_mod: usize,
    t: int,
    i: int,
    j: int,
)
    requires
        F::field().valid(),
        tables.built_from(hash_xor, hash_mod),
        0 <= t < 4,
        0 <= i,
        0 <= j,
        i + j < tables.powers(t).len(),
    ensures
        tables.powers(t)[0].value() == 1,
        tables.powers(t)[i + j].value() == F::field().mul(
            tables.powers(t)[i].value(),
            tables.powers(t)[j].value(),
        ),
{
    if t == 0 {
        law_power_table(tables.powers(t), 1, 256, i, j);
    } else if t == 1 {
        law_power_table(tables.powers(t), 0x100, 256, i, j);
    } else if t == 2 {
        law_power_table(tables.powers(t), 0x1_0000, 256, i, j);
    } else {
        law_power_table(tables.powers(t), 0x100_0000, 129, i, j);
    }
}

/// The table of inverses inverts: the entry at the hash of an element whose 256th power is one is
/// an exponent of `root^(2^24)` that gives the inverse of that element.
pub proof fn law_table_inverts(
    f: PrimeFieldModel,
    hash_xor: u32,
    hash_mod: usize,
    inv: Seq<u8>,
    x: int,
)
    requires
        f.valid(),
        is_inverse_table(f, hash_xor, hash_mod, inv),
        f.is_element(x),
        f.pow(x, 256) == 1,
    ensures
        f.mul(
            x,
            f.pow(f.pow(f.root, pow2(24)), inv[hash_of(hash_xor, hash_mod, x)] as nat),
        ) == 1,
{
    let j = f.lemma_subgroup_of_order_256(x);
    assert(x == subgroup_element(f, j));
    let entry = inv[hash_of(hash_xor, hash_mod, subgroup_element(f, j))] as nat;
    assert(entry == (256 - j) % 256);
    lemma2_to64();
    modular::lemma_pow_mod_mul(f.root, 0x100_0000, entry, f.p);
    law_entries_invert(f, j, entry);
}

/// Where no element of the subgroup of order 256 hashes to, the table of inverses holds one.
pub proof fn law_table_is_one_elsewhere(
    f: PrimeFieldModel,
    hash_xor: u32,
    hash_mod: usize,
    inv: Seq<u8>,
    i: int,
)
    requires
        f.valid(),
        is_inverse_table(f, hash_xor, hash_mod, inv),
        0 <= i < hash_mod,
        forall|x: int|
            f.is_element(x) && f.pow(x, 256) == 1 ==> i != #[trigger] hash_of(
                hash_xor,
                hash_mod,
                x,
            ),
    ensures
        inv[i] == 1,
{
    assert forall|j: nat| j < 256 implies i != hash_of(
        hash_xor,
        hash_mod,
        #[trigger] subgroup_element(f, j),
    ) by {
        law_subgroup(f, j, j);
    }
}

/// The salt loses nothing: numbers that differ still differ once salted.
pub proof fn law_salt_is_injective(x: u32, y: u32, hash_xor: u32)
    requires
        x != y,
    ensures
        x ^ hash_xor != y ^ hash_xor,
{
    assert(x ^ hash_xor != y ^ hash_xor) by (bit_vector)
        requires
            x != y,
    ;
}

/// The entry for an element of the subgroup of order 256 is an exponent of the generator that gives
/// the inverse of that element.
pub proof fn law_entries_invert(f: PrimeFieldModel, j: nat, entry: nat)
    requires
        f.valid(),
        j < 256,
        is_inverse_entry(f, subgroup_element(f, j), entry as int),
    ensures
        f.mul(subgroup_element(f, j), subgroup_element(f, entry)) == 1,
{
    assert(entry == (256 - j) % 256);
    f.lemma_root_pow_add(0x100_0000 * j, 0x100_0000 * entry);
    modular::lemma_pow_mod_small(f.root, f.p);
}

/// The parameters of the hash determine the table of inverses.
pub proof fn law_inverse_table_is_unique(
    f: PrimeFieldModel,
    hash_xor: u32,
    hash_mod: usize,
    x: Seq<u8>,
    y: Seq<u8>,
)
    requires
        is_inverse_table(f, hash_xor, hash_mod, x),
        is_inverse_table(f, hash_xor, hash_mod, y),
    ensures
        x == y,
{
    assert forall|i: int| 0 <= i < hash_mod implies #[trigger] x[i] == y[i] by {
        if exists|j: nat|
            j < 256 && i == hash_of(hash_xor, hash_mod, #[trigger] subgroup_element(f, j)) {
            let j = choose|j: nat|
                j < 256 && i == hash_of(hash_xor, hash_mod, #[trigger] subgroup_element(f, j));
            assert(x[hash_of(hash_xor, hash_mod, subgroup_element(f, j))] == (256 - j) % 256);
            assert(y[hash_of(hash_xor, hash_mod, subgroup_element(f, j))] == (256 - j) % 256);
        }
    }
    assert(x =~= y);
}

/// Parameters for a perfect hash function used in square root computation.
#[derive(Debug)]
struct SqrtHasher<F: SqrtTableHelpers> {
    hash_xor: u32,
    hash_mod: usize,
    marker: PhantomData<F>,
}

impl<F: SqrtTableHelpers> SqrtHasher<F> {
    /// Returns a perfect hash of x for use with SqrtTables::inv.
    fn hash(&self, x: &F) -> (r: usize)
        requires
            self.hash_mod > 0,
        ensures
            r == hash_of(self.hash_xor, self.hash_mod, x.value()),
            r < self.hash_mod,
    {
        // This is just the simplest constant-time perfect hash construction that could
        // possibly work. The 32 low-order bits have to be unique within the subgroup of order
        // 256; then the xor acts as "salt" to injectively randomize the output when taken modulo
        // `hash_mod`. Since the table is small, we do not need anything more complicated.
        ((x.get_lower_32() ^ self.hash_xor) as usize) % self.hash_mod
    }
}

/// The powers of `base`, from the zeroth to the 255th.
fn power_table<F: SqrtTableHelpers>(base: &F) -> (table: Vec<F>)
    ensures
        table.len() == 256,
        forall|k: int|
            0 <= k < 256 ==> (#[trigger] table[k]).value() == F::field().pow(
                base.value(),
                k as nat,
            ),
{
    let mut table: Vec<F> = Vec::new();
    let mut acc = F::one();
    let mut k: usize = 0;
    proof {
        F::field_is_valid();
        modular::lemma_pow_mod_small(base.value(), F::field().p);
        base.value_is_canonical();
        lemma_small_mod(base.value() as nat, F::field().p as nat);
    }
    while k < 256
        invariant
            k <= 256,
            table.len() == k,
            F::field().valid(),
            F::field().pow(base.value(), 1) == base.value(),
            acc.value() == F::field().pow(base.value(), k as nat),
            forall|i: int|
                0 <= i < k ==> (#[trigger] table[i]).value() == F::field().pow(
                    base.value(),
                    i as nat,
                ),
        decreases 256 - k,
    {
        table.push(acc);
        acc = acc.mul(base);
        proof {
            modular::lemma_pow_mod_add(base.value(), k as nat, 1, F::field().p);
        }
        k = k + 1;
    }
    table
}

/// Tables used for square root computation.
#[derive(Debug)]
pub struct SqrtTables<F: SqrtTableHelpers> {
    hasher: SqrtHasher<F>,
    inv: Vec<u8>,
    g0: Vec<F>,
    g1: Vec<F>,
    g2: Vec<F>,
    g3: Vec<F>,
}

/// `table` holds the values of the first `len` powers of `root^step`.
pub open spec fn is_power_table<F: SqrtTableHelpers>(table: Seq<F>, step: nat, len: nat) -> bool {
    &&& table.len() == len
    &&& forall|k: int|
        0 <= k < len ==> (#[trigger] table[k]).value() == F::field().root_pow(step * k as nat)
}

/// `entry` is the logarithm of the inverse of `x`, if `x` is in the subgroup of order 256.
pub open spec fn is_inverse_entry(f: PrimeFieldModel, x: int, entry: int) -> bool {
    forall|j: nat| j < 256 && x == #[trigger] subgroup_element(f, j) ==> entry == (256 - j) % 256
}

/// `inv` holds, at the hash of each element of the subgroup of order 256, the logarithm of the
/// inverse of that element, and one everywhere else.
pub open spec fn is_inverse_table(
    f: PrimeFieldModel,
    hash_xor: u32,
    hash_mod: usize,
    inv: Seq<u8>,
) -> bool {
    &&& inv.len() == hash_mod
    &&& forall|j: nat|
        j < 256 ==> inv[hash_of(hash_xor, hash_mod, #[trigger] subgroup_element(f, j))] == (256
            - j) % 256
    &&& forall|i: int|
        0 <= i < hash_mod && (forall|j: nat|
            j < 256 ==> i != hash_of(hash_xor, hash_mod, #[trigger] subgroup_element(f, j)))
            ==> #[trigger] inv[i] == 1
}

impl<F: SqrtTableHelpers> SqrtTables<F> {
    /// The salt of the hash.
    pub closed spec fn hash_xor(self) -> u32 {
        self.hasher.hash_xor
    }

    /// The modulus of the hash.
    pub closed spec fn hash_mod(self) -> usize {
        self.hasher.hash_mod
    }

    /// The table of inverses, by hash.
    pub closed spec fn inverses(self) -> Seq<u8> {
        self.inv@
    }

    /// The tables of powers of the root of unity, the `i`-th of which goes up in steps of `256^i`.
    pub closed spec fn powers(self, i: int) -> Seq<F> {
        if i == 0 {
            self.g0@
        } else if i == 1 {
            self.g1@
        } else if i == 2 {
            self.g2@
        } else {
            self.g3@
        }
    }

    /// These are the tables that belong to the parameters of a perfect hash.
    pub open spec fn built_from(self, hash_xor: u32, hash_mod: usize) -> bool {
        &&& self.hash_xor() == hash_xor
        &&& self.hash_mod() == hash_mod
        &&& is_inverse_table(F::field(), hash_xor, hash_mod, self.inverses())
        &&& is_power_table(self.powers(0), 1, 256)
        &&& is_power_table(self.powers(1), 0x100, 256)
        &&& is_power_table(self.powers(2), 0x1_0000, 256)
        &&& is_power_table(self.powers(3), 0x100_0000, 129)
    }

    #[verifier::type_invariant]
    spec fn well_formed(self) -> bool {
        &&& is_perfect_hash(F::field(), self.hash_xor(), self.hash_mod())
        &&& self.built_from(self.hash_xor(), self.hash_mod())
    }

    /// Build tables given parameters for the perfect hash.
    pub fn new(hash_xor: u32, hash_mod: usize) -> (tables: Self)
        requires
            hash_mod <= isize::MAX,
            is_perfect_hash(F::field(), hash_xor, hash_mod),
        ensures
            tables.built_from(hash_xor, hash_mod),
    {
        Self::try_new(hash_xor, hash_mod).unwrap()
    }

    /// Build tables given parameters for the hash, if it is a perfect one.
    pub fn try_new(hash_xor: u32, hash_mod: usize) -> (tables: Option<Self>)
        ensures
            tables is Some <==> hash_mod <= isize::MAX && is_perfect_hash(
                F::field(),
                hash_xor,
                hash_mod,
            ),
            tables matches Some(tables) ==> tables.built_from(hash_xor, hash_mod),
    {
        if hash_mod == 0 || hash_mod > isize::MAX as usize {
            return None;
        }
        let hasher: SqrtHasher<F> = SqrtHasher { hash_xor, hash_mod, marker: PhantomData };
        let ghost f = F::field();
        proof {
            F::field_is_valid();
            modular::lemma_pow_mod_small(f.root, f.p);
            lemma_small_mod(f.root as nat, f.p as nat);
        }

        // gi == ROOT_OF_UNITY^(256^i)
        let gi = F::root_of_unity();
        let gtab_0 = power_table(&gi);
        let gi = next_base(&gtab_0, &gi);
        let gtab_1 = power_table(&gi);
        let gi = next_base(&gtab_1, &gi);
        let gtab_2 = power_table(&gi);
        let gi = next_base(&gtab_2, &gi);
        let mut gtab_3 = power_table(&gi);
        proof {
            modular::lemma_pow_mod_mul(f.root, 1, 256, f.p);
            modular::lemma_pow_mod_mul(f.root, 0x100, 256, f.p);
            modular::lemma_pow_mod_mul(f.root, 0x1_0000, 256, f.p);
            lemma_power_table(gtab_0@, 1);
            lemma_power_table(gtab_1@, 0x100);
            lemma_power_table(gtab_2@, 0x1_0000);
            lemma_power_table(gtab_3@, 0x100_0000);
        }

        // Now invert gtab[3].
        let mut inv: Vec<u8> = vec![1u8; hash_mod];
        let mut j: usize = 0;
        while j < 256
            invariant
                j <= 256,
                0 < hash_mod,
                hasher.hash_xor == hash_xor,
                hasher.hash_mod == hash_mod,
                f == F::field(),
                inv.len() == hash_mod,
                is_power_table(gtab_3@, 0x100_0000, 256),
                forall|i: nat, k: nat|
                    i < k < j ==> hash_of(hash_xor, hash_mod, #[trigger] subgroup_element(f, i))
                        != hash_of(hash_xor, hash_mod, #[trigger] subgroup_element(f, k)),
                forall|i: nat|
                    i < j ==> inv[hash_of(hash_xor, hash_mod, #[trigger] subgroup_element(f, i))]
                        == (256 - i) % 256,
                forall|h: int|
                    0 <= h < hash_mod && (forall|i: nat|
                        i < j ==> h != hash_of(
                            hash_xor,
                            hash_mod,
                            #[trigger] subgroup_element(f, i),
                        )) ==> #[trigger] inv[h] == 1,
            decreases 256 - j,
        {
            let hash = hasher.hash(&gtab_3[j]);
            assert(gtab_3[j as int].value() == subgroup_element(f, j as nat));
            // 1 is the last value to be assigned, so this ensures there are no collisions.
            if inv[hash] != 1 {
                return None;
            }
            proof {
                let d: usize = (256 - j) as usize;
                assert(d & 0xff == d % 256) by (bit_vector);
            }
            inv.set(hash, ((256 - j) & 0xFF) as u8);
            j = j + 1;
        }

        gtab_3.truncate(129);

        Some(SqrtTables { hasher, inv, g0: gtab_0, g1: gtab_1, g2: gtab_2, g3: gtab_3 })
    }

    /// Computes:
    ///
    /// * (true,  sqrt(num/div)),                 if num and div are nonzero and num/div is a
    ///   square in the field;
    /// * (true,  0),                             if num is zero;
    /// * (false, 0),                             if num is nonzero and div is zero;
    /// * (false, sqrt(ROOT_OF_UNITY * num/div)), if num and div are nonzero and num/div is a
    ///   nonsquare in the field;
    ///
    /// where ROOT_OF_UNITY is a generator of the order 2^n subgroup (and therefore a nonsquare).
    ///
    /// Callers should not rely on which of the two roots it is.
    pub fn sqrt_ratio(&self, num: &F, div: &F) -> (r: (Choice, F))
        ensures
            choice::stands_for(r.0, F::field().is_square_ratio(num.value(), div.value())),
            F::field().is_root_of_ratio(num.value(), div.value(), r.1.value()),
            r.1.value() == F::field().table_root_of_ratio(num.value(), div.value()),
    {
        // Based on:
        // * [Sarkar2020](https://eprint.iacr.org/2020/1407)
        // * [BDLSY2012](https://cr.yp.to/papers.html#ed25519)
        //
        // We need to calculate uv and v, where v = u^((T-1)/2), u = num/div, and p-1 = T * 2^S.
        // We can rewrite as follows:
        //
        //      v = (num/div)^((T-1)/2)
        //        = num^((T-1)/2) * div^(p-1 - (T-1)/2)    [Fermat's Little Theorem]
        //        =       "       * div^(T * 2^S - (T-1)/2)
        //        =       "       * div^((2^(S+1) - 1)*(T-1)/2 + 2^S)
        //        = (num * div^(2^(S+1) - 1))^((T-1)/2) * div^(2^S)
        //
        // Let  w = (num * div^(2^(S+1) - 1))^((T-1)/2) * div^(2^S - 1).
        // Then v = w * div, and uv = num * v / div = num * w.
        //
        // We calculate:
        //
        //      s = div^(2^S - 1) using an addition chain
        //      t = div^(2^(S+1) - 1) = s^2 * div
        //      w = (num * t)^((T-1)/2) * s using another addition chain
        //
        // then u and uv as above.
        // The overall cost of this part is similar to a single full-width exponentiation,
        // regardless of S.
        let ghost f = F::field();
        proof {
            F::field_is_valid();
            num.value_is_canonical();
            div.value_is_canonical();
        }

        // s = div^(2^S - 1)
        let s = pow_by_all_ones(div);

        // t == div^(2^(S+1) - 1)
        let t = s.square().mul(div);
        proof {
            let d = div.value();
            modular::lemma_pow_mod_add(d, 0xffff_ffff, 0xffff_ffff, f.p);
            modular::lemma_pow_mod_small(d, f.p);
            lemma_small_mod(d as nat, f.p as nat);
            modular::lemma_pow_mod_add(d, 0x1_ffff_fffe, 1, f.p);
        }

        // w = (num * t)^((T-1)/2) * s
        let w = t.mul(num).pow_by_t_minus1_over2().mul(&s);

        // v == u^((T-1)/2)
        let v = w.mul(div);

        // uv = u * v
        let uv = w.mul(num);

        proof {
            if div.value() == 0 {
                let b = f.pow(f.mul(t.value(), num.value()), ((f.t - 1) / 2) as nat);
                f.lemma_ratio_to_zero(b);
                lemma_mul_basics(num.value());
                lemma_small_mod(0, f.p as nat);
            } else {
                f.lemma_quotient(num.value(), div.value());
                f.lemma_ratio_terms(num.value(), div.value());
                f.lemma_root_terms(f.quotient(num.value(), div.value()));
                f.lemma_table_root_of_zero();
            }
        }

        let res = self.sqrt_common(&uv, &v);

        let sqdiv = res.square().mul(div);
        let is_square = sqdiv.sub(num).is_zero();
        let nonsquare = F::root_of_unity().mul(num);
        let is_nonsquare = sqdiv.sub(&nonsquare).is_zero();
        let num_is_zero = num.is_zero();
        let div_is_zero = div.is_zero();
        proof {
            f.law_sqrt_ratio(num.value(), div.value());
            sqdiv.value_is_canonical();
            nonsquare.value_is_canonical();
            f.lemma_difference_is_zero(sqdiv.value(), num.value());
            f.lemma_difference_is_zero(sqdiv.value(), nonsquare.value());
            choice::lemma_flags(
                choice::choice_byte(num_is_zero),
                choice::choice_byte(div_is_zero),
            );
        }
        let consistent = choice::zero_or_one_of_two(
            choice::choice_or(num_is_zero, div_is_zero),
            is_square,
            is_nonsquare,
        );
        assert(consistent);

        (is_square, res)
    }

    /// Same as sqrt_ratio(u, one()) but more efficient.
    pub fn sqrt_alt(&self, u: &F) -> (r: (Choice, F))
        ensures
            choice::stands_for(r.0, F::field().is_square(u.value())),
            F::field().is_root(u.value(), r.1.value()),
            r.1.value() == F::field().table_root(u.value()),
    {
        let v = u.pow_by_t_minus1_over2();
        let uv = u.mul(&v);
        let ghost f = F::field();
        proof {
            F::field_is_valid();
            u.value_is_canonical();
            f.lemma_root_terms(u.value());
            f.lemma_table_root_of_zero();
        }

        let res = self.sqrt_common(&uv, &v);

        let sq = res.square();
        let is_square = sq.sub(u).is_zero();
        let nonsquare = F::root_of_unity().mul(u);
        let is_nonsquare = sq.sub(&nonsquare).is_zero();
        proof {
            f.law_sqrt(u.value());
            sq.value_is_canonical();
            nonsquare.value_is_canonical();
            f.lemma_difference_is_zero(sq.value(), u.value());
            f.lemma_difference_is_zero(sq.value(), nonsquare.value());
        }
        let consistent = choice::zero_or_one_of_two(u.is_zero(), is_square, is_nonsquare);
        assert(consistent);

        (is_square, res)
    }

    /// The entry of the table of inverses for `x`.
    fn invert(&self, x: &F) -> (r: usize)
        ensures
            r < 256,
            is_inverse_entry(F::field(), x.value(), r as int),
    {
        proof {
            use_type_invariant(self);
        }
        self.inv[self.hasher.hash(x)] as usize
    }

    /// Finds the logarithm of the inverse of `x3`, if that is in the subgroup of order `2^32`, from
    /// its lowest byte up.
    fn find_log(&self, x3: &F) -> (t_: usize)
        ensures
            t_ <= u32::MAX,
            F::field().pow(x3.value(), field::two_power_order()) == 1 ==> t_
                == F::field().log_of_inverse(x3.value()),
    {
        let ghost f = F::field();
        let ghost x = x3.value();
        let ghost n = f.log_of_inverse(x);
        let ghost in_subgroup = f.pow(x, field::two_power_order()) == 1;
        proof {
            use_type_invariant(self);
            F::field_is_valid();
            x3.value_is_canonical();
            if in_subgroup {
                f.lemma_log(x);
            }
        }
        let x2 = square_times(x3, 8);
        let x1 = square_times(&x2, 8);
        let x0 = square_times(&x1, 8);
        proof {
            lemma_squarings(f, x);
        }

        // i = 0, 1
        let mut t_: usize = self.invert(&x0);  // = t >> 16
        // 1 == x0 * ROOT_OF_UNITY^(t_ << 24)
        proof {
            if in_subgroup {
                lemma_first_entry(f, x, n, t_ as int);
            }
        }
        let alpha = x1.mul(&self.g2[t_]);

        // i = 2
        let digit: usize = self.invert(&alpha);
        proof {
            lemma_place(digit);
            if in_subgroup {
                lemma_entry(f, x, n, 0x1_0000, t_ as nat, n / 0x100, digit as int);
            }
        }
        t_ = t_ + (digit << 8);  // = t >> 8
        // 1 == x1 * ROOT_OF_UNITY^(t_ << 16)
        assert(t_ < 0x1_0000);
        assert(in_subgroup ==> t_ == n % 0x1_0000);
        proof {
            lemma_digits(t_);
        }
        let alpha = x2.mul(&self.g1[t_ & 0xFF]).mul(&self.g2[t_ >> 8]);

        // i = 3
        let digit: usize = self.invert(&alpha);
        proof {
            lemma_place(digit);
            lemma_two_bytes(f, x2.value(), t_ as nat);
            if in_subgroup {
                lemma_entry(f, x, n, 0x100, t_ as nat, n / 0x1_0000, digit as int);
            }
        }
        t_ = t_ + (digit << 16);  // = t
        // 1 == x2 * ROOT_OF_UNITY^(t_ << 8)
        assert(t_ < 0x100_0000);
        assert(in_subgroup ==> t_ == n % 0x100_0000);
        proof {
            lemma_digits(t_);
        }
        let alpha = x3.mul(&self.g0[t_ & 0xFF]).mul(&self.g1[(t_ >> 8) & 0xFF]).mul(
            &self.g2[t_ >> 16],
        );

        let digit: usize = self.invert(&alpha);
        proof {
            lemma_place(digit);
            lemma_three_bytes(f, x, t_ as nat);
            if in_subgroup {
                lemma_last_entry(f, x, n, t_ as nat, digit as int);
            }
        }
        t_ = t_ + (digit << 24);  // = t << 1
        // 1 == x3 * ROOT_OF_UNITY^t_
        t_
    }

    /// Common part of sqrt_ratio and sqrt_alt: return their result given v = u^((T-1)/2) and
    /// uv = u * v.
    fn sqrt_common(&self, uv: &F, v: &F) -> (r: F)
        ensures
            uv.value() == 0 ==> r.value() == 0,
            exists|k: nat|
                k <= 0x8000_0000 && r.value() == F::field().mul(
                    uv.value(),
                    #[trigger] F::field().root_pow(k),
                ),
            ({
                let f = F::field();
                let x = f.mul(uv.value(), v.value());
                f.pow(x, field::two_power_order()) == 1 ==> r.value() == f.mul(
                    uv.value(),
                    f.root_pow((f.log_of_inverse(x) + 1) / 2),
                )
            }),
    {
        let ghost f = F::field();
        proof {
            use_type_invariant(self);
            F::field_is_valid();
        }
        let x3 = uv.mul(v);
        let whole: usize = self.find_log(&x3);
        let t_: usize = (((whole as u64) + 1) >> 1) as usize;
        proof {
            let next = (whole + 1) as u64;
            assert(next >> 1 == next / 2) by (bit_vector);
            assert(t_ == (whole + 1) / 2);
            lemma_digits(t_);
        }
        assert(t_ <= 0x8000_0000);

        let r = uv.mul(&self.g0[t_ & 0xFF]).mul(&self.g1[(t_ >> 8) & 0xFF]).mul(
            &self.g2[(t_ >> 16) & 0xFF],
        ).mul(&self.g3[t_ >> 24]);
        proof {
            let u = uv.value();
            let (b0, b1, b2, b3) = (
                t_ as nat % 0x100,
                t_ as nat / 0x100 % 0x100,
                t_ as nat / 0x1_0000 % 0x100,
                t_ as nat / 0x100_0000,
            );
            f.lemma_mul_root_pows(u, b0, 0x100 * b1);
            f.lemma_mul_root_pows(u, b0 + 0x100 * b1, 0x1_0000 * b2);
            f.lemma_mul_root_pows(u, b0 + 0x100 * b1 + 0x1_0000 * b2, 0x100_0000 * b3);
            assert(b0 + 0x100 * b1 + 0x1_0000 * b2 + 0x100_0000 * b3 == t_ as nat);
            lemma_mul_basics(f.root_pow(t_ as nat));
            lemma_small_mod(0, f.p as nat);
        }
        r
    }
}

/// Squares `x` as many times as `i` says.
fn square_times<F: SqrtTableHelpers>(x: &F, i: u32) -> (r: F)
    ensures
        r.value() == F::field().pow(x.value(), pow2(i as nat)),
{
    let mut r = *x;
    let mut k: u32 = 0;
    proof {
        let f = F::field();
        F::field_is_valid();
        x.value_is_canonical();
        lemma2_to64();
        modular::lemma_pow_mod_small(x.value(), f.p);
        lemma_small_mod(x.value() as nat, f.p as nat);
    }
    while k < i
        invariant
            k <= i,
            F::field().valid(),
            r.value() == F::field().pow(x.value(), pow2(k as nat)),
        decreases i - k,
    {
        r = r.square();
        proof {
            let e = pow2(k as nat);
            modular::lemma_pow_mod_add(x.value(), e, e, F::field().p);
            lemma_pow2_unfold(k as nat + 1);
        }
        k = k + 1;
    }
    r
}

/// Raises `x` to the power `2^32 - 1`.
fn pow_by_all_ones<F: SqrtTableHelpers>(x: &F) -> (r: F)
    ensures
        r.value() == F::field().pow(x.value(), 0xffff_ffff),
{
    let mut d = *x;
    let mut i: u32 = 0;
    proof {
        let f = F::field();
        F::field_is_valid();
        x.value_is_canonical();
        lemma2_to64();
        modular::lemma_pow_mod_small(x.value(), f.p);
        lemma_small_mod(x.value() as nat, f.p as nat);
    }
    while i < 5
        invariant
            i <= 5,
            F::field().valid(),
            d.value() == F::field().pow(x.value(), (pow2(pow2(i as nat)) - 1) as nat),
        decreases 5 - i,
    {
        let bits: u32 = 1 << i;
        d = square_times(&d, bits).mul(&d);
        proof {
            let f = F::field();
            let b = pow2(i as nat);
            let e = (pow2(b) - 1) as nat;
            lemma2_to64();
            lemma_u32_shl_is_mul(1, i);
            lemma_pow2_pos(b);
            lemma_pow2_unfold(i as nat + 1);
            lemma_pow2_adds(b, b);
            modular::lemma_pow_mod_mul(x.value(), e, pow2(b), f.p);
            modular::lemma_pow_mod_add(x.value(), e * pow2(b), e, f.p);
            assert(e * pow2(b) + e == pow2(b) * pow2(b) - 1) by (nonlinear_arith)
                requires
                    e == pow2(b) - 1,
            ;
        }
        i = i + 1;
    }
    proof {
        lemma2_to64();
    }
    d
}

/// Squaring eight times, again and again.
proof fn lemma_squarings(f: PrimeFieldModel, x: int)
    requires
        f.valid(),
    ensures
        pow2(8) == 0x100,
        f.pow(f.pow(x, 0x100), 0x100) == f.pow(x, 0x1_0000),
        f.pow(f.pow(x, 0x1_0000), 0x100) == f.pow(x, 0x100_0000),
{
    lemma2_to64();
    modular::lemma_pow_mod_mul(x, 0x100, 0x100, f.p);
    modular::lemma_pow_mod_mul(x, 0x1_0000, 0x100, f.p);
}

/// The entry for `x^m * root^(m * low)` is the digit of the logarithm of the inverse of `x` that
/// comes after `low`.
proof fn lemma_entry(
    f: PrimeFieldModel,
    x: int,
    n: nat,
    m: nat,
    low: nat,
    rest: nat,
    entry: int,
)
    requires
        f.valid(),
        f.is_element(x),
        f.is_log_of_inverse(x, n),
        m * n == m * low + 0x100_0000 * rest,
        is_inverse_entry(f, f.mul(f.pow(x, m), f.root_pow(m * low)), entry),
    ensures
        entry == rest % 256,
{
    let j = ((256 - rest % 256) % 256) as nat;
    f.lemma_next_digit(x, n, m, low, rest);
    assert(f.mul(f.pow(x, m), f.root_pow(m * low)) == subgroup_element(f, j));
}

/// The entry for `x^(2^24)` is the lowest digit.
proof fn lemma_first_entry(f: PrimeFieldModel, x: int, n: nat, entry: int)
    requires
        f.valid(),
        f.is_element(x),
        f.is_log_of_inverse(x, n),
        is_inverse_entry(f, f.pow(x, 0x100_0000), entry),
    ensures
        entry == n % 0x100,
{
    let y = f.pow(x, 0x100_0000);
    modular::lemma_pow_mod_small(f.root, f.p);
    lemma_mod_bound(pow(x, 0x100_0000), f.p);
    lemma_mul_basics(y);
    lemma_small_mod(y as nat, f.p as nat);
    lemma_entry(f, x, n, 0x100_0000, 0, n, entry);
}

/// The entry for `x * root^low` is the highest digit.
proof fn lemma_last_entry(f: PrimeFieldModel, x: int, n: nat, low: nat, entry: int)
    requires
        f.valid(),
        f.is_element(x),
        f.is_log_of_inverse(x, n),
        low == n % 0x100_0000,
        is_inverse_entry(f, f.mul(x, f.root_pow(low)), entry),
    ensures
        entry == n / 0x100_0000,
{
    modular::lemma_pow_mod_small(x, f.p);
    lemma_small_mod(x as nat, f.p as nat);
    lemma_entry(f, x, n, 1, low, n / 0x100_0000, entry);
}

/// Multiplying by a power of `root^256`, byte by byte of the exponent.
proof fn lemma_two_bytes(f: PrimeFieldModel, x: int, t: nat)
    requires
        f.valid(),
    ensures
        f.mul(f.mul(x, f.root_pow(0x100 * (t % 0x100))), f.root_pow(0x1_0000 * (t / 0x100)))
            == f.mul(x, f.root_pow(0x100 * t)),
{
    f.lemma_mul_root_pows(x, 0x100 * (t % 0x100), 0x1_0000 * (t / 0x100));
    assert(0x100 * (t % 0x100) + 0x1_0000 * (t / 0x100) == 0x100 * t);
}

/// Multiplying by a power of `root`, byte by byte of the exponent.
proof fn lemma_three_bytes(f: PrimeFieldModel, x: int, t: nat)
    requires
        f.valid(),
    ensures
        f.mul(
            f.mul(f.mul(x, f.root_pow(1 * (t % 0x100))), f.root_pow(0x100 * (t / 0x100 % 0x100))),
            f.root_pow(0x1_0000 * (t / 0x1_0000)),
        ) == f.mul(x, f.root_pow(t)),
{
    let (b0, b1, b2) = (t % 0x100, t / 0x100 % 0x100, t / 0x1_0000);
    f.lemma_mul_root_pows(x, b0, 0x100 * b1);
    f.lemma_mul_root_pows(x, b0 + 0x100 * b1, 0x1_0000 * b2);
    assert(b0 + 0x100 * b1 + 0x1_0000 * b2 == t);
}

/// The bytes of a 32-bit number.
proof fn lemma_digits(t: usize)
    ensures
        t & 0xff == t % 0x100,
        t >> 8 == t / 0x100,
        (t >> 8) & 0xff == t / 0x100 % 0x100,
        t >> 16 == t / 0x1_0000,
        (t >> 16) & 0xff == t / 0x1_0000 % 0x100,
        t >> 24 == t / 0x100_0000,
{
    assert(t & 0xff == t % 0x100) by (bit_vector);
    assert(t >> 8 == t / 0x100) by (bit_vector);
    assert((t >> 8) & 0xff == t / 0x100 % 0x100) by (bit_vector);
    assert(t >> 16 == t / 0x1_0000) by (bit_vector);
    assert((t >> 16) & 0xff == t / 0x1_0000 % 0x100) by (bit_vector);
    assert(t >> 24 == t / 0x100_0000) by (bit_vector);
}

/// A byte, moved to its place in a 32-bit number.
proof fn lemma_place(digit: usize)
    requires
        digit < 256,
    ensures
        digit << 8 == digit * 0x100,
        digit << 16 == digit * 0x1_0000,
        digit << 24 == digit * 0x100_0000,
{
    assert(digit << 8 == digit * 0x100) by (bit_vector)
        requires
            digit < 256,
    ;
    assert(digit << 16 == digit * 0x1_0000) by (bit_vector)
        requires
            digit < 256,
    ;
    assert(digit << 24 == digit * 0x100_0000) by (bit_vector)
        requires
            digit < 256,
    ;
}

/// The 256th power of `base`, whose first 256 powers are in `table`.
fn next_base<F: SqrtTableHelpers>(table: &Vec<F>, base: &F) -> (r: F)
    requires
        table.len() == 256,
        table[255].value() == F::field().pow(base.value(), 255),
    ensures
        r.value() == F::field().pow(base.value(), 256),
{
    proof {
        let f = F::field();
        F::field_is_valid();
        base.value_is_canonical();
        modular::lemma_pow_mod_small(base.value(), f.p);
        lemma_small_mod(base.value() as nat, f.p as nat);
        modular::lemma_pow_mod_add(base.value(), 255, 1, f.p);
    }
    table[255].mul(base)
}

/// Powers of a power of the root of unity are powers of the root of unity.
proof fn lemma_power_table<F: SqrtTableHelpers>(table: Seq<F>, step: nat)
    requires
        F::field().valid(),
        table.len() == 256,
        forall|k: int|
            0 <= k < 256 ==> (#[trigger] table[k]).value() == F::field().pow(
                F::field().root_pow(step),
                k as nat,
            ),
    ensures
        is_power_table(table, step, 256),
{
    let f = F::field();
    assert forall|k: int| 0 <= k < 256 implies (#[trigger] table[k]).value() == f.root_pow(
        step * k as nat,
    ) by {
        modular::lemma_pow_mod_mul(f.root, step, k as nat, f.p);
    }
}

} // verus!
