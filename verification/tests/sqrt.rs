use field_arith::helpers::SqrtTableHelpers;
use field_arith::proth::{ProthElement, PROTH_MODULUS, PROTH_ROOT_OF_UNITY};
use field_arith::sqrt::SqrtTables;

fn tables() -> SqrtTables<ProthElement> {
    SqrtTables::new(64, 2248)
}

fn element(word: u64) -> ProthElement {
    ProthElement::from_word(word)
}

fn ratio(t: &SqrtTables<ProthElement>, num: u64, div: u64) -> (bool, u64) {
    let (is_square, root) = t.sqrt_ratio(&element(num), &element(div));
    (bool::from(is_square), root.to_word())
}

fn alt(t: &SqrtTables<ProthElement>, u: u64) -> (bool, u64) {
    let (is_square, root) = t.sqrt_alt(&element(u));
    (bool::from(is_square), root.to_word())
}

fn times(x: u64, y: u64) -> u64 {
    ((x as u128) * (y as u128) % (PROTH_MODULUS as u128)) as u64
}

fn power(x: u64, mut e: u64) -> u64 {
    let (mut acc, mut base) = (1, x % PROTH_MODULUS);
    while e > 0 {
        if e & 1 == 1 {
            acc = times(acc, base);
        }
        base = times(base, base);
        e >>= 1;
    }
    acc
}

#[test]
fn roots_of_elements() {
    let t = tables();
    assert_eq!(alt(&t, 0), (true, 0));
    assert_eq!(alt(&t, 1), (true, 1));
    assert_eq!(alt(&t, 2), (true, 151623855063));
    assert_eq!(alt(&t, 3), (false, 153302534120));
    assert_eq!(alt(&t, 4), (true, 2));
    assert_eq!(alt(&t, 9), (true, 184683593726));
    assert_eq!(alt(&t, 123456789), (false, 172648463161));
    assert_eq!(alt(&t, PROTH_MODULUS - 1), (true, 53430616396));
    assert_eq!(alt(&t, PROTH_ROOT_OF_UNITY), (false, 43278107809));
}

#[test]
fn roots_of_ratios() {
    let t = tables();
    assert_eq!(ratio(&t, 4, 9), (true, 123122395820));
    assert_eq!(ratio(&t, 1, 2), (true, 16529869333));
    assert_eq!(ratio(&t, 3, 4), (false, 76651267060));
    assert_eq!(ratio(&t, 5, 7), (false, 85004212449));
    assert_eq!(ratio(&t, PROTH_MODULUS - 1, 3), (false, 26398259749));
}

#[test]
fn ratios_with_zero() {
    let t = tables();
    assert_eq!(ratio(&t, 0, 5), (true, 0));
    assert_eq!(ratio(&t, 5, 0), (false, 0));
    assert_eq!(ratio(&t, 0, 0), (true, 0));
}

#[test]
fn every_ratio_has_one_of_two_roots() {
    let t = tables();
    for num in 1..60 {
        for div in 1..60 {
            let (is_square, r) = ratio(&t, num, div);
            let sqdiv = times(times(r, r), div);
            assert_eq!(is_square, sqdiv == num);
            assert_eq!(!is_square, sqdiv == times(PROTH_ROOT_OF_UNITY, num));
            let symbol = power(times(num, power(div, PROTH_MODULUS - 2)), (PROTH_MODULUS - 1) / 2);
            assert_eq!(is_square, symbol == 1);
        }
    }
}

#[test]
fn sqrt_alt_is_the_ratio_to_one() {
    let t = tables();
    for k in 0..500u64 {
        let u = k * k * 0x1234567;
        assert_eq!(alt(&t, u), ratio(&t, u, 1));
    }
}

#[test]
fn the_root_of_a_square_is_what_was_squared() {
    let t = tables();
    for k in 0..500u64 {
        let y = (k * 0x9e3779b1) % PROTH_MODULUS;
        let (is_square, r) = alt(&t, times(y, y));
        assert!(is_square);
        assert!(r == y || r + y == PROTH_MODULUS);
    }
}

#[test]
fn the_root_of_unity_is_a_nonsquare_of_full_order() {
    assert_eq!(power(PROTH_ROOT_OF_UNITY, 1 << 31), PROTH_MODULUS - 1);
    assert_eq!(power(PROTH_ROOT_OF_UNITY, 1 << 32), 1);
    assert_eq!(ProthElement::root_of_unity().to_word(), power(3, 43));
}

#[test]
fn every_bit_of_the_logarithm_is_found() {
    let t = tables();
    for bit in 0..32 {
        let u = power(PROTH_ROOT_OF_UNITY, 1 << bit);
        let (is_square, r) = alt(&t, u);
        assert_eq!(is_square, bit > 0);
        let expected = if bit > 0 { u } else { times(u, u) };
        assert_eq!(times(r, r), expected);
    }
}

#[test]
fn the_hash_does_not_matter_to_the_roots() {
    let t = tables();
    for (hash_xor, hash_mod) in [(0, 2684), (40, 3350), (39, 3461), (61, 3535)] {
        let other = SqrtTables::new(hash_xor, hash_mod);
        for num in 0..30 {
            for div in 0..30 {
                assert_eq!(ratio(&t, num, div), ratio(&other, num, div));
            }
        }
    }
}

#[test]
fn tables_need_a_perfect_hash() {
    assert!(SqrtTables::<ProthElement>::try_new(64, 2248).is_some());
    assert!(SqrtTables::<ProthElement>::try_new(64, 2247).is_none());
    assert!(SqrtTables::<ProthElement>::try_new(0, 256).is_none());
    assert!(SqrtTables::<ProthElement>::try_new(64, 255).is_none());
    assert!(SqrtTables::<ProthElement>::try_new(64, 1).is_none());
    assert!(SqrtTables::<ProthElement>::try_new(64, 0).is_none());
    assert!(SqrtTables::<ProthElement>::try_new(64, usize::MAX).is_none());
}

#[test]
fn field_operations() {
    let x = element(PROTH_MODULUS + 5);
    assert_eq!(x.to_word(), 5);
    assert_eq!(ProthElement::one().to_word(), 1);
    assert_eq!(x.sub(&element(7)).to_word(), PROTH_MODULUS - 2);
    assert_eq!(x.mul(&element(PROTH_MODULUS - 1)).to_word(), PROTH_MODULUS - 5);
    assert_eq!(x.square().to_word(), 25);
    assert_eq!(x.pow_by_t_minus1_over2().to_word(), power(5, 21));
    assert_eq!(element(PROTH_MODULUS - 1).get_lower_32(), 0);
    assert_eq!(element(u64::MAX).to_word(), u64::MAX % PROTH_MODULUS);
}

#[test]
fn is_zero_is_a_choice() {
    assert_eq!(element(0).is_zero().unwrap_u8(), 1);
    assert_eq!(element(PROTH_MODULUS).is_zero().unwrap_u8(), 1);
    assert_eq!(element(1).is_zero().unwrap_u8(), 0);
    assert!(bool::from(element(0).is_zero() | element(1).is_zero()));
    assert!(bool::from(element(0).is_zero() ^ element(1).is_zero()));
}

#[test]
fn a_hash_is_perfect_if_the_subgroup_does_not_collide() {
    let generator = power(PROTH_ROOT_OF_UNITY, 1 << 24);
    let mut perfect = 0;
    for hash_mod in [256usize, 1024, 2247, 2248, 2684, 3350, 3461, 3535, 4096] {
        for hash_xor in [0u32, 39, 40, 61, 64, u32::MAX] {
            let mut seen = vec![false; hash_mod];
            let mut collides = false;
            for j in 0..256 {
                let x = element(power(generator, j));
                assert_eq!(power(x.to_word(), 256), 1);
                let hash = (x.get_lower_32() ^ hash_xor) as usize % hash_mod;
                collides |= seen[hash];
                seen[hash] = true;
            }
            let tables = SqrtTables::<ProthElement>::try_new(hash_xor, hash_mod);
            assert_eq!(tables.is_some(), !collides);
            perfect += tables.is_some() as u32;
        }
    }
    assert!(perfect >= 5);
}
