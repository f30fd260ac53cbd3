use field_arith::limbs::{adc, mac, mul_acc, sbb, square_acc};

const A: [u64; 4] = [
    0x4164d8399f767c45,
    0x5bc8fbbcbde5c099,
    0xb0c11fdecb91ce37,
    0xd76d4330f1446bea,
];
const B: [u64; 4] = [
    0xa6eb8c9ebd69fe29,
    0x87b0b125ec1d7da0,
    0xd7210dff076ce2ef,
    0xc6a5387777330bdb,
];
const D: [u64; 8] = [
    0x3fc1ea36f17fd374,
    0x0d464138a6233255,
    0x2827688de6a16a3b,
    0x5f2dd97f1cfb10f6,
    0xde5271007814e8a2,
    0x617959ce3f1f65a8,
    0x1a1afe878b33e968,
    0x3fd4235992edcf45,
];

/// A reproducible stream of words.
fn next_word(state: &mut u64) -> u64 {
    *state ^= *state << 13;
    *state ^= *state >> 7;
    *state ^= *state << 17;
    *state
}

fn next_four(state: &mut u64) -> [u64; 4] {
    [next_word(state), next_word(state), next_word(state), next_word(state)]
}

fn next_eight(state: &mut u64) -> [u64; 8] {
    let (x, y) = (next_four(state), next_four(state));
    [x[0], x[1], x[2], x[3], y[0], y[1], y[2], y[3]]
}

#[test]
fn adc_carries() {
    assert_eq!(adc(1, 2, 3), (6, 0));
    assert_eq!(adc(u64::MAX, 0, 1), (0, 1));
    assert_eq!(adc(u64::MAX, u64::MAX, u64::MAX), (u64::MAX - 2, 2));
}

#[test]
fn sbb_borrows() {
    assert_eq!(sbb(5, 3, 0), (2, 0));
    assert_eq!(sbb(5, 3, u64::MAX), (1, 0));
    assert_eq!(sbb(0, 1, 0), (u64::MAX, u64::MAX));
    assert_eq!(sbb(0, 0, u64::MAX), (u64::MAX, u64::MAX));
    assert_eq!(sbb(0, u64::MAX, u64::MAX), (0, u64::MAX));
}

#[test]
fn sbb_reads_only_the_top_bit_of_the_borrow() {
    assert_eq!(sbb(5, 3, 1), (2, 0));
    assert_eq!(sbb(5, 3, (1 << 63) - 1), (2, 0));
    assert_eq!(sbb(5, 3, 1 << 63), (1, 0));
}

#[test]
fn mac_carries() {
    assert_eq!(mac(1, 2, 3, 4), (11, 0));
    assert_eq!(mac(0, 1 << 32, 1 << 32, 0), (0, 1));
    assert_eq!(mac(u64::MAX, u64::MAX, u64::MAX, u64::MAX), (u64::MAX, u64::MAX));
}

#[test]
fn adc_chains_over_limbs() {
    let (low, carry) = adc(u64::MAX, 1, 0);
    let (high, carry) = adc(7, u64::MAX, carry);
    assert_eq!((low, high, carry), (0, 7, 1));
}

#[test]
fn sbb_chains_over_limbs() {
    let (low, borrow) = sbb(0, 1, 0);
    let (high, borrow) = sbb(9, 4, borrow);
    assert_eq!((low, high, borrow), (u64::MAX, 4, 0));
    let (low, borrow) = sbb(0, 1, 0);
    let (high, borrow) = sbb(4, 4, borrow);
    assert_eq!((low, high, borrow), (u64::MAX, u64::MAX, u64::MAX));
}

#[test]
fn adc_undoes_sbb() {
    let mut state = 0x9e3779b97f4a7c15u64;
    for _ in 0..1000 {
        let (a, b, borrow) = (next_word(&mut state), next_word(&mut state), next_word(&mut state));
        let (diff, out) = sbb(a, b, borrow);
        assert_eq!(adc(diff, b, borrow >> 63), (a, out >> 63));
    }
}

#[test]
fn mul_acc_adds_the_product() {
    let expected = [
        0x0a3c0796f4133081,
        0x4daeb040ba7fe900,
        0x749a1f07a1aa000c,
        0x01065fc7abd07ed6,
        0xd0be7b3dacb99d1f,
        0x93b662a47be9e2f3,
        0x1fc8d2bcaa836cfc,
        0xe6fdae422adfeb58,
    ];
    assert_eq!(mul_acc(D, &A, &B), (expected, 0));
}

#[test]
fn square_acc_adds_the_square() {
    let expected = [
        0xb7761625736ebe0d,
        0x40ed93a2183d468b,
        0x47382c205addf837,
        0xc6e02921c90160e2,
        0xbdafc7c0c930340d,
        0x16c8b34e7eebcc42,
        0x62611c85aaee4991,
        0xf51cd8d8117ed872,
    ];
    assert_eq!(square_acc(D, &A), (expected, 0));
}

#[test]
fn the_largest_factors_fit_in_eight_limbs() {
    let m = [u64::MAX; 4];
    let expected = [1, 0, 0, 0, u64::MAX - 1, u64::MAX, u64::MAX, u64::MAX];
    assert_eq!(mul_acc([0; 8], &m, &m), (expected, 0));
    assert_eq!(square_acc([0; 8], &m), (expected, 0));
}

#[test]
fn the_carry_captures_overflow() {
    let m = [u64::MAX; 4];
    let expected = [0, 0, 0, 0, u64::MAX - 1, u64::MAX, u64::MAX, u64::MAX];
    assert_eq!(mul_acc([u64::MAX; 8], &m, &m), (expected, 1));
    assert_eq!(square_acc([u64::MAX; 8], &m), (expected, 1));
    assert_eq!(mul_acc([u64::MAX; 8], &[1, 0, 0, 0], &[1, 0, 0, 0]), ([0; 8], 1));
}

#[test]
fn multiplying_by_zero_or_one_keeps_the_rest() {
    assert_eq!(mul_acc(D, &A, &[0; 4]), (D, 0));
    assert_eq!(
        mul_acc([0; 8], &A, &[1, 0, 0, 0]),
        ([A[0], A[1], A[2], A[3], 0, 0, 0, 0], 0)
    );
}

#[test]
fn squares_are_products() {
    let mut state = 0x2545f4914f6cdd1du64;
    for _ in 0..1000 {
        let dst = next_eight(&mut state);
        let a = next_four(&mut state);
        assert_eq!(square_acc(dst, &a), mul_acc(dst, &a, &a));
    }
}

#[test]
fn products_commute() {
    let mut state = 0xd1342543de82ef95u64;
    for _ in 0..1000 {
        let dst = next_eight(&mut state);
        let a = next_four(&mut state);
        let b = next_four(&mut state);
        let product = mul_acc(dst, &a, &b);
        assert!(product.1 <= 1);
        assert_eq!(product, mul_acc(dst, &b, &a));
        assert_eq!(mul_acc([0; 8], &a, &b).1, 0);
    }
}
