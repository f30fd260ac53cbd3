use field_arith::choice::zero_or_one_of_two;
use subtle::Choice;

#[test]
fn flags_combine() {
    for is_zero in 0..2u8 {
        for first in 0..2u8 {
            for second in 0..2u8 {
                let expected = is_zero == 1 || first != second;
                let found = zero_or_one_of_two(
                    Choice::from(is_zero),
                    Choice::from(first),
                    Choice::from(second),
                );
                assert_eq!(found, expected);
            }
        }
    }
}

#[test]
fn two_flags_are_not_one() {
    let set = Choice::from(1);
    let clear = Choice::from(0);
    assert!(!zero_or_one_of_two(clear, set, set));
    assert!(!zero_or_one_of_two(clear, clear, clear));
    assert!(zero_or_one_of_two(clear, set, clear));
    assert!(zero_or_one_of_two(set, set, set));
}
