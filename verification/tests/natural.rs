use omi_persona::natural::Natural;

fn number(limbs: &[u64]) -> Natural {
    let base = Natural::from_u128(1 << 64);
    limbs.iter().rev().fold(Natural::zero(), |acc, l| {
        acc.times(&base).plus(&Natural::from_u128(*l as u128))
    })
}

/// The limbs, lowest first, without zeros at the top.
fn limbs(n: &Natural) -> Vec<u64> {
    let mut limbs = n.limbs().clone();
    while limbs.last() == Some(&0) {
        limbs.pop();
    }
    limbs
}

#[test]
fn limbs_come_lowest_first() {
    assert_eq!(limbs(&Natural::zero()), Vec::<u64>::new());
    assert_eq!(limbs(&Natural::from_u128(7)), vec![7]);
    assert_eq!(limbs(&Natural::from_u128((5 << 64) + 9)), vec![9, 5]);
    assert_eq!(limbs(&number(&[1, 2, 3])), vec![1, 2, 3]);
    assert_eq!(limbs(&number(&[1, 2, 3]).same()), vec![1, 2, 3]);
}

#[test]
fn sums_carry_through_every_limb() {
    let all = number(&[u64::MAX, u64::MAX, u64::MAX]);
    let one = Natural::from_u128(1);
    assert_eq!(limbs(&all.plus(&one)), vec![0, 0, 0, 1]);
    assert_eq!(limbs(&one.plus(&all)), vec![0, 0, 0, 1]);
    assert_eq!(limbs(&number(&[u64::MAX, 4]).plus(&number(&[2, 5, 6]))), vec![1, 10, 6]);
}

#[test]
fn differences_borrow_through_every_limb() {
    let one = Natural::from_u128(1);
    assert_eq!(limbs(&number(&[0, 0, 0, 1]).minus(&one)), vec![u64::MAX, u64::MAX, u64::MAX]);
    assert_eq!(limbs(&number(&[3, 7, 9]).minus(&number(&[4, 6]))), vec![u64::MAX, 0, 9]);
    let n = number(&[3, 7, 9]);
    assert!(n.minus(&n).is_zero());
}

#[test]
fn products_are_exact() {
    // (2^128 - 1)^2 = 2^256 - 2^129 + 1
    let m = Natural::from_u128(u128::MAX);
    assert_eq!(limbs(&m.times(&m)), vec![1, 0, u64::MAX - 1, u64::MAX]);
    assert_eq!(limbs(&number(&[2, 3]).times(&number(&[5, 7, 11]))), vec![10, 29, 43, 33]);
    assert!(m.times(&Natural::zero()).is_zero());
    assert!(Natural::zero().times(&m).is_zero());
}

#[test]
fn numbers_are_ordered_by_value() {
    let (a, b) = (number(&[9, 9, 1]), number(&[0, 0, 2]));
    assert!(a.less_than(&b) && !b.less_than(&a) && !a.less_than(&a));
    assert!(a.equals(&a.same()) && !a.equals(&b));
    // Zeros at the top do not count.
    let c = number(&[5, 0, 1]).minus(&number(&[0, 0, 1]));
    assert!(c.equals(&Natural::from_u128(5)));
    assert!(c.less_than(&Natural::from_u128(6)) && !c.is_zero());
}
