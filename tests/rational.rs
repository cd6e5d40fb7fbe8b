use maths::rational::{ratio_lt, Rational};

fn parts(x: Option<Rational>) -> (i64, i64) {
    let x = x.unwrap();
    (x.numer(), x.denom())
}

#[test]
fn new_reduces_and_fixes_sign() {
    assert_eq!(parts(Rational::new(2, 4)), (1, 2));
    assert_eq!(parts(Rational::new(1, -2)), (-1, 2));
    assert_eq!(parts(Rational::new(0, -7)), (0, 1));
    assert!(Rational::new(1, 0).is_none());
    assert!(Rational::new(i64::MIN, 1).is_none());
}

#[test]
fn arithmetic_is_exact() {
    let a = Rational::new(1, 2).unwrap();
    let b = Rational::new(1, 3).unwrap();
    assert_eq!(parts(a.plus(&b)), (5, 6));
    assert_eq!(parts(a.times(&b)), (1, 6));
    assert_eq!(parts(a.over(&b)), (3, 2));
    assert_eq!(parts(a.negated()), (-1, 2));
    assert!(b.lt(&a));
    assert!(!a.lt(&b));
    assert!(Rational::from_int(i64::MIN).negated().is_none());
    assert!(Rational::from_int(i64::MAX).plus(&Rational::from_int(1)).is_none());
}

#[test]
fn ratio_comparison() {
    let r = Rational::from_int;
    // 90 / 2 = 45 is not below 120 / 3 = 40.
    assert_eq!(ratio_lt(&r(90), &r(2), &r(120), &r(3)), Some(false));
    assert_eq!(ratio_lt(&r(120), &r(3), &r(90), &r(2)), Some(true));
}
