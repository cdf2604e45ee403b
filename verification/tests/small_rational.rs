use symbolica::domains::rational::{size_of_draw, SmallRational};
use symbolica::rings::finite_field::gcd_unsigned;

#[test]
fn small_rational_from_integers() {
    assert_eq!(
        SmallRational::from_usize(5),
        Some(SmallRational { num: 5, den: 1 })
    );
    assert_eq!(
        SmallRational::from_usize(i64::MAX as usize - 1),
        Some(SmallRational {
            num: i64::MAX - 1,
            den: 1
        })
    );
    assert_eq!(SmallRational::from_usize(i64::MAX as usize), None);
    assert_eq!(SmallRational::from_usize(usize::MAX), None);
    assert_eq!(
        SmallRational::from_i64(-7),
        SmallRational { num: -7, den: 1 }
    );
    assert!(SmallRational::zero().is_zero());
    assert!(!SmallRational::zero().is_one());
    assert!(SmallRational::one().is_one());
    assert!(SmallRational { num: 3, den: 3 }.is_one());
    assert!(SmallRational { num: 3, den: 4 }.is_finite());
}

#[test]
fn small_rational_order_is_exact() {
    let a = SmallRational { num: 1, den: 3 };
    let b = SmallRational { num: 2, den: 7 };
    assert!(a.gt(&b));
    assert!(!b.gt(&a));
    assert!(!a.gt(&a));
    assert_eq!(a.max(&b), a);
    assert_eq!(b.max(&a), a);
    // fractions that differ only beyond the precision of a double
    let c = SmallRational {
        num: i64::MAX - 1,
        den: i64::MAX,
    };
    let d = SmallRational {
        num: i64::MAX - 2,
        den: i64::MAX - 1,
    };
    assert!(c.gt(&d));
    assert_eq!(d.max(&c), c);
    let e = SmallRational {
        num: i64::MIN,
        den: 1,
    };
    let f = SmallRational {
        num: i64::MIN,
        den: i64::MAX,
    };
    assert!(f.gt(&e));
    assert_eq!(e.max(&e), e);
}

#[test]
fn sample_unit_is_a_reduced_fraction_between_zero_and_one() {
    assert_eq!(
        SmallRational::sample_unit(6, -4),
        SmallRational { num: 2, den: 3 }
    );
    assert_eq!(
        SmallRational::sample_unit(-4, 6),
        SmallRational { num: 2, den: 3 }
    );
    assert_eq!(
        SmallRational::sample_unit(0, 0),
        SmallRational { num: 0, den: 1 }
    );
    assert_eq!(
        SmallRational::sample_unit(0, 9),
        SmallRational { num: 0, den: 1 }
    );
    assert_eq!(
        SmallRational::sample_unit(5, 5),
        SmallRational { num: 1, den: 1 }
    );
    assert_eq!(
        SmallRational::sample_unit(i64::MIN, i64::MAX),
        SmallRational { num: 1, den: 1 }
    );
    assert_eq!(
        SmallRational::sample_unit(i64::MIN, 1),
        SmallRational {
            num: 1,
            den: i64::MAX
        }
    );
    assert_eq!(size_of_draw(i64::MIN), i64::MAX as u64);
    assert_eq!(size_of_draw(-3), 3);
    assert_eq!(gcd_unsigned(12, 18), 6);
    assert_eq!(gcd_unsigned(0, 5), 5);
    assert_eq!(gcd_unsigned(5, 0), 5);
}
