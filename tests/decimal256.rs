use decimal::decimal::{Decimal256, Error};
use decimal::wide::WideInt256;
use soroban_sdk::Env;

fn wide(v: i128) -> WideInt256 {
    WideInt256::from_i128(v)
}

#[test]
fn decimal256_new() {
    let env = Env::default();
    let expected = 300i128;
    assert_eq!(
        Decimal256::new(&env, expected).0.to_i128().unwrap(),
        expected
    );
}

#[test]
fn decimal256_raw() {
    let env = Env::default();
    let value = 300i128;
    assert_eq!(Decimal256::raw(&env, value).0.to_i128().unwrap(), value);
}

#[test]
fn decimal256_one() {
    let env = Env::default();
    let value = Decimal256::one(&env);
    assert_eq!(value.0.to_i128().unwrap(), 1_000_000_000_000_000_000);
}

#[test]
fn decimal256_zero() {
    let env = Env::default();
    let value = Decimal256::zero(&env);
    assert_eq!(value.0.to_i128().unwrap(), 0);
}

#[test]
fn decimal256_percent() {
    let env = Env::default();
    let value = Decimal256::percent(&env, 50);
    assert_eq!(value.0.to_i128().unwrap(), 500_000_000_000_000_000);
}

#[test]
fn decimal256_from_atomics_works() {
    let env = Env::default();
    let one = Decimal256::one(&env);
    let two = Decimal256::new(&env, 2 * 1_000_000_000_000_000_000);

    assert_eq!(Decimal256::from_atomics(&env, 1, 0), one);
    assert_eq!(Decimal256::from_atomics(&env, 10, 1), one);
    assert_eq!(Decimal256::from_atomics(&env, 100, 2), one);
    assert_eq!(Decimal256::from_atomics(&env, 1000, 3), one);
    assert_eq!(
        Decimal256::from_atomics(&env, 1_000_000_000_000_000_000, 18),
        one
    );
    assert_eq!(
        Decimal256::from_atomics(&env, 10_000_000_000_000_000_000, 19),
        one
    );
    assert_eq!(
        Decimal256::from_atomics(&env, 100_000_000_000_000_000_000, 20),
        one
    );

    assert_eq!(Decimal256::from_atomics(&env, 2, 0), two);
    assert_eq!(Decimal256::from_atomics(&env, 20, 1), two);
    assert_eq!(Decimal256::from_atomics(&env, 200, 2), two);
    assert_eq!(Decimal256::from_atomics(&env, 2000, 3), two);
    assert_eq!(
        Decimal256::from_atomics(&env, 2_000_000_000_000_000_000, 18),
        two
    );
    assert_eq!(
        Decimal256::from_atomics(&env, 20_000_000_000_000_000_000, 19),
        two
    );
    assert_eq!(
        Decimal256::from_atomics(&env, 200_000_000_000_000_000_000, 20),
        two
    );

    // Cuts decimal digits (20 provided but only 18 can be stored)
    assert_eq!(
        Decimal256::from_atomics(&env, 4321, 20),
        Decimal256::from_str_with_env(&env, "0.000000000000000043").unwrap()
    );
    assert_eq!(
        Decimal256::from_atomics(&env, 6789, 20),
        Decimal256::from_str_with_env(&env, "0.000000000000000067").unwrap()
    );
    assert_eq!(
        Decimal256::from_atomics(&env, i128::MAX, 38),
        Decimal256::from_str_with_env(&env, "1.701411834604692317").unwrap()
    );
    assert_eq!(
        Decimal256::from_atomics(&env, i128::MAX, 39),
        Decimal256::from_str_with_env(&env, "0.170141183460469231").unwrap()
    );
    assert_eq!(
        Decimal256::from_atomics(&env, i128::MAX, 45),
        Decimal256::from_str_with_env(&env, "0.000000170141183460").unwrap()
    );
    assert_eq!(
        Decimal256::from_atomics(&env, i128::MAX, 51),
        Decimal256::from_str_with_env(&env, "0.000000000000170141").unwrap()
    );
    assert_eq!(
        Decimal256::from_atomics(&env, i128::MAX, 56),
        Decimal256::from_str_with_env(&env, "0.000000000000000001").unwrap()
    );
}

#[test]
fn decimal256_from_ratio_works() {
    let env = Env::default();

    // 1.0
    assert_eq!(
        Decimal256::from_ratio(&env, wide(1), wide(1)),
        Decimal256::one(&env)
    );
    assert_eq!(
        Decimal256::from_ratio(&env, wide(53), wide(53)),
        Decimal256::one(&env)
    );
    assert_eq!(
        Decimal256::from_ratio(&env, wide(125), wide(125)),
        Decimal256::one(&env)
    );

    // 1.5
    assert_eq!(
        Decimal256::from_ratio(&env, wide(3), wide(2)),
        Decimal256::percent(&env, 150)
    );
    assert_eq!(
        Decimal256::from_ratio(&env, wide(150), wide(100)),
        Decimal256::percent(&env, 150)
    );
    assert_eq!(
        Decimal256::from_ratio(&env, wide(333), wide(222)),
        Decimal256::percent(&env, 150)
    );

    // 0.125
    assert_eq!(
        Decimal256::from_ratio(&env, wide(1), wide(8)),
        Decimal256::permille(&env, 125)
    );
    assert_eq!(
        Decimal256::from_ratio(&env, wide(125), wide(1000)),
        Decimal256::permille(&env, 125)
    );

    // 1/3 (result floored)
    assert_eq!(
        Decimal256::from_ratio(&env, wide(1), wide(3)),
        Decimal256(wide(333_333_333_333_333_333))
    );

    // 2/3 (result floored)
    assert_eq!(
        Decimal256::from_ratio(&env, wide(2), wide(3)),
        Decimal256(wide(666_666_666_666_666_666))
    );

    // large inputs
    assert_eq!(
        Decimal256::from_ratio(&env, wide(0), wide(i128::MAX)),
        Decimal256::zero(&env)
    );

    assert_eq!(
        Decimal256::from_ratio(&env, wide(340282366920938), wide(340282366920938)),
        Decimal256::one(&env)
    );
    assert_eq!(
        Decimal256::from_ratio(
            &env,
            wide(34028236692093900000),
            wide(34028236692093900000)
        ),
        Decimal256::one(&env)
    );
    assert_eq!(
        Decimal256::from_ratio(&env, wide(34028236692093900000), wide(1)),
        Decimal256::new(&env, 34028236692093900000 * 1_000_000_000_000_000_000)
    );
}

#[test]
#[should_panic]
fn decimal256_from_ratio_panics_for_zero_denominator() {
    let env = Env::default();
    Decimal256::from_ratio(&env, wide(1), wide(0));
}

#[test]
fn decimal256_decimal256_places_works() {
    let env = Env::default();
    let zero = Decimal256::zero(&env);
    let one = Decimal256::one(&env);
    let half = Decimal256::percent(&env, 50);
    let two = Decimal256::new(&env, 2 * 1_000_000_000_000_000_000);
    let max = Decimal256::max(&env);

    assert_eq!(zero.decimal_places(), 18);
    assert_eq!(one.decimal_places(), 18);
    assert_eq!(half.decimal_places(), 18);
    assert_eq!(two.decimal_places(), 18);
    assert_eq!(max.decimal_places(), 18);
}

#[test]
fn decimal256_from_str_works() {
    let env = Env::default();

    // Integers
    assert_eq!(
        Decimal256::from_str_with_env(&env, "0").unwrap(),
        Decimal256::percent(&env, 0)
    );
    assert_eq!(
        Decimal256::from_str_with_env(&env, "1").unwrap(),
        Decimal256::percent(&env, 100)
    );
    assert_eq!(
        Decimal256::from_str_with_env(&env, "5").unwrap(),
        Decimal256::percent(&env, 500)
    );
    assert_eq!(
        Decimal256::from_str_with_env(&env, "42").unwrap(),
        Decimal256::percent(&env, 4200)
    );
    assert_eq!(
        Decimal256::from_str_with_env(&env, "000").unwrap(),
        Decimal256::percent(&env, 0)
    );
    assert_eq!(
        Decimal256::from_str_with_env(&env, "001").unwrap(),
        Decimal256::percent(&env, 100)
    );
    assert_eq!(
        Decimal256::from_str_with_env(&env, "005").unwrap(),
        Decimal256::percent(&env, 500)
    );
    assert_eq!(
        Decimal256::from_str_with_env(&env, "0042").unwrap(),
        Decimal256::percent(&env, 4200)
    );

    // Decimal256s
    assert_eq!(
        Decimal256::from_str_with_env(&env, "1.0").unwrap(),
        Decimal256::percent(&env, 100)
    );
    assert_eq!(
        Decimal256::from_str_with_env(&env, "1.5").unwrap(),
        Decimal256::percent(&env, 150)
    );
    assert_eq!(
        Decimal256::from_str_with_env(&env, "0.5").unwrap(),
        Decimal256::percent(&env, 50)
    );
    assert_eq!(
        Decimal256::from_str_with_env(&env, "0.123").unwrap(),
        Decimal256::permille(&env, 123)
    );

    assert_eq!(
        Decimal256::from_str_with_env(&env, "40.00").unwrap(),
        Decimal256::percent(&env, 4000)
    );
    assert_eq!(
        Decimal256::from_str_with_env(&env, "04.00").unwrap(),
        Decimal256::percent(&env, 400)
    );
    assert_eq!(
        Decimal256::from_str_with_env(&env, "00.40").unwrap(),
        Decimal256::percent(&env, 40)
    );
    assert_eq!(
        Decimal256::from_str_with_env(&env, "00.04").unwrap(),
        Decimal256::percent(&env, 4)
    );

    // Can handle 18 fractional digits
    assert_eq!(
        Decimal256::from_str_with_env(&env, "7.123456789012345678").unwrap(),
        Decimal256(wide(7123456789012345678))
    );
    assert_eq!(
        Decimal256::from_str_with_env(&env, "7.999999999999999999").unwrap(),
        Decimal256(wide(7999999999999999999))
    );
}

#[test]
fn decimal256_is_zero_works() {
    let env = Env::default();
    assert!(Decimal256::zero(&env).is_zero(&env));
    assert!(Decimal256::percent(&env, 0).is_zero(&env));
    assert!(Decimal256::permille(&env, 0).is_zero(&env));

    assert!(!Decimal256::one(&env).is_zero(&env));
    assert!(!Decimal256::percent(&env, 123).is_zero(&env));
    assert!(!Decimal256::permille(&env, 1234).is_zero(&env));
}

#[test]
fn decimal256_inv_works() {
    let env = Env::default();

    // d = 0
    assert_eq!(Decimal256::zero(&env).inv(&env), None);

    // d == 1
    assert_eq!(Decimal256::one(&env).inv(&env), Some(Decimal256::one(&env)));

    // d > 1 exact
    assert_eq!(
        Decimal256::percent(&env, 200).inv(&env),
        Some(Decimal256::percent(&env, 50))
    );
    assert_eq!(
        Decimal256::percent(&env, 2_000).inv(&env),
        Some(Decimal256::percent(&env, 5))
    );
    assert_eq!(
        Decimal256::percent(&env, 20_000).inv(&env),
        Some(Decimal256::permille(&env, 5))
    );
    assert_eq!(
        Decimal256::percent(&env, 200_000).inv(&env),
        Some(Decimal256::bps(&env, 5))
    );

    // d > 1 rounded
    assert_eq!(
        Decimal256::percent(&env, 300).inv(&env),
        Some(Decimal256::from_ratio(&env, wide(1), wide(3)))
    );
    assert_eq!(
        Decimal256::percent(&env, 600).inv(&env),
        Some(Decimal256::from_ratio(&env, wide(1), wide(6)))
    );

    // d < 1 exact
    assert_eq!(
        Decimal256::percent(&env, 50).inv(&env),
        Some(Decimal256::percent(&env, 200))
    );
    assert_eq!(
        Decimal256::percent(&env, 5).inv(&env),
        Some(Decimal256::percent(&env, 2_000))
    );
    assert_eq!(
        Decimal256::permille(&env, 5).inv(&env),
        Some(Decimal256::percent(&env, 20_000))
    );
    assert_eq!(
        Decimal256::bps(&env, 5).inv(&env),
        Some(Decimal256::percent(&env, 200_000))
    );
}

#[test]
fn decimal256_add_works() {
    let env = Env::default();
    let value = Decimal256::one(&env).add(&env, Decimal256::percent(&env, 50)); // 1.5
    assert_eq!(value.0.to_i128().unwrap(), 1_500_000_000_000_000_000);

    assert_eq!(
        Decimal256::percent(&env, 5).add(&env, Decimal256::percent(&env, 4)),
        Decimal256::percent(&env, 9)
    );
    assert_eq!(
        Decimal256::percent(&env, 5).add(&env, Decimal256::zero(&env)),
        Decimal256::percent(&env, 5)
    );
    assert_eq!(
        Decimal256::zero(&env).add(&env, Decimal256::zero(&env)),
        Decimal256::zero(&env)
    );
}

#[test]
#[should_panic(expected = "Error(Object, ArithDomain)")]
fn decimal256_add_overflow_panics() {
    let env = Env::default();
    let _value = Decimal256::max(&env).add(&env, Decimal256::percent(&env, 50));
}

#[test]
fn decimal256_sub_works() {
    let env = Env::default();
    let value = Decimal256::one(&env).sub(&env, Decimal256::percent(&env, 50)); // 0.5
    assert_eq!(value.0.to_i128().unwrap(), 500_000_000_000_000_000);

    assert_eq!(
        Decimal256::percent(&env, 9).sub(&env, Decimal256::percent(&env, 4)),
        Decimal256::percent(&env, 5)
    );
    assert_eq!(
        Decimal256::percent(&env, 16).sub(&env, Decimal256::zero(&env)),
        Decimal256::percent(&env, 16)
    );
    assert_eq!(
        Decimal256::percent(&env, 16).sub(&env, Decimal256::percent(&env, 16)),
        Decimal256::zero(&env)
    );
    assert_eq!(
        Decimal256::zero(&env).sub(&env, Decimal256::zero(&env)),
        Decimal256::zero(&env)
    );
}

#[test]
fn decimal256_implements_mul() {
    let env = Env::default();
    let one = Decimal256::one(&env);
    let two = Decimal256::new(&env, 2 * 1_000_000_000_000_000_000);
    let half = Decimal256::percent(&env, 50);

    // 1*x and x*1
    assert_eq!(
        one.clone().mul(&env, &Decimal256::percent(&env, 0)),
        Decimal256::percent(&env, 0)
    );
    assert_eq!(
        one.clone().mul(&env, &Decimal256::percent(&env, 1)),
        Decimal256::percent(&env, 1)
    );
    assert_eq!(
        one.clone().mul(&env, &Decimal256::percent(&env, 10)),
        Decimal256::percent(&env, 10)
    );
    assert_eq!(
        one.clone().mul(&env, &Decimal256::percent(&env, 100)),
        Decimal256::percent(&env, 100)
    );
    assert_eq!(
        one.clone().mul(&env, &Decimal256::percent(&env, 1000)),
        Decimal256::percent(&env, 1000)
    );
    assert_eq!(
        Decimal256::percent(&env, 0).mul(&env, &one),
        Decimal256::percent(&env, 0)
    );
    assert_eq!(
        Decimal256::percent(&env, 1).mul(&env, &one),
        Decimal256::percent(&env, 1)
    );
    assert_eq!(
        Decimal256::percent(&env, 10).mul(&env, &one),
        Decimal256::percent(&env, 10)
    );
    assert_eq!(
        Decimal256::percent(&env, 100).mul(&env, &one),
        Decimal256::percent(&env, 100)
    );
    assert_eq!(
        Decimal256::percent(&env, 1000).mul(&env, &one),
        Decimal256::percent(&env, 1000)
    );

    // double
    assert_eq!(
        two.clone().mul(&env, &Decimal256::percent(&env, 0)),
        Decimal256::percent(&env, 0)
    );
    assert_eq!(
        two.clone().mul(&env, &Decimal256::percent(&env, 1)),
        Decimal256::percent(&env, 2)
    );
    assert_eq!(
        two.clone().mul(&env, &Decimal256::percent(&env, 10)),
        Decimal256::percent(&env, 20)
    );
    assert_eq!(
        two.clone().mul(&env, &Decimal256::percent(&env, 100)),
        Decimal256::percent(&env, 200)
    );
    assert_eq!(
        two.clone().mul(&env, &Decimal256::percent(&env, 1000)),
        Decimal256::percent(&env, 2000)
    );
    assert_eq!(
        Decimal256::percent(&env, 0).mul(&env, &two),
        Decimal256::percent(&env, 0)
    );
    assert_eq!(
        Decimal256::percent(&env, 1).mul(&env, &two),
        Decimal256::percent(&env, 2)
    );
    assert_eq!(
        Decimal256::percent(&env, 10).mul(&env, &two),
        Decimal256::percent(&env, 20)
    );
    assert_eq!(
        Decimal256::percent(&env, 100).mul(&env, &two),
        Decimal256::percent(&env, 200)
    );
    assert_eq!(
        Decimal256::percent(&env, 1000).mul(&env, &two),
        Decimal256::percent(&env, 2000)
    );

    // half
    assert_eq!(
        half.clone().mul(&env, &Decimal256::percent(&env, 0)),
        Decimal256::percent(&env, 0)
    );
    assert_eq!(
        half.clone().mul(&env, &Decimal256::percent(&env, 1)),
        Decimal256::permille(&env, 5)
    );
    assert_eq!(
        half.clone().mul(&env, &Decimal256::percent(&env, 10)),
        Decimal256::percent(&env, 5)
    );
    assert_eq!(
        half.clone().mul(&env, &Decimal256::percent(&env, 100)),
        Decimal256::percent(&env, 50)
    );
    assert_eq!(
        half.clone().mul(&env, &Decimal256::percent(&env, 1000)),
        Decimal256::percent(&env, 500)
    );
    assert_eq!(
        Decimal256::percent(&env, 0).mul(&env, &half),
        Decimal256::percent(&env, 0)
    );
    assert_eq!(
        Decimal256::percent(&env, 1).mul(&env, &half),
        Decimal256::permille(&env, 5)
    );
    assert_eq!(
        Decimal256::percent(&env, 10).mul(&env, &half),
        Decimal256::percent(&env, 5)
    );
    assert_eq!(
        Decimal256::percent(&env, 100).mul(&env, &half),
        Decimal256::percent(&env, 50)
    );
    assert_eq!(
        Decimal256::percent(&env, 1000).mul(&env, &half),
        Decimal256::percent(&env, 500)
    );
}

#[test]
#[should_panic(expected = "Error(Object, ArithDomain)")]
fn decimal256_mul_overflow_panics() {
    let env = Env::default();
    let _value = Decimal256::max(&env).mul(&env, &Decimal256::percent(&env, 101));
}

#[test]
fn test_denominator() {
    let env = Env::default();
    let decimal = Decimal256::percent(&env, 123);
    assert_eq!(decimal.denominator(&env), Decimal256::decimal_fractional(&env));
}

#[test]
fn test_atomics() {
    let env = Env::default();
    let decimal = Decimal256::percent(&env, 123);
    assert_eq!(decimal.atomics().unwrap(), 1230000000000000000);
}

#[test]
fn test_to_i128_with_precision() {
    let env = Env::default();
    let decimal = Decimal256::percent(&env, 124);
    assert_eq!(decimal.to_i128_with_precision(1), 12);
    assert_eq!(decimal.to_i128_with_precision(2), 124);
}

#[test]
fn test_multiply_ratio() {
    let env = Env::default();
    let decimal = Decimal256::percent(&env, 1);
    let numerator = Decimal256::new(&env, 2);
    let denominator = Decimal256::new(&env, 5);

    assert_eq!(
        decimal.multiply_ratio(&env, numerator, denominator),
        Decimal256::new(&env, 4000000000000000000000000000000000)
    );
}

#[test]
fn test_abs_difference() {
    let env = Env::default();
    let a = Decimal256::new(&env, 100);
    let b = Decimal256::new(&env, 200);

    assert_eq!(
        a.clone().abs_diff(&env, b.clone()),
        Decimal256::new(&env, 100)
    );
    assert_eq!(b.clone().abs_diff(&env, a), Decimal256::new(&env, 100));
}

#[test]
fn test_checked_from_ratio() {
    let env = Env::default();
    let numerator = Decimal256::new(&env, 100);
    let denominator = Decimal256::new(&env, 200);

    assert_eq!(
        Decimal256::checked_from_ratio(&env, numerator.0, denominator.0),
        Ok(Decimal256::new(&env, 500_000_000_000_000_000))
    );
}

#[test]
fn test_decimal256_places() {
    let env = Env::default();
    let a = Decimal256::percent(&env, 50);

    assert_eq!(a.decimal_places(), 18);
}

#[test]
fn checked_from_ratio_zero_denominator_is_an_error() {
    let env = Env::default();
    assert_eq!(
        Decimal256::checked_from_ratio(&env, wide(1), wide(0)),
        Err(Error::DivideByZero)
    );
}
