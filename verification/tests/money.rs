use agentos_domain::money::Currency::{Jpy, Usd};
use agentos_domain::money::{Currency, LedgerDirection, Money, MoneyError, SignedAmount};

#[test]
fn zero_is_unconstructible() {
    assert_eq!(Money::new(0, Usd), Err(MoneyError::Zero));
    assert_eq!(Money::from_major(0, Usd), Err(MoneyError::Zero));
    assert_eq!(Money::from_major_str("0.00", Usd), Err(MoneyError::Zero));
    assert_eq!(Money::from_major_str("0", Jpy), Err(MoneyError::Zero));

    let five = Money::new(5, Usd).unwrap();
    assert_eq!(five.checked_sub(five), Err(MoneyError::Zero));
    assert_eq!(five.checked_mul_int(0), Err(MoneyError::Zero));
}

#[test]
fn jpy_and_usd_exponents_do_not_get_confused() {
    let usd = Money::from_major_str("5.00", Usd).unwrap();
    let jpy = Money::from_major_str("500", Jpy).unwrap();

    assert_eq!(usd.minor(), 500);
    assert_eq!(jpy.minor(), 500);
    assert_ne!(usd, jpy);

    assert_eq!(Money::from_major(5, Usd).unwrap().minor(), 500);
    assert_eq!(Money::from_major(5, Jpy).unwrap().minor(), 5);

    assert_eq!(
        Money::from_major_str("5.001", Usd),
        Err(MoneyError::WrongExponent {
            currency: Usd,
            expected: 2,
            got: 3
        })
    );
    assert_eq!(
        Money::from_major_str("5.0", Jpy),
        Err(MoneyError::WrongExponent {
            currency: Jpy,
            expected: 0,
            got: 1
        })
    );

    assert_eq!(Money::from_major_str("5.5", Usd).unwrap().minor(), 550);
    for junk in ["", "-5.00", "+5.00", "5.", "5.0.0", "abc", "5 00", "1e3"] {
        assert!(
            Money::from_major_str(junk, Usd).is_err(),
            "accepted junk: {junk:?}"
        );
    }
}

#[test]
fn overflow_is_reported_not_wrapped() {
    let max = Money::new(u64::MAX, Usd).unwrap();
    let one = Money::new(1, Usd).unwrap();

    assert_eq!(max.checked_add(one).ok(), None);
    assert_eq!(max.checked_add(one), Err(MoneyError::Overflow));
    assert_eq!(max.checked_mul_int(2), Err(MoneyError::Overflow));
    assert_eq!(one.checked_sub(max), Err(MoneyError::Underflow));
    assert_eq!(Money::from_major(u64::MAX, Usd), Err(MoneyError::Overflow));
    assert_eq!(
        Money::from_major_str("99999999999999999999", Usd),
        Err(MoneyError::Overflow)
    );
}

#[test]
fn cross_currency_arithmetic_is_an_error() {
    let usd = Money::from_major(5, Usd).unwrap();
    let jpy = Money::from_major(5, Jpy).unwrap();

    assert_eq!(
        usd.checked_add(jpy),
        Err(MoneyError::CurrencyMismatch {
            left: Usd,
            right: Jpy
        })
    );
    assert_eq!(
        jpy.checked_sub(usd),
        Err(MoneyError::CurrencyMismatch {
            left: Jpy,
            right: Usd
        })
    );
}

#[test]
fn display_round_trips_for_every_currency() {
    for currency in Currency::ALL {
        for minor in [1u64, 7, 500, 12_345, u64::MAX] {
            let m = Money::new(minor, currency).unwrap();
            let rendered = m.to_text();
            let (code, amount) = rendered.split_once(' ').unwrap();
            let back = Money::from_major_str(amount, code.parse().unwrap()).unwrap();
            assert_eq!(back, m, "{rendered} did not round-trip");
        }
    }
    assert_eq!(Money::from_major(5, Usd).unwrap().to_text(), "USD 5.00");
    assert_eq!(Money::from_major(500, Jpy).unwrap().to_text(), "JPY 500");
    assert_eq!(Money::new(5, Usd).unwrap().to_text(), "USD 0.05");
}

#[test]
fn direction_is_carried_separately_from_the_amount() {
    let m = Money::from_major(5, Usd).unwrap();
    let d = SignedAmount::debit(m);
    let c = SignedAmount::credit(m);

    assert_ne!(d, c);
    assert_eq!(d.amount(), c.amount());
    assert!(d.is_debit());
    assert_eq!(c.direction(), LedgerDirection::Credit);
}

#[test]
fn currency_codes_parse_and_round_trip() {
    for currency in Currency::ALL {
        assert_eq!(currency.code().parse::<Currency>().unwrap(), currency);
        assert_eq!(
            currency
                .code()
                .to_ascii_lowercase()
                .parse::<Currency>()
                .unwrap(),
            currency
        );
    }
    assert_eq!(
        "XYZ".parse::<Currency>(),
        Err(MoneyError::UnknownCurrency("XYZ".into()))
    );
}

#[test]
fn checked_add_is_commutative_and_never_shrinks() {
    let samples = [
        1u64,
        2,
        7,
        500,
        12_345,
        u64::MAX / 2,
        u64::MAX / 2 + 1,
        u64::MAX - 1,
        u64::MAX,
    ];
    for a in samples {
        for b in samples {
            let x = Money::new(a, Usd).unwrap();
            let y = Money::new(b, Usd).unwrap();
            assert_eq!(x.checked_add(y), y.checked_add(x));
            if let Ok(sum) = x.checked_add(y) {
                assert!(sum.minor() >= x.minor());
                assert!(sum.minor() >= y.minor());
                assert_eq!(sum.currency(), Usd);
                assert_eq!(sum.checked_sub(y), Ok(x));
            } else {
                assert_eq!(x.checked_add(y), Err(MoneyError::Overflow));
            }
        }
    }
}

#[test]
fn minor_units_follow_the_exponent() {
    assert_eq!(Usd.exponent(), 2);
    assert_eq!(Usd.minor_per_major(), 100);
    assert_eq!(Jpy.exponent(), 0);
    assert_eq!(Jpy.minor_per_major(), 1);
    assert!(matches!(
        Money::from_major_str("abc", Usd),
        Err(MoneyError::InvalidAmount(_))
    ));
}
