use stubfrac::disagree::{disagree, find_additivity_counterexample, Window};
use stubfrac::{year_fraction, Branch, Context, Convention, Date, Error, Rational, Trace};

fn d(s: &str) -> Date {
    s.parse().unwrap()
}

#[test]
fn every_error_has_its_message() {
    assert_eq!(
        "2020-02-30".parse::<Date>().unwrap_err().to_string(),
        "invalid date '2020-02-30' (expected YYYY-MM-DD, years 0001-9999)"
    );
    assert_eq!(
        "2020/02/01".parse::<Date>(),
        Err(Error::InvalidDate("2020/02/01".to_string()))
    );
    assert_eq!(
        Date::from_serial(2932897),
        Err(Error::InvalidDate("serial 2932897".to_string()))
    );
    let err = year_fraction(
        Convention::Act360,
        d("2021-03-01"),
        d("2021-02-01"),
        &Context::default(),
    )
    .unwrap_err();
    assert_eq!(err.to_string(), "start 2021-03-01 is after end 2021-02-01");
    assert_eq!(
        "bogus".parse::<Convention>().unwrap_err().to_string(),
        "unknown convention 'bogus' (see `stubfrac list`)"
    );
    assert_eq!(
        Error::InvalidFrequency(5).to_string(),
        "frequency 5 does not divide 12 (use 1, 2, 3, 4, 6 or 12)"
    );
    assert_eq!(
        Error::MissingFrequency(Convention::ActActIcma).to_string(),
        "ACT/ACT ICMA needs a coupon frequency (--freq)"
    );
    assert_eq!(
        Error::MissingAnchor(Convention::Act365Canadian).to_string(),
        "ACT/365 Canadian Bond needs a schedule anchor date (--anchor)"
    );
    assert_eq!(
        Error::MissingTermination.to_string(),
        "30E/360 ISDA needs the termination date (--termination)"
    );
    assert_eq!(Error::ZeroDenominator.to_string(), "zero denominator");
    assert_eq!(
        Error::Overflow.to_string(),
        "result does not fit in an i64 rational"
    );
}

#[test]
fn missing_terms_are_reported_for_every_period() {
    let empty = Context::default();
    let day = d("2021-01-01");
    assert_eq!(
        year_fraction(Convention::ActActIcma, day, day, &empty),
        Err(Error::MissingFrequency(Convention::ActActIcma))
    );
    assert_eq!(
        year_fraction(Convention::Act365Leap, day, d("2021-06-01"), &empty),
        Err(Error::MissingFrequency(Convention::Act365Leap))
    );
    assert_eq!(
        year_fraction(Convention::Thirty360EuropeanIsda, day, day, &empty),
        Err(Error::MissingTermination)
    );
    // ACT/365L checks its frequency only when there are days to count.
    let odd = Context {
        frequency: Some(7),
        ..Context::default()
    };
    assert!(year_fraction(Convention::Act365Leap, day, day, &odd).is_ok());
    assert_eq!(
        year_fraction(Convention::Act365Leap, day, d("2021-01-02"), &odd),
        Err(Error::InvalidFrequency(7))
    );
}

#[test]
fn rational_errors() {
    assert_eq!(Rational::new(3, 0), Err(Error::ZeroDenominator));
    assert_eq!(Rational::new(i64::MIN, -1), Err(Error::Overflow));
    let half = Rational::new(1, 2).unwrap();
    assert_eq!(
        Rational::new(i64::MIN + 1, 1).unwrap().checked_sub(half),
        Err(Error::Overflow)
    );
}

#[test]
fn enumerators_report_errors_in_order() {
    let odd = Context {
        frequency: Some(7),
        ..Context::default()
    };
    let window = Window {
        from: d("2020-01-01"),
        to: d("2020-01-10"),
        max_days: None,
    };
    assert_eq!(
        disagree(Convention::Act365Leap, Convention::Act360, &odd, window, 1),
        Err(Error::InvalidFrequency(7))
    );
    let single = Window {
        to: d("2020-01-01"),
        ..window
    };
    let report = disagree(Convention::Act365Leap, Convention::Act360, &odd, single, 1).unwrap();
    assert_eq!(report.pairs_checked, 0);
    assert_eq!(
        disagree(
            Convention::Act360,
            Convention::Thirty360EuropeanIsda,
            &Context::default(),
            window,
            1
        ),
        Err(Error::MissingTermination)
    );
    assert_eq!(
        find_additivity_counterexample(Convention::ActActIcma, &Context::default(), window),
        Err(Error::MissingFrequency(Convention::ActActIcma))
    );
    let backwards = Window {
        from: d("2020-01-10"),
        to: d("2020-01-01"),
        max_days: None,
    };
    assert_eq!(
        find_additivity_counterexample(Convention::ActActIcma, &Context::default(), backwards),
        Ok(None)
    );
}

#[test]
fn rendering() {
    let v = Rational::new(66491, 133590).unwrap();
    assert_eq!(v.to_string(), "66491/133590");
    assert_eq!(Rational::integer(-3).to_string(), "-3");
    assert_eq!(v.to_decimal(10), "0.4977243806");
    assert_eq!(d("0987-06-05").to_string(), "0987-06-05");
    let mut t = Trace::new();
    assert_eq!(t.to_string(), "(none)");
    t.insert(Branch::D2Is31To30);
    t.insert(Branch::D1Is31To30);
    assert!(t.contains(Branch::D1Is31To30));
    assert_eq!(t.branches(), vec![Branch::D1Is31To30, Branch::D2Is31To30]);
    assert_eq!(
        t.to_string(),
        format!("{}; {}", Branch::D1Is31To30.label(), Branch::D2Is31To30.label())
    );
    assert_eq!(Convention::ActActIsda.to_string(), "ACT/ACT ISDA");
    assert_eq!("ACTACT-isda".parse::<Convention>(), Ok(Convention::ActActIsda));
}

#[test]
fn extreme_serials_are_invalid_dates() {
    assert_eq!(
        Date::from_serial(i64::MAX),
        Err(Error::InvalidDate(format!("serial {}", i64::MAX)))
    );
    assert_eq!(
        Date::from_serial(i64::MIN),
        Err(Error::InvalidDate(format!("serial {}", i64::MIN)))
    );
    let last = d("9999-12-31");
    assert_eq!(
        last.add_days(i64::MAX - last.serial()),
        Err(Error::InvalidDate(format!("serial {}", i64::MAX)))
    );
    assert!(last.add_days(1).is_err());
    assert_eq!(d("2020-02-28").add_days(1), Ok(d("2020-02-29")));
}

#[test]
fn differences_are_exact_at_the_ends_of_i64() {
    let min = Rational::integer(i64::MIN);
    assert_eq!(Rational::integer(-1).checked_sub(min), Ok(Rational::integer(i64::MAX)));
    assert_eq!(Rational::integer(0).checked_sub(min), Err(Error::Overflow));
    assert_eq!(
        Rational::new(1, 2).unwrap().checked_sub(min),
        Err(Error::Overflow)
    );
    assert_eq!(min.checked_sub(min), Ok(Rational::zero()));
}
