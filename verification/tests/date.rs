use stubfrac::{is_leap_year, Date};

#[test]
fn serial_round_trips_across_centuries() {
    let start = Date::new(1600, 1, 1).unwrap().serial();
    let end = Date::new(2400, 12, 31).unwrap().serial();
    let mut prev: Option<Date> = None;
    for s in start..=end {
        let d = Date::from_serial(s).unwrap();
        assert_eq!(d.serial(), s);
        if let Some(p) = prev {
            assert!(p < d);
        }
        prev = Some(d);
    }
}

#[test]
fn known_serials() {
    assert_eq!(Date::new(1970, 1, 1).unwrap().serial(), 0);
    assert_eq!(Date::new(2000, 3, 1).unwrap().serial(), 11017);
    assert_eq!(
        Date::new(2004, 1, 1)
            .unwrap()
            .days_until(Date::new(2004, 5, 1).unwrap()),
        121
    );
}

#[test]
fn leap_rules() {
    assert!(is_leap_year(2000));
    assert!(!is_leap_year(1900));
    assert!(is_leap_year(2024));
    assert!(!is_leap_year(2023));
    assert!(Date::new(2023, 2, 29).is_err());
    assert!(Date::new(2024, 2, 29).unwrap().is_last_day_of_february());
    assert!(!Date::new(2024, 2, 28).unwrap().is_last_day_of_february());
}

#[test]
fn parsing_rejects_malformed_input() {
    assert_eq!(
        "2003-07-15".parse::<Date>().unwrap(),
        Date::new(2003, 7, 15).unwrap()
    );
    for bad in [
        "2003-7-15",
        "2003-07-32",
        "20030715",
        "2003-13-01",
        "abcd-01-01",
        "0000-01-01",
        "+003-01-01",
    ] {
        assert!(bad.parse::<Date>().is_err(), "{bad} should be rejected");
    }
}
