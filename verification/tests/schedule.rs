use stubfrac::{Date, Error, Piece, Schedule};

fn d(s: &str) -> Date {
    s.parse().unwrap()
}

#[test]
fn rejects_frequencies_that_do_not_divide_a_year() {
    for f in [0, 5, 7, 24] {
        assert_eq!(
            Schedule::new(f, d("2020-01-01"), false),
            Err(Error::InvalidFrequency(f))
        );
    }
}

#[test]
fn day_31_anchor_does_not_decay() {
    let s = Schedule::new(4, d("2021-08-31"), false).unwrap();
    assert_eq!(s.roll_date(-1), d("2021-05-31"));
    assert_eq!(s.roll_date(-2), d("2021-02-28"));
    assert_eq!(s.roll_date(-3), d("2020-11-30"));
    assert_eq!(s.roll_date(-4), d("2020-08-31"));
}

#[test]
fn end_of_month_flag_moves_feb_anchor_to_month_ends() {
    let plain = Schedule::new(2, d("2023-02-28"), false).unwrap();
    let eom = Schedule::new(2, d("2023-02-28"), true).unwrap();
    assert_eq!(plain.roll_date(1), d("2023-08-28"));
    assert_eq!(eom.roll_date(1), d("2023-08-31"));
    assert_eq!(eom.roll_date(2), d("2024-02-29"));
    // A mid-month anchor ignores the flag.
    let mid = Schedule::new(2, d("2023-02-15"), true).unwrap();
    assert!(!mid.rolls_on_month_end());
    assert_eq!(mid.roll_date(1), d("2023-08-15"));
}

#[test]
fn period_index_brackets_every_date() {
    let s = Schedule::new(2, d("2003-07-15"), false).unwrap();
    let mut date = d("1999-01-01");
    while date < d("2006-01-01") {
        let k = s.period_index(date);
        assert!(
            s.roll_date(k) <= date && date < s.roll_date(k + 1),
            "{}",
            date.to_string()
        );
        date = date.add_days(1).unwrap();
    }
}

#[test]
fn pieces_cover_the_accrual_exactly() {
    let s = Schedule::new(2, d("2003-07-15"), false).unwrap();
    let pieces: Vec<Piece> = s.pieces(d("2002-08-15"), d("2003-07-15")).collect();
    assert_eq!(pieces.len(), 2);
    assert_eq!(pieces[0].period_start, d("2002-07-15"));
    assert_eq!(pieces[0].period_end, d("2003-01-15"));
    assert_eq!((pieces[0].days(), pieces[0].period_days()), (153, 184));
    assert!(pieces[1].is_full_period());
    assert_eq!(s.pieces(d("2003-07-15"), d("2003-07-15")).count(), 0);
}
