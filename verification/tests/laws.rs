use std::cmp::Ordering;

use stubfrac::disagree::{check_terms, disagree, Scan, Window};
use stubfrac::{year_fraction, Context, Convention, Date, Rational, Schedule};

fn d(s: &str) -> Date {
    s.parse().unwrap()
}

fn r(n: i64, den: i64) -> Rational {
    Rational::new(n, den).unwrap()
}

fn value(c: Convention, start: &str, end: &str, ctx: &Context) -> Rational {
    year_fraction(c, d(start), d(end), ctx).unwrap().value
}

fn deal() -> Context {
    Context {
        frequency: Some(2),
        anchor: Some(d("2021-01-15")),
        end_of_month: false,
        termination: Some(d("2021-03-31")),
    }
}

#[test]
fn serial_and_from_serial_undo_each_other() {
    for s in ["0001-01-01", "1600-02-29", "1970-01-01", "2024-12-31", "9999-12-31"] {
        let date = d(s);
        assert_eq!(Date::from_serial(date.serial()), Ok(date));
    }
    assert_eq!(Date::from_serial(0).unwrap().to_string(), "1970-01-01");
}

#[test]
fn text_and_parse_undo_each_other() {
    for s in ["0001-01-01", "0099-10-09", "1600-02-29", "2024-12-31", "9999-12-31"] {
        let date = d(s);
        assert_eq!(date.to_string(), s);
        assert_eq!(date.to_string().parse::<Date>(), Ok(date));
    }
}

#[test]
fn additive_conventions_split_exactly() {
    let ctx = deal();
    for c in [
        Convention::Act360,
        Convention::Act365Fixed,
        Convention::NoLeap365,
        Convention::Thirty360European,
        Convention::ActActIsda,
        Convention::ActActIcma,
    ] {
        for (a, b, z) in [
            ("2019-12-15", "2020-02-29", "2021-03-31"),
            ("2020-01-31", "2020-01-31", "2020-03-31"),
            ("2023-05-31", "2024-02-29", "2024-02-29"),
            ("2019-03-31", "2020-12-31", "2024-08-31"),
        ] {
            let whole = value(c, a, z, &ctx);
            let parts = value(c, a, b, &ctx)
                .checked_add(value(c, b, z, &ctx))
                .unwrap();
            assert_eq!(whole, parts, "{} {a} {b} {z}", c.name());
        }
    }
}

#[test]
fn whole_reference_periods_are_n_over_f() {
    let ctx = deal();
    for c in [Convention::ActActIcma, Convention::Act365Canadian] {
        assert_eq!(value(c, "2020-07-15", "2021-01-15", &ctx), r(1, 2));
        assert_eq!(value(c, "2020-01-15", "2020-07-15", &ctx), r(1, 2));
        assert_eq!(value(c, "2019-01-15", "2021-01-15", &ctx), r(2, 1));
        assert_eq!(value(c, "2020-07-15", "2022-01-15", &ctx), r(3, 2));
    }
}

#[test]
fn pieces_chain_from_start_to_end() {
    let s = Schedule::new(4, d("2021-08-31"), true).unwrap();
    let (start, end) = (d("2020-10-10"), d("2021-10-01"));
    let pieces = s.pieces(start, end).collect();
    assert_eq!(pieces.len(), 5);
    assert_eq!(pieces[0].from, start);
    assert_eq!(pieces[pieces.len() - 1].to, end);
    for w in pieces.windows(2) {
        assert_eq!(w[0].to, w[1].from);
        assert_eq!(w[0].period_end, w[1].period_start);
    }
    for p in &pieces {
        assert!(p.period_start <= p.from && p.from < p.to && p.to <= p.period_end);
    }
}

#[test]
fn pieces_are_handed_out_one_at_a_time() {
    let s = Schedule::new(2, d("2003-07-15"), false).unwrap();
    let mut pieces = s.pieces(d("2002-08-15"), d("2003-07-15"));
    let first = pieces.next().unwrap();
    assert_eq!((first.from, first.to), (d("2002-08-15"), d("2003-01-15")));
    let second = pieces.next().unwrap();
    assert!(second.is_full_period());
    assert!(pieces.next().is_none());
    assert!(pieces.next().is_none());
}

#[test]
fn every_result_records_a_branch() {
    let ctx = deal();
    for &c in &Convention::ALL {
        for (a, b) in [
            ("2020-01-15", "2020-01-16"),
            ("2019-02-28", "2021-02-28"),
            ("2020-07-15", "2021-01-15"),
        ] {
            let y = year_fraction(c, d(a), d(b), &ctx).unwrap();
            assert!(!y.trace.is_empty(), "{} {a} {b}", c.name());
        }
    }
}

#[test]
fn a_convention_never_disagrees_with_itself() {
    let window = Window {
        from: d("2020-01-01"),
        to: d("2020-03-31"),
        max_days: None,
    };
    for &c in &Convention::ALL {
        let report = disagree(c, c, &deal(), window, 1).unwrap();
        assert_eq!(report.differing, 0, "{}", c.name());
        assert!(report.groups.is_empty());
        assert_eq!(report.pairs_checked, 90 * 91 / 2);
    }
}

#[test]
fn differing_pairs_are_the_sum_of_the_groups() {
    let window = Window {
        from: d("2020-01-01"),
        to: d("2020-12-31"),
        max_days: Some(70),
    };
    let report = disagree(
        Convention::Thirty360Us,
        Convention::Thirty360EuropeanIsda,
        &deal(),
        window,
        2,
    )
    .unwrap();
    assert!(report.groups.len() > 1);
    assert_eq!(
        report.differing,
        report.groups.iter().map(|g| g.count).sum::<u64>()
    );
    for w in report.groups.windows(2) {
        assert!(w[0].count >= w[1].count);
    }
}

#[test]
fn a_full_window_holds_every_pair() {
    let window = Window {
        from: d("2020-01-01"),
        to: d("2020-12-31"),
        max_days: None,
    };
    let report = disagree(
        Convention::Thirty360Bond,
        Convention::Thirty360European,
        &deal(),
        window,
        1,
    )
    .unwrap();
    assert_eq!(report.pairs_checked, 66795);
    assert_eq!(report.differing, 1334);
    let short = Window {
        max_days: Some(0),
        ..window
    };
    let none = disagree(Convention::Act360, Convention::Act365Fixed, &deal(), short, 1).unwrap();
    assert_eq!((none.pairs_checked, none.differing), (0, 0));
}

#[test]
fn scans_of_consecutive_ranges_merge_into_the_whole() {
    let ctx = deal();
    let window = Window {
        from: d("2020-06-01"),
        to: d("2020-12-31"),
        max_days: Some(45),
    };
    for (a, b) in [
        (Convention::Thirty360Us, Convention::ActActIcma),
        (Convention::Act365Fixed, Convention::NoLeap365),
    ] {
        let whole = disagree(a, b, &ctx, window, 1).unwrap();
        check_terms(a, b, &ctx, window).unwrap();
        let (from, to) = (window.from.serial(), window.to.serial());
        let (m1, m2) = (from + 50, from + 120);
        let merged = Scan::new(a, b, &ctx, window, from, m1)
            .merge(Scan::new(a, b, &ctx, window, m1, m2))
            .merge(Scan::new(a, b, &ctx, window, m2, to))
            .finish();
        assert_eq!(merged, whole);
        let grouped_later = Scan::new(a, b, &ctx, window, from, m1)
            .merge(Scan::new(a, b, &ctx, window, m1, m2).merge(Scan::new(a, b, &ctx, window, m2, to)))
            .finish();
        assert_eq!(grouped_later, whole);
        let in_one = Scan::new(a, b, &ctx, window, from, to).finish();
        assert_eq!(in_one, whole);
    }
}

#[test]
fn rationals_order_by_value() {
    assert_eq!(r(1, 3).cmp(&r(2, 6)), Ordering::Equal);
    assert_eq!(r(-1, 3).cmp(&r(1, 1000)), Ordering::Less);
    assert_eq!(r(7, 2).cmp(&r(3, 1)), Ordering::Greater);
    assert_eq!(r(1, 3).compare(&r(1, 2)), -1);
}

#[test]
fn stubs_inside_one_reference_period() {
    let ctx = deal();
    // Reference period 2020-07-15 -> 2021-01-15 has 184 days.
    assert_eq!(value(Convention::ActActIcma, "2020-09-01", "2021-01-15", &ctx), r(136, 368));
    assert_eq!(value(Convention::ActActIcma, "2020-07-15", "2020-08-15", &ctx), r(31, 368));
    // Canadian: fewer than 365/f days count over 365 ...
    assert_eq!(value(Convention::Act365Canadian, "2020-09-01", "2021-01-15", &ctx), r(136, 365));
    // ... and more count as 1/f less the missing days over 365.
    assert_eq!(
        value(Convention::Act365Canadian, "2020-07-15", "2021-01-14", &ctx),
        r(1, 2).checked_sub(r(1, 365)).unwrap()
    );
}

#[test]
fn afb_whole_calendar_years_are_integers() {
    let ctx = deal();
    for (a, b, n) in [
        ("2019-03-01", "2020-03-01", 1),
        ("2003-10-01", "2008-10-01", 5),
        ("2000-01-31", "2019-01-31", 19),
    ] {
        assert_eq!(value(Convention::ActActAfb, a, b, &ctx), Rational::integer(n));
    }
}

#[test]
fn periods_in_order_are_never_negative() {
    let ctx = deal();
    let days = [
        "2019-02-28", "2019-03-01", "2020-01-31", "2020-02-29", "2020-03-31", "2021-01-14",
        "2021-02-28",
    ];
    for &c in &Convention::ALL {
        for (i, a) in days.iter().enumerate() {
            for b in &days[i..] {
                let v = value(c, a, b, &ctx);
                assert!(v >= Rational::zero(), "{} {a} {b}", c.name());
            }
        }
    }
}

#[test]
fn act_act_isda_counts_each_day_in_its_own_year() {
    let ctx = deal();
    for (a, b) in [
        ("2003-11-01", "2004-05-01"),
        ("1999-12-31", "2001-01-01"),
        ("2020-02-29", "2020-02-29"),
        ("2019-06-30", "2024-03-01"),
    ] {
        let (mut leap, mut common) = (0i64, 0i64);
        let mut day = d(a);
        while day < d(b) {
            if stubfrac::is_leap_year(day.year()) {
                leap += 1;
            } else {
                common += 1;
            }
            day = day.add_days(1).unwrap();
        }
        let expected = r(common, 365).checked_add(r(leap, 366)).unwrap();
        assert_eq!(value(Convention::ActActIsda, a, b, &ctx), expected, "{a} {b}");
    }
    assert_eq!(value(Convention::ActActIsda, "2003-11-01", "2004-05-01", &ctx), r(66491, 133590));
}

#[test]
fn equal_values_have_one_form() {
    for (n, den) in [(2, 6), (-4, -12), (100, 300), (-3, 9)] {
        let x = r(n, den);
        let y = r(n * 7, den * 7);
        assert_eq!(x, y);
        assert_eq!(x.cmp(&y), Ordering::Equal);
        assert_eq!(x.compare(&y), 0);
    }
    assert_eq!((r(2, 6).numer(), r(2, 6).denom()), (1, 3));
    assert_eq!((r(-3, 9).numer(), r(-3, 9).denom()), (-1, 3));
    assert_ne!(r(1, 3), r(1, 4));
}

#[test]
fn ids_and_names_parse_back_in_any_case() {
    for &c in &Convention::ALL {
        assert_eq!(Convention::parse(c.id()), Ok(c));
        assert_eq!(Convention::parse(c.name()), Ok(c));
        assert_eq!(Convention::parse(&c.id().to_uppercase()), Ok(c));
        assert_eq!(Convention::parse(&c.name().to_lowercase()), Ok(c));
    }
}

#[test]
fn bond_basis_and_30e_differ_only_when_a_31st_ends_a_period_from_before_the_30th() {
    let ctx = deal();
    let days = [
        "2020-01-29", "2020-01-30", "2020-01-31", "2020-02-29", "2020-03-15", "2020-03-31",
        "2020-04-30", "2020-05-31",
    ];
    for (i, a) in days.iter().enumerate() {
        for b in &days[i..] {
            let bond = value(Convention::Thirty360Bond, a, b, &ctx);
            let euro = value(Convention::Thirty360European, a, b, &ctx);
            let expected = d(b).day() == 31 && d(a).day() < 30;
            assert_eq!(bond != euro, expected, "{a} {b}");
        }
    }
}
