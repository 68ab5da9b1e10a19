use time_resolution::Date;
use time_resolution::DateResolution;
use time_resolution::Day;
use time_resolution::Minutes;
use time_resolution::Month;
use time_resolution::Quarter;
use time_resolution::SubDateResolution;
use time_resolution::TimeResolution;
use time_resolution::Week;
use time_resolution::Year;
use time_resolution::Monday;
use time_resolution::period_end_date;
use time_resolution::period_num_days;

fn date_of(y: i32, m: u32, d: u32) -> Date {
    let base = chrono::NaiveDate::from_ymd_opt(0, 1, 1).unwrap();
    let dt = chrono::NaiveDate::from_ymd_opt(y, m, d).unwrap();
    Date::from_days(dt.signed_duration_since(base).num_days())
}

fn unix_of(y: i32, m: u32, d: u32, h: u32, mi: u32, s: u32) -> i64 {
    chrono::NaiveDate::from_ymd_opt(y, m, d)
        .unwrap()
        .and_hms_opt(h, mi, s)
        .unwrap()
        .and_utc()
        .timestamp()
}

#[test]
fn day_test_roundtrip() {
    let dt = date_of(2021, 12, 6);
    let wk = Day::from_date(dt);
    assert!(wk.start() <= dt && period_end_date(&wk) >= dt);
}

#[test]
fn day_test_start() {
    assert_eq!(Day::from_monotonic(2).start(), date_of(0, 1, 3));
    assert_eq!(Day::from_monotonic(1).start(), date_of(0, 1, 2));
    assert_eq!(Day::from_monotonic(0).start(), date_of(0, 1, 1));
    assert_eq!(Day::from_monotonic(-1).start(), date_of(-1, 12, 31));
    assert_eq!(Day::from_monotonic(-2).start(), date_of(-1, 12, 30));
}

#[test]
fn day_civil_parts() {
    let d = Day::from_date(date_of(2021, 12, 6));
    assert_eq!(d.year_num(), 2021);
    assert_eq!(d.month_num(), 12);
    assert_eq!(d.year(), Year::new(2021));
    assert_eq!(d.month().month_num(), 12);
    assert_eq!(d.month().year_num(), 2021);
    assert_eq!(d.quarter().quarter_num(), 4);
    assert_eq!(d.quarter().year_num(), 2021);
    let w: Week<Monday> = d.week();
    assert_eq!(w.start(), date_of(2021, 12, 6));
}

#[test]
fn minutes_test_roundtrip() {
    let dt = date_of(2021, 12, 6);
    let tm = unix_of(2021, 12, 6, 0, 0, 0);

    let min = Minutes::<1>::from_timestamp(tm);
    assert!(min.occurs_on_date() == dt);
    assert!(min.timestamp() == tm);

    let min = Minutes::<2>::from_timestamp(tm);
    assert!(min.occurs_on_date() == dt);
    assert!(min.timestamp() == tm);

    let min = Minutes::<3>::from_timestamp(tm);
    assert!(min.occurs_on_date() == dt);
    assert!(min.timestamp() == tm);

    let min = Minutes::<4>::from_timestamp(tm);
    assert!(min.occurs_on_date() == dt);
    assert!(min.timestamp() == tm);

    let min = Minutes::<5>::from_timestamp(tm);
    assert!(min.occurs_on_date() == dt);
    assert!(min.timestamp() == tm);
}

#[test]
fn test_into() {
    assert_eq!(
        Minutes::<2>::from_timestamp(unix_of(2021, 1, 1, 10, 2, 0)),
        Minutes::<2>::from_timestamp(unix_of(2021, 1, 1, 10, 3, 59)),
    );
}

#[test]
fn minutes_day_edges() {
    let d = date_of(2021, 1, 1);
    let first = Minutes::<60>::first_on_day(d);
    assert_eq!(first.timestamp(), unix_of(2021, 1, 1, 0, 0, 0));
    let last = Minutes::<60>::last_on_day(d);
    assert_eq!(last.timestamp(), unix_of(2021, 1, 1, 23, 0, 0));
    assert_eq!(last.occurs_on_date(), d);
    assert_eq!(last.succ().occurs_on_date(), date_of(2021, 1, 2));
}

#[test]
fn minutes_record_roundtrip() {
    let m = Minutes::<5>::from_monotonic(42);
    let rec = m.record();
    assert_eq!(rec.index, 42);
    assert_eq!(rec.length, 5);
    assert_eq!(Minutes::<5>::from_record(rec), Some(m));
    assert_eq!(Minutes::<1>::from_record(rec), None);
}

#[test]
fn month_test_roundtrip() {
    let dt = date_of(2021, 12, 6);
    let wk = Month::from_date(dt);
    assert!(wk.start() <= dt && period_end_date(&wk) >= dt);

    let dt = date_of(2019, 7, 1);
    let m2 = Month::from_date(dt);
    assert!(m2.start() == dt);
}

#[test]
fn month_test_start() {
    assert_eq!(Month::from_monotonic(24240).start(), date_of(2020, 1, 1));
    assert_eq!(Month::from_monotonic(24249).start(), date_of(2020, 10, 1));
    assert_eq!(Month::from_monotonic(15).start(), date_of(1, 4, 1));
    assert_eq!(Month::from_monotonic(2).start(), date_of(0, 3, 1));
    assert_eq!(Month::from_monotonic(1).start(), date_of(0, 2, 1));
    assert_eq!(Month::from_monotonic(0).start(), date_of(0, 1, 1));
    assert_eq!(Month::from_monotonic(-1).start(), date_of(-1, 12, 1));
    assert_eq!(Month::from_monotonic(-2).start(), date_of(-1, 11, 1));
    assert_eq!(Month::from_monotonic(-15).start(), date_of(-2, 10, 1));
}

#[test]
fn month_conversions() {
    let m = Month::from_date(date_of(2021, 11, 5));
    assert_eq!(m.month_num(), 11);
    assert_eq!(m.year_num(), 2021);
    assert_eq!(m.year(), Year::new(2021));
    assert_eq!(m.quarter().quarter_num(), 4);
}

#[test]
fn quarter_test_roundtrip() {
    let dt = date_of(2021, 12, 6);
    let wk = Quarter::from_date(dt);
    assert!(wk.start() <= dt && period_end_date(&wk) >= dt);
}

#[test]
fn quarter_test_start() {
    assert_eq!(Quarter::from_monotonic(2).start(), date_of(0, 7, 1));
    assert_eq!(Quarter::from_monotonic(1).start(), date_of(0, 4, 1));
    assert_eq!(Quarter::from_monotonic(0).start(), date_of(0, 1, 1));
    assert_eq!(Quarter::from_monotonic(-1).start(), date_of(-1, 10, 1));
    assert_eq!(Quarter::from_monotonic(-2).start(), date_of(-1, 7, 1));
}

#[test]
fn quarter_months() {
    let q = Quarter::from_date(date_of(2021, 5, 20));
    assert_eq!(q.quarter_num(), 2);
    assert_eq!(q.first_month(), Month::from_date(date_of(2021, 4, 1)));
    assert_eq!(q.last_month(), Month::from_date(date_of(2021, 6, 1)));
    assert_eq!(q.year(), Year::new(2021));
}

#[test]
fn year_test_roundtrip() {
    let dt = date_of(2021, 12, 6);
    let wk = Year::from_date(dt);
    assert!(wk.start() <= dt && period_end_date(&wk) >= dt);
}

#[test]
fn year_months() {
    let y = Year::new(2021);
    assert_eq!(y.year_num(), 2021);
    assert_eq!(y.first_month(), Month::from_date(date_of(2021, 1, 1)));
    assert_eq!(y.last_month(), Month::from_date(date_of(2021, 12, 1)));
    assert_eq!(y.first_quarter(), y.first_month());
    assert_eq!(y.last_quarter(), y.last_month());
}

#[test]
fn week_start_and_back() {
    let w: Week<Monday> = Week::from_date(date_of(2021, 12, 6));
    assert_eq!(w.start(), date_of(2021, 12, 6));
    assert_eq!(w.succ().start(), date_of(2021, 12, 13));
    assert_eq!(w.succ().pred().start(), date_of(2021, 12, 6));
    let mid: Week<Monday> = Week::from_date(date_of(2021, 12, 9));
    assert_eq!(mid, w);
}

#[test]
fn num_days_of_periods() {
    assert_eq!(period_num_days(&Month::from_date(date_of(2020, 2, 1))), 29);
    assert_eq!(period_num_days(&Month::from_date(date_of(2021, 2, 1))), 28);
    assert_eq!(period_num_days(&Year::new(2021)), 365);
    assert_eq!(period_num_days(&Year::new(2020)), 366);
    assert_eq!(period_num_days(&Day::from_date(date_of(2021, 6, 6))), 1);
}

#[test]
fn bijective_round_trip() {
    for i in [-5_i64, -1, 0, 1, 7, 1_000_000] {
        assert_eq!(Day::from_monotonic(i).to_monotonic(), i);
        assert_eq!(Month::from_monotonic(i).to_monotonic(), i);
        assert_eq!(Quarter::from_monotonic(i).to_monotonic(), i);
        assert_eq!(Year::from_monotonic(i).to_monotonic(), i);
        assert_eq!(Week::<Monday>::from_monotonic(i).to_monotonic(), i);
        assert_eq!(Minutes::<5>::from_monotonic(i).to_monotonic(), i);
    }
}

#[test]
fn step_inverses() {
    let d = Day::from_monotonic(100);
    assert_eq!(d.succ_n(17).pred_n(17), d);
    assert_eq!(d.succ().pred(), d);
    let m = Minutes::<30>::from_monotonic(-44);
    assert_eq!(m.succ_n(0).pred_n(0), m);
    assert_eq!(m.succ_n(3).pred_n(3), m);
    assert_eq!(d.between(d.succ_n(9)), 9);
    assert_eq!(d.succ_n(9).between(d), -9);
    assert_eq!(d.between(d), 0);
}
