use time_resolution::Date;
use time_resolution::DateResolution;
use time_resolution::Day;
use time_resolution::Hour;
use time_resolution::IndexSet;
use time_resolution::Month;
use time_resolution::PeriodSet;
use time_resolution::TimeRange;
use time_resolution::TimeRangeComparison;
use time_resolution::TimeResolution;
use time_resolution::Year;
use time_resolution::rescale;
use time_resolution::to_sub_date_resolution;

fn date_of(y: i32, m: u32, d: u32) -> Date {
    let base = chrono::NaiveDate::from_ymd_opt(0, 1, 1).unwrap();
    let dt = chrono::NaiveDate::from_ymd_opt(y, m, d).unwrap();
    Date::from_days(dt.signed_duration_since(base).num_days())
}

fn day_range(start: i64, len: u32) -> TimeRange<Day> {
    TimeRange::new(Day::from_monotonic(start), len)
}

#[test]
fn construction() {
    assert!(TimeRange::maybe_new(Day::from_monotonic(3), 0).is_none());
    let r = TimeRange::maybe_new(Day::from_monotonic(3), 4).unwrap();
    assert_eq!(r.start().to_monotonic(), 3);
    assert_eq!(r.len(), 4);
    assert_eq!(r.end().to_monotonic(), 6);

    let r = TimeRange::from_start_end(Day::from_monotonic(2), Day::from_monotonic(2)).unwrap();
    assert_eq!(r.len(), 1);
    assert!(TimeRange::from_start_end(Day::from_monotonic(3), Day::from_monotonic(2)).is_none());
}

#[test]
fn range_length_contract() {
    let r = day_range(5, 4);
    let mut it = r.iter();
    let mut seen: Vec<Day> = Vec::new();
    while let Some(p) = it.next() {
        seen.push(p);
    }
    assert_eq!(seen.len() as u32, r.len());
    assert_eq!(*seen.last().unwrap(), r.end());
    assert_eq!(seen[0], r.start());

    let s = r.set();
    assert_eq!(s.len() as u32, r.len());
    let idx = r.to_indexes();
    assert_eq!(idx.len() as u32, r.len());
    assert_eq!(idx.at(3), 8);
}

#[test]
fn contains_and_index_of() {
    let r = day_range(10, 3);
    assert!(r.contains(Day::from_monotonic(10)));
    assert!(r.contains(Day::from_monotonic(12)));
    assert!(!r.contains(Day::from_monotonic(13)));
    assert!(!r.contains(Day::from_monotonic(9)));
    assert_eq!(r.index_of(Day::from_monotonic(11)), Some(1));
    assert_eq!(r.index_of(Day::from_monotonic(14)), None);
}

#[test]
fn intersect_union() {
    let a = day_range(0, 10);
    let b = day_range(5, 10);
    let i = a.intersect(&b).unwrap();
    assert_eq!(i.start().to_monotonic(), 5);
    assert_eq!(i.end().to_monotonic(), 9);
    let u = a.union(&b).unwrap();
    assert_eq!(u.start().to_monotonic(), 0);
    assert_eq!(u.end().to_monotonic(), 14);

    let c = day_range(20, 2);
    assert!(a.intersect(&c).is_none());
    assert!(a.union(&c).is_none());
}

#[test]
fn subtract_compare_consistency() {
    let a = day_range(0, 10);
    let b = day_range(3, 3);
    let (l, r) = a.subtract(&b);
    let l = l.unwrap();
    let r = r.unwrap();
    assert_eq!(l.start().to_monotonic(), 0);
    assert_eq!(l.end().to_monotonic(), 2);
    assert_eq!(r.start().to_monotonic(), 6);
    assert_eq!(r.end().to_monotonic(), 9);
    assert_eq!(a.compare(&b), TimeRangeComparison::Superset);
    assert_eq!(b.compare(&a), TimeRangeComparison::Subset);

    let early = day_range(0, 5);
    let late = day_range(3, 7);
    let (l, r) = early.subtract(&late);
    assert_eq!(l.unwrap().end().to_monotonic(), 2);
    assert!(r.is_none());
    assert_eq!(early.compare(&late), TimeRangeComparison::Earlier);
    assert_eq!(late.compare(&early), TimeRangeComparison::Later);

    let same = day_range(0, 5);
    let (l, r) = same.subtract(&same);
    assert!(l.is_none());
    assert!(r.is_none());
    assert_eq!(same.compare(&same), TimeRangeComparison::Subset);
}

#[test]
fn coalesce_correctness() {
    let mut set = IndexSet::new();
    for x in [1_i64, 2, 3, 7, 8, 10] {
        set.insert(x);
    }
    let ranges: Vec<TimeRange<Day>> = TimeRange::from_map(&set).unwrap();
    assert_eq!(ranges.len(), 3);
    assert_eq!(ranges[0].start().to_monotonic(), 1);
    assert_eq!(ranges[0].end().to_monotonic(), 3);
    assert_eq!(ranges[1].start().to_monotonic(), 7);
    assert_eq!(ranges[1].end().to_monotonic(), 8);
    assert_eq!(ranges[2].start().to_monotonic(), 10);
    assert_eq!(ranges[2].end().to_monotonic(), 10);

    let empty = IndexSet::new();
    assert!(TimeRange::<Day>::from_map(&empty).is_none());

    let mut single = IndexSet::new();
    single.insert(-4);
    let ranges: Vec<TimeRange<Day>> = TimeRange::from_map(&single).unwrap();
    assert_eq!(ranges.len(), 1);
    assert_eq!(ranges[0].len(), 1);
    assert_eq!(ranges[0].start().to_monotonic(), -4);
}

#[test]
fn coalesce_inserts_unordered() {
    let mut set = IndexSet::new();
    for x in [9_i64, 2, 7, 3, 3, 8, 1, 10] {
        set.insert(x);
    }
    let ranges: Vec<TimeRange<Day>> = TimeRange::from_map(&set).unwrap();
    assert_eq!(ranges.len(), 2);
    assert_eq!(ranges[0].start().to_monotonic(), 1);
    assert_eq!(ranges[0].end().to_monotonic(), 3);
    assert_eq!(ranges[1].start().to_monotonic(), 7);
    assert_eq!(ranges[1].end().to_monotonic(), 10);
}

#[test]
fn from_set_contiguous() {
    let r = day_range(4, 3);
    let s = r.set();
    let back = TimeRange::from_set(&s).unwrap();
    assert_eq!(back.start().to_monotonic(), 4);
    assert_eq!(back.len(), 3);
    let empty: PeriodSet<Day> = PeriodSet::new();
    assert!(TimeRange::from_set(&empty).is_none());
}

#[test]
fn period_set_membership() {
    let mut s: PeriodSet<Day> = PeriodSet::new();
    assert!(s.is_empty());
    s.insert(Day::from_monotonic(5));
    s.insert(Day::from_monotonic(2));
    s.insert(Day::from_monotonic(5));
    assert_eq!(s.len(), 2);
    assert!(s.contains(Day::from_monotonic(2)));
    assert!(!s.contains(Day::from_monotonic(3)));
    assert_eq!(s.at(0).to_monotonic(), 2);
    assert_eq!(s.at(1).to_monotonic(), 5);

    let mut t: PeriodSet<Day> = PeriodSet::new();
    t.insert(Day::from_monotonic(2));
    assert!(s.is_superset(&t));
    assert!(!t.is_superset(&s));
}

#[test]
fn day_to_hours() {
    let d = Day::from_date(date_of(2021, 1, 1));
    let hours: TimeRange<Hour> = to_sub_date_resolution(&d).unwrap();
    assert_eq!(hours.len(), 24);
    assert_eq!(
        hours.start().timestamp(),
        chrono::NaiveDate::from_ymd_opt(2021, 1, 1)
            .unwrap()
            .and_hms_opt(0, 0, 0)
            .unwrap()
            .and_utc()
            .timestamp()
    );
    assert_eq!(
        hours.end().timestamp(),
        chrono::NaiveDate::from_ymd_opt(2021, 1, 1)
            .unwrap()
            .and_hms_opt(23, 0, 0)
            .unwrap()
            .and_utc()
            .timestamp()
    );
}

#[test]
fn year_to_months() {
    let y = Year::new(2021);
    let months: TimeRange<Month> = rescale(&y).unwrap();
    assert_eq!(months.len(), 12);
    assert_eq!(months.start(), Month::from_date(date_of(2021, 1, 1)));
    assert_eq!(months.end(), Month::from_date(date_of(2021, 12, 1)));
}

#[test]
fn day_range_to_hours() {
    let r: TimeRange<Day> = TimeRange::new(Day::from_date(date_of(2021, 1, 1)), 2);
    let hours: TimeRange<Hour> = r.to_sub_date_resolution().unwrap();
    assert_eq!(hours.len(), 48);
    assert_eq!(
        hours.end().timestamp(),
        chrono::NaiveDate::from_ymd_opt(2021, 1, 2)
            .unwrap()
            .and_hms_opt(23, 0, 0)
            .unwrap()
            .and_utc()
            .timestamp()
    );
}
