use vstd::prelude::*;

use crate::DateResolution;
use crate::TimeResolution;
use crate::calendar::Date;
use crate::calendar::civil_of_days;
use crate::calendar::civil_parts;
use crate::month::Month;
use crate::quarter::Quarter;
use crate::week::StartDay;
use crate::week::Week;
use crate::week::week_base;
use crate::year::Year;

verus! {

/// One calendar day; the index counts days from the calendar origin,
/// the first day of year zero.
#[derive(Clone, Copy, Debug, PartialEq, Eq, PartialOrd, Ord, Hash, Structural)]
pub struct Day(i64);

impl TimeResolution for Day {
    closed spec fn index(&self) -> int {
        self.0 as int
    }

    closed spec fn mk(i: int) -> Self {
        Day(i as i64)
    }

    proof fn lemma_index_bounds(a: Self) {
    }

    proof fn lemma_mk_index(i: int) {
    }

    proof fn lemma_index_injective(a: Self, b: Self) {
    }

    fn to_monotonic(&self) -> i64 {
        self.0
    }

    fn from_monotonic(idx: i64) -> Self {
        Day(idx)
    }

    fn succ_n(&self, n: u32) -> Day {
        Day(self.0 + n as i64)
    }

    fn pred_n(&self, n: u32) -> Day {
        Day(self.0 - n as i64)
    }

    fn between(&self, other: Self) -> i64 {
        other.0 - self.0
    }
}

impl DateResolution for Day {
    open spec fn start_in_domain(&self) -> bool {
        true
    }

    closed spec fn start_day(&self) -> int {
        self.0 as int
    }

    open spec fn day_in_domain(day: int) -> bool {
        true
    }

    closed spec fn period_of_day(day: int) -> Self {
        Day(day as i64)
    }

    fn start(&self) -> Date {
        Date::from_days(self.0)
    }

    fn from_date(d: Date) -> Self {
        Day(d.days())
    }
}

impl Day {
    /// The year whose calendar holds this day.
    pub fn year(&self) -> (r: Year)
        requires
            -90_000_000 <= self.index() <= 90_000_000,
        ensures
            r.index() == civil_of_days(self.index()).0,
    {
        let (y, _m, _d) = civil_parts(self.0);
        Year::from_monotonic(y as i64)
    }

    /// The quarter whose calendar holds this day.
    pub fn quarter(&self) -> (r: Quarter)
        requires
            -90_000_000 <= self.index() <= 90_000_000,
        ensures
            r.index() == 4 * civil_of_days(self.index()).0 + (civil_of_days(self.index()).1 - 1)
                / 3,
    {
        let (y, m, _d) = civil_parts(self.0);
        Quarter::from_monotonic(4 * (y as i64) + ((m - 1) / 3) as i64)
    }

    /// The month whose calendar holds this day.
    pub fn month(&self) -> (r: Month)
        requires
            -90_000_000 <= self.index() <= 90_000_000,
        ensures
            r.index() == 12 * civil_of_days(self.index()).0 + civil_of_days(self.index()).1 - 1,
    {
        let (y, m, _d) = civil_parts(self.0);
        Month::from_monotonic(12 * (y as i64) + (m as i64) - 1)
    }

    /// The week, of the kind starting on `D`, that holds this day.
    pub fn week<D: StartDay>(&self) -> (r: Week<D>)
        requires
            -9_000_000_000_000_000_000 <= self.index() <= 9_000_000_000_000_000_000,
        ensures
            r.index() == (self.index() - week_base(D::offset_spec())) / 7,
    {
        proof {
            D::lemma_offset_range();
        }
        let base = crate::calendar::days_of_civil(2021, 1, 4 + D::offset());
        let q = crate::calendar::div_euclid_i64(self.0 - base, 7);
        Week::<D>::from_monotonic(q)
    }

    /// The calendar year of this day as a number.
    pub fn year_num(&self) -> (r: i32)
        requires
            -90_000_000 <= self.index() <= 90_000_000,
        ensures
            r as int == civil_of_days(self.index()).0,
    {
        let (y, _m, _d) = civil_parts(self.0);
        y
    }

    /// The calendar month of this day as a number, one through twelve.
    pub fn month_num(&self) -> (r: u32)
        requires
            -90_000_000 <= self.index() <= 90_000_000,
        ensures
            r as int == civil_of_days(self.index()).1,
    {
        let (_y, m, _d) = civil_parts(self.0);
        m
    }
}

} // verus!
