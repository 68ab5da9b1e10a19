use vstd::prelude::*;

use crate::DateResolution;
use crate::TimeResolution;
use crate::calendar::Date;
use crate::calendar::civil_of_days;
use crate::calendar::civil_parts;
use crate::calendar::days_of_civil;
use crate::month::Month;

verus! {

/// One calendar year; the index is the year itself.
#[derive(Clone, Copy, Debug, PartialEq, Eq, PartialOrd, Ord, Hash, Structural)]
pub struct Year(i64);

impl TimeResolution for Year {
    closed spec fn index(&self) -> int {
        self.0 as int
    }

    closed spec fn mk(i: int) -> Self {
        Year(i as i64)
    }

    proof fn lemma_index_bounds(a: Self) {
    }

    proof fn lemma_mk_index(i: int) {
    }

    proof fn lemma_index_injective(a: Self, b: Self) {
    }

    fn to_monotonic(&self) -> i64 {
        self.0
    }

    fn from_monotonic(idx: i64) -> Self {
        Year(idx)
    }

    fn succ_n(&self, n: u32) -> Year {
        Year(self.0 + n as i64)
    }

    fn pred_n(&self, n: u32) -> Year {
        Year(self.0 - n as i64)
    }

    fn between(&self, other: Self) -> i64 {
        other.0 - self.0
    }
}

impl DateResolution for Year {
    open spec fn start_in_domain(&self) -> bool {
        -250_000 <= self.index() <= 250_000
    }

    open spec fn start_day(&self) -> int {
        crate::calendar::day_number_of_civil(self.index(), 1, 1)
    }

    open spec fn day_in_domain(day: int) -> bool {
        -90_000_000 <= day <= 90_000_000
    }

    closed spec fn period_of_day(day: int) -> Self {
        Year(civil_of_days(day).0 as i64)
    }

    fn start(&self) -> (r: Date) {
        let d = days_of_civil(self.0 as i32, 1, 1);
        Date::from_days(d)
    }

    fn from_date(d: Date) -> (r: Self) {
        let (y, _m, _dd) = civil_parts(d.days());
        Year(y as i64)
    }
}

impl Year {
    /// The year with the given number.
    pub fn new(year: i32) -> (r: Self)
        ensures
            r.index() == year as int,
    {
        Year(year as i64)
    }

    /// The first month of the year.
    pub fn first_month(&self) -> (r: Month)
        requires
            i64::MIN <= 12 * self.index() <= i64::MAX,
        ensures
            r.index() == 12 * self.index(),
    {
        Month::from_monotonic(12 * self.0)
    }

    /// The first month of the first quarter of the year.
    pub fn first_quarter(&self) -> (r: Month)
        requires
            i64::MIN <= 12 * self.index() <= i64::MAX,
        ensures
            r.index() == 12 * self.index(),
    {
        Month::from_monotonic(12 * self.0)
    }

    /// The last month of the year.
    pub fn last_month(&self) -> (r: Month)
        requires
            i64::MIN <= 12 * self.index(),
            12 * self.index() + 11 <= i64::MAX,
        ensures
            r.index() == 12 * self.index() + 11,
    {
        Month::from_monotonic(12 * self.0 + 11)
    }

    /// The first month of the last quarter of the year.
    pub fn last_quarter(&self) -> (r: Month)
        requires
            i64::MIN <= 12 * self.index(),
            12 * self.index() + 11 <= i64::MAX,
        ensures
            r.index() == 12 * self.index() + 11,
    {
        Month::from_monotonic(12 * self.0 + 11)
    }

    /// The year as a number.
    pub fn year_num(&self) -> (r: i32)
        requires
            i32::MIN <= self.index() <= i32::MAX,
        ensures
            r as int == self.index(),
    {
        self.0 as i32
    }
}

} // verus!
