use vstd::prelude::*;

use crate::DateResolution;
use crate::TimeResolution;
use crate::calendar::Date;
use crate::calendar::civil_of_days;
use crate::calendar::civil_parts;
use crate::calendar::days_of_civil;
use crate::calendar::div_euclid_i64;
use crate::calendar::rem_euclid_i64;
use crate::month::Month;
use crate::year::Year;

verus! {

/// One calendar quarter; the index counts quarters from the first
/// quarter of year zero, so the index is four times the year plus the
/// quarter of the year counted from zero.
#[derive(Clone, Copy, Debug, PartialEq, Eq, PartialOrd, Ord, Hash, Structural)]
pub struct Quarter(i64);

impl TimeResolution for Quarter {
    closed spec fn index(&self) -> int {
        self.0 as int
    }

    closed spec fn mk(i: int) -> Self {
        Quarter(i as i64)
    }

    proof fn lemma_index_bounds(a: Self) {
    }

    proof fn lemma_mk_index(i: int) {
    }

    proof fn lemma_index_injective(a: Self, b: Self) {
    }

    fn to_monotonic(&self) -> i64 {
        self.0
    }

    fn from_monotonic(idx: i64) -> Self {
        Quarter(idx)
    }

    fn succ_n(&self, n: u32) -> Quarter {
        Quarter(self.0 + n as i64)
    }

    fn pred_n(&self, n: u32) -> Quarter {
        Quarter(self.0 - n as i64)
    }

    fn between(&self, other: Self) -> i64 {
        other.0 - self.0
    }
}

impl DateResolution for Quarter {
    open spec fn start_in_domain(&self) -> bool {
        -250_000 <= self.index() / 4 <= 250_000
    }

    open spec fn start_day(&self) -> int {
        day_number_of_civil_quarter(self.index())
    }

    open spec fn day_in_domain(day: int) -> bool {
        -90_000_000 <= day <= 90_000_000
    }

    closed spec fn period_of_day(day: int) -> Self {
        Quarter((4 * civil_of_days(day).0 + (civil_of_days(day).1 - 1) / 3) as i64)
    }

    fn start(&self) -> (r: Date) {
        let y = div_euclid_i64(self.0, 4);
        let q = rem_euclid_i64(self.0, 4);
        proof {
            vstd::arithmetic::div_mod::lemma_mod_bound(self.0 as int, 4);
        }
        let d = days_of_civil(y as i32, (3 * q + 1) as u32, 1);
        Date::from_days(d)
    }

    fn from_date(d: Date) -> (r: Self) {
        let (y, m, _dd) = civil_parts(d.days());
        Quarter(4 * (y as i64) + ((m - 1) / 3) as i64)
    }
}

/// The day number of the first day of the quarter with the given index.
pub open spec fn day_number_of_civil_quarter(idx: int) -> int {
    crate::calendar::day_number_of_civil(idx / 4, 3 * (idx % 4) + 1, 1)
}

impl Quarter {
    /// The first month of the quarter.
    pub fn first_month(&self) -> (r: Month)
        requires
            i64::MIN <= 3 * self.index() <= i64::MAX,
        ensures
            r.index() == 3 * self.index(),
    {
        Month::from_monotonic(3 * self.0)
    }

    /// The last month of the quarter.
    pub fn last_month(&self) -> (r: Month)
        requires
            i64::MIN <= 3 * self.index(),
            3 * self.index() + 2 <= i64::MAX,
        ensures
            r.index() == 3 * self.index() + 2,
    {
        Month::from_monotonic(3 * self.0 + 2)
    }

    /// The year holding this quarter.
    pub fn year(&self) -> (r: Year)
        ensures
            r.index() == self.index() / 4,
    {
        Year::from_monotonic(div_euclid_i64(self.0, 4))
    }

    /// The calendar year of this quarter as a number.
    pub fn year_num(&self) -> (r: i32)
        requires
            i32::MIN <= self.index() / 4 <= i32::MAX,
        ensures
            r as int == self.index() / 4,
    {
        div_euclid_i64(self.0, 4) as i32
    }

    /// The quarter of the year as a number, one through four.
    pub fn quarter_num(&self) -> (r: u32)
        ensures
            r as int == self.index() % 4 + 1,
    {
        proof {
            vstd::arithmetic::div_mod::lemma_mod_bound(self.0 as int, 4);
        }
        (rem_euclid_i64(self.0, 4) + 1) as u32
    }
}

} // verus!
