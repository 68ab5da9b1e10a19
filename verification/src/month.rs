use vstd::prelude::*;

use crate::DateResolution;
use crate::TimeResolution;
use crate::calendar::Date;
use crate::calendar::civil_of_days;
use crate::calendar::civil_parts;
use crate::calendar::days_of_civil;
use crate::calendar::div_euclid_i64;
use crate::calendar::rem_euclid_i64;
use crate::quarter::Quarter;
use crate::year::Year;

verus! {

/// One calendar month; the index counts months from the first month of
/// year zero, so the index is twelve times the year plus the month of
/// the year counted from zero.
#[derive(Clone, Copy, Debug, PartialEq, Eq, PartialOrd, Ord, Hash, Structural)]
pub struct Month(i64);

impl TimeResolution for Month {
    closed spec fn index(&self) -> int {
        self.0 as int
    }

    closed spec fn mk(i: int) -> Self {
        Month(i as i64)
    }

    proof fn lemma_index_bounds(a: Self) {
    }

    proof fn lemma_mk_index(i: int) {
    }

    proof fn lemma_index_injective(a: Self, b: Self) {
    }

    fn to_monotonic(&self) -> i64 {
        self.0
    }

    fn from_monotonic(idx: i64) -> Self {
        Month(idx)
    }

    fn succ_n(&self, n: u32) -> Month {
        Month(self.0 + n as i64)
    }

    fn pred_n(&self, n: u32) -> Month {
        Month(self.0 - n as i64)
    }

    fn between(&self, other: Self) -> i64 {
        other.0 - self.0
    }
}

impl DateResolution for Month {
    open spec fn start_in_domain(&self) -> bool {
        -250_000 <= self.index() / 12 <= 250_000
    }

    open spec fn start_day(&self) -> int {
        day_number_of_civil_month(self.index())
    }

    open spec fn day_in_domain(day: int) -> bool {
        -90_000_000 <= day <= 90_000_000
    }

    closed spec fn period_of_day(day: int) -> Self {
        Month((12 * civil_of_days(day).0 + civil_of_days(day).1 - 1) as i64)
    }

    fn start(&self) -> (r: Date) {
        let y = div_euclid_i64(self.0, 12);
        let m = rem_euclid_i64(self.0, 12);
        proof {
            vstd::arithmetic::div_mod::lemma_mod_bound(self.0 as int, 12);
        }
        let d = days_of_civil(y as i32, (m + 1) as u32, 1);
        Date::from_days(d)
    }

    fn from_date(d: Date) -> (r: Self) {
        let (y, m, _dd) = civil_parts(d.days());
        Month(12 * (y as i64) + (m as i64) - 1)
    }
}

/// The day number of the first day of the month with the given index.
pub open spec fn day_number_of_civil_month(idx: int) -> int {
    crate::calendar::day_number_of_civil(idx / 12, idx % 12 + 1, 1)
}

impl Month {
    /// The year holding this month.
    pub fn year(&self) -> (r: Year)
        ensures
            r.index() == self.index() / 12,
    {
        Year::from_monotonic(div_euclid_i64(self.0, 12))
    }

    /// The quarter holding this month.
    pub fn quarter(&self) -> (r: Quarter)
        ensures
            r.index() == self.index() / 3,
    {
        Quarter::from_monotonic(div_euclid_i64(self.0, 3))
    }

    /// The calendar year of this month as a number.
    pub fn year_num(&self) -> (r: i32)
        requires
            i32::MIN <= self.index() / 12 <= i32::MAX,
        ensures
            r as int == self.index() / 12,
    {
        div_euclid_i64(self.0, 12) as i32
    }

    /// The month of the year as a number, one through twelve.
    pub fn month_num(&self) -> (r: u32)
        ensures
            r as int == self.index() % 12 + 1,
    {
        proof {
            vstd::arithmetic::div_mod::lemma_mod_bound(self.0 as int, 12);
        }
        (rem_euclid_i64(self.0, 12) + 1) as u32
    }
}

} // verus!
