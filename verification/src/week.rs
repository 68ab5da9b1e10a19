use vstd::prelude::*;

use core::marker::PhantomData;

use crate::DateResolution;
use crate::TimeResolution;
use crate::calendar::Date;
use crate::calendar::day_number_of_civil;
use crate::calendar::days_of_civil;
use crate::calendar::div_euclid_i64;
use crate::sealed::Sealed;

verus! {

/// The day number of the base week's start for a week kind whose start
/// weekday lies `offset` days after Monday: the fourth of January 2021
/// was a Monday, so the base start date is that day plus the offset.
pub open spec fn week_base(offset: int) -> int {
    day_number_of_civil(2021, 1, 4 + offset)
}

/// The weekday a week kind starts on, named as a type.
pub trait StartDay: Sealed + Sized + Copy {
    /// Days from Monday to this weekday: zero for Monday through six
    /// for Sunday.
    spec fn offset_spec() -> int;

    /// The offset stays within one week.
    proof fn lemma_offset_range()
        ensures
            0 <= Self::offset_spec() <= 6,
    ;

    fn offset() -> (r: u32)
        ensures
            r as int == Self::offset_spec(),
            r <= 6,
    ;
}

#[derive(Clone, Copy, Debug, PartialEq, Eq, PartialOrd, Ord, Hash)]
pub struct Monday;

#[derive(Clone, Copy, Debug, PartialEq, Eq, PartialOrd, Ord, Hash)]
pub struct Tuesday;

#[derive(Clone, Copy, Debug, PartialEq, Eq, PartialOrd, Ord, Hash)]
pub struct Wednesday;

#[derive(Clone, Copy, Debug, PartialEq, Eq, PartialOrd, Ord, Hash)]
pub struct Thursday;

#[derive(Clone, Copy, Debug, PartialEq, Eq, PartialOrd, Ord, Hash)]
pub struct Friday;

#[derive(Clone, Copy, Debug, PartialEq, Eq, PartialOrd, Ord, Hash)]
pub struct Saturday;

#[derive(Clone, Copy, Debug, PartialEq, Eq, PartialOrd, Ord, Hash)]
pub struct Sunday;

impl Sealed for Monday {

}

impl Sealed for Tuesday {

}

impl Sealed for Wednesday {

}

impl Sealed for Thursday {

}

impl Sealed for Friday {

}

impl Sealed for Saturday {

}

impl Sealed for Sunday {

}

impl StartDay for Monday {
    closed spec fn offset_spec() -> int {
        0
    }

    proof fn lemma_offset_range() {
    }

    fn offset() -> u32 {
        0
    }
}

impl StartDay for Tuesday {
    closed spec fn offset_spec() -> int {
        1
    }

    proof fn lemma_offset_range() {
    }

    fn offset() -> u32 {
        1
    }
}

impl StartDay for Wednesday {
    closed spec fn offset_spec() -> int {
        2
    }

    proof fn lemma_offset_range() {
    }

    fn offset() -> u32 {
        2
    }
}

impl StartDay for Thursday {
    closed spec fn offset_spec() -> int {
        3
    }

    proof fn lemma_offset_range() {
    }

    fn offset() -> u32 {
        3
    }
}

impl StartDay for Friday {
    closed spec fn offset_spec() -> int {
        4
    }

    proof fn lemma_offset_range() {
    }

    fn offset() -> u32 {
        4
    }
}

impl StartDay for Saturday {
    closed spec fn offset_spec() -> int {
        5
    }

    proof fn lemma_offset_range() {
    }

    fn offset() -> u32 {
        5
    }
}

impl StartDay for Sunday {
    closed spec fn offset_spec() -> int {
        6
    }

    proof fn lemma_offset_range() {
    }

    fn offset() -> u32 {
        6
    }
}

/// One calendar week starting on the weekday `D`; the index counts
/// weeks from the base week of the start of 2021.
#[derive(Copy, Debug, PartialEq, Eq, PartialOrd, Ord, Hash)]
pub struct Week<D: StartDay> {
    n: i64,
    d: PhantomData<D>,
}

impl<D: StartDay> Clone for Week<D> {
    fn clone(&self) -> (r: Self)
        ensures
            r == *self,
    {
        *self
    }
}

impl<D: StartDay> TimeResolution for Week<D> {
    closed spec fn index(&self) -> int {
        self.n as int
    }

    closed spec fn mk(i: int) -> Self {
        Week { n: i as i64, d: PhantomData }
    }

    proof fn lemma_index_bounds(a: Self) {
    }

    proof fn lemma_mk_index(i: int) {
    }

    proof fn lemma_index_injective(a: Self, b: Self) {
    }

    fn to_monotonic(&self) -> i64 {
        self.n
    }

    fn from_monotonic(idx: i64) -> Self {
        Week { n: idx, d: PhantomData }
    }

    fn succ_n(&self, n: u32) -> Week<D> {
        Week { n: self.n + n as i64, d: PhantomData }
    }

    fn pred_n(&self, n: u32) -> Week<D> {
        Week { n: self.n - n as i64, d: PhantomData }
    }

    fn between(&self, other: Self) -> i64 {
        other.n - self.n
    }
}

impl<D: StartDay> DateResolution for Week<D> {
    open spec fn start_in_domain(&self) -> bool {
        -1_000_000_000_000_000_000 <= 7 * self.index() <= 1_000_000_000_000_000_000
    }

    open spec fn start_day(&self) -> int {
        week_base(D::offset_spec()) + 7 * self.index()
    }

    open spec fn day_in_domain(day: int) -> bool {
        -9_000_000_000_000_000_000 <= day <= 9_000_000_000_000_000_000
    }

    closed spec fn period_of_day(day: int) -> Self {
        Week { n: ((day - week_base(D::offset_spec())) / 7) as i64, d: PhantomData }
    }

    fn start(&self) -> (r: Date) {
        proof {
            D::lemma_offset_range();
        }
        let base = days_of_civil(2021, 1, 4 + D::offset());
        Date::from_days(base + 7 * self.n)
    }

    fn from_date(d: Date) -> (r: Self) {
        proof {
            D::lemma_offset_range();
        }
        let base = days_of_civil(2021, 1, 4 + D::offset());
        let q = div_euclid_i64(d.days() - base, 7);
        Week { n: q, d: PhantomData }
    }
}

} // verus!
