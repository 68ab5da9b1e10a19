use vstd::prelude::*;

use crate::SubDateResolution;
use crate::TimeResolution;
use crate::calendar::Date;
use crate::calendar::SECS_PER_DAY;
use crate::calendar::UNIX_EPOCH_DAY;
use crate::calendar::div_euclid_i64;
use crate::calendar::div_trunc_i64;
use crate::calendar::trunc_div;

verus! {

/// A fixed-width bucket of `N` minutes; the index counts buckets from
/// the unix epoch.  A sensible width divides an hour evenly or is a
/// whole number of hours dividing a day evenly; any other width still
/// behaves as specified here, though its buckets straddle day
/// boundaries unhelpfully.
#[derive(Clone, Copy, Debug, PartialEq, Eq, PartialOrd, Ord, Hash)]
pub struct Minutes<const N: u32> {
    index: i64,
}

/// A bucket of one minute.
pub type Minute = Minutes<1>;

/// A bucket of five minutes.
pub type FiveMinute = Minutes<5>;

/// A bucket of thirty minutes.
pub type HalfHour = Minutes<30>;

/// A bucket of sixty minutes.
pub type Hour = Minutes<60>;

impl<const N: u32> TimeResolution for Minutes<N> {
    closed spec fn index(&self) -> int {
        self.index as int
    }

    closed spec fn mk(i: int) -> Self {
        Minutes { index: i as i64 }
    }

    proof fn lemma_index_bounds(a: Self) {
    }

    proof fn lemma_mk_index(i: int) {
    }

    proof fn lemma_index_injective(a: Self, b: Self) {
    }

    fn to_monotonic(&self) -> i64 {
        self.index
    }

    fn from_monotonic(idx: i64) -> Self {
        Minutes { index: idx }
    }

    fn succ_n(&self, n: u32) -> Minutes<N> {
        Minutes { index: self.index + n as i64 }
    }

    fn pred_n(&self, n: u32) -> Minutes<N> {
        Minutes { index: self.index - n as i64 }
    }

    fn between(&self, other: Self) -> i64 {
        other.index - self.index
    }
}

impl<const N: u32> SubDateResolution for Minutes<N> {
    open spec fn occurs_in_domain(&self) -> bool {
        N >= 1 && i64::MIN <= self.index() * 60 * (N as int) <= i64::MAX
    }

    open spec fn occurs_day(&self) -> int {
        self.index() * 60 * (N as int) / (SECS_PER_DAY as int) + UNIX_EPOCH_DAY as int
    }

    open spec fn day_in_domain(day: int) -> bool {
        N >= 1 && -100_000_000_000 <= day - UNIX_EPOCH_DAY as int <= 100_000_000_000
    }

    open spec fn first_index_on(day: int) -> int {
        trunc_div(SECS_PER_DAY as int * (day - UNIX_EPOCH_DAY as int), 60 * (N as int))
    }

    fn occurs_on_date(&self) -> (r: Date) {
        let secs = self.timestamp();
        let q = div_euclid_i64(secs, SECS_PER_DAY);
        proof {
            crate::calendar::lemma_div_bounds(secs as int, SECS_PER_DAY as int);
            vstd::arithmetic::div_mod::lemma_div_is_ordered(
                secs as int,
                i64::MAX as int,
                SECS_PER_DAY as int,
            );
            vstd::arithmetic::div_mod::lemma_div_is_ordered(
                i64::MIN as int,
                secs as int,
                SECS_PER_DAY as int,
            );
        }
        Date::from_days(q + UNIX_EPOCH_DAY)
    }

    fn first_on_day(day: Date) -> (r: Self) {
        let rel = day.days() - UNIX_EPOCH_DAY;
        let secs = SECS_PER_DAY * rel;
        let q = div_trunc_i64(secs, 60 * (N as i64));
        Minutes { index: q }
    }
}

impl<const N: u32> Minutes<N> {
    /// The first instant of the bucket, as unix seconds.
    pub fn timestamp(&self) -> (r: i64)
        requires
            self.occurs_in_domain(),
        ensures
            r as int == self.index() * 60 * (N as int),
    {
        proof {
            assert(i64::MIN <= self.index() * 60 <= i64::MAX) by (nonlinear_arith)
                requires
                    N >= 1,
                    i64::MIN <= self.index() * 60 * (N as int) <= i64::MAX,
                    i64::MIN <= self.index() <= i64::MAX,
            ;
            assert(i64::MIN <= (self.index() * 60) * (N as int) <= i64::MAX);
        }
        let a = self.index * 60;
        a * (N as i64)
    }

    /// The bucket containing a unix timestamp.
    pub fn from_timestamp(ts: i64) -> (r: Self)
        requires
            N >= 1,
        ensures
            r.index() == ts as int / (60 * (N as int)),
    {
        Minutes { index: div_euclid_i64(ts, 60 * (N as i64)) }
    }

    /// The interchange record of this bucket: its index and its width.
    pub fn record(&self) -> (r: Minutes_)
        ensures
            r.index as int == self.index(),
            r.length == N,
    {
        Minutes_ { index: self.index, length: N }
    }

    /// The bucket a record describes, when the record's width is this
    /// kind's width; nothing otherwise.
    pub fn from_record(rec: Minutes_) -> (r: Option<Self>)
        ensures
            r is Some <==> rec.length == N,
            r matches Some(m) ==> m.index() == rec.index as int,
    {
        if rec.length == N {
            Some(Minutes { index: rec.index })
        } else {
            None
        }
    }
}

/// The width-tagged record shape of a minute bucket, for interchange:
/// the bucket index plus the width in minutes that fixes its kind.
#[derive(Clone, Copy, Debug, PartialEq, Eq, Structural)]
pub struct Minutes_ {
    pub index: i64,
    pub length: u32,
}

} // verus!
