use vstd::prelude::*;

pub mod cache;
pub mod calendar;
mod containers;
mod day;
mod minutes;
mod month;
mod period_map;
mod quarter;
pub mod range;
mod sealed;
mod week;
mod year;

pub use cache::Cache;
pub use cache::CacheResponse;
pub use calendar::Date;
pub use containers::IndexSet;
pub use containers::PeriodSet;
pub use containers::sorted_strict;
pub use day::Day;
pub use minutes::FiveMinute;
pub use minutes::HalfHour;
pub use minutes::Hour;
pub use minutes::Minute;
pub use minutes::Minutes;
pub use minutes::Minutes_;
pub use month::Month;
pub use period_map::PeriodMap;
pub use quarter::Quarter;
pub use range::TimeRange;
pub use range::TimeRangeComparison;
pub use week::Friday;
pub use week::Monday;
pub use week::Saturday;
pub use week::StartDay;
pub use week::Sunday;
pub use week::Thursday;
pub use week::Tuesday;
pub use week::Wednesday;
pub use week::Week;
pub use year::Year;

verus! {

/// The capability every period kind exposes: a value of the kind stands for
/// one discrete unit of calendar time, addressed by a monotonically
/// increasing signed 64-bit index.  All range and cache algebra in this
/// crate is built on this contract alone, so it holds for any period kind.
pub trait TimeResolution: Sized + Copy {
    /// The monotonic index of this period, as a mathematical integer.
    spec fn index(&self) -> int;

    /// The period of this kind with the given index.
    spec fn mk(i: int) -> Self;

    /// Every period's index is representable as an `i64`.
    proof fn lemma_index_bounds(a: Self)
        ensures
            i64::MIN <= a.index() <= i64::MAX,
    ;

    /// `mk` yields a period with exactly the requested index.
    proof fn lemma_mk_index(i: int)
        requires
            i64::MIN <= i <= i64::MAX,
        ensures
            Self::mk(i).index() == i,
    ;

    /// The index determines the period: two periods with equal indexes are
    /// the same period.  Together with `lemma_mk_index` and the contracts of
    /// `to_monotonic` and `from_monotonic`, this makes the index round trip
    /// a bijection over the representable range.
    proof fn lemma_index_injective(a: Self, b: Self)
        requires
            a.index() == b.index(),
        ensures
            a == b,
    ;

    fn to_monotonic(&self) -> (r: i64)
        ensures
            r as int == self.index(),
    ;

    fn from_monotonic(idx: i64) -> (r: Self)
        ensures
            r == Self::mk(idx as int),
            r.index() == idx as int,
    ;

    /// Step forward by exactly `n` periods.
    fn succ_n(&self, n: u32) -> (r: Self)
        requires
            self.index() + n <= i64::MAX,
        ensures
            r.index() == self.index() + n,
    ;

    /// Step back by exactly `n` periods.
    fn pred_n(&self, n: u32) -> (r: Self)
        requires
            self.index() - n >= i64::MIN,
        ensures
            r.index() == self.index() - n,
    ;

    /// Signed distance from `self` to `other`: negative if `other` precedes
    /// `self`, zero on the same period.
    fn between(&self, other: Self) -> (r: i64)
        requires
            i64::MIN <= other.index() - self.index() <= i64::MAX,
        ensures
            r as int == other.index() - self.index(),
    ;

    fn succ(&self) -> (r: Self)
        requires
            self.index() + 1 <= i64::MAX,
        ensures
            r.index() == self.index() + 1,
    {
        self.succ_n(1)
    }

    fn pred(&self) -> (r: Self)
        requires
            self.index() - 1 >= i64::MIN,
        ensures
            r.index() == self.index() - 1,
    {
        self.pred_n(1)
    }
}

/// The refinement for period kinds one calendar day or longer: each
/// period begins on a calendar day.
pub trait DateResolution: TimeResolution {
    /// Whether this period's start lies within the calendar span the
    /// kind can convert.
    spec fn start_in_domain(&self) -> bool;

    /// The day number of the first calendar day of the period.
    spec fn start_day(&self) -> int;

    /// Which day numbers the kind can place into a period.
    spec fn day_in_domain(day: int) -> bool;

    /// The period containing the day with the given day number.
    spec fn period_of_day(day: int) -> Self;

    /// The first calendar day of the period.
    fn start(&self) -> (r: Date)
        requires
            self.start_in_domain(),
        ensures
            r.day_number() == self.start_day(),
    ;

    /// The period containing a calendar date.
    fn from_date(d: Date) -> (r: Self)
        requires
            Self::day_in_domain(d.day_number()),
        ensures
            r == Self::period_of_day(d.day_number()),
    ;
}

/// The refinement for period kinds shorter than a day: each period
/// occurs on one calendar day.
pub trait SubDateResolution: TimeResolution {
    /// Whether this period lies within the span the kind can convert.
    spec fn occurs_in_domain(&self) -> bool;

    /// The day number of the calendar day this period occurs on.
    spec fn occurs_day(&self) -> int;

    /// Which day numbers the kind can convert.
    spec fn day_in_domain(day: int) -> bool;

    /// The index of the first period of this kind on a given day.
    spec fn first_index_on(day: int) -> int;

    /// The calendar day this period occurs on.
    fn occurs_on_date(&self) -> (r: Date)
        requires
            self.occurs_in_domain(),
        ensures
            r.day_number() == self.occurs_day(),
    ;

    /// The first period of this kind occurring on the given day.
    fn first_on_day(day: Date) -> (r: Self)
        requires
            Self::day_in_domain(day.day_number()),
        ensures
            r.index() == Self::first_index_on(day.day_number()),
    ;

    /// The last period of this kind occurring on the given day: the one
    /// just before the first period of the following day.
    fn last_on_day(day: Date) -> (r: Self)
        requires
            day.day_number() < i64::MAX,
            Self::day_in_domain(day.day_number() + 1),
            Self::first_index_on(day.day_number() + 1) - 1 >= i64::MIN,
        ensures
            r.index() == Self::first_index_on(day.day_number() + 1) - 1,
    {
        let next = day.next_day();
        let f = Self::first_on_day(next);
        f.pred()
    }
}

/// The last calendar day of a period: the day before the next period
/// of the same kind starts.
pub fn period_end_date<P: DateResolution>(p: &P) -> (r: Date)
    requires
        p.index() + 1 <= i64::MAX,
        P::mk(p.index() + 1).start_in_domain(),
        P::mk(p.index() + 1).start_day() > i64::MIN,
    ensures
        r.day_number() == P::mk(p.index() + 1).start_day() - 1,
        r.day_number() < i64::MAX,
{
    proof {
        P::lemma_index_bounds(*p);
    }
    let s = p.succ();
    proof {
        P::lemma_mk_index(p.index() + 1);
        P::lemma_index_injective(s, P::mk(p.index() + 1));
    }
    let d = s.start();
    proof {
        calendar::lemma_day_number_bounds(d);
    }
    d.prev_day()
}

/// How many calendar days a period covers: the days from its start up
/// to and including its last day.
pub fn period_num_days<P: DateResolution>(p: &P) -> (r: i64)
    requires
        p.start_in_domain(),
        p.index() + 1 <= i64::MAX,
        P::mk(p.index() + 1).start_in_domain(),
        P::mk(p.index() + 1).start_day() > i64::MIN,
        i64::MIN < P::mk(p.index() + 1).start_day() - p.start_day() <= i64::MAX,
    ensures
        r as int == P::mk(p.index() + 1).start_day() - p.start_day(),
{
    let e = period_end_date(p);
    let s = p.start();
    (e.days() - s.days()) + 1
}

/// The range of sub-day periods covering a date-aligned period: from
/// the first sub-day period on its first day to the last one on its
/// last day.  Nothing is returned only if that run is reversed or too
/// long to count, which a faithful sub-day kind never produces.
pub fn to_sub_date_resolution<P: DateResolution, R: SubDateResolution>(p: &P) -> (r: Option<
    range::TimeRange<R>,
>)
    requires
        p.start_in_domain(),
        p.index() + 1 <= i64::MAX,
        P::mk(p.index() + 1).start_in_domain(),
        P::mk(p.index() + 1).start_day() > i64::MIN,
        R::day_in_domain(p.start_day()),
        R::day_in_domain(P::mk(p.index() + 1).start_day()),
        R::first_index_on(P::mk(p.index() + 1).start_day()) - 1 >= i64::MIN,
    ensures
        ({
            let first = R::first_index_on(p.start_day());
            let last = R::first_index_on(P::mk(p.index() + 1).start_day()) - 1;
            &&& r is Some <==> (first <= last && last - first < u32::MAX as int)
            &&& (r matches Some(t) ==> t.wf() && t.first() == first && t.last() == last)
        }),
{
    let sd = p.start();
    let first = R::first_on_day(sd);
    let ed = period_end_date(p);
    let last = R::last_on_day(ed);
    range::TimeRange::from_start_end(first, last)
}

/// The same span expressed in another date-aligned kind: from the
/// period containing the first day to the period containing the last.
pub fn rescale<P: DateResolution, R: DateResolution>(p: &P) -> (r: Option<range::TimeRange<R>>)
    requires
        p.start_in_domain(),
        p.index() + 1 <= i64::MAX,
        P::mk(p.index() + 1).start_in_domain(),
        P::mk(p.index() + 1).start_day() > i64::MIN,
        R::day_in_domain(p.start_day()),
        R::day_in_domain(P::mk(p.index() + 1).start_day() - 1),
    ensures
        ({
            let first = R::period_of_day(p.start_day()).index();
            let last = R::period_of_day(P::mk(p.index() + 1).start_day() - 1).index();
            &&& r is Some <==> (first <= last && last - first < u32::MAX as int)
            &&& (r matches Some(t) ==> t.wf() && t.first() == first && t.last() == last)
        }),
{
    let sd = p.start();
    let first = R::from_date(sd);
    let ed = period_end_date(p);
    let last = R::from_date(ed);
    range::TimeRange::from_start_end(first, last)
}

/// Bijectivity of the monotonic index: two periods of one kind with the
/// same index are the same period, so `from_monotonic` and
/// `to_monotonic` (whose contracts fix the index of their results)
/// round-trip over the whole representable index range.
pub proof fn lemma_monotonic_round_trip<P: TimeResolution>(p: P, q: P)
    requires
        p.index() == q.index(),
    ensures
        p == q,
{
    P::lemma_index_injective(p, q);
}

/// Step inverses: stepping any period forward by `n` and then back by
/// `n` returns the period itself.  `f` stands for any result the
/// contract of `succ_n` allows for `p.succ_n(n)`, and `b` for any
/// result the contract of `pred_n` allows for `f.pred_n(n)`.
pub proof fn lemma_succ_pred_inverse<P: TimeResolution>(p: P, f: P, b: P, n: u32)
    requires
        f.index() == p.index() + n,
        b.index() == f.index() - n,
    ensures
        b == p,
{
    P::lemma_index_injective(b, p);
}

} // verus!
