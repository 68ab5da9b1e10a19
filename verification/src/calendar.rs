use vstd::prelude::*;

use chrono::Datelike;

verus! {

/// Day number of the first day of 1970, counting from the calendar
/// origin (the first day of year zero).
pub const UNIX_EPOCH_DAY: i64 = 719528;

/// Seconds in one calendar day; unix timestamps count no leap seconds.
pub const SECS_PER_DAY: i64 = 86400;

/// One proleptic Gregorian calendar date, held as the count of days
/// since the calendar origin, the first day of year zero; negative for
/// earlier dates.  Date arithmetic is plain integer arithmetic on this
/// count; the irregular mapping to and from year, month and day is the
/// calendar library's work, behind `civil_parts` and `days_of_civil`.
#[derive(Clone, Copy, Debug, PartialEq, Eq, PartialOrd, Ord, Hash, Structural)]
pub struct Date(i64);

impl Date {
    /// The count of days since the calendar origin.
    pub closed spec fn day_number(&self) -> int {
        self.0 as int
    }

    /// The date the given number of days after the calendar origin.
    pub fn from_days(days: i64) -> (r: Date)
        ensures
            r.day_number() == days as int,
    {
        Date(days)
    }

    /// The count of days since the calendar origin.
    pub fn days(&self) -> (r: i64)
        ensures
            r as int == self.day_number(),
    {
        self.0
    }

    /// The following day.
    pub fn next_day(&self) -> (r: Date)
        requires
            self.day_number() < i64::MAX,
        ensures
            r.day_number() == self.day_number() + 1,
    {
        Date(self.0 + 1)
    }

    /// The day before.
    pub fn prev_day(&self) -> (r: Date)
        requires
            self.day_number() > i64::MIN,
        ensures
            r.day_number() == self.day_number() - 1,
    {
        Date(self.0 - 1)
    }
}

/// Every date's day number is representable as an `i64`.
pub proof fn lemma_day_number_bounds(d: Date)
    ensures
        i64::MIN <= d.day_number() <= i64::MAX,
{
}

/// The year, month and day of the date with the given day number, as
/// the proleptic Gregorian calendar lays days out.
pub uninterp spec fn civil_of_days(days: int) -> (int, int, int);

/// The day number of the proleptic Gregorian date with the given year,
/// month and day.
pub uninterp spec fn day_number_of_civil(y: int, m: int, d: int) -> int;

/// Relies on chrono's NaiveDate: the origin date built with
/// `from_ymd_opt(0, 1, 1)`, moved by `checked_add_signed` with a day
/// count, read back through the Datelike year, month and day accessors.
/// The admitted day numbers lie well inside chrono's supported years
/// (about 262 thousand either way), so neither call can fail, and the
/// result depends on the day number alone.  The second clause is the
/// round trip of the two conversions; the field bounds are chrono's
/// documented ranges, the year bound following from the admitted days.
#[verifier::external_body]
pub(crate) fn civil_parts(days: i64) -> (r: (i32, u32, u32))
    requires
        -90_000_000 <= days <= 90_000_000,
    ensures
        (r.0 as int, r.1 as int, r.2 as int) == civil_of_days(days as int),
        day_number_of_civil(r.0 as int, r.1 as int, r.2 as int) == days as int,
        -250_000 <= r.0 <= 250_000,
        1 <= r.1 <= 12,
        1 <= r.2 <= 31,
{
    let base = chrono::NaiveDate::from_ymd_opt(0, 1, 1).unwrap();
    let date = base.checked_add_signed(chrono::Duration::days(days)).unwrap();
    (date.year(), date.month(), date.day())
}

/// Relies on chrono's NaiveDate: the date built with `from_ymd_opt`,
/// counted from the origin date through `signed_duration_since` and
/// `num_days`.  Days up to 28 exist in every month and the admitted
/// years lie well inside chrono's supported range, so neither call can
/// fail, and the result depends on the three arguments alone.  The
/// second clause is the round trip of the two conversions; the bound on
/// the result follows from the admitted years.
#[verifier::external_body]
pub(crate) fn days_of_civil(y: i32, m: u32, d: u32) -> (r: i64)
    requires
        -250_000 <= y <= 250_000,
        1 <= m <= 12,
        1 <= d <= 28,
    ensures
        r as int == day_number_of_civil(y as int, m as int, d as int),
        civil_of_days(r as int) == (y as int, m as int, d as int),
        -100_000_000 <= r <= 100_000_000,
{
    let base = chrono::NaiveDate::from_ymd_opt(0, 1, 1).unwrap();
    let date = chrono::NaiveDate::from_ymd_opt(y, m, d).unwrap();
    date.signed_duration_since(base).num_days()
}

/// Division rounding toward zero, as machine division does.
pub open spec fn trunc_div(a: int, b: int) -> int {
    if a == 0 {
        0
    } else if a > 0 && b > 0 {
        a / b
    } else if a < 0 && b < 0 {
        (a * -1) / (b * -1)
    } else if a < 0 {
        ((a * -1) / b) * -1
    } else {
        (a / (b * -1)) * -1
    }
}

/// A Euclidean quotient by a positive divisor lies between the dividend
/// and zero.
pub proof fn lemma_div_bounds(a: int, b: int)
    requires
        b > 0,
    ensures
        a >= 0 ==> 0 <= a / b <= a,
        a < 0 ==> a <= a / b <= 0,
{
    if a >= 0 {
        vstd::arithmetic::div_mod::lemma_div_pos_is_pos(a, b);
        vstd::arithmetic::div_mod::lemma_div_nonincreasing(a, b);
    } else {
        vstd::arithmetic::div_mod::lemma_div_is_ordered(a, 0, b);
        vstd::arithmetic::div_mod::lemma_div_basics(b);
        vstd::arithmetic::div_mod::lemma_fundamental_div_mod(a, b);
        vstd::arithmetic::div_mod::lemma_mod_bound(a, b);
        let q = a / b;
        let r = a % b;
        assert(q <= -1);
        assert((b - 1) * q <= -(b - 1)) by (nonlinear_arith)
            requires
                q <= -1,
                b >= 1,
        ;
        assert(b * q == q + (b - 1) * q) by (nonlinear_arith);
        assert(a <= q);
    }
}

/// Euclidean division by a positive divisor.
pub fn div_euclid_i64(a: i64, b: i64) -> (r: i64)
    requires
        b > 0,
    ensures
        r as int == a as int / b as int,
{
    proof {
        lemma_div_bounds(a as int, b as int);
    }
    match a.checked_div_euclid(b) {
        Some(q) => q,
        None => {
            proof {
                assert(false);
            }
            0
        },
    }
}

/// Euclidean remainder by a positive divisor.
pub fn rem_euclid_i64(a: i64, b: i64) -> (r: i64)
    requires
        b > 0,
    ensures
        r as int == a as int % b as int,
{
    match a.checked_rem_euclid(b) {
        Some(q) => q,
        None => {
            proof {
                assert(false);
            }
            0
        },
    }
}

/// Division rounding toward zero by a positive divisor.
pub fn div_trunc_i64(a: i64, b: i64) -> (r: i64)
    requires
        b > 0,
    ensures
        r as int == trunc_div(a as int, b as int),
{
    match a.checked_div(b) {
        Some(q) => q,
        None => {
            proof {
                assert(false);
            }
            0
        },
    }
}

} // verus!
