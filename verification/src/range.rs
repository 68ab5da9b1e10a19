use vstd::prelude::*;

use crate::DateResolution;
use crate::SubDateResolution;
use crate::TimeResolution;
use crate::period_end_date;
use crate::containers::IndexSet;
use crate::containers::PeriodSet;
use crate::containers::sorted_strict;

pub use crate::cache::Cache;
pub use crate::cache::CacheResponse;
pub use crate::cache::missing_pieces;

verus! {

/// The consecutive run of `len` integers from `start`.
pub open spec fn run_seq(start: int, len: nat) -> Seq<int> {
    Seq::new(len, |i: int| start + i)
}

/// The first and last index of each range, in vector order.
pub open spec fn bounds_seq<P: TimeResolution>(v: Seq<TimeRange<P>>) -> Seq<(int, int)> {
    v.map_values(|t: TimeRange<P>| (t.first(), t.last()))
}

/// An inclusive run of consecutive periods of one kind, held as a start
/// period and a positive count.  A range never has zero length: absence
/// is an absent option, not an empty range.
#[derive(Clone, Copy, Debug, PartialEq, Eq, Hash)]
pub struct TimeRange<P: TimeResolution> {
    start: P,
    len: u32,
}

/// How one range lies relative to another, derived from which remainders
/// subtraction leaves.
#[derive(Clone, Copy, Debug, PartialEq, Eq, Structural)]
pub enum TimeRangeComparison {
    Superset,
    Subset,
    Earlier,
    Later,
}

impl<P: TimeResolution> TimeRange<P> {
    /// The index of the first period of the range.
    pub closed spec fn first(&self) -> int {
        self.start.index()
    }

    /// How many periods the range covers; always at least one.
    pub closed spec fn length(&self) -> int {
        self.len as int
    }

    /// The index of the last period of the range.
    pub open spec fn last(&self) -> int {
        self.first() + self.length() - 1
    }

    /// The indexes the range covers, in ascending order.
    pub open spec fn span_seq(&self) -> Seq<int> {
        run_seq(self.first(), self.length() as nat)
    }

    /// The indexes the range covers, as a set.
    pub open spec fn span_set(&self) -> Set<int> {
        Set::new(|k: int| self.first() <= k <= self.last())
    }

    /// A range is well formed when it has at least one period and its
    /// last index is still representable.  Every constructor yields a
    /// well-formed range.
    pub open spec fn wf(&self) -> bool {
        1 <= self.length() && self.last() <= i64::MAX
    }

    /// A range of `len` periods from `start`; no range when `len` is zero.
    pub fn maybe_new(start: P, len: u32) -> (r: Option<TimeRange<P>>)
        requires
            len >= 1 ==> start.index() + len - 1 <= i64::MAX,
        ensures
            r is Some <==> len >= 1,
            r matches Some(t) ==> t.wf() && t.first() == start.index() && t.length() == len as int,
    {
        if len == 0 {
            None
        } else {
            Some(TimeRange { start, len })
        }
    }

    /// A range of `len` periods from `start`; `len` must be positive.
    pub fn new(start: P, len: u32) -> (r: TimeRange<P>)
        requires
            len >= 1,
            start.index() + len - 1 <= i64::MAX,
        ensures
            r.wf(),
            r.first() == start.index(),
            r.length() == len as int,
    {
        TimeRange { start, len }
    }

    /// The range from `start` to `end` inclusive; no range when `end`
    /// precedes `start` or the run is too long to count in 32 bits.
    pub fn from_start_end(start: P, end: P) -> (r: Option<TimeRange<P>>)
        ensures
            r is Some <==> start.index() <= end.index() && end.index() - start.index()
                < u32::MAX as int,
            r matches Some(t) ==> t.wf() && t.first() == start.index() && t.last() == end.index(),
    {
        proof {
            P::lemma_index_bounds(start);
            P::lemma_index_bounds(end);
        }
        let s = start.to_monotonic();
        let e = end.to_monotonic();
        if s <= e {
            let diff: i128 = e as i128 - s as i128;
            if diff < u32::MAX as i128 {
                let len: u32 = (diff + 1) as u32;
                Some(TimeRange { start, len })
            } else {
                None
            }
        } else {
            None
        }
    }

    /// The first period of the range.
    pub fn start(&self) -> (r: P)
        ensures
            r.index() == self.first(),
    {
        self.start
    }

    /// The last period of the range.
    pub fn end(&self) -> (r: P)
        requires
            self.wf(),
        ensures
            r.index() == self.last(),
    {
        self.start.succ_n(self.len - 1)
    }

    /// How many periods the range covers.
    pub fn len(&self) -> (r: u32)
        requires
            self.wf(),
        ensures
            r as int == self.length(),
            r >= 1,
    {
        self.len
    }

    /// Does the range cover this period?
    pub fn contains(&self, point: P) -> (r: bool)
        requires
            self.wf(),
        ensures
            r == self.span_set().contains(point.index()),
    {
        proof {
            P::lemma_index_bounds(point);
        }
        let p = point.to_monotonic();
        let s = self.start.to_monotonic();
        let e = self.end().to_monotonic();
        s <= p && p <= e
    }

    /// The offset of a period within the range, when the range covers it.
    pub fn index_of(&self, point: P) -> (r: Option<usize>)
        requires
            self.wf(),
        ensures
            r is Some <==> self.span_set().contains(point.index()),
            r matches Some(o) ==> o as int == point.index() - self.first(),
    {
        proof {
            P::lemma_index_bounds(point);
        }
        let p = point.to_monotonic();
        let s = self.start.to_monotonic();
        let e = self.end().to_monotonic();
        if p < s || p > e {
            None
        } else {
            Some((p - s) as usize)
        }
    }

    /// The overlap of two ranges of one kind; no range when they share
    /// no period.
    pub fn intersect(&self, other: &TimeRange<P>) -> (r: Option<TimeRange<P>>)
        requires
            self.wf(),
            other.wf(),
        ensures
            r is Some <==> (imax(self.first(), other.first()) <= imin(self.last(), other.last())),
            r matches Some(t) ==> t.wf() && t.first() == imax(self.first(), other.first())
                && t.last() == imin(self.last(), other.last()) && t.span_set() == self.span_set().intersect(
                other.span_set(),
            ),
    {
        let s1 = self.start.to_monotonic();
        let e1 = self.end().to_monotonic();
        let s2 = other.start.to_monotonic();
        let e2 = other.end().to_monotonic();
        let ms = if s1 >= s2 {
            s1
        } else {
            s2
        };
        let me = if e1 <= e2 {
            e1
        } else {
            e2
        };
        if ms <= me {
            let start = if s1 >= s2 {
                self.start
            } else {
                other.start
            };
            let len: u32 = ((me - ms) + 1) as u32;
            let t = TimeRange { start, len };
            proof {
                assert(t.span_set() =~= self.span_set().intersect(other.span_set()));
            }
            Some(t)
        } else {
            None
        }
    }

    /// The one contiguous range covering both; defined only when the two
    /// overlap, since the union of disjoint ranges is not one range.
    pub fn union(&self, other: &TimeRange<P>) -> (r: Option<TimeRange<P>>)
        requires
            self.wf(),
            other.wf(),
        ensures
            r is Some <==> (imax(self.first(), other.first()) <= imin(self.last(), other.last())
                && imax(self.last(), other.last()) - imin(self.first(), other.first())
                < u32::MAX as int),
            r matches Some(t) ==> t.wf() && t.first() == imin(self.first(), other.first())
                && t.last() == imax(self.last(), other.last()) && t.span_set() == self.span_set().union(
                other.span_set(),
            ),
    {
        if self.intersect(other).is_some() {
            let start = if self.start.to_monotonic() <= other.start.to_monotonic() {
                self.start
            } else {
                other.start
            };
            let end = if self.end().to_monotonic() >= other.end().to_monotonic() {
                self.end()
            } else {
                other.end()
            };
            let r = TimeRange::from_start_end(start, end);
            proof {
                if r is Some {
                    let t = r.unwrap();
                    assert(t.span_set() =~= self.span_set().union(other.span_set()));
                }
            }
            r
        } else {
            None
        }
    }

    /// What is left of this range on either side of another: the periods
    /// of `self` before `other`, and those after it.  Either half may be
    /// absent.
    pub fn subtract(&self, other: &TimeRange<P>) -> (r: (
        Option<TimeRange<P>>,
        Option<TimeRange<P>>,
    ))
        requires
            self.wf(),
            other.wf(),
        ensures
            r.0 is Some <==> self.first() < other.first(),
            r.0 matches Some(l) ==> l.wf() && l.first() == self.first() && l.last() == imin(
                other.first() - 1,
                self.last(),
            ),
            r.1 is Some <==> other.last() < self.last(),
            r.1 matches Some(t) ==> t.wf() && t.first() == imax(other.last() + 1, self.first())
                && t.last() == self.last(),
    {
        proof {
            P::lemma_index_bounds(self.start);
            P::lemma_index_bounds(other.start);
        }
        let s1 = self.start.to_monotonic();
        let e1 = self.end().to_monotonic();
        let s2 = other.start.to_monotonic();
        let e2 = other.end().to_monotonic();
        let left = if s1 < s2 {
            let le = if e1 < s2 - 1 {
                e1
            } else {
                s2 - 1
            };
            Some(TimeRange { start: self.start, len: ((le - s1) + 1) as u32 })
        } else {
            None
        };
        let right = if e2 < e1 {
            let rs = if s1 > e2 + 1 {
                s1
            } else {
                e2 + 1
            };
            Some(TimeRange { start: P::from_monotonic(rs), len: ((e1 - rs) + 1) as u32 })
        } else {
            None
        };
        (left, right)
    }

    /// Where the other range lies relative to this one, read off from
    /// which remainders `subtract` leaves.  The four cases do not tell a
    /// partial overlap apart from the named ones; use `intersect` for
    /// true overlap detection.
    pub fn compare(&self, other: &TimeRange<P>) -> (r: TimeRangeComparison)
        requires
            self.wf(),
            other.wf(),
        ensures
            r == (if self.first() < other.first() && other.last() < self.last() {
                TimeRangeComparison::Superset
            } else if self.first() < other.first() {
                TimeRangeComparison::Earlier
            } else if other.last() < self.last() {
                TimeRangeComparison::Later
            } else {
                TimeRangeComparison::Subset
            }),
    {
        match self.subtract(other) {
            (Some(_), Some(_)) => TimeRangeComparison::Superset,
            (Some(_), None) => TimeRangeComparison::Earlier,
            (None, Some(_)) => TimeRangeComparison::Later,
            (None, None) => TimeRangeComparison::Subset,
        }
    }




    /// The same range expressed in sub-day periods: from the first
    /// sub-day period on the first day of the range's first period to
    /// the last one on the last day of its last period.  Nothing is
    /// returned only if that run is reversed or too long to count,
    /// which a faithful sub-day kind never produces.
    pub fn to_sub_date_resolution<S: SubDateResolution>(&self) -> (r: Option<TimeRange<S>>) where
        P: DateResolution,
        requires
            self.wf(),
            P::mk(self.first()).start_in_domain(),
            self.last() + 1 <= i64::MAX,
            P::mk(self.last() + 1).start_in_domain(),
            P::mk(self.last() + 1).start_day() > i64::MIN,
            S::day_in_domain(P::mk(self.first()).start_day()),
            S::day_in_domain(P::mk(self.last() + 1).start_day()),
            S::first_index_on(P::mk(self.last() + 1).start_day()) - 1 >= i64::MIN,
        ensures
            ({
                let first = S::first_index_on(P::mk(self.first()).start_day());
                let last = S::first_index_on(P::mk(self.last() + 1).start_day()) - 1;
                &&& r is Some <==> (first <= last && last - first < u32::MAX as int)
                &&& (r matches Some(t) ==> t.wf() && t.first() == first && t.last() == last)
            }),
    {
        let sp = self.start();
        proof {
            P::lemma_index_bounds(sp);
            P::lemma_mk_index(self.first());
            P::lemma_index_injective(sp, P::mk(self.first()));
        }
        let sd = sp.start();
        let first = S::first_on_day(sd);
        let ep = self.end();
        proof {
            P::lemma_index_bounds(ep);
            P::lemma_mk_index(self.last());
            P::lemma_index_injective(ep, P::mk(self.last()));
        }
        let ed = period_end_date(&ep);
        let last = S::last_on_day(ed);
        TimeRange::from_start_end(first, last)
    }

    /// The one range holding exactly the periods of a set; the set must
    /// already be contiguous.  Nothing is returned for an empty set.
    pub fn from_set(set: &PeriodSet<P>) -> (r: Option<TimeRange<P>>)
        requires
            forall|j: int| 0 <= j < set.iseq().len() ==> #[trigger] set.iseq()[j] == set.iseq()[0] + j,
            set.iseq().len() <= u32::MAX as int,
        ensures
            r is Some <==> set.iseq().len() > 0,
            r matches Some(t) ==> t.wf() && t.first() == set.iseq()[0] && t.length()
                == set.iseq().len(),
    {
        let n = set.len();
        if n == 0 {
            None
        } else {
            let start = set.at(0);
            let last = set.at(n - 1);
            proof {
                P::lemma_index_bounds(last);
                assert(set.iseq()[n - 1] == set.iseq()[0] + (n - 1));
            }
            Some(TimeRange { start, len: n as u32 })
        }
    }

    /// The minimal collection of maximal contiguous ranges covering a set
    /// of raw monotonic indexes, in ascending order; nothing when the set
    /// is empty.
    pub fn from_map(set: &IndexSet) -> (r: Option<Vec<TimeRange<P>>>)
        requires
            set.iseq().len() < u32::MAX as int,
        ensures
            r is Some <==> set.iseq().len() > 0,
            r matches Some(v) ==> bounds_seq(v@) == coalesce_groups(set.iseq()) && (forall|j: int|
                0 <= j < v@.len() ==> (#[trigger] v@[j]).wf()),
    {
        if set.len() == 0 {
            None
        } else {
            let v = Self::from_map_rec(set, 0);
            proof {
                assert(set.iseq().skip(0) =~= set.iseq());
            }
            Some(v)
        }
    }

    fn from_map_rec(set: &IndexSet, i: usize) -> (r: Vec<TimeRange<P>>)
        requires
            sorted_strict(set.iseq()),
            i <= set.iseq().len(),
            set.iseq().len() < u32::MAX as int,
        ensures
            bounds_seq(r@) == coalesce_groups(set.iseq().skip(i as int)),
            forall|j: int| 0 <= j < r@.len() ==> (#[trigger] r@[j]).wf(),
        decreases set.iseq().len() - i,
    {
        let ghost t = set.iseq().skip(i as int);
        let n = set.len();
        if i == n {
            let r = Vec::new();
            proof {
                assert(bounds_seq(r@) =~= coalesce_groups(t));
            }
            return r;
        }
        let x = set.at(i);
        proof {
            assert(t[0] == x as int);
            assert(forall|j: int| 0 <= j < t.len() ==> t[j] == set.iseq()[i + j]);
            assert(sorted_strict(t));
        }
        let mut extend = false;
        if i + 1 < n {
            let y = set.at(i + 1);
            proof {
                assert(y as int == set.iseq()[i as int + 1]);
                assert(y as int > x as int);
            }
            extend = y == x + 1;
            proof {
                assert(extend <==> (t.len() > 1 && t[1] == t[0] + 1));
            }
        }
        if extend {
            let mut rest = Self::from_map_rec(set, i + 1);
            let ghost t1 = set.iseq().skip(i as int + 1);
            proof {
                assert(t1 =~= t.drop_first());
                lemma_coalesce_first(t1);
                assert(bounds_seq(rest@)[0] == (rest@[0].first(), rest@[0].last()));
                assert(rest@[0].first() == x as int + 1);
                assert(rest@[0].last() - (x as int + 1) + 1 <= t1.len());
            }
            let head = rest.remove(0);
            let ext = TimeRange { start: P::from_monotonic(x), len: head.len() + 1 };
            rest.insert(0, ext);
            proof {
                let g = coalesce_groups(t);
                assert(g == coalesce_groups(t.drop_first()).update(
                    0,
                    (t[0], coalesce_groups(t.drop_first())[0].1),
                ));
                assert(coalesce_groups(t.drop_first()) == coalesce_groups(t1));
                assert(ext.first() == x as int);
                assert(ext.last() == head.last());
                assert(bounds_seq(rest@) =~= g);
                assert(forall|j: int| 0 <= j < rest@.len() ==> (#[trigger] rest@[j]).wf());
            }
            rest
        } else {
            let mut rest = Self::from_map_rec(set, i + 1);
            let ghost t1 = set.iseq().skip(i as int + 1);
            let g1 = TimeRange { start: P::from_monotonic(x), len: 1 };
            rest.insert(0, g1);
            proof {
                assert(t1 =~= t.drop_first());
                if t.len() > 1 {
                    assert(t[1] == set.iseq()[i + 1]);
                    assert(t[1] != t[0] + 1);
                }
                let g = coalesce_groups(t);
                assert(g == seq![(t[0], t[0])] + coalesce_groups(t.drop_first()));
                assert(bounds_seq(rest@) =~= g);
                assert(forall|j: int| 0 <= j < rest@.len() ==> (#[trigger] rest@[j]).wf());
            }
            rest
        }
    }

    /// A restartable walk over the periods of the range, first to last.
    pub fn iter(&self) -> (r: TimeRangeIter<P>)
        requires
            self.wf(),
        ensures
            r.wf(),
            r.walk_start() == self.first(),
            r.walk_len() == self.length(),
            r.walk_pos() == 0,
    {
        TimeRangeIter { start: self.start, len: self.len, pos: 0 }
    }

    /// The periods of the range, in ascending order.
    pub fn set(&self) -> (r: PeriodSet<P>)
        requires
            self.wf(),
        ensures
            r.iseq() == self.span_seq(),
    {
        let mut r = PeriodSet::new();
        let n = self.len;
        let mut i: u32 = 0;
        while i < n
            invariant
                self.wf(),
                n as int == self.length(),
                0 <= i <= n,
                r.iseq() == run_seq(self.first(), i as nat),
            decreases n - i,
        {
            let p = self.start.succ_n(i);
            proof {
                assert(forall|j: int|
                    0 <= j < r.iseq().len() ==> #[trigger] r.iseq()[j] == self.first() + j);
            }
            r.append(p);
            proof {
                assert(r.iseq() =~= run_seq(self.first(), (i + 1) as nat));
            }
            i += 1;
        }
        proof {
            assert(r.iseq() =~= self.span_seq());
        }
        r
    }

    /// The monotonic indexes of the periods of the range, in ascending
    /// order: exactly `len` of them, the last being the index of `end`.
    pub fn to_indexes(&self) -> (r: IndexSet)
        requires
            self.wf(),
        ensures
            r.iseq() == self.span_seq(),
    {
        proof {
            P::lemma_index_bounds(self.start);
        }
        let mut r = IndexSet::new();
        let s = self.start.to_monotonic();
        let n = self.len;
        let mut i: u32 = 0;
        while i < n
            invariant
                self.wf(),
                s as int == self.first(),
                n as int == self.length(),
                0 <= i <= n,
                r.iseq() == run_seq(self.first(), i as nat),
            decreases n - i,
        {
            let x = s + i as i64;
            proof {
                assert(forall|j: int|
                    0 <= j < r.iseq().len() ==> #[trigger] r.iseq()[j] == self.first() + j);
            }
            r.append(x);
            proof {
                assert(r.iseq() =~= run_seq(self.first(), (i + 1) as nat));
            }
            i += 1;
        }
        proof {
            assert(r.iseq() =~= self.span_seq());
        }
        r
    }
}


/// The maximal contiguous runs of an ascending sequence of indexes, as
/// inclusive (first, last) bounds in ascending order: a run is extended
/// while the next index is exactly one more than the previous.
pub open spec fn coalesce_groups(s: Seq<int>) -> Seq<(int, int)>
    decreases s.len(),
{
    if s.len() == 0 {
        Seq::empty()
    } else if s.len() > 1 && s[1] == s[0] + 1 {
        let r = coalesce_groups(s.drop_first());
        r.update(0, (s[0], r[0].1))
    } else {
        seq![(s[0], s[0])] + coalesce_groups(s.drop_first())
    }
}

/// A nonempty ascending sequence coalesces to at least one run; the
/// first run starts at the first index and is no longer than the
/// sequence.
pub proof fn lemma_coalesce_first(s: Seq<int>)
    requires
        s.len() > 0,
        sorted_strict(s),
    ensures
        coalesce_groups(s).len() >= 1,
        coalesce_groups(s)[0].0 == s[0],
        coalesce_groups(s)[0].1 >= s[0],
        coalesce_groups(s)[0].1 - s[0] + 1 <= s.len(),
    decreases s.len(),
{
    let d = s.drop_first();
    assert(sorted_strict(d)) by {
        assert(forall|j: int| 0 <= j < d.len() ==> d[j] == s[j + 1]);
    }
    if s.len() > 1 && s[1] == s[0] + 1 {
        lemma_coalesce_first(d);
    }
}

/// Coalescing an ascending sequence yields runs that are each nonempty,
/// pairwise disjoint and maximal (consecutive runs are separated by a
/// missing index), in ascending order, and that together cover exactly
/// the members of the sequence.
pub proof fn lemma_coalesce_groups(s: Seq<int>)
    requires
        sorted_strict(s),
    ensures
        forall|i: int|
            0 <= i < coalesce_groups(s).len() ==> (#[trigger] coalesce_groups(s)[i]).0
                <= coalesce_groups(s)[i].1,
        forall|i: int|
            0 <= i < coalesce_groups(s).len() - 1 ==> (#[trigger] coalesce_groups(s)[i]).1 + 1
                < coalesce_groups(s)[i + 1].0,
        forall|k: int|
            s.to_set().contains(k) <==> exists|i: int|
                0 <= i < coalesce_groups(s).len() && (#[trigger] coalesce_groups(s)[i]).0 <= k
                    <= coalesce_groups(s)[i].1,
    decreases s.len(),
{
    let g = coalesce_groups(s);
    if s.len() == 0 {
        assert forall|k: int| !s.to_set().contains(k) by {
            if s.to_set().contains(k) {
                let j = choose|j: int| 0 <= j < s.len() && s[j] == k;
            }
        }
    } else {
        let d = s.drop_first();
        assert(sorted_strict(d)) by {
            assert(forall|j: int| 0 <= j < d.len() ==> d[j] == s[j + 1]);
        }
        lemma_coalesce_groups(d);
        let r = coalesce_groups(d);
        assert forall|k: int| s.to_set().contains(k) implies k == s[0] || d.to_set().contains(
            k,
        ) by {
            let j = choose|j: int| 0 <= j < s.len() && s[j] == k;
            if j > 0 {
                assert(d[j - 1] == k);
            }
        }
        assert forall|k: int| d.to_set().contains(k) implies s.to_set().contains(k) by {
            let j = choose|j: int| 0 <= j < d.len() && d[j] == k;
            assert(s[j + 1] == k);
        }
        assert(s.to_set().contains(s[0]));
        if s.len() > 1 && s[1] == s[0] + 1 {
            lemma_coalesce_first(d);
            assert(d[0] == s[1]);
            assert(g == r.update(0, (s[0], r[0].1)));
            assert forall|i: int| 0 <= i < g.len() implies (#[trigger] g[i]).0 <= g[i].1 by {
                if i == 0 {
                    assert(r[0].0 <= r[0].1);
                } else {
                    assert(g[i] == r[i]);
                }
            }
            assert forall|i: int| 0 <= i < g.len() - 1 implies (#[trigger] g[i]).1 + 1 < g[i
                + 1].0 by {
                assert(g[i + 1] == r[i + 1]);
                if i == 0 {
                    assert(r[0].1 + 1 < r[1].0);
                } else {
                    assert(g[i] == r[i]);
                }
            }
            assert forall|k: int| s.to_set().contains(k) implies exists|i: int|
                0 <= i < g.len() && (#[trigger] g[i]).0 <= k <= g[i].1 by {
                if k == s[0] {
                    assert(g[0].0 <= k <= g[0].1);
                } else {
                    let i = choose|i: int| 0 <= i < r.len() && (#[trigger] r[i]).0 <= k <= r[i].1;
                    assert(g[i].0 <= k <= g[i].1);
                }
            }
            assert forall|k: int|
                (exists|i: int| 0 <= i < g.len() && (#[trigger] g[i]).0 <= k <= g[i].1) implies s.to_set().contains(
                k,
            ) by {
                let i = choose|i: int| 0 <= i < g.len() && (#[trigger] g[i]).0 <= k <= g[i].1;
                if i == 0 {
                    if k == s[0] {
                    } else {
                        assert(r[0].0 == s[1]);
                        assert(r[0].0 <= k <= r[0].1);
                        assert(d.to_set().contains(k));
                    }
                } else {
                    assert(g[i] == r[i]);
                    assert(d.to_set().contains(k));
                }
            }
        } else {
            assert(g == seq![(s[0], s[0])] + r);
            if d.len() > 0 {
                lemma_coalesce_first(d);
                assert(d[0] == s[1]);
                assert(s[1] > s[0] + 1);
            }
            assert forall|i: int| 0 <= i < g.len() implies (#[trigger] g[i]).0 <= g[i].1 by {
                if i > 0 {
                    assert(g[i] == r[i - 1]);
                }
            }
            assert forall|i: int| 0 <= i < g.len() - 1 implies (#[trigger] g[i]).1 + 1 < g[i
                + 1].0 by {
                assert(g[i + 1] == r[i]);
                if i > 0 {
                    assert(g[i] == r[i - 1]);
                }
            }
            assert forall|k: int| s.to_set().contains(k) implies exists|i: int|
                0 <= i < g.len() && (#[trigger] g[i]).0 <= k <= g[i].1 by {
                if k == s[0] {
                    assert(g[0].0 <= k <= g[0].1);
                } else {
                    let i = choose|i: int| 0 <= i < r.len() && (#[trigger] r[i]).0 <= k <= r[i].1;
                    assert(g[i + 1] == r[i]);
                    assert(g[i + 1].0 <= k <= g[i + 1].1);
                }
            }
            assert forall|k: int|
                (exists|i: int| 0 <= i < g.len() && (#[trigger] g[i]).0 <= k <= g[i].1) implies s.to_set().contains(
                k,
            ) by {
                let i = choose|i: int| 0 <= i < g.len() && (#[trigger] g[i]).0 <= k <= g[i].1;
                if i > 0 {
                    assert(g[i] == r[i - 1]);
                    assert(d.to_set().contains(k));
                }
            }
        }
    }
}


/// A range covers exactly `length` indexes: its walk starts at `first`,
/// proceeds one by one, and its last index is `last`.
pub proof fn lemma_span_seq_shape<P: TimeResolution>(t: TimeRange<P>)
    requires
        t.wf(),
    ensures
        t.span_seq().len() == t.length(),
        t.span_seq()[0] == t.first(),
        t.span_seq()[t.length() - 1] == t.last(),
        forall|i: int| 0 <= i < t.length() ==> t.span_seq()[i] == t.first() + i,
{
}

/// Subtracting one overlapping range from another partitions the periods
/// of the first not covered by the second into at most a left and a
/// right remainder: exactly the two ranges whose bounds the contract of
/// `subtract` gives, each present precisely when `compare` counts it.
pub proof fn lemma_subtract_partitions<P: TimeResolution>(a: TimeRange<P>, b: TimeRange<P>)
    requires
        a.wf(),
        b.wf(),
        imax(a.first(), b.first()) <= imin(a.last(), b.last()),
    ensures
        a.span_set().difference(b.span_set()) == (if a.first() < b.first() {
            Set::new(|k: int| a.first() <= k <= b.first() - 1)
        } else {
            Set::<int>::empty()
        }).union(
            if b.last() < a.last() {
                Set::new(|k: int| b.last() + 1 <= k <= a.last())
            } else {
                Set::<int>::empty()
            },
        ),
{
    let left: Set<int> = if a.first() < b.first() {
        Set::new(|k: int| a.first() <= k <= b.first() - 1)
    } else {
        Set::<int>::empty()
    };
    let right: Set<int> = if b.last() < a.last() {
        Set::new(|k: int| b.last() + 1 <= k <= a.last())
    } else {
        Set::<int>::empty()
    };
    assert(a.span_set().difference(b.span_set()) =~= left.union(right));
}

/// The smaller of two integers.
pub open spec fn imin(a: int, b: int) -> int {
    if a <= b {
        a
    } else {
        b
    }
}

/// The larger of two integers.
pub open spec fn imax(a: int, b: int) -> int {
    if a >= b {
        a
    } else {
        b
    }
}

/// A lazy, restartable walk over the periods of a range, yielding exactly
/// the range's periods from first to last.
pub struct TimeRangeIter<P: TimeResolution> {
    start: P,
    len: u32,
    pos: u32,
}

impl<P: TimeResolution> TimeRangeIter<P> {
    /// The index of the first period walked.
    pub closed spec fn walk_start(&self) -> int {
        self.start.index()
    }

    /// How many periods the walk yields in all.
    pub closed spec fn walk_len(&self) -> int {
        self.len as int
    }

    /// How many periods have been yielded already.
    pub closed spec fn walk_pos(&self) -> int {
        self.pos as int
    }

    /// A walk is well formed while its position has not passed its length
    /// and every period it yields is representable.
    pub open spec fn wf(&self) -> bool {
        0 <= self.walk_pos() <= self.walk_len() && self.walk_start() + self.walk_len() - 1
            <= i64::MAX
    }

    /// The next period of the range, or nothing when the walk is done.
    pub fn next(&mut self) -> (r: Option<P>)
        requires
            old(self).wf(),
        ensures
            final(self).wf(),
            final(self).walk_start() == old(self).walk_start(),
            final(self).walk_len() == old(self).walk_len(),
            old(self).walk_pos() < old(self).walk_len() ==> final(self).walk_pos() == old(
                self,
            ).walk_pos() + 1 && (r matches Some(p) && p.index() == old(self).walk_start() + old(
                self,
            ).walk_pos()),
            old(self).walk_pos() == old(self).walk_len() ==> final(self).walk_pos() == old(
                self,
            ).walk_pos() && r is None,
    {
        if self.pos < self.len {
            let p = self.start.succ_n(self.pos);
            self.pos = self.pos + 1;
            Some(p)
        } else {
            None
        }
    }
}

} // verus!
