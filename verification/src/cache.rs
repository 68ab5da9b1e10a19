use vstd::prelude::*;

use crate::TimeResolution;
use crate::containers::PeriodSet;
use crate::containers::sorted_strict;
use crate::period_map::PeriodMap;
use crate::period_map::keys_of;
use crate::period_map::lemma_span_pairs;
use crate::period_map::lemma_span_pairs_map;
use crate::period_map::map_span_restrict;
use crate::period_map::pairs_to_map;
use crate::period_map::span_pairs;

verus! {

/// The index sequences of a vector of period sets, in vector order.
pub open spec fn group_views<K: TimeResolution>(v: Seq<PeriodSet<K>>) -> Seq<Seq<int>> {
    v.map_values(|g: PeriodSet<K>| g.iseq())
}

/// The maximal runs of consecutive request keys not yet resolved, in
/// request order: a run is extended while the next requested key is
/// unresolved too, and closed by a resolved key.
pub open spec fn gap_groups(s: Seq<int>, resolved: Set<int>) -> Seq<Seq<int>>
    decreases s.len(),
{
    if s.len() == 0 {
        Seq::empty()
    } else if resolved.contains(s[0]) {
        gap_groups(s.drop_first(), resolved)
    } else if s.len() > 1 && !resolved.contains(s[1]) {
        let r = gap_groups(s.drop_first(), resolved);
        r.update(0, seq![s[0]] + r[0])
    } else {
        seq![seq![s[0]]] + gap_groups(s.drop_first(), resolved)
    }
}

/// When the first requested key is unresolved, the first gap group opens
/// with exactly that key.
pub proof fn lemma_gap_first(s: Seq<int>, resolved: Set<int>)
    requires
        s.len() > 0,
        !resolved.contains(s[0]),
    ensures
        gap_groups(s, resolved).len() >= 1,
        gap_groups(s, resolved)[0].len() >= 1,
        gap_groups(s, resolved)[0][0] == s[0],
    decreases s.len(),
{
    if s.len() > 1 && !resolved.contains(s[1]) {
        let d = s.drop_first();
        lemma_gap_first(d, resolved);
    }
}

/// The minimal gap groups for one request against a resolved-key set.
/// Groups are nonempty, keep request order, and together cover exactly
/// the requested keys that are not resolved.
pub fn missing_pieces<K: TimeResolution>(request: PeriodSet<K>, requests: &PeriodSet<K>) -> (r:
    Vec<PeriodSet<K>>)
    ensures
        group_views(r@) == gap_groups(request.iseq(), requests.iset()),
{
    let n = request.len();
    let r = missing_rec(&request, requests, 0);
    proof {
        assert(request.iseq().skip(0) =~= request.iseq());
    }
    r
}

fn missing_rec<K: TimeResolution>(
    request: &PeriodSet<K>,
    resolved: &PeriodSet<K>,
    i: usize,
) -> (r: Vec<PeriodSet<K>>)
    requires
        sorted_strict(request.iseq()),
        i <= request.iseq().len(),
    ensures
        group_views(r@) == gap_groups(request.iseq().skip(i as int), resolved.iset()),
    decreases request.iseq().len() - i,
{
    let ghost t = request.iseq().skip(i as int);
    let ghost res = resolved.iset();
    let n = request.len();
    if i == n {
        let r: Vec<PeriodSet<K>> = Vec::new();
        proof {
            assert(group_views(r@) =~= gap_groups(t, res));
        }
        return r;
    }
    let k = request.at(i);
    proof {
        assert(forall|j: int| 0 <= j < t.len() ==> t[j] == request.iseq()[i + j]);
        assert(t[0] == k.index());
        assert(sorted_strict(t));
    }
    if resolved.contains(k) {
        let r = missing_rec(request, resolved, i + 1);
        proof {
            assert(t.drop_first() =~= request.iseq().skip(i as int + 1));
        }
        r
    } else {
        let mut join = false;
        if i + 1 < n {
            let k2 = request.at(i + 1);
            join = !resolved.contains(k2);
            proof {
                assert(t[1] == k2.index());
                assert(join <==> (t.len() > 1 && !res.contains(t[1])));
            }
        }
        let mut rest = missing_rec(request, resolved, i + 1);
        let ghost t1 = request.iseq().skip(i as int + 1);
        proof {
            assert(t1 =~= t.drop_first());
        }
        if join {
            proof {
                lemma_gap_first(t1, res);
                assert(group_views(rest@)[0] == rest@[0].iseq());
                assert(rest@[0].iseq().len() >= 1);
                assert(rest@[0].iseq()[0] == t1[0]);
                assert(t1[0] == request.iseq()[i + 1]);
                assert(k.index() < t1[0]);
            }
            let mut g = rest.remove(0);
            g.prepend(k);
            rest.insert(0, g);
            proof {
                let gr = gap_groups(t, res);
                assert(gr == gap_groups(t1, res).update(0, seq![t[0]] + gap_groups(t1, res)[0]));
                assert(g.iseq() =~= seq![t[0]] + gap_groups(t1, res)[0]);
                assert(group_views(rest@) =~= gr);
            }
            rest
        } else {
            rest.insert(0, PeriodSet::singleton(k));
            proof {
                let gr = gap_groups(t, res);
                assert(gr == seq![seq![t[0]]] + gap_groups(t1, res));
                assert(group_views(rest@) =~= gr);
            }
            rest
        }
    }
}


/// The requested keys not yet resolved, in request order.
pub open spec fn unresolved_of(s: Seq<int>, resolved: Set<int>) -> Seq<int>
    decreases s.len(),
{
    if s.len() == 0 {
        Seq::empty()
    } else if resolved.contains(s[0]) {
        unresolved_of(s.drop_first(), resolved)
    } else {
        seq![s[0]] + unresolved_of(s.drop_first(), resolved)
    }
}

/// Gap minimality: the gap groups of a request, flattened in order, are
/// exactly the requested keys that are not resolved, and no group is
/// empty.  With `lemma_gap_first`, consecutive groups are separated by
/// resolved keys, so each group is maximal.
pub proof fn lemma_gap_groups_cover(s: Seq<int>, resolved: Set<int>)
    ensures
        gap_groups(s, resolved).flatten() == unresolved_of(s, resolved),
        forall|i: int|
            0 <= i < gap_groups(s, resolved).len() ==> (#[trigger] gap_groups(s, resolved)[i]).len()
                >= 1,
    decreases s.len(),
{
    let g = gap_groups(s, resolved);
    if s.len() == 0 {
        assert(g.flatten() =~= unresolved_of(s, resolved));
    } else {
        let d = s.drop_first();
        lemma_gap_groups_cover(d, resolved);
        let r = gap_groups(d, resolved);
        if resolved.contains(s[0]) {
        } else if s.len() > 1 && !resolved.contains(s[1]) {
            lemma_gap_first(d, resolved);
            assert(g == r.update(0, seq![s[0]] + r[0]));
            assert(g.first() == seq![s[0]] + r[0]);
            assert(g.drop_first() =~= r.drop_first());
            assert(r.flatten() == r.first() + r.drop_first().flatten());
            assert(g.flatten() == g.first() + g.drop_first().flatten());
            assert(g.flatten() =~= seq![s[0]] + r.flatten());
            assert(g.flatten() =~= unresolved_of(s, resolved));
            assert forall|i: int| 0 <= i < g.len() implies (#[trigger] g[i]).len() >= 1 by {
                if i > 0 {
                    assert(g[i] == r[i]);
                }
            }
        } else {
            assert(g == seq![seq![s[0]]] + r);
            assert(g.first() == seq![s[0]]);
            assert(g.drop_first() =~= r);
            assert(g.flatten() == g.first() + g.drop_first().flatten());
            assert(g.flatten() =~= seq![s[0]] + r.flatten());
            assert(g.flatten() =~= unresolved_of(s, resolved));
            assert forall|i: int| 0 <= i < g.len() implies (#[trigger] g[i]).len() >= 1 by {
                if i > 0 {
                    assert(g[i] == r[i - 1]);
                }
            }
        }
    }
}

/// Hit after add: once a request span and its data are added, the span
/// is wholly resolved, so by the contract of `get` asking for it again
/// is a full hit; and the hit holds exactly the keys of the merged data
/// within the span, the newly added value winning over an older one.
pub proof fn lemma_hit_after_add<T>(
    requests0: Set<int>,
    data0: Map<int, T>,
    dat: Map<int, T>,
    req: Seq<int>,
    lo: int,
    hi: int,
)
    ensures
        req.to_set().subset_of(requests0.union(req.to_set())),
        forall|k: int|
            map_span_restrict(data0.union_prefer_right(dat), lo, hi).dom().contains(k) <==> ((
            data0.dom().contains(k) || dat.dom().contains(k)) && lo <= k <= hi),
        forall|k: int|
            #[trigger] map_span_restrict(data0.union_prefer_right(dat), lo, hi).dom().contains(k)
                ==> map_span_restrict(data0.union_prefer_right(dat), lo, hi)[k] == (
            if dat.dom().contains(k) {
                dat[k]
            } else {
                data0[k]
            }),
{
}

/// Idempotent add: merging the same request span and data a second time
/// leaves both the resolved-key set and the data map of the cache as
/// they were after the first merge.
pub proof fn lemma_add_idempotent<T>(
    requests0: Set<int>,
    data0: Map<int, T>,
    req: Set<int>,
    dat: Map<int, T>,
)
    ensures
        requests0.union(req).union(req) == requests0.union(req),
        data0.union_prefer_right(dat).union_prefer_right(dat) == data0.union_prefer_right(dat),
{
    assert(requests0.union(req).union(req) =~= requests0.union(req));
    assert(data0.union_prefer_right(dat).union_prefer_right(dat) =~= data0.union_prefer_right(
        dat,
    ));
}

/// What a cache answers: a full hit carrying the cached data overlapping
/// the request's key span, or a miss carrying the minimal contiguous
/// groups of keys still to fetch.  There is no partial answer: the
/// caller fetches the missing groups, adds them, and asks again.
pub enum CacheResponse<K: TimeResolution, T> {
    Hit(PeriodMap<K, T>),
    Miss(Vec<PeriodSet<K>>),
}

/// A request cache over period-indexed keys: it keeps every key span
/// ever resolved and the data fetched for it, answers what it can, and
/// names the minimal gaps it cannot.  Requests only grow; data for a key
/// is silently overwritten by a later add.
pub struct Cache<K: TimeResolution, T> {
    data: PeriodMap<K, T>,
    requests: PeriodSet<K>,
}

impl<K: TimeResolution, T> Cache<K, T> {
    /// The key-index/value pairs cached so far, in ascending key order.
    pub closed spec fn data_pairs(&self) -> Seq<(int, T)> {
        self.data.pairs()
    }

    /// The cached data as a map from key indexes.
    pub open spec fn data_map(&self) -> Map<int, T> {
        pairs_to_map(self.data_pairs())
    }

    /// The key indexes resolved so far.
    pub closed spec fn requests_set(&self) -> Set<int> {
        self.requests.iset()
    }

    /// A cache with no requests and no data.
    pub fn empty() -> (r: Cache<K, T>)
        ensures
            r.requests_set() == Set::<int>::empty(),
            r.data_pairs() == Seq::<(int, T)>::empty(),
            r.data_map() == Map::<int, T>::empty(),
    {
        let r = Cache { data: PeriodMap::new(), requests: PeriodSet::new() };
        proof {
            assert(r.requests_set() =~= Set::<int>::empty());
        }
        r
    }

    /// Answers a request: a hit when every requested key was already
    /// resolved (carrying all cached pairs within the request's span),
    /// a hit with nothing for an empty request, and otherwise a miss
    /// carrying the minimal contiguous gaps still to fetch.
    pub fn get(&self, request: PeriodSet<K>) -> (r: CacheResponse<K, T>) where T: Copy
        ensures
            request.iseq().len() == 0 ==> (r matches CacheResponse::Hit(m) && m.pairs()
                == Seq::<(int, T)>::empty()),
            request.iseq().len() > 0 && request.iset().subset_of(self.requests_set()) ==> (
            r matches CacheResponse::Hit(m) && m.pairs() == span_pairs(
                self.data_pairs(),
                request.iseq()[0],
                request.iseq().last(),
            ) && m.imap() == map_span_restrict(
                self.data_map(),
                request.iseq()[0],
                request.iseq().last(),
            )),
            request.iseq().len() > 0 && !request.iset().subset_of(self.requests_set()) ==> (
            r matches CacheResponse::Miss(gs) && group_views(gs@) == gap_groups(
                request.iseq(),
                self.requests_set(),
            )),
    {
        let rn = request.len();
        if rn == 0 {
            return CacheResponse::Hit(PeriodMap::new());
        }
        if self.requests.is_superset(&request) {
            let lo = request.at(0).to_monotonic();
            let hi = request.at(rn - 1).to_monotonic();
            let ghost dp = self.data.pairs();
            let mut m: PeriodMap<K, T> = PeriodMap::new();
            let dn = self.data.len();
            let mut i: usize = 0;
            proof {
                assert(m.pairs() =~= span_pairs(dp.take(0), lo as int, hi as int));
            }
            while i < dn
                invariant
                    dn == dp.len(),
                    dp == self.data.pairs(),
                    sorted_strict(keys_of(dp)),
                    0 <= i <= dn,
                    lo as int == request.iseq()[0],
                    hi as int == request.iseq().last(),
                    m.pairs() == span_pairs(dp.take(i as int), lo as int, hi as int),
                decreases dn - i,
            {
                let (k, v) = self.data.pair_at(i);
                proof {
                    assert((k.index(), v) == dp[i as int]);
                    assert(keys_of(dp.take(i as int)) =~= keys_of(dp).take(i as int));
                    assert(sorted_strict(keys_of(dp.take(i as int))));
                    lemma_span_pairs(dp.take(i as int), lo as int, hi as int);
                    assert forall|j: int| 0 <= j < m.pairs().len() implies m.pairs()[j].0
                        < k.index() by {
                        let pr = m.pairs()[j];
                        assert(dp.take(i as int).contains(pr));
                        let jj = choose|jj: int|
                            0 <= jj < dp.take(i as int).len() && dp.take(i as int)[jj] == pr;
                        assert(dp[jj] == pr);
                        assert(keys_of(dp)[jj] < keys_of(dp)[i as int]);
                    }
                }
                let km = k.to_monotonic();
                if lo <= km && km <= hi {
                    m.push_pair(k, v);
                }
                proof {
                    let tk = dp.take(i as int + 1);
                    assert(tk.drop_last() =~= dp.take(i as int));
                    assert(tk.last() == dp[i as int]);
                    assert(m.pairs() =~= span_pairs(tk, lo as int, hi as int));
                }
                i += 1;
            }
            proof {
                assert(dp.take(dn as int) =~= dp);
                lemma_span_pairs_map(dp, lo as int, hi as int);
            }
            return CacheResponse::Hit(m);
        }
        CacheResponse::Miss(missing_pieces(request, &self.requests))
    }

    /// Merges one resolved request span and its fetched data into the
    /// cache.  Requests grow by union, so adding is idempotent; data for
    /// a key already present is silently overwritten by the new value.
    pub fn add(&mut self, request_range: PeriodSet<K>, data: PeriodMap<K, T>) where T: Copy
        ensures
            final(self).requests_set() == old(self).requests_set().union(request_range.iset()),
            final(self).data_map() == old(self).data_map().union_prefer_right(data.imap()),
    {
        let n = request_range.len();
        let mut i: usize = 0;
        proof {
            assert(request_range.iseq().take(0).to_set() =~= Set::<int>::empty());
            assert(self.requests.iset() =~= old(self).requests_set().union(
                request_range.iseq().take(0).to_set(),
            ));
        }
        while i < n
            invariant
                n == request_range.iseq().len(),
                0 <= i <= n,
                self.data == old(self).data,
                self.requests.iset() == old(self).requests_set().union(
                    request_range.iseq().take(i as int).to_set(),
                ),
            decreases n - i,
        {
            let k = request_range.at(i);
            self.requests.insert(k);
            proof {
                let tk = request_range.iseq().take(i as int + 1);
                assert(tk.drop_last() =~= request_range.iseq().take(i as int));
                assert(tk.last() == k.index());
                assert(tk.to_set() =~= request_range.iseq().take(i as int).to_set().insert(
                    k.index(),
                )) by {
                    assert forall|y: int| tk.to_set().contains(y) implies request_range.iseq().take(
                        i as int,
                    ).to_set().insert(k.index()).contains(y) by {
                        let j = choose|j: int| 0 <= j < tk.len() && tk[j] == y;
                        if j < tk.len() - 1 {
                            assert(request_range.iseq().take(i as int)[j] == y);
                        }
                    }
                    assert forall|y: int|
                        request_range.iseq().take(i as int).to_set().insert(k.index()).contains(
                            y,
                        ) implies tk.to_set().contains(y) by {
                        if y == k.index() {
                            assert(tk[tk.len() - 1] == y);
                        } else {
                            let j = choose|j: int|
                                0 <= j < request_range.iseq().take(i as int).len()
                                    && request_range.iseq().take(i as int)[j] == y;
                            assert(tk[j] == y);
                        }
                    }
                }
                assert(self.requests.iset() =~= old(self).requests_set().union(tk.to_set()));
            }
            i += 1;
        }
        proof {
            assert(request_range.iseq().take(n as int) =~= request_range.iseq());
        }
        let dn = data.len();
        let ghost dp = data.pairs();
        let mut j: usize = 0;
        proof {
            assert(pairs_to_map(dp.take(0)) =~= Map::<int, T>::empty());
            assert(self.data.imap() =~= old(self).data_map().union_prefer_right(
                pairs_to_map(dp.take(0)),
            ));
        }
        while j < dn
            invariant
                dn == dp.len(),
                dp == data.pairs(),
                0 <= j <= dn,
                self.requests.iset() == old(self).requests_set().union(request_range.iset()),
                self.data.imap() == old(self).data_map().union_prefer_right(
                    pairs_to_map(dp.take(j as int)),
                ),
            decreases dn - j,
        {
            let (k, v) = data.pair_at(j);
            self.data.insert(k, v);
            proof {
                let tk = dp.take(j as int + 1);
                assert(tk.drop_last() =~= dp.take(j as int));
                assert(tk.last() == dp[j as int]);
                assert((k.index(), v) == dp[j as int]);
                assert(pairs_to_map(tk) == pairs_to_map(dp.take(j as int)).insert(k.index(), v));
                assert(self.data.imap() =~= old(self).data_map().union_prefer_right(
                    pairs_to_map(tk),
                ));
            }
            j += 1;
        }
        proof {
            assert(dp.take(dn as int) =~= dp);
        }
    }
}

} // verus!
