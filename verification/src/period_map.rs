use vstd::prelude::*;

use crate::TimeResolution;
use crate::containers::sorted_strict;

verus! {

/// The keys of a sequence of index-value pairs, in sequence order.
pub open spec fn keys_of<T>(s: Seq<(int, T)>) -> Seq<int> {
    s.map_values(|p: (int, T)| p.0)
}

/// The indexes behind a vector of key-value pairs.
pub open spec fn pair_index_seq<K: TimeResolution, T>(s: Seq<(K, T)>) -> Seq<(int, T)> {
    s.map_values(|p: (K, T)| (p.0.index(), p.1))
}

/// The finite map described by a sequence of index-value pairs; a later
/// pair wins over an earlier one with the same key.
pub open spec fn pairs_to_map<T>(s: Seq<(int, T)>) -> Map<int, T>
    decreases s.len(),
{
    if s.len() == 0 {
        Map::empty()
    } else {
        pairs_to_map(s.drop_last()).insert(s.last().0, s.last().1)
    }
}

/// With pairwise distinct keys, the map of a pair sequence holds exactly
/// the listed keys, each bound to its listed value.
pub proof fn lemma_pairs_to_map<T>(s: Seq<(int, T)>)
    requires
        forall|i: int, j: int| 0 <= i < j < s.len() ==> s[i].0 != s[j].0,
    ensures
        pairs_to_map(s).dom() == keys_of(s).to_set(),
        forall|i: int|
            0 <= i < s.len() ==> pairs_to_map(s).dom().contains(#[trigger] s[i].0)
                && pairs_to_map(s)[s[i].0] == s[i].1,
    decreases s.len(),
{
    if s.len() == 0 {
        assert(pairs_to_map(s).dom() =~= keys_of(s).to_set());
    } else {
        let d = s.drop_last();
        lemma_pairs_to_map(d);
        assert(keys_of(d) =~= keys_of(s).drop_last());
        assert(pairs_to_map(s).dom() =~= keys_of(s).to_set()) by {
            assert forall|y: int| keys_of(s).to_set().contains(y) implies pairs_to_map(
                s,
            ).dom().contains(y) by {
                let i = choose|i: int| 0 <= i < keys_of(s).len() && keys_of(s)[i] == y;
                if i < s.len() - 1 {
                    assert(keys_of(d)[i] == y);
                    assert(keys_of(d).to_set().contains(y));
                }
            }
            assert forall|y: int| pairs_to_map(s).dom().contains(y) implies keys_of(
                s,
            ).to_set().contains(y) by {
                if y == s.last().0 {
                    assert(keys_of(s)[s.len() - 1] == y);
                } else {
                    let i = choose|i: int| 0 <= i < keys_of(d).len() && keys_of(d)[i] == y;
                    assert(keys_of(s)[i] == y);
                }
            }
        }
        assert forall|i: int| 0 <= i < s.len() implies pairs_to_map(s).dom().contains(
            #[trigger] s[i].0,
        ) && pairs_to_map(s)[s[i].0] == s[i].1 by {
            if i < s.len() - 1 {
                assert(d[i] == s[i]);
                assert(s[i].0 != s.last().0);
            }
        }
    }
}

/// The pairs of a sequence whose keys lie within an inclusive span,
/// in sequence order.
pub open spec fn span_pairs<T>(s: Seq<(int, T)>, lo: int, hi: int) -> Seq<(int, T)>
    decreases s.len(),
{
    if s.len() == 0 {
        Seq::empty()
    } else {
        let r = span_pairs(s.drop_last(), lo, hi);
        if lo <= s.last().0 <= hi {
            r.push(s.last())
        } else {
            r
        }
    }
}

/// Every pair within the span is kept, every pair kept comes from the
/// sequence, and order is kept; with ascending keys the result's keys
/// ascend too.
pub proof fn lemma_span_pairs<T>(s: Seq<(int, T)>, lo: int, hi: int)
    requires
        sorted_strict(keys_of(s)),
    ensures
        forall|i: int|
            0 <= i < span_pairs(s, lo, hi).len() ==> s.contains(#[trigger] span_pairs(s, lo, hi)[i])
                && lo <= span_pairs(s, lo, hi)[i].0 <= hi,
        forall|i: int|
            0 <= i < s.len() && lo <= #[trigger] s[i].0 <= hi ==> span_pairs(s, lo, hi).contains(
                s[i],
            ),
        sorted_strict(keys_of(span_pairs(s, lo, hi))),
    decreases s.len(),
{
    if s.len() > 0 {
        let d = s.drop_last();
        assert(sorted_strict(keys_of(d))) by {
            assert(keys_of(d) =~= keys_of(s).drop_last());
        }
        lemma_span_pairs(d, lo, hi);
        let r = span_pairs(d, lo, hi);
        assert forall|i: int| 0 <= i < d.len() implies s.contains(d[i]) by {
            assert(s[i] == d[i]);
        }
        assert(s.contains(s.last())) by {
            assert(s[s.len() - 1] == s.last());
        }
        assert forall|i: int|
            0 <= i < s.len() && lo <= #[trigger] s[i].0 <= hi implies span_pairs(s, lo, hi).contains(
            s[i],
        ) by {
            if i < s.len() - 1 {
                assert(d[i] == s[i]);
                assert(r.contains(s[i]));
                let j = choose|j: int| 0 <= j < r.len() && r[j] == s[i];
                assert(span_pairs(s, lo, hi)[j] == s[i]);
            } else {
                assert(span_pairs(s, lo, hi).last() == s.last());
            }
        }
        if lo <= s.last().0 <= hi {
            assert forall|p: int, q: int|
                0 <= p < q < keys_of(span_pairs(s, lo, hi)).len() implies keys_of(
                span_pairs(s, lo, hi),
            )[p] < keys_of(span_pairs(s, lo, hi))[q] by {
                if q == r.len() {
                    lemma_span_member_of(d, lo, hi, p);
                    let j = choose|j: int| 0 <= j < d.len() && d[j] == r[p];
                    assert(keys_of(s)[j] == r[p].0);
                    assert(keys_of(s)[j] < keys_of(s)[s.len() - 1]);
                } else {
                    assert(keys_of(r)[p] < keys_of(r)[q]);
                }
            }
        }
    }
}

/// Each member of a span selection appears in the underlying sequence.
proof fn lemma_span_member_of<T>(s: Seq<(int, T)>, lo: int, hi: int, i: int)
    requires
        0 <= i < span_pairs(s, lo, hi).len(),
    ensures
        s.contains(span_pairs(s, lo, hi)[i]),
    decreases s.len(),
{
    if s.len() > 0 {
        let d = s.drop_last();
        let r = span_pairs(d, lo, hi);
        if i < r.len() {
            lemma_span_member_of(d, lo, hi, i);
            let j = choose|j: int| 0 <= j < d.len() && d[j] == r[i];
            assert(s[j] == r[i]);
        } else {
            assert(s[s.len() - 1] == s.last());
        }
    }
}


/// The part of a map whose keys lie within an inclusive span.
pub open spec fn map_span_restrict<T>(m: Map<int, T>, lo: int, hi: int) -> Map<int, T> {
    Map::new(|k: int| m.dom().contains(k) && lo <= k <= hi, |k: int| m[k])
}

/// With ascending keys, strictly ascending order makes the keys pairwise
/// distinct.
pub proof fn lemma_sorted_keys_distinct<T>(s: Seq<(int, T)>)
    requires
        sorted_strict(keys_of(s)),
    ensures
        forall|i: int, j: int| 0 <= i < j < s.len() ==> s[i].0 != s[j].0,
{
    assert forall|i: int, j: int| 0 <= i < j < s.len() implies s[i].0 != s[j].0 by {
        assert(keys_of(s)[i] < keys_of(s)[j]);
    }
}

/// Selecting the pairs within a span and then reading them as a map is
/// the same as restricting the whole map to that span.
pub proof fn lemma_span_pairs_map<T>(s: Seq<(int, T)>, lo: int, hi: int)
    requires
        sorted_strict(keys_of(s)),
    ensures
        pairs_to_map(span_pairs(s, lo, hi)) == map_span_restrict(pairs_to_map(s), lo, hi),
{
    let sp = span_pairs(s, lo, hi);
    lemma_span_pairs(s, lo, hi);
    lemma_sorted_keys_distinct(s);
    lemma_sorted_keys_distinct(sp);
    lemma_pairs_to_map(s);
    lemma_pairs_to_map(sp);
    assert(pairs_to_map(sp) =~= map_span_restrict(pairs_to_map(s), lo, hi)) by {
        assert forall|y: int| pairs_to_map(sp).dom().contains(y) implies map_span_restrict(
            pairs_to_map(s),
            lo,
            hi,
        ).dom().contains(y) && pairs_to_map(sp)[y] == map_span_restrict(pairs_to_map(s), lo, hi)[y] by {
            let i = choose|i: int| 0 <= i < keys_of(sp).len() && keys_of(sp)[i] == y;
            assert(sp[i].0 == y);
            assert(s.contains(sp[i]));
            let j = choose|j: int| 0 <= j < s.len() && s[j] == sp[i];
            assert(keys_of(s)[j] == y);
            assert(keys_of(s).to_set().contains(y));
            assert(pairs_to_map(s)[y] == s[j].1);
            assert(pairs_to_map(sp)[y] == sp[i].1);
        }
        assert forall|y: int| map_span_restrict(pairs_to_map(s), lo, hi).dom().contains(
            y,
        ) implies pairs_to_map(sp).dom().contains(y) by {
            let j = choose|j: int| 0 <= j < keys_of(s).len() && keys_of(s)[j] == y;
            assert(s[j].0 == y);
            assert(sp.contains(s[j]));
            let i = choose|i: int| 0 <= i < sp.len() && sp[i] == s[j];
            assert(keys_of(sp)[i] == y);
            assert(keys_of(sp).to_set().contains(y));
        }
    }
}

/// A sparse map from period keys to data, kept as a vector of pairs in
/// strictly ascending key-index order.  It stands in for an ordered tree
/// map: keys are unique and pairs are enumerated in ascending key order.
pub struct PeriodMap<K: TimeResolution, T> {
    items: Vec<(K, T)>,
}

impl<K: TimeResolution, T> PeriodMap<K, T> {
    /// The key-index/value pairs in ascending key order.
    pub closed spec fn pairs(&self) -> Seq<(int, T)> {
        pair_index_seq(self.items@)
    }

    /// The map from key indexes to data.
    pub open spec fn imap(&self) -> Map<int, T> {
        pairs_to_map(self.pairs())
    }

    #[verifier::type_invariant]
    spec fn inv(&self) -> bool {
        sorted_strict(keys_of(self.pairs()))
    }

    pub fn new() -> (r: Self)
        ensures
            r.pairs() == Seq::<(int, T)>::empty(),
            r.imap() == Map::<int, T>::empty(),
    {
        let items: Vec<(K, T)> = Vec::new();
        proof {
            assert(pair_index_seq(items@) =~= Seq::<(int, T)>::empty());
        }
        PeriodMap { items }
    }

    pub fn len(&self) -> (r: usize)
        ensures
            r == self.pairs().len(),
            sorted_strict(keys_of(self.pairs())),
    {
        proof {
            use_type_invariant(&*self);
        }
        self.items.len()
    }

    pub fn is_empty(&self) -> (r: bool)
        ensures
            r == (self.pairs().len() == 0),
    {
        self.items.len() == 0
    }

    /// The pair at a position, counting in ascending key order.
    pub fn pair_at(&self, i: usize) -> (r: (K, T)) where T: Copy
        requires
            i < self.pairs().len(),
        ensures
            (r.0.index(), r.1) == self.pairs()[i as int],
            sorted_strict(keys_of(self.pairs())),
    {
        proof {
            use_type_invariant(&*self);
        }
        self.items[i]
    }

    pub fn get(&self, k: K) -> (r: Option<T>) where T: Copy
        ensures
            match r {
                Some(v) => self.imap().dom().contains(k.index()) && self.imap()[k.index()] == v,
                None => !self.imap().dom().contains(k.index()),
            },
    {
        proof {
            use_type_invariant(&*self);
            lemma_sorted_keys_distinct(self.pairs());
            lemma_pairs_to_map(self.pairs());
        }
        let x = k.to_monotonic();
        let n = self.items.len();
        let mut i: usize = 0;
        while i < n
            invariant
                n == self.items.len(),
                0 <= i <= n,
                x as int == k.index(),
                forall|j: int| 0 <= j < i ==> self.pairs()[j].0 != k.index(),
                forall|j: int|
                    0 <= j < self.pairs().len() ==> self.imap().dom().contains(
                        #[trigger] self.pairs()[j].0,
                    ) && self.imap()[self.pairs()[j].0] == self.pairs()[j].1,
                self.imap().dom() == keys_of(self.pairs()).to_set(),
            decreases n - i,
        {
            let (ki, v) = self.items[i];
            if ki.to_monotonic() == x {
                proof {
                    assert(self.pairs()[i as int] == (k.index(), v));
                    assert(self.imap().dom().contains(self.pairs()[i as int].0));
                    assert(self.imap()[self.pairs()[i as int].0] == self.pairs()[i as int].1);
                }
                return Some(v);
            }
            proof {
                assert(self.pairs()[i as int].0 != k.index());
            }
            i += 1;
        }
        proof {
            assert forall|y: int| keys_of(self.pairs()).to_set().contains(y) implies y
                != k.index() by {
                let j = choose|j: int|
                    0 <= j < keys_of(self.pairs()).len() && keys_of(self.pairs())[j] == y;
                assert(self.pairs()[j].0 == y);
            }
        }
        None
    }

    /// Adds or replaces the binding of one key; a key already bound is
    /// silently overwritten.
    pub fn insert(&mut self, k: K, v: T)
        ensures
            final(self).imap() == old(self).imap().insert(k.index(), v),
            final(self).pairs().len() <= old(self).pairs().len() + 1,
    {
        proof {
            use_type_invariant(&*self);
        }
        let ghost s0 = self.pairs();
        let x = k.to_monotonic();
        let mut items: Vec<(K, T)> = Vec::new();
        std::mem::swap(&mut items, &mut self.items);
        let n = items.len();
        let mut i: usize = 0;
        while i < n && items[i].0.to_monotonic() < x
            invariant
                n == items.len(),
                s0 == pair_index_seq(items@),
                sorted_strict(keys_of(s0)),
                x as int == k.index(),
                0 <= i <= n,
                forall|j: int| 0 <= j < i ==> s0[j].0 < k.index(),
            decreases n - i,
        {
            i += 1;
        }
        proof {
            lemma_sorted_keys_distinct(s0);
            lemma_pairs_to_map(s0);
            assert(i < n ==> s0[i as int].0 >= k.index());
            assert forall|j: int| i <= j < n implies s0[j].0 >= k.index() by {
                if j > i {
                    assert(keys_of(s0)[i as int] < keys_of(s0)[j]);
                }
            }
        }
        if i < n && items[i].0.to_monotonic() == x {
            items.remove(i);
            items.insert(i, (k, v));
            proof {
                let s1 = pair_index_seq(items@);
                assert(s1 =~= s0.update(i as int, (k.index(), v)));
                assert(keys_of(s1) =~= keys_of(s0));
                lemma_sorted_keys_distinct(s1);
                lemma_pairs_to_map(s1);
                assert(pairs_to_map(s1) =~= pairs_to_map(s0).insert(k.index(), v)) by {
                    assert(s0[i as int].0 == k.index());
                    assert(keys_of(s0).to_set().contains(k.index())) by {
                        assert(keys_of(s0)[i as int] == k.index());
                    }
                    assert forall|y: int| pairs_to_map(s1).dom().contains(y) implies pairs_to_map(
                        s1,
                    )[y] == pairs_to_map(s0).insert(k.index(), v)[y] by {
                        let j = choose|j: int| 0 <= j < keys_of(s1).len() && keys_of(s1)[j] == y;
                        assert(s1[j].0 == y);
                        assert(pairs_to_map(s1)[y] == s1[j].1);
                        if j != i {
                            assert(s1[j] == s0[j]);
                            assert(y != k.index()) by {
                                assert(s1[i as int].0 == k.index());
                            }
                            assert(pairs_to_map(s0)[y] == s0[j].1);
                        }
                    }
                }
            }
            self.items = items;
            return ;
        }
        items.insert(i, (k, v));
        proof {
            let s1 = pair_index_seq(items@);
            assert(s1 =~= s0.insert(i as int, (k.index(), v)));
            s0.insert_ensures(i as int, (k.index(), v));
            assert(forall|j: int| i <= j < n ==> s0[j].0 > k.index());
            assert forall|p: int, q: int| 0 <= p < q < keys_of(s1).len() implies keys_of(s1)[p]
                < keys_of(s1)[q] by {
                assert(sorted_strict(keys_of(s0)));
                assert(forall|j: int| 0 <= j < s0.len() ==> keys_of(s0)[j] == s0[j].0);
                assert(keys_of(s1)[p] == s1[p].0);
                assert(keys_of(s1)[q] == s1[q].0);
            }
            lemma_sorted_keys_distinct(s1);
            lemma_pairs_to_map(s1);
            assert(pairs_to_map(s1) =~= pairs_to_map(s0).insert(k.index(), v)) by {
                assert forall|y: int| pairs_to_map(s1).dom().contains(y) implies pairs_to_map(
                    s0,
                ).insert(k.index(), v).dom().contains(y) && pairs_to_map(s1)[y] == pairs_to_map(
                    s0,
                ).insert(k.index(), v)[y] by {
                    let j = choose|j: int| 0 <= j < keys_of(s1).len() && keys_of(s1)[j] == y;
                    assert(s1[j].0 == y);
                    assert(pairs_to_map(s1)[y] == s1[j].1);
                    if j != i {
                        let j0: int = if j < i { j } else { j - 1 };
                        assert(s1[j] == s0[j0]);
                        assert(y != k.index());
                        assert(keys_of(s0)[j0] == y);
                        assert(keys_of(s0).to_set().contains(y));
                        assert(pairs_to_map(s0)[y] == s0[j0].1);
                    }
                }
                assert forall|y: int| pairs_to_map(s0).insert(k.index(), v).dom().contains(
                    y,
                ) implies pairs_to_map(s1).dom().contains(y) by {
                    if y == k.index() {
                        assert(keys_of(s1)[i as int] == y);
                        assert(keys_of(s1).to_set().contains(y));
                    } else {
                        let j = choose|j: int| 0 <= j < keys_of(s0).len() && keys_of(s0)[j] == y;
                        if j < i {
                            assert(s1[j] == s0[j]);
                            assert(keys_of(s1)[j] == y);
                        } else {
                            assert(s1[j + 1] == s0[j]);
                            assert(keys_of(s1)[j + 1] == y);
                        }
                        assert(keys_of(s1).to_set().contains(y));
                    }
                }
            }
        }
        self.items = items;
    }

    /// Adds a binding above every present key, keeping order.
    pub(crate) fn push_pair(&mut self, k: K, v: T)
        requires
            forall|j: int| 0 <= j < old(self).pairs().len() ==> old(self).pairs()[j].0 < k.index(),
        ensures
            final(self).pairs() == old(self).pairs().push((k.index(), v)),
    {
        proof {
            use_type_invariant(&*self);
        }
        let ghost s0 = self.pairs();
        let mut items: Vec<(K, T)> = Vec::new();
        std::mem::swap(&mut items, &mut self.items);
        items.push((k, v));
        proof {
            let s1 = pair_index_seq(items@);
            assert(s1 =~= s0.push((k.index(), v)));
            assert forall|p: int, q: int| 0 <= p < q < keys_of(s1).len() implies keys_of(s1)[p]
                < keys_of(s1)[q] by {
                assert(keys_of(s1)[p] == s1[p].0);
                assert(keys_of(s1)[q] == s1[q].0);
                if q < s0.len() {
                    assert(keys_of(s0)[p] < keys_of(s0)[q]);
                }
            }
        }
        self.items = items;
    }
}

} // verus!
