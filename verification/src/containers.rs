use vstd::prelude::*;

use crate::TimeResolution;

verus! {

/// A sequence of integers in strictly ascending order.
pub open spec fn sorted_strict(s: Seq<int>) -> bool {
    forall|i: int, j: int| 0 <= i < j < s.len() ==> s[i] < s[j]
}

/// The mathematical integers behind a vector of machine integers.
pub open spec fn int_seq(s: Seq<i64>) -> Seq<int> {
    s.map_values(|x: i64| x as int)
}

/// An ordered set of raw monotonic indexes, kept as a strictly ascending
/// vector.  It stands in for an ordered tree set: members are unique and
/// enumerated in ascending order.
pub struct IndexSet {
    items: Vec<i64>,
}

impl IndexSet {
    /// The members in ascending order.
    pub closed spec fn iseq(&self) -> Seq<int> {
        int_seq(self.items@)
    }

    /// The members as a set.
    pub open spec fn iset(&self) -> Set<int> {
        self.iseq().to_set()
    }

    #[verifier::type_invariant]
    spec fn inv(&self) -> bool {
        sorted_strict(self.iseq())
    }

    pub fn new() -> (r: Self)
        ensures
            r.iseq() == Seq::<int>::empty(),
    {
        IndexSet { items: Vec::new() }
    }

    pub fn len(&self) -> (r: usize)
        ensures
            r == self.iseq().len(),
            sorted_strict(self.iseq()),
    {
        proof {
            use_type_invariant(&*self);
        }
        self.items.len()
    }

    pub fn is_empty(&self) -> (r: bool)
        ensures
            r == (self.iseq().len() == 0),
    {
        self.items.len() == 0
    }

    /// The member at a position, counting in ascending order.
    pub fn at(&self, i: usize) -> (r: i64)
        requires
            i < self.iseq().len(),
        ensures
            r as int == self.iseq()[i as int],
            sorted_strict(self.iseq()),
    {
        proof {
            use_type_invariant(&*self);
        }
        self.items[i]
    }

    pub fn contains(&self, x: i64) -> (r: bool)
        ensures
            r == self.iset().contains(x as int),
    {
        proof {
            use_type_invariant(&*self);
        }
        let n = self.items.len();
        let mut i: usize = 0;
        while i < n
            invariant
                n == self.items.len(),
                0 <= i <= n,
                forall|j: int| 0 <= j < i ==> self.iseq()[j] != x as int,
            decreases n - i,
        {
            if self.items[i] == x {
                proof {
                    assert(self.iseq()[i as int] == x as int);
                    assert(self.iseq().contains(x as int));
                }
                return true;
            }
            i += 1;
        }
        proof {
            assert forall|y: int| self.iseq().contains(y) implies y != x as int by {
                let k = choose|k: int| 0 <= k < self.iseq().len() && self.iseq()[k] == y;
            }
        }
        false
    }

    /// Adds a member; present members stay, order is kept.
    pub fn insert(&mut self, x: i64)
        ensures
            final(self).iset() == old(self).iset().insert(x as int),
            final(self).iseq().len() <= old(self).iseq().len() + 1,
    {
        proof {
            use_type_invariant(&*self);
        }
        let ghost s0 = self.iseq();
        let mut items: Vec<i64> = Vec::new();
        std::mem::swap(&mut items, &mut self.items);
        let n = items.len();
        let mut i: usize = 0;
        while i < n && items[i] < x
            invariant
                n == items.len(),
                s0 == int_seq(items@),
                sorted_strict(s0),
                0 <= i <= n,
                forall|j: int| 0 <= j < i ==> s0[j] < x as int,
            decreases n - i,
        {
            i += 1;
        }
        if i < n && items[i] == x {
            proof {
                assert(s0[i as int] == x as int);
                assert(s0.contains(x as int));
                assert(s0.to_set() =~= s0.to_set().insert(x as int));
            }
            self.items = items;
            return ;
        }
        proof {
            assert(i < n ==> items@[i as int] >= x);
            assert(i < n ==> s0[i as int] > x as int);
            assert forall|j: int| i <= j < n implies s0[j] > x as int by {
                if j > i {
                    assert(s0[i as int] < s0[j]);
                }
            }
        }
        items.insert(i, x);
        proof {
            let s1 = int_seq(items@);
            assert(s1 =~= s0.insert(i as int, x as int));
            s0.insert_ensures(i as int, x as int);
            assert forall|p: int, q: int| 0 <= p < q < s1.len() implies s1[p] < s1[q] by {
                assert(sorted_strict(s0));
            }
            assert(s1.to_set() =~= s0.to_set().insert(x as int)) by {
                assert forall|y: int| s1.to_set().contains(y) implies s0.to_set().insert(
                    x as int,
                ).contains(y) by {
                    let k = choose|k: int| 0 <= k < s1.len() && s1[k] == y;
                    if k < i {
                        assert(s0[k] == y);
                        assert(s0.contains(y));
                    } else if k > i {
                        assert(s0[k - 1] == y);
                        assert(s0.contains(y));
                    }
                }
                assert forall|y: int| s0.to_set().insert(x as int).contains(y) implies s1.to_set().contains(
                    y,
                ) by {
                    if y == x as int {
                        assert(s1[i as int] == y);
                        assert(s1.contains(y));
                    } else {
                        let k = choose|k: int| 0 <= k < s0.len() && s0[k] == y;
                        if k < i {
                            assert(s1[k] == y);
                        } else {
                            assert(s1[k + 1] == y);
                        }
                        assert(s1.contains(y));
                    }
                }
            }
        }
        self.items = items;
    }

    /// Adds a member above every present member, keeping order.
    pub(crate) fn append(&mut self, x: i64)
        requires
            forall|j: int| 0 <= j < old(self).iseq().len() ==> old(self).iseq()[j] < x as int,
        ensures
            final(self).iseq() == old(self).iseq().push(x as int),
    {
        proof {
            use_type_invariant(&*self);
        }
        let ghost s0 = self.iseq();
        let mut items: Vec<i64> = Vec::new();
        std::mem::swap(&mut items, &mut self.items);
        items.push(x);
        proof {
            let s1 = int_seq(items@);
            assert(s1 =~= s0.push(x as int));
            assert forall|p: int, q: int| 0 <= p < q < s1.len() implies s1[p] < s1[q] by {
                assert(sorted_strict(s0));
            }
        }
        self.items = items;
    }
}

/// The monotonic indexes behind a vector of periods.
pub open spec fn key_seq<K: TimeResolution>(s: Seq<K>) -> Seq<int> {
    s.map_values(|k: K| k.index())
}

/// An ordered set of periods of one kind, kept as a vector in strictly
/// ascending index order.  It stands in for an ordered tree set of keys:
/// members are unique and enumerated in ascending order.
pub struct PeriodSet<K: TimeResolution> {
    items: Vec<K>,
}

impl<K: TimeResolution> PeriodSet<K> {
    /// The members' indexes in ascending order.
    pub closed spec fn iseq(&self) -> Seq<int> {
        key_seq(self.items@)
    }

    /// The members' indexes as a set.
    pub open spec fn iset(&self) -> Set<int> {
        self.iseq().to_set()
    }

    #[verifier::type_invariant]
    spec fn inv(&self) -> bool {
        sorted_strict(self.iseq())
    }

    pub fn new() -> (r: Self)
        ensures
            r.iseq() == Seq::<int>::empty(),
    {
        PeriodSet { items: Vec::new() }
    }

    /// The set holding one period.
    pub fn singleton(k: K) -> (r: Self)
        ensures
            r.iseq() == seq![k.index()],
    {
        let mut items = Vec::new();
        items.push(k);
        proof {
            assert(key_seq(items@) =~= seq![k.index()]);
        }
        PeriodSet { items }
    }

    pub fn len(&self) -> (r: usize)
        ensures
            r == self.iseq().len(),
            sorted_strict(self.iseq()),
    {
        proof {
            use_type_invariant(&*self);
        }
        self.items.len()
    }

    pub fn is_empty(&self) -> (r: bool)
        ensures
            r == (self.iseq().len() == 0),
    {
        self.items.len() == 0
    }

    /// The member at a position, counting in ascending index order.
    pub fn at(&self, i: usize) -> (r: K)
        requires
            i < self.iseq().len(),
        ensures
            r.index() == self.iseq()[i as int],
            sorted_strict(self.iseq()),
    {
        proof {
            use_type_invariant(&*self);
        }
        self.items[i]
    }

    pub fn contains(&self, k: K) -> (r: bool)
        ensures
            r == self.iset().contains(k.index()),
    {
        proof {
            use_type_invariant(&*self);
        }
        let x = k.to_monotonic();
        let n = self.items.len();
        let mut i: usize = 0;
        while i < n
            invariant
                n == self.items.len(),
                0 <= i <= n,
                x as int == k.index(),
                forall|j: int| 0 <= j < i ==> self.iseq()[j] != k.index(),
            decreases n - i,
        {
            if self.items[i].to_monotonic() == x {
                proof {
                    assert(self.iseq()[i as int] == k.index());
                    assert(self.iseq().contains(k.index()));
                }
                return true;
            }
            i += 1;
        }
        proof {
            assert forall|y: int| self.iseq().contains(y) implies y != k.index() by {
                let j = choose|j: int| 0 <= j < self.iseq().len() && self.iseq()[j] == y;
            }
        }
        false
    }

    /// Adds a member; present members stay, order is kept.
    pub fn insert(&mut self, k: K)
        ensures
            final(self).iset() == old(self).iset().insert(k.index()),
            final(self).iseq().len() <= old(self).iseq().len() + 1,
    {
        proof {
            use_type_invariant(&*self);
        }
        let ghost s0 = self.iseq();
        let x = k.to_monotonic();
        let mut items: Vec<K> = Vec::new();
        std::mem::swap(&mut items, &mut self.items);
        let n = items.len();
        let mut i: usize = 0;
        while i < n && items[i].to_monotonic() < x
            invariant
                n == items.len(),
                s0 == key_seq(items@),
                sorted_strict(s0),
                x as int == k.index(),
                0 <= i <= n,
                forall|j: int| 0 <= j < i ==> s0[j] < k.index(),
            decreases n - i,
        {
            i += 1;
        }
        if i < n && items[i].to_monotonic() == x {
            proof {
                assert(s0[i as int] == k.index());
                assert(s0.contains(k.index()));
                assert(s0.to_set() =~= s0.to_set().insert(k.index()));
            }
            self.items = items;
            return ;
        }
        proof {
            assert(i < n ==> s0[i as int] > k.index());
            assert forall|j: int| i <= j < n implies s0[j] > k.index() by {
                if j > i {
                    assert(s0[i as int] < s0[j]);
                }
            }
        }
        items.insert(i, k);
        proof {
            let s1 = key_seq(items@);
            assert(s1 =~= s0.insert(i as int, k.index()));
            s0.insert_ensures(i as int, k.index());
            assert forall|p: int, q: int| 0 <= p < q < s1.len() implies s1[p] < s1[q] by {
                assert(sorted_strict(s0));
            }
            assert(s1.to_set() =~= s0.to_set().insert(k.index())) by {
                assert forall|y: int| s1.to_set().contains(y) implies s0.to_set().insert(
                    k.index(),
                ).contains(y) by {
                    let j = choose|j: int| 0 <= j < s1.len() && s1[j] == y;
                    if j < i {
                        assert(s0[j] == y);
                        assert(s0.contains(y));
                    } else if j > i {
                        assert(s0[j - 1] == y);
                        assert(s0.contains(y));
                    }
                }
                assert forall|y: int| s0.to_set().insert(k.index()).contains(y) implies s1.to_set().contains(
                    y,
                ) by {
                    if y == k.index() {
                        assert(s1[i as int] == y);
                        assert(s1.contains(y));
                    } else {
                        let j = choose|j: int| 0 <= j < s0.len() && s0[j] == y;
                        if j < i {
                            assert(s1[j] == y);
                        } else {
                            assert(s1[j + 1] == y);
                        }
                        assert(s1.contains(y));
                    }
                }
            }
        }
        self.items = items;
    }


    /// Adds a member above every present member, keeping order.
    pub(crate) fn append(&mut self, k: K)
        requires
            forall|j: int| 0 <= j < old(self).iseq().len() ==> old(self).iseq()[j] < k.index(),
        ensures
            final(self).iseq() == old(self).iseq().push(k.index()),
    {
        proof {
            use_type_invariant(&*self);
        }
        let ghost s0 = self.iseq();
        let mut items: Vec<K> = Vec::new();
        std::mem::swap(&mut items, &mut self.items);
        items.push(k);
        proof {
            let s1 = key_seq(items@);
            assert(s1 =~= s0.push(k.index()));
            assert forall|p: int, q: int| 0 <= p < q < s1.len() implies s1[p] < s1[q] by {
                assert(sorted_strict(s0));
            }
        }
        self.items = items;
    }

    /// Does this set hold every member of the other?
    pub fn is_superset(&self, other: &PeriodSet<K>) -> (r: bool)
        ensures
            r == other.iset().subset_of(self.iset()),
    {
        proof {
            use_type_invariant(&*self);
            use_type_invariant(&*other);
        }
        let n = other.items.len();
        let mut i: usize = 0;
        while i < n
            invariant
                n == other.items.len(),
                0 <= i <= n,
                forall|j: int| 0 <= j < i ==> self.iset().contains(#[trigger] other.iseq()[j]),
            decreases n - i,
        {
            let k = other.items[i];
            if !self.contains(k) {
                proof {
                    assert(other.iseq()[i as int] == k.index());
                    assert(other.iseq().contains(k.index()));
                }
                return false;
            }
            i += 1;
        }
        proof {
            assert forall|y: int| other.iset().contains(y) implies self.iset().contains(y) by {
                let j = choose|j: int| 0 <= j < other.iseq().len() && other.iseq()[j] == y;
            }
        }
        true
    }

    /// Adds a member below every present member, keeping order.
    pub(crate) fn prepend(&mut self, k: K)
        requires
            old(self).iseq().len() > 0 ==> k.index() < old(self).iseq()[0],
        ensures
            final(self).iseq() == seq![k.index()] + old(self).iseq(),
    {
        proof {
            use_type_invariant(&*self);
        }
        let ghost s0 = self.iseq();
        let mut items: Vec<K> = Vec::new();
        std::mem::swap(&mut items, &mut self.items);
        items.insert(0, k);
        proof {
            let s1 = key_seq(items@);
            assert(s1 =~= seq![k.index()] + s0);
            assert forall|p: int, q: int| 0 <= p < q < s1.len() implies s1[p] < s1[q] by {
                assert(sorted_strict(s0));
                if p == 0 {
                    if q > 1 {
                        assert(s0[0] < s0[q - 1]);
                    }
                } else {
                    assert(s0[p - 1] < s0[q - 1]);
                }
            }
        }
        self.items = items;
    }
}

} // verus!
