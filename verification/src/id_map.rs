//! A small map keyed by numbers, in ascending order.

use vstd::prelude::*;

verus! {

/// A map from numbers to values, in ascending order of the numbers.
#[derive(Debug)]
pub struct IdMap<V> {
    ids: Vec<u64>,
    values: Vec<V>,
}

/// Every number is smaller than the ones behind it.
pub open spec fn ids_ascend(s: Seq<u64>) -> bool {
    forall|i: int, j: int| 0 <= i < j < s.len() ==> s[i] < s[j]
}

impl<V> IdMap<V> {
    /// The numbers in order.
    pub closed spec fn id_seq(&self) -> Seq<u64> {
        self.ids@
    }

    /// The values, each beside its number.
    pub closed spec fn value_seq(&self) -> Seq<V> {
        self.values@
    }

    /// The numbers ascend and each has a value.
    pub open spec fn wf(&self) -> bool {
        &&& self.id_seq().len() == self.value_seq().len()
        &&& ids_ascend(self.id_seq())
    }
}

impl<V> View for IdMap<V> {
    type V = Map<u64, V>;

    open spec fn view(&self) -> Map<u64, V> {
        Map::new(
            |n: u64| self.id_seq().contains(n),
            |n: u64| self.value_seq()[self.id_seq().index_of(n)],
        )
    }
}

impl<V> IdMap<V> {
    /// A number stands for the value at its place.
    pub proof fn lemma_entry(&self, i: int)
        requires
            self.wf(),
            0 <= i < self.id_seq().len(),
        ensures
            self@.contains_key(self.id_seq()[i]),
            self@[self.id_seq()[i]] == self.value_seq()[i],
    {
        let n = self.id_seq()[i];
        assert(self.id_seq().contains(n));
        let j = self.id_seq().index_of(n);
        assert(self.id_seq()[j] == n);
        if i < j {
            assert(self.id_seq()[i] < self.id_seq()[j]);
        } else if j < i {
            assert(self.id_seq()[j] < self.id_seq()[i]);
        }
    }

    /// Makes an empty map.
    pub fn new() -> (r: Self)
        ensures
            r.wf(),
            r@ == Map::<u64, V>::empty(),
            r.id_seq().len() == 0,
    {
        let r = IdMap { ids: Vec::new(), values: Vec::new() };
        assert(r@ =~= Map::<u64, V>::empty());
        r
    }

    /// How many numbers there are.
    pub fn len(&self) -> (r: usize)
        ensures
            r == self.id_seq().len(),
    {
        self.ids.len()
    }

    /// The value at place `i`.
    pub fn value_at(&self, i: usize) -> (r: &V)
        requires
            self.wf(),
            i < self.id_seq().len(),
        ensures
            *r == self.value_seq()[i as int],
    {
        &self.values[i]
    }

    /// Where `id` stands, or where it would stand.
    fn find(&self, id: u64) -> (r: (usize, bool))
        requires
            self.wf(),
        ensures
            r.0 <= self.id_seq().len(),
            forall|i: int| 0 <= i < r.0 ==> self.id_seq()[i] < id,
            forall|i: int| r.0 <= i < self.id_seq().len() ==> self.id_seq()[i] >= id,
            r.1 == self@.contains_key(id),
            r.1 ==> r.0 < self.id_seq().len() && self.id_seq()[r.0 as int] == id,
    {
        let mut lo: usize = 0;
        let mut hi: usize = self.ids.len();
        while lo < hi
            invariant
                self.wf(),
                lo <= hi <= self.id_seq().len(),
                forall|i: int| 0 <= i < lo ==> self.id_seq()[i] < id,
                forall|i: int| hi <= i < self.id_seq().len() ==> self.id_seq()[i] >= id,
            decreases hi - lo,
        {
            let mid: usize = lo + (hi - lo) / 2;
            if self.ids[mid] < id {
                assert forall|i: int| 0 <= i < mid + 1 implies self.id_seq()[i] < id by {
                    if i < mid {
                        assert(self.id_seq()[i] < self.id_seq()[mid as int]);
                    }
                }
                lo = mid + 1;
            } else {
                assert forall|i: int| mid <= i < self.id_seq().len() implies self.id_seq()[i]
                    >= id by {
                    if mid < i {
                        assert(self.id_seq()[mid as int] < self.id_seq()[i]);
                    }
                }
                hi = mid;
            }
        }
        let found = lo < self.ids.len() && self.ids[lo] == id;
        proof {
            if found {
                self.lemma_entry(lo as int);
            } else if self.id_seq().contains(id) {
                let j = choose|j: int| 0 <= j < self.id_seq().len() && self.id_seq()[j] == id;
                assert(j >= lo);
                if j > lo {
                    assert(self.id_seq()[lo as int] < self.id_seq()[j]);
                }
            }
        }
        (lo, found)
    }

    /// Whether the map has `id`.
    pub fn contains(&self, id: u64) -> (r: bool)
        requires
            self.wf(),
        ensures
            r == self@.contains_key(id),
    {
        self.find(id).1
    }

    /// The value of `id`.
    pub fn get(&self, id: u64) -> (r: Option<&V>)
        requires
            self.wf(),
        ensures
            r is Some <==> self@.contains_key(id),
            r matches Some(v) ==> *v == self@[id],
    {
        let (i, found) = self.find(id);
        if found {
            proof {
                self.lemma_entry(i as int);
            }
            Some(&self.values[i])
        } else {
            None
        }
    }

    /// The smallest number.
    pub fn first(&self) -> (r: Option<u64>)
        requires
            self.wf(),
        ensures
            r is Some <==> exists|n: u64| #[trigger] self@.contains_key(n),
            r matches Some(n) ==> self@.contains_key(n) && forall|k: u64| #[trigger]
                self@.contains_key(k) ==> n <= k,
    {
        if self.ids.len() == 0 {
            assert forall|n: u64| !#[trigger] self@.contains_key(n) by {}
            None
        } else {
            proof {
                self.lemma_entry(0);
                assert forall|k: u64| #[trigger] self@.contains_key(k) implies self.id_seq()[0]
                    <= k by {
                    let j = choose|j: int| 0 <= j < self.id_seq().len() && self.id_seq()[j] == k;
                    if j > 0 {
                        assert(self.id_seq()[0] < self.id_seq()[j]);
                    }
                }
            }
            Some(self.ids[0])
        }
    }

    /// Sets the value of `id`.
    pub fn insert(&mut self, id: u64, value: V)
        requires
            old(self).wf(),
        ensures
            final(self).wf(),
            final(self)@ == old(self)@.insert(id, value),
    {
        let (i, found) = self.find(id);
        if found {
            self.values.set(i, value);
            proof {
                assert(self.id_seq() == old(self).id_seq());
                assert(self.value_seq() =~= old(self).value_seq().update(i as int, value));
                lemma_replaced(*old(self), *self, i as int);
            }
        } else {
            self.ids.insert(i, id);
            self.values.insert(i, value);
            proof {
                let s = old(self).id_seq();
                assert(self.id_seq() == s.insert(i as int, id));
                assert(self.value_seq() == old(self).value_seq().insert(i as int, value));
                assert forall|a: int, b: int| 0 <= a < b < self.id_seq().len() implies self.id_seq()[a]
                    < self.id_seq()[b] by {
                    let x = if a < i {
                        s[a]
                    } else if a == i {
                        id
                    } else {
                        s[a - 1]
                    };
                    let y = if b < i {
                        s[b]
                    } else if b == i {
                        id
                    } else {
                        s[b - 1]
                    };
                    assert(self.id_seq()[a] == x && self.id_seq()[b] == y);
                    assert(forall|k: int| 0 <= k < s.len() ==> s[k] != id) by {
                        assert forall|k: int| 0 <= k < s.len() implies s[k] != id by {
                            if s[k] == id {
                                old(self).lemma_entry(k);
                            }
                        }
                    }
                }
                assert(s =~= self.id_seq().remove(i as int));
                assert(old(self).value_seq() =~= self.value_seq().remove(i as int));
                lemma_inserted(*old(self), *self, i as int);
            }
        }
    }

    /// Removes `id`.
    pub fn remove(&mut self, id: u64) -> (r: Option<V>)
        requires
            old(self).wf(),
        ensures
            final(self).wf(),
            final(self)@ == old(self)@.remove(id),
            r is Some <==> old(self)@.contains_key(id),
            r matches Some(v) ==> v == old(self)@[id],
    {
        let (i, found) = self.find(id);
        if found {
            let _gone = self.ids.remove(i);
            let value = self.values.remove(i);
            proof {
                let s = old(self).id_seq();
                old(self).lemma_entry(i as int);
                assert(self.id_seq() == s.remove(i as int));
                assert(self.value_seq() == old(self).value_seq().remove(i as int));
                assert forall|a: int, b: int| 0 <= a < b < self.id_seq().len() implies self.id_seq()[a]
                    < self.id_seq()[b] by {
                    let x = if a < i {
                        a
                    } else {
                        a + 1
                    };
                    let y = if b < i {
                        b
                    } else {
                        b + 1
                    };
                    assert(s[x] < s[y]);
                }
                lemma_inserted(*self, *old(self), i as int);
                assert(old(self)@.remove(id) =~= self@);
            }
            Some(value)
        } else {
            assert(old(self)@.remove(id) =~= old(self)@);
            None
        }
    }

    /// Forgets everything.
    pub fn clear(&mut self)
        ensures
            final(self).wf(),
            final(self)@ == Map::<u64, V>::empty(),
    {
        self.ids = Vec::new();
        self.values = Vec::new();
        assert(self@ =~= Map::<u64, V>::empty());
    }
}

proof fn lemma_replaced<V>(before: IdMap<V>, after: IdMap<V>, i: int)
    requires
        before.wf(),
        after.wf(),
        0 <= i < before.id_seq().len(),
        after.id_seq() == before.id_seq(),
        after.value_seq() == before.value_seq().update(i, after.value_seq()[i]),
    ensures
        after@ == before@.insert(before.id_seq()[i], after.value_seq()[i]),
{
    let m = before@.insert(before.id_seq()[i], after.value_seq()[i]);
    assert(after.id_seq().contains(before.id_seq()[i]));
    assert forall|n: u64| after@.contains_key(n) implies #[trigger] after@[n] == m[n] by {
        let j = after.id_seq().index_of(n);
        assert(after.id_seq()[j] == n);
        after.lemma_entry(j);
        before.lemma_entry(j);
        if j != i {
            if j < i {
                assert(before.id_seq()[j] < before.id_seq()[i]);
            } else {
                assert(before.id_seq()[i] < before.id_seq()[j]);
            }
        }
    }
    assert(after@ =~= m);
}

/// `after` is `before` with one more entry at place `i`.
proof fn lemma_inserted<V>(before: IdMap<V>, after: IdMap<V>, i: int)
    requires
        before.wf(),
        after.wf(),
        0 <= i < after.id_seq().len(),
        before.id_seq() == after.id_seq().remove(i),
        before.value_seq() == after.value_seq().remove(i),
    ensures
        after@ == before@.insert(after.id_seq()[i], after.value_seq()[i]),
        !before@.contains_key(after.id_seq()[i]),
{
    let id = after.id_seq()[i];
    let m = before@.insert(id, after.value_seq()[i]);
    if before@.contains_key(id) {
        let j = before.id_seq().index_of(id);
        assert(before.id_seq()[j] == id);
        let k = if j < i {
            j
        } else {
            j + 1
        };
        assert(after.id_seq()[k] == id);
        if k < i {
            assert(after.id_seq()[k] < after.id_seq()[i]);
        } else {
            assert(after.id_seq()[i] < after.id_seq()[k]);
        }
    }
    assert forall|n: u64| after@.contains_key(n) == m.contains_key(n) by {
        if after@.contains_key(n) {
            let j = after.id_seq().index_of(n);
            assert(after.id_seq()[j] == n);
            if j != i {
                let k = if j < i {
                    j
                } else {
                    j - 1
                };
                assert(before.id_seq()[k] == n);
                assert(before.id_seq().contains(n));
            }
        }
        if before@.contains_key(n) {
            let k = before.id_seq().index_of(n);
            assert(before.id_seq()[k] == n);
            let j = if k < i {
                k
            } else {
                k + 1
            };
            assert(after.id_seq()[j] == n);
            assert(after.id_seq().contains(n));
        }
        assert(after.id_seq().contains(id));
    }
    assert forall|n: u64| after@.contains_key(n) implies #[trigger] after@[n] == m[n] by {
        let j = after.id_seq().index_of(n);
        assert(after.id_seq()[j] == n);
        after.lemma_entry(j);
        if j != i {
            let k = if j < i {
                j
            } else {
                j - 1
            };
            assert(before.id_seq()[k] == n);
            before.lemma_entry(k);
            if j < i {
                assert(after.id_seq()[j] < after.id_seq()[i]);
            } else {
                assert(after.id_seq()[i] < after.id_seq()[j]);
            }
        }
    }
    assert(after@ =~= m);
}

} // verus!
