//! A small map keyed by names.

use vstd::prelude::*;

verus! {

/// A map from names to values, in the order in which the names came.
#[derive(Debug)]
pub struct NameMap<V> {
    names: Vec<String>,
    values: Vec<V>,
}

impl<V> NameMap<V> {
    /// The name at place `i`.
    pub closed spec fn name_seq(&self) -> Seq<Seq<char>> {
        self.names@.map_values(|n: String| n@)
    }

    /// The values, in the order of the names.
    pub closed spec fn value_seq(&self) -> Seq<V> {
        self.values@
    }

    /// No name occurs twice.
    pub open spec fn wf(&self) -> bool {
        &&& self.name_seq().len() == self.value_seq().len()
        &&& self.name_seq().no_duplicates()
    }
}

impl<V> View for NameMap<V> {
    type V = Map<Seq<char>, V>;

    open spec fn view(&self) -> Map<Seq<char>, V> {
        Map::new(
            |n: Seq<char>| self.name_seq().contains(n),
            |n: Seq<char>| self.value_seq()[self.name_seq().index_of(n)],
        )
    }
}

impl<V> NameMap<V> {
    /// A name stands for the value at its place.
    pub proof fn lemma_entry(&self, i: int)
        requires
            self.wf(),
            0 <= i < self.name_seq().len(),
        ensures
            self@.contains_key(self.name_seq()[i]),
            self@[self.name_seq()[i]] == self.value_seq()[i],
    {
        let n = self.name_seq()[i];
        assert(self.name_seq().contains(n));
        let j = self.name_seq().index_of(n);
        assert(self.name_seq()[j] == n);
        assert(i == j);
    }

    /// Makes an empty map.
    pub fn new() -> (r: Self)
        ensures
            r.wf(),
            r@ == Map::<Seq<char>, V>::empty(),
            r.name_seq().len() == 0,
    {
        let r = NameMap { names: Vec::new(), values: Vec::new() };
        assert(r@ =~= Map::<Seq<char>, V>::empty());
        r
    }

    /// Number of names.
    pub fn len(&self) -> (r: usize)
        ensures
            r == self.name_seq().len(),
    {
        self.names.len()
    }

    /// The name at place `i`.
    pub fn name_at(&self, i: usize) -> (r: &String)
        requires
            i < self.name_seq().len(),
        ensures
            r@ == self.name_seq()[i as int],
    {
        &self.names[i]
    }

    /// The value at place `i`.
    pub fn value_at(&self, i: usize) -> (r: &V)
        requires
            self.wf(),
            i < self.name_seq().len(),
        ensures
            *r == self.value_seq()[i as int],
    {
        &self.values[i]
    }

    /// The place of `name`.
    pub fn find(&self, name: &str) -> (r: Option<usize>)
        requires
            self.wf(),
        ensures
            r is Some <==> self@.contains_key(name@),
            r matches Some(i) ==> i < self.name_seq().len() && self.name_seq()[i as int] == name@
                && self@[name@] == self.value_seq()[i as int],
    {
        let wanted: String = name.to_owned();
        let mut i: usize = 0;
        while i < self.names.len()
            invariant
                self.wf(),
                i <= self.names@.len(),
                wanted@ == name@,
                forall|j: int| 0 <= j < i ==> #[trigger] self.name_seq()[j] != name@,
            decreases self.names@.len() - i,
        {
            assert(self.name_seq()[i as int] == self.names@[i as int]@);
            if self.names[i] == wanted {
                proof {
                    self.lemma_entry(i as int);
                }
                return Some(i);
            }
            i += 1;
        }
        assert(!self.name_seq().contains(name@));
        None
    }

    /// Whether the map has `name`.
    pub fn contains(&self, name: &str) -> (r: bool)
        requires
            self.wf(),
        ensures
            r == self@.contains_key(name@),
    {
        self.find(name).is_some()
    }

    /// The value of `name`.
    pub fn get(&self, name: &str) -> (r: Option<&V>)
        requires
            self.wf(),
        ensures
            r is Some <==> self@.contains_key(name@),
            r matches Some(v) ==> *v == self@[name@],
    {
        match self.find(name) {
            Some(i) => Some(&self.values[i]),
            None => None,
        }
    }

    /// Sets the value of `name`.
    pub fn insert(&mut self, name: &str, value: V)
        requires
            old(self).wf(),
        ensures
            final(self).wf(),
            final(self)@ == old(self)@.insert(name@, value),
            old(self)@.contains_key(name@) ==> final(self).name_seq() == old(self).name_seq(),
            !old(self)@.contains_key(name@) ==> final(self).name_seq() == old(self).name_seq().push(
                name@,
            ),
    {
        match self.find(name) {
            Some(i) => {
                self.values.set(i, value);
                proof {
                    assert(self.name_seq() =~= old(self).name_seq());
                    assert(self.value_seq() =~= old(self).value_seq().update(i as int, value));
                    lemma_same_entries(*self, old(self)@.insert(name@, value), *old(self), i as int);
                }
            },
            None => {
                self.names.push(name.to_owned());
                self.values.push(value);
                proof {
                    let ns = old(self).name_seq();
                    assert(self.name_seq() =~= ns.push(name@));
                    assert(!ns.contains(name@));
                    assert(self.wf());
                    lemma_same_entries(
                        *self,
                        old(self)@.insert(name@, value),
                        *old(self),
                        ns.len() as int,
                    );
                }
            },
        }
    }

    /// Forgets `name` and returns what it stood for.
    pub fn remove(&mut self, name: &str) -> (r: Option<V>)
        requires
            old(self).wf(),
        ensures
            final(self).wf(),
            final(self)@ == old(self)@.remove(name@),
            r == (if old(self)@.contains_key(name@) {
                Some(old(self)@[name@])
            } else {
                None
            }),
    {
        if let Some(i) = self.find(name) {
            let _gone = self.names.remove(i);
            let value = self.values.remove(i);
            proof {
                let ns = old(self).name_seq();
                assert(self.name_seq() =~= ns.remove(i as int));
                assert(self.value_seq() =~= old(self).value_seq().remove(i as int));
                assert(self.name_seq().no_duplicates()) by {
                    assert forall|a: int, b: int|
                        0 <= a < self.name_seq().len() && 0 <= b < self.name_seq().len() && a
                            != b implies self.name_seq()[a] != self.name_seq()[b] by {
                        let x = if a < i {
                            a
                        } else {
                            a + 1
                        };
                        let y = if b < i {
                            b
                        } else {
                            b + 1
                        };
                        assert(ns[x] != ns[y]);
                    }
                }
                lemma_removed(*old(self), *self, i as int);
            }
            Some(value)
        } else {
            assert(old(self)@.remove(name@) =~= old(self)@);
            None
        }
    }

    /// Forgets every name.
    pub fn clear(&mut self)
        ensures
            final(self).wf(),
            final(self)@ == Map::<Seq<char>, V>::empty(),
    {
        self.names = Vec::new();
        self.values = Vec::new();
        assert(self@ =~= Map::<Seq<char>, V>::empty());
    }
}

/// `m` is what `after` holds where it agrees with `before` but at place `i`.
proof fn lemma_same_entries<V>(
    after: NameMap<V>,
    m: Map<Seq<char>, V>,
    before: NameMap<V>,
    i: int,
)
    requires
        before.wf(),
        after.wf(),
        0 <= i < after.name_seq().len(),
        before.name_seq().len() <= after.name_seq().len() <= before.name_seq().len() + 1,
        after.name_seq().len() == before.name_seq().len() || i == before.name_seq().len(),
        forall|j: int|
            0 <= j < before.name_seq().len() ==> #[trigger] after.name_seq()[j]
                == before.name_seq()[j],
        forall|j: int|
            0 <= j < before.name_seq().len() && j != i ==> #[trigger] after.value_seq()[j]
                == before.value_seq()[j],
        m == before@.insert(after.name_seq()[i], after.value_seq()[i]),
    ensures
        after@ == m,
{
    assert forall|n: Seq<char>| after@.contains_key(n) == m.contains_key(n) by {
        if after@.contains_key(n) {
            let j = after.name_seq().index_of(n);
            assert(after.name_seq()[j] == n);
            if j < before.name_seq().len() {
                assert(before.name_seq()[j] == n);
                assert(before.name_seq().contains(n));
            }
        }
        if before@.contains_key(n) {
            let j = before.name_seq().index_of(n);
            assert(before.name_seq()[j] == n);
            assert(after.name_seq()[j] == n);
            assert(after.name_seq().contains(n));
        }
        assert(after.name_seq().contains(after.name_seq()[i]));
    }
    assert forall|n: Seq<char>| after@.contains_key(n) implies #[trigger] after@[n] == m[n] by {
        let j = after.name_seq().index_of(n);
        assert(after.name_seq()[j] == n);
        if j != i {
            assert(j < before.name_seq().len());
            assert(before.name_seq()[j] == n);
            before.lemma_entry(j);
            assert(n != after.name_seq()[i]);
        } else {
            after.lemma_entry(i);
        }
    }
    assert(after@ =~= m);
}

proof fn lemma_removed<V>(before: NameMap<V>, after: NameMap<V>, i: int)
    requires
        before.wf(),
        after.wf(),
        0 <= i < before.name_seq().len(),
        after.name_seq() == before.name_seq().remove(i),
        after.value_seq() == before.value_seq().remove(i),
    ensures
        after@ == before@.remove(before.name_seq()[i]),
{
    let gone = before.name_seq()[i];
    let m = before@.remove(gone);
    assert forall|n: Seq<char>| after@.contains_key(n) == m.contains_key(n) by {
        if after@.contains_key(n) {
            let j = after.name_seq().index_of(n);
            assert(after.name_seq()[j] == n);
            let k = if j < i {
                j
            } else {
                j + 1
            };
            assert(before.name_seq()[k] == n);
            assert(before.name_seq().contains(n));
            assert(k != i);
        }
        if m.contains_key(n) {
            let k = before.name_seq().index_of(n);
            assert(before.name_seq()[k] == n);
            assert(k != i);
            let j = if k < i {
                k
            } else {
                k - 1
            };
            assert(after.name_seq()[j] == n);
            assert(after.name_seq().contains(n));
        }
    }
    assert forall|n: Seq<char>| after@.contains_key(n) implies #[trigger] after@[n] == m[n] by {
        let j = after.name_seq().index_of(n);
        assert(after.name_seq()[j] == n);
        let k = if j < i {
            j
        } else {
            j + 1
        };
        assert(before.name_seq()[k] == n);
        before.lemma_entry(k);
        after.lemma_entry(j);
        assert(m.contains_key(n));
    }
    assert(after@ =~= m);
}

} // verus!
