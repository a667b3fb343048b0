//! Byte strings: shared buffers, their dictionary order, and an ordered map
//! keyed by them.

use bytes::Bytes;
use vstd::prelude::*;

verus! {

/// `bytes::Bytes`, a shared immutable buffer.
#[verifier::external_type_specification]
#[verifier::external_body]
pub struct ExBytes(Bytes);

/// The bytes that a buffer holds.
pub uninterp spec fn bytes_view(b: Bytes) -> Seq<u8>;

/// `Bytes::clone` shares the buffer, so the clone holds the same bytes.
pub assume_specification[ <Bytes as Clone>::clone ](b: &Bytes) -> (r: Bytes)
    ensures
        bytes_view(r) == bytes_view(*b),
;

/// `Bytes::copy_from_slice` makes a buffer that holds the bytes of `s`.
#[verifier::external_body]
pub(crate) fn bytes_copy(s: &[u8]) -> (r: Bytes)
    ensures
        bytes_view(r) == s@,
{
    Bytes::copy_from_slice(s)
}

/// `Bytes::from(Vec<u8>)` takes over the vector's bytes.
#[verifier::external_body]
pub(crate) fn bytes_from_vec(v: Vec<u8>) -> (r: Bytes)
    ensures
        bytes_view(r) == v@,
{
    Bytes::from(v)
}

/// `Bytes::new` makes an empty buffer.
#[verifier::external_body]
pub(crate) fn bytes_empty() -> (r: Bytes)
    ensures
        bytes_view(r) == Seq::<u8>::empty(),
{
    Bytes::new()
}

/// `Bytes::as_ref` lends the buffer's bytes as a slice.
#[verifier::external_body]
pub(crate) fn bytes_slice(b: &Bytes) -> (r: &[u8])
    ensures
        r@ == bytes_view(*b),
{
    b.as_ref()
}

/// The bytes of an optional buffer.
pub open spec fn opt_bytes_view(b: Option<Bytes>) -> Option<Seq<u8>> {
    match b {
        Some(b) => Some(bytes_view(b)),
        None => None,
    }
}

/// Clones an optional buffer.
pub(crate) fn opt_bytes_clone(b: &Option<Bytes>) -> (r: Option<Bytes>)
    ensures
        opt_bytes_view(r) == opt_bytes_view(*b),
{
    match b {
        Some(b) => Some(b.clone()),
        None => None,
    }
}

// ── Dictionary order ──────────────────────────────────────────────────────

/// `a` comes before `b` in dictionary order.
pub open spec fn lex_lt(a: Seq<u8>, b: Seq<u8>) -> bool
    decreases a.len(),
{
    if b.len() == 0 {
        false
    } else if a.len() == 0 {
        true
    } else {
        a[0] < b[0] || (a[0] == b[0] && lex_lt(a.drop_first(), b.drop_first()))
    }
}

/// `a` comes before `b` or equals it.
pub open spec fn lex_le(a: Seq<u8>, b: Seq<u8>) -> bool {
    a == b || lex_lt(a, b)
}

/// Nothing comes before itself.
pub proof fn lemma_lex_irreflexive(a: Seq<u8>)
    ensures
        !lex_lt(a, a),
    decreases a.len(),
{
    if a.len() > 0 {
        lemma_lex_irreflexive(a.drop_first());
    }
}

/// The order is transitive.
pub proof fn lemma_lex_transitive(a: Seq<u8>, b: Seq<u8>, c: Seq<u8>)
    requires
        lex_lt(a, b),
        lex_lt(b, c),
    ensures
        lex_lt(a, c),
    decreases a.len(),
{
    if a.len() > 0 && a[0] == b[0] && b[0] == c[0] {
        lemma_lex_transitive(a.drop_first(), b.drop_first(), c.drop_first());
    }
}

/// Of two different byte strings one comes first, and only one.
pub proof fn lemma_lex_total(a: Seq<u8>, b: Seq<u8>)
    ensures
        a == b || lex_lt(a, b) || lex_lt(b, a),
        !(lex_lt(a, b) && lex_lt(b, a)),
        lex_lt(a, b) ==> a != b,
    decreases a.len(),
{
    if a.len() > 0 && b.len() > 0 {
        lemma_lex_total(a.drop_first(), b.drop_first());
        if a[0] == b[0] && a.drop_first() == b.drop_first() {
            assert(a =~= seq![a[0]] + a.drop_first());
            assert(b =~= seq![b[0]] + b.drop_first());
        }
    } else if a.len() == 0 && b.len() == 0 {
        assert(a =~= b);
    }
    lemma_lex_irreflexive(a);
}

/// `lex_le` composes with `lex_lt` and `lex_le`.
pub proof fn lemma_lex_le_transitive(a: Seq<u8>, b: Seq<u8>, c: Seq<u8>)
    requires
        lex_le(a, b),
        lex_le(b, c),
    ensures
        lex_le(a, c),
        (lex_lt(a, b) || lex_lt(b, c)) ==> lex_lt(a, c),
{
    if lex_lt(a, b) && lex_lt(b, c) {
        lemma_lex_transitive(a, b, c);
    }
}

/// Outcome of comparing two byte strings.
#[derive(Debug, Clone, Copy, PartialEq, Eq, Structural)]
pub enum KeyOrder {
    /// The first comes before the second.
    Less,
    /// Both hold the same bytes.
    Equal,
    /// The first comes after the second.
    Greater,
}

/// Compares two byte strings in dictionary order.
pub fn compare_keys(a: &[u8], b: &[u8]) -> (r: KeyOrder)
    ensures
        r == KeyOrder::Less <==> lex_lt(a@, b@),
        r == KeyOrder::Equal <==> a@ == b@,
        r == KeyOrder::Greater <==> lex_lt(b@, a@),
{
    let mut i: usize = 0;
    proof {
        lemma_lex_total(a@, b@);
        assert(a@.skip(0) =~= a@);
        assert(b@.skip(0) =~= b@);
    }
    while i < a.len() && i < b.len()
        invariant
            i <= a.len(),
            i <= b.len(),
            a@.take(i as int) == b@.take(i as int),
            lex_lt(a@, b@) == lex_lt(a@.skip(i as int), b@.skip(i as int)),
            lex_lt(b@, a@) == lex_lt(b@.skip(i as int), a@.skip(i as int)),
            !(lex_lt(a@, b@) && lex_lt(b@, a@)),
            lex_lt(a@, b@) ==> a@ != b@,
            lex_lt(b@, a@) ==> a@ != b@,
            a@ == b@ || lex_lt(a@, b@) || lex_lt(b@, a@),
        decreases a.len() - i,
    {
        assert(a@.skip(i as int).drop_first() =~= a@.skip(i + 1));
        assert(b@.skip(i as int).drop_first() =~= b@.skip(i + 1));
        assert(a@.skip(i as int)[0] == a@[i as int]);
        assert(b@.skip(i as int)[0] == b@[i as int]);
        if a[i] < b[i] {
            return KeyOrder::Less;
        }
        if a[i] > b[i] {
            return KeyOrder::Greater;
        }
        assert(a@.take(i + 1) =~= a@.take(i as int).push(a@[i as int]));
        assert(b@.take(i + 1) =~= b@.take(i as int).push(b@[i as int]));
        i += 1;
    }
    if i < b.len() {
        assert(a@.skip(i as int).len() == 0);
        KeyOrder::Less
    } else if i < a.len() {
        assert(b@.skip(i as int).len() == 0);
        KeyOrder::Greater
    } else {
        assert(a@.take(i as int) =~= a@);
        assert(b@.take(i as int) =~= b@);
        KeyOrder::Equal
    }
}

/// Whether two byte strings hold the same bytes.
pub fn keys_equal(a: &[u8], b: &[u8]) -> (r: bool)
    ensures
        r == (a@ == b@),
{
    match compare_keys(a, b) {
        KeyOrder::Equal => true,
        _ => false,
    }
}

/// Whether `a` comes before `b`.
pub fn key_less(a: &[u8], b: &[u8]) -> (r: bool)
    ensures
        r == lex_lt(a@, b@),
{
    match compare_keys(a, b) {
        KeyOrder::Less => true,
        _ => false,
    }
}

/// Whether `a` comes before `b` or equals it.
pub fn key_less_or_equal(a: &[u8], b: &[u8]) -> (r: bool)
    ensures
        r == lex_le(a@, b@),
{
    proof {
        lemma_lex_total(a@, b@);
    }
    match compare_keys(a, b) {
        KeyOrder::Greater => false,
        _ => true,
    }
}

/// `s` begins with `prefix`.
pub open spec fn has_prefix(s: Seq<u8>, prefix: Seq<u8>) -> bool {
    prefix.len() <= s.len() && s.take(prefix.len() as int) == prefix
}

/// Whether `s` begins with `prefix`.
pub fn starts_with(s: &[u8], prefix: &[u8]) -> (r: bool)
    ensures
        r == has_prefix(s@, prefix@),
{
    if prefix.len() > s.len() {
        return false;
    }
    let mut i: usize = 0;
    while i < prefix.len()
        invariant
            i <= prefix.len() <= s.len(),
            forall|j: int| 0 <= j < i ==> s@[j] == prefix@[j],
        decreases prefix.len() - i,
    {
        if s[i] != prefix[i] {
            assert(s@.take(prefix@.len() as int)[i as int] != prefix@[i as int]);
            return false;
        }
        i += 1;
    }
    assert(s@.take(prefix@.len() as int) =~= prefix@);
    true
}

/// Appends the bytes of `s` to `out`.
pub(crate) fn append_bytes(out: &mut Vec<u8>, s: &[u8])
    ensures
        final(out)@ == old(out)@ + s@,
{
    out.extend_from_slice(s);
    assert(out@ =~= old(out)@ + s@);
}

// ── Ordered map ───────────────────────────────────────────────────────────

/// The keys are in strictly ascending dictionary order.
pub open spec fn keys_sorted(ks: Seq<Seq<u8>>) -> bool {
    forall|i: int, j: int| 0 <= i < j < ks.len() ==> #[trigger] lex_lt(ks[i], ks[j])
}

/// `ks` lists exactly the keys of `dom`, in ascending order.
pub open spec fn lists_keys(ks: Seq<Seq<u8>>, dom: Set<Seq<u8>>) -> bool {
    &&& keys_sorted(ks)
    &&& forall|i: int| 0 <= i < ks.len() ==> #[trigger] dom.contains(ks[i])
    &&& forall|k: Seq<u8>| #[trigger] dom.contains(k) ==> ks.contains(k)
}

/// The keys of a finite set in ascending order.
pub open spec fn sorted_keys(dom: Set<Seq<u8>>) -> Seq<Seq<u8>> {
    choose|ks: Seq<Seq<u8>>| lists_keys(ks, dom)
}

proof fn lemma_sorted_unique(a: Seq<Seq<u8>>, b: Seq<Seq<u8>>)
    requires
        keys_sorted(a),
        keys_sorted(b),
        forall|k: Seq<u8>| a.contains(k) <==> b.contains(k),
    ensures
        a == b,
    decreases a.len(),
{
    if a.len() == 0 {
        if b.len() > 0 {
            assert(b.contains(b[0]));
        }
        assert(a =~= b);
    } else {
        let x = a.last();
        assert(a[a.len() - 1] == x);
        assert(a.contains(x));
        assert(b.contains(x));
        let i = choose|i: int| 0 <= i < b.len() && b[i] == x;
        let y = b.last();
        assert(b[b.len() - 1] == y);
        assert(b.contains(y));
        assert(a.contains(y));
        let j = choose|j: int| 0 <= j < a.len() && a[j] == y;
        if x != y {
            assert(lex_lt(b[i], b[b.len() - 1]));
            assert(lex_lt(a[j], a[a.len() - 1]));
            lemma_lex_total(x, y);
        }
        let a1 = a.drop_last();
        let b1 = b.drop_last();
        assert forall|p: int, q: int| 0 <= p < q < a1.len() implies #[trigger] lex_lt(
            a1[p],
            a1[q],
        ) by {
            assert(lex_lt(a[p], a[q]));
        }
        assert forall|p: int, q: int| 0 <= p < q < b1.len() implies #[trigger] lex_lt(
            b1[p],
            b1[q],
        ) by {
            assert(lex_lt(b[p], b[q]));
        }
        lemma_lex_irreflexive(x);
        assert forall|k: Seq<u8>| a1.contains(k) <==> b1.contains(k) by {
            if a1.contains(k) {
                let p = choose|p: int| 0 <= p < a1.len() && a1[p] == k;
                assert(a[p] == k);
                assert(lex_lt(a[p], a[a.len() - 1]));
                assert(a.contains(k));
                let q = choose|q: int| 0 <= q < b.len() && b[q] == k;
                assert(b1[q] == k);
            }
            if b1.contains(k) {
                let p = choose|p: int| 0 <= p < b1.len() && b1[p] == k;
                assert(b[p] == k);
                assert(lex_lt(b[p], b[b.len() - 1]));
                assert(b.contains(k));
                let q = choose|q: int| 0 <= q < a.len() && a[q] == k;
                assert(a1[q] == k);
            }
        }
        lemma_sorted_unique(a1, b1);
        assert(a =~= a1.push(x));
        assert(b =~= b1.push(y));
    }
}

/// A sorted listing of a set is the only one.
pub proof fn lemma_sorted_keys(ks: Seq<Seq<u8>>, dom: Set<Seq<u8>>)
    requires
        lists_keys(ks, dom),
    ensures
        ks == sorted_keys(dom),
{
    let other = sorted_keys(dom);
    assert(lists_keys(other, dom));
    assert forall|k: Seq<u8>| ks.contains(k) <==> other.contains(k) by {
        if ks.contains(k) {
            let i = choose|i: int| 0 <= i < ks.len() && ks[i] == k;
            assert(dom.contains(ks[i]));
        }
        if other.contains(k) {
            let i = choose|i: int| 0 <= i < other.len() && other[i] == k;
            assert(dom.contains(other[i]));
        }
    }
    lemma_sorted_unique(ks, other);
}

/// A map of `n` keys has `n` keys in its sorted listing.
pub proof fn lemma_listing_len(ks: Seq<Seq<u8>>, dom: Set<Seq<u8>>)
    requires
        lists_keys(ks, dom),
    ensures
        dom.finite(),
        dom.len() == ks.len(),
    decreases ks.len(),
{
    if ks.len() == 0 {
        assert(dom =~= Set::<Seq<u8>>::empty()) by {
            assert forall|k: Seq<u8>| !dom.contains(k) by {
                if dom.contains(k) {
                    assert(ks.contains(k));
                }
            }
        }
    } else {
        let x = ks.last();
        let init = ks.drop_last();
        let rest = dom.remove(x);
        assert(ks[ks.len() - 1] == x);
        assert(dom.contains(x));
        lemma_lex_irreflexive(x);
        assert forall|p: int, q: int| 0 <= p < q < init.len() implies #[trigger] lex_lt(
            init[p],
            init[q],
        ) by {
            assert(lex_lt(ks[p], ks[q]));
        }
        assert forall|i: int| 0 <= i < init.len() implies #[trigger] rest.contains(init[i]) by {
            assert(dom.contains(ks[i]));
            assert(lex_lt(ks[i], ks[ks.len() - 1]));
        }
        assert forall|k: Seq<u8>| #[trigger] rest.contains(k) implies init.contains(k) by {
            assert(ks.contains(k));
            let i = choose|i: int| 0 <= i < ks.len() && ks[i] == k;
            assert(init[i] == k);
        }
        lemma_listing_len(init, rest);
        assert(dom =~= rest.insert(x));
    }
}

/// `k` lies in `[lower, upper)`.
pub open spec fn in_range(k: Seq<u8>, lower: Seq<u8>, upper: Seq<u8>) -> bool {
    lex_le(lower, k) && lex_lt(k, upper)
}

/// The keys of `dom` that lie in `[lower, upper)`.
pub open spec fn keys_between(dom: Set<Seq<u8>>, lower: Seq<u8>, upper: Seq<u8>) -> Set<Seq<u8>> {
    dom.filter(|k: Seq<u8>| in_range(k, lower, upper))
}

/// The byte strings of a list of buffers.
pub open spec fn key_views(ks: Seq<Bytes>) -> Seq<Seq<u8>> {
    ks.map_values(|b: Bytes| bytes_view(b))
}

/// A map from byte strings to values, kept in key order.
#[verifier::reject_recursive_types(V)]
pub struct ByteMap<V> {
    keys: Vec<Bytes>,
    values: Vec<V>,
}

impl<V> ByteMap<V> {
    /// The keys in order.
    pub closed spec fn key_seq(&self) -> Seq<Seq<u8>> {
        self.keys@.map_values(|b: Bytes| bytes_view(b))
    }

    /// The values, each beside its key.
    pub closed spec fn value_seq(&self) -> Seq<V> {
        self.values@
    }

    /// The keys are sorted and each has a value.
    pub open spec fn wf(&self) -> bool {
        &&& self.key_seq().len() == self.value_seq().len()
        &&& keys_sorted(self.key_seq())
    }

    /// Where `k` stands among the keys.
    pub open spec fn position(&self, k: Seq<u8>) -> int {
        choose|i: int| 0 <= i < self.key_seq().len() && #[trigger] self.key_seq()[i] == k
    }
}

impl<V> View for ByteMap<V> {
    type V = Map<Seq<u8>, V>;

    open spec fn view(&self) -> Map<Seq<u8>, V> {
        Map::new(
            |k: Seq<u8>| self.key_seq().contains(k),
            |k: Seq<u8>| self.value_seq()[self.position(k)],
        )
    }
}

impl<V> ByteMap<V> {
    /// Each listed key maps to the value beside it, and no other key is in
    /// the map.
    pub proof fn lemma_entries(&self)
        requires
            self.wf(),
        ensures
            forall|i: int|
                0 <= i < self.key_seq().len() ==> {
                    &&& #[trigger] self@.contains_key(self.key_seq()[i])
                    &&& self@[self.key_seq()[i]] == self.value_seq()[i]
                },
            lists_keys(self.key_seq(), self@.dom()),
    {
        assert forall|i: int| 0 <= i < self.key_seq().len() implies {
            &&& #[trigger] self@.contains_key(self.key_seq()[i])
            &&& self@[self.key_seq()[i]] == self.value_seq()[i]
        } by {
            let k = self.key_seq()[i];
            let p = self.position(k);
            lemma_lex_irreflexive(k);
            if p < i {
                assert(lex_lt(self.key_seq()[p], self.key_seq()[i]));
            } else if p > i {
                assert(lex_lt(self.key_seq()[i], self.key_seq()[p]));
            }
        }
    }

    /// Makes an empty map.
    pub fn new() -> (r: Self)
        ensures
            r.wf(),
            r@ == Map::<Seq<u8>, V>::empty(),
            r.key_seq().len() == 0,
    {
        let r = ByteMap { keys: Vec::new(), values: Vec::new() };
        assert(r@ =~= Map::<Seq<u8>, V>::empty());
        r
    }

    /// Returns the number of keys.
    pub fn len(&self) -> (r: usize)
        requires
            self.wf(),
        ensures
            r == self.key_seq().len(),
    {
        self.keys.len()
    }

    /// Lends the key at `i`.
    pub fn key_at(&self, i: usize) -> (r: &Bytes)
        requires
            self.wf(),
            i < self.key_seq().len(),
        ensures
            bytes_view(*r) == self.key_seq()[i as int],
    {
        &self.keys[i]
    }

    /// Lends the value at `i`.
    pub fn value_at(&self, i: usize) -> (r: &V)
        requires
            self.wf(),
            i < self.key_seq().len(),
        ensures
            *r == self.value_seq()[i as int],
    {
        &self.values[i]
    }

    /// Finds the first place whose key is not before `key`, and whether that
    /// key is `key`.
    pub fn find(&self, key: &[u8]) -> (r: (usize, bool))
        requires
            self.wf(),
        ensures
            r.0 <= self.key_seq().len(),
            forall|i: int| 0 <= i < r.0 ==> #[trigger] lex_lt(self.key_seq()[i], key@),
            forall|i: int|
                r.0 <= i < self.key_seq().len() ==> #[trigger] lex_le(key@, self.key_seq()[i]),
            r.1 <==> r.0 < self.key_seq().len() && self.key_seq()[r.0 as int] == key@,
            r.1 <==> self@.contains_key(key@),
            r.1 ==> self@[key@] == self.value_seq()[r.0 as int],
    {
        let mut lo: usize = 0;
        let mut hi: usize = self.keys.len();
        while lo < hi
            invariant
                self.wf(),
                lo <= hi <= self.keys.len(),
                self.keys@.len() == self.key_seq().len(),
                forall|i: int| 0 <= i < lo ==> #[trigger] lex_lt(self.key_seq()[i], key@),
                forall|i: int|
                    hi <= i < self.key_seq().len() ==> #[trigger] lex_le(key@, self.key_seq()[i]),
            decreases hi - lo,
        {
            let mid = lo + (hi - lo) / 2;
            let ghost mk = self.key_seq()[mid as int];
            proof {
                lemma_lex_total(mk, key@);
            }
            if key_less(bytes_slice(&self.keys[mid]), key) {
                assert forall|i: int| 0 <= i < mid + 1 implies #[trigger] lex_lt(
                    self.key_seq()[i],
                    key@,
                ) by {
                    if i < mid {
                        assert(lex_lt(self.key_seq()[i], self.key_seq()[mid as int]));
                        lemma_lex_transitive(self.key_seq()[i], mk, key@);
                    }
                }
                lo = mid + 1;
            } else {
                assert forall|i: int| mid <= i < self.key_seq().len() implies #[trigger] lex_le(
                    key@,
                    self.key_seq()[i],
                ) by {
                    if i > mid {
                        assert(lex_lt(self.key_seq()[mid as int], self.key_seq()[i]));
                        lemma_lex_le_transitive(key@, mk, self.key_seq()[i]);
                    }
                }
                hi = mid;
            }
        }
        let found = lo < self.keys.len() && keys_equal(bytes_slice(&self.keys[lo]), key);
        proof {
            self.lemma_entries();
            if self@.contains_key(key@) {
                let p = self.position(key@);
                lemma_lex_irreflexive(key@);
                if p < lo {
                    assert(lex_lt(self.key_seq()[p], key@));
                }
                assert(lo < self.key_seq().len());
                assert(lex_le(key@, self.key_seq()[lo as int]));
                if p > lo {
                    assert(lex_lt(self.key_seq()[lo as int], self.key_seq()[p]));
                    lemma_lex_total(key@, self.key_seq()[lo as int]);
                }
            }
            if found {
                assert(self@.contains_key(self.key_seq()[lo as int]));
            }
        }
        (lo, found)
    }

    /// Looks up the value under `key`.
    pub fn get(&self, key: &[u8]) -> (r: Option<&V>)
        requires
            self.wf(),
        ensures
            r is Some <==> self@.contains_key(key@),
            r matches Some(v) ==> *v == self@[key@],
    {
        let (i, found) = self.find(key);
        if found {
            Some(&self.values[i])
        } else {
            None
        }
    }

    /// Returns whether `key` is in the map.
    pub fn contains(&self, key: &[u8]) -> (r: bool)
        requires
            self.wf(),
        ensures
            r == self@.contains_key(key@),
    {
        self.find(key).1
    }

    /// Puts `value` under `key`, replacing what was there.
    pub fn insert(&mut self, key: Bytes, value: V)
        requires
            old(self).wf(),
        ensures
            final(self).wf(),
            final(self)@ == old(self)@.insert(bytes_view(key), value),
    {
        let ghost kv = bytes_view(key);
        let (i, found) = self.find(bytes_slice(&key));
        proof {
            self.lemma_entries();
        }
        if found {
            let _old = self.values.remove(i);
            self.values.insert(i, value);
            assert(self.key_seq() =~= old(self).key_seq());
            assert(self.value_seq() =~= old(self).value_seq().update(i as int, value));
        } else {
            self.keys.insert(i, key);
            self.values.insert(i, value);
            assert(self.key_seq() =~= old(self).key_seq().insert(i as int, kv));
            assert(self.value_seq() =~= old(self).value_seq().insert(i as int, value));
            assert forall|a: int, b: int| 0 <= a < b < self.key_seq().len() implies #[trigger] lex_lt(
                self.key_seq()[a],
                self.key_seq()[b],
            ) by {
                let ks = old(self).key_seq();
                if a < i && b == i {
                    assert(lex_lt(ks[a], kv));
                } else if a == i {
                    assert(lex_le(kv, ks[b - 1]));
                    if ks[b - 1] == kv {
                        assert(old(self)@.contains_key(ks[b - 1]));
                    }
                } else {
                    let a0 = if a < i { a } else { a - 1 };
                    let b0 = if b < i { b } else { b - 1 };
                    assert(lex_lt(ks[a0], ks[b0]));
                }
            }
        }
        proof {
            self.lemma_entries();
            let want = old(self)@.insert(kv, value);
            let ks0 = old(self).key_seq();
            let ks1 = self.key_seq();
            assert(ks1[i as int] == kv);
            assert(self@.contains_key(ks1[i as int]));
            assert forall|k: Seq<u8>| self@.contains_key(k) <==> want.contains_key(k) by {
                if self@.contains_key(k) {
                    let p = self.position(k);
                    if k != kv {
                        let q = if found { p } else if p < i { p } else { p - 1 };
                        assert(ks0[q] == k);
                        assert(old(self)@.contains_key(ks0[q]));
                    }
                }
                if want.contains_key(k) && k != kv {
                    let q = old(self).position(k);
                    let p = if found { q } else if q < i { q } else { q + 1 };
                    assert(ks1[p] == k);
                    assert(self@.contains_key(ks1[p]));
                }
            }
            assert forall|k: Seq<u8>| self@.contains_key(k) implies self@[k] == want[k] by {
                if k != kv {
                    let q = old(self).position(k);
                    assert(old(self)@.contains_key(k));
                    let p = if found { q } else if q < i { q } else { q + 1 };
                    assert(ks1[p] == k);
                    assert(self@.contains_key(ks1[p]));
                    assert(old(self)@.contains_key(ks0[q]));
                }
            }
            assert(self@ =~= want);
        }
    }

    /// Removes the entry at `i`.
    pub fn remove_at(&mut self, i: usize) -> (v: V)
        requires
            old(self).wf(),
            i < old(self).key_seq().len(),
        ensures
            final(self).wf(),
            v == old(self).value_seq()[i as int],
            final(self).key_seq() == old(self).key_seq().remove(i as int),
            final(self).value_seq() == old(self).value_seq().remove(i as int),
            final(self)@ == old(self)@.remove(old(self).key_seq()[i as int]),
    {
        let ghost kv = self.key_seq()[i as int];
        proof {
            self.lemma_entries();
        }
        let _key = self.keys.remove(i);
        let v = self.values.remove(i);
        proof {
            let ks0 = old(self).key_seq();
            let ks1 = self.key_seq();
            assert(ks1 =~= ks0.remove(i as int));
            assert(self.value_seq() =~= old(self).value_seq().remove(i as int));
            assert forall|a: int, b: int| 0 <= a < b < ks1.len() implies #[trigger] lex_lt(
                ks1[a],
                ks1[b],
            ) by {
                let a0 = if a < i { a } else { a + 1 };
                let b0 = if b < i { b } else { b + 1 };
                assert(lex_lt(ks0[a0], ks0[b0]));
            }
            self.lemma_entries();
            let want = old(self)@.remove(kv);
            lemma_lex_irreflexive(kv);
            assert forall|k: Seq<u8>| self@.contains_key(k) <==> want.contains_key(k) by {
                if self@.contains_key(k) {
                    let p = self.position(k);
                    let q = if p < i { p } else { p + 1 };
                    assert(ks0[q] == k);
                    assert(old(self)@.contains_key(ks0[q]));
                    if q < i {
                        assert(lex_lt(ks0[q], ks0[i as int]));
                    } else {
                        assert(lex_lt(ks0[i as int], ks0[q]));
                    }
                }
                if want.contains_key(k) {
                    let q = old(self).position(k);
                    assert(ks0[q] == k);
                    let p = if q < i { q } else { q - 1 };
                    assert(ks1[p] == k);
                    assert(self@.contains_key(ks1[p]));
                }
            }
            assert forall|k: Seq<u8>| self@.contains_key(k) implies self@[k] == want[k] by {
                let q = old(self).position(k);
                assert(old(self)@.contains_key(k));
                let p = if q < i { q } else { q - 1 };
                assert(ks1[p] == k);
                assert(self@.contains_key(ks1[p]));
                assert(old(self)@.contains_key(ks0[q]));
            }
            assert(self@ =~= want);
        }
        v
    }

    /// Removes `key`; returns whether it was present.
    pub fn remove(&mut self, key: &[u8]) -> (r: bool)
        requires
            old(self).wf(),
        ensures
            final(self).wf(),
            final(self)@ == old(self)@.remove(key@),
            r == old(self)@.contains_key(key@),
    {
        let (i, found) = self.find(key);
        if found {
            let _v = self.remove_at(i);
            true
        } else {
            assert(self@ =~= old(self)@.remove(key@));
            false
        }
    }

    /// Returns the keys in order.
    pub fn all_keys(&self) -> (r: Vec<Bytes>)
        requires
            self.wf(),
        ensures
            key_views(r@) == sorted_keys(self@.dom()),
            lists_keys(key_views(r@), self@.dom()),
    {
        let mut out: Vec<Bytes> = Vec::new();
        let mut i: usize = 0;
        while i < self.keys.len()
            invariant
                i <= self.keys@.len(),
                key_views(out@) == self.key_seq().take(i as int),
            decreases self.keys@.len() - i,
        {
            let ghost before = out@;
            out.push(self.keys[i].clone());
            assert(key_views(out@) =~= key_views(before).push(bytes_view(self.keys@[i as int])));
            assert(self.key_seq().take(i + 1) =~= self.key_seq().take(i as int).push(
                self.key_seq()[i as int],
            ));
            i += 1;
        }
        proof {
            assert(self.key_seq().take(i as int) =~= self.key_seq());
            self.lemma_entries();
            lemma_sorted_keys(self.key_seq(), self@.dom());
        }
        out
    }

    /// Returns the keys in `[lower, upper)`, in order.
    pub fn keys_in(&self, lower: &[u8], upper: &[u8]) -> (r: Vec<Bytes>)
        requires
            self.wf(),
        ensures
            key_views(r@) == sorted_keys(keys_between(self@.dom(), lower@, upper@)),
            lists_keys(key_views(r@), keys_between(self@.dom(), lower@, upper@)),
    {
        let (start, _found) = self.find(lower);
        let mut out: Vec<Bytes> = Vec::new();
        let mut i: usize = start;
        let ghost ks = self.key_seq();
        while i < self.keys.len() && key_less(bytes_slice(&self.keys[i]), upper)
            invariant
                self.wf(),
                ks == self.key_seq(),
                start <= i <= self.keys@.len(),
                key_views(out@) == ks.subrange(start as int, i as int),
                forall|j: int| 0 <= j < start ==> #[trigger] lex_lt(ks[j], lower@),
                forall|j: int| start <= j < ks.len() ==> #[trigger] lex_le(lower@, ks[j]),
                forall|j: int| start <= j < i ==> #[trigger] lex_lt(ks[j], upper@),
            decreases self.keys@.len() - i,
        {
            let ghost before = out@;
            out.push(self.keys[i].clone());
            assert(key_views(out@) =~= key_views(before).push(ks[i as int]));
            assert(ks.subrange(start as int, i + 1) =~= ks.subrange(start as int, i as int).push(
                ks[i as int],
            ));
            i += 1;
        }
        proof {
            self.lemma_entries();
            let got = ks.subrange(start as int, i as int);
            let dom = keys_between(self@.dom(), lower@, upper@);
            assert forall|p: int, q: int| 0 <= p < q < got.len() implies #[trigger] lex_lt(
                got[p],
                got[q],
            ) by {
                assert(lex_lt(ks[start + p], ks[start + q]));
            }
            assert forall|p: int| 0 <= p < got.len() implies #[trigger] dom.contains(got[p]) by {
                assert(self@.contains_key(ks[start + p]));
                assert(lex_le(lower@, ks[start + p]));
                assert(lex_lt(ks[start + p], upper@));
            }
            assert forall|k: Seq<u8>| #[trigger] dom.contains(k) implies got.contains(k) by {
                assert(self@.contains_key(k));
                assert(ks.contains(k));
                let p = choose|p: int| 0 <= p < ks.len() && ks[p] == k;
                if p < start {
                    assert(lex_lt(ks[p], lower@));
                    lemma_lex_total(ks[p], lower@);
                } else if p >= i {
                    lemma_lex_total(ks[i as int], upper@);
                    if p > i {
                        assert(lex_lt(ks[i as int], ks[p]));
                        lemma_lex_transitive(ks[i as int], k, upper@);
                    }
                } else {
                    assert(got[p - start] == k);
                }
            }
            lemma_sorted_keys(got, dom);
        }
        out
    }

    /// Removes every entry.
    pub fn clear(&mut self)
        ensures
            final(self).wf(),
            final(self)@ == Map::<Seq<u8>, V>::empty(),
            final(self).key_seq().len() == 0,
    {
        self.keys.clear();
        self.values.clear();
        assert(self@ =~= Map::<Seq<u8>, V>::empty());
    }
}

impl ByteMap<()> {
    /// Copies a set of keys.
    pub fn copy_keys(&self) -> (r: Self)
        ensures
            r.wf(),
            self.wf() ==> r@ == self@,
    {
        let mut r: ByteMap<()> = ByteMap::new();
        let mut i: usize = 0;
        while i < self.keys.len()
            invariant
                r.wf(),
                i <= self.keys@.len(),
                forall|k: Seq<u8>| r@.contains_key(k) <==> self.key_seq().take(i as int).contains(k),
            decreases self.keys@.len() - i,
        {
            let ghost ks = self.key_seq();
            r.insert(self.keys[i].clone(), ());
            proof {
                let t0 = ks.take(i as int);
                let t1 = ks.take(i + 1);
                assert(t1 =~= t0.push(ks[i as int]));
                assert forall|k: Seq<u8>| r@.contains_key(k) <==> t1.contains(k) by {
                    if t0.contains(k) {
                        let j = choose|j: int| 0 <= j < t0.len() && t0[j] == k;
                        assert(t1[j] == k);
                    }
                    if k == ks[i as int] {
                        assert(t1[i as int] == k);
                    }
                    if t1.contains(k) {
                        let j = choose|j: int| 0 <= j < t1.len() && t1[j] == k;
                        if j < i {
                            assert(t0[j] == k);
                        }
                    }
                }
            }
            i += 1;
        }
        proof {
            assert(self.key_seq().take(i as int) =~= self.key_seq());
            assert forall|k: Seq<u8>| #[trigger] self@.contains_key(k) implies self@[k] == r@[k] by {
                assert(self@[k] == ());
                assert(r@[k] == ());
            }
            assert(r@ =~= self@);
        }
        r
    }
}

} // verus!
