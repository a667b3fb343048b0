//! Ascending listings of integer-keyed collections.

use std::collections::{BTreeMap, BTreeSet};
use vstd::prelude::*;
use vstd::std_specs::btree::{increasing_seq, spec_btree_keys_iter, spec_keys_iter};
use vstd::std_specs::cmp::OrdSpec;
use vstd::std_specs::iter::IteratorSpec;

verus! {

/// `s` is strictly ascending.
pub open spec fn ascending(s: Seq<u64>) -> bool {
    forall|i: int, j: int| 0 <= i < j < s.len() ==> #[trigger] s[i] < #[trigger] s[j]
}

/// `s` is strictly ascending.
pub open spec fn ascending_levels(s: Seq<u32>) -> bool {
    forall|i: int, j: int| 0 <= i < j < s.len() ==> #[trigger] s[i] < #[trigger] s[j]
}

/// `s` lists `set` in ascending order.
pub open spec fn lists(s: Seq<u64>, set: Set<u64>) -> bool {
    &&& ascending(s)
    &&& forall|x: u64| #[trigger] set.contains(x) <==> s.contains(x)
}

/// `s` lists `set` in ascending order.
pub open spec fn lists_levels(s: Seq<u32>, set: Set<u32>) -> bool {
    &&& ascending_levels(s)
    &&& forall|x: u32| #[trigger] set.contains(x) <==> s.contains(x)
}

/// Lists a set in ascending order.
pub fn set_to_vec(set: &BTreeSet<u64>) -> (r: Vec<u64>)
    ensures
        lists(r@, set@),
{
    broadcast use vstd::std_specs::btree::group_btree_axioms;

    let mut out: Vec<u64> = Vec::new();
    for x in it: set.iter()
        invariant
            out@ == it.seq().unref().take(it.index()),
    {
        out.push(*x);
        assert(out@ =~= it.seq().unref().take(it.index() + 1));
    }
    proof {
        broadcast use vstd::laws_cmp::group_laws_cmp;

        let ss = spec_btree_keys_iter(set).remaining();
        assert(increasing_seq(ss));
        assert(out@ =~= ss.unref());
        assert(vstd::laws_cmp::obeys_cmp::<&u64>());
        assert forall|i: int, j: int| 0 <= i < j < out@.len() implies #[trigger] out@[i]
            < #[trigger] out@[j] by {
            assert(OrdSpec::cmp_spec(&ss[i], &ss[j]) is Less);
        }
        assert forall|x: u64| #[trigger] set@.contains(x) <==> out@.contains(x) by {
            assert(ss.unref().to_set().contains(x) <==> ss.unref().contains(x));
        }
    }
    out
}

/// Lists the keys of a map in ascending order.
pub fn id_keys<V>(map: &BTreeMap<u64, V>) -> (r: Vec<u64>)
    ensures
        lists(r@, map@.dom()),
{
    broadcast use vstd::std_specs::btree::group_btree_axioms;

    let mut out: Vec<u64> = Vec::new();
    for x in it: map.keys()
        invariant
            out@ == it.seq().unref().take(it.index()),
    {
        out.push(*x);
        assert(out@ =~= it.seq().unref().take(it.index() + 1));
    }
    proof {
        broadcast use vstd::laws_cmp::group_laws_cmp;

        let ss = spec_keys_iter(map).remaining();
        assert(increasing_seq(ss));
        assert(out@ =~= ss.unref());
        assert(vstd::laws_cmp::obeys_cmp::<&u64>());
        assert forall|i: int, j: int| 0 <= i < j < out@.len() implies #[trigger] out@[i]
            < #[trigger] out@[j] by {
            assert(OrdSpec::cmp_spec(&ss[i], &ss[j]) is Less);
        }
        assert forall|x: u64| #[trigger] map@.dom().contains(x) <==> out@.contains(x) by {
            assert(ss.unref().to_set().contains(x) <==> ss.unref().contains(x));
        }
    }
    out
}

/// Lists the keys of a map in ascending order.
pub fn level_keys<V>(map: &BTreeMap<u32, V>) -> (r: Vec<u32>)
    ensures
        lists_levels(r@, map@.dom()),
{
    broadcast use vstd::std_specs::btree::group_btree_axioms;

    let mut out: Vec<u32> = Vec::new();
    for x in it: map.keys()
        invariant
            out@ == it.seq().unref().take(it.index()),
    {
        out.push(*x);
        assert(out@ =~= it.seq().unref().take(it.index() + 1));
    }
    proof {
        broadcast use vstd::laws_cmp::group_laws_cmp;

        let ss = spec_keys_iter(map).remaining();
        assert(increasing_seq(ss));
        assert(out@ =~= ss.unref());
        assert(vstd::laws_cmp::obeys_cmp::<&u32>());
        assert forall|i: int, j: int| 0 <= i < j < out@.len() implies #[trigger] out@[i]
            < #[trigger] out@[j] by {
            assert(OrdSpec::cmp_spec(&ss[i], &ss[j]) is Less);
        }
        assert forall|x: u32| #[trigger] map@.dom().contains(x) <==> out@.contains(x) by {
            assert(ss.unref().to_set().contains(x) <==> ss.unref().contains(x));
        }
    }
    out
}

/// Looks up an id.
pub fn id_get<V>(map: &BTreeMap<u64, V>, id: u64) -> (r: Option<&V>)
    ensures
        r is Some <==> map@.contains_key(id),
        r matches Some(v) ==> *v == map@[id],
{
    broadcast use vstd::std_specs::btree::group_btree_axioms;
    broadcast use vstd::laws_cmp::group_laws_cmp;

    map.get(&id)
}

/// Looks up a level.
pub fn level_get<V>(map: &BTreeMap<u32, V>, level: u32) -> (r: Option<&V>)
    ensures
        r is Some <==> map@.contains_key(level),
        r matches Some(v) ==> *v == map@[level],
{
    broadcast use vstd::std_specs::btree::group_btree_axioms;
    broadcast use vstd::laws_cmp::group_laws_cmp;

    map.get(&level)
}

} // verus!
