//! Merging what several sources offer of each key.

use crate::buf::{
    bytes_slice, bytes_view, key_views, lex_lt, lists_keys, opt_bytes_view, sorted_keys, ByteMap,
};
use crate::memtable::{live_pairs, pair_models, row_models, scan_models, RowModel, VersionedRow};
use crate::merge::{insert_newest, version_map, with_newest};
use crate::tables::shown_at;
use crate::tables_model::TablesModel;
use crate::version::{Snapshot, VersionModel, VersionedValue};
use bytes::Bytes;
use vstd::prelude::*;

verus! {

/// The map after more versions were offered: of each key the newest, and of
/// equally new ones the first.
pub open spec fn newest_of_all(
    m: Map<Seq<u8>, VersionModel>,
    ps: Seq<(Seq<u8>, VersionModel)>,
) -> Map<Seq<u8>, VersionModel>
    decreases ps.len(),
{
    if ps.len() == 0 {
        m
    } else {
        with_newest(newest_of_all(m, ps.drop_last()), ps.last().0, ps.last().1)
    }
}

/// The rows that `keep` lets pass, as offers.
pub open spec fn offered(rs: Seq<RowModel>, keep: spec_fn(RowModel) -> bool) -> Seq<
    (Seq<u8>, VersionModel),
>
    decreases rs.len(),
{
    if rs.len() == 0 {
        Seq::empty()
    } else {
        let rest = offered(rs.drop_last(), keep);
        if keep(rs.last()) {
            rest.push((rs.last().key, rs.last().version))
        } else {
            rest
        }
    }
}

/// What the listed files offer, one after the other.
pub open spec fn offered_by(m: TablesModel, ids: Seq<u64>, keep: spec_fn(RowModel) -> bool) -> Seq<
    (Seq<u8>, VersionModel),
>
    decreases ids.len(),
{
    if ids.len() == 0 {
        Seq::empty()
    } else {
        offered_by(m, ids.drop_last(), keep) + offered(m.rows(ids.last()), keep)
    }
}

/// What is recorded of the file says that none of its keys lies in the range.
pub open spec fn is_pruned(m: TablesModel, id: u64, lower: Seq<u8>, upper: Seq<u8>) -> bool {
    m.version.meta.contains_key(id) && {
        let meta = m.version.meta[id];
        meta.min_key.len() > 0 && meta.max_key.len() > 0 && (lex_lt(meta.max_key, lower)
            || !lex_lt(meta.min_key, upper))
    }
}

/// The files that a scan of a key range reads.
pub open spec fn searched(m: TablesModel, ids: Seq<u64>, lower: Seq<u8>, upper: Seq<u8>) -> Seq<u64>
    decreases ids.len(),
{
    if ids.len() == 0 {
        Seq::empty()
    } else {
        let front = searched(m, ids.drop_last(), lower, upper);
        if is_pruned(m, ids.last(), lower, upper) {
            front
        } else {
            front.push(ids.last())
        }
    }
}

/// The entries of a map in key order.
pub open spec fn entries(m: Map<Seq<u8>, VersionModel>) -> Seq<(Seq<u8>, VersionModel)> {
    sorted_keys(m.dom()).map_values(|k: Seq<u8>| (k, m[k]))
}

/// Offering two lists is offering them one after the other.
pub proof fn lemma_newest_concat(
    m: Map<Seq<u8>, VersionModel>,
    a: Seq<(Seq<u8>, VersionModel)>,
    b: Seq<(Seq<u8>, VersionModel)>,
)
    ensures
        newest_of_all(m, a + b) == newest_of_all(newest_of_all(m, a), b),
    decreases b.len(),
{
    if b.len() == 0 {
        assert(a + b =~= a);
    } else {
        assert((a + b).drop_last() =~= a + b.drop_last());
        lemma_newest_concat(m, a, b.drop_last());
    }
}

/// A merge shows of every key that was offered one offer, and none that was
/// offered is newer.
pub proof fn law_merge_shows_newest(ps: Seq<(Seq<u8>, VersionModel)>, key: Seq<u8>)
    ensures
        ({
            let m = newest_of_all(Map::empty(), ps);
            &&& m.contains_key(key) <==> exists|i: int|
                0 <= i < ps.len() && (#[trigger] ps[i]).0 == key
            &&& m.contains_key(key) ==> ps.contains((key, m[key]))
            &&& forall|i: int|
                0 <= i < ps.len() && (#[trigger] ps[i]).0 == key ==> ps[i].1.begin_ts
                    <= m[key].begin_ts
        }),
    decreases ps.len(),
{
    if ps.len() > 0 {
        let init = ps.drop_last();
        law_merge_shows_newest(init, key);
        let m0 = newest_of_all(Map::empty(), init);
        let m = newest_of_all(Map::empty(), ps);
        assert(ps[ps.len() - 1] == ps.last());
        if m0.contains_key(key) {
            let i = choose|i: int| 0 <= i < init.len() && (#[trigger] init[i]).0 == key;
            assert(ps[i].0 == key);
            let j = choose|j: int| 0 <= j < init.len() && init[j] == (key, m0[key]);
            assert(ps[j] == (key, m0[key]));
        }
        if exists|i: int| 0 <= i < ps.len() && (#[trigger] ps[i]).0 == key {
            let i = choose|i: int| 0 <= i < ps.len() && (#[trigger] ps[i]).0 == key;
            if i < init.len() {
                assert(init[i].0 == key);
            }
        }
        assert forall|i: int| 0 <= i < ps.len() && (#[trigger] ps[i]).0
            == key implies ps[i].1.begin_ts <= m[key].begin_ts by {
            if i < init.len() {
                assert(init[i].0 == key);
            }
        }
    }
}

/// Filtering twice is filtering by both.
pub proof fn lemma_offered_twice(
    rs: Seq<RowModel>,
    first: spec_fn(RowModel) -> bool,
    second: spec_fn(RowModel) -> bool,
    both: spec_fn(RowModel) -> bool,
    kept: Seq<RowModel>,
)
    requires
        forall|r: RowModel| #[trigger] both(r) == (first(r) && second(r)),
        kept == kept_rows(rs, first),
    ensures
        offered(kept, second) == offered(rs, both),
    decreases rs.len(),
{
    if rs.len() > 0 {
        let rest = kept_rows(rs.drop_last(), first);
        lemma_offered_twice(rs.drop_last(), first, second, both, rest);
        if first(rs.last()) {
            assert(kept.drop_last() =~= rest);
        }
    }
}

/// The rows that `keep` lets pass.
pub open spec fn kept_rows(rs: Seq<RowModel>, keep: spec_fn(RowModel) -> bool) -> Seq<RowModel>
    decreases rs.len(),
{
    if rs.len() == 0 {
        Seq::empty()
    } else {
        let rest = kept_rows(rs.drop_last(), keep);
        if keep(rs.last()) {
            rest.push(rs.last())
        } else {
            rest
        }
    }
}

/// Where nothing passes, nothing is offered.
pub proof fn lemma_nothing_offered(rs: Seq<RowModel>, keep: spec_fn(RowModel) -> bool)
    requires
        forall|i: int| 0 <= i < rs.len() ==> !keep(#[trigger] rs[i]),
    ensures
        offered(rs, keep) == Seq::<(Seq<u8>, VersionModel)>::empty(),
    decreases rs.len(),
{
    if rs.len() > 0 {
        let init = rs.drop_last();
        assert forall|i: int| 0 <= i < init.len() implies !keep(#[trigger] init[i]) by {
            assert(init[i] == rs[i]);
        }
        lemma_nothing_offered(init, keep);
        assert(!keep(rs[rs.len() - 1]));
    }
}

/// Offers every version of a list to the map.
pub fn merge_pairs(visible: &mut ByteMap<VersionedValue>, pairs: Vec<(Bytes, VersionedValue)>)
    requires
        old(visible).wf(),
    ensures
        final(visible).wf(),
        version_map(final(visible)@) == newest_of_all(
            version_map(old(visible)@),
            scan_models(pairs@),
        ),
{
    let ghost start = version_map(visible@);
    let ghost ps = scan_models(pairs@);
    let n: usize = pairs.len();
    let mut i: usize = 0;
    assert(ps.take(0) =~= Seq::<(Seq<u8>, VersionModel)>::empty());
    while i < n
        invariant
            i <= n,
            n == pairs@.len(),
            ps == scan_models(pairs@),
            visible.wf(),
            version_map(visible@) == newest_of_all(start, ps.take(i as int)),
        decreases n - i,
    {
        assert(ps.take(i + 1).drop_last() =~= ps.take(i as int));
        assert(ps[i as int] == (bytes_view(pairs@[i as int].0), pairs@[i as int].1@));
        insert_newest(visible, pairs[i].0.clone(), pairs[i].1.clone());
        i += 1;
    }
    assert(ps.take(n as int) =~= ps);
}

/// Offers the rows that a snapshot sees to a merge.
pub fn merge_visible(
    visible: &mut ByteMap<VersionedValue>,
    rows: Vec<VersionedRow>,
    snapshot: Snapshot,
)
    requires
        old(visible).wf(),
    ensures
        final(visible).wf(),
        version_map(final(visible)@) == newest_of_all(
            version_map(old(visible)@),
            offered(row_models(rows@), shown_at(snapshot.ts)),
        ),
{
    let ghost start = version_map(visible@);
    let ghost rs = row_models(rows@);
    let ghost keep = shown_at(snapshot.ts);
    let n: usize = rows.len();
    let mut i: usize = 0;
    assert(rs.take(0) =~= Seq::<RowModel>::empty());
    while i < n
        invariant
            i <= n,
            n == rows@.len(),
            rs == row_models(rows@),
            keep == shown_at(snapshot.ts),
            visible.wf(),
            version_map(visible@) == newest_of_all(start, offered(rs.take(i as int), keep)),
        decreases n - i,
    {
        let ghost before = offered(rs.take(i as int), keep);
        proof {
            assert(rs.take(i + 1).drop_last() =~= rs.take(i as int));
            assert(rs.take(i + 1).last() == rows@[i as int]@);
        }
        if snapshot.sees(&rows[i].version) {
            insert_newest(visible, rows[i].key.clone(), rows[i].version.clone());
            proof {
                let next = before.push((rows@[i as int]@.key, rows@[i as int]@.version));
                assert(next.drop_last() =~= before);
            }
        }
        i += 1;
    }
    assert(rs.take(n as int) =~= rs);
}

/// Returns the live entries of a merge in key order.
pub fn live_entries(visible: &ByteMap<VersionedValue>) -> (r: Vec<(Bytes, Bytes)>)
    requires
        visible.wf(),
    ensures
        pair_models(r@) == live_pairs(entries(version_map(visible@))),
{
    let ghost m = version_map(visible@);
    let keys = visible.all_keys();
    let ghost ks = key_views(keys@);
    let ghost es = entries(m);
    let mut out: Vec<(Bytes, Bytes)> = Vec::new();
    let mut i: usize = 0;
    proof {
        assert(m.dom() =~= visible@.dom());
        assert(es.len() == ks.len());
        assert(es.take(0) =~= Seq::<(Seq<u8>, VersionModel)>::empty());
        assert(pair_models(out@) =~= live_pairs(es.take(0)));
    }
    while i < keys.len()
        invariant
            i <= keys@.len(),
            visible.wf(),
            m == version_map(visible@),
            ks == key_views(keys@),
            ks == sorted_keys(visible@.dom()),
            lists_keys(ks, visible@.dom()),
            m.dom() == visible@.dom(),
            es == entries(m),
            es.len() == ks.len(),
            pair_models(out@) == live_pairs(es.take(i as int)),
        decreases keys@.len() - i,
    {
        let ghost before = pair_models(out@);
        proof {
            assert(ks[i as int] == bytes_view(keys@[i as int]));
            assert(ks.contains(ks[i as int]));
            assert(visible@.dom().contains(ks[i as int]));
            assert(es.take(i + 1).drop_last() =~= es.take(i as int));
            assert(es.take(i + 1).last() == (ks[i as int], m[ks[i as int]]));
        }
        match visible.get(bytes_slice(&keys[i])) {
            Some(version) => {
                if let Some(value) = &version.value {
                    out.push((keys[i].clone(), value.clone()));
                    assert(pair_models(out@) =~= before.push(
                        (ks[i as int], m[ks[i as int]].value->0),
                    ));
                }
            },
            None => {},
        }
        i += 1;
    }
    assert(es.take(i as int) =~= es);
    out
}

/// What a list of keys with optional values says.
pub open spec fn opt_pair_models(out: Seq<(Bytes, Option<Bytes>)>) -> Seq<
    (Seq<u8>, Option<Seq<u8>>),
> {
    out.map_values(
        |p: (Bytes, Option<Bytes>)| (bytes_view(p.0), opt_bytes_view(p.1)),
    )
}

/// Returns every entry of a merge in key order; of a tombstone there is no
/// value.
pub fn all_entries(visible: &ByteMap<VersionedValue>) -> (r: Vec<(Bytes, Option<Bytes>)>)
    requires
        visible.wf(),
    ensures
        opt_pair_models(r@) == entries(version_map(visible@)).map_values(
            |e: (Seq<u8>, VersionModel)| (e.0, e.1.value),
        ),
{
    let ghost m = version_map(visible@);
    let keys = visible.all_keys();
    let ghost ks = key_views(keys@);
    let ghost es = entries(m);
    let ghost want = es.map_values(|e: (Seq<u8>, VersionModel)| (e.0, e.1.value));
    let mut out: Vec<(Bytes, Option<Bytes>)> = Vec::new();
    let mut i: usize = 0;
    proof {
        assert(m.dom() =~= visible@.dom());
        assert(es.len() == ks.len());
        assert(opt_pair_models(out@) =~= want.take(0));
    }
    while i < keys.len()
        invariant
            i <= keys@.len(),
            visible.wf(),
            m == version_map(visible@),
            ks == key_views(keys@),
            ks == sorted_keys(visible@.dom()),
            lists_keys(ks, visible@.dom()),
            m.dom() == visible@.dom(),
            es == entries(m),
            es.len() == ks.len(),
            want == es.map_values(|e: (Seq<u8>, VersionModel)| (e.0, e.1.value)),
            opt_pair_models(out@) == want.take(i as int),
        decreases keys@.len() - i,
    {
        let ghost before = opt_pair_models(out@);
        proof {
            assert(ks[i as int] == bytes_view(keys@[i as int]));
            assert(ks.contains(ks[i as int]));
            assert(visible@.dom().contains(ks[i as int]));
            assert(es[i as int] == (ks[i as int], m[ks[i as int]]));
        }
        match visible.get(bytes_slice(&keys[i])) {
            Some(version) => {
                let value = match &version.value {
                    Some(v) => Some(v.clone()),
                    None => None,
                };
                out.push((keys[i].clone(), value));
                assert(opt_pair_models(out@) =~= before.push(want[i as int]));
                assert(opt_pair_models(out@) =~= want.take(i + 1));
            },
            None => {},
        }
        i += 1;
    }
    assert(want.take(i as int) =~= want);
    out
}

} // verus!
