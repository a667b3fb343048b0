//! What scans come down to: reads of single keys.

use crate::buf::{
    bytes_view, has_prefix, in_range, keys_between, lex_lt, lists_keys, opt_bytes_view, sorted_keys,
};
use crate::chain_store::{chain_of, chains_read, Chains};
use crate::clock::Clock;
use crate::compaction::CompactionPicker;
use crate::engine::{all_contents, is_range, range_contents, Engine, EngineModel};
use crate::engine_laws::healthy;
use crate::file_io::FileIO;
use crate::hook::EngineHook;
use crate::key_index::{lemma_visible_is_a_row, lookup_visible};
use crate::memtable::{
    chains_contiguous, keys_with, live_pairs, pair_models, prefix_scan, range_scan, table_rows,
    visible_versions, RowModel,
};
use crate::memtable_laws::lemma_listing_exists;
use crate::scans::{
    entries, law_merge_shows_newest, newest_of_all, offered, offered_by, opt_pair_models, searched,
};
use crate::sst_format::SstFormat;
use crate::tables::{
    in_scan, in_snapshot, is_listing, law_pruning_loses_nothing, lemma_listing_is_live, shown_at,
};
use crate::tables_laws::{lemma_table_rows, memtable_is_newer};
use crate::tables_model::{latest_in, law_file_read_is_latest, law_read_is_unique, TablesModel};
use crate::version::{chain_read, contiguous, newest_first, VersionModel, OPEN_ENDED_TS};
use bytes::Bytes;
use vstd::prelude::*;

verus! {

// ── Lists ─────────────────────────────────────────────────────────────────

/// The live pairs of a list are those of its entries that hold a value, each
/// where it stands: whether an entry is among them does not depend on the
/// others.
pub proof fn law_live_pairs_are_the_entries_with_a_value(
    a: Seq<(Seq<u8>, VersionModel)>,
    b: Seq<(Seq<u8>, VersionModel)>,
    e: (Seq<u8>, VersionModel),
)
    ensures
        live_pairs(a + b) == live_pairs(a) + live_pairs(b),
        live_pairs(seq![e]) == match e.1.value {
            Some(v) => seq![(e.0, v)],
            None => Seq::empty(),
        },
        live_pairs(Seq::empty()).len() == 0,
    decreases b.len(),
{
    assert(live_pairs(Seq::empty()).len() == 0);
    if b.len() == 0 {
        assert(a + b =~= a);
        assert(live_pairs(a) + live_pairs(b) =~= live_pairs(a));
    } else {
        assert((a + b).drop_last() =~= a + b.drop_last());
        law_live_pairs_are_the_entries_with_a_value(a, b.drop_last(), e);
        assert(live_pairs(a + b) =~= live_pairs(a) + live_pairs(b));
    }
    assert(seq![e].drop_last() =~= Seq::<(Seq<u8>, VersionModel)>::empty());
    assert(live_pairs(seq![e]) =~= match e.1.value {
        Some(v) => seq![(e.0, v)],
        None => Seq::empty(),
    });
}

proof fn lemma_live_pair_from(vs: Seq<(Seq<u8>, VersionModel)>, j: int) -> (i: int)
    requires
        0 <= j < live_pairs(vs).len(),
    ensures
        j <= i < vs.len(),
        vs[i].1.value is Some,
        live_pairs(vs)[j] == (vs[i].0, vs[i].1.value->0),
        live_pairs(vs.take(i)).len() == j,
    decreases vs.len(),
{
    let init = vs.drop_last();
    let n = live_pairs(init).len();
    if j < n {
        let i = lemma_live_pair_from(init, j);
        assert(init.take(i) =~= vs.take(i));
        i
    } else {
        assert(vs.take(vs.len() - 1) =~= init);
        lemma_live_pairs_len(init);
        vs.len() - 1
    }
}

proof fn lemma_live_pairs_len(vs: Seq<(Seq<u8>, VersionModel)>)
    ensures
        live_pairs(vs).len() <= vs.len(),
    decreases vs.len(),
{
    if vs.len() > 0 {
        lemma_live_pairs_len(vs.drop_last());
    }
}

proof fn lemma_live_pair_of(vs: Seq<(Seq<u8>, VersionModel)>, i: int) -> (j: int)
    requires
        0 <= i < vs.len(),
        vs[i].1.value is Some,
    ensures
        0 <= j < live_pairs(vs).len(),
        live_pairs(vs)[j] == (vs[i].0, vs[i].1.value->0),
    decreases vs.len(),
{
    let init = vs.drop_last();
    if i < init.len() {
        lemma_live_pair_of(init, i)
    } else {
        live_pairs(init).len() as int
    }
}

proof fn lemma_live_pairs_grow(vs: Seq<(Seq<u8>, VersionModel)>, a: int, b: int)
    requires
        0 <= a <= b <= vs.len(),
    ensures
        live_pairs(vs.take(a)).len() <= live_pairs(vs.take(b)).len(),
    decreases b,
{
    if a < b {
        assert(vs.take(b).drop_last() =~= vs.take(b - 1));
        lemma_live_pairs_grow(vs, a, b - 1);
    }
}

/// What is live in a map is listed in key order, each key once and with its
/// value.
pub proof fn law_live_entries_of_a_map(m: Map<Seq<u8>, VersionModel>, k: Seq<u8>, v: Seq<u8>)
    requires
        m.dom().finite(),
    ensures
        ({
            let out = live_pairs(entries(m));
            &&& out.contains((k, v)) <==> m.contains_key(k) && m[k].value == Some(v)
            &&& forall|i: int, j: int|
                0 <= i < j < out.len() ==> lex_lt(#[trigger] out[i].0, #[trigger] out[j].0)
        }),
{
    lemma_listing_exists(m.dom());
    let ks = sorted_keys(m.dom());
    let es = entries(m);
    let out = live_pairs(es);
    assert(es.len() == ks.len());
    assert forall|i: int| 0 <= i < es.len() implies #[trigger] es[i] == (ks[i], m[ks[i]]) by {
    }
    if out.contains((k, v)) {
        let j = choose|j: int| 0 <= j < out.len() && out[j] == (k, v);
        let i = lemma_live_pair_from(es, j);
        assert(m.dom().contains(ks[i]));
    }
    if m.contains_key(k) && m[k].value == Some(v) {
        assert(m.dom().contains(k));
        let i = choose|i: int| 0 <= i < ks.len() && ks[i] == k;
        let j = lemma_live_pair_of(es, i);
        assert(out[j] == (k, v));
    }
    assert forall|i: int, j: int| 0 <= i < j < out.len() implies lex_lt(
        #[trigger] out[i].0,
        #[trigger] out[j].0,
    ) by {
        let a = lemma_live_pair_from(es, i);
        let b = lemma_live_pair_from(es, j);
        if b <= a {
            lemma_live_pairs_grow(es, b, a);
        }
        assert(lex_lt(ks[a], ks[b]));
    }
}

// ── What the sources offer ────────────────────────────────────────────────

/// A row is offered exactly where it is let through, with its key and version.
pub proof fn law_offers_are_the_rows_let_through(
    a: Seq<RowModel>,
    b: Seq<RowModel>,
    one: RowModel,
    keep: spec_fn(RowModel) -> bool,
)
    ensures
        offered(a + b, keep) == offered(a, keep) + offered(b, keep),
        offered(seq![one], keep) == if keep(one) {
            seq![(one.key, one.version)]
        } else {
            Seq::empty()
        },
    decreases b.len(),
{
    if b.len() == 0 {
        assert(a + b =~= a);
        assert(offered(a, keep) + offered(b, keep) =~= offered(a, keep));
    } else {
        assert((a + b).drop_last() =~= a + b.drop_last());
        law_offers_are_the_rows_let_through(a, b.drop_last(), one, keep);
        assert(offered(a + b, keep) =~= offered(a, keep) + offered(b, keep));
    }
    assert(seq![one].drop_last() =~= Seq::<RowModel>::empty());
    assert(offered(Seq::<RowModel>::empty(), keep).len() == 0);
    assert(offered(seq![one], keep) =~= if keep(one) {
        seq![(one.key, one.version)]
    } else {
        Seq::empty()
    });
}

proof fn lemma_offer_from(rs: Seq<RowModel>, keep: spec_fn(RowModel) -> bool, j: int) -> (i: int)
    requires
        0 <= j < offered(rs, keep).len(),
    ensures
        0 <= i < rs.len(),
        keep(rs[i]),
        offered(rs, keep)[j] == (rs[i].key, rs[i].version),
    decreases rs.len(),
{
    let init = rs.drop_last();
    if j < offered(init, keep).len() {
        lemma_offer_from(init, keep, j)
    } else {
        rs.len() - 1
    }
}

proof fn lemma_offer_of(rs: Seq<RowModel>, keep: spec_fn(RowModel) -> bool, i: int) -> (j: int)
    requires
        0 <= i < rs.len(),
        keep(rs[i]),
    ensures
        0 <= j < offered(rs, keep).len(),
        offered(rs, keep)[j] == (rs[i].key, rs[i].version),
    decreases rs.len(),
{
    let init = rs.drop_last();
    if i < init.len() {
        lemma_offer_of(init, keep, i)
    } else {
        offered(init, keep).len() as int
    }
}

pub proof fn lemma_file_offer_from(
    m: TablesModel,
    ids: Seq<u64>,
    keep: spec_fn(RowModel) -> bool,
    j: int,
) -> (p: (int, int))
    requires
        0 <= j < offered_by(m, ids, keep).len(),
    ensures
        0 <= p.0 < ids.len(),
        0 <= p.1 < m.rows(ids[p.0]).len(),
        keep(m.rows(ids[p.0])[p.1]),
        offered_by(m, ids, keep)[j] == (m.rows(ids[p.0])[p.1].key, m.rows(ids[p.0])[p.1].version),
    decreases ids.len(),
{
    let init = ids.drop_last();
    let front = offered_by(m, init, keep);
    if j < front.len() {
        lemma_file_offer_from(m, init, keep, j)
    } else {
        let i = lemma_offer_from(m.rows(ids.last()), keep, j - front.len());
        (ids.len() - 1, i)
    }
}

proof fn lemma_file_offer_of(
    m: TablesModel,
    ids: Seq<u64>,
    keep: spec_fn(RowModel) -> bool,
    a: int,
    i: int,
) -> (j: int)
    requires
        0 <= a < ids.len(),
        0 <= i < m.rows(ids[a]).len(),
        keep(m.rows(ids[a])[i]),
    ensures
        0 <= j < offered_by(m, ids, keep).len(),
        offered_by(m, ids, keep)[j] == (m.rows(ids[a])[i].key, m.rows(ids[a])[i].version),
    decreases ids.len(),
{
    let init = ids.drop_last();
    let front = offered_by(m, init, keep);
    if a < init.len() {
        lemma_file_offer_of(m, init, keep, a, i)
    } else {
        front.len() + lemma_offer_of(m.rows(ids.last()), keep, i)
    }
}

/// The memtable shows of the listed keys what a read of each gives.
pub proof fn law_memtable_scan_is_reads(
    ks: Seq<Seq<u8>>,
    more: Seq<Seq<u8>>,
    one: Seq<u8>,
    m: Chains,
    ts: u64,
)
    ensures
        visible_versions(ks + more, m, ts) == visible_versions(ks, m, ts) + visible_versions(
            more,
            m,
            ts,
        ),
        visible_versions(seq![one], m, ts) == match chains_read(m, one, ts) {
            Some(v) => seq![(one, v)],
            None => Seq::empty(),
        },
    decreases more.len(),
{
    if more.len() == 0 {
        assert(ks + more =~= ks);
        assert(visible_versions(ks, m, ts) + visible_versions(more, m, ts) =~= visible_versions(
            ks,
            m,
            ts,
        ));
    } else {
        assert((ks + more).drop_last() =~= ks + more.drop_last());
        law_memtable_scan_is_reads(ks, more.drop_last(), one, m, ts);
        assert(visible_versions(ks + more, m, ts) =~= visible_versions(ks, m, ts)
            + visible_versions(more, m, ts));
    }
    assert(seq![one].drop_last() =~= Seq::<Seq<u8>>::empty());
    assert(visible_versions(Seq::<Seq<u8>>::empty(), m, ts).len() == 0);
    assert(visible_versions(seq![one], m, ts) =~= match chains_read(m, one, ts) {
        Some(v) => seq![(one, v)],
        None => Seq::empty(),
    });
}

proof fn lemma_young_from(ks: Seq<Seq<u8>>, m: Chains, ts: u64, j: int) -> (i: int)
    requires
        0 <= j < visible_versions(ks, m, ts).len(),
    ensures
        0 <= i < ks.len(),
        visible_versions(ks, m, ts)[j].0 == ks[i],
        chains_read(m, ks[i], ts) == Some(visible_versions(ks, m, ts)[j].1),
    decreases ks.len(),
{
    let init = ks.drop_last();
    if j < visible_versions(init, m, ts).len() {
        lemma_young_from(init, m, ts, j)
    } else {
        ks.len() - 1
    }
}

proof fn lemma_young_of(ks: Seq<Seq<u8>>, m: Chains, ts: u64, i: int) -> (j: int)
    requires
        0 <= i < ks.len(),
        chains_read(m, ks[i], ts) is Some,
    ensures
        0 <= j < visible_versions(ks, m, ts).len(),
        visible_versions(ks, m, ts)[j] == (ks[i], chains_read(m, ks[i], ts)->0),
    decreases ks.len(),
{
    let init = ks.drop_last();
    if i < init.len() {
        lemma_young_of(init, m, ts, i)
    } else {
        visible_versions(init, m, ts).len() as int
    }
}

/// A memtable shows in a range, or under a prefix, exactly the keys there that a
/// read finds, and what it finds.
pub proof fn law_memtable_scans_agree_with_reads(
    m: Chains,
    lower: Seq<u8>,
    upper: Seq<u8>,
    prefix: Seq<u8>,
    ts: u64,
    k: Seq<u8>,
    v: VersionModel,
)
    requires
        m.dom().finite(),
    ensures
        range_scan(m, lower, upper, ts).contains((k, v)) <==> in_range(k, lower, upper)
            && chains_read(m, k, ts) == Some(v),
        prefix_scan(m, prefix, ts).contains((k, v)) <==> has_prefix(k, prefix) && chains_read(
            m,
            k,
            ts,
        ) == Some(v),
{
    let d = keys_between(m.dom(), lower, upper);
    let p = keys_with(m.dom(), prefix);
    lemma_listing_exists(d);
    lemma_listing_exists(p);
    assert(!m.contains_key(k) ==> chains_read(m, k, ts) is None);
    assert(d.contains(k) <==> m.contains_key(k) && in_range(k, lower, upper));
    assert(p.contains(k) <==> m.contains_key(k) && has_prefix(k, prefix));
    lemma_shown(sorted_keys(d), d, m, ts, k, v);
    lemma_shown(sorted_keys(p), p, m, ts, k, v);
}

proof fn lemma_shown(
    ks: Seq<Seq<u8>>,
    dom: Set<Seq<u8>>,
    m: Chains,
    ts: u64,
    k: Seq<u8>,
    v: VersionModel,
)
    requires
        lists_keys(ks, dom),
    ensures
        visible_versions(ks, m, ts).contains((k, v)) <==> dom.contains(k) && chains_read(m, k, ts)
            == Some(v),
{
    let out = visible_versions(ks, m, ts);
    if out.contains((k, v)) {
        let j = choose|j: int| 0 <= j < out.len() && out[j] == (k, v);
        let i = lemma_young_from(ks, m, ts, j);
        assert(dom.contains(ks[i]));
    }
    if dom.contains(k) && chains_read(m, k, ts) == Some(v) {
        let i = choose|i: int| 0 <= i < ks.len() && ks[i] == k;
        let j = lemma_young_of(ks, m, ts, i);
        assert(out[j] == (k, v));
    }
}

pub proof fn lemma_newest_finite(ps: Seq<(Seq<u8>, VersionModel)>)
    ensures
        newest_of_all(Map::empty(), ps).dom().finite(),
    decreases ps.len(),
{
    if ps.len() > 0 {
        lemma_newest_finite(ps.drop_last());
    }
}

/// What the files alone show of one key in a merge is what a read of them finds.
proof fn lemma_files_are_read(
    m: TablesModel,
    ids: Seq<u64>,
    young: Seq<(Seq<u8>, VersionModel)>,
    keep: spec_fn(RowModel) -> bool,
    ts: u64,
    key: Seq<u8>,
    out: Map<Seq<u8>, VersionModel>,
) -> (w: Option<VersionModel>)
    requires
        m.well_kept(),
        m.agrees(),
        is_listing(ids, m.version),
        ts < OPEN_ENDED_TS,
        forall|r: RowModel| r.key == key ==> #[trigger] keep(r) == r.version.visible_at(ts),
        forall|v: VersionModel| !#[trigger] young.contains((key, v)),
        out == newest_of_all(Map::empty(), young + offered_by(m, ids, keep)),
    ensures
        m.newest(key, ts, w),
        w is Some <==> out.contains_key(key),
        w is Some ==> w->0.value == out[key].value,
{
    let deep = offered_by(m, ids, keep);
    let ps = young + deep;
    law_merge_shows_newest(ps, key);
    assert forall|id: u64| #[trigger] m.live(id) implies (lookup_visible(m.rows(id), key, ts)
        matches Some(w) ==> out.contains_key(key) && w.begin_ts <= out[key].begin_ts) by {
        if lookup_visible(m.rows(id), key, ts) is Some {
            let w = lookup_visible(m.rows(id), key, ts)->0;
            let j = lemma_found_is_offered(m, ids, keep, ts, key, id);
            assert(ps[young.len() + j] == (key, w));
        }
    }
    if out.contains_key(key) {
        let j = choose|j: int| 0 <= j < ps.len() && ps[j] == (key, out[key]);
        if j < young.len() {
            assert(young[j] == (key, out[key]));
            assert(young.contains((key, out[key])));
        }
        let (a, i) = lemma_file_offer_from(m, ids, keep, j - young.len());
        let id = ids[a];
        assert(ids.contains(id));
        lemma_listing_is_live(ids, m, id);
        assert(m.file_kept(id));
        assert(m.rows(id)[i].key == key && m.rows(id)[i].version == out[key]);
        let w = lemma_found_in_file(m, id, i, ts, key);
        assert(w.begin_ts == out[key].begin_ts);
        assert(m.newest(key, ts, Some(w)));
        Some(w)
    } else {
        assert(m.newest(key, ts, None));
        None
    }
}

proof fn lemma_found_is_offered(
    m: TablesModel,
    ids: Seq<u64>,
    keep: spec_fn(RowModel) -> bool,
    ts: u64,
    key: Seq<u8>,
    id: u64,
) -> (j: int)
    requires
        is_listing(ids, m.version),
        m.live(id),
        forall|r: RowModel| r.key == key ==> #[trigger] keep(r) == r.version.visible_at(ts),
        lookup_visible(m.rows(id), key, ts) is Some,
    ensures
        0 <= j < offered_by(m, ids, keep).len(),
        offered_by(m, ids, keep)[j] == (key, lookup_visible(m.rows(id), key, ts)->0),
{
    lemma_visible_is_a_row(m.rows(id), key, ts);
    let w = lookup_visible(m.rows(id), key, ts)->0;
    let i = choose|i: int|
        0 <= i < m.rows(id).len() && (#[trigger] m.rows(id)[i]).key == key && m.rows(id)[i].version
            == w;
    lemma_listing_is_live(ids, m, id);
    let a = choose|a: int| 0 <= a < ids.len() && ids[a] == id;
    lemma_file_offer_of(m, ids, keep, a, i)
}

proof fn lemma_found_in_file(m: TablesModel, id: u64, i: int, ts: u64, key: Seq<u8>) -> (w: VersionModel)
    requires
        m.agrees(),
        m.live(id),
        m.file_kept(id),
        ts < OPEN_ENDED_TS,
        0 <= i < m.rows(id).len(),
        m.rows(id)[i].key == key,
        m.rows(id)[i].version.visible_at(ts),
    ensures
        lookup_visible(m.rows(id), key, ts) == Some(w),
        w.begin_ts >= m.rows(id)[i].version.begin_ts,
        w.begin_ts == m.rows(id)[i].version.begin_ts ==> w.value == m.rows(id)[i].version.value,
{
    law_file_read_is_latest(m.rows(id), key, ts);
    lemma_visible_is_a_row(m.rows(id), key, ts);
    let w = lookup_visible(m.rows(id), key, ts)->0;
    assert(latest_in(m.rows(id), key, ts, w));
    let x = choose|x: int|
        0 <= x < m.rows(id).len() && (#[trigger] m.rows(id)[x]).key == key && m.rows(id)[x].version
            == w;
    assert(m.rows(id)[x].key == m.rows(id)[i].key);
    w
}

/// What a merge of the memtable with the files shows of one key is what a read of
/// the key gives.
pub proof fn lemma_merge_is_read(
    m: TablesModel,
    chains: Chains,
    ids: Seq<u64>,
    young: Seq<(Seq<u8>, VersionModel)>,
    keep: spec_fn(RowModel) -> bool,
    ts: u64,
    key: Seq<u8>,
)
    requires
        m.well_kept(),
        m.agrees(),
        memtable_is_newer(m, chains),
        is_listing(ids, m.version),
        ts < OPEN_ENDED_TS,
        !m.is_dropped(key),
        forall|r: RowModel| r.key == key ==> #[trigger] keep(r) == r.version.visible_at(ts),
        forall|v: VersionModel| #[trigger]
            young.contains((key, v)) <==> chains_read(chains, key, ts) == Some(v),
    ensures
        ({
            let out = newest_of_all(Map::empty(), young + offered_by(m, ids, keep));
            m.reads(
                chains,
                key,
                ts,
                if out.contains_key(key) {
                    out[key].value
                } else {
                    None
                },
            )
        }),
{
    let deep = offered_by(m, ids, keep);
    let ps = young + deep;
    let out = newest_of_all(Map::empty(), ps);
    match chains_read(chains, key, ts) {
        Some(w) => {
            law_merge_shows_newest(ps, key);
            assert(young.contains((key, w)));
            let y = choose|y: int| 0 <= y < young.len() && young[y] == (key, w);
            assert(ps[y] == (key, w));
            assert(out.contains_key(key));
            let j = choose|j: int| 0 <= j < ps.len() && ps[j] == (key, out[key]);
            if j < young.len() {
                assert(young[j] == (key, out[key]));
                assert(young.contains((key, out[key])));
            } else {
                let (a, i) = lemma_file_offer_from(m, ids, keep, j - young.len());
                assert(ids.contains(ids[a]));
                lemma_listing_is_live(ids, m, ids[a]);
                lemma_chain_read_is_held(chain_of(chains, key), ts);
                let x = choose|x: int|
                    0 <= x < chain_of(chains, key).len() && chain_of(chains, key)[x] == w;
                assert(chains.contains_key(key));
                assert(chains[key][x] == w);
                assert(m.rows(ids[a])[i].key == key);
                assert(m.rows(ids[a])[i].version.begin_ts < chains[key][x].begin_ts);
            }
        },
        None => {
            let w = lemma_files_are_read(m, ids, young, keep, ts, key, out);
            assert(m.newest(key, ts, w));
        },
    }
}

proof fn lemma_chain_read_is_held(s: Seq<VersionModel>, ts: u64)
    ensures
        chain_read(s, ts) matches Some(v) ==> s.contains(v),
    decreases s.len(),
{
    if s.len() > 0 && !s[0].visible_at(ts) {
        lemma_chain_read_is_held(s.drop_first(), ts);
        if chain_read(s, ts) is Some {
            let v = chain_read(s, ts)->0;
            let i = choose|i: int| 0 <= i < s.drop_first().len() && s.drop_first()[i] == v;
            assert(s[i + 1] == v);
        }
    }
}

// ── Range scans ───────────────────────────────────────────────────────────

/// A range scan holds exactly the live keys of the range: a key of a table that
/// is not dropped is there with a value exactly where it lies in the range and a
/// read of it at the snapshot gives that value, whatever its neighbours are. The
/// keys ascend, so each is there once.
pub proof fn law_range_scan_is_point_reads<F: FileIO, S: SstFormat, H: EngineHook, P: CompactionPicker, C: Clock>(
    e: &Engine<F, S, H, P, C>,
    lower: &[u8],
    upper: &[u8],
    ts: u64,
    out: Vec<(Bytes, Bytes)>,
    k: Seq<u8>,
    v: Seq<u8>,
)
    requires
        call_ensures(Engine::<F, S, H, P, C>::scan_range, (e, lower, upper, ts), Ok(out)),
        healthy(e@),
        e@.write.chains.dom().finite(),
        ts < OPEN_ENDED_TS,
    ensures
        ({
            let has = exists|i: int|
                0 <= i < out@.len() && bytes_view((#[trigger] out@[i]).0) == k && bytes_view(
                    out@[i].1,
                ) == v;
            &&& !e@.tables.is_dropped(k) ==> (has <==> in_range(k, lower@, upper@)
                && e@.tables.reads(e@.write.chains, k, ts, Some(v)))
            &&& has ==> in_range(k, lower@, upper@)
        }),
        forall|i: int, j: int|
            0 <= i < j < out@.len() ==> lex_lt(
                bytes_view((#[trigger] out@[i]).0),
                bytes_view((#[trigger] out@[j]).0),
            ),
{
    let m = e@;
    let ps = pair_models(out@);
    assert forall|i: int| 0 <= i < out@.len() implies #[trigger] ps[i] == (
        bytes_view(out@[i].0),
        bytes_view(out@[i].1),
    ) by {
    }
    lemma_range(ps, m, lower@, upper@, ts, k, v);
    let has = exists|i: int|
        0 <= i < out@.len() && bytes_view((#[trigger] out@[i]).0) == k && bytes_view(out@[i].1) == v;
    assert(has <==> ps.contains((k, v))) by {
        if has {
            let i = choose|i: int|
                0 <= i < out@.len() && bytes_view((#[trigger] out@[i]).0) == k && bytes_view(
                    out@[i].1,
                ) == v;
            assert(ps[i] == (k, v));
        }
        if ps.contains((k, v)) {
            let i = choose|i: int| 0 <= i < ps.len() && ps[i] == (k, v);
            assert(bytes_view(out@[i].0) == k);
        }
    }
    assert forall|i: int, j: int| 0 <= i < j < out@.len() implies lex_lt(
        bytes_view((#[trigger] out@[i]).0),
        bytes_view((#[trigger] out@[j]).0),
    ) by {
        assert(lex_lt(ps[i].0, ps[j].0));
    }
}

proof fn lemma_range(
    out: Seq<(Seq<u8>, Seq<u8>)>,
    m: EngineModel,
    lower: Seq<u8>,
    upper: Seq<u8>,
    ts: u64,
    k: Seq<u8>,
    v: Seq<u8>,
)
    requires
        is_range(out, m, lower, upper, ts),
        healthy(m),
        m.write.chains.dom().finite(),
        ts < OPEN_ENDED_TS,
    ensures
        !m.tables.is_dropped(k) ==> (out.contains((k, v)) <==> in_range(k, lower, upper)
            && m.tables.reads(m.write.chains, k, ts, Some(v))),
        out.contains((k, v)) ==> in_range(k, lower, upper),
        forall|i: int, j: int|
            0 <= i < j < out.len() ==> lex_lt(#[trigger] out[i].0, #[trigger] out[j].0),
{
    let ids = choose|ids: Seq<u64>| #[trigger]
        is_listing(ids, m.tables.version) && out == live_pairs(
            entries(range_contents(m, ids, lower, upper, ts)),
        );
    let young = range_scan(m.write.chains, lower, upper, ts);
    let keep = in_scan(m.tables, lower, upper, ts);
    let found = searched(m.tables, ids, lower, upper);
    let deep = offered_by(m.tables, found, keep);
    let ps = young + deep;
    let shown = range_contents(m, ids, lower, upper, ts);
    lemma_newest_finite(ps);
    law_live_entries_of_a_map(shown, k, v);
    law_merge_shows_newest(ps, k);
    if shown.contains_key(k) {
        let j = choose|j: int| 0 <= j < ps.len() && ps[j] == (k, shown[k]);
        if j < young.len() {
            assert(young[j] == (k, shown[k]));
            law_memtable_scans_agree_with_reads(
                m.write.chains,
                lower,
                upper,
                Seq::empty(),
                ts,
                k,
                shown[k],
            );
            assert(young.contains((k, shown[k])));
        } else {
            let (a, i) = lemma_file_offer_from(m.tables, found, keep, j - young.len());
        }
    }
    if !m.tables.is_dropped(k) && in_range(k, lower, upper) {
        assert forall|w: VersionModel| #[trigger] young.contains((k, w)) <==> chains_read(
            m.write.chains,
            k,
            ts,
        ) == Some(w) by {
            law_memtable_scans_agree_with_reads(
                m.write.chains,
                lower,
                upper,
                Seq::empty(),
                ts,
                k,
                w,
            );
        }
        law_pruning_loses_nothing(m.tables, ids, lower, upper, ts);
        lemma_merge_is_read(m.tables, m.write.chains, ids, young, keep, ts, k);
        let read = if shown.contains_key(k) {
            shown[k].value
        } else {
            None
        };
        if m.tables.reads(m.write.chains, k, ts, Some(v)) {
            law_read_is_unique(m.tables, m.write.chains, k, ts, Some(v), read);
        }
    }
}

/// A scan and a read of one key agree: where both succeed on a healthy engine,
/// the scan of a range that the key lies in has the key with a value exactly where
/// the read returned that value.
pub proof fn law_scan_and_get_agree<F: FileIO, S: SstFormat, H: EngineHook, P: CompactionPicker, C: Clock>(
    e: &Engine<F, S, H, P, C>,
    g: &mut Engine<F, S, H, P, C>,
    lower: &[u8],
    upper: &[u8],
    key: &[u8],
    ts: u64,
    out: Vec<(Bytes, Bytes)>,
    found: Option<Bytes>,
    v: Seq<u8>,
)
    requires
        *old(g) == *e,
        call_ensures(Engine::<F, S, H, P, C>::scan_range, (e, lower, upper, ts), Ok(out)),
        call_ensures(Engine::<F, S, H, P, C>::get, (g, key, ts), Ok(found)),
        e.sound(),
        healthy(e@),
        e@.write.chains.dom().finite(),
        ts < OPEN_ENDED_TS,
        in_range(key@, lower@, upper@),
        !e@.tables.is_dropped(key@),
    ensures
        (exists|i: int|
            0 <= i < out@.len() && bytes_view((#[trigger] out@[i]).0) == key@ && bytes_view(
                out@[i].1,
            ) == v) <==> (found matches Some(b) && bytes_view(b) == v),
{
    law_range_scan_is_point_reads(e, lower, upper, ts, out, key@, v);
    assert(e@.tables.reads(e@.write.chains, key@, ts, opt_bytes_view(found)));
    if e@.tables.reads(e@.write.chains, key@, ts, Some(v)) {
        law_read_is_unique(e@.tables, e@.write.chains, key@, ts, Some(v), opt_bytes_view(found));
    }
}

/// A chain is read as its newest version that does not begin after the snapshot:
/// what is found is held and begins in time, and no version that begins in time
/// is newer. Nothing is found only where every version begins later.
pub proof fn law_chain_read_is_the_newest_in_time(s: Seq<VersionModel>, ts: u64)
    requires
        contiguous(s),
        ts < OPEN_ENDED_TS,
    ensures
        match chain_read(s, ts) {
            Some(v) => s.contains(v) && v.begin_ts <= ts && forall|i: int|
                0 <= i < s.len() && (#[trigger] s[i]).begin_ts <= ts ==> s[i].begin_ts <= v.begin_ts,
            None => forall|i: int| 0 <= i < s.len() ==> (#[trigger] s[i]).begin_ts > ts,
        },
{
    lemma_chain_read_is_held(s, ts);
    lemma_read_is_visible(s, ts);
    assert forall|i: int| 0 <= i < s.len() && (#[trigger] s[i]).begin_ts <= ts implies chain_read(
        s,
        ts,
    ) is Some && s[i].begin_ts <= chain_read(s, ts)->0.begin_ts by {
        lemma_in_time_is_shown(s, ts, i);
    }
}

proof fn lemma_in_time_is_shown(s: Seq<VersionModel>, ts: u64, i: int)
    requires
        contiguous(s),
        ts < OPEN_ENDED_TS,
        0 <= i < s.len(),
        s[i].begin_ts <= ts,
    ensures
        chain_read(s, ts) is Some,
        chain_read(s, ts)->0.begin_ts >= s[i].begin_ts,
    decreases i,
{
    if i > 0 && s[i - 1].begin_ts <= ts {
        lemma_in_time_is_shown(s, ts, i - 1);
        assert(s[i - 1].begin_ts > s[i].begin_ts);
    } else {
        assert(s[i].visible_at(ts));
        lemma_first_visible(s, ts, i);
    }
}

proof fn lemma_first_visible(s: Seq<VersionModel>, ts: u64, i: int)
    requires
        newest_first(s),
        0 <= i < s.len(),
        s[i].visible_at(ts),
    ensures
        chain_read(s, ts) is Some,
        chain_read(s, ts)->0.begin_ts >= s[i].begin_ts,
    decreases s.len(),
{
    if s[0].visible_at(ts) {
        if i > 0 {
            assert(s[0].begin_ts > s[i].begin_ts);
        }
    } else {
        let t = s.drop_first();
        assert(newest_first(t)) by {
            assert forall|a: int, b: int| 0 <= a < b < t.len() implies (#[trigger] t[a]).begin_ts > (
            #[trigger] t[b]).begin_ts by {
                assert(s[a + 1].begin_ts > s[b + 1].begin_ts);
            }
        }
        assert(t[i - 1] == s[i]);
        lemma_first_visible(t, ts, i - 1);
    }
}

proof fn lemma_visible_once(s: Seq<VersionModel>, ts: u64)
    requires
        contiguous(s),
    ensures
        forall|i: int, j: int|
            0 <= i < j < s.len() ==> !((#[trigger] s[i]).visible_at(ts) && (#[trigger] s[j]).visible_at(
                ts,
            )),
{
    assert forall|i: int, j: int| 0 <= i < j < s.len() implies !((#[trigger] s[i]).visible_at(ts) && (
    #[trigger] s[j]).visible_at(ts)) by {
        assert(s[j].end_ts == s[j - 1].begin_ts);
        if i < j - 1 {
            assert(s[i].begin_ts > s[j - 1].begin_ts);
        }
    }
}

// ── Scans of everything ───────────────────────────────────────────────────

/// A scan of everything has a key with a value exactly where a read of it at the
/// snapshot gives that value, for every key of a table that is not dropped; a key
/// that is there without a value reads as nothing. The keys ascend.
pub proof fn law_whole_scan_is_point_reads<F: FileIO, S: SstFormat, H: EngineHook, P: CompactionPicker, C: Clock>(
    e: &Engine<F, S, H, P, C>,
    ts: u64,
    out: Vec<(Bytes, Option<Bytes>)>,
    k: Seq<u8>,
    v: Seq<u8>,
)
    requires
        call_ensures(Engine::<F, S, H, P, C>::scan_all, (e, ts), Ok(out)),
        healthy(e@),
        e@.write.chains.dom().finite(),
        ts < OPEN_ENDED_TS,
        !e@.tables.is_dropped(k),
    ensures
        (exists|i: int|
            0 <= i < out@.len() && bytes_view((#[trigger] out@[i]).0) == k && (out@[i].1 matches
                Some(b) && bytes_view(b) == v)) <==> e@.tables.reads(
            e@.write.chains,
            k,
            ts,
            Some(v),
        ),
        forall|i: int|
            0 <= i < out@.len() && bytes_view((#[trigger] out@[i]).0) == k && out@[i].1 is None
                ==> e@.tables.reads(e@.write.chains, k, ts, None),
        forall|i: int, j: int|
            0 <= i < j < out@.len() ==> lex_lt(
                bytes_view((#[trigger] out@[i]).0),
                bytes_view((#[trigger] out@[j]).0),
            ),
{
    let m = e@;
    let chains = m.write.chains;
    let ps = opt_pair_models(out@);
    let ids = choose|ids: Seq<u64>| #[trigger]
        is_listing(ids, m.tables.version) && ps == entries(all_contents(m, ids, ts)).map_values(
            |e: (Seq<u8>, VersionModel)| (e.0, e.1.value),
        );
    let shown = all_contents(m, ids, ts);
    let young = offered(table_rows(chains), shown_at(ts));
    let keep = in_snapshot(m.tables, ts);
    lemma_newest_finite(young + offered_by(m.tables, ids, keep));
    lemma_listing_exists(shown.dom());
    lemma_listing_exists(chains.dom());
    let ks = sorted_keys(shown.dom());
    assert(ps.len() == ks.len());
    assert forall|i: int| 0 <= i < out@.len() implies bytes_view((#[trigger] out@[i]).0) == ks[i]
        && opt_bytes_view(out@[i].1) == shown[ks[i]].value && shown.contains_key(ks[i]) by {
        assert(ps[i] == (bytes_view(out@[i].0), opt_bytes_view(out@[i].1)));
        assert(entries(shown)[i] == (ks[i], shown[ks[i]]));
        assert(shown.dom().contains(ks[i]));
    }
    assert forall|w: VersionModel| #[trigger] young.contains((k, w)) <==> chains_read(chains, k, ts)
        == Some(w) by {
        lemma_rows_shown(chains, ts, k, w);
    }
    lemma_merge_is_read(m.tables, chains, ids, young, keep, ts, k);
    let read = if shown.contains_key(k) {
        shown[k].value
    } else {
        None
    };
    if m.tables.reads(chains, k, ts, Some(v)) {
        law_read_is_unique(m.tables, chains, k, ts, Some(v), read);
        assert(shown.dom().contains(k));
        let i = choose|i: int| 0 <= i < ks.len() && ks[i] == k;
        assert(bytes_view(out@[i].0) == k);
    }
    assert forall|i: int, j: int| 0 <= i < j < out@.len() implies lex_lt(
        bytes_view((#[trigger] out@[i]).0),
        bytes_view((#[trigger] out@[j]).0),
    ) by {
        assert(lex_lt(ks[i], ks[j]));
    }
}

proof fn lemma_rows_shown(chains: Chains, ts: u64, k: Seq<u8>, w: VersionModel)
    requires
        chains_contiguous(chains),
        lists_keys(sorted_keys(chains.dom()), chains.dom()),
    ensures
        offered(table_rows(chains), shown_at(ts)).contains((k, w)) <==> chains_read(chains, k, ts)
            == Some(w),
{
    let rs = table_rows(chains);
    let keep = shown_at(ts);
    let young = offered(rs, keep);
    lemma_table_rows(chains);
    let s = chain_of(chains, k);
    if young.contains((k, w)) {
        let j = choose|j: int| 0 <= j < young.len() && young[j] == (k, w);
        let i = lemma_offer_from(rs, keep, j);
        assert(chains.contains_key(k) && chains[k].contains(w));
        let x = choose|x: int| 0 <= x < s.len() && s[x] == w;
        lemma_first_visible(s, ts, x);
        lemma_visible_once(s, ts);
        lemma_chain_read_is_held(s, ts);
        lemma_read_is_visible(s, ts);
        let y = choose|y: int| 0 <= y < s.len() && s[y] == chain_read(s, ts)->0;
        assert(s[x].visible_at(ts) && s[y].visible_at(ts));
        assert(x == y);
    }
    if chains_read(chains, k, ts) == Some(w) {
        lemma_chain_read_is_held(s, ts);
        lemma_read_is_visible(s, ts);
        let x = choose|x: int| 0 <= x < s.len() && s[x] == w;
        assert(chains.contains_key(k));
        assert(chains[k][x] == w);
        let r = RowModel { key: k, version: w };
        assert(rs.contains(r));
        let i = choose|i: int| 0 <= i < rs.len() && rs[i] == r;
        let j = lemma_offer_of(rs, keep, i);
        assert(young[j] == (k, w));
    }
}

proof fn lemma_read_is_visible(s: Seq<VersionModel>, ts: u64)
    ensures
        chain_read(s, ts) matches Some(v) ==> v.visible_at(ts),
    decreases s.len(),
{
    if s.len() > 0 && !s[0].visible_at(ts) {
        lemma_read_is_visible(s.drop_first(), ts);
    }
}

} // verus!
