//! What the SSTs of an engine hold, and what reads of them see.

use crate::buf::{lemma_lex_irreflexive, lemma_lex_total, lex_le, lex_lt, lists_keys, sorted_keys};
use crate::chain_store::{chains_read, Chains};
use crate::column_stats::StatsModel;
use crate::key_index::{lemma_visible_is_a_row, lookup_visible, rows_sorted, untagged_rows};
use crate::keys::key_prefix;
use crate::memtable::{chain_rows, chains_contiguous, rows_of, table_rows, RowModel};
use crate::merge::{
    collapsed, in_order, law_merged_in_order, newest_of_key, observable, retimed, row_lt, true_end,
};
use crate::paths::sst_path_of;
use crate::schema::FieldModel;
use crate::version::{VersionModel, OPEN_ENDED_TS};
use crate::version_set::{covers, VersionSetModel};
use vstd::prelude::*;

verus! {

// ── The rows of one file ──────────────────────────────────────────────────

/// Rows as a file holds them: in order, and each version ends where the next
/// newer one of its key begins.
pub open spec fn settled(s: Seq<RowModel>) -> bool {
    &&& in_order(s)
    &&& forall|i: int| 0 <= i < s.len() ==> (#[trigger] s[i]).version.end_ts == true_end(s, i)
}

/// `v` is the newest version of `key` that does not begin after `ts`.
pub open spec fn latest_in(s: Seq<RowModel>, key: Seq<u8>, ts: u64, v: VersionModel) -> bool {
    &&& exists|i: int| 0 <= i < s.len() && (#[trigger] s[i]).key == key && s[i].version == v
    &&& v.begin_ts <= ts
    &&& forall|j: int|
        0 <= j < s.len() && (#[trigger] s[j]).key == key && s[j].version.begin_ts <= ts
            ==> s[j].version.begin_ts <= v.begin_ts
}

/// No version of `key` begins at or before `ts`.
pub open spec fn none_in(s: Seq<RowModel>, key: Seq<u8>, ts: u64) -> bool {
    forall|j: int| 0 <= j < s.len() && (#[trigger] s[j]).key == key ==> s[j].version.begin_ts > ts
}

proof fn lemma_order_within_key(s: Seq<RowModel>, i: int, j: int)
    requires
        in_order(s),
        0 <= i < s.len(),
        0 <= j < s.len(),
        s[i].key == s[j].key,
        i < j,
    ensures
        s[i].version.begin_ts > s[j].version.begin_ts,
        forall|k: int| i <= k <= j ==> (#[trigger] s[k]).key == s[i].key,
{
    lemma_lex_irreflexive(s[i].key);
    assert(row_lt(s[i], s[j]));
    assert forall|k: int| i <= k <= j implies (#[trigger] s[k]).key == s[i].key by {
        if i < k && k < j {
            assert(row_lt(s[i], s[k]));
            assert(row_lt(s[k], s[j]));
            lemma_lex_total(s[i].key, s[k].key);
        }
    }
}

/// Reading a settled file finds the newest version that does not begin after
/// the snapshot, and nothing only where there is none.
pub proof fn law_file_read_is_latest(s: Seq<RowModel>, key: Seq<u8>, ts: u64)
    requires
        settled(s),
        ts < OPEN_ENDED_TS,
    ensures
        match lookup_visible(s, key, ts) {
            Some(v) => latest_in(s, key, ts, v),
            None => none_in(s, key, ts),
        },
{
    lemma_visible_is_a_row(s, key, ts);
    match lookup_visible(s, key, ts) {
        Some(v) => {
            let i = choose|i: int|
                0 <= i < s.len() && (#[trigger] s[i]).key == key && s[i].version == v;
            assert(s[i].version.end_ts == true_end(s, i));
            assert forall|j: int|
                0 <= j < s.len() && (#[trigger] s[j]).key == key && s[j].version.begin_ts
                    <= ts implies s[j].version.begin_ts <= v.begin_ts by {
                if j < i {
                    lemma_order_within_key(s, j, i);
                    assert(s[i - 1].key == key);
                    if j < i - 1 {
                        lemma_order_within_key(s, j, i - 1);
                    }
                    assert(false);
                } else if i < j {
                    lemma_order_within_key(s, i, j);
                }
            }
        },
        None => {
            assert forall|j: int| 0 <= j < s.len() && (#[trigger] s[j]).key
                == key implies s[j].version.begin_ts > ts by {
                if s[j].version.begin_ts <= ts {
                    lemma_some_is_visible(s, key, ts, j);
                }
            }
        },
    }
}

proof fn lemma_some_is_visible(s: Seq<RowModel>, key: Seq<u8>, ts: u64, j: int)
    requires
        settled(s),
        ts < OPEN_ENDED_TS,
        0 <= j < s.len(),
        s[j].key == key,
        s[j].version.begin_ts <= ts,
    ensures
        exists|i: int|
            0 <= i < s.len() && (#[trigger] s[i]).key == key && s[i].version.visible_at(ts),
    decreases j,
{
    assert(s[j].version.end_ts == true_end(s, j));
    if j > 0 && s[j - 1].key == key && s[j - 1].version.begin_ts <= ts {
        lemma_some_is_visible(s, key, ts, j - 1);
    } else {
        assert(s[j].version.visible_at(ts));
    }
}

/// Rows in order are sorted by key.
pub proof fn lemma_in_order_sorted(s: Seq<RowModel>)
    requires
        in_order(s),
    ensures
        rows_sorted(s),
{
    assert forall|i: int, j: int| 0 <= i <= j < s.len() implies lex_le(
        #[trigger] s[i].key,
        #[trigger] s[j].key,
    ) by {
        if i < j {
            assert(row_lt(s[i], s[j]));
        }
    }
}

/// Dropping the transactions from rows changes nothing else of them.
pub proof fn lemma_untagged_settled(s: Seq<RowModel>)
    requires
        settled(s),
    ensures
        settled(untagged_rows(s)),
{
    let t = untagged_rows(s);
    assert forall|i: int, j: int| 0 <= i < j < t.len() implies row_lt(
        #[trigger] t[i],
        #[trigger] t[j],
    ) by {
        assert(row_lt(s[i], s[j]));
    }
    assert forall|i: int| 0 <= i < t.len() implies (#[trigger] t[i]).version.end_ts == true_end(
        t,
        i,
    ) by {
        assert(s[i].version.end_ts == true_end(s, i));
    }
}

/// A memtable that is written out gives settled rows.
pub proof fn law_table_rows_settled(m: Chains)
    requires
        chains_contiguous(m),
        lists_keys(sorted_keys(m.dom()), m.dom()),
    ensures
        settled(table_rows(m)),
{
    let ks = sorted_keys(m.dom());
    lemma_rows_settled(ks, m, ks.len() as int);
    assert(ks.take(ks.len() as int) =~= ks);
}

proof fn lemma_rows_settled(ks: Seq<Seq<u8>>, m: Chains, n: int)
    requires
        chains_contiguous(m),
        lists_keys(ks, m.dom()),
        0 <= n <= ks.len(),
    ensures
        settled(rows_of(ks.take(n), m)),
        forall|i: int|
            0 <= i < rows_of(ks.take(n), m).len() ==> exists|k: int|
                0 <= k < n && (#[trigger] rows_of(ks.take(n), m)[i]).key == #[trigger] ks[k],
    decreases n,
{
    let out = rows_of(ks.take(n), m);
    if n > 0 {
        lemma_rows_settled(ks, m, n - 1);
        assert(ks.take(n).drop_last() =~= ks.take(n - 1));
        let front = rows_of(ks.take(n - 1), m);
        let key = ks[n - 1];
        assert(m.dom().contains(key)) by {
            assert(ks.contains(key));
        }
        let chain = m[key];
        let tail = chain_rows(key, chain);
        assert(out =~= front + tail);
        assert forall|i: int| 0 <= i < out.len() implies exists|k: int|
            0 <= k < n && (#[trigger] out[i]).key == #[trigger] ks[k] by {
            if i < front.len() {
                assert(out[i] == front[i]);
                let k = choose|k: int| 0 <= k < n - 1 && front[i].key == #[trigger] ks[k];
                assert(out[i].key == ks[k]);
            } else {
                assert(out[i].key == ks[n - 1]);
            }
        }
        assert forall|i: int, j: int| 0 <= i < j < out.len() implies row_lt(
            #[trigger] out[i],
            #[trigger] out[j],
        ) by {
            if j < front.len() {
                assert(row_lt(front[i], front[j]));
            } else if i >= front.len() {
                let a = i - front.len();
                let b = j - front.len();
                assert(chain[a].begin_ts > chain[b].begin_ts);
            } else {
                assert(out[i] == front[i]);
                let k = choose|k: int| 0 <= k < n - 1 && front[i].key == #[trigger] ks[k];
                assert(lex_lt(ks[k], ks[n - 1]));
            }
        }
        assert forall|i: int| 0 <= i < out.len() implies (#[trigger] out[i]).version.end_ts
            == true_end(out, i) by {
            if i < front.len() {
                assert(out[i] == front[i]);
                assert(front[i].version.end_ts == true_end(front, i));
                if i > 0 {
                    assert(out[i - 1] == front[i - 1]);
                }
            } else if i == front.len() {
                assert(out[i].version == chain[0]);
                if i > 0 {
                    assert(out[i - 1] == front[i - 1]);
                    let k = choose|k: int| 0 <= k < n - 1 && front[i - 1].key == #[trigger] ks[k];
                    assert(lex_lt(ks[k], ks[n - 1]));
                    lemma_lex_irreflexive(key);
                }
            } else {
                let a = i - front.len();
                assert(out[i].version == chain[a]);
                assert(out[i - 1].version == chain[a - 1]);
                assert(out[i - 1].key == key);
            }
        }
    }
}

/// What a merge leaves is settled.
pub proof fn law_merged_settled(s: Seq<RowModel>, watermark: u64)
    requires
        in_order(s),
    ensures
        settled(collapsed(s, watermark)),
{
    law_merged_in_order(s, watermark);
    lemma_collapsed_ends(s, watermark);
}

proof fn lemma_collapsed_ends(s: Seq<RowModel>, watermark: u64)
    requires
        in_order(s),
    ensures
        ({
            let out = collapsed(s, watermark);
            &&& forall|k: int|
                0 <= k < out.len() ==> (#[trigger] out[k]).version.end_ts == true_end(out, k)
            &&& s.len() > 0 && observable(s, s.len() - 1, watermark) ==> out.len() > 0
                && out.last() == retimed(s, s.len() - 1)
            &&& s.len() > 0 ==> out.len() > 0 && out.last().key == s.last().key
        }),
    decreases s.len(),
{
    if s.len() > 0 {
        let init = s.drop_last();
        assert forall|i: int, j: int| 0 <= i < j < init.len() implies row_lt(
            #[trigger] init[i],
            #[trigger] init[j],
        ) by {
            assert(row_lt(s[i], s[j]));
        }
        lemma_collapsed_ends(init, watermark);
        let rest = collapsed(init, watermark);
        let out = collapsed(s, watermark);
        let n = s.len() - 1;
        if n > 0 {
            assert(init.last() == s[n - 1]);
            assert(observable(init, n - 1, watermark) == observable(s, n - 1, watermark)) by {
                assert(init[n - 1] == s[n - 1]);
                if n > 1 {
                    assert(init[n - 2] == s[n - 2]);
                }
            }
        }
        if observable(s, n, watermark) {
            let k = rest.len() as int;
            assert(out[k] == retimed(s, n));
            if newest_of_key(s, n) {
                if n > 0 {
                    assert(out[k - 1] == rest.last());
                }
            } else {
                // The next newer version begins after the watermark, so it is
                // observable too and stands right before.
                assert(s[n - 1].key == s[n].key && s[n - 1].version.begin_ts > watermark);
                assert(observable(s, n - 1, watermark)) by {
                    if n > 1 && s[n - 2].key == s[n - 1].key {
                        assert(row_lt(s[n - 2], s[n - 1]));
                        lemma_lex_irreflexive(s[n - 1].key);
                    }
                }
                assert(rest.last() == retimed(init, n - 1));
                assert(out[k - 1] == rest.last());
                assert(out[k - 1].version.begin_ts == s[n - 1].version.begin_ts);
            }
            assert forall|q: int| 0 <= q < out.len() implies (#[trigger] out[q]).version.end_ts
                == true_end(out, q) by {
                if q < k {
                    assert(out[q] == rest[q]);
                    assert(rest[q].version.end_ts == true_end(rest, q));
                    if q > 0 {
                        assert(out[q - 1] == rest[q - 1]);
                    }
                }
            }
        } else {
            assert(s[n - 1].key == s[n].key);
        }
    }
}

// ── The files of an engine ────────────────────────────────────────────────

/// What the SSTs of an engine hold.
#[verifier::ext_equal]
pub struct TablesModel {
    /// Directory of the files.
    pub dir: Seq<char>,
    /// Which files are live, and which tables are dropped.
    pub version: VersionSetModel,
    /// The rows of every file, by path.
    pub stored: Map<Seq<char>, Seq<RowModel>>,
    /// Registered schemas by table.
    pub schemas: Map<Seq<char>, Seq<FieldModel>>,
    /// Column statistics by file and table.
    pub stats: Map<u64, Map<Seq<char>, StatsModel>>,
    /// Rows of all files, superseded ones and tombstones included.
    pub row_count: usize,
    /// Rows by table prefix.
    pub table_rows: Map<Seq<u8>, usize>,
    /// Counts flushes and compactions.
    pub stats_version: u64,
}

impl TablesModel {
    /// Some level holds the file.
    pub open spec fn live(self, id: u64) -> bool {
        exists|l: u32| #[trigger] self.version.holds(l, id)
    }

    /// There is no file at all.
    pub open spec fn has_no_files(self) -> bool {
        forall|id: u64| !#[trigger] self.live(id)
    }

    /// No file's bounds cover the key.
    pub open spec fn no_file_covers(self, key: Seq<u8>) -> bool {
        forall|id: u64|
            #![trigger self.version.meta[id]]
            self.version.meta.contains_key(id) ==> !covers(self.version.meta[id], key)
    }

    /// The path of a file.
    pub open spec fn path(self, id: u64) -> Seq<char> {
        sst_path_of(self.dir, id)
    }

    /// The rows of a file.
    pub open spec fn rows(self, id: u64) -> Seq<RowModel> {
        self.stored[self.path(id)]
    }

    /// The key belongs to a dropped table.
    pub open spec fn is_dropped(self, key: Seq<u8>) -> bool {
        self.version.dropped.contains(key_prefix(key))
    }

    /// The file is there, settled, and within the bounds that are recorded for
    /// it.
    pub open spec fn file_kept(self, id: u64) -> bool {
        &&& self.version.meta.contains_key(id)
        &&& id < self.version.next_file_id
        &&& self.stored.contains_key(self.path(id))
        &&& settled(self.rows(id))
        &&& forall|i: int|
            0 <= i < self.rows(id).len() ==> covers(
                self.version.meta[id],
                (#[trigger] self.rows(id)[i]).key,
            )
    }

    /// Every live file is kept, on one level only, and nothing is recorded of
    /// other files.
    pub open spec fn well_kept(self) -> bool {
        &&& forall|id: u64| #[trigger] self.live(id) ==> self.file_kept(id)
        &&& forall|id: u64| #[trigger] self.version.meta.contains_key(id) ==> self.live(id)
        &&& forall|a: u32, b: u32, id: u64| #[trigger]
            self.version.holds(a, id) && #[trigger] self.version.holds(b, id) ==> a == b
    }

    /// Rows that are the same version of the same key hold the same value.
    pub open spec fn agrees(self) -> bool {
        forall|a: u64, b: u64, i: int, j: int|
            #![trigger self.rows(a)[i], self.rows(b)[j]]
            self.live(a) && self.live(b) && 0 <= i < self.rows(a).len() && 0 <= j < self.rows(
                b,
            ).len() && self.rows(a)[i].key == self.rows(b)[j].key
                && self.rows(a)[i].version.begin_ts == self.rows(b)[j].version.begin_ts
                ==> self.rows(a)[i].version.value == self.rows(b)[j].version.value
    }

    /// `v` is the newest of the versions that the files show of a key at a
    /// snapshot.
    pub open spec fn newest(self, key: Seq<u8>, ts: u64, v: Option<VersionModel>) -> bool {
        match v {
            None => forall|id: u64| #[trigger]
                self.live(id) ==> lookup_visible(self.rows(id), key, ts) is None,
            Some(v) => {
                &&& exists|id: u64| #[trigger]
                    self.live(id) && lookup_visible(self.rows(id), key, ts) == Some(v)
                &&& forall|id: u64| #[trigger]
                    self.live(id) ==> (lookup_visible(self.rows(id), key, ts) matches Some(w)
                        ==> w.begin_ts <= v.begin_ts)
            },
        }
    }

    /// `v` is the newest version of a key in any file that does not begin
    /// after `ts`.
    pub open spec fn latest(self, key: Seq<u8>, ts: u64, v: Option<VersionModel>) -> bool {
        match v {
            None => forall|id: u64| #[trigger] self.live(id) ==> none_in(self.rows(id), key, ts),
            Some(v) => {
                &&& exists|id: u64| #[trigger]
                    self.live(id) && latest_in(self.rows(id), key, ts, v)
                &&& forall|id: u64, j: int|
                    #![trigger self.live(id), self.rows(id)[j]]
                    self.live(id) && 0 <= j < self.rows(id).len() && self.rows(id)[j].key == key
                        && self.rows(id)[j].version.begin_ts <= ts
                        ==> self.rows(id)[j].version.begin_ts <= v.begin_ts
            },
        }
    }

    /// What a point read of memtable and files may return.
    pub open spec fn reads(self, chains: Chains, key: Seq<u8>, ts: u64, v: Option<Seq<u8>>) -> bool {
        if self.is_dropped(key) {
            v is None
        } else {
            match chains_read(chains, key, ts) {
                Some(w) => v == w.value,
                None => exists|w: Option<VersionModel>| #[trigger]
                    self.newest(key, ts, w) && v == value_of(w),
            }
        }
    }
}

/// The value of an optional version.
pub open spec fn value_of(v: Option<VersionModel>) -> Option<Seq<u8>> {
    match v {
        Some(v) => v.value,
        None => None,
    }
}

/// What the files show at a snapshot is the newest version that does not
/// begin after it.
pub proof fn law_newest_is_latest(m: TablesModel, key: Seq<u8>, ts: u64, v: Option<VersionModel>)
    requires
        m.well_kept(),
        ts < OPEN_ENDED_TS,
        m.newest(key, ts, v),
    ensures
        m.latest(key, ts, v),
{
    assert forall|id: u64| #[trigger] m.live(id) implies match lookup_visible(
        m.rows(id),
        key,
        ts,
    ) {
        Some(w) => latest_in(m.rows(id), key, ts, w),
        None => none_in(m.rows(id), key, ts),
    } by {
        assert(m.file_kept(id));
        law_file_read_is_latest(m.rows(id), key, ts);
    }
    if v is Some {
        assert forall|id: u64, j: int|
            #![trigger m.live(id), m.rows(id)[j]]
            m.live(id) && 0 <= j < m.rows(id).len() && m.rows(id)[j].key == key && m.rows(
                id,
            )[j].version.begin_ts <= ts implies m.rows(id)[j].version.begin_ts <= v->0.begin_ts by {
            assert(lookup_visible(m.rows(id), key, ts) is Some);
        }
    }
}

/// What a snapshot of the files shows as newest begins at one time.
pub proof fn lemma_newest_same(
    m: TablesModel,
    key: Seq<u8>,
    ts: u64,
    v: Option<VersionModel>,
    w: Option<VersionModel>,
)
    requires
        m.newest(key, ts, v),
        m.newest(key, ts, w),
    ensures
        v is Some <==> w is Some,
        v is Some ==> v->0.begin_ts == w->0.begin_ts,
{
}

/// Where files agree, what a snapshot shows is one value.
pub proof fn law_read_is_unique(
    m: TablesModel,
    chains: Chains,
    key: Seq<u8>,
    ts: u64,
    v: Option<Seq<u8>>,
    w: Option<Seq<u8>>,
)
    requires
        m.agrees(),
        m.reads(chains, key, ts, v),
        m.reads(chains, key, ts, w),
    ensures
        v == w,
{
    if !m.is_dropped(key) && chains_read(chains, key, ts) is None {
        let a = choose|a: Option<VersionModel>| #[trigger] m.newest(key, ts, a) && v == value_of(a);
        let b = choose|b: Option<VersionModel>| #[trigger] m.newest(key, ts, b) && w == value_of(b);
        lemma_newest_same(m, key, ts, a, b);
        if a is Some {
            let i = choose|id: u64| #[trigger]
                m.live(id) && lookup_visible(m.rows(id), key, ts) == a;
            let j = choose|id: u64| #[trigger]
                m.live(id) && lookup_visible(m.rows(id), key, ts) == b;
            lemma_visible_is_a_row(m.rows(i), key, ts);
            lemma_visible_is_a_row(m.rows(j), key, ts);
            let x = choose|x: int|
                0 <= x < m.rows(i).len() && (#[trigger] m.rows(i)[x]).key == key && m.rows(
                    i,
                )[x].version == a->0;
            let y = choose|y: int|
                0 <= y < m.rows(j).len() && (#[trigger] m.rows(j)[y]).key == key && m.rows(
                    j,
                )[y].version == b->0;
            assert(m.rows(i)[x].version.value == m.rows(j)[y].version.value);
        }
    }
}

} // verus!
