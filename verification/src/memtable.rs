//! In-memory MVCC write buffer.
//!
//! Two interchangeable backends sit behind a [`MemTable`]: [`BTreeMapTable`],
//! a sorted map, and [`SkipMapTable`], a skip list. Both meet the contract of
//! [`MemTableBackend`], which fixes every result over the chains that the
//! table holds.

use crate::buf::{
    bytes_slice, bytes_view, has_prefix, key_views, keys_between, keys_sorted,
    lemma_lex_irreflexive, lemma_sorted_keys, lex_lt, lists_keys, sorted_keys, starts_with, ByteMap,
};
use crate::chain_store::{chain_of, chains_install, chains_read, ChainMap, ChainStore, Chains};
use crate::error::{EngineError, Result};
use crate::keys::{has_successor, law_prefix_range, prefix_upper, prefix_upper_exclusive, successor};
use crate::mutation::{mutation_models, Mutation, MutationModel};
use crate::version::{
    chain_gc, chain_insert, contiguous, count_after, law_gc_drops_the_oldest, law_gc_keeps_reads,
    law_insert_and_reads, law_insert_keeps_contiguous, lemma_count_after, open_version, Snapshot,
    TxnTs, VersionChain, VersionModel, VersionedValue, OPEN_ENDED_TS,
};
use crate::wal::{mutation_record, mutation_records, record_models, OpType, RecordModel, WalRecord};
use bytes::Bytes;
use vstd::prelude::*;

verus! {

/// Approximate byte counter.
#[derive(Debug)]
pub struct MemTableSize {
    total: usize,
}

/// `a + b`, or the largest `usize` if that is less.
pub open spec fn saturating(a: int, b: int) -> int {
    if a + b > usize::MAX {
        usize::MAX as int
    } else {
        a + b
    }
}

impl MemTableSize {
    /// The current total.
    pub closed spec fn total(&self) -> usize {
        self.total
    }

    /// Makes a counter at zero.
    pub fn new() -> (r: Self)
        ensures
            r.total() == 0,
    {
        MemTableSize { total: 0 }
    }

    /// Adds bytes and returns the new total, saturating at `usize::MAX`.
    pub fn add(&mut self, bytes: usize) -> (r: usize)
        ensures
            r == saturating(old(self).total() as int, bytes as int),
            final(self).total() == r,
    {
        self.total = self.total.saturating_add(bytes);
        self.total
    }

    /// Returns the current total.
    pub fn get(&self) -> (r: usize)
        ensures
            r == self.total(),
    {
        self.total
    }

    /// Resets the total to zero.
    pub fn reset(&mut self)
        ensures
            final(self).total() == 0,
    {
        self.total = 0;
    }
}

impl Default for MemTableSize {
    fn default() -> (r: Self)
        ensures
            r.total() == 0,
    {
        MemTableSize::new()
    }
}

/// A key and committed version used by SST writers.
#[derive(Debug, PartialEq, Eq)]
pub struct VersionedRow {
    /// Logical key.
    pub key: Bytes,
    /// Committed MVCC version.
    pub version: VersionedValue,
}

/// What a row says.
#[verifier::ext_equal]
pub struct RowModel {
    /// Key bytes.
    pub key: Seq<u8>,
    /// Version.
    pub version: VersionModel,
}

impl View for VersionedRow {
    type V = RowModel;

    open spec fn view(&self) -> RowModel {
        RowModel { key: bytes_view(self.key), version: self.version@ }
    }
}

impl Clone for VersionedRow {
    fn clone(&self) -> (r: Self)
        ensures
            r@ == self@,
    {
        VersionedRow { key: self.key.clone(), version: self.version.clone() }
    }
}

/// What a list of rows says.
pub open spec fn row_models(rows: Seq<VersionedRow>) -> Seq<RowModel> {
    rows.map_values(|r: VersionedRow| r@)
}

/// What a list of scanned versions says.
pub open spec fn scan_models(
    out: Seq<(Bytes, VersionedValue)>,
) -> Seq<(Seq<u8>, VersionModel)> {
    out.map_values(|p: (Bytes, VersionedValue)| (bytes_view(p.0), p.1@))
}

/// What a list of scanned values says.
pub open spec fn pair_models(out: Seq<(Bytes, Bytes)>) -> Seq<(Seq<u8>, Seq<u8>)> {
    out.map_values(|p: (Bytes, Bytes)| (bytes_view(p.0), bytes_view(p.1)))
}

/// Which concrete backend a [`MemTable`] should use.
#[derive(Debug, Clone, Copy, PartialEq, Eq, Structural)]
pub enum MemTableImpl {
    /// Sorted map: deterministic ordering, low memory.
    BTreeMap,
    /// Skip list (default).
    SkipMap,
}

impl Default for MemTableImpl {
    fn default() -> (r: Self)
        ensures
            r == MemTableImpl::SkipMap,
    {
        MemTableImpl::SkipMap
    }
}

// ── What applying and scanning mean ───────────────────────────────────────

/// A put without a value cannot be applied.
pub open spec fn applicable(r: RecordModel) -> bool {
    r.op == OpType::Put ==> r.value is Some
}

/// The chains after one record was applied at `commit_ts`.
pub open spec fn apply_record(m: Chains, r: RecordModel, commit_ts: u64) -> Chains {
    match r.op {
        OpType::Put => chains_install(m, r.key, open_version(r.value, commit_ts, r.tx_id)),
        OpType::Delete => chains_install(m, r.key, open_version(None, commit_ts, r.tx_id)),
        _ => m,
    }
}

/// The chains after a list of records was applied at `commit_ts`.
pub open spec fn apply_records(m: Chains, rs: Seq<RecordModel>, commit_ts: u64) -> Chains
    decreases rs.len(),
{
    if rs.len() == 0 {
        m
    } else {
        apply_record(apply_records(m, rs.drop_last(), commit_ts), rs.last(), commit_ts)
    }
}

/// The byte count after one record was applied.
pub open spec fn size_after(n: int, r: RecordModel) -> int {
    match r.op {
        OpType::Put => saturating(n, saturating((r.key.len() + r.value->0.len()) as int, 24)),
        OpType::Delete => saturating(n, saturating(r.key.len() as int, 24)),
        _ => n,
    }
}

/// The byte count after a list of records was applied.
pub open spec fn size_after_all(n: int, rs: Seq<RecordModel>) -> int
    decreases rs.len(),
{
    if rs.len() == 0 {
        n
    } else {
        size_after(size_after_all(n, rs.drop_last()), rs.last())
    }
}

/// How many records come before the first that cannot be applied.
pub open spec fn applicable_prefix(rs: Seq<RecordModel>) -> nat
    decreases rs.len(),
{
    if rs.len() == 0 || !applicable(rs[0]) {
        0
    } else {
        1 + applicable_prefix(rs.drop_first())
    }
}

/// The visible versions under `ks`, in that order.
pub open spec fn visible_versions(
    ks: Seq<Seq<u8>>,
    m: Chains,
    ts: u64,
) -> Seq<(Seq<u8>, VersionModel)>
    decreases ks.len(),
{
    if ks.len() == 0 {
        Seq::empty()
    } else {
        let front = visible_versions(ks.drop_last(), m, ts);
        match chains_read(m, ks.last(), ts) {
            Some(v) => front.push((ks.last(), v)),
            None => front,
        }
    }
}

/// The visible versions whose key lies in `[lower, upper)`, in key order.
pub open spec fn range_scan(
    m: Chains,
    lower: Seq<u8>,
    upper: Seq<u8>,
    ts: u64,
) -> Seq<(Seq<u8>, VersionModel)> {
    visible_versions(sorted_keys(keys_between(m.dom(), lower, upper)), m, ts)
}

/// The keys of `dom` that begin with `prefix`.
pub open spec fn keys_with(dom: Set<Seq<u8>>, prefix: Seq<u8>) -> Set<Seq<u8>> {
    dom.filter(|k: Seq<u8>| has_prefix(k, prefix))
}

/// The visible versions whose key begins with `prefix`, in key order.
pub open spec fn prefix_scan(m: Chains, prefix: Seq<u8>, ts: u64) -> Seq<(Seq<u8>, VersionModel)> {
    visible_versions(sorted_keys(keys_with(m.dom(), prefix)), m, ts)
}

/// The pairs of `vs` that are not tombstones.
pub open spec fn live_pairs(vs: Seq<(Seq<u8>, VersionModel)>) -> Seq<(Seq<u8>, Seq<u8>)>
    decreases vs.len(),
{
    if vs.len() == 0 {
        Seq::empty()
    } else {
        let front = live_pairs(vs.drop_last());
        match vs.last().1.value {
            Some(x) => front.push((vs.last().0, x)),
            None => front,
        }
    }
}

/// The versions of one chain as rows.
pub open spec fn chain_rows(key: Seq<u8>, chain: Seq<VersionModel>) -> Seq<RowModel> {
    chain.map_values(|v: VersionModel| RowModel { key, version: v })
}

/// The versions under `ks` as rows, in that order.
pub open spec fn rows_of(ks: Seq<Seq<u8>>, m: Chains) -> Seq<RowModel>
    decreases ks.len(),
{
    if ks.len() == 0 {
        Seq::empty()
    } else {
        rows_of(ks.drop_last(), m) + chain_rows(ks.last(), m[ks.last()])
    }
}

/// All versions as rows: by key, newest first under each.
pub open spec fn table_rows(m: Chains) -> Seq<RowModel> {
    rows_of(sorted_keys(m.dom()), m)
}

/// The chains after garbage collection.
pub open spec fn chains_gc(m: Chains, oldest_snapshot: u64) -> Chains {
    m.map_values(|c: Seq<VersionModel>| chain_gc(c, oldest_snapshot))
}

/// How many versions under `ks` garbage collection drops.
pub open spec fn gc_dropped(ks: Seq<Seq<u8>>, m: Chains, oldest_snapshot: u64) -> int
    decreases ks.len(),
{
    if ks.len() == 0 {
        0
    } else {
        saturating(
            gc_dropped(ks.drop_last(), m, oldest_snapshot),
            m[ks.last()].len() - chain_gc(m[ks.last()], oldest_snapshot).len(),
        )
    }
}

/// What a memtable holds: its chains and its approximate byte count.
pub struct TableState {
    /// Version chains.
    pub chains: Chains,
    /// Byte count.
    pub size: int,
}

/// A call that changes a memtable.
pub enum TableCall {
    /// A batch of log records at a timestamp.
    Records(Seq<RecordModel>, u64),
    /// A batch of mutations of a transaction at a timestamp.
    Mutations(u64, Seq<MutationModel>, u64),
    /// A garbage collection up to a snapshot.
    Collect(u64),
    /// The removal of the keys with a prefix.
    Erase(Seq<u8>),
    /// The removal of everything.
    Clear,
}

/// What such a call returns.
pub enum Told {
    /// Whether a batch was applied.
    Applied(bool),
    /// How many versions or keys went.
    Gone(int),
    /// Nothing.
    Nothing,
}

/// What a call makes of a memtable, and what it returns.
pub open spec fn after_call(s: TableState, call: TableCall) -> (TableState, Told) {
    match call {
        TableCall::Records(rs, ts) => {
            let done = rs.take(applicable_prefix(rs) as int);
            (
                TableState {
                    chains: apply_records(s.chains, done, ts),
                    size: size_after_all(s.size, done),
                },
                Told::Applied(applicable_prefix(rs) == rs.len()),
            )
        },
        TableCall::Mutations(tx_id, ms, ts) => {
            let rs = mutation_records(tx_id, ms);
            (
                TableState {
                    chains: apply_records(s.chains, rs, ts),
                    size: size_after_all(s.size, rs),
                },
                Told::Applied(true),
            )
        },
        TableCall::Collect(ts) => (
            TableState { chains: chains_gc(s.chains, ts), ..s },
            Told::Gone(gc_dropped(sorted_keys(s.chains.dom()), s.chains, ts)),
        ),
        TableCall::Erase(prefix) => {
            let gone = keys_with(s.chains.dom(), prefix);
            (
                TableState { chains: s.chains.remove_keys(gone), ..s },
                Told::Gone(sorted_keys(gone).len() as int),
            )
        },
        TableCall::Clear => (TableState { chains: Map::empty(), size: 0 }, Told::Nothing),
    }
}

proof fn lemma_applicable_all(rs: Seq<RecordModel>)
    ensures
        applicable_prefix(rs) <= rs.len(),
        applicable_prefix(rs) == rs.len() <==> forall|i: int|
            0 <= i < rs.len() ==> applicable(#[trigger] rs[i]),
    decreases rs.len(),
{
    if rs.len() > 0 {
        let rest = rs.drop_first();
        lemma_applicable_all(rest);
        if applicable(rs[0]) {
            assert forall|i: int| 0 <= i < rest.len() implies rest[i] == rs[i + 1] by {}
            if applicable_prefix(rest) == rest.len() {
                assert forall|i: int| 0 <= i < rs.len() implies applicable(#[trigger] rs[i]) by {
                    if i > 0 {
                        assert(applicable(rest[i - 1]));
                    }
                }
            } else {
                let i = choose|i: int| 0 <= i < rest.len() && !applicable(#[trigger] rest[i]);
                assert(!applicable(rs[i + 1]));
            }
        }
    }
}

proof fn lemma_prefix_len(rs: Seq<RecordModel>, n: int)
    requires
        0 <= n < rs.len(),
        forall|i: int| 0 <= i < n ==> applicable(#[trigger] rs[i]),
        !applicable(rs[n]),
    ensures
        applicable_prefix(rs) == n,
    decreases n,
{
    if n > 0 {
        assert(applicable(rs[0]));
        let t = rs.drop_first();
        assert forall|i: int| 0 <= i < n - 1 implies applicable(#[trigger] t[i]) by {
            assert(t[i] == rs[i + 1]);
        }
        lemma_prefix_len(t, n - 1);
    }
}

// ── The operations over any chain store ───────────────────────────────────

fn install<S: ChainStore>(store: &mut S, key: &Bytes, version: VersionedValue)
    requires
        old(store).wf(),
    ensures
        final(store).wf(),
        final(store).contents() == chains_install(
            old(store).contents(),
            bytes_view(*key),
            version@,
        ),
{
    let mut chain = match store.chain(bytes_slice(key)) {
        Some(c) => c,
        None => VersionChain::new(),
    };
    assert(chain@ == chain_of(store.contents(), bytes_view(*key)));
    chain.insert(version);
    store.replace(key, chain);
}

fn apply_one<S: ChainStore>(
    store: &mut S,
    size: &mut MemTableSize,
    record: &WalRecord,
    commit_ts: u64,
) -> (r: Result<()>)
    requires
        old(store).wf(),
    ensures
        final(store).wf(),
        r is Ok <==> applicable(record@),
        r is Ok ==> {
            &&& final(store).contents() == apply_record(old(store).contents(), record@, commit_ts)
            &&& final(size).total() == size_after(old(size).total() as int, record@)
        },
        r matches Err(e) ==> {
            &&& e.is_corrupt("put WAL record has no value")
            &&& final(store).contents() == old(store).contents()
            &&& final(size).total() == old(size).total()
        },
{
    match record.op {
        OpType::Put => {
            match &record.value {
                Some(value) => {
                    let version = VersionedValue::live(value.clone(), commit_ts, record.tx_id);
                    let k: usize = bytes_slice(&record.key).len();
                    let v: usize = bytes_slice(value).len();
                    install(store, &record.key, version);
                    let _total: usize = size.add(k.saturating_add(v).saturating_add(24));
                    Ok(())
                },
                None => Err(EngineError::Corrupt("put WAL record has no value")),
            }
        },
        OpType::Delete => {
            let k: usize = bytes_slice(&record.key).len();
            install(store, &record.key, VersionedValue::tombstone(commit_ts, record.tx_id));
            let _total: usize = size.add(k.saturating_add(24));
            Ok(())
        },
        _ => Ok(()),
    }
}

fn apply_all<S: ChainStore>(
    store: &mut S,
    size: &mut MemTableSize,
    records: &[WalRecord],
    commit_ts: u64,
) -> (r: Result<()>)
    requires
        old(store).wf(),
    ensures
        final(store).wf(),
        ({
            let rs = record_models(records@);
            let n = applicable_prefix(rs) as int;
            &&& r is Ok <==> forall|i: int| 0 <= i < rs.len() ==> applicable(#[trigger] rs[i])
            &&& r is Ok ==> {
                &&& final(store).contents() == apply_records(old(store).contents(), rs, commit_ts)
                &&& final(size).total() == size_after_all(old(size).total() as int, rs)
            }
            &&& r matches Err(e) ==> {
                &&& e.is_corrupt("put WAL record has no value")
                &&& final(store).contents() == apply_records(
                    old(store).contents(),
                    rs.take(n),
                    commit_ts,
                )
                &&& final(size).total() == size_after_all(old(size).total() as int, rs.take(n))
            }
        }),
{
    let ghost rs = record_models(records@);
    let ghost m0 = store.contents();
    let ghost n0 = size.total() as int;
    let mut i: usize = 0;
    assert(rs.take(0) =~= Seq::<RecordModel>::empty());
    while i < records.len()
        invariant
            i <= records@.len(),
            rs == record_models(records@),
            m0 == old(store).contents(),
            n0 == old(size).total(),
            store.wf(),
            store.contents() == apply_records(m0, rs.take(i as int), commit_ts),
            size.total() == size_after_all(n0, rs.take(i as int)),
            forall|j: int| 0 <= j < i ==> applicable(#[trigger] rs[j]),
        decreases records@.len() - i,
    {
        assert(rs[i as int] == records@[i as int]@);
        match apply_one(store, size, &records[i], commit_ts) {
            Ok(()) => {},
            Err(e) => {
                proof {
                    lemma_prefix_len(rs, i as int);
                }
                return Err(e);
            },
        }
        assert(rs.take(i + 1).drop_last() =~= rs.take(i as int));
        assert(rs.take(i + 1).last() == rs[i as int]);
        i += 1;
    }
    assert(rs.take(i as int) =~= rs);
    Ok(())
}

fn apply_changes<S: ChainStore>(
    store: &mut S,
    size: &mut MemTableSize,
    tx_id: u64,
    mutations: &[Mutation],
    commit_ts: u64,
)
    requires
        old(store).wf(),
    ensures
        final(store).wf(),
        final(store).contents() == apply_records(
            old(store).contents(),
            mutation_records(tx_id, mutation_models(mutations@)),
            commit_ts,
        ),
        final(size).total() == size_after_all(
            old(size).total() as int,
            mutation_records(tx_id, mutation_models(mutations@)),
        ),
{
    let ghost rs = mutation_records(tx_id, mutation_models(mutations@));
    let ghost m0 = store.contents();
    let ghost n0 = size.total() as int;
    let mut i: usize = 0;
    assert(rs.take(0) =~= Seq::<RecordModel>::empty());
    while i < mutations.len()
        invariant
            i <= mutations@.len(),
            rs == mutation_records(tx_id, mutation_models(mutations@)),
            m0 == old(store).contents(),
            n0 == old(size).total(),
            store.wf(),
            store.contents() == apply_records(m0, rs.take(i as int), commit_ts),
            size.total() == size_after_all(n0, rs.take(i as int)),
        decreases mutations@.len() - i,
    {
        assert(rs[i as int] == mutation_record(tx_id, mutations@[i as int]@));
        match &mutations[i] {
            Mutation::Put { key, value } => {
                let k: usize = bytes_slice(key).len();
                let v: usize = bytes_slice(value).len();
                install(store, key, VersionedValue::live(value.clone(), commit_ts, tx_id));
                let _total: usize = size.add(k.saturating_add(v).saturating_add(24));
            },
            Mutation::Delete { key } => {
                let k: usize = bytes_slice(key).len();
                install(store, key, VersionedValue::tombstone(commit_ts, tx_id));
                let _total: usize = size.add(k.saturating_add(24));
            },
        }
        assert(rs.take(i + 1).drop_last() =~= rs.take(i as int));
        assert(rs.take(i + 1).last() == rs[i as int]);
        i += 1;
    }
    assert(rs.take(i as int) =~= rs);
}

/// Returns the keys that begin with `prefix`, in order.
fn keys_with_prefix<S: ChainStore>(store: &S, prefix: &[u8]) -> (r: Vec<Bytes>)
    requires
        store.wf(),
    ensures
        key_views(r@) == sorted_keys(keys_with(store.contents().dom(), prefix@)),
        lists_keys(key_views(r@), keys_with(store.contents().dom(), prefix@)),
{
    let ghost dom = store.contents().dom();
    if has_successor(prefix) {
        let upper = prefix_upper_exclusive(prefix);
        proof {
            law_prefix_keys(dom, prefix@);
        }
        return store.keys_in(prefix, upper.as_slice());
    }
    let keys = store.keys();
    let ghost ks = key_views(keys@);
    let ghost mut from: Seq<int> = Seq::empty();
    let mut out: Vec<Bytes> = Vec::new();
    let mut i: usize = 0;
    while i < keys.len()
        invariant
            i <= keys@.len(),
            ks == key_views(keys@),
            lists_keys(ks, dom),
            from.len() == out@.len(),
            forall|j: int|
                0 <= j < from.len() ==> 0 <= #[trigger] from[j] < i && ks[from[j]] == bytes_view(
                    out@[j],
                ) && has_prefix(ks[from[j]], prefix@),
            forall|a: int, b: int| 0 <= a < b < from.len() ==> from[a] < from[b],
            forall|j: int|
                0 <= j < i && has_prefix(#[trigger] ks[j], prefix@) ==> from.contains(j),
        decreases keys@.len() - i,
    {
        if starts_with(bytes_slice(&keys[i]), prefix) {
            out.push(keys[i].clone());
            proof {
                let before = from;
                from = from.push(i as int);
                assert forall|j: int|
                    0 <= j < i + 1 && has_prefix(#[trigger] ks[j], prefix@) implies from.contains(
                    j,
                ) by {
                    if j < i {
                        assert(before.contains(j));
                        let x = choose|x: int| 0 <= x < before.len() && before[x] == j;
                        assert(from[x] == j);
                    } else {
                        assert(from[from.len() - 1] == j);
                    }
                }
            }
        }
        i += 1;
    }
    proof {
        let got = key_views(out@);
        let want = keys_with(dom, prefix@);
        assert forall|a: int, b: int| 0 <= a < b < got.len() implies lex_lt(
            #[trigger] got[a],
            #[trigger] got[b],
        ) by {
            assert(got[a] == ks[from[a]] && got[b] == ks[from[b]]);
        }
        assert forall|a: int| 0 <= a < got.len() implies #[trigger] want.contains(got[a]) by {
            assert(got[a] == ks[from[a]]);
            assert(dom.contains(ks[from[a]]));
        }
        assert forall|k: Seq<u8>| #[trigger] want.contains(k) implies got.contains(k) by {
            assert(ks.contains(k));
            let j = choose|j: int| 0 <= j < ks.len() && ks[j] == k;
            assert(has_prefix(ks[j], prefix@));
            let x = choose|x: int| 0 <= x < from.len() && from[x] == j;
            assert(got[x] == ks[from[x]]);
        }
        lemma_sorted_keys(got, want);
    }
    out
}

/// Returns what a snapshot shows of the keys, in their order.
fn scan_keys<S: ChainStore>(store: &S, keys: &Vec<Bytes>, snapshot: Snapshot) -> (r: Vec<
    (Bytes, VersionedValue),
>)
    requires
        store.wf(),
    ensures
        scan_models(r@) == visible_versions(key_views(keys@), store.contents(), snapshot.ts),
{
    let ghost ks = key_views(keys@);
    let ghost m = store.contents();
    let mut out: Vec<(Bytes, VersionedValue)> = Vec::new();
    let mut i: usize = 0;
    assert(scan_models(out@) =~= visible_versions(ks.take(0), m, snapshot.ts));
    while i < keys.len()
        invariant
            i <= keys@.len(),
            ks == key_views(keys@),
            store.wf(),
            m == store.contents(),
            scan_models(out@) == visible_versions(ks.take(i as int), m, snapshot.ts),
        decreases keys@.len() - i,
    {
        assert(ks.take(i + 1).drop_last() =~= ks.take(i as int));
        assert(ks.take(i + 1).last() == bytes_view(keys@[i as int]));
        let ghost before = out@;
        match store.read(bytes_slice(&keys[i]), snapshot) {
            Some(v) => {
                out.push((keys[i].clone(), v));
                assert(scan_models(out@) =~= scan_models(before).push((ks[i as int], v@)));
            },
            None => {},
        }
        i += 1;
    }
    assert(ks.take(i as int) =~= ks);
    out
}

fn scan_range<S: ChainStore>(
    store: &S,
    lower: &[u8],
    upper: &[u8],
    snapshot: Snapshot,
) -> (r: Vec<(Bytes, VersionedValue)>)
    requires
        store.wf(),
    ensures
        scan_models(r@) == range_scan(store.contents(), lower@, upper@, snapshot.ts),
{
    let keys = store.keys_in(lower, upper);
    scan_keys(store, &keys, snapshot)
}

fn scan_with_prefix<S: ChainStore>(store: &S, prefix: &[u8], snapshot: Snapshot) -> (r: Vec<
    (Bytes, VersionedValue),
>)
    requires
        store.wf(),
    ensures
        scan_models(r@) == prefix_scan(store.contents(), prefix@, snapshot.ts),
{
    let keys = keys_with_prefix(store, prefix);
    scan_keys(store, &keys, snapshot)
}

fn push_rows<S: ChainStore>(store: &S, out: &mut Vec<VersionedRow>)
    requires
        store.wf(),
    ensures
        row_models(final(out)@) == row_models(old(out)@) + table_rows(store.contents()),
        lists_keys(sorted_keys(store.contents().dom()), store.contents().dom()),
{
    let keys = store.keys();
    let ghost ks = key_views(keys@);
    let ghost m = store.contents();
    let ghost start = row_models(out@);
    let mut i: usize = 0;
    assert(row_models(out@) =~= start + rows_of(ks.take(0), m));
    while i < keys.len()
        invariant
            i <= keys@.len(),
            ks == key_views(keys@),
            lists_keys(ks, m.dom()),
            store.wf(),
            m == store.contents(),
            row_models(out@) == start + rows_of(ks.take(i as int), m),
        decreases keys@.len() - i,
    {
        let ghost k = ks[i as int];
        assert(ks.take(i + 1).drop_last() =~= ks.take(i as int));
        assert(ks.take(i + 1).last() == k);
        assert(m.dom().contains(k));
        let ghost before = row_models(out@);
        match store.chain(bytes_slice(&keys[i])) {
            Some(chain) => {
                let versions = chain.versions();
                let ghost models = chain@;
                let mut j: usize = 0;
                assert(row_models(out@) =~= before + chain_rows(k, models.take(0)));
                while j < versions.len()
                    invariant
                        i < keys@.len(),
                        j <= versions@.len(),
                        k == bytes_view(keys@[i as int]),
                        models == versions@.map_values(|x: VersionedValue| x@),
                        row_models(out@) == before + chain_rows(k, models.take(j as int)),
                    decreases versions@.len() - j,
                {
                    let ghost mid = out@;
                    let row = VersionedRow { key: keys[i].clone(), version: versions[j].clone() };
                    assert(row@ == (RowModel { key: k, version: models[j as int] }));
                    out.push(row);
                    assert(row_models(out@) =~= row_models(mid).push(row@));
                    assert(chain_rows(k, models.take(j + 1)) =~= chain_rows(
                        k,
                        models.take(j as int),
                    ).push(row@));
                    j += 1;
                }
                assert(models.take(j as int) =~= models);
            },
            None => {},
        }
        assert(row_models(out@) =~= start + rows_of(ks.take(i + 1), m));
        i += 1;
    }
    assert(ks.take(i as int) =~= ks);
}

fn collect_garbage<S: ChainStore>(store: &mut S, oldest_snapshot: TxnTs) -> (r: usize)
    requires
        old(store).wf(),
    ensures
        final(store).wf(),
        final(store).contents() == chains_gc(old(store).contents(), oldest_snapshot),
        r == gc_dropped(
            sorted_keys(old(store).contents().dom()),
            old(store).contents(),
            oldest_snapshot,
        ),
{
    let keys = store.keys();
    let ghost ks = key_views(keys@);
    let ghost m0 = store.contents();
    let mut dropped: usize = 0;
    let mut i: usize = 0;
    proof {
        lemma_distinct(ks);
    }
    while i < keys.len()
        invariant
            i <= keys@.len(),
            ks == key_views(keys@),
            lists_keys(ks, m0.dom()),
            forall|a: int, b: int| 0 <= a < b < ks.len() ==> #[trigger] ks[a] != #[trigger] ks[b],
            store.wf(),
            store.contents().dom() == m0.dom(),
            dropped == gc_dropped(ks.take(i as int), m0, oldest_snapshot),
            forall|j: int|
                0 <= j < i ==> store.contents()[#[trigger] ks[j]] == chain_gc(
                    m0[ks[j]],
                    oldest_snapshot,
                ),
            forall|j: int|
                i <= j < ks.len() ==> store.contents()[#[trigger] ks[j]] == m0[ks[j]],
        decreases keys@.len() - i,
    {
        let ghost k = ks[i as int];
        assert(ks.take(i + 1).drop_last() =~= ks.take(i as int));
        assert(ks.take(i + 1).last() == k);
        assert(m0.dom().contains(k));
        let ghost before = store.contents();
        match store.chain(bytes_slice(&keys[i])) {
            Some(mut chain) => {
                let n: usize = chain.garbage_collect(oldest_snapshot);
                dropped = dropped.saturating_add(n);
                store.replace(&keys[i], chain);
                assert(store.contents().dom() =~= m0.dom());
                assert(store.contents() == before.insert(
                    k,
                    chain_gc(m0[k], oldest_snapshot),
                ));
            },
            None => {},
        }
        i += 1;
    }
    proof {
        assert(ks.take(i as int) =~= ks);
        let want = chains_gc(m0, oldest_snapshot);
        assert forall|k: Seq<u8>| #[trigger] want.contains_key(k) implies store.contents()[k]
            == want[k] by {
            assert(m0.dom().contains(k));
            assert(ks.contains(k));
            let j = choose|j: int| 0 <= j < ks.len() && ks[j] == k;
            assert(store.contents()[ks[j]] == chain_gc(m0[ks[j]], oldest_snapshot));
        }
        assert(store.contents() =~= want);
    }
    dropped
}

proof fn lemma_distinct(ks: Seq<Seq<u8>>)
    requires
        keys_sorted(ks),
    ensures
        forall|a: int, b: int| 0 <= a < b < ks.len() ==> #[trigger] ks[a] != #[trigger] ks[b],
{
    assert forall|a: int, b: int| 0 <= a < b < ks.len() implies #[trigger] ks[a]
        != #[trigger] ks[b] by {
        assert(lex_lt(ks[a], ks[b]));
        lemma_lex_irreflexive(ks[a]);
    }
}

fn erase_with_prefix<S: ChainStore>(store: &mut S, prefix: &[u8]) -> (r: usize)
    requires
        old(store).wf(),
    ensures
        final(store).wf(),
        final(store).contents() == old(store).contents().remove_keys(
            keys_with(old(store).contents().dom(), prefix@),
        ),
        r == sorted_keys(keys_with(old(store).contents().dom(), prefix@)).len(),
{
    let keys = keys_with_prefix(store, prefix);
    let ghost ks = key_views(keys@);
    let ghost m0 = store.contents();
    let ghost dom = keys_with(m0.dom(), prefix@);
    let mut i: usize = 0;
    assert(store.contents() =~= m0.remove_keys(ks.take(0).to_set()));
    while i < keys.len()
        invariant
            i <= keys@.len(),
            ks == key_views(keys@),
            store.wf(),
            store.contents() == m0.remove_keys(ks.take(i as int).to_set()),
        decreases keys@.len() - i,
    {
        store.remove(&keys[i]);
        proof {
            let k = ks[i as int];
            assert(ks.take(i + 1) =~= ks.take(i as int).push(k));
            let a = ks.take(i as int);
            let b = ks.take(i + 1);
            assert forall|x: Seq<u8>| b.to_set().contains(x) <==> a.to_set().contains(x) || x
                == k by {
                if b.to_set().contains(x) {
                    let j = choose|j: int| 0 <= j < b.len() && b[j] == x;
                    if j < i {
                        assert(a[j] == x);
                    }
                }
                if a.to_set().contains(x) {
                    let j = choose|j: int| 0 <= j < a.len() && a[j] == x;
                    assert(b[j] == x);
                }
                if x == k {
                    assert(b[i as int] == x);
                }
            }
            assert(m0.remove_keys(a.to_set()).remove(k) =~= m0.remove_keys(b.to_set()));
        }
        i += 1;
    }
    proof {
        assert(ks.take(i as int) =~= ks);
        assert forall|x: Seq<u8>| ks.to_set().contains(x) <==> dom.contains(x) by {
            if ks.to_set().contains(x) {
                let j = choose|j: int| 0 <= j < ks.len() && ks[j] == x;
                assert(dom.contains(ks[j]));
            }
        }
        assert(ks.to_set() =~= dom);
    }
    keys.len()
}

// ── The contract of a backend ─────────────────────────────────────────────

/// The contract every memtable backend implements.
pub trait MemTableBackend: Sized {
    /// The version chains that the table holds.
    spec fn chains(&self) -> Chains;

    /// The approximate byte count.
    spec fn size(&self) -> int;

    /// Which of the library's backends this is, if it is one.
    spec fn kind(&self) -> Option<MemTableImpl>;

    /// The table is in order.
    spec fn wf(&self) -> bool;

    /// Applies a batch of WAL records at `commit_ts`. A put without a value is
    /// an error; the records in front of it stay applied.
    fn apply_records_batch(&mut self, records: &[WalRecord], commit_ts: u64) -> (r: Result<()>)
        requires
            old(self).wf(),
        ensures
            final(self).wf(),
            final(self).kind() == old(self).kind(),
            ({
                let rs = record_models(records@);
                let n = applicable_prefix(rs) as int;
                &&& r is Ok <==> forall|i: int| 0 <= i < rs.len() ==> applicable(#[trigger] rs[i])
                &&& r is Ok ==> {
                    &&& final(self).chains() == apply_records(old(self).chains(), rs, commit_ts)
                    &&& final(self).size() == size_after_all(old(self).size(), rs)
                }
                &&& r matches Err(e) ==> {
                    &&& e.is_corrupt("put WAL record has no value")
                    &&& final(self).chains() == apply_records(
                        old(self).chains(),
                        rs.take(n),
                        commit_ts,
                    )
                    &&& final(self).size() == size_after_all(old(self).size(), rs.take(n))
                }
            }),
    ;

    /// Applies a batch of mutations of `tx_id` at `commit_ts`.
    fn apply_mutations_batch(
        &mut self,
        tx_id: u64,
        mutations: &[Mutation],
        commit_ts: u64,
    ) -> (r: Result<()>)
        requires
            old(self).wf(),
        ensures
            r is Ok,
            final(self).wf(),
            final(self).kind() == old(self).kind(),
            final(self).chains() == apply_records(
                old(self).chains(),
                mutation_records(tx_id, mutation_models(mutations@)),
                commit_ts,
            ),
            final(self).size() == size_after_all(
                old(self).size(),
                mutation_records(tx_id, mutation_models(mutations@)),
            ),
    ;

    /// Returns the version visible at `snapshot`, including tombstones.
    fn get(&self, key: &[u8], snapshot: Snapshot) -> (r: Option<VersionedValue>)
        requires
            self.wf(),
        ensures
            r is Some <==> chains_read(self.chains(), key@, snapshot.ts) is Some,
            r matches Some(v) ==> chains_read(self.chains(), key@, snapshot.ts) == Some(v@),
    ;

    /// Returns visible versions whose key starts with `prefix`, in key order.
    fn scan_prefix_versions(
        &self,
        prefix: &[u8],
        snapshot: Snapshot,
    ) -> (r: Vec<(Bytes, VersionedValue)>)
        requires
            self.wf(),
        ensures
            scan_models(r@) == prefix_scan(self.chains(), prefix@, snapshot.ts),
    ;

    /// Returns visible versions whose key falls in `[lower, upper)`, in key
    /// order.
    fn scan_range_versions(
        &self,
        lower: &[u8],
        upper: &[u8],
        snapshot: Snapshot,
    ) -> (r: Vec<(Bytes, VersionedValue)>)
        requires
            self.wf(),
        ensures
            scan_models(r@) == range_scan(self.chains(), lower@, upper@, snapshot.ts),
    ;

    /// Returns a copy of every committed version in key order.
    fn all_versions(&self) -> (r: Vec<VersionedRow>)
        requires
            self.wf(),
        ensures
            row_models(r@) == table_rows(self.chains()),
    ;

    /// Pushes every committed version into `out` in key order.
    fn drain_into(&self, out: &mut Vec<VersionedRow>)
        requires
            self.wf(),
        ensures
            row_models(final(out)@) == row_models(old(out)@) + table_rows(self.chains()),
            lists_keys(sorted_keys(self.chains().dom()), self.chains().dom()),
    ;

    /// Garbage-collects versions invisible to every active snapshot; returns
    /// how many went.
    fn garbage_collect(&mut self, oldest_snapshot: TxnTs) -> (r: usize)
        requires
            old(self).wf(),
        ensures
            final(self).wf(),
            final(self).kind() == old(self).kind(),
            final(self).chains() == chains_gc(old(self).chains(), oldest_snapshot),
            final(self).size() == old(self).size(),
            r == gc_dropped(
                sorted_keys(old(self).chains().dom()),
                old(self).chains(),
                oldest_snapshot,
            ),
    ;

    /// Removes every row after a durable flush.
    fn clear(&mut self)
        requires
            old(self).wf(),
        ensures
            final(self).wf(),
            final(self).kind() == old(self).kind(),
            final(self).chains() == Map::<Seq<u8>, Seq<VersionModel>>::empty(),
            final(self).size() == 0,
    ;

    /// Removes all entries whose key starts with `prefix`; returns the number
    /// of keys removed.
    fn erase_prefix(&mut self, prefix: &[u8]) -> (r: usize)
        requires
            old(self).wf(),
        ensures
            final(self).wf(),
            final(self).kind() == old(self).kind(),
            final(self).size() == old(self).size(),
            ({
                let gone = keys_with(old(self).chains().dom(), prefix@);
                &&& final(self).chains() == old(self).chains().remove_keys(gone)
                &&& r == sorted_keys(gone).len()
            }),
    ;

    /// Returns the approximate memory footprint in bytes.
    fn approximate_bytes(&self) -> (r: usize)
        requires
            self.wf(),
        ensures
            r == self.size(),
    ;

    /// Returns the number of logical keys.
    fn len(&self) -> (r: usize)
        requires
            self.wf(),
        ensures
            r == self.chains().dom().len(),
    ;

    /// Returns whether no logical keys are present.
    fn is_empty(&self) -> (r: bool)
        requires
            self.wf(),
        ensures
            r <==> self.chains().dom() == Set::<Seq<u8>>::empty(),
    ;

    /// Returns visible (key, value) pairs whose key starts with `prefix`, in
    /// key order, without the deleted ones.
    fn scan_prefix(&self, prefix: &[u8], snapshot: Snapshot) -> (r: Vec<(Bytes, Bytes)>)
        requires
            self.wf(),
        ensures
            pair_models(r@) == live_pairs(prefix_scan(self.chains(), prefix@, snapshot.ts)),
    {
        let versions = self.scan_prefix_versions(prefix, snapshot);
        keep_live(versions)
    }
}

fn keep_live(versions: Vec<(Bytes, VersionedValue)>) -> (r: Vec<(Bytes, Bytes)>)
    ensures
        pair_models(r@) == live_pairs(scan_models(versions@)),
{
    let ghost vs = scan_models(versions@);
    let mut out: Vec<(Bytes, Bytes)> = Vec::new();
    let mut i: usize = 0;
    assert(pair_models(out@) =~= live_pairs(vs.take(0)));
    while i < versions.len()
        invariant
            i <= versions@.len(),
            vs == scan_models(versions@),
            pair_models(out@) == live_pairs(vs.take(i as int)),
        decreases versions@.len() - i,
    {
        assert(vs.take(i + 1).drop_last() =~= vs.take(i as int));
        assert(vs.take(i + 1).last() == vs[i as int]);
        let ghost before = out@;
        let entry = &versions[i];
        match &entry.1.value {
            Some(value) => {
                let pair = (entry.0.clone(), value.clone());
                out.push(pair);
                assert(pair_models(out@) =~= pair_models(before).push(
                    (bytes_view(pair.0), bytes_view(pair.1)),
                ));
            },
            None => {},
        }
        i += 1;
    }
    assert(vs.take(i as int) =~= vs);
    out
}

/// Sorted-map backend.
pub struct BTreeMapTable {
    entries: ByteMap<VersionChain>,
    bytes: MemTableSize,
}

impl BTreeMapTable {
    /// Makes an empty table.
    pub fn new() -> (r: Self)
        ensures
            r.wf(),
            r.chains() == Map::<Seq<u8>, Seq<VersionModel>>::empty(),
            r.size() == 0,
    {
        BTreeMapTable { entries: ChainStore::empty(), bytes: MemTableSize::new() }
    }
}

impl Default for BTreeMapTable {
    fn default() -> (r: Self)
        ensures
            r.wf(),
            r.chains() == Map::<Seq<u8>, Seq<VersionModel>>::empty(),
            r.size() == 0,
    {
        BTreeMapTable::new()
    }
}

impl MemTableBackend for BTreeMapTable {
    closed spec fn chains(&self) -> Chains {
        self.entries.contents()
    }

    closed spec fn size(&self) -> int {
        self.bytes.total() as int
    }

    open spec fn kind(&self) -> Option<MemTableImpl> {
        Some(MemTableImpl::BTreeMap)
    }

    closed spec fn wf(&self) -> bool {
        ChainStore::wf(&self.entries)
    }

    fn apply_records_batch(&mut self, records: &[WalRecord], commit_ts: u64) -> (r: Result<()>) {
        apply_all(&mut self.entries, &mut self.bytes, records, commit_ts)
    }

    fn apply_mutations_batch(
        &mut self,
        tx_id: u64,
        mutations: &[Mutation],
        commit_ts: u64,
    ) -> (r: Result<()>) {
        apply_changes(&mut self.entries, &mut self.bytes, tx_id, mutations, commit_ts);
        Ok(())
    }

    fn get(&self, key: &[u8], snapshot: Snapshot) -> (r: Option<VersionedValue>) {
        self.entries.read(key, snapshot)
    }

    fn scan_prefix_versions(
        &self,
        prefix: &[u8],
        snapshot: Snapshot,
    ) -> (r: Vec<(Bytes, VersionedValue)>) {
        scan_with_prefix(&self.entries, prefix, snapshot)
    }

    fn scan_range_versions(
        &self,
        lower: &[u8],
        upper: &[u8],
        snapshot: Snapshot,
    ) -> (r: Vec<(Bytes, VersionedValue)>) {
        scan_range(&self.entries, lower, upper, snapshot)
    }

    fn all_versions(&self) -> (r: Vec<VersionedRow>) {
        let mut out: Vec<VersionedRow> = Vec::new();
        let ghost before = out@;
        push_rows(&self.entries, &mut out);
        assert(row_models(before) + table_rows(self.chains()) =~= table_rows(self.chains()));
        out
    }

    fn drain_into(&self, out: &mut Vec<VersionedRow>) {
        push_rows(&self.entries, out);
    }

    fn garbage_collect(&mut self, oldest_snapshot: TxnTs) -> (r: usize) {
        collect_garbage(&mut self.entries, oldest_snapshot)
    }

    fn clear(&mut self) {
        ChainStore::clear(&mut self.entries);
        self.bytes.reset();
    }

    fn erase_prefix(&mut self, prefix: &[u8]) -> (r: usize) {
        erase_with_prefix(&mut self.entries, prefix)
    }

    fn approximate_bytes(&self) -> (r: usize) {
        self.bytes.get()
    }

    fn len(&self) -> (r: usize) {
        self.entries.count()
    }

    fn is_empty(&self) -> (r: bool) {
        self.entries.has_none()
    }
}

/// Skip-list backend (the default of an engine).
pub struct SkipMapTable {
    entries: ChainMap,
    bytes: MemTableSize,
}

impl SkipMapTable {
    /// Makes an empty table.
    pub fn new() -> (r: Self)
        ensures
            r.wf(),
            r.chains() == Map::<Seq<u8>, Seq<VersionModel>>::empty(),
            r.size() == 0,
    {
        SkipMapTable { entries: ChainStore::empty(), bytes: MemTableSize::new() }
    }
}

impl Default for SkipMapTable {
    fn default() -> (r: Self)
        ensures
            r.wf(),
            r.chains() == Map::<Seq<u8>, Seq<VersionModel>>::empty(),
            r.size() == 0,
    {
        SkipMapTable::new()
    }
}

impl MemTableBackend for SkipMapTable {
    closed spec fn chains(&self) -> Chains {
        self.entries.contents()
    }

    closed spec fn size(&self) -> int {
        self.bytes.total() as int
    }

    open spec fn kind(&self) -> Option<MemTableImpl> {
        Some(MemTableImpl::SkipMap)
    }

    closed spec fn wf(&self) -> bool {
        ChainStore::wf(&self.entries)
    }

    fn apply_records_batch(&mut self, records: &[WalRecord], commit_ts: u64) -> (r: Result<()>) {
        apply_all(&mut self.entries, &mut self.bytes, records, commit_ts)
    }

    fn apply_mutations_batch(
        &mut self,
        tx_id: u64,
        mutations: &[Mutation],
        commit_ts: u64,
    ) -> (r: Result<()>) {
        apply_changes(&mut self.entries, &mut self.bytes, tx_id, mutations, commit_ts);
        Ok(())
    }

    fn get(&self, key: &[u8], snapshot: Snapshot) -> (r: Option<VersionedValue>) {
        self.entries.read(key, snapshot)
    }

    fn scan_prefix_versions(
        &self,
        prefix: &[u8],
        snapshot: Snapshot,
    ) -> (r: Vec<(Bytes, VersionedValue)>) {
        scan_with_prefix(&self.entries, prefix, snapshot)
    }

    fn scan_range_versions(
        &self,
        lower: &[u8],
        upper: &[u8],
        snapshot: Snapshot,
    ) -> (r: Vec<(Bytes, VersionedValue)>) {
        scan_range(&self.entries, lower, upper, snapshot)
    }

    fn all_versions(&self) -> (r: Vec<VersionedRow>) {
        let mut out: Vec<VersionedRow> = Vec::new();
        let ghost before = out@;
        push_rows(&self.entries, &mut out);
        assert(row_models(before) + table_rows(self.chains()) =~= table_rows(self.chains()));
        out
    }

    fn drain_into(&self, out: &mut Vec<VersionedRow>) {
        push_rows(&self.entries, out);
    }

    fn garbage_collect(&mut self, oldest_snapshot: TxnTs) -> (r: usize) {
        collect_garbage(&mut self.entries, oldest_snapshot)
    }

    fn clear(&mut self) {
        ChainStore::clear(&mut self.entries);
        self.bytes.reset();
    }

    fn erase_prefix(&mut self, prefix: &[u8]) -> (r: usize) {
        erase_with_prefix(&mut self.entries, prefix)
    }

    fn approximate_bytes(&self) -> (r: usize) {
        self.bytes.get()
    }

    fn len(&self) -> (r: usize) {
        self.entries.count()
    }

    fn is_empty(&self) -> (r: bool) {
        self.entries.has_none()
    }
}

/// Either of the two backends.
pub enum AnyTable {
    /// The sorted map.
    Sorted(BTreeMapTable),
    /// The skip list.
    Skip(SkipMapTable),
}

impl MemTableBackend for AnyTable {
    open spec fn chains(&self) -> Chains {
        match self {
            AnyTable::Sorted(t) => t.chains(),
            AnyTable::Skip(t) => t.chains(),
        }
    }

    open spec fn size(&self) -> int {
        match self {
            AnyTable::Sorted(t) => t.size(),
            AnyTable::Skip(t) => t.size(),
        }
    }

    open spec fn kind(&self) -> Option<MemTableImpl> {
        match self {
            AnyTable::Sorted(t) => t.kind(),
            AnyTable::Skip(t) => t.kind(),
        }
    }

    open spec fn wf(&self) -> bool {
        match self {
            AnyTable::Sorted(t) => t.wf(),
            AnyTable::Skip(t) => t.wf(),
        }
    }

    fn apply_records_batch(&mut self, records: &[WalRecord], commit_ts: u64) -> (r: Result<()>) {
        match self {
            AnyTable::Sorted(t) => t.apply_records_batch(records, commit_ts),
            AnyTable::Skip(t) => t.apply_records_batch(records, commit_ts),
        }
    }

    fn apply_mutations_batch(
        &mut self,
        tx_id: u64,
        mutations: &[Mutation],
        commit_ts: u64,
    ) -> (r: Result<()>) {
        match self {
            AnyTable::Sorted(t) => t.apply_mutations_batch(tx_id, mutations, commit_ts),
            AnyTable::Skip(t) => t.apply_mutations_batch(tx_id, mutations, commit_ts),
        }
    }

    fn get(&self, key: &[u8], snapshot: Snapshot) -> (r: Option<VersionedValue>) {
        match self {
            AnyTable::Sorted(t) => t.get(key, snapshot),
            AnyTable::Skip(t) => t.get(key, snapshot),
        }
    }

    fn scan_prefix_versions(&self, prefix: &[u8], snapshot: Snapshot) -> (r: Vec<(Bytes, VersionedValue)>) {
        match self {
            AnyTable::Sorted(t) => t.scan_prefix_versions(prefix, snapshot),
            AnyTable::Skip(t) => t.scan_prefix_versions(prefix, snapshot),
        }
    }

    fn scan_range_versions(
        &self,
        lower: &[u8],
        upper: &[u8],
        snapshot: Snapshot,
    ) -> (r: Vec<(Bytes, VersionedValue)>) {
        match self {
            AnyTable::Sorted(t) => t.scan_range_versions(lower, upper, snapshot),
            AnyTable::Skip(t) => t.scan_range_versions(lower, upper, snapshot),
        }
    }

    fn all_versions(&self) -> (r: Vec<VersionedRow>) {
        match self {
            AnyTable::Sorted(t) => t.all_versions(),
            AnyTable::Skip(t) => t.all_versions(),
        }
    }

    fn drain_into(&self, out: &mut Vec<VersionedRow>) {
        match self {
            AnyTable::Sorted(t) => t.drain_into(out),
            AnyTable::Skip(t) => t.drain_into(out),
        }
    }

    fn garbage_collect(&mut self, oldest_snapshot: TxnTs) -> (r: usize) {
        match self {
            AnyTable::Sorted(t) => t.garbage_collect(oldest_snapshot),
            AnyTable::Skip(t) => t.garbage_collect(oldest_snapshot),
        }
    }

    fn clear(&mut self) {
        match self {
            AnyTable::Sorted(t) => t.clear(),
            AnyTable::Skip(t) => t.clear(),
        }
    }

    fn erase_prefix(&mut self, prefix: &[u8]) -> (r: usize) {
        match self {
            AnyTable::Sorted(t) => t.erase_prefix(prefix),
            AnyTable::Skip(t) => t.erase_prefix(prefix),
        }
    }

    fn approximate_bytes(&self) -> (r: usize) {
        match self {
            AnyTable::Sorted(t) => t.approximate_bytes(),
            AnyTable::Skip(t) => t.approximate_bytes(),
        }
    }

    fn len(&self) -> (r: usize) {
        match self {
            AnyTable::Sorted(t) => t.len(),
            AnyTable::Skip(t) => t.len(),
        }
    }

    fn is_empty(&self) -> (r: bool) {
        match self {
            AnyTable::Sorted(t) => t.is_empty(),
            AnyTable::Skip(t) => t.is_empty(),
        }
    }
}

// ── The handle ────────────────────────────────────────────────────────────

/// Ordered memtable handle over a backend.
pub struct MemTable<B: MemTableBackend = AnyTable> {
    backend: B,
}

impl MemTable<AnyTable> {
    /// Creates an empty memtable with the sorted-map backend.
    pub fn new() -> (r: Self)
        ensures
            r.wf(),
            r.kind() == Some(MemTableImpl::BTreeMap),
            r.chains() == Map::<Seq<u8>, Seq<VersionModel>>::empty(),
            r.size() == 0,
    {
        MemTable { backend: AnyTable::Sorted(BTreeMapTable::new()) }
    }

    /// Creates a memtable using the requested backend implementation.
    pub fn with_impl(impl_kind: MemTableImpl) -> (r: Self)
        ensures
            r.wf(),
            r.kind() == Some(impl_kind),
            r.chains() == Map::<Seq<u8>, Seq<VersionModel>>::empty(),
            r.size() == 0,
    {
        match impl_kind {
            MemTableImpl::BTreeMap => MemTable {
                backend: AnyTable::Sorted(BTreeMapTable::new()),
            },
            MemTableImpl::SkipMap => MemTable { backend: AnyTable::Skip(SkipMapTable::new()) },
        }
    }
}

impl Default for MemTable<AnyTable> {
    fn default() -> (r: Self)
        ensures
            r.wf(),
            r.kind() == Some(MemTableImpl::BTreeMap),
            r.chains() == Map::<Seq<u8>, Seq<VersionModel>>::empty(),
            r.size() == 0,
    {
        MemTable::new()
    }
}

impl<B: MemTableBackend> MemTable<B> {
    /// Creates a memtable over a given backend.
    pub fn with_backend(backend: B) -> (r: Self)
        ensures
            r.wf() == backend.wf(),
            r.kind() == backend.kind(),
            r.chains() == backend.chains(),
            r.size() == backend.size(),
    {
        MemTable { backend }
    }

    /// The version chains that the table holds.
    pub closed spec fn chains(&self) -> Chains {
        self.backend.chains()
    }

    /// The approximate byte count.
    pub closed spec fn size(&self) -> int {
        self.backend.size()
    }

    /// Which of the library's backends the table uses, if it is one.
    pub closed spec fn kind(&self) -> Option<MemTableImpl> {
        self.backend.kind()
    }

    /// What the table holds.
    pub open spec fn state(&self) -> TableState {
        TableState { chains: self.chains(), size: self.size() }
    }

    /// The table is in order.
    pub closed spec fn wf(&self) -> bool {
        self.backend.wf()
    }

    /// Applies a batch of WAL records at `commit_ts`. A put without a value is
    /// an error; the records in front of it stay applied.
    pub fn apply_records_batch(&mut self, records: &[WalRecord], commit_ts: u64) -> (r: Result<()>)
        requires
            old(self).wf(),
        ensures
            final(self).wf(),
            final(self).kind() == old(self).kind(),
            ({
                let rs = record_models(records@);
                let n = applicable_prefix(rs) as int;
                &&& r is Ok <==> forall|i: int| 0 <= i < rs.len() ==> applicable(#[trigger] rs[i])
                &&& r is Ok ==> {
                    &&& final(self).chains() == apply_records(old(self).chains(), rs, commit_ts)
                    &&& final(self).size() == size_after_all(old(self).size(), rs)
                }
                &&& r matches Err(e) ==> {
                    &&& e.is_corrupt("put WAL record has no value")
                    &&& final(self).chains() == apply_records(
                        old(self).chains(),
                        rs.take(n),
                        commit_ts,
                    )
                    &&& final(self).size() == size_after_all(old(self).size(), rs.take(n))
                }
                &&& (final(self).state(), Told::Applied(r is Ok)) == after_call(
                    old(self).state(),
                    TableCall::Records(rs, commit_ts),
                )
            }),
    {
        proof {
            let rs = record_models(records@);
            lemma_applicable_all(rs);
            assert(rs.take(rs.len() as int) =~= rs);
        }
        self.backend.apply_records_batch(records, commit_ts)
    }

    /// Applies a batch of mutations of `tx_id` at `commit_ts`.
    pub fn apply_mutations_batch(
        &mut self,
        tx_id: u64,
        mutations: &[Mutation],
        commit_ts: u64,
    ) -> (r: Result<()>)
        requires
            old(self).wf(),
        ensures
            r is Ok,
            final(self).wf(),
            final(self).kind() == old(self).kind(),
            final(self).chains() == apply_records(
                old(self).chains(),
                mutation_records(tx_id, mutation_models(mutations@)),
                commit_ts,
            ),
            final(self).size() == size_after_all(
                old(self).size(),
                mutation_records(tx_id, mutation_models(mutations@)),
            ),
            (final(self).state(), Told::Applied(r is Ok)) == after_call(
                old(self).state(),
                TableCall::Mutations(tx_id, mutation_models(mutations@), commit_ts),
            ),
    {
        self.backend.apply_mutations_batch(tx_id, mutations, commit_ts)
    }

    /// Returns the version visible at `snapshot`, including tombstones.
    pub fn get(&self, key: &[u8], snapshot: Snapshot) -> (r: Option<VersionedValue>)
        requires
            self.wf(),
        ensures
            r is Some <==> chains_read(self.chains(), key@, snapshot.ts) is Some,
            r matches Some(v) ==> chains_read(self.chains(), key@, snapshot.ts) == Some(v@),
    {
        self.backend.get(key, snapshot)
    }

    /// Returns visible versions whose key starts with `prefix`, in key order.
    pub fn scan_prefix_versions(
        &self,
        prefix: &[u8],
        snapshot: Snapshot,
    ) -> (r: Vec<(Bytes, VersionedValue)>)
        requires
            self.wf(),
        ensures
            scan_models(r@) == prefix_scan(self.chains(), prefix@, snapshot.ts),
    {
        self.backend.scan_prefix_versions(prefix, snapshot)
    }

    /// Returns visible versions whose key falls in `[lower, upper)`, in key
    /// order.
    pub fn scan_range_versions(
        &self,
        lower: &[u8],
        upper: &[u8],
        snapshot: Snapshot,
    ) -> (r: Vec<(Bytes, VersionedValue)>)
        requires
            self.wf(),
        ensures
            scan_models(r@) == range_scan(self.chains(), lower@, upper@, snapshot.ts),
    {
        self.backend.scan_range_versions(lower, upper, snapshot)
    }

    /// Returns a copy of every committed version in key order.
    pub fn all_versions(&self) -> (r: Vec<VersionedRow>)
        requires
            self.wf(),
        ensures
            row_models(r@) == table_rows(self.chains()),
    {
        self.backend.all_versions()
    }

    /// Pushes every committed version into `out` in key order.
    pub fn drain_into(&self, out: &mut Vec<VersionedRow>)
        requires
            self.wf(),
        ensures
            row_models(final(out)@) == row_models(old(out)@) + table_rows(self.chains()),
            lists_keys(sorted_keys(self.chains().dom()), self.chains().dom()),
    {
        self.backend.drain_into(out);
    }

    /// Garbage-collects versions invisible to every active snapshot; returns
    /// how many went.
    pub fn garbage_collect(&mut self, oldest_snapshot: TxnTs) -> (r: usize)
        requires
            old(self).wf(),
        ensures
            final(self).wf(),
            final(self).kind() == old(self).kind(),
            final(self).chains() == chains_gc(old(self).chains(), oldest_snapshot),
            final(self).size() == old(self).size(),
            r == gc_dropped(
                sorted_keys(old(self).chains().dom()),
                old(self).chains(),
                oldest_snapshot,
            ),
            (final(self).state(), Told::Gone(r as int)) == after_call(
                old(self).state(),
                TableCall::Collect(oldest_snapshot),
            ),
    {
        self.backend.garbage_collect(oldest_snapshot)
    }

    /// Removes every row after a durable flush.
    pub fn clear(&mut self)
        requires
            old(self).wf(),
        ensures
            final(self).wf(),
            final(self).kind() == old(self).kind(),
            final(self).chains() == Map::<Seq<u8>, Seq<VersionModel>>::empty(),
            final(self).size() == 0,
            (final(self).state(), Told::Nothing) == after_call(
                old(self).state(),
                TableCall::Clear,
            ),
    {
        self.backend.clear();
    }

    /// Removes all entries whose key starts with `prefix`; returns the number
    /// of keys removed.
    pub fn erase_prefix(&mut self, prefix: &[u8]) -> (r: usize)
        requires
            old(self).wf(),
        ensures
            final(self).wf(),
            final(self).kind() == old(self).kind(),
            final(self).size() == old(self).size(),
            ({
                let gone = keys_with(old(self).chains().dom(), prefix@);
                &&& final(self).chains() == old(self).chains().remove_keys(gone)
                &&& r == sorted_keys(gone).len()
            }),
            (final(self).state(), Told::Gone(r as int)) == after_call(
                old(self).state(),
                TableCall::Erase(prefix@),
            ),
    {
        self.backend.erase_prefix(prefix)
    }

    /// Returns the approximate memory footprint in bytes.
    pub fn approximate_bytes(&self) -> (r: usize)
        requires
            self.wf(),
        ensures
            r == self.size(),
    {
        self.backend.approximate_bytes()
    }

    /// Returns the number of logical keys.
    pub fn len(&self) -> (r: usize)
        requires
            self.wf(),
        ensures
            r == self.chains().dom().len(),
    {
        self.backend.len()
    }

    /// Returns whether no logical keys are present.
    pub fn is_empty(&self) -> (r: bool)
        requires
            self.wf(),
        ensures
            r <==> self.chains().dom() == Set::<Seq<u8>>::empty(),
    {
        self.backend.is_empty()
    }

    /// Returns visible (key, value) pairs whose key starts with `prefix`, in
    /// key order, without the deleted ones.
    pub fn scan_prefix(&self, prefix: &[u8], snapshot: Snapshot) -> (r: Vec<(Bytes, Bytes)>)
        requires
            self.wf(),
        ensures
            pair_models(r@) == live_pairs(prefix_scan(self.chains(), prefix@, snapshot.ts)),
    {
        self.backend.scan_prefix(prefix, snapshot)
    }
}

// ── Laws ──────────────────────────────────────────────────────────────────

/// Every chain is contiguous.
pub open spec fn chains_contiguous(m: Chains) -> bool {
    forall|k: Seq<u8>| #[trigger] m.contains_key(k) ==> contiguous(m[k])
}

/// Applying records keeps every chain contiguous.
pub proof fn law_apply_keeps_contiguous(m: Chains, rs: Seq<RecordModel>, commit_ts: u64)
    requires
        chains_contiguous(m),
    ensures
        chains_contiguous(apply_records(m, rs, commit_ts)),
    decreases rs.len(),
{
    if rs.len() > 0 {
        let r = rs.last();
        let mid = apply_records(m, rs.drop_last(), commit_ts);
        law_apply_keeps_contiguous(m, rs.drop_last(), commit_ts);
        let value = if r.op == OpType::Put {
            r.value
        } else {
            None
        };
        let v = open_version(value, commit_ts, r.tx_id);
        if r.op == OpType::Put || r.op == OpType::Delete {
            law_insert_keeps_contiguous(chain_of(mid, r.key), v);
            assert(apply_records(m, rs, commit_ts) == chains_install(mid, r.key, v));
        }
    }
}

/// Garbage collection keeps every chain contiguous and changes no read at
/// `oldest_snapshot` or later.
pub proof fn law_table_gc(m: Chains, oldest_snapshot: u64, key: Seq<u8>, ts: u64)
    requires
        ts >= oldest_snapshot,
    ensures
        chains_read(chains_gc(m, oldest_snapshot), key, ts) == chains_read(m, key, ts),
        chains_contiguous(m) ==> chains_contiguous(chains_gc(m, oldest_snapshot)),
{
    law_gc_keeps_reads(chain_of(m, key), oldest_snapshot, ts);
    if chains_contiguous(m) {
        assert forall|k: Seq<u8>| #[trigger] chains_gc(m, oldest_snapshot).contains_key(
            k,
        ) implies contiguous(chains_gc(m, oldest_snapshot)[k]) by {
            assert(m.contains_key(k));
            law_gc_drops_the_oldest(m[k], oldest_snapshot);
        }
    }
}

/// The keys that begin with a prefix are those from the prefix up to its
/// successor, where it has one: a prefix scan is then a range scan.
pub proof fn law_prefix_keys(dom: Set<Seq<u8>>, prefix: Seq<u8>)
    requires
        successor(prefix) is Some,
    ensures
        keys_with(dom, prefix) == keys_between(dom, prefix, prefix_upper(prefix)),
{
    let got = keys_between(dom, prefix, prefix_upper(prefix));
    let want = keys_with(dom, prefix);
    assert forall|k: Seq<u8>| got.contains(k) <==> want.contains(k) by {
        law_prefix_range(prefix, k);
    }
    assert(got =~= want);
}

/// A batch applied at `commit_ts` leaves every read before `commit_ts` as it
/// was.
pub proof fn law_apply_keeps_earlier_reads(
    m: Chains,
    rs: Seq<RecordModel>,
    commit_ts: u64,
    key: Seq<u8>,
    ts: u64,
)
    requires
        chains_contiguous(m),
        ts < commit_ts,
    ensures
        ({
            let before = chains_read(m, key, ts);
            let after = chains_read(apply_records(m, rs, commit_ts), key, ts);
            &&& after is Some <==> before is Some
            &&& after matches Some(w) ==> {
                &&& w.value == before->0.value
                &&& w.begin_ts == before->0.begin_ts
                &&& w.tx_id == before->0.tx_id
            }
        }),
    decreases rs.len(),
{
    if rs.len() > 0 {
        let r = rs.last();
        let mid = apply_records(m, rs.drop_last(), commit_ts);
        law_apply_keeps_earlier_reads(m, rs.drop_last(), commit_ts, key, ts);
        law_apply_keeps_contiguous(m, rs.drop_last(), commit_ts);
        let value = if r.op == OpType::Put {
            r.value
        } else {
            None
        };
        let v = open_version(value, commit_ts, r.tx_id);
        if (r.op == OpType::Put || r.op == OpType::Delete) && r.key == key {
            law_insert_and_reads(chain_of(mid, key), v, ts);
            assert(chain_of(apply_records(m, rs, commit_ts), key) == chain_insert(
                chain_of(mid, key),
                v,
            ));
        }
    }
}

/// The last record of a batch that writes `key`.
pub open spec fn last_write(rs: Seq<RecordModel>, key: Seq<u8>) -> Option<RecordModel>
    decreases rs.len(),
{
    if rs.len() == 0 {
        None
    } else if rs.last().key == key && (rs.last().op == OpType::Put || rs.last().op
        == OpType::Delete) {
        Some(rs.last())
    } else {
        last_write(rs.drop_last(), key)
    }
}

/// What a record leaves under its key: a put its value, a delete nothing.
pub open spec fn written_value(r: RecordModel) -> Option<Seq<u8>> {
    if r.op == OpType::Put {
        r.value
    } else {
        None
    }
}

/// No version of the table begins after `ts`.
pub open spec fn none_after(m: Chains, ts: u64) -> bool {
    forall|k: Seq<u8>, i: int|
        m.contains_key(k) && 0 <= i < m[k].len() ==> (#[trigger] m[k][i]).begin_ts <= ts
}

/// Applying records at `commit_ts` adds no version that begins later.
pub proof fn lemma_apply_none_after(m: Chains, rs: Seq<RecordModel>, commit_ts: u64)
    requires
        chains_contiguous(m),
        none_after(m, commit_ts),
    ensures
        none_after(apply_records(m, rs, commit_ts), commit_ts),
    decreases rs.len(),
{
    if rs.len() > 0 {
        let r = rs.last();
        let mid = apply_records(m, rs.drop_last(), commit_ts);
        lemma_apply_none_after(m, rs.drop_last(), commit_ts);
        law_apply_keeps_contiguous(m, rs.drop_last(), commit_ts);
        if r.op == OpType::Put || r.op == OpType::Delete {
            let v = open_version(written_value(r), commit_ts, r.tx_id);
            let c = chain_of(mid, r.key);
            let after = apply_records(m, rs, commit_ts);
            assert(after == chains_install(mid, r.key, v));
            lemma_count_after(c, commit_ts);
            assert forall|k: Seq<u8>, i: int|
                after.contains_key(k) && 0 <= i < after[k].len() implies (
            #[trigger] after[k][i]).begin_ts <= commit_ts by {
                if k == r.key {
                    let p = count_after(c, commit_ts) as int;
                    if p < c.len() && c[p].begin_ts == commit_ts {
                        if i != p {
                            assert(after[k][i] == mid[k][i]);
                        }
                    } else if i < p {
                        assert(after[k][i] == mid[k][i]);
                    } else if i > p {
                        assert(after[k][i].begin_ts == mid[k][i - 1].begin_ts);
                    }
                } else {
                    assert(after[k][i] == mid[k][i]);
                }
            }
        }
    }
}

/// A batch applied at a timestamp that no version begins after is what every
/// later reader sees: under each key the batch writes, its last write there;
/// under every other key, what was there before.
pub proof fn law_apply_is_read_back(
    m: Chains,
    rs: Seq<RecordModel>,
    commit_ts: u64,
    key: Seq<u8>,
    ts: u64,
)
    requires
        chains_contiguous(m),
        none_after(m, commit_ts),
        commit_ts <= ts < OPEN_ENDED_TS,
    ensures
        ({
            let after = chains_read(apply_records(m, rs, commit_ts), key, ts);
            match last_write(rs, key) {
                Some(r) => {
                    &&& after matches Some(w)
                    &&& w.value == written_value(r)
                    &&& w.begin_ts == commit_ts
                    &&& w.tx_id == r.tx_id
                },
                None => after == chains_read(m, key, ts),
            }
        }),
    decreases rs.len(),
{
    if rs.len() > 0 {
        let r = rs.last();
        let front = rs.drop_last();
        let mid = apply_records(m, front, commit_ts);
        law_apply_is_read_back(m, front, commit_ts, key, ts);
        law_apply_keeps_contiguous(m, front, commit_ts);
        lemma_apply_none_after(m, front, commit_ts);
        if (r.op == OpType::Put || r.op == OpType::Delete) && r.key == key {
            let v = open_version(written_value(r), commit_ts, r.tx_id);
            let c = chain_of(mid, key);
            lemma_count_after(c, commit_ts);
            if count_after(c, commit_ts) > 0 {
                assert(c[0].begin_ts > commit_ts);
                assert(mid[key][0].begin_ts <= commit_ts);
            }
            law_insert_and_reads(c, v, ts);
            assert(chain_of(apply_records(m, rs, commit_ts), key) == chain_insert(c, v));
        }
    }
}

} // verus!
