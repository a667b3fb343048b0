//! The write path: transaction ids, throttling, the log, the memtable and the
//! commit-progress watcher.

use crate::buf::{bytes_slice, lists_keys, sorted_keys};
use crate::chain_store::{chains_read, Chains};
use crate::config::SyncMode;
use crate::error::{EngineError, Result};
use crate::file_io::{may_read, may_sync, same_reach, FileIO};
use crate::hook::{commit_told, may_answer, told_of, EngineHook};
use crate::memtable::{
    apply_records, chains_contiguous, chains_gc, gc_dropped, keys_with, last_write,
    law_apply_is_read_back, law_apply_keeps_contiguous, law_apply_keeps_earlier_reads,
    lemma_apply_none_after, none_after, row_models, size_after_all, table_rows, written_value,
    MemTable, MemTableImpl, VersionedRow,
};
use crate::metrics::{wrapped, EngineMetrics};
use crate::mutation::{mutation_models, Mutation, MutationModel};
use crate::pressure::{level_of, PressureConfig, PressureThrottle, ThrottleLevel};
use crate::version::OPEN_ENDED_TS;
use crate::wal::{
    batch_bytes, build_wal_records, emptying, group_bytes, group_fits, group_models,
    group_mutation_models, is_group_error, is_length_error, log_takes, mutation_records,
    record_fits, RecordModel, Wal, WalRecord,
};
use crate::watch::{later, EventModel, WatchEvent, Watcher};
use vstd::prelude::*;
use vstd::string::StringExecFns;

verus! {

/// What the write path holds.
#[verifier::ext_equal]
pub struct WriteModel {
    /// Bytes of the log.
    pub log: Seq<u8>,
    /// Version chains of the memtable.
    pub chains: Chains,
    /// Approximate memtable size.
    pub bytes: int,
    /// Next commit sequence number.
    pub commit_seq: u64,
    /// Next transaction id.
    pub next_tx_id: u64,
    /// Counters.
    pub metrics: EngineMetrics,
    /// Newest commit that watchers know to be resolved.
    pub resolved: u64,
    /// Number of event subscribers.
    pub listeners: usize,
    /// Events that wait for delivery.
    pub events: Seq<EventModel>,
}

/// What a list of events says.
pub open spec fn event_models(es: Seq<WatchEvent>) -> Seq<EventModel> {
    es.map_values(|e: WatchEvent| e@)
}

/// After `bytes` went to the log.
pub open spec fn logged(m: WriteModel, bytes: Seq<u8>) -> WriteModel {
    WriteModel {
        log: m.log + bytes,
        metrics: EngineMetrics {
            wal_bytes_written: wrapped(m.metrics.wal_bytes_written, bytes.len() as u64),
            ..m.metrics
        },
        ..m
    }
}

/// After a transaction got the next commit sequence number and was applied.
pub open spec fn installed(m: WriteModel, tx_id: u64, ms: Seq<MutationModel>) -> WriteModel {
    let rs = mutation_records(tx_id, ms);
    WriteModel {
        chains: apply_records(m.chains, rs, m.commit_seq),
        bytes: size_after_all(m.bytes, rs),
        commit_seq: wrapped(m.commit_seq, 1),
        metrics: EngineMetrics { tx_committed: wrapped(m.metrics.tx_committed, 1), ..m.metrics },
        resolved: later(m.resolved, m.commit_seq),
        events: if m.listeners > 0 {
            m.events.push(EventModel { tx_id, commit_ts: m.commit_seq, mutations: ms })
        } else {
            m.events
        },
        ..m
    }
}

/// After the memtable size was reported to the counters.
pub open spec fn measured(m: WriteModel) -> WriteModel {
    WriteModel {
        metrics: EngineMetrics { memtable_bytes: m.bytes as u64, ..m.metrics },
        ..m
    }
}

/// After one transaction was committed.
pub open spec fn committed(m: WriteModel, tx_id: u64, ms: Seq<MutationModel>) -> WriteModel {
    measured(installed(logged(m, batch_bytes(mutation_records(tx_id, ms), tx_id)), tx_id, ms))
}

/// After a transaction was rejected before anything was written.
pub open spec fn rejected(m: WriteModel, e: EngineError) -> WriteModel {
    WriteModel { metrics: rejected_metrics(m.metrics, e), ..m }
}

/// The counters after a transaction was rejected.
pub open spec fn rejected_metrics(c: EngineMetrics, e: EngineError) -> EngineMetrics {
    EngineMetrics {
        tx_aborted: wrapped(c.tx_aborted, 1),
        ssi_conflicts: if e.spec_is_conflict() {
            wrapped(c.ssi_conflicts, 1)
        } else {
            c.ssi_conflicts
        },
        ..c
    }
}

/// Nothing changed but that a part of `bytes` may have reached the log.
pub open spec fn torn(before: WriteModel, after: WriteModel, bytes: Seq<u8>) -> bool {
    exists|n: int|
        0 <= n <= bytes.len() && after == (WriteModel {
            log: before.log + #[trigger] bytes.take(n),
            ..before
        })
}

/// Every record of the transaction fits the log.
pub open spec fn tx_fits(tx_id: u64, ms: Seq<MutationModel>) -> bool {
    forall|i: int|
        0 <= i < ms.len() ==> record_fits(#[trigger] mutation_records(tx_id, ms)[i])
}

/// `e` tells of a record of the transaction that does not fit.
pub open spec fn is_tx_error(e: EngineError, tx_id: u64, ms: Seq<MutationModel>) -> bool {
    exists|i: int|
        0 <= i < ms.len() && !record_fits(#[trigger] mutation_records(tx_id, ms)[i])
            && is_length_error(e, mutation_records(tx_id, ms)[i])
}

/// What a commit that passed the pre-commit check may come to: it is logged
/// and applied, or it fails and is applied nowhere.
pub open spec fn commit_outcome(
    before: WriteModel,
    after: WriteModel,
    tx_id: u64,
    ms: Seq<MutationModel>,
    r: Result<u64>,
) -> bool {
    match r {
        Ok(ts) => tx_fits(tx_id, ms) && ts == before.commit_seq && after == committed(
            before,
            tx_id,
            ms,
        ),
        Err(e) => if tx_fits(tx_id, ms) {
            e is Io && torn(before, after, batch_bytes(mutation_records(tx_id, ms), tx_id))
        } else {
            after == before && is_tx_error(e, tx_id, ms)
        },
    }
}

/// How a commit that passed the pre-commit check went: its records were
/// appended to the log, and made durable where every commit is, or that
/// failed; the hook was told of what was committed.
pub open spec fn commit_done<F: FileIO, H: EngineHook>(
    log: F,
    mode: SyncMode,
    hook: H,
    tx_id: u64,
    mutations: Seq<Mutation>,
    r: Result<u64>,
) -> bool {
    let ms = mutation_models(mutations);
    &&& tx_fits(tx_id, ms) ==> log_takes(
        log,
        batch_bytes(mutation_records(tx_id, ms), tx_id),
        mode is Full,
        r is Ok,
    )
    &&& r matches Ok(ts) ==> commit_told(hook, tx_id, mutations, ts)
}

/// The next transaction id is above `tx_id`.
pub open spec fn reserved(m: WriteModel, tx_id: u64) -> WriteModel {
    let target = if tx_id == u64::MAX {
        u64::MAX
    } else {
        (tx_id + 1) as u64
    };
    WriteModel {
        next_tx_id: if target > m.next_tx_id {
            target
        } else {
            m.next_tx_id
        },
        ..m
    }
}

/// A write that waits to be committed with others.
#[derive(Debug)]
pub struct PendingWrite {
    /// Transaction.
    pub tx_id: u64,
    /// What it asks for.
    pub mutations: Vec<Mutation>,
}

/// What a list of pending writes says.
pub open spec fn pending_models(ps: Seq<PendingWrite>) -> Seq<(u64, Seq<MutationModel>)> {
    ps.map_values(|p: PendingWrite| (p.tx_id, mutation_models(p.mutations@)))
}

/// The pending writes that passed their pre-commit check.
pub open spec fn survivors(
    ps: Seq<(u64, Seq<MutationModel>)>,
    verdicts: Seq<Result<()>>,
) -> Seq<(u64, Seq<MutationModel>)>
    decreases ps.len(),
{
    if ps.len() == 0 {
        Seq::empty()
    } else {
        let rest = survivors(ps.drop_last(), verdicts.drop_last());
        if verdicts.last() is Ok {
            rest.push(ps.last())
        } else {
            rest
        }
    }
}

/// The counters after every verdict.
pub open spec fn judged(c: EngineMetrics, verdicts: Seq<Result<()>>) -> EngineMetrics
    decreases verdicts.len(),
{
    if verdicts.len() == 0 {
        c
    } else {
        let rest = judged(c, verdicts.drop_last());
        match verdicts.last() {
            Ok(_) => rest,
            Err(e) => rejected_metrics(rest, e),
        }
    }
}

/// The log records of transactions.
pub open spec fn records_of(cs: Seq<(u64, Seq<MutationModel>)>) -> Seq<(u64, Seq<RecordModel>)> {
    cs.map_values(|c: (u64, Seq<MutationModel>)| (c.0, mutation_records(c.0, c.1)))
}

/// After transactions were applied one after the other.
pub open spec fn installed_all(m: WriteModel, cs: Seq<(u64, Seq<MutationModel>)>) -> WriteModel
    decreases cs.len(),
{
    if cs.len() == 0 {
        m
    } else {
        installed(installed_all(m, cs.drop_last()), cs.last().0, cs.last().1)
    }
}

/// How many of the first `i` pending writes passed.
pub open spec fn rank(verdicts: Seq<Result<()>>, i: int) -> nat
    decreases i,
{
    if i <= 0 {
        0
    } else {
        rank(verdicts, i - 1) + (if verdicts[i - 1] is Ok {
            1nat
        } else {
            0
        })
    }
}

/// The message that every survivor gets when the log fails them all.
pub open spec fn is_log_failure(r: Result<u64>, e: EngineError) -> bool {
    &&& r matches Err(EngineError::CorruptMessage(m))
    &&& e !is Io ==> m@ == "WAL append failed: "@ + e.text()
    &&& e is Io ==> ("WAL append failed: "@ + e.text()).is_prefix_of(m@)
}

/// The outcome of a group commit.
#[derive(Debug)]
pub struct GroupOutcome {
    /// For each pending write its commit sequence number or its error.
    pub results: Vec<Result<u64>>,
    /// The error of the log, where it failed them all.
    pub failure: Option<EngineError>,
}

/// What a group commit may come to.
pub open spec fn group_outcome(
    before: WriteModel,
    after: WriteModel,
    ps: Seq<(u64, Seq<MutationModel>)>,
    verdicts: Seq<Result<()>>,
    out: GroupOutcome,
) -> bool {
    let cs = survivors(ps, verdicts);
    let start = WriteModel { metrics: judged(before.metrics, verdicts), ..before };
    let bytes = group_bytes(records_of(cs));
    &&& out.results@.len() == ps.len()
    &&& forall|i: int|
        0 <= i < ps.len() ==> (verdicts[i] matches Err(e) ==> #[trigger] out.results@[i] == Err::<
            u64,
            EngineError,
        >(e))
    &&& match out.failure {
        None => {
            &&& group_fits(records_of(cs))
            &&& forall|i: int|
                0 <= i < ps.len() && verdicts[i] is Ok ==> #[trigger] out.results@[i] == Ok::<
                    u64,
                    EngineError,
                >(wrapped(before.commit_seq, rank(verdicts, i) as u64))
            &&& if cs.len() == 0 {
                after == start
            } else {
                after == measured(installed_all(logged(start, bytes), cs))
            }
        },
        Some(e) => {
            &&& cs.len() > 0
            &&& forall|i: int|
                0 <= i < ps.len() && verdicts[i] is Ok ==> is_log_failure(
                    #[trigger] out.results@[i],
                    e,
                )
            &&& if group_fits(records_of(cs)) {
                e is Io && torn(start, after, bytes)
            } else {
                after == start && is_group_error(e, records_of(cs))
            }
        },
    }
}

/// Tells the hook of a committed transaction: of its mutations in order, then
/// of its commit.
fn run_commit_hooks<H: EngineHook>(hook: &H, tx_id: u64, mutations: &[Mutation], commit_ts: u64)
    ensures
        commit_told(*hook, tx_id, mutations@, commit_ts),
{
    let mut i: usize = 0;
    while i < mutations.len()
        invariant
            i <= mutations@.len(),
            forall|j: int| 0 <= j < i ==> told_of(*hook, tx_id, #[trigger] mutations@[j]),
        decreases mutations@.len() - i,
    {
        match &mutations[i] {
            Mutation::Put { key, value } => {
                hook.on_put(bytes_slice(key), bytes_slice(value), tx_id);
            },
            Mutation::Delete { key } => {
                hook.on_delete(bytes_slice(key), tx_id);
            },
        }
        assert(told_of(*hook, tx_id, mutations@[i as int]));
        i += 1;
    }
    hook.on_tx_commit(tx_id, commit_ts);
}

/// How a group commit went: the records of the writes that passed their
/// pre-commit check were appended to the log in one go, and made durable where
/// every commit is, or that failed; the hook was told of what was committed.
pub open spec fn group_done<F: FileIO, H: EngineHook>(
    log: F,
    mode: SyncMode,
    hook: H,
    batch: Seq<PendingWrite>,
    verdicts: Seq<Result<()>>,
    out: GroupOutcome,
) -> bool {
    let gs = records_of(survivors(pending_models(batch), verdicts));
    &&& group_fits(gs) && group_bytes(gs).len() > 0 ==> log_takes(
        log,
        group_bytes(gs),
        mode is Full,
        out.failure is None,
    )
    &&& group_told(hook, batch, out.results@)
}

/// The hook was told of every pending write that was committed.
pub open spec fn group_told<H: EngineHook>(
    hook: H,
    batch: Seq<PendingWrite>,
    results: Seq<Result<u64>>,
) -> bool {
    forall|i: int|
        0 <= i < results.len() ==> (#[trigger] results[i] matches Ok(ts) ==> commit_told(
            hook,
            batch[i].tx_id,
            batch[i].mutations@,
            ts,
        ))
}

fn copy_mutations(ms: &[Mutation]) -> (r: Vec<Mutation>)
    ensures
        mutation_models(r@) == mutation_models(ms@),
{
    let mut out: Vec<Mutation> = Vec::new();
    let mut i: usize = 0;
    while i < ms.len()
        invariant
            i <= ms@.len(),
            mutation_models(out@) == mutation_models(ms@).take(i as int),
        decreases ms@.len() - i,
    {
        let ghost before = mutation_models(out@);
        out.push(ms[i].clone());
        i += 1;
        assert(mutation_models(out@) =~= before.push(ms@[i - 1]@));
        assert(mutation_models(out@) =~= mutation_models(ms@).take(i as int));
    }
    assert(mutation_models(ms@).take(i as int) =~= mutation_models(ms@));
    out
}

/// Commits transactions: to the log first, then to the memtable.
pub struct Committer<F: FileIO> {
    wal: Wal<F>,
    memtable: MemTable,
    commit_seq: u64,
    next_tx_id: u64,
    sync_mode: SyncMode,
    throttle: PressureThrottle,
    metrics: EngineMetrics,
    watcher: Watcher,
    events: Vec<WatchEvent>,
}

impl<F: FileIO> View for Committer<F> {
    type V = WriteModel;

    closed spec fn view(&self) -> WriteModel {
        WriteModel {
            log: self.wal.content(),
            chains: self.memtable.chains(),
            bytes: self.memtable.size(),
            commit_seq: self.commit_seq,
            next_tx_id: self.next_tx_id,
            metrics: self.metrics,
            resolved: self.watcher.resolved(),
            listeners: self.watcher.listeners(),
            events: event_models(self.events@),
        }
    }
}

impl<F: FileIO> Committer<F> {
    /// Log and memtable are in order.
    pub closed spec fn wf(&self) -> bool {
        self.wal.wf() && self.memtable.wf()
    }

    /// The handle on the log.
    pub closed spec fn log_handle(&self) -> F {
        self.wal.handle()
    }

    /// When the log is made durable.
    pub closed spec fn sync_mode(&self) -> SyncMode {
        self.sync_mode
    }

    /// Which backend the memtable uses.
    pub closed spec fn memtable_kind(&self) -> Option<MemTableImpl> {
        self.memtable.kind()
    }

    /// When writes are throttled.
    pub closed spec fn tuning(&self) -> PressureConfig {
        self.throttle.tuning()
    }

    /// Starts from a recovered log and memtable. Everything up to the given
    /// commit is resolved.
    pub fn new(
        wal: Wal<F>,
        memtable: MemTable,
        commit_seq: u64,
        next_tx_id: u64,
        sync_mode: SyncMode,
        pressure: PressureConfig,
        metrics: EngineMetrics,
    ) -> (r: Self)
        requires
            wal.wf(),
            memtable.wf(),
        ensures
            r.wf(),
            r.tuning() == pressure,
            r.sync_mode() == sync_mode,
            r.memtable_kind() == memtable.kind(),
            r.log_handle() == wal.handle(),
            r@ == (WriteModel {
                log: wal.content(),
                chains: memtable.chains(),
                bytes: memtable.size(),
                commit_seq,
                next_tx_id,
                metrics,
                resolved: if commit_seq == 0 {
                    0
                } else {
                    (commit_seq - 1) as u64
                },
                listeners: 0,
                events: Seq::empty(),
            }),
    {
        let r = Committer {
            wal,
            memtable,
            commit_seq,
            next_tx_id,
            sync_mode,
            throttle: PressureThrottle::new(pressure),
            metrics,
            watcher: Watcher::new(commit_seq.saturating_sub(1)),
            events: Vec::new(),
        };
        assert(r@.events =~= Seq::<EventModel>::empty());
        r
    }

    fn install<H: EngineHook>(&mut self, hook: &H, tx_id: u64, mutations: &[Mutation]) -> (r: u64)
        requires
            old(self).wf(),
        ensures
            final(self).wf(),
            final(self).tuning() == old(self).tuning(),
            final(self).sync_mode() == old(self).sync_mode(),
            final(self).memtable_kind() == old(self).memtable_kind(),
            final(self)@ == installed(old(self)@, tx_id, mutation_models(mutations@)),
            r == old(self)@.commit_seq,
            commit_told(*hook, tx_id, mutations@, r),
    {
        let ghost before = self@;
        let ghost ms = mutation_models(mutations@);
        let commit_ts: u64 = self.commit_seq;
        self.commit_seq = commit_ts.wrapping_add(1);
        let _ = self.memtable.apply_mutations_batch(tx_id, mutations, commit_ts);
        run_commit_hooks(hook, tx_id, mutations, commit_ts);
        self.metrics.record_commit();
        if self.watcher.has_subscribers() {
            match self.watcher.publish(tx_id, commit_ts, copy_mutations(mutations)) {
                Some(event) => {
                    let ghost es = event_models(self.events@);
                    self.events.push(event);
                    assert(event_models(self.events@) =~= es.push(event@));
                },
                None => {},
            }
        } else {
            self.watcher.publish_empty(tx_id, commit_ts);
        }
        assert(self@ =~= installed(before, tx_id, ms));
        commit_ts
    }

    /// Commits one transaction under `verdict`, the outcome of its pre-commit
    /// check.
    pub fn commit_single<H: EngineHook>(
        &mut self,
        hook: &H,
        tx_id: u64,
        mutations: &[Mutation],
        verdict: Result<()>,
    ) -> (r: Result<u64>)
        requires
            old(self).wf(),
            mutations@.len() > 0,
        ensures
            final(self).wf(),
            final(self).tuning() == old(self).tuning(),
            final(self).sync_mode() == old(self).sync_mode(),
            final(self).memtable_kind() == old(self).memtable_kind(),
            match verdict {
                Err(e) => r == Err::<u64, EngineError>(e) && final(self)@ == rejected(
                    old(self)@,
                    e,
                ),
                Ok(_) => {
                    &&& commit_outcome(
                        old(self)@,
                        final(self)@,
                        tx_id,
                        mutation_models(mutations@),
                        r,
                    )
                    &&& commit_done(
                        old(self).log_handle(),
                        old(self).sync_mode(),
                        *hook,
                        tx_id,
                        mutations@,
                        r,
                    )
                },
            },
    {
        let ghost before = self@;
        let ghost ms = mutation_models(mutations@);
        let ghost rs = mutation_records(tx_id, ms);
        match verdict {
            Ok(()) => {},
            Err(e) => {
                self.record_rejection(&e);
                return Err(e);
            },
        }
        let appended = match self.sync_mode {
            SyncMode::Full => self.wal.append_mutations_commit_and_sync(tx_id, mutations),
            SyncMode::Group { .. } => {
                let records = build_wal_records(tx_id, mutations);
                let mut group: Vec<(u64, &[WalRecord])> = Vec::new();
                group.push((tx_id, records.as_slice()));
                proof {
                    let gs = group_models(group@);
                    assert(gs =~= seq![(tx_id, rs)]);
                    assert(gs[0].1 == rs);
                    assert(gs.drop_last() =~= Seq::<(u64, Seq<RecordModel>)>::empty());
                    assert(group_bytes(gs.drop_last()) =~= Seq::<u8>::empty());
                    assert(group_bytes(gs) =~= batch_bytes(rs, tx_id));
                    if group_fits(gs) {
                        assert forall|i: int| 0 <= i < rs.len() implies record_fits(
                            #[trigger] rs[i],
                        ) by {
                            assert(record_fits(gs[0].1[i]));
                        }
                    }
                }
                self.wal.append_multi_batch(group.as_slice())
            },
        };
        match appended {
            Ok(bytes) => {
                self.metrics.record_wal_write(bytes);
                assert(self@ =~= logged(before, batch_bytes(rs, tx_id)));
                let commit_ts = self.install(hook, tx_id, mutations);
                self.metrics.set_memtable_bytes(self.memtable.approximate_bytes() as u64);
                assert(self@ =~= committed(before, tx_id, ms));
                Ok(commit_ts)
            },
            Err(e) => {
                proof {
                    let bytes = batch_bytes(rs, tx_id);
                    if tx_fits(tx_id, ms) {
                        let n = choose|n: int|
                            0 <= n <= bytes.len() && self@.log == before.log + #[trigger] bytes.take(
                                n,
                            );
                        assert(self@ =~= (WriteModel {
                            log: before.log + bytes.take(n),
                            ..before
                        }));
                    } else {
                        assert(self@ =~= before);
                    }
                }
                Err(e)
            },
        }
    }

    fn record_rejection(&mut self, e: &EngineError)
        requires
            old(self).wf(),
        ensures
            final(self).wf(),
            final(self).tuning() == old(self).tuning(),
            final(self).sync_mode() == old(self).sync_mode(),
            final(self).memtable_kind() == old(self).memtable_kind(),
            final(self)@ == rejected(old(self)@, *e),
            final(self).wal == old(self).wal,
    {
        self.metrics.record_abort();
        if e.is_conflict() {
            self.metrics.record_ssi_conflict();
        }
        assert(self@ =~= rejected(old(self)@, *e));
    }
}

proof fn lemma_survivors_push(
    ps: Seq<(u64, Seq<MutationModel>)>,
    verdicts: Seq<Result<()>>,
    i: int,
)
    requires
        ps.len() == verdicts.len(),
        0 <= i < ps.len(),
    ensures
        survivors(ps.take(i + 1), verdicts.take(i + 1)) == (if verdicts[i] is Ok {
            survivors(ps.take(i), verdicts.take(i)).push(ps[i])
        } else {
            survivors(ps.take(i), verdicts.take(i))
        }),
        survivors(ps.take(i), verdicts.take(i)).len() == rank(verdicts, i),
        rank(verdicts, i) <= i,
    decreases i,
{
    assert(ps.take(i + 1).drop_last() =~= ps.take(i));
    assert(verdicts.take(i + 1).drop_last() =~= verdicts.take(i));
    if i > 0 {
        lemma_survivors_push(ps, verdicts, i - 1);
    }
}

proof fn lemma_judged_push(c: EngineMetrics, verdicts: Seq<Result<()>>, i: int)
    requires
        0 <= i < verdicts.len(),
    ensures
        judged(c, verdicts.take(i + 1)) == (match verdicts[i] {
            Ok(_) => judged(c, verdicts.take(i)),
            Err(e) => rejected_metrics(judged(c, verdicts.take(i)), e),
        }),
{
    assert(verdicts.take(i + 1).drop_last() =~= verdicts.take(i));
}

proof fn lemma_installed_seq(m: WriteModel, cs: Seq<(u64, Seq<MutationModel>)>)
    requires
        cs.len() < 0x1_0000_0000_0000_0000,
    ensures
        installed_all(m, cs).commit_seq == wrapped(m.commit_seq, cs.len() as u64),
    decreases cs.len(),
{
    if cs.len() > 0 {
        let front = cs.drop_last();
        lemma_installed_seq(m, front);
        assert(installed_all(m, cs).commit_seq == wrapped(installed_all(m, front).commit_seq, 1));
        lemma_wrapped_step(m.commit_seq, front.len() as u64);
    }
}

proof fn lemma_wrapped_step(a: u64, n: u64)
    requires
        n < u64::MAX,
    ensures
        wrapped(wrapped(a, n), 1) == wrapped(a, (n + 1) as u64),
{
}

impl<F: FileIO> Committer<F> {
    /// Commits a batch of pending writes with one append to the log, under
    /// `verdicts`, the outcomes of their pre-commit checks. Writes that were
    /// rejected get their own error; the others are committed in order, or all
    /// fail with the log.
    pub fn flush_pending_batch<H: EngineHook>(
        &mut self,
        hook: &H,
        batch: &[PendingWrite],
        verdicts: Vec<Result<()>>,
    ) -> (r: GroupOutcome)
        requires
            old(self).wf(),
            verdicts@.len() == batch@.len(),
        ensures
            final(self).wf(),
            final(self).tuning() == old(self).tuning(),
            final(self).sync_mode() == old(self).sync_mode(),
            final(self).memtable_kind() == old(self).memtable_kind(),
            group_outcome(old(self)@, final(self)@, pending_models(batch@), verdicts@, r),
            group_done(
                old(self).log_handle(),
                old(self).sync_mode(),
                *hook,
                batch@,
                verdicts@,
                r,
            ),
    {
        let ghost before = self@;
        let ghost ps = pending_models(batch@);
        let ghost vs = verdicts@;
        let n: usize = batch.len();
        assert(n == batch@.len());
        let mut refs: Vec<(u64, &[Mutation])> = Vec::new();
        let mut i: usize = 0;
        proof {
            assert(ps.take(0) =~= Seq::<(u64, Seq<MutationModel>)>::empty());
            assert(group_mutation_models(refs@) =~= records_of(survivors(ps.take(0), vs.take(0))));
        }
        while i < n
            invariant
                i <= n,
                n == batch@.len(),
                n == verdicts@.len(),
                vs == verdicts@,
                ps == pending_models(batch@),
                self.wf(),
                self.tuning() == old(self).tuning(),
                self.sync_mode() == old(self).sync_mode(),
                self.memtable_kind() == old(self).memtable_kind(),
                self@ == (WriteModel {
                    metrics: judged(before.metrics, vs.take(i as int)),
                    ..before
                }),
                self.wal == old(self).wal,
                group_mutation_models(refs@) == records_of(
                    survivors(ps.take(i as int), vs.take(i as int)),
                ),
            decreases n - i,
        {
            proof {
                lemma_survivors_push(ps, vs, i as int);
                lemma_judged_push(before.metrics, vs, i as int);
                assert(ps[i as int] == (
                    batch@[i as int].tx_id,
                    mutation_models(batch@[i as int].mutations@),
                ));
            }
            match &verdicts[i] {
                Ok(()) => {
                    let ghost gs = group_mutation_models(refs@);
                    let ghost cs = survivors(ps.take(i as int), vs.take(i as int));
                    refs.push((batch[i].tx_id, batch[i].mutations.as_slice()));
                    proof {
                        let c = ps[i as int];
                        assert(group_mutation_models(refs@) =~= gs.push(
                            (c.0, mutation_records(c.0, c.1)),
                        ));
                        assert(records_of(cs.push(c)) =~= records_of(cs).push(
                            (c.0, mutation_records(c.0, c.1)),
                        ));
                    }
                },
                Err(e) => {
                    self.record_rejection(e);
                },
            }
            i += 1;
        }
        let ghost cs = survivors(ps, vs);
        let ghost start = self@;
        proof {
            assert(ps.take(n as int) =~= ps);
            assert(vs.take(n as int) =~= vs);
        }
        if refs.len() == 0 {
            assert(records_of(cs).len() == cs.len());
            return self.answer(hook, batch, verdicts, None);
        }
        let appended = match self.sync_mode {
            SyncMode::Full => self.wal.append_multi_mutations_commit_and_sync(refs.as_slice()),
            SyncMode::Group { .. } => self.wal.append_multi_mutations(refs.as_slice()),
        };
        assert(records_of(cs).len() == cs.len());
        match appended {
            Ok(bytes) => {
                self.metrics.record_wal_write(bytes);
                assert(self@ =~= logged(start, group_bytes(records_of(cs))));
                let out = self.answer(hook, batch, verdicts, None);
                self.metrics.set_memtable_bytes(self.memtable.approximate_bytes() as u64);
                assert(self@ =~= measured(
                    installed_all(logged(start, group_bytes(records_of(cs))), cs),
                ));
                out
            },
            Err(e) => {
                proof {
                    let bytes = group_bytes(records_of(cs));
                    if group_fits(records_of(cs)) {
                        let k = choose|k: int|
                            0 <= k <= bytes.len() && self@.log == start.log + #[trigger] bytes.take(
                                k,
                            );
                        assert(self@ =~= (WriteModel { log: start.log + bytes.take(k), ..start }));
                    } else {
                        assert(self@ =~= start);
                    }
                }
                self.answer(hook, batch, verdicts, Some(e))
            },
        }
    }

    /// Answers every pending write: applies the survivors in order, or fails
    /// them with the log.
    fn answer<H: EngineHook>(
        &mut self,
        hook: &H,
        batch: &[PendingWrite],
        verdicts: Vec<Result<()>>,
        failure: Option<EngineError>,
    ) -> (r: GroupOutcome)
        requires
            old(self).wf(),
            verdicts@.len() == batch@.len(),
        ensures
            final(self).wf(),
            final(self).tuning() == old(self).tuning(),
            final(self).sync_mode() == old(self).sync_mode(),
            final(self).memtable_kind() == old(self).memtable_kind(),
            r.failure == failure,
            r.results@.len() == batch@.len(),
            group_told(*hook, batch@, r.results@),
            forall|i: int|
                0 <= i < batch@.len() ==> (verdicts@[i] matches Err(e) ==> #[trigger] r.results@[i]
                    == Err::<u64, EngineError>(e)),
            failure is None ==> final(self)@ == installed_all(
                old(self)@,
                survivors(pending_models(batch@), verdicts@),
            ),
            failure is None ==> forall|i: int|
                0 <= i < batch@.len() && verdicts@[i] is Ok ==> #[trigger] r.results@[i] == Ok::<
                    u64,
                    EngineError,
                >(wrapped(old(self)@.commit_seq, rank(verdicts@, i) as u64)),
            failure matches Some(f) ==> final(self)@ == old(self)@ && forall|i: int|
                0 <= i < batch@.len() && verdicts@[i] is Ok ==> is_log_failure(
                    #[trigger] r.results@[i],
                    f,
                ),
    {
        let ghost before = self@;
        let ghost ps = pending_models(batch@);
        let ghost vs = verdicts@;
        let n: usize = batch.len();
        assert(n == batch@.len());
        let mut text: String = "WAL append failed: ".to_owned();
        match &failure {
            Some(e) => {
                let rest = e.message();
                text.append(rest.as_str());
                proof {
                    let front = "WAL append failed: "@;
                    if e is Io {
                        let whole = front + e.text();
                        assert(whole =~= text@.take(whole.len() as int)) by {
                            assert(e.text() =~= rest@.take(e.text().len() as int));
                        }
                        assert(whole.is_prefix_of(text@));
                    }
                }
            },
            None => {},
        }
        let mut rest: Vec<Result<()>> = verdicts;
        let mut results: Vec<Result<u64>> = Vec::new();
        let mut i: usize = 0;
        proof {
            assert(ps.take(0) =~= Seq::<(u64, Seq<MutationModel>)>::empty());
            assert(vs.skip(0) =~= vs);
        }
        while i < n
            invariant
                i <= n,
                n == batch@.len(),
                n == vs.len(),
                rest@ == vs.skip(i as int),
                ps == pending_models(batch@),
                results@.len() == i,
                group_told(*hook, batch@, results@),
                self.wf(),
                self.tuning() == old(self).tuning(),
                self.sync_mode() == old(self).sync_mode(),
                self.memtable_kind() == old(self).memtable_kind(),
                before == old(self)@,
                failure matches Some(f) ==> is_log_failure(
                    Err::<u64, EngineError>(EngineError::CorruptMessage(text)),
                    f,
                ),
                failure is Some ==> self@ == before,
                failure is None ==> self@ == installed_all(
                    before,
                    survivors(ps.take(i as int), vs.take(i as int)),
                ),
                forall|j: int|
                    0 <= j < i ==> (vs[j] matches Err(e) ==> #[trigger] results@[j] == Err::<
                        u64,
                        EngineError,
                    >(e)),
                failure is None ==> forall|j: int|
                    0 <= j < i && vs[j] is Ok ==> #[trigger] results@[j] == Ok::<u64, EngineError>(
                        wrapped(before.commit_seq, rank(vs, j) as u64),
                    ),
                failure matches Some(f) ==> forall|j: int|
                    0 <= j < i && vs[j] is Ok ==> is_log_failure(#[trigger] results@[j], f),
            decreases n - i,
        {
            let verdict = rest.remove(0);
            proof {
                lemma_survivors_push(ps, vs, i as int);
                assert(verdict == vs[i as int]);
                assert(rest@ =~= vs.skip(i + 1));
                assert(ps[i as int] == (
                    batch@[i as int].tx_id,
                    mutation_models(batch@[i as int].mutations@),
                ));
            }
            match verdict {
                Err(e) => {
                    results.push(Err(e));
                },
                Ok(()) => {
                    match &failure {
                        None => {
                            let ghost cs = survivors(ps.take(i as int), vs.take(i as int));
                            proof {
                                lemma_installed_seq(before, cs);
                                assert(cs.push(ps[i as int]).drop_last() =~= cs);
                            }
                            let ts = self.install(
                                hook,
                                batch[i].tx_id,
                                batch[i].mutations.as_slice(),
                            );
                            results.push(Ok(ts));
                        },
                        Some(_) => {
                            let copy = text.clone();
                            results.push(Err(EngineError::CorruptMessage(copy)));
                        },
                    }
                },
            }
            i += 1;
        }
        proof {
            assert(ps.take(n as int) =~= ps);
            assert(vs.take(n as int) =~= vs);
        }
        GroupOutcome { results, failure }
    }
}

/// Reserving, rejecting and committing never takes a commit sequence number
/// back: below the largest number, every commit gets one that is greater than
/// all before it, and what was not committed gets none.
pub proof fn law_commits_ascend(m: WriteModel, tx_id: u64, ms: Seq<MutationModel>, e: EngineError)
    ensures
        m.commit_seq < u64::MAX ==> committed(m, tx_id, ms).commit_seq == m.commit_seq + 1,
        rejected(m, e).commit_seq == m.commit_seq,
        reserved(m, tx_id).commit_seq == m.commit_seq,
        reserved(m, tx_id).next_tx_id >= m.next_tx_id,
        tx_id < u64::MAX ==> reserved(m, tx_id).next_tx_id > tx_id,
{
}

/// After transactions were committed one after the other.
pub open spec fn committed_all(m: WriteModel, cs: Seq<(u64, Seq<MutationModel>)>) -> WriteModel
    decreases cs.len(),
{
    if cs.len() == 0 {
        m
    } else {
        committed(committed_all(m, cs.drop_last()), cs.last().0, cs.last().1)
    }
}

/// The two differ in nothing but their counters.
pub open spec fn same_but_counters(a: WriteModel, b: WriteModel) -> bool {
    a == (WriteModel { metrics: a.metrics, ..b })
}

/// Applying transactions neither reads nor writes the log and the counters of
/// the log.
proof fn lemma_installed_all_apart(a: WriteModel, b: WriteModel, cs: Seq<(u64, Seq<MutationModel>)>)
    requires
        a == (WriteModel { log: a.log, metrics: a.metrics, ..b }),
    ensures
        ({
            let x = installed_all(a, cs);
            let y = installed_all(b, cs);
            &&& x == (WriteModel { log: x.log, metrics: x.metrics, ..y })
            &&& x.log == a.log
        }),
    decreases cs.len(),
{
    if cs.len() > 0 {
        lemma_installed_all_apart(a, b, cs.drop_last());
    }
}

/// A group commit comes to what committing its transactions one after the
/// other comes to, but for the counters.
pub proof fn law_group_is_sequential(m: WriteModel, cs: Seq<(u64, Seq<MutationModel>)>)
    requires
        forall|i: int| 0 <= i < cs.len() ==> (#[trigger] cs[i]).1.len() > 0,
    ensures
        same_but_counters(
            measured(installed_all(logged(m, group_bytes(records_of(cs))), cs)),
            committed_all(m, cs),
        ),
    decreases cs.len(),
{
    let bytes = group_bytes(records_of(cs));
    if cs.len() == 0 {
        assert(m.log + bytes =~= m.log);
    } else {
        let front = cs.drop_last();
        let (tx_id, ms) = cs.last();
        let rs = mutation_records(tx_id, ms);
        let head = group_bytes(records_of(front));
        assert forall|i: int| 0 <= i < front.len() implies (#[trigger] front[i]).1.len() > 0 by {
            assert(front[i] == cs[i]);
        }
        law_group_is_sequential(m, front);
        assert(cs[cs.len() - 1].1.len() > 0);
        assert(records_of(cs).drop_last() =~= records_of(front));
        assert(records_of(cs).last() == (tx_id, rs));
        assert(bytes == head + batch_bytes(rs, tx_id));
        lemma_installed_all_apart(logged(m, bytes), logged(m, head), front);
        assert(m.log + bytes =~= (m.log + head) + batch_bytes(rs, tx_id));
        lemma_installed_all_apart(logged(m, head), logged(m, head), front);
    }
}

/// What watchers know to be resolved is always committed: a commit resolves
/// itself, and nothing else resolves anything.
pub proof fn law_resolved_is_committed(
    m: WriteModel,
    tx_id: u64,
    ms: Seq<MutationModel>,
    e: EngineError,
)
    requires
        m.resolved <= snapshot_of(m),
        0 < m.commit_seq < u64::MAX,
    ensures
        ({
            let done = committed(m, tx_id, ms);
            done.resolved == snapshot_of(done) && done.resolved == m.commit_seq
        }),
        rejected(m, e).resolved == m.resolved,
        reserved(m, tx_id).resolved == m.resolved,
{
}

/// The write path is in order: chains have no gaps, and every version was
/// committed under a number that is already taken.
pub open spec fn in_step(m: WriteModel) -> bool {
    &&& m.commit_seq > 0
    &&& chains_contiguous(m.chains)
    &&& none_after(m.chains, (m.commit_seq - 1) as u64)
}

/// A commit keeps the write path in order.
pub proof fn law_commit_keeps_step(m: WriteModel, tx_id: u64, ms: Seq<MutationModel>)
    requires
        in_step(m),
        m.commit_seq < u64::MAX,
    ensures
        in_step(committed(m, tx_id, ms)),
{
    let rs = mutation_records(tx_id, ms);
    law_apply_keeps_contiguous(m.chains, rs, m.commit_seq);
    assert(none_after(m.chains, m.commit_seq)) by {
        assert forall|k: Seq<u8>, i: int|
            m.chains.contains_key(k) && 0 <= i < m.chains[k].len() implies (
        #[trigger] m.chains[k][i]).begin_ts <= m.commit_seq by {}
    }
    lemma_apply_none_after(m.chains, rs, m.commit_seq);
}

/// What a committed transaction wrote is what every reader at or after its
/// commit sees in the memtable, and readers before it see what they saw.
pub proof fn law_commit_is_read_back(
    m: WriteModel,
    tx_id: u64,
    ms: Seq<MutationModel>,
    key: Seq<u8>,
    ts: u64,
)
    requires
        in_step(m),
        m.commit_seq < u64::MAX,
        ts < OPEN_ENDED_TS,
    ensures
        ({
            let rs = mutation_records(tx_id, ms);
            let before = chains_read(m.chains, key, ts);
            let after = chains_read(committed(m, tx_id, ms).chains, key, ts);
            &&& ts >= m.commit_seq ==> match last_write(rs, key) {
                Some(w) => {
                    &&& after matches Some(v)
                    &&& v.value == written_value(w)
                    &&& v.begin_ts == m.commit_seq
                    &&& v.tx_id == tx_id
                },
                None => after == before,
            }
            &&& ts < m.commit_seq ==> match before {
                Some(v) => {
                    &&& after matches Some(w)
                    &&& w.value == v.value
                    &&& w.begin_ts == v.begin_ts
                    &&& w.tx_id == v.tx_id
                },
                None => after is None,
            }
        }),
{
    let rs = mutation_records(tx_id, ms);
    if ts >= m.commit_seq {
        assert(none_after(m.chains, m.commit_seq)) by {
            assert forall|k: Seq<u8>, i: int|
                m.chains.contains_key(k) && 0 <= i < m.chains[k].len() implies (
            #[trigger] m.chains[k][i]).begin_ts <= m.commit_seq by {}
        }
        law_apply_is_read_back(m.chains, rs, m.commit_seq, key, ts);
        lemma_last_write_tx(tx_id, ms, key, ms.len() as int);
        assert(rs.take(ms.len() as int) =~= rs);
    } else {
        law_apply_keeps_earlier_reads(m.chains, rs, m.commit_seq, key, ts);
    }
}

proof fn lemma_last_write_tx(tx_id: u64, ms: Seq<MutationModel>, key: Seq<u8>, n: int)
    requires
        0 <= n <= ms.len(),
    ensures
        last_write(mutation_records(tx_id, ms).take(n), key) matches Some(w) ==> w.tx_id == tx_id,
    decreases n,
{
    if n > 0 {
        let rs = mutation_records(tx_id, ms);
        assert(rs.take(n).drop_last() =~= rs.take(n - 1));
        lemma_last_write_tx(tx_id, ms, key, n - 1);
    }
}

impl<F: FileIO> Committer<F> {
    /// Allocates a transaction id. Zero is never handed out: after the largest
    /// id comes one.
    pub fn alloc_tx_id(&mut self) -> (r: u64)
        requires
            old(self).wf(),
        ensures
            final(self).wf(),
            final(self).tuning() == old(self).tuning(),
            final(self).sync_mode() == old(self).sync_mode(),
            final(self).memtable_kind() == old(self).memtable_kind(),
            final(self).log_handle() == old(self).log_handle(),
            r > 0,
            r == (if old(self)@.next_tx_id == 0 {
                1
            } else {
                old(self)@.next_tx_id
            }),
            final(self)@ == (WriteModel { next_tx_id: wrapped(r, 1), ..old(self)@ }),
    {
        let start: u64 = if self.next_tx_id == 0 {
            1
        } else {
            self.next_tx_id
        };
        self.next_tx_id = start.wrapping_add(1);
        assert(self@ =~= (WriteModel { next_tx_id: wrapped(start, 1), ..old(self)@ }));
        start
    }

    /// Returns how hard the memtable presses on writers now.
    pub fn throttle_level(&self) -> (r: ThrottleLevel)
        ensures
            r == level_of(self.tuning(), self@.metrics.memtable_bytes),
    {
        self.throttle.should_throttle(&self.metrics.snapshot())
    }

    /// Returns the milliseconds for which a softly throttled writer sleeps.
    pub fn soft_sleep(&self) -> (r: u64)
        ensures
            r == self.tuning().soft_sleep_millis,
    {
        self.throttle.soft_sleep()
    }

    /// Accepts a write under `tx_id`: the id is reserved, and the writer learns
    /// how hard it is throttled. An empty batch, the id 0 and a memtable that
    /// is nearly full turn it away.
    pub fn accept(&mut self, tx_id: u64, mutations: &[Mutation]) -> (r: Result<ThrottleLevel>)
        requires
            old(self).wf(),
        ensures
            final(self).wf(),
            final(self).tuning() == old(self).tuning(),
            final(self).sync_mode() == old(self).sync_mode(),
            final(self).memtable_kind() == old(self).memtable_kind(),
            if mutations@.len() == 0 {
                final(self)@ == old(self)@ && r == Err::<ThrottleLevel, EngineError>(
                    EngineError::EmptyBatch,
                )
            } else if tx_id == 0 {
                final(self)@ == old(self)@ && (r matches Err(e) && e.is_corrupt(
                    "tx_id 0 is reserved as sentinel",
                ))
            } else {
                let level = level_of(old(self).tuning(), old(self)@.metrics.memtable_bytes);
                &&& final(self).log_handle() == old(self).log_handle()
                &&& final(self)@ == reserved(old(self)@, tx_id)
                &&& r == (if level == ThrottleLevel::Hard {
                    Err::<ThrottleLevel, EngineError>(EngineError::Throttled)
                } else {
                    Ok::<ThrottleLevel, EngineError>(level)
                })
            },
    {
        if mutations.len() == 0 {
            return Err(EngineError::EmptyBatch);
        }
        if tx_id == 0 {
            return Err(EngineError::Corrupt("tx_id 0 is reserved as sentinel"));
        }
        let target: u64 = tx_id.saturating_add(1);
        if target > self.next_tx_id {
            self.next_tx_id = target;
        }
        assert(self@ =~= reserved(old(self)@, tx_id));
        match self.throttle_level() {
            ThrottleLevel::Hard => Err(EngineError::Throttled),
            level => Ok(level),
        }
    }

    /// Commits `mutations` under the transaction id `tx_id` and returns the
    /// commit sequence number, not the id. A softly throttled caller sleeps
    /// before the call; a hard throttle rejects it.
    pub fn write_with_tx<H: EngineHook>(
        &mut self,
        hook: &H,
        tx_id: u64,
        mutations: &[Mutation],
    ) -> (r: Result<u64>)
        requires
            old(self).wf(),
        ensures
            final(self).wf(),
            final(self).tuning() == old(self).tuning(),
            final(self).sync_mode() == old(self).sync_mode(),
            final(self).memtable_kind() == old(self).memtable_kind(),
            hooked_outcome(
                *hook,
                old(self).log_handle(),
                old(self).sync_mode(),
                old(self)@,
                final(self)@,
                old(self).tuning(),
                tx_id,
                mutations@,
                r,
            ),
    {
        let ghost ms = mutation_models(mutations@);
        match self.accept(tx_id, mutations) {
            Ok(_) => {},
            Err(e) => {
                let ghost unasked: Result<()> = Ok(());
                assert(write_outcome(
                    old(self)@,
                    self@,
                    old(self).tuning(),
                    tx_id,
                    ms,
                    unasked,
                    Err(e),
                ));
                return Err(e);
            },
        }
        let verdict = hook.on_pre_commit(tx_id, mutations);
        let ghost answer = verdict;
        assert(may_answer(*hook, tx_id, mutations@, answer));
        let r = self.commit_single(hook, tx_id, mutations, verdict);
        assert(write_outcome(old(self)@, self@, old(self).tuning(), tx_id, ms, answer, r));
        r
    }

    /// Commits a non-empty batch under a fresh transaction id and returns the
    /// commit sequence number.
    pub fn write<H: EngineHook>(&mut self, hook: &H, mutations: &[Mutation]) -> (r: Result<u64>)
        requires
            old(self).wf(),
        ensures
            final(self).wf(),
            final(self).tuning() == old(self).tuning(),
            final(self).sync_mode() == old(self).sync_mode(),
            final(self).memtable_kind() == old(self).memtable_kind(),
            mutations@.len() == 0 ==> final(self)@ == old(self)@ && r == Err::<u64, EngineError>(
                EngineError::EmptyBatch,
            ),
            mutations@.len() > 0 ==> ({
                let tx_id = if old(self)@.next_tx_id == 0 {
                    1
                } else {
                    old(self)@.next_tx_id
                };
                let before = WriteModel { next_tx_id: wrapped(tx_id, 1), ..old(self)@ };
                hooked_outcome(
                    *hook,
                    old(self).log_handle(),
                    old(self).sync_mode(),
                    before,
                    final(self)@,
                    old(self).tuning(),
                    tx_id,
                    mutations@,
                    r,
                )
            }),
    {
        if mutations.len() == 0 {
            return Err(EngineError::EmptyBatch);
        }
        let tx_id = self.alloc_tx_id();
        self.write_with_tx(hook, tx_id, mutations)
    }

    /// Runs the pre-commit check of every pending write, in order, and commits
    /// those that pass as one group.
    pub fn commit_pending<H: EngineHook>(&mut self, hook: &H, batch: &[PendingWrite]) -> (r:
        GroupOutcome)
        requires
            old(self).wf(),
        ensures
            final(self).wf(),
            final(self).tuning() == old(self).tuning(),
            final(self).sync_mode() == old(self).sync_mode(),
            final(self).memtable_kind() == old(self).memtable_kind(),
            exists|verdicts: Seq<Result<()>>|
                may_judge(*hook, batch@, verdicts) && #[trigger] group_outcome(
                    old(self)@,
                    final(self)@,
                    pending_models(batch@),
                    verdicts,
                    r,
                ) && group_done(
                    old(self).log_handle(),
                    old(self).sync_mode(),
                    *hook,
                    batch@,
                    verdicts,
                    r,
                ),
    {
        let mut verdicts: Vec<Result<()>> = Vec::new();
        let mut i: usize = 0;
        while i < batch.len()
            invariant
                i <= batch@.len(),
                verdicts@.len() == i,
                forall|j: int|
                    #![trigger verdicts@[j]]
                    0 <= j < i ==> may_answer(
                        *hook,
                        batch@[j].tx_id,
                        batch@[j].mutations@,
                        verdicts@[j],
                    ),
            decreases batch@.len() - i,
        {
            let verdict = hook.on_pre_commit(batch[i].tx_id, batch[i].mutations.as_slice());
            assert(may_answer(
                *hook,
                batch@[i as int].tx_id,
                batch@[i as int].mutations@,
                verdict,
            ));
            verdicts.push(verdict);
            i += 1;
        }
        self.flush_pending_batch(hook, batch, verdicts)
    }
}

/// What a write comes to under `verdict`, the outcome of its pre-commit check.
/// A rejected write leaves nothing behind but its count.
pub open spec fn write_outcome(
    before: WriteModel,
    after: WriteModel,
    tuning: PressureConfig,
    tx_id: u64,
    ms: Seq<MutationModel>,
    verdict: Result<()>,
    r: Result<u64>,
) -> bool {
    if ms.len() == 0 {
        after == before && r == Err::<u64, EngineError>(EngineError::EmptyBatch)
    } else if tx_id == 0 {
        after == before && (r matches Err(e) && e.is_corrupt("tx_id 0 is reserved as sentinel"))
    } else {
        let start = reserved(before, tx_id);
        if level_of(tuning, before.metrics.memtable_bytes) == ThrottleLevel::Hard {
            after == start && r == Err::<u64, EngineError>(EngineError::Throttled)
        } else {
            match verdict {
                Ok(_) => commit_outcome(start, after, tx_id, ms, r),
                Err(e) => r == Err::<u64, EngineError>(e) && after == rejected(start, e),
            }
        }
    }
}

/// The pre-commit check of a write is asked: the write is neither empty nor
/// without an id, and not throttled hard.
pub open spec fn reaches_hook(before: WriteModel, tuning: PressureConfig, tx_id: u64, n: nat) -> bool {
    &&& n > 0
    &&& tx_id > 0
    &&& level_of(tuning, before.metrics.memtable_bytes) != ThrottleLevel::Hard
}

/// What a write may come to, whatever the hook answers where it is asked.
pub open spec fn hooked_outcome<F: FileIO, H: EngineHook>(
    hook: H,
    log: F,
    mode: SyncMode,
    before: WriteModel,
    after: WriteModel,
    tuning: PressureConfig,
    tx_id: u64,
    mutations: Seq<Mutation>,
    r: Result<u64>,
) -> bool {
    exists|verdict: Result<()>|
        {
            &&& #[trigger] write_outcome(
                before,
                after,
                tuning,
                tx_id,
                mutation_models(mutations),
                verdict,
                r,
            )
            &&& reaches_hook(before, tuning, tx_id, mutations.len()) ==> {
                &&& may_answer(hook, tx_id, mutations, verdict)
                &&& verdict is Ok ==> commit_done(log, mode, hook, tx_id, mutations, r)
            }
        }
}

/// The verdicts are answers that the hook may give to the pending writes.
pub open spec fn may_judge<H: EngineHook>(
    hook: H,
    batch: Seq<PendingWrite>,
    verdicts: Seq<Result<()>>,
) -> bool {
    &&& verdicts.len() == batch.len()
    &&& forall|i: int|
        #![trigger verdicts[i]]
        0 <= i < batch.len() ==> may_answer(
            hook,
            batch[i].tx_id,
            batch[i].mutations@,
            verdicts[i],
        )
}

/// The newest committed sequence number.
pub open spec fn snapshot_of(m: WriteModel) -> u64 {
    if m.commit_seq == 0 {
        0
    } else {
        (m.commit_seq - 1) as u64
    }
}

/// After the memtable was emptied.
pub open spec fn emptied(m: WriteModel) -> WriteModel {
    WriteModel {
        chains: Map::empty(),
        bytes: 0,
        metrics: EngineMetrics { memtable_bytes: 0, ..m.metrics },
        ..m
    }
}

impl<F: FileIO> Committer<F> {
    /// Lends the memtable.
    pub fn memtable(&self) -> (r: &MemTable)
        requires
            self.wf(),
        ensures
            r.wf(),
            r.chains() == self@.chains,
            r.size() == self@.bytes,
    {
        &self.memtable
    }

    /// Lends the counters.
    pub fn metrics(&self) -> (r: &EngineMetrics)
        ensures
            *r == self@.metrics,
    {
        &self.metrics
    }

    /// Lends the commit-progress watcher.
    pub fn watcher(&self) -> (r: &Watcher)
        ensures
            r.resolved() == self@.resolved,
            r.listeners() == self@.listeners,
    {
        &self.watcher
    }

    /// Sets the number of event subscribers.
    pub fn set_subscribers(&mut self, subscribers: usize)
        requires
            old(self).wf(),
        ensures
            final(self).wf(),
            final(self).tuning() == old(self).tuning(),
            final(self).sync_mode() == old(self).sync_mode(),
            final(self).memtable_kind() == old(self).memtable_kind(),
            final(self)@ == (WriteModel { listeners: subscribers, ..old(self)@ }),
    {
        self.watcher.set_subscribers(subscribers);
        assert(self@ =~= (WriteModel { listeners: subscribers, ..old(self)@ }));
    }

    /// Hands out the events that wait for delivery, oldest first.
    pub fn take_events(&mut self) -> (r: Vec<WatchEvent>)
        requires
            old(self).wf(),
        ensures
            final(self).wf(),
            final(self).tuning() == old(self).tuning(),
            final(self).sync_mode() == old(self).sync_mode(),
            final(self).memtable_kind() == old(self).memtable_kind(),
            event_models(r@) == old(self)@.events,
            final(self)@ == (WriteModel { events: Seq::empty(), ..old(self)@ }),
    {
        let mut out: Vec<WatchEvent> = Vec::new();
        std::mem::swap(&mut out, &mut self.events);
        assert(self@ =~= (WriteModel { events: Seq::empty(), ..old(self)@ }));
        out
    }

    /// Returns the newest committed sequence number.
    pub fn snapshot_ts(&self) -> (r: u64)
        ensures
            r == snapshot_of(self@),
    {
        self.commit_seq.saturating_sub(1)
    }

    /// Copies every version of the memtable, by key and newest first.
    pub fn rows(&self) -> (r: Vec<VersionedRow>)
        requires
            self.wf(),
        ensures
            row_models(r@) == table_rows(self@.chains),
            lists_keys(sorted_keys(self@.chains.dom()), self@.chains.dom()),
    {
        let mut rows: Vec<VersionedRow> = Vec::new();
        self.memtable.drain_into(&mut rows);
        assert(row_models(rows@) =~= table_rows(self@.chains));
        rows
    }

    /// Empties the memtable.
    pub fn clear_memtable(&mut self)
        requires
            old(self).wf(),
        ensures
            final(self).wf(),
            final(self).tuning() == old(self).tuning(),
            final(self).sync_mode() == old(self).sync_mode(),
            final(self).memtable_kind() == old(self).memtable_kind(),
            final(self).log_handle() == old(self).log_handle(),
            final(self)@ == emptied(old(self)@),
    {
        self.memtable.clear();
        self.metrics.set_memtable_bytes(0);
        assert(self@ =~= emptied(old(self)@));
    }

    /// Empties a log of `size` bytes where it has grown beyond `max_size`.
    pub fn truncate_log_of(&mut self, size: u64, max_size: u64) -> (r: Result<()>)
        requires
            old(self).wf(),
        ensures
            final(self).wf(),
            final(self).tuning() == old(self).tuning(),
            final(self).sync_mode() == old(self).sync_mode(),
            final(self).memtable_kind() == old(self).memtable_kind(),
            size <= max_size ==> r is Ok && final(self)@ == old(self)@,
            size > max_size && r is Ok ==> final(self)@ == (WriteModel {
                log: Seq::empty(),
                ..old(self)@
            }),
            size > max_size ==> emptying(old(self).log_handle(), r is Ok),
            r matches Err(e) ==> {
                &&& e is Io
                &&& final(self)@ == old(self)@ || final(self)@ == (WriteModel {
                    log: Seq::empty(),
                    ..old(self)@
                })
            },
    {
        if size > max_size {
            match self.wal.reset() {
                Ok(()) => {
                    assert(self@ =~= (WriteModel { log: Seq::empty(), ..old(self)@ }));
                },
                Err(e) => {
                    assert(self@ =~= old(self)@ || self@ =~= (WriteModel {
                        log: Seq::empty(),
                        ..old(self)@
                    }));
                    return Err(e);
                },
            }
        }
        Ok(())
    }

    /// Empties the log where it has grown beyond `max_size` bytes. A log whose
    /// size cannot be read counts as empty and is kept.
    pub fn truncate_log(&mut self, max_size: u64) -> (r: Result<()>)
        requires
            old(self).wf(),
        ensures
            final(self).wf(),
            final(self).tuning() == old(self).tuning(),
            final(self).sync_mode() == old(self).sync_mode(),
            final(self).memtable_kind() == old(self).memtable_kind(),
            exists|read: bool| #[trigger]
                may_read(old(self).log_handle(), read) && if read && old(self)@.log.len()
                    > max_size {
                    &&& r is Ok ==> final(self)@.log == Seq::<u8>::empty()
                    &&& exists|io: F| #[trigger]
                        same_reach(io, old(self).log_handle()) && emptying(io, r is Ok)
                } else {
                    r is Ok && final(self)@ == old(self)@
                },
            final(self)@ == old(self)@ || final(self)@ == (WriteModel {
                log: Seq::empty(),
                ..old(self)@
            }),
            r matches Err(e) ==> e is Io,
    {
        let size: u64 = self.wal.current_size();
        assert(self@ =~= old(self)@);
        assert(same_reach(self.log_handle(), old(self).log_handle()));
        self.truncate_log_of(size, max_size)
    }

    /// Makes what was logged durable.
    pub fn sync_log(&mut self) -> (r: Result<()>)
        requires
            old(self).wf(),
        ensures
            final(self).wf(),
            final(self).tuning() == old(self).tuning(),
            final(self).sync_mode() == old(self).sync_mode(),
            final(self).memtable_kind() == old(self).memtable_kind(),
            final(self)@ == old(self)@,
            may_sync(old(self).log_handle(), r is Ok),
            r matches Err(e) ==> e is Io,
    {
        let r = self.wal.sync_data();
        assert(self@ =~= old(self)@);
        r
    }

    /// Drops the memtable versions that no reader at or after `watermark` sees
    /// and returns their number.
    pub fn garbage_collect(&mut self, watermark: u64) -> (r: usize)
        requires
            old(self).wf(),
        ensures
            final(self).wf(),
            final(self).tuning() == old(self).tuning(),
            final(self).sync_mode() == old(self).sync_mode(),
            final(self).memtable_kind() == old(self).memtable_kind(),
            final(self)@ == (WriteModel {
                chains: chains_gc(old(self)@.chains, watermark),
                ..old(self)@
            }),
            r == gc_dropped(
                sorted_keys(old(self)@.chains.dom()),
                old(self)@.chains,
                watermark,
            ),
    {
        let r = self.memtable.garbage_collect(watermark);
        assert(self@ =~= (WriteModel {
            chains: chains_gc(old(self)@.chains, watermark),
            ..old(self)@
        }));
        r
    }

    /// Removes every key that begins with `prefix` from the memtable and
    /// returns the number of keys.
    pub fn erase_prefix(&mut self, prefix: &[u8]) -> (r: usize)
        requires
            old(self).wf(),
        ensures
            final(self).wf(),
            final(self).tuning() == old(self).tuning(),
            final(self).sync_mode() == old(self).sync_mode(),
            final(self).memtable_kind() == old(self).memtable_kind(),
            ({
                let gone = keys_with(old(self)@.chains.dom(), prefix@);
                &&& final(self)@ == (WriteModel {
                    chains: old(self)@.chains.remove_keys(gone),
                    ..old(self)@
                })
                &&& r == sorted_keys(gone).len()
            }),
    {
        let r = self.memtable.erase_prefix(prefix);
        let ghost gone = keys_with(old(self)@.chains.dom(), prefix@);
        assert(self@ =~= (WriteModel {
            chains: old(self)@.chains.remove_keys(gone),
            ..old(self)@
        }));
        r
    }

    /// Counts an SST that could not be read.
    pub fn record_sst_read_failure(&mut self)
        requires
            old(self).wf(),
        ensures
            final(self).wf(),
            final(self).tuning() == old(self).tuning(),
            final(self).sync_mode() == old(self).sync_mode(),
            final(self).memtable_kind() == old(self).memtable_kind(),
            final(self)@ == (WriteModel {
                metrics: EngineMetrics {
                    sst_read_failures: wrapped(old(self)@.metrics.sst_read_failures, 1),
                    ..old(self)@.metrics
                },
                ..old(self)@
            }),
    {
        self.metrics.record_sst_read_failure();
    }

    /// Counts a flush that wrote `bytes` bytes.
    pub fn record_flush(&mut self, bytes: u64)
        requires
            old(self).wf(),
        ensures
            final(self).wf(),
            final(self).tuning() == old(self).tuning(),
            final(self).sync_mode() == old(self).sync_mode(),
            final(self).memtable_kind() == old(self).memtable_kind(),
            final(self)@ == (WriteModel {
                metrics: EngineMetrics {
                    flush_count: wrapped(old(self)@.metrics.flush_count, 1),
                    sst_bytes_written: wrapped(old(self)@.metrics.sst_bytes_written, bytes),
                    ..old(self)@.metrics
                },
                ..old(self)@
            }),
    {
        self.metrics.record_flush();
        self.metrics.record_sst_write(bytes);
    }

    /// Counts a compaction.
    pub fn record_compaction(&mut self)
        requires
            old(self).wf(),
        ensures
            final(self).wf(),
            final(self).tuning() == old(self).tuning(),
            final(self).sync_mode() == old(self).sync_mode(),
            final(self).memtable_kind() == old(self).memtable_kind(),
            final(self)@ == (WriteModel {
                metrics: EngineMetrics {
                    compaction_count: wrapped(old(self)@.metrics.compaction_count, 1),
                    ..old(self)@.metrics
                },
                ..old(self)@
            }),
    {
        self.metrics.record_compaction();
    }

    /// Counts versions that the background collection dropped.
    pub fn record_gc_versions_dropped(&mut self, count: u64)
        requires
            old(self).wf(),
        ensures
            final(self).wf(),
            final(self).tuning() == old(self).tuning(),
            final(self).sync_mode() == old(self).sync_mode(),
            final(self).memtable_kind() == old(self).memtable_kind(),
            final(self)@ == (WriteModel {
                metrics: EngineMetrics {
                    gc_versions_dropped: wrapped(old(self)@.metrics.gc_versions_dropped, count),
                    ..old(self)@.metrics
                },
                ..old(self)@
            }),
    {
        self.metrics.record_gc_versions_dropped(count);
    }

    /// Counts a panic of the compaction worker.
    pub fn record_compaction_panic(&mut self)
        requires
            old(self).wf(),
        ensures
            final(self).wf(),
            final(self).tuning() == old(self).tuning(),
            final(self).sync_mode() == old(self).sync_mode(),
            final(self).memtable_kind() == old(self).memtable_kind(),
            final(self)@ == (WriteModel {
                metrics: EngineMetrics {
                    compaction_panics: wrapped(old(self)@.metrics.compaction_panics, 1),
                    ..old(self)@.metrics
                },
                ..old(self)@
            }),
    {
        self.metrics.record_compaction_panic();
    }
}

} // verus!
