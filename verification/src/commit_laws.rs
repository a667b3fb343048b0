//! What a commit does: which write of a key wins, what is logged and counted, and
//! what a refused write leaves behind.

use crate::buf::bytes_view;
use crate::chain_store::chains_read;
use crate::committer::{
    committed, group_outcome, in_step, installed_all, judged, law_commit_is_read_back, logged,
    pending_models, rank, records_of, survivors, Committer, GroupOutcome, PendingWrite, WriteModel,
};
use crate::error::{EngineError, Result};
use crate::file_io::FileIO;
use crate::hook::{told_of, EngineHook};
use crate::memtable::{last_write, size_after_all};
use crate::metrics::{wrapped, EngineMetrics};
use crate::mutation::{mutation_models, Mutation, MutationModel};
use crate::pressure::RATIO_ONE;
use crate::version::OPEN_ENDED_TS;
use crate::wal::{batch_bytes, group_bytes, mutation_records, OpType, RecordModel};
use crate::watch::EventModel;
use vstd::prelude::*;

verus! {

/// The last record of a list that writes a key is the one behind which none writes
/// it; where there is none, no record writes it.
pub proof fn law_last_write_is_the_last(rs: Seq<RecordModel>, key: Seq<u8>, i: int)
    requires
        0 <= i < rs.len(),
        rs[i].key == key,
        rs[i].op == OpType::Put || rs[i].op == OpType::Delete,
        forall|j: int| i < j < rs.len() ==> (#[trigger] rs[j]).key != key,
    ensures
        last_write(rs, key) == Some(rs[i]),
    decreases rs.len(),
{
    if i < rs.len() - 1 {
        let init = rs.drop_last();
        assert(rs.last() == rs[rs.len() - 1]);
        assert forall|j: int| i < j < init.len() implies (#[trigger] init[j]).key != key by {
            assert(init[j] == rs[j]);
        }
        law_last_write_is_the_last(init, key, i);
    }
}

pub proof fn lemma_no_write(rs: Seq<RecordModel>, key: Seq<u8>)
    requires
        forall|j: int| 0 <= j < rs.len() ==> (#[trigger] rs[j]).key != key,
    ensures
        last_write(rs, key) is None,
    decreases rs.len(),
{
    if rs.len() > 0 {
        let init = rs.drop_last();
        assert(rs.last() == rs[rs.len() - 1]);
        assert forall|j: int| 0 <= j < init.len() implies (#[trigger] init[j]).key != key by {
            assert(init[j] == rs[j]);
        }
        lemma_no_write(init, key);
    }
}

/// What the write path was asked for last wins: behind a write that succeeded, a
/// reader at its commit or later finds each key as the last mutation of that key
/// left it, and every other key as it was.
pub proof fn law_last_mutation_of_a_key_wins<F: FileIO, H: EngineHook>(
    c: &mut Committer<F>,
    hook: &H,
    tx_id: u64,
    mutations: &[Mutation],
    ts: u64,
    key: Seq<u8>,
    at: u64,
)
    requires
        call_ensures(Committer::<F>::write_with_tx::<H>, (c, hook, tx_id, mutations), Ok(ts)),
        in_step(old(c)@),
        old(c)@.commit_seq < u64::MAX,
        ts <= at < OPEN_ENDED_TS,
    ensures
        forall|i: int|
            0 <= i < mutations@.len() && (#[trigger] mutations@[i])@.key == key && (forall|j: int|
                i < j < mutations@.len() ==> (#[trigger] mutations@[j])@.key != key) ==> {
                &&& chains_read(final(c)@.chains, key, at) matches Some(v)
                &&& v.value == mutations@[i]@.value
                &&& v.begin_ts == ts
                &&& v.tx_id == tx_id
            },
        (forall|j: int| 0 <= j < mutations@.len() ==> (#[trigger] mutations@[j])@.key != key)
            ==> chains_read(final(c)@.chains, key, at) == chains_read(old(c)@.chains, key, at),
{
    let m = old(c)@;
    let ms = mutation_models(mutations@);
    let rs = mutation_records(tx_id, ms);
    lemma_write_commits(c, hook, tx_id, mutations, ts);
    law_commit_is_read_back(m, tx_id, ms, key, at);
    assert(final(c)@.chains == committed(m, tx_id, ms).chains);
    assert(rs.len() == mutations@.len());
    assert forall|j: int| 0 <= j < rs.len() implies (#[trigger] rs[j]).key == mutations@[j]@.key
        && rs[j].value == mutations@[j]@.value && rs[j].op == (if mutations@[j]@.value is Some {
        OpType::Put
    } else {
        OpType::Delete
    }) by {
        assert(ms[j] == mutations@[j]@);
    }
    assert forall|i: int|
        0 <= i < mutations@.len() && (#[trigger] mutations@[i])@.key == key && (forall|j: int|
            i < j < mutations@.len() ==> (#[trigger] mutations@[j])@.key != key) implies {
        &&& chains_read(final(c)@.chains, key, at) matches Some(v)
        &&& v.value == mutations@[i]@.value
        &&& v.begin_ts == ts
        &&& v.tx_id == tx_id
    } by {
        assert(rs[i].key == key);
        assert forall|j: int| i < j < rs.len() implies (#[trigger] rs[j]).key != key by {
            assert(mutations@[j]@.key != key);
        }
        law_last_write_is_the_last(rs, key, i);
    }
    if forall|j: int| 0 <= j < mutations@.len() ==> (#[trigger] mutations@[j])@.key != key {
        assert forall|j: int| 0 <= j < rs.len() implies (#[trigger] rs[j]).key != key by {
            assert(mutations@[j]@.key != key);
        }
        lemma_no_write(rs, key);
    }
}

proof fn lemma_write_commits<F: FileIO, H: EngineHook>(
    c: &mut Committer<F>,
    hook: &H,
    tx_id: u64,
    mutations: &[Mutation],
    ts: u64,
)
    requires
        call_ensures(Committer::<F>::write_with_tx::<H>, (c, hook, tx_id, mutations), Ok(ts)),
    ensures
        ({
            let ms = mutation_models(mutations@);
            let done = committed(old(c)@, tx_id, ms);
            &&& ts == old(c)@.commit_seq
            &&& final(c)@.next_tx_id >= old(c)@.next_tx_id
            &&& tx_id < u64::MAX ==> final(c)@.next_tx_id > tx_id
            &&& final(c)@ == (WriteModel { next_tx_id: final(c)@.next_tx_id, ..done })
        }),
{
}

/// A write that succeeded is logged behind what was in the log, gets the number
/// that was next, and is counted once: as a commit, by the bytes it added to the
/// log and by the size of the memtable. It is announced where anyone listens.
pub proof fn law_commit_is_logged_and_counted<F: FileIO, H: EngineHook>(
    c: &mut Committer<F>,
    hook: &H,
    tx_id: u64,
    mutations: &[Mutation],
    ts: u64,
)
    requires
        call_ensures(Committer::<F>::write_with_tx::<H>, (c, hook, tx_id, mutations), Ok(ts)),
        old(c)@.commit_seq < u64::MAX,
        old(c)@.metrics.tx_committed < u64::MAX,
        old(c)@.metrics.wal_bytes_written + batch_bytes(
            mutation_records(tx_id, mutation_models(mutations@)),
            tx_id,
        ).len() <= u64::MAX,
    ensures
        ts == old(c)@.commit_seq,
        final(c)@.commit_seq == ts + 1,
        tx_id < u64::MAX ==> final(c)@.next_tx_id > tx_id,
        final(c)@.log == old(c)@.log + batch_bytes(
            mutation_records(tx_id, mutation_models(mutations@)),
            tx_id,
        ),
        final(c)@.metrics.tx_committed == old(c)@.metrics.tx_committed + 1,
        final(c)@.metrics.wal_bytes_written - old(c)@.metrics.wal_bytes_written == final(c)@.log.len() - old(c)@.log.len(),
        final(c)@.metrics.memtable_bytes == final(c)@.bytes as u64,
        final(c)@.metrics.tx_aborted == old(c)@.metrics.tx_aborted,
        final(c)@.metrics.ssi_conflicts == old(c)@.metrics.ssi_conflicts,
        final(c)@.resolved >= ts,
        final(c)@.resolved == ts || final(c)@.resolved == old(c)@.resolved,
        old(c)@.listeners == 0 ==> final(c)@.events == old(c)@.events,
        old(c)@.listeners > 0 ==> final(c)@.events == old(c)@.events.push(
            EventModel { tx_id, commit_ts: ts, mutations: mutation_models(mutations@) },
        ),
{
    lemma_write_commits(c, hook, tx_id, mutations, ts);
}

/// A write that failed leaves no trace in what is read: no version, no number, no
/// announcement.
pub proof fn law_failed_write_is_not_read<F: FileIO, H: EngineHook>(
    c: &mut Committer<F>,
    hook: &H,
    tx_id: u64,
    mutations: &[Mutation],
    e: EngineError,
)
    requires
        call_ensures(Committer::<F>::write_with_tx::<H>, (c, hook, tx_id, mutations), Err(e)),
    ensures
        final(c)@.chains == old(c)@.chains,
        final(c)@.bytes == old(c)@.bytes,
        final(c)@.commit_seq == old(c)@.commit_seq,
        final(c)@.resolved == old(c)@.resolved,
        final(c)@.events == old(c)@.events,
        final(c)@.metrics.tx_committed == old(c)@.metrics.tx_committed,
        old(c)@.log.is_prefix_of(final(c)@.log),
{
    let m = old(c)@;
    let n = final(c)@;
    if n.log == m.log {
        assert(m.log =~= n.log.take(m.log.len() as int));
    } else {
        let bytes = batch_bytes(mutation_records(tx_id, mutation_models(mutations@)), tx_id);
        let k = choose|k: int|
            0 <= k <= bytes.len() && n.log == m.log + #[trigger] bytes.take(k);
        assert(n.log == m.log + bytes.take(k));
    }
}

/// A memtable that has reached the hard share of its threshold takes no write, and
/// neither a write of nothing nor one without an id is taken.
pub proof fn law_unfit_writes_are_refused<F: FileIO, H: EngineHook>(
    c: &mut Committer<F>,
    hook: &H,
    tx_id: u64,
    mutations: &[Mutation],
    r: Result<u64>,
)
    requires
        call_ensures(Committer::<F>::write_with_tx::<H>, (c, hook, tx_id, mutations), r),
    ensures
        mutations@.len() == 0 ==> r == Err::<u64, EngineError>(EngineError::EmptyBatch),
        mutations@.len() > 0 && tx_id == 0 ==> r is Err,
        mutations@.len() > 0 && tx_id > 0 && old(c).tuning().memtable_flush_bytes > 0 ==> {
            (r == Err::<u64, EngineError>(EngineError::Throttled) ==> final(c)@.log == old(c)@.log)
                && (old(c)@.metrics.memtable_bytes * RATIO_ONE >= old(c).tuning().hard_memtable_ratio * old(c).tuning().memtable_flush_bytes ==> r == Err::<
                u64,
                EngineError,
            >(EngineError::Throttled))
        },
{
}

/// Where a commit succeeds the hook hears of every put and every delete in it, with
/// the transaction, and then of the commit with its number.
pub proof fn law_hook_hears_of_the_whole_commit<F: FileIO, H: EngineHook>(
    c: &mut Committer<F>,
    hook: &H,
    tx_id: u64,
    mutations: &[Mutation],
    ts: u64,
    i: int,
)
    requires
        call_ensures(
            Committer::<F>::commit_single::<H>,
            (c, hook, tx_id, mutations, Ok(())),
            Ok(ts),
        ),
        0 <= i < mutations@.len(),
    ensures
        mutations@[i] matches Mutation::Put { key, value } ==> exists|k: &[u8], v: &[u8]|
            k@ == bytes_view(key) && v@ == bytes_view(value) && #[trigger] call_ensures(
                H::on_put,
                (hook, k, v, tx_id),
                (),
            ),
        mutations@[i] matches Mutation::Delete { key } ==> exists|k: &[u8]|
            k@ == bytes_view(key) && #[trigger] call_ensures(H::on_delete, (hook, k, tx_id), ()),
        call_ensures(H::on_tx_commit, (hook, tx_id, ts), ()),
{
    assert(told_of(*hook, tx_id, mutations@[i]));
}

// ── Groups ────────────────────────────────────────────────────────────────

proof fn lemma_rank(verdicts: Seq<Result<()>>, i: int, j: int)
    requires
        0 <= i <= j <= verdicts.len(),
    ensures
        rank(verdicts, i) <= rank(verdicts, j) <= rank(verdicts, i) + (j - i),
        i < j && verdicts[i] is Ok ==> rank(verdicts, i) < rank(verdicts, j),
        rank(verdicts, i) <= i,
    decreases j,
{
    if i < j {
        lemma_rank(verdicts, i, j - 1);
    } else if i > 0 {
        lemma_rank(verdicts, i - 1, j - 1);
    }
}

proof fn lemma_rank_of_front(verdicts: Seq<Result<()>>, i: int)
    requires
        0 <= i < verdicts.len(),
    ensures
        rank(verdicts.drop_last(), i) == rank(verdicts, i),
    decreases i,
{
    if i > 0 {
        lemma_rank_of_front(verdicts, i - 1);
    }
}

/// The pending writes that go on are those that passed, in their order: behind
/// each stand as many as passed before it, and there are no others.
pub proof fn law_those_that_passed_go_on(
    ps: Seq<(u64, Seq<MutationModel>)>,
    verdicts: Seq<Result<()>>,
)
    requires
        verdicts.len() == ps.len(),
    ensures
        survivors(ps, verdicts).len() == rank(verdicts, ps.len() as int),
        forall|i: int|
            0 <= i < ps.len() && (#[trigger] verdicts[i]) is Ok ==> {
                &&& rank(verdicts, i) < survivors(ps, verdicts).len()
                &&& survivors(ps, verdicts)[rank(verdicts, i) as int] == ps[i]
            },
    decreases ps.len(),
{
    if ps.len() > 0 {
        let p = ps.drop_last();
        let v = verdicts.drop_last();
        let n = ps.len() - 1;
        law_those_that_passed_go_on(p, v);
        lemma_rank_of_front(verdicts, n);
        assert forall|i: int| 0 <= i < ps.len() && (#[trigger] verdicts[i]) is Ok implies {
            &&& rank(verdicts, i) < survivors(ps, verdicts).len()
            &&& survivors(ps, verdicts)[rank(verdicts, i) as int] == ps[i]
        } by {
            if i < n {
                lemma_rank_of_front(verdicts, i);
                assert(v[i] is Ok);
                assert(p[i] == ps[i]);
            }
        }
    }
}

proof fn lemma_installed_numbers(m: WriteModel, cs: Seq<(u64, Seq<MutationModel>)>)
    requires
        m.commit_seq + cs.len() <= u64::MAX,
    ensures
        installed_all(m, cs).commit_seq == m.commit_seq + cs.len(),
    decreases cs.len(),
{
    if cs.len() > 0 {
        lemma_installed_numbers(m, cs.drop_last());
    }
}

proof fn lemma_group_number(
    m: WriteModel,
    n: WriteModel,
    ps: Seq<(u64, Seq<MutationModel>)>,
    verdicts: Seq<Result<()>>,
    out: GroupOutcome,
    i: int,
)
    requires
        group_outcome(m, n, ps, verdicts, out),
        out.failure is None,
        verdicts.len() == ps.len(),
        m.commit_seq + ps.len() <= u64::MAX,
        0 <= i < ps.len(),
        verdicts[i] is Ok,
    ensures
        out.results@[i] == Ok::<u64, EngineError>((m.commit_seq + rank(verdicts, i)) as u64),
        m.commit_seq + rank(verdicts, i) < u64::MAX,
{
    lemma_rank(verdicts, i, i);
    assert(out.results@[i] == Ok::<u64, EngineError>(
        wrapped(m.commit_seq, rank(verdicts, i) as u64),
    ));
}

proof fn lemma_group_ends(
    m: WriteModel,
    n: WriteModel,
    ps: Seq<(u64, Seq<MutationModel>)>,
    verdicts: Seq<Result<()>>,
    out: GroupOutcome,
)
    requires
        group_outcome(m, n, ps, verdicts, out),
        out.failure is None,
        verdicts.len() == ps.len(),
        m.commit_seq + ps.len() <= u64::MAX,
    ensures
        n.commit_seq == m.commit_seq + rank(verdicts, ps.len() as int),
        survivors(ps, verdicts).len() == rank(verdicts, ps.len() as int),
{
    let cs = survivors(ps, verdicts);
    law_those_that_passed_go_on(ps, verdicts);
    lemma_rank(verdicts, ps.len() as int, ps.len() as int);
    let start = WriteModel { metrics: judged(m.metrics, verdicts), ..m };
    lemma_installed_numbers(logged(start, group_bytes(records_of(cs))), cs);
}

/// In a group commit that the log took, every write that passed gets a number of
/// its own, in the order of the writes, from the next one on and without a gap;
/// a write that did not pass gets its own refusal.
pub proof fn law_group_numbers_those_that_passed<F: FileIO, H: EngineHook>(
    c: &mut Committer<F>,
    hook: &H,
    batch: &[PendingWrite],
    verdicts: Vec<Result<()>>,
    out: GroupOutcome,
)
    requires
        call_ensures(
            Committer::<F>::flush_pending_batch::<H>,
            (c, hook, batch, verdicts),
            out,
        ),
        verdicts@.len() == batch@.len(),
        out.failure is None,
        old(c)@.commit_seq + batch@.len() <= u64::MAX,
    ensures
        out.results@.len() == batch@.len(),
        forall|i: int|
            0 <= i < batch@.len() ==> (verdicts@[i] matches Err(e) ==> #[trigger] out.results@[i]
                == Err::<u64, EngineError>(e)),
        forall|i: int|
            0 <= i < batch@.len() && verdicts@[i] is Ok ==> (#[trigger] out.results@[i] matches Ok(
                ts,
            ) && old(c)@.commit_seq <= ts < final(c)@.commit_seq),
        forall|i: int, j: int|
            0 <= i < j < batch@.len() && verdicts@[i] is Ok && verdicts@[j] is Ok ==> (
            #[trigger] out.results@[i])->Ok_0 < (#[trigger] out.results@[j])->Ok_0,
        final(c)@.commit_seq - old(c)@.commit_seq == survivors(
            pending_models(batch@),
            verdicts@,
        ).len(),
{
    let m = old(c)@;
    let n = final(c)@;
    let ps = pending_models(batch@);
    assert(group_outcome(m, n, ps, verdicts@, out));
    lemma_group_ends(m, n, ps, verdicts@, out);
    assert forall|i: int| 0 <= i < batch@.len() && verdicts@[i] is Ok implies (
    #[trigger] out.results@[i] matches Ok(ts) && m.commit_seq <= ts < n.commit_seq) by {
        lemma_group_number(m, n, ps, verdicts@, out, i);
        lemma_rank(verdicts@, i, batch@.len() as int);
    }
    assert forall|i: int, j: int|
        0 <= i < j < batch@.len() && verdicts@[i] is Ok && verdicts@[j] is Ok implies (
    #[trigger] out.results@[i])->Ok_0 < (#[trigger] out.results@[j])->Ok_0 by {
        lemma_group_number(m, n, ps, verdicts@, out, i);
        lemma_group_number(m, n, ps, verdicts@, out, j);
        lemma_rank(verdicts@, i, j);
    }
}

/// How many of the verdicts are refusals.
pub open spec fn refusals(verdicts: Seq<Result<()>>) -> int {
    verdicts.len() - rank(verdicts, verdicts.len() as int)
}

/// Every refusal is counted as an abort, and nothing else is.
pub proof fn law_refusals_are_counted(c: EngineMetrics, verdicts: Seq<Result<()>>)
    requires
        c.tx_aborted + verdicts.len() <= u64::MAX,
    ensures
        judged(c, verdicts).tx_aborted == c.tx_aborted + refusals(verdicts),
        judged(c, verdicts).tx_committed == c.tx_committed,
        judged(c, verdicts).memtable_bytes == c.memtable_bytes,
        judged(c, verdicts).wal_bytes_written == c.wal_bytes_written,
    decreases verdicts.len(),
{
    if verdicts.len() > 0 {
        let n = verdicts.len() - 1;
        law_refusals_are_counted(c, verdicts.drop_last());
        lemma_rank_of_front(verdicts, n);
        lemma_rank(verdicts, n, n);
    }
}

// ── Sizes ─────────────────────────────────────────────────────────────────

/// The smaller of a size and the largest that can be counted.
pub open spec fn in_size(n: int) -> int {
    if n > usize::MAX {
        usize::MAX as int
    } else {
        n
    }
}

/// Records add to the size of the memtable one by one: a put its key, its value and
/// a fixed share for its version, a delete its key and that share.
pub proof fn law_sizes_add_up(n: int, a: Seq<RecordModel>, b: Seq<RecordModel>, r: RecordModel)
    ensures
        size_after_all(n, Seq::empty()) == n,
        size_after_all(n, a + b) == size_after_all(size_after_all(n, a), b),
        r.op == OpType::Put && r.value is Some && 0 <= n <= usize::MAX ==> size_after_all(n, seq![r])
            == in_size(n + r.key.len() + r.value->0.len() + 24),
        r.op == OpType::Delete && 0 <= n <= usize::MAX ==> size_after_all(n, seq![r]) == in_size(
            n + r.key.len() + 24,
        ),
        r.op == OpType::Commit || r.op == OpType::Abort ==> size_after_all(n, seq![r]) == n,
    decreases b.len(),
{
    assert(size_after_all(n, Seq::<RecordModel>::empty()) == n);
    assert(seq![r].drop_last() =~= Seq::<RecordModel>::empty());
    if b.len() == 0 {
        assert(a + b =~= a);
    } else {
        law_sizes_add_up(n, a, b.drop_last(), r);
        assert((a + b).drop_last() =~= a + b.drop_last());
    }
}

} // verus!
