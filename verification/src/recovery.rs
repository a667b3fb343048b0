//! Replay of the write-ahead log.
//!
//! Records gather under their transaction until its commit marker arrives;
//! then they are applied together, under the next commit timestamp. What has
//! no commit marker is never applied. A transaction's frames are written
//! contiguously and commits are serialized, so the order of the markers is the
//! order of the commits.

use crate::chain_store::Chains;
use crate::error::Result;
use crate::id_map::IdMap;
use crate::memtable::{applicable, apply_records, size_after_all, MemTable, MemTableBackend};
use crate::mutation::MutationModel;
use crate::version_set::{id_after, max_u64};
use crate::wal::{
    commit_model, mutation_record, mutation_records, record_models, OpType, RecordModel, WalRecord,
};
use vstd::prelude::*;

verus! {

/// The records of a transaction that wait for its marker.
pub open spec fn pending_of(rs: Seq<RecordModel>, tx_id: u64) -> Seq<RecordModel>
    decreases rs.len(),
{
    if rs.len() == 0 {
        Seq::empty()
    } else {
        let before = pending_of(rs.drop_last(), tx_id);
        if rs.last().tx_id != tx_id {
            before
        } else {
            match rs.last().op {
                OpType::Put => before.push(rs.last()),
                OpType::Delete => before.push(rs.last()),
                OpType::Commit => Seq::empty(),
                OpType::Abort => Seq::empty(),
            }
        }
    }
}

/// The committed transactions of a log, in commit order. A marker without
/// records commits nothing.
pub open spec fn groups_of(rs: Seq<RecordModel>) -> Seq<Seq<RecordModel>>
    decreases rs.len(),
{
    if rs.len() == 0 {
        Seq::empty()
    } else {
        let before = groups_of(rs.drop_last());
        let pending = pending_of(rs.drop_last(), rs.last().tx_id);
        if rs.last().op == OpType::Commit && pending.len() > 0 {
            before.push(pending)
        } else {
            before
        }
    }
}

/// The timestamp after `n` commits from `ts` on.
pub open spec fn ts_after(ts: u64, n: nat) -> u64
    decreases n,
{
    if n == 0 {
        ts
    } else {
        id_after(ts_after(ts, (n - 1) as nat))
    }
}

/// The chains after the transactions were applied in order, the first at `ts`.
pub open spec fn apply_groups(m: Chains, gs: Seq<Seq<RecordModel>>, ts: u64) -> Chains
    decreases gs.len(),
{
    if gs.len() == 0 {
        m
    } else {
        apply_records(
            apply_groups(m, gs.drop_last(), ts),
            gs.last(),
            ts_after(ts, (gs.len() - 1) as nat),
        )
    }
}

/// The size that the memtable keeps of itself after the transactions.
pub open spec fn size_of_groups(n: int, gs: Seq<Seq<RecordModel>>) -> int
    decreases gs.len(),
{
    if gs.len() == 0 {
        n
    } else {
        size_after_all(size_of_groups(n, gs.drop_last()), gs.last())
    }
}

/// The highest transaction of the log.
pub open spec fn highest_tx(rs: Seq<RecordModel>) -> u64
    decreases rs.len(),
{
    if rs.len() == 0 {
        0
    } else {
        max_u64(highest_tx(rs.drop_last()), rs.last().tx_id)
    }
}

/// Every record of the transaction can be applied.
pub open spec fn all_applicable(rs: Seq<RecordModel>) -> bool {
    forall|i: int| 0 <= i < rs.len() ==> applicable(#[trigger] rs[i])
}

/// Every transaction can be applied.
pub open spec fn groups_applicable(gs: Seq<Seq<RecordModel>>) -> bool {
    forall|i: int| 0 <= i < gs.len() ==> all_applicable(#[trigger] gs[i])
}

/// What a replay found out.
#[derive(Debug, Clone, Copy, PartialEq, Eq, Structural)]
pub struct Replayed {
    /// Highest transaction of the log.
    pub highest_tx: u64,
    /// Timestamp of the next commit.
    pub next_commit_ts: u64,
}

/// The waiting records are those of the log.
spec fn waits(pending: Map<u64, Vec<WalRecord>>, rs: Seq<RecordModel>) -> bool {
    forall|t: u64|
        #![trigger pending.contains_key(t)]
        #![trigger pending_of(rs, t)]
        (pending.contains_key(t) <==> pending_of(rs, t).len() > 0) && (pending.contains_key(t)
            ==> record_models(pending[t]@) == pending_of(rs, t))
}

/// Replays a log into the memtable: every committed transaction, in commit
/// order, the first at `first_ts`.
pub fn replay_wal<B: MemTableBackend>(
    memtable: &mut MemTable<B>,
    records: &[WalRecord],
    first_ts: u64,
) -> (r: Result<Replayed>)
    requires
        old(memtable).wf(),
    ensures
        final(memtable).wf(),
        final(memtable).kind() == old(memtable).kind(),
        ({
            let rs = record_models(records@);
            let gs = groups_of(rs);
            &&& r is Ok <==> groups_applicable(gs)
            &&& r matches Ok(p) ==> {
                &&& final(memtable).chains() == apply_groups(old(memtable).chains(), gs, first_ts)
                &&& final(memtable).size() == size_of_groups(old(memtable).size(), gs)
                &&& p.highest_tx == highest_tx(rs)
                &&& p.next_commit_ts == ts_after(first_ts, gs.len())
            }
            &&& r matches Err(e) ==> e.is_corrupt("put WAL record has no value")
        }),
{
    let ghost rs = record_models(records@);
    let ghost start = memtable.chains();
    let ghost size = memtable.size();
    let mut pending: IdMap<Vec<WalRecord>> = IdMap::new();
    let mut highest: u64 = 0;
    let mut next: u64 = first_ts;
    let mut i: usize = 0;
    assert(waits(pending@, rs.take(0)));
    while i < records.len()
        invariant
            rs == record_models(records@),
            start == old(memtable).chains(),
            size == old(memtable).size(),
            i <= records@.len(),
            memtable.wf(),
            memtable.kind() == old(memtable).kind(),
            pending.wf(),
            waits(pending@, rs.take(i as int)),
            groups_applicable(groups_of(rs.take(i as int))),
            memtable.chains() == apply_groups(start, groups_of(rs.take(i as int)), first_ts),
            memtable.size() == size_of_groups(size, groups_of(rs.take(i as int))),
            highest == highest_tx(rs.take(i as int)),
            next == ts_after(first_ts, groups_of(rs.take(i as int)).len()),
        decreases records@.len() - i,
    {
        let record = &records[i];
        let ghost here = rs.take(i as int);
        let ghost now = rs.take(i + 1);
        let ghost before = pending@;
        proof {
            assert(now.drop_last() =~= here);
            assert(now.last() == record@);
        }
        if record.tx_id > highest {
            highest = record.tx_id;
        }
        let tx_id: u64 = record.tx_id;
        match record.op {
            OpType::Put | OpType::Delete => {
                assert(before.contains_key(tx_id) <==> pending_of(here, tx_id).len() > 0);
                let mut list: Vec<WalRecord> = match pending.remove(tx_id) {
                    Some(v) => v,
                    None => Vec::new(),
                };
                let ghost listed = record_models(list@);
                assert(listed =~= pending_of(here, tx_id));
                list.push(record.clone());
                assert(record_models(list@) =~= listed.push(record@));
                pending.insert(tx_id, list);
                assert(groups_of(now) == groups_of(here));
                assert forall|t: u64|
                    #![trigger pending@.contains_key(t)]
                    #![trigger pending_of(now, t)]
                    (pending@.contains_key(t) <==> pending_of(now, t).len() > 0) && (
                    pending@.contains_key(t) ==> record_models(pending@[t]@) == pending_of(
                        now,
                        t,
                    )) by {
                    assert(before.contains_key(t) <==> pending_of(here, t).len() > 0);
                }
            },
            OpType::Commit => {
                assert(before.contains_key(tx_id) <==> pending_of(here, tx_id).len() > 0);
                match pending.remove(tx_id) {
                    Some(batch) => {
                        let ghost group = record_models(batch@);
                        proof {
                            assert(groups_of(now) == groups_of(here).push(group));
                            assert(groups_of(now).drop_last() =~= groups_of(here));
                        }
                        match memtable.apply_records_batch(batch.as_slice(), next) {
                            Ok(()) => {
                                proof {
                                    assert(all_applicable(group));
                                    assert forall|k: int| 0 <= k < groups_of(now).len() implies all_applicable(
                                        #[trigger] groups_of(now)[k],
                                    ) by {
                                        if k < groups_of(here).len() {
                                            assert(groups_of(now)[k] == groups_of(here)[k]);
                                        }
                                    }
                                }
                            },
                            Err(e) => {
                                proof {
                                    assert(!all_applicable(group));
                                    let at = groups_of(here).len() as int;
                                    assert(groups_of(now)[at] == group);
                                    lemma_groups_prefix(rs, i + 1);
                                    assert(groups_of(rs)[at] == group);
                                }
                                return Err(e);
                            },
                        }
                        next = if next == u64::MAX {
                            next
                        } else {
                            next + 1
                        };
                    },
                    None => {
                        assert(groups_of(now) == groups_of(here));
                    },
                }
                assert forall|t: u64|
                    #![trigger pending@.contains_key(t)]
                    #![trigger pending_of(now, t)]
                    (pending@.contains_key(t) <==> pending_of(now, t).len() > 0) && (
                    pending@.contains_key(t) ==> record_models(pending@[t]@) == pending_of(
                        now,
                        t,
                    )) by {
                    assert(before.contains_key(t) <==> pending_of(here, t).len() > 0);
                }
            },
            OpType::Abort => {
                let _dropped = pending.remove(tx_id);
                assert(groups_of(now) == groups_of(here));
                assert forall|t: u64|
                    #![trigger pending@.contains_key(t)]
                    #![trigger pending_of(now, t)]
                    (pending@.contains_key(t) <==> pending_of(now, t).len() > 0) && (
                    pending@.contains_key(t) ==> record_models(pending@[t]@) == pending_of(
                        now,
                        t,
                    )) by {
                    assert(before.contains_key(t) <==> pending_of(here, t).len() > 0);
                }
            },
        }
        i += 1;
    }
    assert(rs.take(i as int) =~= rs);
    Ok(Replayed { highest_tx: highest, next_commit_ts: next })
}

proof fn lemma_groups_prefix(rs: Seq<RecordModel>, n: int)
    requires
        0 <= n <= rs.len(),
    ensures
        groups_of(rs.take(n)).len() <= groups_of(rs).len(),
        forall|i: int|
            0 <= i < groups_of(rs.take(n)).len() ==> #[trigger] groups_of(rs)[i] == groups_of(
                rs.take(n),
            )[i],
    decreases rs.len(),
{
    if n == rs.len() {
        assert(rs.take(n) =~= rs);
    } else {
        lemma_groups_prefix(rs.drop_last(), n);
        assert(rs.drop_last().take(n) =~= rs.take(n));
    }
}

// ── Laws ──────────────────────────────────────────────────────────────────

/// The log of a series of commits.
pub open spec fn log_of(cs: Seq<(u64, Seq<MutationModel>)>) -> Seq<RecordModel>
    decreases cs.len(),
{
    if cs.len() == 0 {
        Seq::empty()
    } else {
        let (tx_id, ms) = cs.last();
        log_of(cs.drop_last()) + mutation_records(tx_id, ms).push(commit_model(tx_id))
    }
}

/// The records of a series of commits.
pub open spec fn commit_groups(cs: Seq<(u64, Seq<MutationModel>)>) -> Seq<Seq<RecordModel>> {
    cs.map_values(|c: (u64, Seq<MutationModel>)| mutation_records(c.0, c.1))
}

proof fn lemma_mutations_wait(rs: Seq<RecordModel>, tx_id: u64, ms: Seq<MutationModel>)
    ensures
        groups_of(rs + mutation_records(tx_id, ms)) == groups_of(rs),
        forall|t: u64| #[trigger]
            pending_of(rs + mutation_records(tx_id, ms), t) == (if t == tx_id {
                pending_of(rs, t) + mutation_records(tx_id, ms)
            } else {
                pending_of(rs, t)
            }),
    decreases ms.len(),
{
    let all = rs + mutation_records(tx_id, ms);
    if ms.len() == 0 {
        assert(all =~= rs);
        assert forall|t: u64| #[trigger] pending_of(all, t) == (if t == tx_id {
            pending_of(rs, t) + mutation_records(tx_id, ms)
        } else {
            pending_of(rs, t)
        }) by {
            assert(pending_of(rs, t) + mutation_records(tx_id, ms) =~= pending_of(rs, t));
        }
    } else {
        let init = ms.drop_last();
        lemma_mutations_wait(rs, tx_id, init);
        let prev = rs + mutation_records(tx_id, init);
        let r = mutation_record(tx_id, ms.last());
        assert(mutation_records(tx_id, ms) =~= mutation_records(tx_id, init).push(r));
        assert(all.drop_last() =~= prev);
        assert(all.last() == r);
        assert forall|t: u64| #[trigger] pending_of(all, t) == (if t == tx_id {
            pending_of(rs, t) + mutation_records(tx_id, ms)
        } else {
            pending_of(rs, t)
        }) by {
            assert(pending_of(prev, t) == (if t == tx_id {
                pending_of(rs, t) + mutation_records(tx_id, init)
            } else {
                pending_of(rs, t)
            }));
            if t == tx_id {
                assert((pending_of(rs, t) + mutation_records(tx_id, init)).push(r) =~= pending_of(
                    rs,
                    t,
                ) + mutation_records(tx_id, ms));
            }
        }
    }
}

/// Replaying the log of a series of commits applies exactly those commits, in
/// their order.
pub proof fn law_replay_restores_commits(cs: Seq<(u64, Seq<MutationModel>)>)
    requires
        forall|i: int| 0 <= i < cs.len() ==> (#[trigger] cs[i]).1.len() > 0,
    ensures
        groups_of(log_of(cs)) == commit_groups(cs),
        groups_applicable(groups_of(log_of(cs))),
{
    lemma_log_groups(cs);
    assert forall|i: int| 0 <= i < cs.len() implies all_applicable(
        #[trigger] groups_of(log_of(cs))[i],
    ) by {
        assert(commit_groups(cs)[i] == mutation_records(cs[i].0, cs[i].1));
    }
}

proof fn lemma_log_groups(cs: Seq<(u64, Seq<MutationModel>)>)
    requires
        forall|i: int| 0 <= i < cs.len() ==> (#[trigger] cs[i]).1.len() > 0,
    ensures
        groups_of(log_of(cs)) == commit_groups(cs),
        forall|t: u64| #[trigger] pending_of(log_of(cs), t).len() == 0,
    decreases cs.len(),
{
    if cs.len() == 0 {
        assert(groups_of(log_of(cs)) =~= commit_groups(cs));
    } else {
        let init = cs.drop_last();
        assert forall|i: int| 0 <= i < init.len() implies (#[trigger] init[i]).1.len() > 0 by {
            assert(init[i] == cs[i]);
        }
        lemma_log_groups(init);
        let (tx_id, ms) = cs.last();
        assert(cs[cs.len() - 1].1.len() > 0);
        let rs = log_of(init);
        lemma_mutations_wait(rs, tx_id, ms);
        let waiting = rs + mutation_records(tx_id, ms);
        let all = log_of(cs);
        assert(all.drop_last() =~= waiting);
        assert(all.last() == commit_model(tx_id));
        assert(pending_of(rs, tx_id) + mutation_records(tx_id, ms) =~= mutation_records(tx_id, ms));
        assert(pending_of(waiting, tx_id) == mutation_records(tx_id, ms));
        assert(commit_groups(cs) =~= commit_groups(init).push(mutation_records(tx_id, ms)));
        assert forall|t: u64| #[trigger] pending_of(all, t).len() == 0 by {
            if t != tx_id {
                assert(pending_of(waiting, t) == pending_of(rs, t));
            }
        }
    }
}

/// What has no commit marker behind it is never applied: records without
/// commit markers at the end of a log change nothing.
pub proof fn law_uncommitted_is_not_replayed(rs: Seq<RecordModel>, tail: Seq<RecordModel>)
    requires
        forall|i: int| 0 <= i < tail.len() ==> (#[trigger] tail[i]).op != OpType::Commit,
    ensures
        groups_of(rs + tail) == groups_of(rs),
    decreases tail.len(),
{
    if tail.len() == 0 {
        assert(rs + tail =~= rs);
    } else {
        let init = tail.drop_last();
        assert forall|i: int| 0 <= i < init.len() implies (#[trigger] init[i]).op
            != OpType::Commit by {
            assert(init[i] == tail[i]);
        }
        law_uncommitted_is_not_replayed(rs, init);
        assert((rs + tail).drop_last() =~= rs + init);
        assert((rs + tail).last() == tail[tail.len() - 1]);
    }
}

} // verus!
