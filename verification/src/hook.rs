//! Callbacks on the write path.

use crate::buf::bytes_view;
use crate::error::Result;
use crate::mutation::Mutation;
use vstd::prelude::*;

verus! {

/// Callbacks that an application hangs into the write path.
///
/// They run under the write lock, one transaction after the other.
pub trait EngineHook {
    /// Called after a put is committed.
    fn on_put(&self, _key: &[u8], _value: &[u8], _tx_id: u64) {
    }

    /// Called after a delete is committed.
    fn on_delete(&self, _key: &[u8], _tx_id: u64) {
    }

    /// Called after a transaction is durable and applied. `commit_ts` follows
    /// the order of commits, `tx_id` the order of reservations.
    fn on_tx_commit(&self, _tx_id: u64, _commit_ts: u64) {
    }

    /// Called when a transaction is aborted over a conflict.
    fn on_ssi_abort(&self, _tx_id: u64) {
    }

    /// Called before anything is written. An error rejects the transaction,
    /// and nothing of it is written anywhere.
    fn on_pre_commit(&self, _tx_id: u64, _mutations: &[Mutation]) -> (r: Result<()>)
        default_ensures
            r is Ok,
    {
        Ok(())
    }
}

/// `verdict` is an answer that the hook may give before a transaction commits.
pub open spec fn may_answer<H: EngineHook>(
    hook: H,
    tx_id: u64,
    mutations: Seq<Mutation>,
    verdict: Result<()>,
) -> bool {
    exists|ms: &[Mutation]|
        ms@ == mutations && #[trigger] call_ensures(
            H::on_pre_commit,
            (&hook, tx_id, ms),
            verdict,
        )
}

/// The hook was told of a mutation that the transaction committed.
pub open spec fn told_of<H: EngineHook>(hook: H, tx_id: u64, m: Mutation) -> bool {
    match m {
        Mutation::Put { key, value } => exists|k: &[u8], v: &[u8]|
            k@ == bytes_view(key) && v@ == bytes_view(value) && #[trigger] call_ensures(
                H::on_put,
                (&hook, k, v, tx_id),
                (),
            ),
        Mutation::Delete { key } => exists|k: &[u8]|
            k@ == bytes_view(key) && #[trigger] call_ensures(H::on_delete, (&hook, k, tx_id), ()),
    }
}

/// The hook was told of every mutation of a transaction and of its commit.
pub open spec fn commit_told<H: EngineHook>(
    hook: H,
    tx_id: u64,
    mutations: Seq<Mutation>,
    commit_ts: u64,
) -> bool {
    &&& forall|i: int| 0 <= i < mutations.len() ==> told_of(hook, tx_id, #[trigger] mutations[i])
    &&& call_ensures(H::on_tx_commit, (&hook, tx_id, commit_ts), ())
}

/// A hook that does nothing and rejects nothing.
#[derive(Debug, Default, Clone, Copy)]
pub struct NoopHook;

impl EngineHook for NoopHook {
    fn on_pre_commit(&self, _tx_id: u64, _mutations: &[Mutation]) -> (r: Result<()>)
        ensures
            r is Ok,
    {
        Ok(())
    }
}

/// Without a hook no transaction is rejected.
pub proof fn law_noop_rejects_nothing(tx_id: u64, mutations: Seq<Mutation>, verdict: Result<()>)
    requires
        may_answer(NoopHook, tx_id, mutations, verdict),
    ensures
        verdict is Ok,
{
    let ms = choose|ms: &[Mutation]|
        ms@ == mutations && #[trigger] call_ensures(
            NoopHook::on_pre_commit,
            (&NoopHook, tx_id, ms),
            verdict,
        );
    assert(call_ensures(NoopHook::on_pre_commit, (&NoopHook, tx_id, ms), verdict));
}

} // verus!
