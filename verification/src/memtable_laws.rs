//! What holds of memtables over a series of calls.

use crate::buf::{
    keys_sorted, lemma_lex_total, lemma_lex_transitive, lex_lt, lists_keys, sorted_keys,
};
use crate::chain_store::{chains_read, Chains};
use crate::memtable::{
    after_call, applicable_prefix, apply_record, apply_records, chain_rows, chains_contiguous,
    keys_with, law_apply_keeps_contiguous, law_table_gc, live_pairs, prefix_scan, range_scan,
    rows_of, table_rows, MemTable, MemTableBackend, TableCall, TableState, Told,
};
use crate::merge::{in_order, row_lt};
use crate::version::contiguous;
use crate::wal::{mutation_records, RecordModel};
use vstd::prelude::*;

verus! {

/// A series of calls took a memtable from empty through the states of `ts`,
/// and `told` is what they returned.
pub open spec fn ran<B: MemTableBackend>(
    ts: Seq<MemTable<B>>,
    calls: Seq<TableCall>,
    told: Seq<Told>,
) -> bool {
    &&& ts.len() == calls.len() + 1
    &&& told.len() == calls.len()
    &&& ts[0].state() == (TableState { chains: Map::empty(), size: 0 })
    &&& forall|i: int|
        0 <= i < calls.len() ==> (ts[i + 1].state(), told[i]) == after_call(
            ts[i].state(),
            #[trigger] calls[i],
        )
}

/// All backends agree: the same series of calls on two empty memtables returns
/// the same and leaves the same, whatever the backends are, so that every read
/// and scan, the number of keys and the byte count are the same after each
/// call. All versions come by ascending keys, newest first under each.
pub proof fn law_backends_agree<B: MemTableBackend, C: MemTableBackend>(
    bs: Seq<MemTable<B>>,
    cs: Seq<MemTable<C>>,
    calls: Seq<TableCall>,
    told_b: Seq<Told>,
    told_c: Seq<Told>,
)
    requires
        ran(bs, calls, told_b),
        ran(cs, calls, told_c),
    ensures
        told_b == told_c,
        forall|i: int|
            0 <= i <= calls.len() ==> {
                let (b, c) = ((#[trigger] bs[i]).chains(), cs[i].chains());
                &&& b == c
                &&& bs[i].size() == cs[i].size()
                &&& table_rows(b) == table_rows(c)
                &&& in_order(table_rows(b))
                &&& b.dom().len() == c.dom().len()
                &&& forall|key: Seq<u8>, ts: u64| #[trigger]
                    chains_read(b, key, ts) == chains_read(c, key, ts)
                &&& forall|prefix: Seq<u8>, ts: u64|
                    live_pairs(#[trigger] prefix_scan(b, prefix, ts)) == live_pairs(
                        prefix_scan(c, prefix, ts),
                    )
                &&& forall|lower: Seq<u8>, upper: Seq<u8>, ts: u64| #[trigger]
                    range_scan(b, lower, upper, ts) == range_scan(c, lower, upper, ts)
            },
{
    assert forall|i: int| 0 <= i <= calls.len() implies (#[trigger] bs[i]).state()
        == cs[i].state() && in_order(table_rows(bs[i].chains())) by {
        lemma_same_states(bs, cs, calls, told_b, told_c, i);
        let m = bs[i].chains();
        lemma_listing_exists(m.dom());
        lemma_rows_in_order(sorted_keys(m.dom()), m);
    }
    assert forall|i: int| 0 <= i < calls.len() implies told_b[i] == told_c[i] by {
        assert(bs[i].state() == cs[i].state());
        assert(after_call(bs[i].state(), calls[i]) == after_call(cs[i].state(), calls[i]));
    }
    assert(told_b =~= told_c);
}

proof fn lemma_same_states<B: MemTableBackend, C: MemTableBackend>(
    bs: Seq<MemTable<B>>,
    cs: Seq<MemTable<C>>,
    calls: Seq<TableCall>,
    told_b: Seq<Told>,
    told_c: Seq<Told>,
    n: int,
)
    requires
        ran(bs, calls, told_b),
        ran(cs, calls, told_c),
        0 <= n <= calls.len(),
    ensures
        bs[n].state() == cs[n].state(),
        chains_contiguous(bs[n].chains()),
        bs[n].chains().dom().finite(),
    decreases n,
{
    if n > 0 {
        lemma_same_states(bs, cs, calls, told_b, told_c, n - 1);
        assert(bs[n - 1 + 1] == bs[n] && cs[n - 1 + 1] == cs[n]);
        assert((bs[n].state(), told_b[n - 1]) == after_call(bs[n - 1].state(), calls[n - 1]));
        assert((cs[n].state(), told_c[n - 1]) == after_call(cs[n - 1].state(), calls[n - 1]));
        lemma_call_keeps_order(bs[n - 1].state(), calls[n - 1]);
    }
}

proof fn lemma_call_keeps_order(s: TableState, call: TableCall)
    requires
        chains_contiguous(s.chains),
        s.chains.dom().finite(),
    ensures
        chains_contiguous(after_call(s, call).0.chains),
        after_call(s, call).0.chains.dom().finite(),
{
    let t = after_call(s, call).0;
    match call {
        TableCall::Records(rs, ts) => {
            let done = rs.take(applicable_prefix(rs) as int);
            law_apply_keeps_contiguous(s.chains, done, ts);
            lemma_apply_keeps_finite(s.chains, done, ts);
        },
        TableCall::Mutations(tx_id, ms, ts) => {
            law_apply_keeps_contiguous(s.chains, mutation_records(tx_id, ms), ts);
            lemma_apply_keeps_finite(s.chains, mutation_records(tx_id, ms), ts);
        },
        TableCall::Collect(ts) => {
            law_table_gc(s.chains, ts, Seq::empty(), ts);
            assert(t.chains.dom() =~= s.chains.dom());
        },
        TableCall::Erase(prefix) => {
            let gone = keys_with(s.chains.dom(), prefix);
            assert(t.chains.dom() =~= s.chains.dom().difference(gone));
            assert forall|k: Seq<u8>| #[trigger] t.chains.contains_key(k) implies contiguous(
                t.chains[k],
            ) by {
                assert(s.chains.contains_key(k));
            }
        },
        TableCall::Clear => {},
    }
}

proof fn lemma_apply_keeps_finite(m: Chains, rs: Seq<RecordModel>, ts: u64)
    requires
        m.dom().finite(),
    ensures
        apply_records(m, rs, ts).dom().finite(),
    decreases rs.len(),
{
    if rs.len() > 0 {
        lemma_apply_keeps_finite(m, rs.drop_last(), ts);
        let mid = apply_records(m, rs.drop_last(), ts);
        assert(apply_records(m, rs, ts) == apply_record(mid, rs.last(), ts));
    }
}

/// A finite set of keys can be listed in order.
pub proof fn lemma_listing_exists(dom: Set<Seq<u8>>)
    requires
        dom.finite(),
    ensures
        lists_keys(sorted_keys(dom), dom),
    decreases dom.len(),
{
    if dom.len() == 0 {
        assert(dom =~= Set::<Seq<u8>>::empty());
        assert(lists_keys(Seq::<Seq<u8>>::empty(), dom));
    } else {
        let a = dom.choose();
        let rest = dom.remove(a);
        lemma_listing_exists(rest);
        let ks = sorted_keys(rest);
        let n = lemma_place(ks, a, ks.len() as int);
        let out = ks.insert(n, a);
        assert forall|i: int, j: int| 0 <= i < j < out.len() implies #[trigger] lex_lt(
            out[i],
            out[j],
        ) by {
            let i2 = if i < n {
                i
            } else {
                i - 1
            };
            let j2 = if j < n {
                j
            } else {
                j - 1
            };
            if i == n {
                assert(lex_lt(a, ks[j2]));
            } else if j == n {
                assert(lex_lt(ks[i2], a));
            } else {
                assert(lex_lt(ks[i2], ks[j2]));
            }
        }
        assert forall|i: int| 0 <= i < out.len() implies #[trigger] dom.contains(out[i]) by {
            if i < n {
                assert(rest.contains(ks[i]));
            } else if i > n {
                assert(rest.contains(ks[i - 1]));
            }
        }
        assert forall|k: Seq<u8>| #[trigger] dom.contains(k) implies out.contains(k) by {
            if k == a {
                assert(out[n] == a);
            } else {
                assert(rest.contains(k));
                let i = choose|i: int| 0 <= i < ks.len() && ks[i] == k;
                assert(out[if i < n {
                    i
                } else {
                    i + 1
                }] == k);
            }
        }
        assert(lists_keys(out, dom));
    }
}

/// Where a new key goes among the first `m` of a list in order.
proof fn lemma_place(ks: Seq<Seq<u8>>, a: Seq<u8>, m: int) -> (n: int)
    requires
        keys_sorted(ks),
        0 <= m <= ks.len(),
        !ks.contains(a),
    ensures
        0 <= n <= m,
        forall|i: int| 0 <= i < n ==> lex_lt(#[trigger] ks[i], a),
        forall|i: int| n <= i < m ==> lex_lt(a, #[trigger] ks[i]),
    decreases m,
{
    if m == 0 {
        0
    } else {
        let last = ks[m - 1];
        lemma_lex_total(last, a);
        if lex_lt(last, a) {
            assert forall|i: int| 0 <= i < m implies lex_lt(#[trigger] ks[i], a) by {
                if i < m - 1 {
                    assert(lex_lt(ks[i], ks[m - 1]));
                    lemma_lex_transitive(ks[i], last, a);
                }
            }
            m
        } else {
            lemma_place(ks, a, m - 1)
        }
    }
}

proof fn lemma_rows_in_order(ks: Seq<Seq<u8>>, m: Chains)
    requires
        keys_sorted(ks),
        forall|i: int| 0 <= i < ks.len() ==> #[trigger] m.dom().contains(ks[i]),
        chains_contiguous(m),
    ensures
        in_order(rows_of(ks, m)),
        forall|i: int|
            0 <= i < rows_of(ks, m).len() ==> ks.contains((#[trigger] rows_of(ks, m)[i]).key),
    decreases ks.len(),
{
    if ks.len() > 0 {
        let init = ks.drop_last();
        let key = ks.last();
        assert forall|i: int, j: int| 0 <= i < j < init.len() implies #[trigger] lex_lt(
            init[i],
            init[j],
        ) by {
            assert(lex_lt(ks[i], ks[j]));
        }
        assert forall|i: int| 0 <= i < init.len() implies #[trigger] m.dom().contains(init[i]) by {
            assert(m.dom().contains(ks[i]));
        }
        lemma_rows_in_order(init, m);
        let front = rows_of(init, m);
        let tail = chain_rows(key, m[key]);
        let all = rows_of(ks, m);
        assert(all == front + tail);
        assert(m.contains_key(ks[ks.len() - 1]));
        assert forall|i: int, j: int| 0 <= i < j < all.len() implies row_lt(
            #[trigger] all[i],
            #[trigger] all[j],
        ) by {
            if j < front.len() {
                assert(row_lt(front[i], front[j]));
            } else if i < front.len() {
                let p = choose|p: int| 0 <= p < init.len() && init[p] == front[i].key;
                assert(lex_lt(ks[p], ks[ks.len() - 1]));
            } else {
                assert(m[key][i - front.len()].begin_ts > m[key][j - front.len()].begin_ts);
            }
        }
        assert forall|i: int| 0 <= i < all.len() implies ks.contains((#[trigger] all[i]).key) by {
            if i < front.len() {
                let p = choose|p: int| 0 <= p < init.len() && init[p] == front[i].key;
                assert(ks[p] == all[i].key);
            } else {
                assert(ks[ks.len() - 1] == all[i].key);
            }
        }
    }
}

} // verus!
