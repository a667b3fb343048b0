//! Prometheus-compatible metrics of the engine.
//!
//! Counters wrap on overflow. [`MetricsSnapshot::to_prometheus_text`] writes
//! the exposition text that a scraper polls.

use crate::text::{decimal, push_decimal};
use std::sync::Arc;
use vstd::prelude::*;
use vstd::string::StringExecFns;

verus! {

/// `a + b`, wrapped around at 64 bits.
pub open spec fn wrapped(a: u64, b: u64) -> u64 {
    ((a + b) % 0x1_0000_0000_0000_0000) as u64
}

/// Metrics of one engine.
#[derive(Debug, Clone, Copy, PartialEq, Eq, Structural)]
pub struct EngineMetrics {
    /// Number of transactions committed.
    pub tx_committed: u64,
    /// Number of transactions aborted (including SSI conflicts).
    pub tx_aborted: u64,
    /// Number of SSI conflicts detected.
    pub ssi_conflicts: u64,
    /// Total bytes written to WAL.
    pub wal_bytes_written: u64,
    /// Total bytes flushed to SST.
    pub sst_bytes_written: u64,
    /// Number of flushes performed.
    pub flush_count: u64,
    /// Number of compactions performed.
    pub compaction_count: u64,
    /// Approximate bytes in memtable.
    pub memtable_bytes: u64,
    /// Number of SST read failures.
    pub sst_read_failures: u64,
    /// Number of MVCC versions dropped by the periodic GC worker.
    pub gc_versions_dropped: u64,
    /// Number of times the background compaction worker caught a panic.
    pub compaction_panics: u64,
}

impl EngineMetrics {
    /// Everything is zero.
    pub open spec fn is_zero(&self) -> bool {
        &&& self.tx_committed == 0
        &&& self.tx_aborted == 0
        &&& self.ssi_conflicts == 0
        &&& self.wal_bytes_written == 0
        &&& self.sst_bytes_written == 0
        &&& self.flush_count == 0
        &&& self.compaction_count == 0
        &&& self.memtable_bytes == 0
        &&& self.sst_read_failures == 0
        &&& self.gc_versions_dropped == 0
        &&& self.compaction_panics == 0
    }

    /// Creates a fresh metrics instance.
    pub fn new() -> (r: Self)
        ensures
            r.is_zero(),
    {
        EngineMetrics {
            tx_committed: 0,
            tx_aborted: 0,
            ssi_conflicts: 0,
            wal_bytes_written: 0,
            sst_bytes_written: 0,
            flush_count: 0,
            compaction_count: 0,
            memtable_bytes: 0,
            sst_read_failures: 0,
            gc_versions_dropped: 0,
            compaction_panics: 0,
        }
    }

    /// Records a committed transaction.
    pub fn record_commit(&mut self)
        ensures
            *final(self) == (EngineMetrics {
                tx_committed: wrapped(old(self).tx_committed, 1),
                ..*old(self)
            }),
    {
        self.tx_committed = self.tx_committed.wrapping_add(1);
    }

    /// Records an aborted transaction.
    pub fn record_abort(&mut self)
        ensures
            *final(self) == (EngineMetrics {
                tx_aborted: wrapped(old(self).tx_aborted, 1),
                ..*old(self)
            }),
    {
        self.tx_aborted = self.tx_aborted.wrapping_add(1);
    }

    /// Records an SSI conflict.
    pub fn record_ssi_conflict(&mut self)
        ensures
            *final(self) == (EngineMetrics {
                ssi_conflicts: wrapped(old(self).ssi_conflicts, 1),
                ..*old(self)
            }),
    {
        self.ssi_conflicts = self.ssi_conflicts.wrapping_add(1);
    }

    /// Records WAL bytes written.
    pub fn record_wal_write(&mut self, bytes: u64)
        ensures
            *final(self) == (EngineMetrics {
                wal_bytes_written: wrapped(old(self).wal_bytes_written, bytes),
                ..*old(self)
            }),
    {
        self.wal_bytes_written = self.wal_bytes_written.wrapping_add(bytes);
    }

    /// Records SST bytes written.
    pub fn record_sst_write(&mut self, bytes: u64)
        ensures
            *final(self) == (EngineMetrics {
                sst_bytes_written: wrapped(old(self).sst_bytes_written, bytes),
                ..*old(self)
            }),
    {
        self.sst_bytes_written = self.sst_bytes_written.wrapping_add(bytes);
    }

    /// Records a flush operation.
    pub fn record_flush(&mut self)
        ensures
            *final(self) == (EngineMetrics {
                flush_count: wrapped(old(self).flush_count, 1),
                ..*old(self)
            }),
    {
        self.flush_count = self.flush_count.wrapping_add(1);
    }

    /// Records a compaction operation.
    pub fn record_compaction(&mut self)
        ensures
            *final(self) == (EngineMetrics {
                compaction_count: wrapped(old(self).compaction_count, 1),
                ..*old(self)
            }),
    {
        self.compaction_count = self.compaction_count.wrapping_add(1);
    }

    /// Sets the memtable size estimate.
    pub fn set_memtable_bytes(&mut self, bytes: u64)
        ensures
            *final(self) == (EngineMetrics { memtable_bytes: bytes, ..*old(self) }),
    {
        self.memtable_bytes = bytes;
    }

    /// Records an SST read failure.
    pub fn record_sst_read_failure(&mut self)
        ensures
            *final(self) == (EngineMetrics {
                sst_read_failures: wrapped(old(self).sst_read_failures, 1),
                ..*old(self)
            }),
    {
        self.sst_read_failures = self.sst_read_failures.wrapping_add(1);
    }

    /// Records MVCC versions dropped by the GC worker.
    pub fn record_gc_versions_dropped(&mut self, count: u64)
        ensures
            *final(self) == (EngineMetrics {
                gc_versions_dropped: wrapped(old(self).gc_versions_dropped, count),
                ..*old(self)
            }),
    {
        self.gc_versions_dropped = self.gc_versions_dropped.wrapping_add(count);
    }

    /// Records a compaction worker panic.
    pub fn record_compaction_panic(&mut self)
        ensures
            *final(self) == (EngineMetrics {
                compaction_panics: wrapped(old(self).compaction_panics, 1),
                ..*old(self)
            }),
    {
        self.compaction_panics = self.compaction_panics.wrapping_add(1);
    }

    /// What a snapshot of all metrics holds.
    pub open spec fn shown(&self) -> MetricsSnapshot {
        MetricsSnapshot {
            tx_committed: self.tx_committed,
            tx_aborted: self.tx_aborted,
            ssi_conflicts: self.ssi_conflicts,
            wal_bytes_written: self.wal_bytes_written,
            sst_bytes_written: self.sst_bytes_written,
            flush_count: self.flush_count,
            compaction_count: self.compaction_count,
            memtable_bytes: self.memtable_bytes,
            sst_read_failures: self.sst_read_failures,
            gc_versions_dropped: self.gc_versions_dropped,
            compaction_panics: self.compaction_panics,
        }
    }

    /// Returns a snapshot of all metrics at this instant.
    pub fn snapshot(&self) -> (r: MetricsSnapshot)
        ensures
            r == self.shown(),
    {
        MetricsSnapshot {
            tx_committed: self.tx_committed,
            tx_aborted: self.tx_aborted,
            ssi_conflicts: self.ssi_conflicts,
            wal_bytes_written: self.wal_bytes_written,
            sst_bytes_written: self.sst_bytes_written,
            flush_count: self.flush_count,
            compaction_count: self.compaction_count,
            memtable_bytes: self.memtable_bytes,
            sst_read_failures: self.sst_read_failures,
            gc_versions_dropped: self.gc_versions_dropped,
            compaction_panics: self.compaction_panics,
        }
    }
}

impl Default for EngineMetrics {
    fn default() -> (r: Self)
        ensures
            r.is_zero(),
    {
        EngineMetrics::new()
    }
}

/// Point-in-time snapshot of all engine metrics.
#[derive(Debug, Clone, Copy, PartialEq, Eq, Structural)]
pub struct MetricsSnapshot {
    /// Number of transactions committed.
    pub tx_committed: u64,
    /// Number of transactions aborted (including SSI conflicts).
    pub tx_aborted: u64,
    /// Number of SSI conflicts detected.
    pub ssi_conflicts: u64,
    /// Total bytes written to WAL.
    pub wal_bytes_written: u64,
    /// Total bytes flushed to SST.
    pub sst_bytes_written: u64,
    /// Number of flushes performed.
    pub flush_count: u64,
    /// Number of compactions performed.
    pub compaction_count: u64,
    /// Approximate bytes in memtable.
    pub memtable_bytes: u64,
    /// Number of SST read failures.
    pub sst_read_failures: u64,
    /// Number of MVCC versions dropped by the periodic GC worker.
    pub gc_versions_dropped: u64,
    /// Number of times the background compaction worker caught a panic.
    pub compaction_panics: u64,
}

impl Default for MetricsSnapshot {
    fn default() -> (r: Self)
        ensures
            r.tx_committed == 0,
            r.tx_aborted == 0,
            r.ssi_conflicts == 0,
            r.wal_bytes_written == 0,
            r.sst_bytes_written == 0,
            r.flush_count == 0,
            r.compaction_count == 0,
            r.memtable_bytes == 0,
            r.sst_read_failures == 0,
            r.gc_versions_dropped == 0,
            r.compaction_panics == 0,
    {
        EngineMetrics::new().snapshot()
    }
}

/// The exposition of one metric: its help line, its type line and its sample.
pub open spec fn exposition(name: Seq<char>, help: Seq<char>, kind: Seq<char>, value: u64) -> Seq<
    char,
> {
    "# HELP "@ + name + " "@ + help + "\n# TYPE "@ + name + " "@ + kind + "\n"@ + name + " "@
        + decimal(value as nat) + "\n"@
}

fn push_metric(out: &mut String, name: &str, help: &str, kind: &str, value: u64)
    ensures
        final(out)@ == old(out)@ + exposition(name@, help@, kind@, value),
{
    out.append("# HELP ");
    out.append(name);
    out.append(" ");
    out.append(help);
    out.append("\n# TYPE ");
    out.append(name);
    out.append(" ");
    out.append(kind);
    out.append("\n");
    out.append(name);
    out.append(" ");
    push_decimal(out, value);
    out.append("\n");
    assert(out@ =~= old(out)@ + exposition(name@, help@, kind@, value));
}

impl MetricsSnapshot {
    /// The exposition of every metric.
    pub open spec fn text(&self) -> Seq<char> {
        exposition("hatp_tx_committed_total"@, "Total committed transactions"@, "counter"@, self.tx_committed)
            + exposition("hatp_tx_aborted_total"@, "Total aborted transactions"@, "counter"@, self.tx_aborted)
            + exposition("hatp_ssi_conflicts_total"@, "Total SSI conflicts"@, "counter"@, self.ssi_conflicts)
            + exposition("hatp_wal_bytes_written_total"@, "Total bytes written to WAL"@, "counter"@, self.wal_bytes_written)
            + exposition("hatp_sst_bytes_written_total"@, "Total bytes written to SST"@, "counter"@, self.sst_bytes_written)
            + exposition("hatp_flush_count_total"@, "Total flushes"@, "counter"@, self.flush_count)
            + exposition("hatp_compaction_count_total"@, "Total compactions"@, "counter"@, self.compaction_count)
            + exposition("hatp_memtable_bytes"@, "Approximate memtable bytes"@, "gauge"@, self.memtable_bytes)
            + exposition("hatp_sst_read_failures_total"@, "Total SST read failures"@, "counter"@, self.sst_read_failures)
            + exposition("hatp_gc_versions_dropped_total"@, "MVCC versions dropped by GC"@, "counter"@, self.gc_versions_dropped)
            + exposition("hatp_compaction_panics_total"@, "Compaction worker panics"@, "counter"@, self.compaction_panics)
    }

    /// Formats this snapshot as Prometheus text format.
    pub fn to_prometheus_text(&self) -> (r: String)
        ensures
            r@ == self.text(),
    {
        let mut out: String = "".to_owned();
        assert(out@ =~= Seq::<char>::empty()) by {
            reveal_strlit("");
        }
        push_metric(&mut out, "hatp_tx_committed_total", "Total committed transactions", "counter", self.tx_committed);
        push_metric(&mut out, "hatp_tx_aborted_total", "Total aborted transactions", "counter", self.tx_aborted);
        push_metric(&mut out, "hatp_ssi_conflicts_total", "Total SSI conflicts", "counter", self.ssi_conflicts);
        push_metric(&mut out, "hatp_wal_bytes_written_total", "Total bytes written to WAL", "counter", self.wal_bytes_written);
        push_metric(&mut out, "hatp_sst_bytes_written_total", "Total bytes written to SST", "counter", self.sst_bytes_written);
        push_metric(&mut out, "hatp_flush_count_total", "Total flushes", "counter", self.flush_count);
        push_metric(&mut out, "hatp_compaction_count_total", "Total compactions", "counter", self.compaction_count);
        push_metric(&mut out, "hatp_memtable_bytes", "Approximate memtable bytes", "gauge", self.memtable_bytes);
        push_metric(&mut out, "hatp_sst_read_failures_total", "Total SST read failures", "counter", self.sst_read_failures);
        push_metric(&mut out, "hatp_gc_versions_dropped_total", "MVCC versions dropped by GC", "counter", self.gc_versions_dropped);
        push_metric(&mut out, "hatp_compaction_panics_total", "Compaction worker panics", "counter", self.compaction_panics);
        assert(out@ =~= self.text());
        out
    }
}

/// Shared metrics instance for the engine.
pub type SharedMetrics = Arc<EngineMetrics>;

/// Creates a new shared metrics instance.
pub fn create_metrics() -> (r: SharedMetrics)
    ensures
        r.is_zero(),
{
    Arc::new(EngineMetrics::new())
}

} // verus!
