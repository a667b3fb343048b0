//! Engine configuration.

use crate::clock::SystemClock;
use crate::compaction::{CompactionPolicy, MinOverlappingRatioPicker};
use crate::memtable::MemTableImpl;
use crate::pressure::{PressureConfig, DEFAULT_MEMTABLE_FLUSH_BYTES};
use crate::sst_format::VortexFormat;
use vstd::prelude::*;

verus! {

/// When the log is made durable.
#[derive(Debug, Clone, Copy, PartialEq, Eq, Structural)]
pub enum SyncMode {
    /// Every commit syncs the log: full durability, highest latency.
    Full,
    /// The log is synced in the background. After a crash the writes of the
    /// last interval may be gone.
    Group {
        /// Microseconds between two syncs.
        interval_us: u64,
    },
}

/// Size beyond which the log is truncated after a flush.
pub const DEFAULT_WAL_MAX_SIZE_BYTES: u64 = 67_108_864;

/// Milliseconds between two collections of superseded versions.
pub const DEFAULT_GC_INTERVAL_MS: u64 = 10_000;

/// Configuration used when opening an engine.
pub struct EngineConfig<C = SystemClock, P = MinOverlappingRatioPicker, S = VortexFormat> {
    /// Directory of the log, the manifest and the SSTs.
    pub path: String,
    /// Approximate memtable bytes at which a flush is recommended.
    pub memtable_flush_bytes: usize,
    /// Size beyond which the log is truncated after a flush.
    pub wal_max_size_bytes: u64,
    /// Time source for the creation stamps of SSTs.
    pub clock: C,
    /// Milliseconds between two collections of superseded versions in the
    /// memtable.
    pub gc_interval: u64,
    /// Chooses what is compacted.
    pub compaction_picker: P,
    /// When writes are throttled.
    pub pressure: PressureConfig,
    /// Memtable backend.
    pub memtable_impl: MemTableImpl,
    /// Layout of SSTs.
    pub sst_format: S,
    /// When the log is made durable.
    pub sync_mode: SyncMode,
}

impl EngineConfig {
    /// Creates the default configuration rooted at `path`.
    #[must_use]
    pub fn new(path: &str) -> (r: Self)
        ensures
            r.path@ == path@,
            r.memtable_flush_bytes == DEFAULT_MEMTABLE_FLUSH_BYTES,
            r.wal_max_size_bytes == DEFAULT_WAL_MAX_SIZE_BYTES,
            r.clock == SystemClock,
            r.gc_interval == DEFAULT_GC_INTERVAL_MS,
            r.compaction_picker.l0_trigger == 4,
            r.compaction_picker.max_level == 6,
            r.compaction_picker.policy == CompactionPolicy::LazyLeveling,
            r.pressure.memtable_flush_bytes == DEFAULT_MEMTABLE_FLUSH_BYTES,
            r.pressure.soft_memtable_ratio == 700_000,
            r.pressure.hard_memtable_ratio == 950_000,
            r.pressure.soft_sleep_millis == 1,
            r.memtable_impl == MemTableImpl::SkipMap,
            r.sst_format == VortexFormat,
            r.sync_mode == SyncMode::Full,
    {
        EngineConfig {
            path: path.to_owned(),
            memtable_flush_bytes: DEFAULT_MEMTABLE_FLUSH_BYTES,
            wal_max_size_bytes: DEFAULT_WAL_MAX_SIZE_BYTES,
            clock: SystemClock,
            gc_interval: DEFAULT_GC_INTERVAL_MS,
            compaction_picker: MinOverlappingRatioPicker::default(),
            pressure: PressureConfig::default(),
            memtable_impl: MemTableImpl::SkipMap,
            sst_format: VortexFormat::new(),
            sync_mode: SyncMode::Full,
        }
    }
}

impl<C, P, S> EngineConfig<C, P, S> {
    /// Sets the size beyond which the log is truncated.
    #[must_use]
    pub fn with_wal_max_size(self, bytes: u64) -> (r: Self)
        ensures
            r == (EngineConfig { wal_max_size_bytes: bytes, ..self }),
    {
        let mut config = self;
        config.wal_max_size_bytes = bytes;
        config
    }

    /// Sets the time source.
    #[must_use]
    pub fn with_clock<D>(self, clock: D) -> (r: EngineConfig<D, P, S>)
        ensures
            r == (EngineConfig::<D, P, S> {
                path: self.path,
                memtable_flush_bytes: self.memtable_flush_bytes,
                wal_max_size_bytes: self.wal_max_size_bytes,
                clock,
                gc_interval: self.gc_interval,
                compaction_picker: self.compaction_picker,
                pressure: self.pressure,
                memtable_impl: self.memtable_impl,
                sst_format: self.sst_format,
                sync_mode: self.sync_mode,
            }),
    {
        EngineConfig {
            path: self.path,
            memtable_flush_bytes: self.memtable_flush_bytes,
            wal_max_size_bytes: self.wal_max_size_bytes,
            clock,
            gc_interval: self.gc_interval,
            compaction_picker: self.compaction_picker,
            pressure: self.pressure,
            memtable_impl: self.memtable_impl,
            sst_format: self.sst_format,
            sync_mode: self.sync_mode,
        }
    }

    /// Sets the milliseconds between two collections in the background.
    #[must_use]
    pub fn with_gc_interval(self, interval: u64) -> (r: Self)
        ensures
            r == (EngineConfig { gc_interval: interval, ..self }),
    {
        let mut config = self;
        config.gc_interval = interval;
        config
    }

    /// Sets the compaction picker.
    #[must_use]
    pub fn with_compaction_picker<Q>(self, picker: Q) -> (r: EngineConfig<C, Q, S>)
        ensures
            r == (EngineConfig::<C, Q, S> {
                path: self.path,
                memtable_flush_bytes: self.memtable_flush_bytes,
                wal_max_size_bytes: self.wal_max_size_bytes,
                clock: self.clock,
                gc_interval: self.gc_interval,
                compaction_picker: picker,
                pressure: self.pressure,
                memtable_impl: self.memtable_impl,
                sst_format: self.sst_format,
                sync_mode: self.sync_mode,
            }),
    {
        EngineConfig {
            path: self.path,
            memtable_flush_bytes: self.memtable_flush_bytes,
            wal_max_size_bytes: self.wal_max_size_bytes,
            clock: self.clock,
            gc_interval: self.gc_interval,
            compaction_picker: picker,
            pressure: self.pressure,
            memtable_impl: self.memtable_impl,
            sst_format: self.sst_format,
            sync_mode: self.sync_mode,
        }
    }

    /// Sets when writes are throttled. The flush threshold is that of the
    /// engine, so that the two stay consistent.
    #[must_use]
    pub fn with_pressure(self, pressure: PressureConfig) -> (r: Self)
        ensures
            r == (EngineConfig {
                pressure: PressureConfig {
                    memtable_flush_bytes: self.memtable_flush_bytes,
                    ..pressure
                },
                ..self
            }),
    {
        let mut config = self;
        let mut pressure = pressure;
        pressure.memtable_flush_bytes = config.memtable_flush_bytes;
        config.pressure = pressure;
        config
    }

    /// Sets the memtable backend.
    #[must_use]
    pub fn with_memtable_impl(self, impl_kind: MemTableImpl) -> (r: Self)
        ensures
            r == (EngineConfig { memtable_impl: impl_kind, ..self }),
    {
        let mut config = self;
        config.memtable_impl = impl_kind;
        config
    }

    /// Sets the layout of SSTs.
    #[must_use]
    pub fn with_sst_format<T>(self, format: T) -> (r: EngineConfig<C, P, T>)
        ensures
            r == (EngineConfig::<C, P, T> {
                path: self.path,
                memtable_flush_bytes: self.memtable_flush_bytes,
                wal_max_size_bytes: self.wal_max_size_bytes,
                clock: self.clock,
                gc_interval: self.gc_interval,
                compaction_picker: self.compaction_picker,
                pressure: self.pressure,
                memtable_impl: self.memtable_impl,
                sst_format: format,
                sync_mode: self.sync_mode,
            }),
    {
        EngineConfig {
            path: self.path,
            memtable_flush_bytes: self.memtable_flush_bytes,
            wal_max_size_bytes: self.wal_max_size_bytes,
            clock: self.clock,
            gc_interval: self.gc_interval,
            compaction_picker: self.compaction_picker,
            pressure: self.pressure,
            memtable_impl: self.memtable_impl,
            sst_format: format,
            sync_mode: self.sync_mode,
        }
    }

    /// Sets when the log is made durable.
    #[must_use]
    pub fn with_sync_mode(self, mode: SyncMode) -> (r: Self)
        ensures
            r == (EngineConfig { sync_mode: mode, ..self }),
    {
        let mut config = self;
        config.sync_mode = mode;
        config
    }
}

} // verus!
