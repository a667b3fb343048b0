//! Bloom filters and key indexes beside the SSTs, with their caches.
//!
//! Both are derived from the rows of an SST. A missing or malformed one costs
//! time, never a row: the SST itself is then read.

use crate::bloom::{
    all_probes_set, bit_at, filter_bytes, is_filter, law_filter_round_trip, law_no_false_negatives,
    probe_bit, reads_as, BloomFilter,
};
use crate::buf::{bytes_slice, bytes_view};
use crate::codec::{u32_at, u64_at};
use crate::file_io::{file_bytes, may_read_file, may_remove_file, may_replace, FileIO};
use crate::id_map::IdMap;
use crate::key_index::{
    can_index, index_bytes, is_index, law_index_round_trip, lookup_visible, parse_entries, rows_fit,
    rows_sorted, untagged_rows, KeyIndex,
};
use crate::memtable::{row_models, RowModel, VersionedRow};
use crate::paths::{
    bloom_path, bloom_path_of, key_index_path, key_index_path_of, law_paths_are_distinct,
    law_sidecars_do_not_collide,
};
use crate::sst_format::opt_version;
use crate::version::VersionedValue;
use vstd::prelude::*;

verus! {

/// Most bloom filters that are cached; a full cache is cleared.
pub const BLOOM_CACHE_MAX: usize = 512;

/// Most key indexes that are cached; a full cache is cleared.
pub const KEY_INDEX_CACHE_MAX: usize = 256;

// ── Sizing ────────────────────────────────────────────────────────────────

/// The bits that a filter of `n` keys needs for one false positive in a
/// hundred.
pub open spec fn bits_for(n: nat) -> nat {
    ((if n == 0 {
        1
    } else {
        n
    }) * 9_585_058_377_367_439_072 + 999_999_999_999_999_999) / 1_000_000_000_000_000_000
}

/// The probes that suit a filter of `n` keys; small filters are never shorter
/// than one word and take more.
pub open spec fn probes_for(n: nat) -> nat {
    if n <= 1 {
        32
    } else if n == 2 {
        22
    } else if n == 3 {
        15
    } else if n == 4 {
        11
    } else if n == 5 {
        9
    } else {
        7
    }
}

/// Most keys that a filter is built for.
pub const MAX_FILTER_KEYS: u64 = 0x0100_0000_0000_0000;

fn size_for(n: usize) -> (r: (u64, u32))
    requires
        n <= MAX_FILTER_KEYS,
    ensures
        r.0 == bits_for(n as nat),
        r.1 == probes_for(n as nat),
        r.0 / 64 <= usize::MAX / 2,
        r.0 <= 0x8000_0000_0000_0000,
{
    let items: u128 = if n == 0 {
        1
    } else {
        n as u128
    };
    let bits: u128 = (items * 9_585_058_377_367_439_072 + 999_999_999_999_999_999) / 1_000_000_000_000_000_000;
    assert(bits <= items * 10 + 1);
    let probes: u32 = if n <= 1 {
        32
    } else if n == 2 {
        22
    } else if n == 3 {
        15
    } else if n == 4 {
        11
    } else if n == 5 {
        9
    } else {
        7
    };
    (bits as u64, probes)
}

// ── What a sidecar must say ───────────────────────────────────────────────

/// The filter lets the key pass.
pub open spec fn may_hold(f: BloomFilter, key: Seq<u8>) -> bool {
    f.num_hashes > 0 && all_probes_set(f, key)
}

/// The filter lets every key of the rows pass.
pub open spec fn admits_all(f: BloomFilter, rs: Seq<RowModel>) -> bool {
    forall|i: int| 0 <= i < rs.len() ==> may_hold(f, (#[trigger] rs[i]).key)
}

/// The bit is one of the key's probes.
pub open spec fn is_probed(key: Seq<u8>, bit: int, num_hashes: u32, num_bits: u64) -> bool {
    exists|p: int| 0 <= p < num_hashes && #[trigger] probe_bit(key, p, num_bits) == bit
}

/// The filter is sized for the rows and lets every key of them pass; no bit is
/// set but for these keys.
pub open spec fn is_filter_of(f: BloomFilter, rs: Seq<RowModel>) -> bool {
    &&& f.wf()
    &&& f.num_bits >= bits_for(rs.len())
    &&& f.num_bits == 64 || f.num_bits / 2 < bits_for(rs.len())
    &&& f.num_hashes == probes_for(rs.len())
    &&& admits_all(f, rs)
    &&& forall|b: int|
        0 <= b < f.num_bits && #[trigger] bit_at(f.bits@, b) ==> exists|i: int|
            0 <= i < rs.len() && is_probed((#[trigger] rs[i]).key, b, f.num_hashes, f.num_bits)
}

/// Whatever filter the bytes hold lets every key of the rows pass.
pub open spec fn filter_file_fits(bytes: Seq<u8>, rs: Seq<RowModel>) -> bool {
    forall|f: BloomFilter| #[trigger] reads_as(bytes, f) ==> admits_all(f, rs)
}

/// Whatever index the bytes hold lists the rows.
pub open spec fn index_file_fits(bytes: Seq<u8>, rs: Seq<RowModel>) -> bool {
    is_index(bytes) ==> parse_entries(bytes, u32_at(bytes, 4) as nat)->0.rows == rs
}

/// Builds the filter of a file's keys.
pub fn build_filter(rows: &[VersionedRow]) -> (r: BloomFilter)
    requires
        rows@.len() <= MAX_FILTER_KEYS,
    ensures
        is_filter_of(r, row_models(rows@)),
{
    let ghost rs = row_models(rows@);
    let n: usize = rows.len();
    assert(n == rows@.len());
    let (bits, probes) = size_for(n);
    let mut filter = BloomFilter::new(bits, probes);
    let mut i: usize = 0;
    while i < n
        invariant
            n == rows@.len(),
            rs == row_models(rows@),
            i <= n,
            filter.wf(),
            filter.num_bits >= bits_for(n as nat),
            filter.num_bits == 64 || filter.num_bits / 2 < bits_for(n as nat),
            filter.num_hashes == probes_for(n as nat),
            forall|j: int| 0 <= j < i ==> may_hold(filter, (#[trigger] rs[j]).key),
            forall|b: int|
                0 <= b < filter.num_bits && #[trigger] bit_at(filter.bits@, b) ==> exists|j: int|
                    0 <= j < i && is_probed(
                        (#[trigger] rs[j]).key,
                        b,
                        filter.num_hashes,
                        filter.num_bits,
                    ),
        decreases n - i,
    {
        let ghost before = filter;
        let key = bytes_slice(&rows[i].key);
        filter.insert(key);
        proof {
            assert(rs[i as int].key == key@);
            assert forall|j: int| 0 <= j < i + 1 implies may_hold(filter, (#[trigger] rs[j]).key) by {
                law_no_false_negatives(before, filter, key@, rs[j].key);
            }
            assert forall|b: int|
                0 <= b < filter.num_bits && #[trigger] bit_at(filter.bits@, b) implies exists|
                j: int,
            |
                0 <= j < i + 1 && is_probed(
                    (#[trigger] rs[j]).key,
                    b,
                    filter.num_hashes,
                    filter.num_bits,
                ) by {
                if bit_at(before.bits@, b) {
                    let j = choose|j: int|
                        0 <= j < i && is_probed(
                            (#[trigger] rs[j]).key,
                            b,
                            filter.num_hashes,
                            filter.num_bits,
                        );
                    assert(is_probed(rs[j].key, b, filter.num_hashes, filter.num_bits));
                } else {
                    assert(is_probed(rs[i as int].key, b, filter.num_hashes, filter.num_bits));
                }
            }
        }
        i += 1;
    }
    filter
}

proof fn lemma_written_filter_fits(f: BloomFilter, rs: Seq<RowModel>)
    requires
        f.wf(),
        admits_all(f, rs),
    ensures
        filter_file_fits(filter_bytes(f.num_bits, f.num_hashes, f.bits@), rs),
{
    let bytes = filter_bytes(f.num_bits, f.num_hashes, f.bits@);
    law_filter_round_trip(f.num_bits, f.num_hashes, f.bits@);
    assert forall|g: BloomFilter| #[trigger] reads_as(bytes, g) implies admits_all(g, rs) by {
        assert(g.num_bits == f.num_bits && g.num_hashes == f.num_hashes);
        assert forall|i: int| 0 <= i < g.bits@.len() implies g.bits@[i] == f.bits@[i] by {
            assert(g.bits@[i] == u64_at(bytes, 16 + i * 8));
            assert(f.bits@[i] == u64_at(bytes, 16 + i * 8));
        }
        assert(g.bits@ =~= f.bits@);
        assert forall|i: int| 0 <= i < rs.len() implies may_hold(g, (#[trigger] rs[i]).key) by {
            assert(may_hold(f, rs[i].key));
            assert forall|p: int| 0 <= p < g.num_hashes implies bit_at(
                g.bits@,
                #[trigger] probe_bit(rs[i].key, p, g.num_bits) as int,
            ) by {
                assert(bit_at(
                    f.bits@,
                    probe_bit(rs[i].key, p, f.num_bits) as int,
                ));
            }
        }
    }
}

proof fn lemma_nothing_fits(rs: Seq<RowModel>)
    ensures
        filter_file_fits(Seq::empty(), rs),
        index_file_fits(Seq::empty(), rs),
{
}

// ── Sidecars ──────────────────────────────────────────────────────────────

/// The sidecars of an engine's SSTs, on disk and in memory.
pub struct Sidecars<F: FileIO> {
    dir: String,
    disk: F,
    filters: IdMap<BloomFilter>,
    indexes: IdMap<KeyIndex>,
}

impl<F: FileIO> Sidecars<F> {
    /// The directory of the files.
    pub closed spec fn dir(&self) -> Seq<char> {
        self.dir@
    }

    /// The files that can be reached.
    pub closed spec fn files(&self) -> Map<Seq<char>, Seq<u8>> {
        self.disk.files()
    }

    /// The handle through which the files are reached.
    pub closed spec fn disk(&self) -> F {
        self.disk
    }

    /// The cached filters.
    pub closed spec fn filters(&self) -> Map<u64, BloomFilter> {
        self.filters@
    }

    /// The cached indexes.
    pub closed spec fn indexes(&self) -> Map<u64, KeyIndex> {
        self.indexes@
    }

    /// The sidecars of a directory before any was read.
    pub open spec fn is_new(&self, dir: Seq<char>, disk: F) -> bool {
        &&& self.dir() == dir
        &&& self.disk() == disk
        &&& self.filters() == Map::<u64, BloomFilter>::empty()
        &&& self.indexes() == Map::<u64, KeyIndex>::empty()
    }

    /// Handle and caches are in order.
    pub closed spec fn wf(&self) -> bool {
        &&& self.disk.wf()
        &&& self.filters.wf()
        &&& self.indexes.wf()
        &&& forall|id: u64| #[trigger] self.filters@.contains_key(id) ==> self.filters@[id].wf()
        &&& forall|id: u64| #[trigger] self.indexes@.contains_key(id) ==> self.indexes@[id].wf()
    }

    /// Whatever filter there is of the SST lets every key of the rows pass.
    pub open spec fn filter_fits(&self, id: u64, rs: Seq<RowModel>) -> bool {
        &&& self.filters().contains_key(id) ==> admits_all(self.filters()[id], rs)
        &&& filter_file_fits(file_bytes(self.files(), bloom_path_of(self.dir(), id)), rs)
    }

    /// Whatever index there is of the SST lists the rows.
    pub open spec fn index_fits(&self, id: u64, rs: Seq<RowModel>) -> bool {
        &&& self.indexes().contains_key(id) ==> self.indexes()[id].rows() == rs
        &&& index_file_fits(file_bytes(self.files(), key_index_path_of(self.dir(), id)), rs)
    }

    /// The sidecars of the SST describe the rows.
    pub open spec fn fits(&self, id: u64, rs: Seq<RowModel>) -> bool {
        self.filter_fits(id, rs) && self.index_fits(id, rs)
    }

    /// The SST has no sidecar.
    pub open spec fn bare(&self, id: u64) -> bool {
        &&& !self.filters().contains_key(id)
        &&& !self.indexes().contains_key(id)
        &&& !self.files().contains_key(bloom_path_of(self.dir(), id))
        &&& !self.files().contains_key(key_index_path_of(self.dir(), id))
    }

    /// Whatever described the rows of an SST still does, except perhaps for
    /// `id`, and an SST without sidecars is still without.
    pub open spec fn keeps(&self, before: &Self, id: Option<u64>) -> bool {
        &&& self.dir() == before.dir()
        &&& forall|k: u64, rs: Seq<RowModel>|
            Some(k) != id && #[trigger] before.fits(k, rs) ==> self.fits(k, rs)
        &&& forall|k: u64| Some(k) != id && #[trigger] before.bare(k) ==> self.bare(k)
    }

    /// `self` is `before` after the filter of an SST was looked for: a cached
    /// one is taken as it is, else the one in its file is cached, where that
    /// can be read and holds one.
    pub open spec fn filter_sought(&self, before: &Self, id: u64) -> bool {
        if before.filters().contains_key(id) {
            *self == *before
        } else {
            let path = bloom_path_of(before.dir(), id);
            let bytes = file_bytes(before.files(), path);
            &&& self.dir() == before.dir()
            &&& self.files() == before.files()
            &&& self.indexes() == before.indexes()
            &&& exists|read: bool| #[trigger]
                may_read_file(before.disk(), path, read) && (self.filters().contains_key(id)
                    <==> read && is_filter(bytes))
            &&& self.filters().contains_key(id) ==> reads_as(bytes, self.filters()[id])
            &&& !self.filters().contains_key(id) ==> self.filters() == before.filters()
        }
    }

    /// `self` is `before` after the key index of an SST was looked for: a
    /// cached one is taken as it is, else the one in its file is cached, where
    /// that can be read and holds one.
    pub open spec fn index_sought(&self, before: &Self, id: u64) -> bool {
        if before.indexes().contains_key(id) {
            *self == *before
        } else {
            let path = key_index_path_of(before.dir(), id);
            let bytes = file_bytes(before.files(), path);
            &&& self.dir() == before.dir()
            &&& self.files() == before.files()
            &&& self.filters() == before.filters()
            &&& exists|read: bool| #[trigger]
                may_read_file(before.disk(), path, read) && (self.indexes().contains_key(id)
                    <==> read && is_index(bytes))
            &&& self.indexes().contains_key(id) ==> bytes_view(self.indexes()[id].data) == bytes
            &&& !self.indexes().contains_key(id) ==> self.indexes() == before.indexes()
        }
    }

    /// `self` is `before` after the filter of the rows was written, or could
    /// not be. No filter is built for more keys than [`MAX_FILTER_KEYS`].
    pub open spec fn filter_written(
        &self,
        before: &Self,
        id: u64,
        rs: Seq<RowModel>,
        done: bool,
    ) -> bool {
        if rs.len() > MAX_FILTER_KEYS {
            !done && *self == *before
        } else {
            exists|f: BloomFilter| #[trigger]
                is_filter_of(f, rs) && ({
                    let path = bloom_path_of(before.dir(), id);
                    let bytes = filter_bytes(f.num_bits, f.num_hashes, f.bits@);
                    &&& may_replace(before.disk(), path, bytes, done)
                    &&& self.dir() == before.dir()
                    &&& self.indexes() == before.indexes()
                    &&& done ==> {
                        &&& self.files() == before.files().insert(path, bytes)
                        &&& self.filters() == before.filters().insert(id, f) || self.filters()
                            == Map::<u64, BloomFilter>::empty().insert(id, f)
                    }
                    &&& !done ==> {
                        &&& self.files() == before.files() || self.files()
                            == before.files().insert(path, bytes)
                        &&& self.filters() == before.filters()
                    }
                })
        }
    }

    /// `self` is `before` after the key index of the rows was written, or
    /// could not be. Rows that do not fit the format have no index.
    pub open spec fn index_written(
        &self,
        before: &Self,
        id: u64,
        rs: Seq<RowModel>,
        done: bool,
    ) -> bool {
        if !rows_fit(rs) {
            !done && *self == *before
        } else {
            let path = key_index_path_of(before.dir(), id);
            let bytes = index_bytes(rs);
            &&& may_replace(before.disk(), path, bytes, done)
            &&& self.dir() == before.dir()
            &&& self.filters() == before.filters()
            &&& done ==> {
                &&& self.files() == before.files().insert(path, bytes)
                &&& exists|x: KeyIndex|
                    x.rows() == untagged_rows(rs) && (self.indexes()
                        == #[trigger] before.indexes().insert(id, x) || self.indexes() == Map::<
                        u64,
                        KeyIndex,
                    >::empty().insert(id, x))
            }
            &&& !done ==> {
                &&& self.files() == before.files() || self.files() == before.files().insert(
                    path,
                    bytes,
                )
                &&& self.indexes() == before.indexes()
            }
        }
    }

    /// `self` is `before` after filter and key index of the rows were written,
    /// one after the other, each as far as it could be; `done` says whether
    /// both were.
    pub open spec fn both_written(
        &self,
        before: &Self,
        id: u64,
        rs: Seq<RowModel>,
        done: bool,
    ) -> bool {
        exists|mid: Self, filtered: bool, indexed: bool|
            #![trigger mid.filter_written(before, id, rs, filtered),
                self.index_written(&mid, id, rs, indexed)]
            mid.filter_written(before, id, rs, filtered) && self.index_written(
                &mid,
                id,
                rs,
                indexed,
            ) && done == (filtered && indexed)
    }

    /// The sidecars of the SST are gone: none is cached, and its files are
    /// removed, unless that failed.
    pub open spec fn gone(&self, id: u64) -> bool {
        &&& !self.filters().contains_key(id)
        &&& !self.indexes().contains_key(id)
        &&& self.file_gone(bloom_path_of(self.dir(), id))
        &&& self.file_gone(key_index_path_of(self.dir(), id))
    }

    /// The file is removed, unless that failed.
    pub open spec fn file_gone(&self, path: Seq<char>) -> bool {
        !self.files().contains_key(path) || exists|io: F| #[trigger]
            may_remove_file(io, path, false)
    }

    /// Takes charge of the sidecars in `dir`.
    pub fn new(dir: &str, disk: F) -> (r: Self)
        requires
            disk.wf(),
        ensures
            r.wf(),
            r.files() == disk.files(),
            r.is_new(dir@, disk),
    {
        Sidecars { dir: dir.to_owned(), disk, filters: IdMap::new(), indexes: IdMap::new() }
    }

    fn bloom_insert(&mut self, file_id: u64, filter: BloomFilter)
        requires
            old(self).wf(),
            filter.wf(),
        ensures
            final(self).wf(),
            final(self).dir() == old(self).dir(),
            final(self).files() == old(self).files(),
            final(self).indexes() == old(self).indexes(),
            final(self).filters() == old(self).filters().insert(file_id, filter)
                || final(self).filters() == Map::<u64, BloomFilter>::empty().insert(file_id, filter),
    {
        if self.filters.len() >= BLOOM_CACHE_MAX {
            self.filters.clear();
        }
        self.filters.insert(file_id, filter);
    }

    fn key_index_insert(&mut self, file_id: u64, index: KeyIndex)
        requires
            old(self).wf(),
            index.wf(),
        ensures
            final(self).wf(),
            final(self).dir() == old(self).dir(),
            final(self).files() == old(self).files(),
            final(self).filters() == old(self).filters(),
            final(self).indexes() == old(self).indexes().insert(file_id, index)
                || final(self).indexes() == Map::<u64, KeyIndex>::empty().insert(file_id, index),
    {
        if self.indexes.len() >= KEY_INDEX_CACHE_MAX {
            self.indexes.clear();
        }
        self.indexes.insert(file_id, index);
    }

    /// Brings the filter of an SST into the cache and returns whether there is
    /// one.
    pub fn bloom_for(&mut self, file_id: u64) -> (r: bool)
        requires
            old(self).wf(),
        ensures
            final(self).wf(),
            final(self).files() == old(self).files(),
            final(self).keeps(old(self), None),
            final(self).filter_sought(old(self), file_id),
            r == final(self).filters().contains_key(file_id),
            forall|rs: Seq<RowModel>| #[trigger]
                old(self).filter_fits(file_id, rs) ==> final(self).filter_fits(file_id, rs),
    {
        if self.filters.contains(file_id) {
            return true;
        }
        let path = bloom_path(self.dir.as_str(), file_id);
        let found = BloomFilter::read_from(&mut self.disk, path.as_str());
        let ghost read = choose|read: bool| #[trigger]
            may_read_file(old(self).disk, path@, read) && (found is Some <==> read && is_filter(
                file_bytes(old(self).disk.files(), path@),
            ));
        assert(may_read_file(old(self).disk(), bloom_path_of(old(self).dir(), file_id), read));
        match found {
            Some(filter) => {
                self.bloom_insert(file_id, filter);
                proof {
                    let bytes = file_bytes(old(self).files(), bloom_path_of(old(self).dir(), file_id));
                    assert(reads_as(bytes, filter));
                    assert forall|k: u64| #[trigger] old(self).bare(k) implies self.bare(k) by {
                        if k == file_id {
                            assert(!is_filter(Seq::empty()));
                        }
                    }
                }
                true
            },
            None => false,
        }
    }

    /// Returns whether the SST may hold `key`: false only where a filter
    /// proves that it does not.
    pub fn admits(&mut self, file_id: u64, key: &[u8]) -> (r: bool)
        requires
            old(self).wf(),
        ensures
            final(self).wf(),
            final(self).files() == old(self).files(),
            final(self).keeps(old(self), None),
            final(self).filter_sought(old(self), file_id),
            r == (final(self).filters().contains_key(file_id) ==> may_hold(
                final(self).filters()[file_id],
                key@,
            )),
            forall|rs: Seq<RowModel>, i: int|
                #![trigger old(self).filter_fits(file_id, rs), rs[i]]
                old(self).filter_fits(file_id, rs) && 0 <= i < rs.len() && rs[i].key == key@ ==> r,
    {
        if !self.bloom_for(file_id) {
            return true;
        }
        match self.filters.get(file_id) {
            Some(filter) => {
                let r = filter.contains(key);
                proof {
                    assert forall|rs: Seq<RowModel>, i: int|
                        #![trigger old(self).filter_fits(file_id, rs), rs[i]]
                        old(self).filter_fits(file_id, rs) && 0 <= i < rs.len() && rs[i].key == key@
                        implies r by {
                        assert(self.filter_fits(file_id, rs));
                        assert(may_hold(self.filters()[file_id], rs[i].key));
                    }
                }
                r
            },
            None => true,
        }
    }

    /// Brings the key index of an SST into the cache and returns whether there
    /// is one.
    pub fn key_index_for(&mut self, file_id: u64) -> (r: bool)
        requires
            old(self).wf(),
        ensures
            final(self).wf(),
            final(self).files() == old(self).files(),
            final(self).keeps(old(self), None),
            final(self).index_sought(old(self), file_id),
            r == final(self).indexes().contains_key(file_id),
            forall|rs: Seq<RowModel>| #[trigger]
                old(self).index_fits(file_id, rs) ==> final(self).index_fits(file_id, rs),
    {
        if self.indexes.contains(file_id) {
            return true;
        }
        let path = key_index_path(self.dir.as_str(), file_id);
        let found = KeyIndex::read_from(&mut self.disk, path.as_str());
        let ghost read = choose|read: bool| #[trigger]
            may_read_file(old(self).disk, path@, read) && (found is Some <==> read && is_index(
                file_bytes(old(self).disk.files(), path@),
            ));
        assert(may_read_file(old(self).disk(), key_index_path_of(old(self).dir(), file_id), read));
        match found {
            Some(index) => {
                self.key_index_insert(file_id, index);
                proof {
                    assert forall|k: u64| #[trigger] old(self).bare(k) implies self.bare(k) by {
                        if k == file_id {
                            assert(!is_index(Seq::empty()));
                        }
                    }
                }
                true
            },
            None => false,
        }
    }

    /// Looks `key` up in the index of an SST: `None` where there is no index,
    /// else the first version that a reader at `snapshot_ts` sees.
    pub fn find(&mut self, file_id: u64, key: &[u8], snapshot_ts: u64) -> (r: Option<
        Option<VersionedValue>,
    >)
        requires
            old(self).wf(),
        ensures
            final(self).wf(),
            final(self).files() == old(self).files(),
            final(self).keeps(old(self), None),
            final(self).index_sought(old(self), file_id),
            r is Some <==> final(self).indexes().contains_key(file_id),
            r matches Some(v) ==> rows_sorted(final(self).indexes()[file_id].rows()) ==> opt_version(
                v,
            ) == lookup_visible(final(self).indexes()[file_id].rows(), key@, snapshot_ts),
            forall|rs: Seq<RowModel>| #[trigger]
                old(self).index_fits(file_id, rs) && rows_sorted(rs) ==> (r matches Some(v)
                    ==> opt_version(v) == lookup_visible(rs, key@, snapshot_ts)),
    {
        if !self.key_index_for(file_id) {
            return None;
        }
        match self.indexes.get(file_id) {
            Some(index) => {
                let v = index.get_visible(key, snapshot_ts);
                proof {
                    assert forall|rs: Seq<RowModel>| #[trigger]
                        old(self).index_fits(file_id, rs) && rows_sorted(rs) implies opt_version(v)
                        == lookup_visible(rs, key@, snapshot_ts) by {
                        assert(self.index_fits(file_id, rs));
                    }
                }
                Some(v)
            },
            None => None,
        }
    }

    /// Writes the filter of a new SST. Returns whether that succeeded; the
    /// filter is cached only then.
    pub fn write_bloom_for(&mut self, file_id: u64, rows: &[VersionedRow]) -> (r: bool)
        requires
            old(self).wf(),
        ensures
            final(self).wf(),
            final(self).keeps(old(self), Some(file_id)),
            final(self).filter_written(old(self), file_id, row_models(rows@), r),
            r || old(self).bare(file_id) ==> final(self).filter_fits(file_id, row_models(rows@)),
            !old(self).files().contains_key(key_index_path_of(old(self).dir(), file_id))
                ==> !final(self).files().contains_key(
                key_index_path_of(old(self).dir(), file_id),
            ),
    {
        let ghost rs = row_models(rows@);
        let ghost dir = self.dir();
        let n: usize = rows.len();
        assert(n == rows@.len());
        proof {
            lemma_nothing_fits(rs);
        }
        if n as u64 > MAX_FILTER_KEYS {
            return false;
        }
        let filter = build_filter(rows);
        let path = bloom_path(self.dir.as_str(), file_id);
        let written = filter.write_to(&mut self.disk, path.as_str());
        proof {
            lemma_written_filter_fits(filter, rs);
            law_sidecars_do_not_collide(dir, file_id, file_id);
            assert forall|k: u64, ks: Seq<RowModel>|
                Some(k) != Some(file_id) && #[trigger] old(self).fits(k, ks) implies self.fits(
                k,
                ks,
            ) by {
                law_paths_are_distinct(dir, k, file_id);
                law_sidecars_do_not_collide(dir, file_id, k);
            }
            assert forall|k: u64| Some(k) != Some(file_id) && #[trigger] old(self).bare(
                k,
            ) implies self.bare(k) by {
                law_paths_are_distinct(dir, k, file_id);
                law_sidecars_do_not_collide(dir, file_id, k);
            }
        }
        match written {
            Ok(()) => {
                let ghost mid = *self;
                self.bloom_insert(file_id, filter);
                proof {
                    assert forall|k: u64, ks: Seq<RowModel>|
                        Some(k) != Some(file_id) && #[trigger] old(self).fits(
                            k,
                            ks,
                        ) implies self.fits(k, ks) by {
                        assert(mid.fits(k, ks));
                    }
                    assert forall|k: u64| Some(k) != Some(file_id) && #[trigger] old(self).bare(
                        k,
                    ) implies self.bare(k) by {
                        assert(mid.bare(k));
                    }
                }
                true
            },
            Err(_) => false,
        }
    }

    /// Writes the key index of a new SST. Returns whether that succeeded; the
    /// index is cached only then.
    pub fn write_index_for(&mut self, file_id: u64, rows: &[VersionedRow]) -> (r: bool)
        requires
            old(self).wf(),
        ensures
            final(self).wf(),
            final(self).keeps(old(self), Some(file_id)),
            final(self).index_written(old(self), file_id, row_models(rows@), r),
            r || !old(self).indexes().contains_key(file_id) && !old(self).files().contains_key(
                key_index_path_of(old(self).dir(), file_id),
            ) ==> final(self).index_fits(file_id, untagged_rows(row_models(rows@))),
            file_bytes(final(self).files(), bloom_path_of(old(self).dir(), file_id)) == file_bytes(
                old(self).files(),
                bloom_path_of(old(self).dir(), file_id),
            ),
    {
        let ghost rs = row_models(rows@);
        let ghost dir = self.dir();
        proof {
            lemma_nothing_fits(untagged_rows(rs));
        }
        if !can_index(rows) {
            return false;
        }
        let index = KeyIndex::from_rows(rows);
        let path = key_index_path(self.dir.as_str(), file_id);
        let written = index.write_to(&mut self.disk, path.as_str());
        proof {
            law_index_round_trip(rs);
            law_sidecars_do_not_collide(dir, file_id, file_id);
            assert(index_file_fits(bytes_view(index.data), untagged_rows(rs)));
            assert forall|k: u64, ks: Seq<RowModel>|
                Some(k) != Some(file_id) && #[trigger] old(self).fits(k, ks) implies self.fits(
                k,
                ks,
            ) by {
                law_paths_are_distinct(dir, k, file_id);
                law_sidecars_do_not_collide(dir, k, file_id);
            }
            assert forall|k: u64| Some(k) != Some(file_id) && #[trigger] old(self).bare(
                k,
            ) implies self.bare(k) by {
                law_paths_are_distinct(dir, k, file_id);
                law_sidecars_do_not_collide(dir, k, file_id);
            }
        }
        match written {
            Ok(()) => {
                let ghost mid = *self;
                self.key_index_insert(file_id, index);
                proof {
                    assert(self.indexes() == old(self).indexes().insert(file_id, index)
                        || self.indexes() == Map::<u64, KeyIndex>::empty().insert(file_id, index));
                    assert forall|k: u64, ks: Seq<RowModel>|
                        Some(k) != Some(file_id) && #[trigger] old(self).fits(
                            k,
                            ks,
                        ) implies self.fits(k, ks) by {
                        assert(mid.fits(k, ks));
                    }
                    assert forall|k: u64| Some(k) != Some(file_id) && #[trigger] old(self).bare(
                        k,
                    ) implies self.bare(k) by {
                        assert(mid.bare(k));
                    }
                }
                true
            },
            Err(_) => false,
        }
    }

    /// Writes the sidecars of a new SST, as far as that succeeds. Returns
    /// whether both were written.
    pub fn write_for(&mut self, file_id: u64, rows: &[VersionedRow]) -> (r: bool)
        requires
            old(self).wf(),
        ensures
            final(self).wf(),
            final(self).keeps(old(self), Some(file_id)),
            r || old(self).bare(file_id) ==> final(self).fits(
                file_id,
                untagged_rows(row_models(rows@)),
            ),
            final(self).both_written(old(self), file_id, row_models(rows@), r),
    {
        let filtered = self.write_bloom_for(file_id, rows);
        let ghost mid = *self;
        let indexed = self.write_index_for(file_id, rows);
        proof {
            let rs = row_models(rows@);
            law_sidecars_do_not_collide(old(self).dir(), file_id, file_id);
            assert forall|k: u64, ks: Seq<RowModel>|
                Some(k) != Some(file_id) && #[trigger] old(self).fits(k, ks) implies self.fits(
                k,
                ks,
            ) by {
                assert(mid.fits(k, ks));
            }
            assert forall|k: u64| Some(k) != Some(file_id) && #[trigger] old(self).bare(
                k,
            ) implies self.bare(k) by {
                assert(mid.bare(k));
            }
            if mid.filter_fits(file_id, rs) {
                assert(self.filter_fits(file_id, rs));
                lemma_untagged_keys(*self, file_id, rs);
            }
        }
        filtered && indexed
    }

    /// Removes the sidecars of an SST, as far as that succeeds, and forgets
    /// them.
    pub fn retire(&mut self, file_id: u64)
        requires
            old(self).wf(),
        ensures
            final(self).wf(),
            final(self).keeps(old(self), None),
            final(self).gone(file_id),
            forall|k: u64| #[trigger] old(self).gone(k) ==> final(self).gone(k),
    {
        let ghost dir = self.dir();
        let bloom_file = bloom_path(self.dir.as_str(), file_id);
        let _filter_removed = self.disk.remove_file(bloom_file.as_str());
        assert(may_remove_file(old(self).disk, bloom_file@, _filter_removed is Ok));
        let ghost between = self.disk;
        let index_file = key_index_path(self.dir.as_str(), file_id);
        let _index_removed = self.disk.remove_file(index_file.as_str());
        assert(may_remove_file(between, index_file@, _index_removed is Ok));
        let _ = self.filters.remove(file_id);
        let _ = self.indexes.remove(file_id);
        proof {
            assert forall|k: u64, rs: Seq<RowModel>| #[trigger] old(self).fits(k, rs) implies self.fits(
                k,
                rs,
            ) by {
                lemma_nothing_fits(rs);
                law_sidecars_do_not_collide(dir, file_id, k);
                law_sidecars_do_not_collide(dir, k, file_id);
                if k != file_id {
                    law_paths_are_distinct(dir, k, file_id);
                }
            }
        }
    }
}

proof fn lemma_untagged_keys<F: FileIO>(s: Sidecars<F>, id: u64, rs: Seq<RowModel>)
    requires
        s.filter_fits(id, rs),
    ensures
        s.filter_fits(id, untagged_rows(rs)),
{
    let us = untagged_rows(rs);
    assert forall|f: BloomFilter| admits_all(f, rs) implies #[trigger] admits_all(f, us) by {
        assert forall|i: int| 0 <= i < us.len() implies may_hold(f, (#[trigger] us[i]).key) by {
            assert(may_hold(f, rs[i].key));
        }
    }
}

} // verus!
