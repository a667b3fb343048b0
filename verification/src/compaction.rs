//! Compaction planning and priority scheduling.

use crate::buf::{bytes_slice, bytes_view, key_less_or_equal, lex_le};
use crate::metrics::MetricsSnapshot;
use bytes::Bytes;
use std::cmp::Ordering;
use vstd::prelude::*;
use vstd::std_specs::cmp::PartialOrdSpecImpl;

verus! {

/// Supported LSM organization policies.
#[derive(Debug, Clone, Copy, PartialEq, Eq, Structural)]
pub enum CompactionPolicy {
    /// Non-overlapping sorted runs per level.
    Leveled,
    /// Tier all levels except the largest one.
    LazyLeveling,
    /// Merge similarly sized runs without enforcing non-overlap.
    Tiered,
}

/// Compaction layout that a picker reports for a level.
#[derive(Debug, Clone, Copy, PartialEq, Eq, Structural)]
pub enum CompactionLayout {
    /// Non-overlapping sorted runs.
    Leveled,
    /// Tiered but for the largest level.
    LazyLeveling,
    /// Overlapping runs.
    Tiered,
}

/// What kind of compaction a job represents.
#[derive(Debug, Clone, Copy, PartialEq, Eq, PartialOrd, Ord, Structural)]
pub enum CompactionKind {
    /// Newly flushed L0 SST.
    Flush,
    /// Compact L0 down into L1.
    L0ToL1,
    /// Generic level-N to level-(N+1) compaction.
    LevelNToN1,
    /// Bottom-most level cleanup.
    BottomMost,
}

/// Immutable metadata used to plan compaction.
#[derive(Debug, PartialEq, Eq)]
pub struct FileMeta {
    /// Stable file identifier.
    pub file_id: u64,
    /// Current LSM level.
    pub level: u32,
    /// Approximate bytes occupied by the file.
    pub bytes: u64,
    /// Inclusive smallest key.
    pub min_key: Bytes,
    /// Inclusive largest key.
    pub max_key: Bytes,
    /// Wall-clock seconds at which this file was written (`0` when unknown).
    /// Among candidates of equal overlap, older files are compacted first.
    pub created_at: u64,
}

/// What the metadata of a file says.
#[verifier::ext_equal]
pub struct FileModel {
    /// Stable file identifier.
    pub file_id: u64,
    /// Current LSM level.
    pub level: u32,
    /// Approximate bytes occupied by the file.
    pub bytes: u64,
    /// Inclusive smallest key.
    pub min_key: Seq<u8>,
    /// Inclusive largest key.
    pub max_key: Seq<u8>,
    /// Wall-clock seconds at which this file was written.
    pub created_at: u64,
}

impl FileModel {
    /// The key ranges of the files overlap.
    pub open spec fn overlaps(self, other: FileModel) -> bool {
        lex_le(self.min_key, other.max_key) && lex_le(other.min_key, self.max_key)
    }
}

impl View for FileMeta {
    type V = FileModel;

    open spec fn view(&self) -> FileModel {
        FileModel {
            file_id: self.file_id,
            level: self.level,
            bytes: self.bytes,
            min_key: bytes_view(self.min_key),
            max_key: bytes_view(self.max_key),
            created_at: self.created_at,
        }
    }
}

impl Clone for FileMeta {
    fn clone(&self) -> (r: Self)
        ensures
            r@ == self@,
    {
        FileMeta {
            file_id: self.file_id,
            level: self.level,
            bytes: self.bytes,
            min_key: self.min_key.clone(),
            max_key: self.max_key.clone(),
            created_at: self.created_at,
        }
    }
}

impl FileMeta {
    /// Returns whether this file's key range overlaps another's.
    pub fn overlaps(&self, other: &Self) -> (r: bool)
        ensures
            r == self@.overlaps(other@),
    {
        key_less_or_equal(bytes_slice(&self.min_key), bytes_slice(&other.max_key))
            && key_less_or_equal(bytes_slice(&other.min_key), bytes_slice(&self.max_key))
    }
}

/// What a list of files says.
pub open spec fn file_models(files: Seq<FileMeta>) -> Seq<FileModel> {
    files.map_values(|f: FileMeta| f@)
}

/// Work item selected for compaction.
#[derive(Debug, PartialEq, Eq)]
pub struct CompactionJob {
    /// Scheduling class.
    pub kind: CompactionKind,
    /// Input level.
    pub source_level: u32,
    /// Output level.
    pub target_level: u32,
    /// Input file identifiers.
    pub inputs: Vec<u64>,
    /// Estimated bytes read and rewritten.
    pub estimated_bytes: u64,
    /// Higher values run first within a class.
    pub priority: u64,
}

impl Clone for CompactionJob {
    fn clone(&self) -> (r: Self)
        ensures
            r.kind == self.kind,
            r.source_level == self.source_level,
            r.target_level == self.target_level,
            r.inputs@ == self.inputs@,
            r.estimated_bytes == self.estimated_bytes,
            r.priority == self.priority,
    {
        let mut inputs: Vec<u64> = Vec::new();
        inputs.extend_from_slice(self.inputs.as_slice());
        assert(inputs@ =~= self.inputs@);
        CompactionJob {
            kind: self.kind,
            source_level: self.source_level,
            target_level: self.target_level,
            inputs,
            estimated_bytes: self.estimated_bytes,
            priority: self.priority,
        }
    }
}

/// How two jobs are ordered: by priority; among equals the job with more
/// estimated bytes comes first; among those the one from the higher level.
pub open spec fn job_order(a: CompactionJob, b: CompactionJob) -> Ordering {
    if a.priority != b.priority {
        if a.priority < b.priority {
            Ordering::Less
        } else {
            Ordering::Greater
        }
    } else if a.estimated_bytes != b.estimated_bytes {
        if a.estimated_bytes > b.estimated_bytes {
            Ordering::Less
        } else {
            Ordering::Greater
        }
    } else if a.source_level != b.source_level {
        if a.source_level > b.source_level {
            Ordering::Less
        } else {
            Ordering::Greater
        }
    } else {
        Ordering::Equal
    }
}

impl CompactionJob {
    /// Orders two jobs.
    pub fn cmp(&self, other: &Self) -> (r: Ordering)
        ensures
            r == job_order(*self, *other),
    {
        if self.priority != other.priority {
            if self.priority < other.priority {
                Ordering::Less
            } else {
                Ordering::Greater
            }
        } else if self.estimated_bytes != other.estimated_bytes {
            if self.estimated_bytes > other.estimated_bytes {
                Ordering::Less
            } else {
                Ordering::Greater
            }
        } else if self.source_level != other.source_level {
            if self.source_level > other.source_level {
                Ordering::Less
            } else {
                Ordering::Greater
            }
        } else {
            Ordering::Equal
        }
    }
}

impl PartialOrd for CompactionJob {
    fn partial_cmp(&self, other: &Self) -> (r: Option<Ordering>) {
        Some(self.cmp(other))
    }
}

impl PartialOrdSpecImpl for CompactionJob {
    open spec fn obeys_partial_cmp_spec() -> bool {
        true
    }

    open spec fn partial_cmp_spec(&self, other: &Self) -> Option<Ordering> {
        Some(job_order(*self, *other))
    }
}

/// Selects compaction jobs from current file metadata.
pub trait CompactionPicker {
    /// Chooses one deterministic job, or none when the tree is healthy.
    fn pick(&self, files: &[FileMeta]) -> Option<CompactionJob>;

    /// Periodically called with fresh metrics, so that an adaptive picker can
    /// switch layouts. Does nothing unless overridden.
    fn update_from_workload(&mut self, _metrics: &MetricsSnapshot) {
    }

    /// The layout that this picker applies at `level`.
    fn layout(&self, _level: u32) -> (r: CompactionLayout)
        default_ensures
            r == CompactionLayout::LazyLeveling,
    {
        CompactionLayout::LazyLeveling
    }
}

/// `job` is what the picker may choose when it is told of `files`.
pub open spec fn may_pick<P: CompactionPicker>(
    picker: P,
    files: Seq<FileMeta>,
    job: Option<CompactionJob>,
) -> bool {
    exists|told: &[FileMeta]|
        told@ == files && #[trigger] call_ensures(P::pick, (&picker, told), job)
}

/// Selects files with the smallest output-overlap ratio.
#[derive(Debug, Clone, Copy, PartialEq, Eq, Structural)]
pub struct MinOverlappingRatioPicker {
    /// L0 file count that triggers compaction.
    pub l0_trigger: usize,
    /// Maximum level represented by the current policy.
    pub max_level: u32,
    /// Selected LSM policy.
    pub policy: CompactionPolicy,
}

/// Merges similarly sized runs on small levels and falls back to leveled on
/// large ones.
#[derive(Debug, Clone, Copy, PartialEq, Eq, Structural)]
pub struct TieredPicker {
    /// L0 file count that triggers compaction.
    pub l0_trigger: usize,
    /// Level at which compaction switches from tiered to leveled.
    pub leveled_from_level: u32,
    /// Maximum level.
    pub max_level: u32,
}

// ── What a picker chooses ─────────────────────────────────────────────────

/// The files of one level, in the order given.
pub open spec fn at_level(fs: Seq<FileModel>, level: u32) -> Seq<FileModel>
    decreases fs.len(),
{
    if fs.len() == 0 {
        Seq::empty()
    } else if fs.last().level == level {
        at_level(fs.drop_last(), level).push(fs.last())
    } else {
        at_level(fs.drop_last(), level)
    }
}

/// The bytes of the files together.
pub open spec fn total_bytes(fs: Seq<FileModel>) -> int
    decreases fs.len(),
{
    if fs.len() == 0 {
        0
    } else {
        total_bytes(fs.drop_last()) + fs.last().bytes
    }
}

/// `n`, or the largest counter where it is beyond that.
pub open spec fn capped(n: int) -> u64 {
    if n <= u64::MAX {
        n as u64
    } else {
        u64::MAX
    }
}

/// The files that overlap `f`.
pub open spec fn overlapping(fs: Seq<FileModel>, f: FileModel) -> Seq<FileModel>
    decreases fs.len(),
{
    if fs.len() == 0 {
        Seq::empty()
    } else if f.overlaps(fs.last()) {
        overlapping(fs.drop_last(), f).push(fs.last())
    } else {
        overlapping(fs.drop_last(), f)
    }
}

/// Overlapped bytes of `f` per thousand of its own.
pub open spec fn ratio(f: FileModel, target: Seq<FileModel>) -> u64 {
    let own: int = if f.bytes == 0 {
        1
    } else {
        f.bytes as int
    };
    ((capped(capped(total_bytes(overlapping(target, f))) * 1000) as int) / own) as u64
}

/// File `a` is compacted before file `b`: less overlap, or equal overlap and
/// older.
pub open spec fn preferred(a: FileModel, b: FileModel, target: Seq<FileModel>) -> bool {
    ratio(a, target) < ratio(b, target) || (ratio(a, target) == ratio(b, target) && a.created_at
        < b.created_at)
}

/// Place `c` holds the file to compact: no file is preferred to it, and it is
/// preferred to every file before it.
pub open spec fn is_choice(source: Seq<FileModel>, target: Seq<FileModel>, c: int) -> bool {
    &&& 0 <= c < source.len()
    &&& forall|j: int| 0 <= j < source.len() ==> !preferred(#[trigger] source[j], source[c], target)
    &&& forall|j: int| 0 <= j < c ==> preferred(source[c], #[trigger] source[j], target)
}

/// The identifiers of the files.
pub open spec fn ids(fs: Seq<FileModel>) -> Seq<u64> {
    fs.map_values(|f: FileModel| f.file_id)
}

/// Never descending.
pub open spec fn sorted(s: Seq<u64>) -> bool {
    forall|i: int, j: int| 0 <= i <= j < s.len() ==> s[i] <= s[j]
}

/// `inputs` are the identifiers of the files, sorted.
pub open spec fn lists_ids(inputs: Seq<u64>, fs: Seq<FileModel>) -> bool {
    sorted(inputs) && inputs.to_multiset() == ids(fs).to_multiset()
}

/// How many files a level holds before it is compacted.
pub open spec fn capacity(level: u32, policy: CompactionPolicy) -> nat {
    match policy {
        CompactionPolicy::Leveled => 1,
        CompactionPolicy::LazyLeveling => if level <= 2 {
            4
        } else {
            1
        },
        CompactionPolicy::Tiered => 4,
    }
}

/// The level holds more files than it should.
pub open spec fn over_capacity(fs: Seq<FileModel>, level: u32, policy: CompactionPolicy) -> bool {
    at_level(fs, level).len() > capacity(level, policy)
}

/// The file touches the key range that the files of `l0` span.
pub open spec fn in_span(f: FileModel, l0: Seq<FileModel>) -> bool {
    &&& exists|i: int| 0 <= i < l0.len() && lex_le(f.min_key, (#[trigger] l0[i]).max_key)
    &&& exists|i: int| 0 <= i < l0.len() && lex_le((#[trigger] l0[i]).min_key, f.max_key)
}

/// The files that touch the key range of `l0`.
pub open spec fn spanned(fs: Seq<FileModel>, l0: Seq<FileModel>) -> Seq<FileModel>
    decreases fs.len(),
{
    if fs.len() == 0 {
        Seq::empty()
    } else if in_span(fs.last(), l0) {
        spanned(fs.drop_last(), l0).push(fs.last())
    } else {
        spanned(fs.drop_last(), l0)
    }
}

/// The job that merges all of L0 with what it touches in L1.
pub open spec fn is_l0_job(job: CompactionJob, l0: Seq<FileModel>, l1: Seq<FileModel>) -> bool {
    let merged = l0 + spanned(l1, l0);
    &&& job.kind == CompactionKind::L0ToL1
    &&& job.source_level == 0
    &&& job.target_level == 1
    &&& lists_ids(job.inputs@, merged)
    &&& job.estimated_bytes == capped(total_bytes(merged))
    &&& job.priority == l0.len()
}

/// The job that moves the file at place `c` of a level down by one.
pub open spec fn is_level_job(
    job: CompactionJob,
    source: Seq<FileModel>,
    target: Seq<FileModel>,
    c: int,
    level: u32,
    max_level: u32,
) -> bool {
    let merged = seq![source[c]] + overlapping(target, source[c]);
    &&& job.kind == (if level + 1 >= max_level {
        CompactionKind::BottomMost
    } else {
        CompactionKind::LevelNToN1
    })
    &&& job.source_level == level
    &&& job.target_level == level + 1
    &&& lists_ids(job.inputs@, merged)
    &&& job.estimated_bytes == capped(total_bytes(merged))
    &&& job.priority == u64::MAX - capped(total_bytes(overlapping(target, source[c])))
}

/// What the picker answers: an L0 job once L0 has reached its trigger, else a
/// job for the first level that is over its capacity, else none.
pub open spec fn is_pick(
    picker: MinOverlappingRatioPicker,
    fs: Seq<FileModel>,
    r: Option<CompactionJob>,
) -> bool {
    let l0 = at_level(fs, 0);
    if l0.len() >= picker.l0_trigger {
        match r {
            Some(job) => l0.len() > 0 && is_l0_job(job, l0, at_level(fs, 1)),
            None => l0.len() == 0,
        }
    } else {
        match r {
            Some(job) => {
                &&& 1 <= job.source_level < picker.max_level
                &&& over_capacity(fs, job.source_level, picker.policy)
                &&& forall|l: u32|
                    1 <= l < job.source_level ==> !#[trigger] over_capacity(fs, l, picker.policy)
                &&& exists|c: int| #[trigger]
                    is_choice(
                        at_level(fs, job.source_level),
                        at_level(fs, (job.source_level + 1) as u32),
                        c,
                    ) && is_level_job(
                        job,
                        at_level(fs, job.source_level),
                        at_level(fs, (job.source_level + 1) as u32),
                        c,
                        job.source_level,
                        picker.max_level,
                    )
            },
            None => forall|l: u32|
                1 <= l < picker.max_level ==> !#[trigger] over_capacity(fs, l, picker.policy),
        }
    }
}

// ── Laws ──────────────────────────────────────────────────────────────────

/// The order of jobs is one: it is never symmetric but for equals, and it is
/// transitive.
pub proof fn law_job_order_is_total(a: CompactionJob, b: CompactionJob, c: CompactionJob)
    ensures
        job_order(a, b) is Less <==> job_order(b, a) is Greater,
        job_order(a, b) is Equal <==> job_order(b, a) is Equal,
        job_order(a, b) is Less && job_order(b, c) is Less ==> job_order(a, c) is Less,
        job_order(a, b) is Equal && job_order(b, c) is Equal ==> job_order(a, c) is Equal,
{
}

/// A file to compact is unique.
pub proof fn law_choice_is_unique(source: Seq<FileModel>, target: Seq<FileModel>, c: int, d: int)
    requires
        is_choice(source, target, c),
        is_choice(source, target, d),
    ensures
        c == d,
{
    if c < d {
        assert(preferred(source[d], source[c], target));
        assert(!preferred(source[d], source[c], target));
    } else if d < c {
        assert(preferred(source[c], source[d], target));
        assert(!preferred(source[c], source[d], target));
    }
}

/// Every input of a picked job is one of the files, at the job's source or
/// target level.
pub proof fn law_inputs_are_files(
    picker: MinOverlappingRatioPicker,
    fs: Seq<FileModel>,
    job: CompactionJob,
    id: u64,
)
    requires
        is_pick(picker, fs, Some(job)),
        job.inputs@.contains(id),
    ensures
        job.target_level == job.source_level + 1,
        exists|i: int|
            0 <= i < fs.len() && (#[trigger] fs[i]).file_id == id && (fs[i].level
                == job.source_level || fs[i].level == job.target_level),
{
    broadcast use vstd::seq_lib::group_to_multiset_ensures;

    let l0 = at_level(fs, 0);
    let source = at_level(fs, job.source_level);
    let target = at_level(fs, (job.source_level + 1) as u32);
    let merged: Seq<FileModel> = if l0.len() >= picker.l0_trigger {
        l0 + spanned(target, l0)
    } else {
        let c = choose|c: int| #[trigger]
            is_choice(source, target, c) && is_level_job(
                job,
                source,
                target,
                c,
                job.source_level,
                picker.max_level,
            );
        seq![source[c]] + overlapping(target, source[c])
    };
    assert(job.inputs@.to_multiset().contains(id));
    assert(ids(merged).contains(id));
    let k = choose|k: int| 0 <= k < ids(merged).len() && ids(merged)[k] == id;
    let f = merged[k];
    assert(f.file_id == id);
    lemma_at_level(fs, job.source_level);
    lemma_at_level(fs, (job.source_level + 1) as u32);
    if source.contains(f) {
    } else {
        if l0.len() >= picker.l0_trigger {
            lemma_spanned(target, l0);
            assert(spanned(target, l0).contains(f)) by {
                assert(f == spanned(target, l0)[k - l0.len()]);
            }
        } else {
            let c = choose|c: int| #[trigger]
                is_choice(source, target, c) && is_level_job(
                    job,
                    source,
                    target,
                    c,
                    job.source_level,
                    picker.max_level,
                );
            lemma_overlapping(target, source[c]);
            if k == 0 {
                assert(source.contains(source[c]));
            }
            assert(overlapping(target, source[c]).contains(f)) by {
                assert(f == overlapping(target, source[c])[k - 1]);
            }
        }
        assert(target.contains(f));
    }
}

proof fn lemma_at_level(fs: Seq<FileModel>, level: u32)
    ensures
        forall|f: FileModel|
            #[trigger] at_level(fs, level).contains(f) ==> f.level == level && exists|i: int|
                0 <= i < fs.len() && #[trigger] fs[i] == f,
    decreases fs.len(),
{
    if fs.len() > 0 {
        let init = fs.drop_last();
        lemma_at_level(init, level);
        assert forall|f: FileModel| #[trigger] at_level(fs, level).contains(f) implies f.level == level
            && exists|i: int| 0 <= i < fs.len() && #[trigger] fs[i] == f by {
            let k = choose|k: int|
                0 <= k < at_level(fs, level).len() && at_level(fs, level)[k] == f;
            if k < at_level(init, level).len() {
                assert(at_level(init, level)[k] == f);
                assert(at_level(init, level).contains(f));
                let i = choose|i: int| 0 <= i < init.len() && #[trigger] init[i] == f;
                assert(fs[i] == f);
            } else {
                assert(fs[fs.len() - 1] == f);
            }
        }
    }
}

proof fn lemma_spanned(fs: Seq<FileModel>, l0: Seq<FileModel>)
    ensures
        forall|f: FileModel| #[trigger] spanned(fs, l0).contains(f) ==> fs.contains(f),
    decreases fs.len(),
{
    if fs.len() > 0 {
        let init = fs.drop_last();
        lemma_spanned(init, l0);
        assert forall|f: FileModel| #[trigger] spanned(fs, l0).contains(f) implies fs.contains(f) by {
            let k = choose|k: int| 0 <= k < spanned(fs, l0).len() && spanned(fs, l0)[k] == f;
            if k < spanned(init, l0).len() {
                assert(spanned(init, l0)[k] == f);
                assert(spanned(init, l0).contains(f));
                let i = choose|i: int| 0 <= i < init.len() && init[i] == f;
                assert(fs[i] == f);
            } else {
                assert(fs[fs.len() - 1] == f);
            }
        }
    }
}

proof fn lemma_overlapping(fs: Seq<FileModel>, g: FileModel)
    ensures
        forall|f: FileModel| #[trigger] overlapping(fs, g).contains(f) ==> fs.contains(f),
    decreases fs.len(),
{
    if fs.len() > 0 {
        let init = fs.drop_last();
        lemma_overlapping(init, g);
        assert forall|f: FileModel| #[trigger] overlapping(fs, g).contains(f) implies fs.contains(f) by {
            let k = choose|k: int| 0 <= k < overlapping(fs, g).len() && overlapping(fs, g)[k] == f;
            if k < overlapping(init, g).len() {
                assert(overlapping(init, g)[k] == f);
                assert(overlapping(init, g).contains(f));
                let i = choose|i: int| 0 <= i < init.len() && init[i] == f;
                assert(fs[i] == f);
            } else {
                assert(fs[fs.len() - 1] == f);
            }
        }
    }
}

proof fn lemma_total_is_not_negative(fs: Seq<FileModel>)
    ensures
        total_bytes(fs) >= 0,
    decreases fs.len(),
{
    if fs.len() > 0 {
        lemma_total_is_not_negative(fs.drop_last());
    }
}

proof fn lemma_total_push(fs: Seq<FileModel>, f: FileModel)
    ensures
        total_bytes(fs.push(f)) == total_bytes(fs) + f.bytes,
        total_bytes(fs) >= 0,
{
    assert(fs.push(f).drop_last() =~= fs);
    lemma_total_is_not_negative(fs);
}

/// Adding one more identifier to a sorted list.
proof fn lemma_insert_listed(inputs: Seq<u64>, at: int, fs: Seq<FileModel>, f: FileModel)
    requires
        lists_ids(inputs, fs),
        0 <= at <= inputs.len(),
        forall|i: int| 0 <= i < at ==> inputs[i] <= f.file_id,
        forall|i: int| at <= i < inputs.len() ==> f.file_id <= inputs[i],
    ensures
        lists_ids(inputs.insert(at, f.file_id), fs.push(f)),
{
    broadcast use vstd::seq_lib::group_to_multiset_ensures;

    let after = inputs.insert(at, f.file_id);
    assert(after.remove(at) =~= inputs);
    assert(after[at] == f.file_id);
    assert(after.to_multiset().remove(f.file_id) == inputs.to_multiset());
    assert(after.contains(f.file_id));
    assert(after.to_multiset().contains(f.file_id));
    assert(after.to_multiset() =~= inputs.to_multiset().insert(f.file_id));
    assert(ids(fs.push(f)) =~= ids(fs).push(f.file_id));
    assert(ids(fs).push(f.file_id).to_multiset() =~= ids(fs).to_multiset().insert(f.file_id));
    assert forall|i: int, j: int| 0 <= i <= j < after.len() implies after[i] <= after[j] by {
        let a = if i < at {
            inputs[i]
        } else if i == at {
            f.file_id
        } else {
            inputs[i - 1]
        };
        let b = if j < at {
            inputs[j]
        } else if j == at {
            f.file_id
        } else {
            inputs[j - 1]
        };
        assert(after[i] == a && after[j] == b);
    }
}

// ── Picking ───────────────────────────────────────────────────────────────

/// A growing job: its files, their identifiers in order, and their bytes.
struct Plan {
    inputs: Vec<u64>,
    bytes: u64,
}

impl Plan {
    spec fn covers(&self, fs: Seq<FileModel>) -> bool {
        lists_ids(self.inputs@, fs) && self.bytes == capped(total_bytes(fs))
    }

    fn new() -> (r: Self)
        ensures
            r.covers(Seq::<FileModel>::empty()),
    {
        let r = Plan { inputs: Vec::new(), bytes: 0 };
        assert(ids(Seq::<FileModel>::empty()) =~= r.inputs@);
        r
    }

    fn add_file(&mut self, file: &FileMeta, Ghost(fs): Ghost<Seq<FileModel>>)
        requires
            old(self).covers(fs),
        ensures
            final(self).covers(fs.push(file@)),
    {
        let mut at: usize = 0;
        while at < self.inputs.len() && self.inputs[at] <= file.file_id
            invariant
                self.covers(fs),
                at <= self.inputs@.len(),
                forall|i: int| 0 <= i < at ==> self.inputs@[i] <= file.file_id,
            decreases self.inputs@.len() - at,
        {
            at += 1;
        }
        proof {
            lemma_insert_listed(self.inputs@, at as int, fs, file@);
            lemma_total_push(fs, file@);
        }
        self.inputs.insert(at, file.file_id);
        self.bytes = self.bytes.saturating_add(file.bytes);
    }
}

/// Whether some L0 file of `files` ends at or behind `key`.
fn some_max_reaches(files: &[FileMeta], key: &Bytes) -> (r: bool)
    ensures
        r == exists|i: int|
            0 <= i < at_level(file_models(files@), 0).len() && lex_le(
                bytes_view(*key),
                (#[trigger] at_level(file_models(files@), 0)[i]).max_key,
            ),
{
    let ghost fs = file_models(files@);
    let mut i: usize = 0;
    while i < files.len()
        invariant
            fs == file_models(files@),
            i <= files@.len(),
            forall|j: int|
                0 <= j < at_level(fs.take(i as int), 0).len() ==> !lex_le(
                    bytes_view(*key),
                    (#[trigger] at_level(fs.take(i as int), 0)[j]).max_key,
                ),
        decreases files@.len() - i,
    {
        let ghost next = fs.take(i + 1);
        proof {
            assert(next.drop_last() =~= fs.take(i as int));
            assert(next.last() == files@[i as int]@);
        }
        if files[i].level == 0 && key_less_or_equal(
            bytes_slice(key),
            bytes_slice(&files[i].max_key),
        ) {
            proof {
                let at = at_level(fs.take(i as int), 0).len() as int;
                assert(at_level(next, 0)[at] == files@[i as int]@);
                lemma_level_prefix(fs, i + 1, 0);
                assert(at_level(fs, 0)[at] == files@[i as int]@);
            }
            return true;
        }
        proof {
            let here = at_level(fs.take(i as int), 0);
            assert forall|j: int| 0 <= j < at_level(next, 0).len() implies !lex_le(
                    bytes_view(*key),
                    (#[trigger] at_level(next, 0)[j]).max_key,
            ) by {
                if j < here.len() {
                    assert(at_level(next, 0)[j] == here[j]);
                }
            }
        }
        i += 1;
    }
    assert(fs.take(i as int) =~= fs);
    false
}

/// Whether some L0 file of `files` begins at or before `key`.
fn some_min_reaches(files: &[FileMeta], key: &Bytes) -> (r: bool)
    ensures
        r == exists|i: int|
            0 <= i < at_level(file_models(files@), 0).len() && lex_le(
                (#[trigger] at_level(file_models(files@), 0)[i]).min_key,
                bytes_view(*key),
            ),
{
    let ghost fs = file_models(files@);
    let mut i: usize = 0;
    while i < files.len()
        invariant
            fs == file_models(files@),
            i <= files@.len(),
            forall|j: int|
                0 <= j < at_level(fs.take(i as int), 0).len() ==> !lex_le(
                    (#[trigger] at_level(fs.take(i as int), 0)[j]).min_key,
                    bytes_view(*key),
                ),
        decreases files@.len() - i,
    {
        let ghost next = fs.take(i + 1);
        proof {
            assert(next.drop_last() =~= fs.take(i as int));
            assert(next.last() == files@[i as int]@);
        }
        if files[i].level == 0 && key_less_or_equal(
            bytes_slice(&files[i].min_key),
            bytes_slice(key),
        ) {
            proof {
                let at = at_level(fs.take(i as int), 0).len() as int;
                assert(at_level(next, 0)[at] == files@[i as int]@);
                lemma_level_prefix(fs, i + 1, 0);
                assert(at_level(fs, 0)[at] == files@[i as int]@);
            }
            return true;
        }
        proof {
            let here = at_level(fs.take(i as int), 0);
            assert forall|j: int| 0 <= j < at_level(next, 0).len() implies !lex_le(
                    (#[trigger] at_level(next, 0)[j]).min_key,
                    bytes_view(*key),
            ) by {
                if j < here.len() {
                    assert(at_level(next, 0)[j] == here[j]);
                }
            }
        }
        i += 1;
    }
    assert(fs.take(i as int) =~= fs);
    false
}

proof fn lemma_level_prefix(fs: Seq<FileModel>, n: int, level: u32)
    requires
        0 <= n <= fs.len(),
    ensures
        at_level(fs.take(n), level).len() <= at_level(fs, level).len(),
        forall|i: int|
            0 <= i < at_level(fs.take(n), level).len() ==> #[trigger] at_level(fs, level)[i]
                == at_level(fs.take(n), level)[i],
    decreases fs.len(),
{
    if n == fs.len() {
        assert(fs.take(n) =~= fs);
    } else {
        lemma_level_prefix(fs.drop_last(), n, level);
        assert(fs.drop_last().take(n) =~= fs.take(n));
    }
}

fn level_capacity(level: u32, policy: CompactionPolicy) -> (r: usize)
    ensures
        r == capacity(level, policy),
{
    match policy {
        CompactionPolicy::Leveled => 1,
        CompactionPolicy::LazyLeveling => {
            if level <= 2 {
                4
            } else {
                1
            }
        },
        CompactionPolicy::Tiered => 4,
    }
}

fn count_level(files: &[FileMeta], level: u32) -> (r: usize)
    ensures
        r == at_level(file_models(files@), level).len(),
{
    let ghost fs = file_models(files@);
    let mut n: usize = 0;
    let mut i: usize = 0;
    while i < files.len()
        invariant
            fs == file_models(files@),
            i <= files@.len(),
            n <= i,
            n == at_level(fs.take(i as int), level).len(),
        decreases files@.len() - i,
    {
        proof {
            assert(fs.take(i + 1).drop_last() =~= fs.take(i as int));
            assert(fs.take(i + 1).last() == files@[i as int]@);
        }
        if files[i].level == level {
            n += 1;
        }
        i += 1;
    }
    assert(fs.take(i as int) =~= fs);
    n
}

/// The job for all of L0; none where L0 is empty.
fn build_l0_job(files: &[FileMeta]) -> (r: Option<CompactionJob>)
    ensures
        ({
            let fs = file_models(files@);
            let l0 = at_level(fs, 0);
            match r {
                Some(job) => l0.len() > 0 && is_l0_job(job, l0, at_level(fs, 1)),
                None => l0.len() == 0,
            }
        }),
{
    let ghost fs = file_models(files@);
    let ghost l0 = at_level(fs, 0);
    let count: usize = count_level(files, 0);
    if count == 0 {
        return None;
    }
    let mut plan = Plan::new();
    let ghost mut merged: Seq<FileModel> = Seq::empty();
    let mut i: usize = 0;
    while i < files.len()
        invariant
            fs == file_models(files@),
            i <= files@.len(),
            merged == at_level(fs.take(i as int), 0),
            plan.covers(merged),
        decreases files@.len() - i,
    {
        proof {
            assert(fs.take(i + 1).drop_last() =~= fs.take(i as int));
            assert(fs.take(i + 1).last() == files@[i as int]@);
        }
        if files[i].level == 0 {
            plan.add_file(&files[i], Ghost(merged));
            proof {
                merged = merged.push(files@[i as int]@);
            }
        }
        i += 1;
    }
    assert(fs.take(i as int) =~= fs);
    let mut i: usize = 0;
    assert(merged =~= l0 + spanned(at_level(fs.take(0), 1), l0));
    while i < files.len()
        invariant
            fs == file_models(files@),
            l0 == at_level(fs, 0),
            i <= files@.len(),
            merged == l0 + spanned(at_level(fs.take(i as int), 1), l0),
            plan.covers(merged),
        decreases files@.len() - i,
    {
        let ghost next = fs.take(i + 1);
        proof {
            assert(next.drop_last() =~= fs.take(i as int));
            assert(next.last() == files@[i as int]@);
        }
        let file = &files[i];
        if file.level == 1 {
            proof {
                assert(at_level(next, 1).drop_last() =~= at_level(fs.take(i as int), 1));
                assert(at_level(next, 1).last() == file@);
            }
            let reached = some_max_reaches(files, &file.min_key) && some_min_reaches(
                files,
                &file.max_key,
            );
            assert(reached == in_span(file@, l0));
            if reached {
                plan.add_file(file, Ghost(merged));
                proof {
                    merged = merged.push(file@);
                    assert(merged =~= l0 + spanned(at_level(next, 1), l0));
                }
            }
        }
        i += 1;
    }
    assert(fs.take(i as int) =~= fs);
    Some(
        CompactionJob {
            kind: CompactionKind::L0ToL1,
            source_level: 0,
            target_level: 1,
            inputs: plan.inputs,
            estimated_bytes: plan.bytes,
            priority: count as u64,
        },
    )
}

/// The overlapped bytes of `candidate` in a level.
fn overlap_bytes(candidate: &FileMeta, files: &[FileMeta], level: u32) -> (r: u64)
    ensures
        r == capped(
            total_bytes(overlapping(at_level(file_models(files@), level), candidate@)),
        ),
{
    let ghost fs = file_models(files@);
    let mut total: u64 = 0;
    let mut i: usize = 0;
    while i < files.len()
        invariant
            fs == file_models(files@),
            i <= files@.len(),
            total == capped(
                total_bytes(overlapping(at_level(fs.take(i as int), level), candidate@)),
            ),
        decreases files@.len() - i,
    {
        let ghost next = fs.take(i + 1);
        proof {
            assert(next.drop_last() =~= fs.take(i as int));
            assert(next.last() == files@[i as int]@);
        }
        if files[i].level == level {
            proof {
                assert(at_level(next, level).drop_last() =~= at_level(fs.take(i as int), level));
                assert(at_level(next, level).last() == files@[i as int]@);
            }
            if candidate.overlaps(&files[i]) {
                proof {
                    lemma_total_push(
                        overlapping(at_level(fs.take(i as int), level), candidate@),
                        files@[i as int]@,
                    );
                }
                total = total.saturating_add(files[i].bytes);
            }
        }
        i += 1;
    }
    assert(fs.take(i as int) =~= fs);
    total
}

/// Overlap ratio of `candidate` against a level, scaled by a thousand.
fn overlap_ratio(candidate: &FileMeta, files: &[FileMeta], level: u32) -> (r: u64)
    ensures
        r == ratio(candidate@, at_level(file_models(files@), level)),
{
    let overlapped: u64 = overlap_bytes(candidate, files, level);
    let own: u64 = if candidate.bytes == 0 {
        1
    } else {
        candidate.bytes
    };
    let scaled: u64 = match overlapped.checked_mul(1_000) {
        Some(product) => product,
        None => u64::MAX,
    };
    assert(scaled == capped(overlapped * 1000));
    scaled / own
}

fn overlap_priority(candidate: &FileMeta, files: &[FileMeta], level: u32) -> (r: u64)
    ensures
        r == u64::MAX - capped(
            total_bytes(overlapping(at_level(file_models(files@), level), candidate@)),
        ),
{
    u64::MAX - overlap_bytes(candidate, files, level)
}

/// Index in `files` of the file to compact of a level: least overlap ratio,
/// then oldest, then first.
fn choose_min_overlap(files: &[FileMeta], level: u32, target: u32) -> (r: Option<usize>)
    ensures
        ({
            let fs = file_models(files@);
            match r {
                Some(i) => i < files@.len() && exists|c: int| #[trigger]
                    is_choice(at_level(fs, level), at_level(fs, target), c) && at_level(
                        fs,
                        level,
                    )[c] == files@[i as int]@,
                None => at_level(fs, level).len() == 0,
            }
        }),
{
    let ghost fs = file_models(files@);
    let ghost tg = at_level(fs, target);
    let mut best: Option<usize> = None;
    let mut best_ratio: u64 = 0;
    let ghost mut c: int = 0;
    let mut i: usize = 0;
    while i < files.len()
        invariant
            fs == file_models(files@),
            tg == at_level(fs, target),
            i <= files@.len(),
            best is None ==> at_level(fs.take(i as int), level).len() == 0,
            best matches Some(b) ==> {
                &&& b < files@.len()
                &&& is_choice(at_level(fs.take(i as int), level), tg, c)
                &&& at_level(fs.take(i as int), level)[c] == files@[b as int]@
                &&& best_ratio == ratio(files@[b as int]@, tg)
            },
        decreases files@.len() - i,
    {
        let ghost here = at_level(fs.take(i as int), level);
        let ghost next = at_level(fs.take(i + 1), level);
        proof {
            assert(fs.take(i + 1).drop_last() =~= fs.take(i as int));
            assert(fs.take(i + 1).last() == files@[i as int]@);
        }
        if files[i].level == level {
            assert(next == here.push(files@[i as int]@));
            let this: u64 = overlap_ratio(&files[i], files, target);
            let better = match best {
                None => true,
                Some(b) => this < best_ratio || (this == best_ratio && files[i].created_at
                    < files[b].created_at),
            };
            if better {
                proof {
                    let d = here.len() as int;
                    assert(next[d] == files@[i as int]@);
                    assert forall|j: int| 0 <= j < d implies preferred(
                        next[d],
                        #[trigger] next[j],
                        tg,
                    ) by {
                        assert(next[j] == here[j]);
                        if best is Some {
                            assert(!preferred(here[j], here[c], tg));
                        }
                    }
                    assert(is_choice(next, tg, d));
                    c = d;
                }
                best = Some(i);
                best_ratio = this;
            } else {
                proof {
                    assert(next[c] == here[c]);
                    assert forall|j: int| 0 <= j < next.len() implies !preferred(
                        #[trigger] next[j],
                        next[c],
                        tg,
                    ) by {
                        if j < here.len() {
                            assert(next[j] == here[j]);
                        }
                    }
                    assert forall|j: int| 0 <= j < c implies preferred(
                        next[c],
                        #[trigger] next[j],
                        tg,
                    ) by {
                        assert(next[j] == here[j]);
                    }
                    assert(is_choice(next, tg, c));
                }
            }
        }
        i += 1;
    }
    assert(fs.take(i as int) =~= fs);
    best
}

/// The job for a level that is over its capacity.
fn build_level_job(files: &[FileMeta], level: u32, max_level: u32) -> (r: CompactionJob)
    requires
        level < max_level,
        at_level(file_models(files@), level).len() > 0,
    ensures
        ({
            let fs = file_models(files@);
            let source = at_level(fs, level);
            let target = at_level(fs, (level + 1) as u32);
            r.source_level == level && exists|c: int| #[trigger]
                is_choice(source, target, c) && is_level_job(r, source, target, c, level, max_level)
        }),
{
    let ghost fs = file_models(files@);
    let below: u32 = level + 1;
    let ghost source = at_level(fs, level);
    let ghost target = at_level(fs, below);
    let picked: usize = match choose_min_overlap(files, level, below) {
        Some(i) => i,
        None => 0,
    };
    let candidate = &files[picked];
    let ghost c = choose|c: int| #[trigger]
        is_choice(source, target, c) && source[c] == files@[picked as int]@;
    let mut plan = Plan::new();
    plan.add_file(candidate, Ghost(Seq::empty()));
    let ghost mut merged: Seq<FileModel> = Seq::empty().push(candidate@);
    let mut i: usize = 0;
    assert(merged =~= seq![candidate@] + overlapping(at_level(fs.take(0), below), candidate@));
    while i < files.len()
        invariant
            fs == file_models(files@),
            i <= files@.len(),
            merged == seq![candidate@] + overlapping(
                at_level(fs.take(i as int), below),
                candidate@,
            ),
            plan.covers(merged),
        decreases files@.len() - i,
    {
        let ghost next = fs.take(i + 1);
        proof {
            assert(next.drop_last() =~= fs.take(i as int));
            assert(next.last() == files@[i as int]@);
        }
        let file = &files[i];
        if file.level == below {
            proof {
                assert(at_level(next, below).drop_last() =~= at_level(fs.take(i as int), below));
                assert(at_level(next, below).last() == file@);
            }
            if candidate.overlaps(file) {
                plan.add_file(file, Ghost(merged));
                proof {
                    merged = merged.push(file@);
                    assert(merged =~= seq![candidate@] + overlapping(
                        at_level(next, below),
                        candidate@,
                    ));
                }
            }
        }
        i += 1;
    }
    assert(fs.take(i as int) =~= fs);
    let r = CompactionJob {
        kind: if below >= max_level {
            CompactionKind::BottomMost
        } else {
            CompactionKind::LevelNToN1
        },
        source_level: level,
        target_level: below,
        inputs: plan.inputs,
        estimated_bytes: plan.bytes,
        priority: overlap_priority(candidate, files, below),
    };
    assert(is_level_job(r, source, target, c, level, max_level));
    r
}

impl MinOverlappingRatioPicker {
    fn pick_inner(&self, files: &[FileMeta]) -> (r: Option<CompactionJob>)
        ensures
            is_pick(*self, file_models(files@), r),
    {
        let ghost fs = file_models(files@);
        if count_level(files, 0) >= self.l0_trigger {
            return build_l0_job(files);
        }
        let mut level: u32 = 1;
        while level < self.max_level
            invariant
                fs == file_models(files@),
                at_level(fs, 0).len() < self.l0_trigger,
                1 <= level,
                level <= self.max_level || level == 1,
                forall|l: u32| 1 <= l < level ==> !#[trigger] over_capacity(fs, l, self.policy),
            decreases self.max_level - level,
        {
            if count_level(files, level) > level_capacity(level, self.policy) {
                assert(over_capacity(fs, level, self.policy));
                return Some(build_level_job(files, level, self.max_level));
            }
            level += 1;
        }
        None
    }
}

impl Default for MinOverlappingRatioPicker {
    fn default() -> (r: Self)
        ensures
            r.l0_trigger == 4,
            r.max_level == 6,
            r.policy == CompactionPolicy::LazyLeveling,
    {
        MinOverlappingRatioPicker {
            l0_trigger: 4,
            max_level: 6,
            policy: CompactionPolicy::LazyLeveling,
        }
    }
}

/// The layout that a policy applies at a level.
pub open spec fn policy_layout(policy: CompactionPolicy, level: u32) -> CompactionLayout {
    if level == 0 {
        CompactionLayout::Tiered
    } else {
        match policy {
            CompactionPolicy::Leveled => CompactionLayout::Leveled,
            CompactionPolicy::LazyLeveling => CompactionLayout::LazyLeveling,
            CompactionPolicy::Tiered => CompactionLayout::Tiered,
        }
    }
}

impl CompactionPicker for MinOverlappingRatioPicker {
    fn pick(&self, files: &[FileMeta]) -> (r: Option<CompactionJob>)
        ensures
            is_pick(*self, file_models(files@), r),
    {
        self.pick_inner(files)
    }

    fn layout(&self, level: u32) -> (r: CompactionLayout)
        ensures
            r == policy_layout(self.policy, level),
    {
        if level == 0 {
            return CompactionLayout::Tiered;
        }
        match self.policy {
            CompactionPolicy::Leveled => CompactionLayout::Leveled,
            CompactionPolicy::LazyLeveling => CompactionLayout::LazyLeveling,
            CompactionPolicy::Tiered => CompactionLayout::Tiered,
        }
    }
}

impl Default for TieredPicker {
    fn default() -> (r: Self)
        ensures
            r.l0_trigger == 4,
            r.leveled_from_level == 2,
            r.max_level == 6,
    {
        TieredPicker { l0_trigger: 4, leveled_from_level: 2, max_level: 6 }
    }
}

impl CompactionPicker for TieredPicker {
    fn pick(&self, files: &[FileMeta]) -> (r: Option<CompactionJob>)
        ensures
            is_pick(
                (MinOverlappingRatioPicker {
                    l0_trigger: self.l0_trigger,
                    max_level: self.max_level,
                    policy: CompactionPolicy::Tiered,
                }),
                file_models(files@),
                r,
            ),
    {
        MinOverlappingRatioPicker {
            l0_trigger: self.l0_trigger,
            max_level: self.max_level,
            policy: CompactionPolicy::Tiered,
        }.pick_inner(files)
    }

    fn layout(&self, level: u32) -> (r: CompactionLayout)
        ensures
            r == (if level == 0 || level < self.leveled_from_level {
                CompactionLayout::Tiered
            } else {
                CompactionLayout::Leveled
            }),
    {
        if level == 0 || level < self.leveled_from_level {
            CompactionLayout::Tiered
        } else {
            CompactionLayout::Leveled
        }
    }
}

} // verus!
