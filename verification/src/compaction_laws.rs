//! What picking a compaction job comes down to.

use crate::buf::{lemma_lex_total, lex_le, lex_lt};
use crate::compaction::{
    at_level, capped, file_models, ids, in_span, is_choice, is_level_job, is_pick, lists_ids,
    over_capacity, overlapping, policy_layout, preferred, ratio, spanned, total_bytes,
    CompactionJob, CompactionKind, CompactionLayout, CompactionPicker, CompactionPolicy, FileMeta,
    FileModel, MinOverlappingRatioPicker,
};
use vstd::prelude::*;

verus! {

/// The key ranges of two files have a key in common.
pub open spec fn touch(f: FileModel, g: FileModel) -> bool {
    !lex_lt(g.max_key, f.min_key) && !lex_lt(f.max_key, g.min_key)
}

/// The files of a level, those that overlap a file and those in the span of others
/// are exactly the files that qualify, in the order given.
pub proof fn law_files_are_selected_one_by_one(
    fs: Seq<FileModel>,
    level: u32,
    f: FileModel,
    l0: Seq<FileModel>,
)
    ensures
        at_level(fs, level) == fs.filter(|g: FileModel| g.level == level),
        overlapping(fs, f) == fs.filter(|g: FileModel| f.overlaps(g)),
        spanned(fs, l0) == fs.filter(|g: FileModel| in_span(g, l0)),
        forall|g: FileModel| #[trigger] f.overlaps(g) <==> touch(f, g),
    decreases fs.len(),
{
    reveal(Seq::filter);
    if fs.len() > 0 {
        law_files_are_selected_one_by_one(fs.drop_last(), level, f, l0);
    }
    assert forall|g: FileModel| #[trigger] f.overlaps(g) <==> touch(f, g) by {
        lemma_lex_total(f.min_key, g.max_key);
        lemma_lex_total(g.min_key, f.max_key);
    }
}

/// The bytes of files add up file by file.
pub proof fn law_bytes_add_up(a: Seq<FileModel>, b: Seq<FileModel>, one: FileModel)
    ensures
        total_bytes(a + b) == total_bytes(a) + total_bytes(b),
        total_bytes(seq![one]) == one.bytes,
        total_bytes(Seq::empty()) == 0,
        total_bytes(a) >= 0,
    decreases a.len() + b.len(),
{
    assert(seq![one].drop_last() =~= Seq::<FileModel>::empty());
    assert(total_bytes(Seq::<FileModel>::empty()) == 0);
    if b.len() == 0 {
        assert(a + b =~= a);
        if a.len() > 0 {
            law_bytes_add_up(a.drop_last(), b, one);
        }
    } else {
        assert((a + b).drop_last() =~= a + b.drop_last());
        law_bytes_add_up(a, b.drop_last(), one);
    }
}

/// The bytes of the files on a level whose key range has a key in common with that
/// of `f`.
pub open spec fn bytes_touched(fs: Seq<FileModel>, level: u32, f: FileModel) -> int
    decreases fs.len(),
{
    if fs.len() == 0 {
        0
    } else {
        let g = fs.last();
        bytes_touched(fs.drop_last(), level, f) + if g.level == level && touch(f, g) {
            g.bytes as int
        } else {
            0
        }
    }
}

proof fn lemma_bytes_touched(fs: Seq<FileModel>, level: u32, f: FileModel)
    ensures
        total_bytes(overlapping(at_level(fs, level), f)) == bytes_touched(fs, level, f),
        bytes_touched(fs, level, f) >= 0,
    decreases fs.len(),
{
    if fs.len() > 0 {
        let init = fs.drop_last();
        let g = fs.last();
        lemma_bytes_touched(init, level, f);
        law_files_are_selected_one_by_one(fs, level, f, Seq::empty());
        assert(f.overlaps(g) <==> touch(f, g));
        if g.level == level {
            assert(at_level(fs, level).drop_last() =~= at_level(init, level));
            if f.overlaps(g) {
                let o = overlapping(at_level(fs, level), f);
                assert(o.drop_last() =~= overlapping(at_level(init, level), f));
                assert(o.last() == g);
            }
        }
    }
}

/// A number of bytes that is beyond what can be counted is taken as the most that
/// can; any other is kept.
pub proof fn law_only_what_is_too_large_is_cut(n: int)
    requires
        n >= 0,
    ensures
        n <= u64::MAX ==> capped(n) == n,
        n > u64::MAX ==> capped(n) == u64::MAX,
{
}

/// What a file overlaps on a level, in thousandths of its own bytes.
pub open spec fn thousandths(fs: Seq<FileModel>, level: u32, f: FileModel) -> int {
    let touched = bytes_touched(fs, level, f);
    let own: int = if f.bytes == 0 {
        1
    } else {
        f.bytes as int
    };
    if touched * 1000 <= u64::MAX {
        touched * 1000 / own
    } else {
        u64::MAX as int / own
    }
}

proof fn lemma_thousandths(fs: Seq<FileModel>, level: u32, f: FileModel)
    ensures
        ratio(f, at_level(fs, level)) == thousandths(fs, level, f),
{
    lemma_bytes_touched(fs, level, f);
    let own: int = if f.bytes == 0 {
        1
    } else {
        f.bytes as int
    };
    let n = capped(capped(bytes_touched(fs, level, f)) * 1000) as int;
    assert(0 <= n / own <= n) by (nonlinear_arith)
        requires
            own >= 1,
            n >= 0,
    ;
}

/// How many files a level has.
pub open spec fn files_on(fs: Seq<FileModel>, level: u32) -> nat {
    fs.filter(|g: FileModel| g.level == level).len()
}

/// The level has more files than the policy lets it keep: one where it is leveled,
/// four where it is tiered; lazy leveling tiers the first two levels.
pub open spec fn is_crowded(fs: Seq<FileModel>, level: u32, policy: CompactionPolicy) -> bool {
    let tiered = policy == CompactionPolicy::Tiered || (policy == CompactionPolicy::LazyLeveling
        && level <= 2);
    files_on(fs, level) > (if tiered {
        4nat
    } else {
        1nat
    })
}

/// The file is on the level, and no other file on it overlaps fewer bytes of the
/// next level for its size, nor as few and is older.
pub open spec fn overlaps_least(fs: Seq<FileModel>, f: FileModel, level: u32) -> bool {
    let below = (level + 1) as u32;
    &&& fs.contains(f)
    &&& f.level == level
    &&& forall|j: int|
        0 <= j < fs.len() && (#[trigger] fs[j]).level == level ==> {
            ||| thousandths(fs, below, f) < thousandths(fs, below, fs[j])
            ||| thousandths(fs, below, f) == thousandths(fs, below, fs[j]) && f.created_at
                <= fs[j].created_at
        }
}

proof fn lemma_at_level_has(fs: Seq<FileModel>, level: u32, f: FileModel)
    ensures
        at_level(fs, level).contains(f) <==> fs.contains(f) && f.level == level,
{
    let keep = |g: FileModel| g.level == level;
    law_files_are_selected_one_by_one(fs, level, f, Seq::empty());
    lemma_filter_has(fs, keep, f);
}

proof fn lemma_filter_has(fs: Seq<FileModel>, keep: spec_fn(FileModel) -> bool, f: FileModel)
    ensures
        fs.filter(keep).contains(f) <==> fs.contains(f) && keep(f),
    decreases fs.len(),
{
    reveal(Seq::filter);
    if fs.len() > 0 {
        let init = fs.drop_last();
        let out = fs.filter(keep);
        let front = init.filter(keep);
        lemma_filter_has(init, keep, f);
        if out.contains(f) {
            let i = choose|i: int| 0 <= i < out.len() && out[i] == f;
            if i < front.len() {
                assert(front[i] == f);
                let j = choose|j: int| 0 <= j < init.len() && init[j] == f;
                assert(fs[j] == f);
            } else {
                assert(fs[fs.len() - 1] == f);
            }
        }
        if fs.contains(f) && keep(f) {
            let j = choose|j: int| 0 <= j < fs.len() && fs[j] == f;
            if j < init.len() {
                assert(init[j] == f);
                let i = choose|i: int| 0 <= i < front.len() && front[i] == f;
                assert(out[i] == f);
            } else {
                assert(out[out.len() - 1] == f);
            }
        }
    }
}

proof fn lemma_inputs(inputs: Seq<u64>, merged: Seq<FileModel>, id: u64)
    requires
        lists_ids(inputs, merged),
    ensures
        inputs.contains(id) <==> exists|f: FileModel| #[trigger] merged.contains(f) && f.file_id == id,
        inputs.len() == merged.len(),
{
    broadcast use vstd::seq_lib::group_to_multiset_ensures;

    let all = ids(merged);
    assert(inputs.contains(id) <==> inputs.to_multiset().contains(id));
    assert(all.contains(id) <==> all.to_multiset().contains(id));
    assert(inputs.len() == inputs.to_multiset().len());
    assert(all.len() == all.to_multiset().len());
    if all.contains(id) {
        let k = choose|k: int| 0 <= k < all.len() && all[k] == id;
        assert(merged.contains(merged[k]) && merged[k].file_id == id);
    }
    if exists|f: FileModel| #[trigger] merged.contains(f) && f.file_id == id {
        let f = choose|f: FileModel| #[trigger] merged.contains(f) && f.file_id == id;
        let k = choose|k: int| 0 <= k < merged.len() && merged[k] == f;
        assert(all[k] == id);
    }
}

/// When a job is due, and on which level: once the first level has as many files as
/// its trigger says, for it; else for the first level that is crowded. Where none
/// is there is no job.
pub proof fn law_job_is_due(
    picker: MinOverlappingRatioPicker,
    fs: Seq<FileModel>,
    r: Option<CompactionJob>,
)
    requires
        is_pick(picker, fs, r),
    ensures
        files_on(fs, 0) >= picker.l0_trigger && files_on(fs, 0) > 0 ==> (r matches Some(job)
            && job.source_level == 0),
        files_on(fs, 0) < picker.l0_trigger ==> match r {
            Some(job) => {
                &&& 1 <= job.source_level < picker.max_level
                &&& is_crowded(fs, job.source_level, picker.policy)
                &&& forall|l: u32|
                    1 <= l < job.source_level ==> !#[trigger] is_crowded(fs, l, picker.policy)
            },
            None => forall|l: u32|
                1 <= l < picker.max_level ==> !#[trigger] is_crowded(fs, l, picker.policy),
        },
        r matches Some(job) ==> job.target_level == job.source_level + 1,
{
    law_files_are_selected_one_by_one(fs, 0, arbitrary(), Seq::empty());
    assert forall|l: u32| #[trigger] is_crowded(fs, l, picker.policy) <==> over_capacity(
        fs,
        l,
        picker.policy,
    ) by {
        law_files_are_selected_one_by_one(fs, l, arbitrary(), Seq::empty());
    }
}

/// The job for a level moves the file that overlaps the least: of all files on the
/// level it overlaps the fewest bytes of the next one for its size, and of several
/// such it is the oldest. With it go the files of the next level whose key range
/// has a key in common with its own, and no others.
pub proof fn law_level_job_moves_the_least_overlap(
    picker: MinOverlappingRatioPicker,
    fs: Seq<FileModel>,
    job: CompactionJob,
) -> (f: FileModel)
    requires
        is_pick(picker, fs, Some(job)),
        files_on(fs, 0) < picker.l0_trigger,
    ensures
        overlaps_least(fs, f, job.source_level),
        forall|id: u64| #[trigger]
            job.inputs@.contains(id) <==> id == f.file_id || exists|g: FileModel| #[trigger]
                fs.contains(g) && g.level == job.target_level && touch(f, g) && g.file_id == id,
        job.estimated_bytes == capped(f.bytes + bytes_touched(fs, job.target_level, f)),
        job.priority == u64::MAX - capped(bytes_touched(fs, job.target_level, f)),
{
    law_files_are_selected_one_by_one(fs, 0, arbitrary(), Seq::empty());
    let level = job.source_level;
    let below = (level + 1) as u32;
    let source = at_level(fs, level);
    let target = at_level(fs, below);
    let c = choose|c: int| #[trigger]
        is_choice(source, target, c) && is_level_job(
            job,
            source,
            target,
            c,
            level,
            picker.max_level,
        );
    let f = source[c];
    let merged = seq![f] + overlapping(target, f);
    assert(source.contains(f));
    lemma_at_level_has(fs, level, f);
    lemma_thousandths(fs, below, f);
    lemma_bytes_touched(fs, below, f);
    law_bytes_add_up(seq![f], overlapping(target, f), f);
    assert forall|j: int| 0 <= j < fs.len() && (#[trigger] fs[j]).level == level implies {
        ||| thousandths(fs, below, f) < thousandths(fs, below, fs[j])
        ||| thousandths(fs, below, f) == thousandths(fs, below, fs[j]) && f.created_at
            <= fs[j].created_at
    } by {
        lemma_at_level_has(fs, level, fs[j]);
        assert(fs.contains(fs[j]));
        let k = choose|k: int| 0 <= k < source.len() && source[k] == fs[j];
        assert(!preferred(source[k], f, target));
        lemma_thousandths(fs, below, fs[j]);
    }
    assert forall|id: u64| #[trigger] job.inputs@.contains(id) <==> id == f.file_id || exists|
        g: FileModel,
    | #[trigger]
        fs.contains(g) && g.level == job.target_level && touch(f, g) && g.file_id == id by {
        lemma_inputs(job.inputs@, merged, id);
        let keep = |g: FileModel| f.overlaps(g);
        law_files_are_selected_one_by_one(target, below, f, Seq::empty());
        if job.inputs@.contains(id) {
            let g = choose|g: FileModel| #[trigger] merged.contains(g) && g.file_id == id;
            let k = choose|k: int| 0 <= k < merged.len() && merged[k] == g;
            if k > 0 {
                assert(overlapping(target, f)[k - 1] == g);
                lemma_filter_has(target, keep, g);
                assert(overlapping(target, f).contains(g));
                lemma_at_level_has(fs, below, g);
            }
        }
        if id == f.file_id {
            assert(merged[0] == f);
            assert(merged.contains(f));
        }
        if exists|g: FileModel| #[trigger]
            fs.contains(g) && g.level == job.target_level && touch(f, g) && g.file_id == id {
            let g = choose|g: FileModel| #[trigger]
                fs.contains(g) && g.level == job.target_level && touch(f, g) && g.file_id == id;
            lemma_at_level_has(fs, below, g);
            lemma_filter_has(target, keep, g);
            assert(f.overlaps(g));
            let k = choose|k: int|
                0 <= k < overlapping(target, f).len() && overlapping(target, f)[k] == g;
            assert(merged[k + 1] == g);
            assert(merged.contains(g));
        }
    }
    f
}

/// A file that overlaps nothing is moved where there is one, or one that overlaps
/// less than a thousandth of its own bytes.
pub proof fn law_nothing_overlapped_is_moved_first(
    picker: MinOverlappingRatioPicker,
    fs: Seq<FileModel>,
    job: CompactionJob,
    h: FileModel,
) -> (f: FileModel)
    requires
        is_pick(picker, fs, Some(job)),
        files_on(fs, 0) < picker.l0_trigger,
        fs.contains(h),
        h.level == job.source_level,
        bytes_touched(fs, job.target_level, h) == 0,
    ensures
        overlaps_least(fs, f, job.source_level),
        f.bytes > 0 && bytes_touched(fs, job.target_level, f) * 1000 <= u64::MAX ==> bytes_touched(
            fs,
            job.target_level,
            f,
        ) * 1000 < f.bytes,
        bytes_touched(fs, job.target_level, f) == 0 ==> f.created_at <= h.created_at || f == h,
{
    law_job_is_due(picker, fs, Some(job));
    let f = law_level_job_moves_the_least_overlap(picker, fs, job);
    let below = job.target_level;
    let j = choose|j: int| 0 <= j < fs.len() && fs[j] == h;
    assert(fs[j].level == job.source_level);
    let own: int = if h.bytes == 0 {
        1
    } else {
        h.bytes as int
    };
    assert(0int / own == 0) by (nonlinear_arith)
        requires
            own >= 1,
    ;
    assert(thousandths(fs, below, h) == 0);
    lemma_bytes_touched(fs, below, f);
    lemma_thousandths(fs, below, f);
    let t = bytes_touched(fs, below, f) * 1000;
    let n = f.bytes as int;
    if n > 0 && t <= u64::MAX {
        assert(thousandths(fs, below, f) == t / n);
        assert(t < n) by (nonlinear_arith)
            requires
                n > 0,
                t >= 0,
                t / n <= 0,
        ;
    }
    f
}

/// The job for the first level merges all its files with the files of the second
/// that touch the range of keys they span, and no others.
pub proof fn law_first_level_job_takes_the_whole_level(
    picker: MinOverlappingRatioPicker,
    fs: Seq<FileModel>,
    job: CompactionJob,
    id: u64,
)
    requires
        is_pick(picker, fs, Some(job)),
        files_on(fs, 0) >= picker.l0_trigger,
    ensures
        job.kind == CompactionKind::L0ToL1,
        job.source_level == 0,
        job.target_level == 1,
        job.priority == files_on(fs, 0),
        job.inputs@.contains(id) <==> exists|g: FileModel| #[trigger]
            fs.contains(g) && g.file_id == id && (g.level == 0 || (g.level == 1 && reaches_up(fs, g)
                && reaches_down(fs, g))),
{
    law_files_are_selected_one_by_one(fs, 0, arbitrary(), Seq::empty());
    let l0 = at_level(fs, 0);
    let l1 = at_level(fs, 1);
    let merged = l0 + spanned(l1, l0);
    let keep = |g: FileModel| in_span(g, l0);
    lemma_inputs(job.inputs@, merged, id);
    law_files_are_selected_one_by_one(l1, 1, arbitrary(), l0);
    if job.inputs@.contains(id) {
        let g = choose|g: FileModel| #[trigger] merged.contains(g) && g.file_id == id;
        let k = choose|k: int| 0 <= k < merged.len() && merged[k] == g;
        if k < l0.len() {
            assert(l0[k] == g);
            assert(l0.contains(g));
            lemma_at_level_has(fs, 0, g);
        } else {
            assert(spanned(l1, l0)[k - l0.len()] == g);
            assert(spanned(l1, l0).contains(g));
            lemma_filter_has(l1, keep, g);
            lemma_at_level_has(fs, 1, g);
            lemma_span(fs, g);
        }
        assert(fs.contains(g));
    }
    if exists|g: FileModel| #[trigger]
        fs.contains(g) && g.file_id == id && (g.level == 0 || (g.level == 1 && reaches_up(fs, g)
            && reaches_down(fs, g))) {
        let g = choose|g: FileModel| #[trigger]
            fs.contains(g) && g.file_id == id && (g.level == 0 || (g.level == 1 && reaches_up(fs, g)
                && reaches_down(fs, g)));
        if g.level == 0 {
            lemma_at_level_has(fs, 0, g);
            let k = choose|k: int| 0 <= k < l0.len() && l0[k] == g;
            assert(merged[k] == g);
        } else {
            lemma_at_level_has(fs, 1, g);
            lemma_span(fs, g);
            lemma_filter_has(l1, keep, g);
            let k = choose|k: int| 0 <= k < spanned(l1, l0).len() && spanned(l1, l0)[k] == g;
            assert(merged[l0.len() + k] == g);
        }
        assert(merged.contains(g));
    }
}

/// Some file of the first level ends at or behind the begin of `g`.
pub open spec fn reaches_up(fs: Seq<FileModel>, g: FileModel) -> bool {
    exists|f: FileModel| #[trigger]
        fs.contains(f) && f.level == 0 && !lex_lt(f.max_key, g.min_key)
}

/// Some file of the first level begins at or before the end of `g`.
pub open spec fn reaches_down(fs: Seq<FileModel>, g: FileModel) -> bool {
    exists|f: FileModel| #[trigger]
        fs.contains(f) && f.level == 0 && !lex_lt(g.max_key, f.min_key)
}

proof fn lemma_span(fs: Seq<FileModel>, g: FileModel)
    ensures
        in_span(g, at_level(fs, 0)) <==> reaches_up(fs, g) && reaches_down(fs, g),
{
    let l0 = at_level(fs, 0);
    if in_span(g, l0) {
        let i = choose|i: int| 0 <= i < l0.len() && lex_le(g.min_key, (#[trigger] l0[i]).max_key);
        assert(l0.contains(l0[i]));
        lemma_at_level_has(fs, 0, l0[i]);
        lemma_lex_total(g.min_key, l0[i].max_key);
        let j = choose|j: int| 0 <= j < l0.len() && lex_le((#[trigger] l0[j]).min_key, g.max_key);
        assert(l0.contains(l0[j]));
        lemma_at_level_has(fs, 0, l0[j]);
        lemma_lex_total(l0[j].min_key, g.max_key);
    }
    if reaches_up(fs, g) && reaches_down(fs, g) {
        let f = choose|f: FileModel| #[trigger]
            fs.contains(f) && f.level == 0 && !lex_lt(f.max_key, g.min_key);
        lemma_at_level_has(fs, 0, f);
        let i = choose|i: int| 0 <= i < l0.len() && l0[i] == f;
        lemma_lex_total(g.min_key, l0[i].max_key);
        let h = choose|h: FileModel| #[trigger]
            fs.contains(h) && h.level == 0 && !lex_lt(g.max_key, h.min_key);
        lemma_at_level_has(fs, 0, h);
        let j = choose|j: int| 0 <= j < l0.len() && l0[j] == h;
        lemma_lex_total(l0[j].min_key, g.max_key);
    }
}

/// What a picker answers is what the laws above speak of.
pub proof fn law_picks_are_about_the_files(
    picker: &MinOverlappingRatioPicker,
    files: &[FileMeta],
    r: Option<CompactionJob>,
)
    requires
        call_ensures(MinOverlappingRatioPicker::pick, (picker, files), r),
    ensures
        is_pick(*picker, file_models(files@), r),
{
}

/// The layout of a level: the first is always tiered, the others are as the policy
/// says.
pub proof fn law_layout_goes_by_the_policy(policy: CompactionPolicy, level: u32)
    ensures
        policy_layout(policy, 0) == CompactionLayout::Tiered,
        level > 0 ==> {
            &&& policy_layout(policy, level) is Leveled <==> policy is Leveled
            &&& policy_layout(policy, level) is LazyLeveling <==> policy is LazyLeveling
            &&& policy_layout(policy, level) is Tiered <==> policy is Tiered
        },
{
}

} // verus!
