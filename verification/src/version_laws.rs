//! What manifest edits do to the set of files, and which files a key may be in.

use crate::buf::lex_lt;
use crate::version_set::{
    edit_models, EditModel, MetaModel, VersionEdit, VersionSet, VersionSetModel,
};
use vstd::prelude::*;

verus! {

/// The file is listed at the level.
pub open spec fn is_at(m: VersionSetModel, level: u32, id: u64) -> bool {
    m.levels.contains_key(level) && m.levels[level].contains(id)
}

/// The files and dropped prefixes are the same.
pub open spec fn same_members(a: VersionSetModel, b: VersionSetModel) -> bool {
    &&& forall|level: u32, id: u64| #[trigger] is_at(a, level, id) <==> is_at(b, level, id)
    &&& a.meta == b.meta
    &&& a.dropped == b.dropped
}

/// An added file is at its level with what is known of it; nothing else moves, and
/// its id is not given out again.
pub proof fn law_added_file_is_there(
    m: VersionSetModel,
    id: u64,
    level: u32,
    meta: MetaModel,
    at: u32,
    other: u64,
)
    ensures
        ({
            let n = m.apply(EditModel::AddFile(id, level, meta));
            &&& is_at(n, at, other) <==> is_at(m, at, other) || (at == level && other == id)
            &&& n.meta.contains_key(other) <==> m.meta.contains_key(other) || other == id
            &&& n.meta[id] == meta
            &&& other != id && m.meta.contains_key(other) ==> n.meta[other] == m.meta[other]
            &&& n.next_file_id >= m.next_file_id
            &&& id < u64::MAX ==> n.next_file_id > id
            &&& n.next_file_id == m.next_file_id || n.next_file_id == id + 1 || id == u64::MAX
            &&& n.dropped == m.dropped
        }),
{
}

/// A deleted file leaves its level, and what is known of it is forgotten; nothing
/// else moves, and no id comes back.
pub proof fn law_deleted_file_is_gone(
    m: VersionSetModel,
    id: u64,
    level: u32,
    at: u32,
    other: u64,
)
    ensures
        ({
            let n = m.apply(EditModel::DeleteFile(id, level));
            &&& is_at(n, at, other) <==> is_at(m, at, other) && !(at == level && other == id)
            &&& n.meta.contains_key(other) <==> m.meta.contains_key(other) && other != id
            &&& other != id && m.meta.contains_key(other) ==> n.meta[other] == m.meta[other]
            &&& n.next_file_id == m.next_file_id
            &&& n.dropped == m.dropped
        }),
{
    let n = m.apply(EditModel::DeleteFile(id, level));
    if m.levels.contains_key(level) && m.levels[level].remove(id).is_empty() {
        assert(m.levels[level].remove(id) =~= Set::empty());
        if is_at(m, level, other) && other != id {
            assert(m.levels[level].remove(id).contains(other));
        }
    }
}

/// The other edits touch no file: the next id only rises, to the one that is given
/// at least, and a prefix is dropped from its mark on until the mark is taken back.
pub proof fn law_marks_touch_no_file(m: VersionSetModel, id: u64, prefix: Seq<u8>, other: Seq<u8>)
    ensures
        ({
            let n = m.apply(EditModel::NextFileId(id));
            &&& same_members(n, m)
            &&& n.next_file_id >= id && n.next_file_id >= m.next_file_id
            &&& n.next_file_id == id || n.next_file_id == m.next_file_id
        }),
        ({
            let n = m.apply(EditModel::DroppedPrefix(prefix));
            &&& n.levels == m.levels && n.meta == m.meta && n.next_file_id == m.next_file_id
            &&& n.dropped.contains(other) <==> m.dropped.contains(other) || other == prefix
        }),
        ({
            let n = m.apply(EditModel::UndroppedPrefix(prefix));
            &&& n.levels == m.levels && n.meta == m.meta && n.next_file_id == m.next_file_id
            &&& n.dropped.contains(other) <==> m.dropped.contains(other) && other != prefix
        }),
{
}

/// Edits are applied one after the other: those of one list and then those of the
/// next come to the same as all of them in one list.
pub proof fn law_edits_apply_in_turn(
    m: VersionSetModel,
    first: Seq<EditModel>,
    second: Seq<EditModel>,
    e: EditModel,
)
    ensures
        m.replay(Seq::empty()) == m,
        m.replay(seq![e]) == m.apply(e),
        m.replay(first + second) == m.replay(first).replay(second),
    decreases second.len(),
{
    assert(seq![e].drop_last() =~= Seq::<EditModel>::empty());
    assert(m.replay(Seq::empty()) == m);
    if second.len() == 0 {
        assert(first + second =~= first);
    } else {
        law_edits_apply_in_turn(m, first, second.drop_last(), e);
        assert((first + second).drop_last() =~= first + second.drop_last());
    }
}

/// A set of files to which one edit was applied is what the edit says.
pub proof fn law_applied_edit_is_seen(
    v: &VersionSet,
    edits: &[VersionEdit],
    w: VersionSet,
    e: VersionEdit,
)
    requires
        call_ensures(VersionSet::applied, (v, edits), w),
        edits@ == seq![e],
    ensures
        w@ == v@.apply(e@),
{
    assert(edit_models(edits@) =~= seq![e@]);
    law_edits_apply_in_turn(v@, Seq::empty(), Seq::empty(), e@);
}

/// The files of a level are listed once each, in ascending order.
pub proof fn law_level_is_listed(v: &VersionSet, level: u32, r: Vec<u64>, id: u64)
    requires
        call_ensures(VersionSet::files, (v, level), r),
    ensures
        r@.contains(id) <==> is_at(v@, level, id),
        forall|i: int, j: int| 0 <= i < j < r@.len() ==> r@[i] < r@[j],
{
    assert(v@.files(level).contains(id) <==> r@.contains(id));
}

/// A file is a candidate for a key exactly where the key is neither below its
/// smallest key nor above its largest; a file without a largest key ends nowhere.
pub proof fn law_candidates_are_the_files_around_the_key(
    v: &VersionSet,
    key: &[u8],
    r: Vec<u64>,
    id: u64,
)
    requires
        call_ensures(VersionSet::candidate_files, (v, key), r),
    ensures
        r@.contains(id) <==> {
            &&& v@.meta.contains_key(id)
            &&& v@.meta[id].min_key == key@ || lex_lt(v@.meta[id].min_key, key@)
            &&& v@.meta[id].max_key.len() == 0 || key@ == v@.meta[id].max_key || lex_lt(
                key@,
                v@.meta[id].max_key,
            )
        },
{
}

} // verus!
