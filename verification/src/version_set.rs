//! Which immutable files exist, reconstructed from manifest edits.

use crate::buf::{
    append_bytes, bytes_copy, bytes_empty, bytes_slice, bytes_view, key_less_or_equal, key_views,
    lemma_lex_le_transitive, lemma_lex_total, lex_le, lex_lt, lists_keys, sorted_keys, ByteMap,
};
use crate::listing::{
    ascending, id_get, id_keys, level_get, level_keys, lists, lists_levels, set_to_vec,
};
use bytes::Bytes;
use std::collections::{BTreeMap, BTreeSet};
use vstd::prelude::*;

verus! {

/// Edit applied to the manifest.
#[derive(Debug, PartialEq, Eq)]
pub enum VersionEdit {
    /// Add a file to a level.
    AddFile {
        /// File id.
        file_id: u64,
        /// Level the file lives at.
        level: u32,
        /// Inclusive smallest key in the file.
        min_key: Bytes,
        /// Inclusive largest key in the file.
        max_key: Bytes,
        /// Approximate bytes on disk.
        bytes: u64,
        /// Seconds at which this file was written.
        created_at: u64,
    },
    /// Remove a file from a level.
    DeleteFile {
        /// File id.
        file_id: u64,
        /// Level the file lived at.
        level: u32,
    },
    /// Bump the next globally unique file id.
    NextFileId(u64),
    /// Record a dropped-table prefix.
    DroppedPrefix(Vec<u8>),
    /// Clear a recorded dropped-table prefix.
    UndroppedPrefix(Vec<u8>),
}

/// What an edit says.
#[verifier::ext_equal]
pub enum EditModel {
    /// Add a file to a level.
    AddFile(u64, u32, MetaModel),
    /// Remove a file from a level.
    DeleteFile(u64, u32),
    /// Bump the next file id.
    NextFileId(u64),
    /// Record a dropped-table prefix.
    DroppedPrefix(Seq<u8>),
    /// Clear a dropped-table prefix.
    UndroppedPrefix(Seq<u8>),
}

/// What is known of a file.
#[verifier::ext_equal]
pub struct MetaModel {
    /// Smallest key.
    pub min_key: Seq<u8>,
    /// Largest key.
    pub max_key: Seq<u8>,
    /// Approximate bytes on disk.
    pub bytes: u64,
    /// Seconds at which the file was written.
    pub created_at: u64,
}

/// Smallest key, largest key, bytes and creation time of a file.
pub type FileMeta = (Bytes, Bytes, u64, u64);

/// What a file's metadata says.
pub open spec fn meta_model(m: FileMeta) -> MetaModel {
    MetaModel {
        min_key: bytes_view(m.0),
        max_key: bytes_view(m.1),
        bytes: m.2,
        created_at: m.3,
    }
}

impl View for VersionEdit {
    type V = EditModel;

    open spec fn view(&self) -> EditModel {
        match *self {
            VersionEdit::AddFile { file_id, level, min_key, max_key, bytes, created_at } => {
                EditModel::AddFile(file_id, level, meta_model((min_key, max_key, bytes, created_at)))
            },
            VersionEdit::DeleteFile { file_id, level } => EditModel::DeleteFile(file_id, level),
            VersionEdit::NextFileId(id) => EditModel::NextFileId(id),
            VersionEdit::DroppedPrefix(p) => EditModel::DroppedPrefix(p@),
            VersionEdit::UndroppedPrefix(p) => EditModel::UndroppedPrefix(p@),
        }
    }
}

fn copy_vec(v: &Vec<u8>) -> (r: Vec<u8>)
    ensures
        r@ == v@,
{
    let mut out: Vec<u8> = Vec::new();
    append_bytes(&mut out, v.as_slice());
    assert(out@ =~= v@);
    out
}

impl Clone for VersionEdit {
    fn clone(&self) -> (r: Self)
        ensures
            r@ == self@,
    {
        match self {
            VersionEdit::AddFile { file_id, level, min_key, max_key, bytes, created_at } => {
                VersionEdit::AddFile {
                    file_id: *file_id,
                    level: *level,
                    min_key: min_key.clone(),
                    max_key: max_key.clone(),
                    bytes: *bytes,
                    created_at: *created_at,
                }
            },
            VersionEdit::DeleteFile { file_id, level } => VersionEdit::DeleteFile {
                file_id: *file_id,
                level: *level,
            },
            VersionEdit::NextFileId(id) => VersionEdit::NextFileId(*id),
            VersionEdit::DroppedPrefix(p) => VersionEdit::DroppedPrefix(copy_vec(p)),
            VersionEdit::UndroppedPrefix(p) => VersionEdit::UndroppedPrefix(copy_vec(p)),
        }
    }
}

/// What a list of edits says.
pub open spec fn edit_models(es: Seq<VersionEdit>) -> Seq<EditModel> {
    es.map_values(|e: VersionEdit| e@)
}

/// Which files exist, and which table prefixes are dropped.
#[verifier::ext_equal]
pub struct VersionSetModel {
    /// The files of each populated level.
    pub levels: Map<u32, Set<u64>>,
    /// What is known of each file.
    pub meta: Map<u64, MetaModel>,
    /// The id to allocate next.
    pub next_file_id: u64,
    /// The dropped table prefixes.
    pub dropped: Set<Seq<u8>>,
}

/// The larger of two numbers.
pub open spec fn max_u64(a: u64, b: u64) -> u64 {
    if a >= b {
        a
    } else {
        b
    }
}

/// The id after `id`, or `id` if it is the last one.
pub open spec fn id_after(id: u64) -> u64 {
    if id == u64::MAX {
        id
    } else {
        (id + 1) as u64
    }
}

impl VersionSetModel {
    /// No files and no dropped prefixes.
    pub open spec fn empty() -> VersionSetModel {
        VersionSetModel {
            levels: Map::empty(),
            meta: Map::empty(),
            next_file_id: 0,
            dropped: Set::empty(),
        }
    }

    /// The files at a level.
    pub open spec fn files(self, level: u32) -> Set<u64> {
        if self.levels.contains_key(level) {
            self.levels[level]
        } else {
            Set::empty()
        }
    }

    /// The level holds the file.
    pub open spec fn holds(self, level: u32, file_id: u64) -> bool {
        self.files(level).contains(file_id)
    }

    /// The state after one edit.
    pub open spec fn apply(self, e: EditModel) -> VersionSetModel {
        match e {
            EditModel::AddFile(id, level, meta) => VersionSetModel {
                levels: self.levels.insert(level, self.files(level).insert(id)),
                meta: self.meta.insert(id, meta),
                next_file_id: max_u64(self.next_file_id, id_after(id)),
                dropped: self.dropped,
            },
            EditModel::DeleteFile(id, level) => VersionSetModel {
                levels: if !self.levels.contains_key(level) {
                    self.levels
                } else if self.levels[level].remove(id).is_empty() {
                    self.levels.remove(level)
                } else {
                    self.levels.insert(level, self.levels[level].remove(id))
                },
                meta: self.meta.remove(id),
                next_file_id: self.next_file_id,
                dropped: self.dropped,
            },
            EditModel::NextFileId(id) => VersionSetModel {
                next_file_id: max_u64(self.next_file_id, id),
                ..self
            },
            EditModel::DroppedPrefix(p) => VersionSetModel {
                dropped: self.dropped.insert(p),
                ..self
            },
            EditModel::UndroppedPrefix(p) => VersionSetModel {
                dropped: self.dropped.remove(p),
                ..self
            },
        }
    }

    /// The state after a list of edits.
    pub open spec fn replay(self, es: Seq<EditModel>) -> VersionSetModel
        decreases es.len(),
    {
        if es.len() == 0 {
            self
        } else {
            self.replay(es.drop_last()).apply(es.last())
        }
    }
}

/// `(a, i)` stands before `(b, j)`: by key, then by id.
pub open spec fn key_id_lt(a: Seq<u8>, i: u64, b: Seq<u8>, j: u64) -> bool {
    lex_lt(a, b) || (a == b && i < j)
}

/// The key may be in the file.
pub open spec fn covers(m: MetaModel, key: Seq<u8>) -> bool {
    lex_le(m.min_key, key) && (m.max_key.len() == 0 || lex_le(key, m.max_key))
}

/// `ps` lists the files of all levels: by level, then by id.
pub open spec fn lists_files(ps: Seq<(u32, u64)>, levels: Map<u32, Set<u64>>) -> bool {
    &&& forall|i: int, j: int|
        #![trigger ps[i], ps[j]]
        0 <= i < j < ps.len() ==> ps[i].0 < ps[j].0 || (ps[i].0 == ps[j].0 && ps[i].1 < ps[j].1)
    &&& forall|l: u32, f: u64| #[trigger]
        ps.contains((l, f)) <==> levels.contains_key(l) && levels[l].contains(f)
}

/// The file ids of a listing.
pub open spec fn ids_of(ps: Seq<(u32, u64)>) -> Seq<u64> {
    ps.map_values(|p: (u32, u64)| p.1)
}

/// Immutable-file membership and per-file metadata.
pub struct VersionSet {
    levels: BTreeMap<u32, BTreeSet<u64>>,
    file_meta: BTreeMap<u64, FileMeta>,
    next_file_id: u64,
    dropped: ByteMap<()>,
    files_by_key: Vec<(Bytes, u64)>,
    file_level: Vec<(u64, u32)>,
}

impl View for VersionSet {
    type V = VersionSetModel;

    closed spec fn view(&self) -> VersionSetModel {
        VersionSetModel {
            levels: self.levels@.map_values(|s: BTreeSet<u64>| s@),
            meta: self.file_meta@.map_values(|m: FileMeta| meta_model(m)),
            next_file_id: self.next_file_id,
            dropped: self.dropped@.dom(),
        }
    }
}

spec fn by_key_sorted(v: Seq<(Bytes, u64)>) -> bool {
    forall|i: int, j: int|
        #![trigger v[i], v[j]]
        0 <= i < j < v.len() ==> key_id_lt(bytes_view(v[i].0), v[i].1, bytes_view(v[j].0), v[j].1)
}

spec fn by_key_lists(v: Seq<(Bytes, u64)>, meta: Map<u64, MetaModel>) -> bool {
    &&& forall|i: int|
        0 <= i < v.len() ==> meta.contains_key((#[trigger] v[i]).1) && meta[v[i].1].min_key
            == bytes_view(v[i].0)
    &&& forall|id: u64| #[trigger]
        meta.contains_key(id) ==> exists|i: int| 0 <= i < v.len() && (#[trigger] v[i]).1 == id
}

spec fn level_sorted(v: Seq<(u64, u32)>) -> bool {
    forall|i: int, j: int| #![trigger v[i], v[j]] 0 <= i < j < v.len() ==> v[i].0 <= v[j].0
}

spec fn level_lists(v: Seq<(u64, u32)>, m: VersionSetModel) -> bool {
    forall|id: u64, l: u32| #[trigger] v.contains((id, l)) <==> m.holds(l, id)
}

impl VersionSet {
    /// The collections inside are in order.
    pub closed spec fn wf(&self) -> bool {
        self.dropped.wf()
    }

    /// The lookup indexes match the state.
    pub closed spec fn indexed(&self) -> bool {
        &&& by_key_sorted(self.files_by_key@)
        &&& by_key_lists(self.files_by_key@, self@.meta)
        &&& level_sorted(self.file_level@)
        &&& level_lists(self.file_level@, self@)
    }

    /// Makes an empty version set.
    pub fn new() -> (r: Self)
        ensures
            r.wf(),
            r.indexed(),
            r@ == VersionSetModel::empty(),
    {
        let r = VersionSet {
            levels: BTreeMap::new(),
            file_meta: BTreeMap::new(),
            next_file_id: 0,
            dropped: ByteMap::new(),
            files_by_key: Vec::new(),
            file_level: Vec::new(),
        };
        proof {
            assert(r@.levels =~= Map::<u32, Set<u64>>::empty());
            assert(r@.meta =~= Map::<u64, MetaModel>::empty());
            assert(r@.dropped =~= Set::<Seq<u8>>::empty());
        }
        r
    }

    /// Applies one edit. Does not rebuild the lookup indexes: call
    /// [`VersionSet::rebuild_indexes`] after a batch of edits.
    pub fn apply(&mut self, edit: VersionEdit)
        requires
            old(self).wf(),
        ensures
            final(self).wf(),
            final(self)@ == old(self)@.apply(edit@),
    {
        broadcast use vstd::std_specs::btree::group_btree_axioms;
        broadcast use vstd::laws_cmp::group_laws_cmp;

        let ghost m0 = self@;
        match edit {
            VersionEdit::AddFile { file_id, level, min_key, max_key, bytes, created_at } => {
                let mut files = match self.levels.get(&level) {
                    Some(s) => s.clone(),
                    None => BTreeSet::new(),
                };
                assert(files@ =~= m0.files(level));
                let _added = files.insert(file_id);
                let _before = self.levels.insert(level, files);
                let _prior = self.file_meta.insert(
                    file_id,
                    (min_key, max_key, bytes, created_at),
                );
                let after: u64 = if file_id == u64::MAX {
                    file_id
                } else {
                    file_id + 1
                };
                if after > self.next_file_id {
                    self.next_file_id = after;
                }
                assert(self@.levels =~= m0.levels.insert(level, m0.files(level).insert(file_id)));
                assert(self@.meta =~= m0.meta.insert(
                    file_id,
                    meta_model((min_key, max_key, bytes, created_at)),
                ));
            },
            VersionEdit::DeleteFile { file_id, level } => {
                let found = match self.levels.get(&level) {
                    Some(s) => Some(s.clone()),
                    None => None,
                };
                match found {
                    Some(mut files) => {
                        assert(files@ == m0.levels[level]);
                        let _had = files.remove(&file_id);
                        assert(files@ =~= m0.levels[level].remove(file_id));
                        if files.is_empty() {
                            let _gone = self.levels.remove(&level);
                            assert(self@.levels =~= m0.levels.remove(level));
                        } else {
                            let _before = self.levels.insert(level, files);
                            assert(self@.levels =~= m0.levels.insert(
                                level,
                                m0.levels[level].remove(file_id),
                            ));
                        }
                    },
                    None => {},
                }
                let _meta = self.file_meta.remove(&file_id);
                assert(self@.meta =~= m0.meta.remove(file_id));
                assert(self@ =~= m0.apply(edit@));
            },
            VersionEdit::NextFileId(file_id) => {
                if file_id > self.next_file_id {
                    self.next_file_id = file_id;
                }
            },
            VersionEdit::DroppedPrefix(prefix) => {
                self.dropped.insert(bytes_copy(prefix.as_slice()), ());
                assert(self@.dropped =~= m0.dropped.insert(prefix@));
            },
            VersionEdit::UndroppedPrefix(prefix) => {
                let _had = self.dropped.remove(prefix.as_slice());
                assert(self@.dropped =~= m0.dropped.remove(prefix@));
            },
        }
    }
}

impl VersionSet {
    /// Lists the files of all levels: by level, then by id.
    pub fn level_files(&self) -> (r: Vec<(u32, u64)>)
        ensures
            lists_files(r@, self@.levels),
    {
        let levels = level_keys(&self.levels);
        let ghost ls = levels@;
        let ghost m = self@.levels;
        let mut out: Vec<(u32, u64)> = Vec::new();
        let mut i: usize = 0;
        while i < levels.len()
            invariant
                i <= levels@.len(),
                ls == levels@,
                m == self@.levels,
                lists_levels(ls, self.levels@.dom()),
                forall|a: int, b: int|
                    #![trigger out@[a], out@[b]]
                    0 <= a < b < out@.len() ==> out@[a].0 < out@[b].0 || (out@[a].0 == out@[b].0
                        && out@[a].1 < out@[b].1),
                forall|a: int|
                    0 <= a < out@.len() ==> exists|k: int|
                        0 <= k < i && #[trigger] ls[k] == (#[trigger] out@[a]).0,
                forall|l: u32, f: u64| #[trigger]
                    out@.contains((l, f)) <==> ls.take(i as int).contains(l) && m[l].contains(f),
            decreases levels@.len() - i,
        {
            let level: u32 = levels[i];
            assert(ls.contains(level));
            let ghost before = out@;
            let files = match level_get(&self.levels, level) {
                Some(s) => set_to_vec(s),
                None => Vec::new(),
            };
            assert(lists(files@, m[level]));
            let mut j: usize = 0;
            while j < files.len()
                invariant
                    i < ls.len(),
                    j <= files@.len(),
                    level == ls[i as int],
                    lists(files@, m[level]),
                    lists_levels(ls, self.levels@.dom()),
                    out@.len() == before.len() + j,
                    forall|a: int| 0 <= a < before.len() ==> #[trigger] out@[a] == before[a],
                    forall|a: int|
                        before.len() <= a < out@.len() ==> #[trigger] out@[a] == (
                            level,
                            files@[a - before.len()],
                        ),
                decreases files@.len() - j,
            {
                out.push((level, files[j]));
                j += 1;
            }
            proof {
                let n = before.len() as int;
                assert forall|a: int, b: int|
                    #![trigger out@[a], out@[b]]
                    0 <= a < b < out@.len() implies out@[a].0 < out@[b].0 || (out@[a].0
                    == out@[b].0 && out@[a].1 < out@[b].1) by {
                    if b < n {
                        assert(out@[a] == before[a] && out@[b] == before[b]);
                    } else if a < n {
                        assert(out@[a] == before[a]);
                        let k = choose|k: int| 0 <= k < i && #[trigger] ls[k] == before[a].0;
                        assert(ls[k] < ls[i as int]);
                    } else {
                        assert(files@[a - n] < files@[b - n]);
                    }
                }
                assert forall|a: int| 0 <= a < out@.len() implies exists|k: int|
                    0 <= k < i + 1 && #[trigger] ls[k] == (#[trigger] out@[a]).0 by {
                    if a < n {
                        assert(out@[a] == before[a]);
                        let k = choose|k: int| 0 <= k < i && #[trigger] ls[k] == before[a].0;
                        assert(ls[k] == out@[a].0);
                    } else {
                        assert(ls[i as int] == out@[a].0);
                    }
                }
                let t0 = ls.take(i as int);
                let t1 = ls.take(i + 1);
                assert forall|l: u32, f: u64| #[trigger]
                    out@.contains((l, f)) <==> t1.contains(l) && m[l].contains(f) by {
                    if out@.contains((l, f)) {
                        let a = choose|a: int| 0 <= a < out@.len() && out@[a] == (l, f);
                        if a < n {
                            assert(before[a] == (l, f));
                            assert(before.contains((l, f)));
                            let q = choose|q: int| 0 <= q < t0.len() && t0[q] == l;
                            assert(t1[q] == l);
                        } else {
                            assert(t1[i as int] == l);
                            assert(files@.contains(files@[a - n]));
                        }
                    }
                    if t1.contains(l) && m[l].contains(f) {
                        let q = choose|q: int| 0 <= q < t1.len() && t1[q] == l;
                        if q < i {
                            assert(t0[q] == l);
                            assert(before.contains((l, f)));
                            let a = choose|a: int| 0 <= a < before.len() && before[a] == (l, f);
                            assert(out@[a] == (l, f));
                        } else {
                            assert(files@.contains(f));
                            let a = choose|a: int| 0 <= a < files@.len() && files@[a] == f;
                            assert(out@[n + a] == (l, f));
                        }
                    }
                }
            }
            i += 1;
        }
        proof {
            assert(ls.take(i as int) =~= ls);
            assert forall|l: u32, f: u64| #[trigger]
                out@.contains((l, f)) <==> m.contains_key(l) && m[l].contains(f) by {
                assert(self.levels@.dom().contains(l) <==> ls.contains(l));
            }
        }
        out
    }

    /// Rebuilds the lookup indexes after a batch of edits.
    pub fn rebuild_indexes(&mut self)
        requires
            old(self).wf(),
        ensures
            final(self).wf(),
            final(self)@ == old(self)@,
            final(self).indexed(),
    {
        self.rebuild_files_by_key();
        self.rebuild_file_level();
    }

    fn rebuild_files_by_key(&mut self)
        requires
            old(self).wf(),
        ensures
            final(self).wf(),
            final(self)@ == old(self)@,
            by_key_sorted(final(self).files_by_key@),
            by_key_lists(final(self).files_by_key@, final(self)@.meta),
    {
        let ids = id_keys(&self.file_meta);
        let ghost meta = self@.meta;
        let mut sorted: Vec<(Bytes, u64)> = Vec::new();
        let mut i: usize = 0;
        while i < ids.len()
            invariant
                i <= ids@.len(),
                lists(ids@, self.file_meta@.dom()),
                meta == self@.meta,
                by_key_sorted(sorted@),
                forall|a: int|
                    0 <= a < sorted@.len() ==> {
                        &&& meta.contains_key((#[trigger] sorted@[a]).1)
                        &&& meta[sorted@[a].1].min_key == bytes_view(sorted@[a].0)
                        &&& ids@.take(i as int).contains(sorted@[a].1)
                    },
                forall|k: int|
                    0 <= k < i ==> exists|a: int|
                        0 <= a < sorted@.len() && (#[trigger] sorted@[a]).1 == #[trigger] ids@[k],
            decreases ids@.len() - i,
        {
            let id: u64 = ids[i];
            assert(ids@.contains(id));
            let ghost before = sorted@;
            match id_get(&self.file_meta, id) {
                Some(m) => {
                    let ghost key = bytes_view(m.0);
                    let mut at: usize = sorted.len();
                    while at > 0 && !key_less_or_equal(
                        bytes_slice(&sorted[at - 1].0),
                        bytes_slice(&m.0),
                    )
                        invariant
                            at <= sorted@.len(),
                            sorted@ == before,
                            key == bytes_view(m.0),
                            forall|b: int|
                                at <= b < before.len() ==> lex_lt(
                                    key,
                                    bytes_view((#[trigger] before[b]).0),
                                ),
                        decreases at,
                    {
                        proof {
                            lemma_lex_total(bytes_view(before[at - 1].0), key);
                        }
                        at -= 1;
                    }
                    let entry = (m.0.clone(), id);
                    sorted.insert(at, entry);
                    proof {
                        self.lemma_entry_placed(before, sorted@, at as int, entry, ids@, i as int);
                    }
                },
                None => {
                    assert(false);
                },
            }
            proof {
                assert(ids@.take(i + 1) =~= ids@.take(i as int).push(id));
                assert forall|a: int| 0 <= a < sorted@.len() implies {
                    &&& meta.contains_key((#[trigger] sorted@[a]).1)
                    &&& meta[sorted@[a].1].min_key == bytes_view(sorted@[a].0)
                    &&& ids@.take(i + 1).contains(sorted@[a].1)
                } by {
                    let t1 = ids@.take(i + 1);
                    if sorted@[a].1 == id && !ids@.take(i as int).contains(id) {
                        assert(t1[i as int] == id);
                    }
                    if before.contains(sorted@[a]) {
                        let b = choose|b: int| 0 <= b < before.len() && before[b] == sorted@[a];
                        assert(ids@.take(i as int).contains(before[b].1));
                        let q = choose|q: int|
                            0 <= q < i && ids@.take(i as int)[q] == before[b].1;
                        assert(t1[q] == before[b].1);
                    } else {
                        assert(t1[i as int] == id);
                    }
                }
                assert forall|k: int| 0 <= k < i + 1 implies exists|a: int|
                    0 <= a < sorted@.len() && (#[trigger] sorted@[a]).1 == #[trigger] ids@[k] by {
                    if k < i {
                        let b = choose|b: int|
                            0 <= b < before.len() && (#[trigger] before[b]).1 == ids@[k];
                        assert(sorted@.contains(before[b]));
                    }
                }
            }
            i += 1;
        }
        let ghost sorted_seq = sorted@;
        self.files_by_key = sorted;
        proof {
            assert forall|id: u64| #[trigger] meta.contains_key(id) implies exists|a: int|
                0 <= a < self.files_by_key@.len() && (#[trigger] self.files_by_key@[a]).1 == id by {
                assert(self.file_meta@.dom().contains(id));
                assert(ids@.contains(id));
                let k = choose|k: int| 0 <= k < ids@.len() && ids@[k] == id;
                let a = choose|a: int|
                    0 <= a < sorted_seq.len() && (#[trigger] sorted_seq[a]).1 == ids@[k];
                assert(self.files_by_key@[a].1 == id);
            }
        }
    }

    proof fn lemma_entry_placed(
        &self,
        before: Seq<(Bytes, u64)>,
        after: Seq<(Bytes, u64)>,
        at: int,
        entry: (Bytes, u64),
        ids: Seq<u64>,
        i: int,
    )
        requires
            0 <= at <= before.len(),
            after == before.insert(at, entry),
            by_key_sorted(before),
            ascending(ids),
            0 <= i < ids.len(),
            entry.1 == ids[i],
            forall|a: int| 0 <= a < before.len() ==> ids.take(i).contains((#[trigger] before[a]).1),
            forall|b: int|
                at <= b < before.len() ==> lex_lt(
                    bytes_view(entry.0),
                    bytes_view((#[trigger] before[b]).0),
                ),
            at > 0 ==> lex_le(bytes_view(before[at - 1].0), bytes_view(entry.0)),
        ensures
            by_key_sorted(after),
            forall|a: int|
                0 <= a < after.len() ==> (#[trigger] after[a]) == entry || before.contains(
                    after[a],
                ),
            forall|b: int| 0 <= b < before.len() ==> after.contains(#[trigger] before[b]),
            after[at] == entry,
    {
        assert forall|a: int| 0 <= a < before.len() implies (#[trigger] before[a]).1 < entry.1 by {
            let q = choose|q: int| 0 <= q < i && ids.take(i)[q] == before[a].1;
            assert(ids.take(i).contains(before[a].1));
            assert(ids[q] < ids[i]);
        }
        assert forall|x: int, y: int|
            #![trigger after[x], after[y]]
            0 <= x < y < after.len() implies key_id_lt(
            bytes_view(after[x].0),
            after[x].1,
            bytes_view(after[y].0),
            after[y].1,
        ) by {
            if x == at {
                assert(after[y] == before[y - 1]);
            } else if y == at {
                assert(after[x] == before[x]);
                if x < at - 1 {
                    assert(key_id_lt(
                        bytes_view(before[x].0),
                        before[x].1,
                        bytes_view(before[at - 1].0),
                        before[at - 1].1,
                    ));
                }
                lemma_lex_le_transitive(
                    bytes_view(before[x].0),
                    bytes_view(before[at - 1].0),
                    bytes_view(entry.0),
                );
            } else {
                let x0 = if x < at { x } else { x - 1 };
                let y0 = if y < at { y } else { y - 1 };
                assert(after[x] == before[x0] && after[y] == before[y0]);
            }
        }
        assert forall|a: int| 0 <= a < after.len() implies (#[trigger] after[a]) == entry
            || before.contains(after[a]) by {
            if a < at {
                assert(before[a] == after[a]);
            } else if a > at {
                assert(before[a - 1] == after[a]);
            }
        }
        assert forall|b: int| 0 <= b < before.len() implies after.contains(#[trigger] before[b]) by {
            if b < at {
                assert(after[b] == before[b]);
            } else {
                assert(after[b + 1] == before[b]);
            }
        }
    }

    fn rebuild_file_level(&mut self)
        requires
            old(self).wf(),
        ensures
            final(self).wf(),
            final(self)@ == old(self)@,
            final(self).files_by_key == old(self).files_by_key,
            level_sorted(final(self).file_level@),
            level_lists(final(self).file_level@, final(self)@),
    {
        let pairs = self.level_files();
        let ghost m = self@;
        let mut sorted: Vec<(u64, u32)> = Vec::new();
        let mut i: usize = 0;
        while i < pairs.len()
            invariant
                i <= pairs@.len(),
                lists_files(pairs@, m.levels),
                m == self@,
                level_sorted(sorted@),
                forall|id: u64, l: u32| #[trigger]
                    sorted@.contains((id, l)) <==> pairs@.take(i as int).contains((l, id)),
            decreases pairs@.len() - i,
        {
            let (level, id) = pairs[i];
            let ghost before = sorted@;
            let mut at: usize = sorted.len();
            while at > 0 && sorted[at - 1].0 > id
                invariant
                    at <= sorted@.len(),
                    sorted@ == before,
                    forall|b: int| at <= b < before.len() ==> (#[trigger] before[b]).0 > id,
                decreases at,
            {
                at -= 1;
            }
            sorted.insert(at, (id, level));
            proof {
                let after = sorted@;
                assert forall|x: int, y: int|
                    #![trigger after[x], after[y]]
                    0 <= x < y < after.len() implies after[x].0 <= after[y].0 by {
                    if x == at {
                        assert(after[y] == before[y - 1]);
                    } else if y == at {
                        assert(after[x] == before[x]);
                        if x < at - 1 {
                            assert(before[x].0 <= before[at - 1].0);
                        }
                    } else {
                        let x0 = if x < at { x } else { x - 1 };
                        let y0 = if y < at { y } else { y - 1 };
                        assert(after[x] == before[x0] && after[y] == before[y0]);
                    }
                }
                let t0 = pairs@.take(i as int);
                let t1 = pairs@.take(i + 1);
                assert(t1 =~= t0.push((level, id)));
                assert forall|d: u64, l: u32| #[trigger]
                    after.contains((d, l)) <==> t1.contains((l, d)) by {
                    if after.contains((d, l)) {
                        let a = choose|a: int| 0 <= a < after.len() && after[a] == (d, l);
                        if a == at {
                            assert(t1[i as int] == (l, d));
                        } else {
                            let b = if a < at { a } else { a - 1 };
                            assert(before[b] == (d, l));
                            assert(before.contains((d, l)));
                            let q = choose|q: int| 0 <= q < t0.len() && t0[q] == (l, d);
                            assert(t1[q] == (l, d));
                        }
                    }
                    if t1.contains((l, d)) {
                        let q = choose|q: int| 0 <= q < t1.len() && t1[q] == (l, d);
                        if q == i {
                            assert(after[at as int] == (d, l));
                        } else {
                            assert(t0[q] == (l, d));
                            assert(before.contains((d, l)));
                            let b = choose|b: int| 0 <= b < before.len() && before[b] == (d, l);
                            let a = if b < at { b } else { b + 1 };
                            assert(after[a] == (d, l));
                        }
                    }
                }
            }
            i += 1;
        }
        self.file_level = sorted;
        proof {
            assert(pairs@.take(i as int) =~= pairs@);
            assert forall|id: u64, l: u32| #[trigger]
                self.file_level@.contains((id, l)) <==> m.holds(l, id) by {
                assert(pairs@.contains((l, id)) <==> m.levels.contains_key(l)
                    && m.levels[l].contains(id));
            }
        }
    }

    /// Returns the files whose key range may hold `search_key`, from the
    /// largest smallest key down.
    pub fn candidate_files(&self, search_key: &[u8]) -> (r: Vec<u64>)
        requires
            self.wf(),
            self.indexed(),
        ensures
            forall|id: u64| #[trigger]
                r@.contains(id) <==> self@.meta.contains_key(id) && covers(
                    self@.meta[id],
                    search_key@,
                ),
            forall|i: int, j: int|
                #![trigger r@[i], r@[j]]
                0 <= i < j < r@.len() ==> key_id_lt(
                    self@.meta[r@[j]].min_key,
                    r@[j],
                    self@.meta[r@[i]].min_key,
                    r@[i],
                ),
    {
        let ghost v = self.files_by_key@;
        let ghost meta = self@.meta;
        let ghost key = search_key@;
        let mut lo: usize = 0;
        let mut hi: usize = self.files_by_key.len();
        while lo < hi
            invariant
                lo <= hi <= v.len(),
                v == self.files_by_key@,
                key == search_key@,
                by_key_sorted(v),
                forall|i: int| 0 <= i < lo ==> lex_le(bytes_view((#[trigger] v[i]).0), key),
                forall|i: int| hi <= i < v.len() ==> !lex_le(bytes_view((#[trigger] v[i]).0), key),
            decreases hi - lo,
        {
            let mid = lo + (hi - lo) / 2;
            if key_less_or_equal(bytes_slice(&self.files_by_key[mid].0), search_key) {
                assert forall|i: int| 0 <= i < mid + 1 implies lex_le(
                    bytes_view((#[trigger] v[i]).0),
                    key,
                ) by {
                    if i < mid {
                        assert(v[mid as int].1 == v[mid as int].1);
                        lemma_lex_le_transitive(
                            bytes_view(v[i].0),
                            bytes_view(v[mid as int].0),
                            key,
                        );
                    }
                }
                lo = mid + 1;
            } else {
                assert forall|i: int| mid <= i < v.len() implies !lex_le(
                    bytes_view((#[trigger] v[i]).0),
                    key,
                ) by {
                    if i > mid && lex_le(bytes_view(v[i].0), key) {
                        assert(v[mid as int].1 == v[mid as int].1);
                        lemma_lex_le_transitive(
                            bytes_view(v[mid as int].0),
                            bytes_view(v[i].0),
                            key,
                        );
                    }
                }
                hi = mid;
            }
        }
        let split: usize = lo;
        let mut out: Vec<u64> = Vec::new();
        let mut i: usize = split;
        while i > 0
            invariant
                i <= split <= v.len(),
                v == self.files_by_key@,
                meta == self@.meta,
                key == search_key@,
                by_key_sorted(v),
                by_key_lists(v, meta),
                forall|a: int| 0 <= a < split ==> lex_le(bytes_view((#[trigger] v[a]).0), key),
                forall|a: int|
                    split <= a < v.len() ==> !lex_le(bytes_view((#[trigger] v[a]).0), key),
                forall|x: int|
                    0 <= x < out@.len() ==> {
                        &&& meta.contains_key(#[trigger] out@[x])
                        &&& covers(meta[out@[x]], key)
                        &&& exists|a: int| i <= a < split && (#[trigger] v[a]).1 == out@[x]
                    },
                forall|a: int|
                    i <= a < split && covers(meta[(#[trigger] v[a]).1], key) ==> out@.contains(
                        v[a].1,
                    ),
                forall|x: int, y: int|
                    #![trigger out@[x], out@[y]]
                    0 <= x < y < out@.len() ==> key_id_lt(
                        meta[out@[y]].min_key,
                        out@[y],
                        meta[out@[x]].min_key,
                        out@[x],
                    ),
            decreases i,
        {
            i -= 1;
            let id: u64 = self.files_by_key[i].1;
            let ghost before = out@;
            assert(v[i as int].1 == id);
            assert(meta.contains_key(id));
            match id_get(&self.file_meta, id) {
                Some(m) => {
                    let max = bytes_slice(&m.1);
                    if max.len() == 0 || key_less_or_equal(search_key, max) {
                        out.push(id);
                        proof {
                            assert(covers(meta[id], key));
                            assert forall|x: int, y: int|
                                #![trigger out@[x], out@[y]]
                                0 <= x < y < out@.len() implies key_id_lt(
                                meta[out@[y]].min_key,
                                out@[y],
                                meta[out@[x]].min_key,
                                out@[x],
                            ) by {
                                if y == before.len() {
                                    assert(out@[x] == before[x]);
                                    let a = choose|a: int|
                                        i < a < split && (#[trigger] v[a]).1 == before[x];
                                    assert(v[a].1 == out@[x]);
                                    assert(key_id_lt(
                                        bytes_view(v[i as int].0),
                                        v[i as int].1,
                                        bytes_view(v[a].0),
                                        v[a].1,
                                    ));
                                } else {
                                    assert(out@[x] == before[x] && out@[y] == before[y]);
                                }
                            }
                        }
                    }
                },
                None => {
                    assert(false);
                },
            }
            proof {
                assert forall|x: int| 0 <= x < out@.len() implies {
                    &&& meta.contains_key(#[trigger] out@[x])
                    &&& covers(meta[out@[x]], key)
                    &&& exists|a: int| i <= a < split && (#[trigger] v[a]).1 == out@[x]
                } by {
                    if x < before.len() {
                        assert(out@[x] == before[x]);
                        let a = choose|a: int| i < a < split && (#[trigger] v[a]).1 == before[x];
                        assert(v[a].1 == out@[x]);
                    } else {
                        assert(v[i as int].1 == out@[x]);
                    }
                }
                assert forall|a: int|
                    i <= a < split && covers(meta[(#[trigger] v[a]).1], key) implies out@.contains(
                    v[a].1,
                ) by {
                    if a > i {
                        assert(before.contains(v[a].1));
                        let x = choose|x: int| 0 <= x < before.len() && before[x] == v[a].1;
                        assert(out@[x] == v[a].1);
                    } else {
                        assert(out@[out@.len() - 1] == id);
                    }
                }
            }
        }
        proof {
            assert forall|id: u64| #[trigger]
                out@.contains(id) <==> meta.contains_key(id) && covers(meta[id], key) by {
                if meta.contains_key(id) && covers(meta[id], key) {
                    let a = choose|a: int| 0 <= a < v.len() && (#[trigger] v[a]).1 == id;
                    assert(meta[v[a].1].min_key == bytes_view(v[a].0));
                    assert(a < split);
                }
            }
        }
        out
    }

    /// Returns a level that holds `file_id`, or `None` when unknown.
    pub fn file_level_for(&self, file_id: u64) -> (r: Option<u32>)
        requires
            self.wf(),
            self.indexed(),
        ensures
            r matches Some(l) ==> self@.holds(l, file_id),
            r is None ==> forall|l: u32| !(#[trigger] self@.holds(l, file_id)),
    {
        let ghost v = self.file_level@;
        let mut lo: usize = 0;
        let mut hi: usize = self.file_level.len();
        while lo < hi
            invariant
                lo <= hi <= v.len(),
                v == self.file_level@,
                level_sorted(v),
                level_lists(v, self@),
                forall|i: int| 0 <= i < lo ==> (#[trigger] v[i]).0 < file_id,
                forall|i: int| hi <= i < v.len() ==> (#[trigger] v[i]).0 > file_id,
            decreases hi - lo,
        {
            let mid = lo + (hi - lo) / 2;
            let (id, level) = self.file_level[mid];
            assert(v[mid as int] == (id, level));
            if id == file_id {
                assert(v.contains((id, level)));
                return Some(level);
            }
            if id < file_id {
                assert forall|i: int| 0 <= i < mid + 1 implies (#[trigger] v[i]).0 < file_id by {
                    if i < mid {
                        assert(v[i].0 <= v[mid as int].0);
                    }
                }
                lo = mid + 1;
            } else {
                assert forall|i: int| mid <= i < v.len() implies (#[trigger] v[i]).0 > file_id by {
                    if i > mid {
                        assert(v[mid as int].0 <= v[i].0);
                    }
                }
                hi = mid;
            }
        }
        proof {
            assert forall|l: u32| !(#[trigger] self@.holds(l, file_id)) by {
                if self@.holds(l, file_id) {
                    assert(v.contains((file_id, l)));
                    let i = choose|i: int| 0 <= i < v.len() && v[i] == (file_id, l);
                    assert(v[i].0 == file_id);
                }
            }
        }
        None
    }

    /// Returns files at `level` in ascending id order.
    pub fn files(&self, level: u32) -> (r: Vec<u64>)
        ensures
            lists(r@, self@.files(level)),
    {
        match level_get(&self.levels, level) {
            Some(s) => set_to_vec(s),
            None => Vec::new(),
        }
    }

    /// Returns a copy of this version set with all `edits` applied.
    pub fn applied(&self, edits: &[VersionEdit]) -> (r: VersionSet)
        requires
            self.wf(),
        ensures
            r.wf(),
            r.indexed(),
            r@ == self@.replay(edit_models(edits@)),
    {
        let mut next = self.clone();
        let ghost es = edit_models(edits@);
        let ghost m0 = self@;
        let mut i: usize = 0;
        assert(es.take(0) =~= Seq::<EditModel>::empty());
        while i < edits.len()
            invariant
                i <= edits@.len(),
                es == edit_models(edits@),
                next.wf(),
                next@ == m0.replay(es.take(i as int)),
            decreases edits@.len() - i,
        {
            assert(es.take(i + 1).drop_last() =~= es.take(i as int));
            assert(es.take(i + 1).last() == edits@[i as int]@);
            next.apply(edits[i].clone());
            i += 1;
        }
        assert(es.take(i as int) =~= es);
        next.rebuild_indexes();
        next
    }

    /// Returns all populated levels and their files.
    pub fn levels(&self) -> (r: &BTreeMap<u32, BTreeSet<u64>>)
        ensures
            r@.map_values(|s: BTreeSet<u64>| s@) == self@.levels,
    {
        &self.levels
    }

    /// Returns the id to allocate next.
    pub fn next_file_id(&self) -> (r: u64)
        ensures
            r == self@.next_file_id,
    {
        self.next_file_id
    }

    /// Returns the metadata of a file, if known.
    pub fn file_metadata(&self, file_id: u64) -> (r: Option<&FileMeta>)
        ensures
            r is Some <==> self@.meta.contains_key(file_id),
            r matches Some(m) ==> meta_model(*m) == self@.meta[file_id],
    {
        id_get(&self.file_meta, file_id)
    }

    /// Returns whether the table prefix is dropped.
    pub fn is_dropped(&self, prefix: &[u8]) -> (r: bool)
        requires
            self.wf(),
        ensures
            r == self@.dropped.contains(prefix@),
    {
        self.dropped.contains(prefix)
    }

    /// Returns every dropped table prefix, in order.
    pub fn dropped_prefixes(&self) -> (r: Vec<Vec<u8>>)
        requires
            self.wf(),
        ensures
            r@.map_values(|p: Vec<u8>| p@) == sorted_keys(self@.dropped),
            lists_keys(sorted_keys(self@.dropped), self@.dropped),
    {
        let keys = self.dropped.all_keys();
        let ghost ks = key_views(keys@);
        let mut out: Vec<Vec<u8>> = Vec::new();
        let mut i: usize = 0;
        while i < keys.len()
            invariant
                i <= keys@.len(),
                ks == key_views(keys@),
                out@.map_values(|p: Vec<u8>| p@) == ks.take(i as int),
            decreases keys@.len() - i,
        {
            let mut p: Vec<u8> = Vec::new();
            append_bytes(&mut p, bytes_slice(&keys[i]));
            assert(p@ =~= ks[i as int]);
            let ghost before = out@;
            out.push(p);
            assert(out@.map_values(|p: Vec<u8>| p@) =~= before.map_values(|p: Vec<u8>| p@).push(
                ks[i as int],
            ));
            assert(ks.take(i + 1) =~= ks.take(i as int).push(ks[i as int]));
            i += 1;
        }
        assert(ks.take(i as int) =~= ks);
        out
    }

    /// Returns every file id across all levels, by level and then by id.
    pub fn file_ids(&self) -> (r: Vec<u64>)
        ensures
            exists|ps: Seq<(u32, u64)>| #[trigger]
                lists_files(ps, self@.levels) && r@ == ids_of(ps),
    {
        let pairs = self.level_files();
        let mut out: Vec<u64> = Vec::new();
        let mut i: usize = 0;
        while i < pairs.len()
            invariant
                i <= pairs@.len(),
                out@ == ids_of(pairs@.take(i as int)),
            decreases pairs@.len() - i,
        {
            out.push(pairs[i].1);
            assert(out@ =~= ids_of(pairs@.take(i + 1)));
            i += 1;
        }
        assert(pairs@.take(i as int) =~= pairs@);
        out
    }

    /// Serializes the state into the edits that restore it.
    pub fn to_edits(&self) -> (r: Vec<VersionEdit>)
        requires
            self.wf(),
        ensures
            exists|ps: Seq<(u32, u64)>| #[trigger]
                lists_files(ps, self@.levels) && edit_models(r@) == snapshot_edits(self@, ps),
            lists_keys(sorted_keys(self@.dropped), self@.dropped),
    {
        let pairs = self.level_files();
        let ghost m = self@;
        let ghost ps = pairs@;
        let mut edits: Vec<VersionEdit> = Vec::new();
        let mut i: usize = 0;
        while i < pairs.len()
            invariant
                i <= pairs@.len(),
                ps == pairs@,
                m == self@,
                edit_models(edits@) == ps.take(i as int).map_values(
                    |p: (u32, u64)| add_edit(m, p),
                ),
            decreases pairs@.len() - i,
        {
            let (level, file_id) = pairs[i];
            let meta: FileMeta = match id_get(&self.file_meta, file_id) {
                Some(t) => (t.0.clone(), t.1.clone(), t.2, t.3),
                None => (bytes_empty(), bytes_empty(), 0, 0),
            };
            let ghost before = edits@;
            let edit = VersionEdit::AddFile {
                file_id,
                level,
                min_key: meta.0,
                max_key: meta.1,
                bytes: meta.2,
                created_at: meta.3,
            };
            assert(edit@ == add_edit(m, ps[i as int]));
            edits.push(edit);
            assert(edit_models(edits@) =~= edit_models(before).push(edit@));
            assert(ps.take(i + 1).map_values(|p: (u32, u64)| add_edit(m, p)) =~= ps.take(
                i as int,
            ).map_values(|p: (u32, u64)| add_edit(m, p)).push(edit@));
            i += 1;
        }
        assert(ps.take(i as int) =~= ps);
        let ghost files = edit_models(edits@);
        edits.push(VersionEdit::NextFileId(self.next_file_id));
        let ghost front = files.push(EditModel::NextFileId(m.next_file_id));
        assert(edit_models(edits@) =~= front);
        let prefixes = self.dropped_prefixes();
        let ghost ds = sorted_keys(m.dropped);
        let mut j: usize = 0;
        assert(edit_models(edits@) =~= front + ds.take(0).map_values(
            |p: Seq<u8>| EditModel::DroppedPrefix(p),
        ));
        while j < prefixes.len()
            invariant
                j <= prefixes@.len(),
                prefixes@.map_values(|p: Vec<u8>| p@) == ds,
                edit_models(edits@) == front + ds.take(j as int).map_values(
                    |p: Seq<u8>| EditModel::DroppedPrefix(p),
                ),
            decreases prefixes@.len() - j,
        {
            let ghost before = edits@;
            let p = copy_vec(&prefixes[j]);
            assert(p@ == ds[j as int]);
            edits.push(VersionEdit::DroppedPrefix(p));
            assert(edit_models(edits@) =~= edit_models(before).push(
                EditModel::DroppedPrefix(ds[j as int]),
            ));
            assert(front + ds.take(j + 1).map_values(|p: Seq<u8>| EditModel::DroppedPrefix(p))
                =~= (front + ds.take(j as int).map_values(
                |p: Seq<u8>| EditModel::DroppedPrefix(p),
            )).push(EditModel::DroppedPrefix(ds[j as int])));
            j += 1;
        }
        proof {
            assert(ds.take(j as int) =~= ds);
            assert(edit_models(edits@) =~= snapshot_edits(m, ps));
        }
        edits
    }
}

/// The edit that adds one file of the state.
pub open spec fn add_edit(m: VersionSetModel, p: (u32, u64)) -> EditModel {
    EditModel::AddFile(
        p.1,
        p.0,
        if m.meta.contains_key(p.1) {
            m.meta[p.1]
        } else {
            MetaModel { min_key: Seq::empty(), max_key: Seq::empty(), bytes: 0, created_at: 0 }
        },
    )
}

/// The edits that restore a state whose files `ps` lists: the files, the next
/// id, the dropped prefixes.
pub open spec fn snapshot_edits(m: VersionSetModel, ps: Seq<(u32, u64)>) -> Seq<EditModel> {
    ps.map_values(|p: (u32, u64)| add_edit(m, p)).push(EditModel::NextFileId(m.next_file_id))
        + sorted_keys(m.dropped).map_values(|p: Seq<u8>| EditModel::DroppedPrefix(p))
}

impl Clone for VersionSet {
    fn clone(&self) -> (r: Self)
        ensures
            self.wf() ==> r.wf() && r.indexed() && r@ == self@,
    {
        broadcast use vstd::std_specs::btree::group_btree_axioms;

        let mut r = VersionSet {
            levels: self.levels.clone(),
            file_meta: self.file_meta.clone(),
            next_file_id: self.next_file_id,
            dropped: self.dropped.copy_keys(),
            files_by_key: Vec::new(),
            file_level: Vec::new(),
        };
        r.rebuild_indexes();
        r
    }
}

impl Default for VersionSet {
    fn default() -> (r: Self)
        ensures
            r.wf(),
            r.indexed(),
            r@ == VersionSetModel::empty(),
    {
        VersionSet::new()
    }
}

} // verus!
