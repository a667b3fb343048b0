//! What reading a manifest gives back of what was written.

use crate::buf::{lists_keys, sorted_keys};
use crate::codec::{prefixed, take_prefixed, u32_at, u64_at};
use crate::crc32c::crc_fold;
use crate::manifest::{
    all_fit, edit_body, edit_fits, edit_frame, edit_frames, has_empty_prefix, magic, op_tag,
    parse_edit, parse_edits, payload, take_add, take_payload, EditLog, ParsedEdit,
};
use crate::version_set::{
    add_edit, id_after, lists_files, snapshot_edits, EditModel, MetaModel, VersionSetModel,
};
use vstd::bytes::{
    lemma_auto_spec_u32_to_from_le_bytes, lemma_auto_spec_u64_to_from_le_bytes,
    spec_u32_to_le_bytes, spec_u64_to_le_bytes,
};
use vstd::prelude::*;

verus! {

/// The edit can be written, and reading accepts it.
pub open spec fn edit_reads_back(e: EditModel) -> bool {
    edit_fits(e) && !has_empty_prefix(e)
}

/// Every edit reads back.
pub open spec fn edits_read_back(es: Seq<EditModel>) -> bool {
    forall|i: int| 0 <= i < es.len() ==> edit_reads_back(#[trigger] es[i])
}

/// `buf` agrees with `f` on the first `k` bytes from `at` on.
spec fn agrees(buf: Seq<u8>, at: int, f: Seq<u8>, k: int) -> bool {
    &&& 0 <= at
    &&& 0 <= k <= f.len()
    &&& at + k <= buf.len()
    &&& forall|i: int| 0 <= i < k ==> #[trigger] f[i] == buf[at + i]
}

proof fn lemma_same_range(buf: Seq<u8>, at: int, f: Seq<u8>, k: int, lo: int, hi: int)
    requires
        agrees(buf, at, f, k),
        0 <= lo <= hi <= k,
    ensures
        buf.subrange(at + lo, at + hi) == f.subrange(lo, hi),
{
    assert(buf.subrange(at + lo, at + hi) =~= f.subrange(lo, hi));
}

/// The pieces of the frame of an added file.
proof fn lemma_add_frame(id: u64, level: u32, m: MetaModel)
    requires
        m.min_key.len() <= u32::MAX,
        m.max_key.len() <= u32::MAX,
    ensures
        ({
            let e = EditModel::AddFile(id, level, m);
            let f = edit_frame(e);
            let p = 21 + m.min_key.len() as int;
            let q = p + 4 + m.max_key.len() as int;
            &&& f.len() == q + 20
            &&& f.subrange(0, 4) == magic()
            &&& f[4] == 1
            &&& f.subrange(5, 13) == spec_u64_to_le_bytes(id)
            &&& f.subrange(13, 17) == spec_u32_to_le_bytes(level)
            &&& f.subrange(17, 21) == spec_u32_to_le_bytes(m.min_key.len() as u32)
            &&& f.subrange(21, p) == m.min_key
            &&& f.subrange(p, p + 4) == spec_u32_to_le_bytes(m.max_key.len() as u32)
            &&& f.subrange(p + 4, q) == m.max_key
            &&& f.subrange(q, q + 8) == spec_u64_to_le_bytes(m.bytes)
            &&& f.subrange(q + 8, q + 16) == spec_u64_to_le_bytes(m.created_at)
            &&& f.subrange(0, q + 16) == edit_body(e)
            &&& f.subrange(q + 16, q + 20) == spec_u32_to_le_bytes(crc_fold(0, edit_body(e)))
        }),
{
    reveal(edit_frame);
    lemma_auto_spec_u32_to_from_le_bytes();
    lemma_auto_spec_u64_to_from_le_bytes();
    let e = EditModel::AddFile(id, level, m);
    let f = edit_frame(e);
    let p = 21 + m.min_key.len() as int;
    let q = p + 4 + m.max_key.len() as int;
    assert(f.subrange(0, 4) =~= magic());
    assert(f.subrange(5, 13) =~= spec_u64_to_le_bytes(id));
    assert(f.subrange(13, 17) =~= spec_u32_to_le_bytes(level));
    assert(f.subrange(17, 21) =~= spec_u32_to_le_bytes(m.min_key.len() as u32));
    assert(f.subrange(21, p) =~= m.min_key);
    assert(f.subrange(p, p + 4) =~= spec_u32_to_le_bytes(m.max_key.len() as u32));
    assert(f.subrange(p + 4, q) =~= m.max_key);
    assert(f.subrange(q, q + 8) =~= spec_u64_to_le_bytes(m.bytes));
    assert(f.subrange(q + 8, q + 16) =~= spec_u64_to_le_bytes(m.created_at));
    assert(f.subrange(0, q + 16) =~= edit_body(e));
    assert(f.subrange(q + 16, q + 20) =~= spec_u32_to_le_bytes(crc_fold(0, edit_body(e))));
}

proof fn lemma_frame_ends(e: EditModel)
    requires
        edit_fits(e),
    ensures
        ({
            let f = edit_frame(e);
            let n = f.len() as int;
            &&& n == payload(e).len() + 9
            &&& f.subrange(0, 4) == magic()
            &&& f[4] == op_tag(e)
            &&& f.subrange(5, n - 4) == payload(e)
            &&& f.subrange(0, n - 4) == edit_body(e)
            &&& f.subrange(n - 4, n) == spec_u32_to_le_bytes(crc_fold(0, edit_body(e)))
        }),
{
    reveal(edit_frame);
    lemma_auto_spec_u32_to_from_le_bytes();
    let f = edit_frame(e);
    let n = f.len() as int;
    assert(f.subrange(0, 4) =~= magic());
    assert(f.subrange(5, n - 4) =~= payload(e));
    assert(f.subrange(0, n - 4) =~= edit_body(e));
    assert(f.subrange(n - 4, n) =~= spec_u32_to_le_bytes(crc_fold(0, edit_body(e))));
}

proof fn lemma_add_reads_back(buf: Seq<u8>, at: int, id: u64, level: u32, m: MetaModel, k: int)
    requires
        m.min_key.len() <= u32::MAX,
        m.max_key.len() <= u32::MAX,
        agrees(buf, at, edit_frame(EditModel::AddFile(id, level, m)), k),
        9 <= k,
        k < edit_frame(EditModel::AddFile(id, level, m)).len() ==> buf.len() == at + k,
    ensures
        ({
            let e = EditModel::AddFile(id, level, m);
            let n = edit_frame(e).len() as int;
            &&& k < n - 4 ==> take_add(buf, at + 5) is None
            &&& k >= n - 4 ==> take_add(buf, at + 5) == Some((e, at + n - 4))
        }),
{
    lemma_auto_spec_u32_to_from_le_bytes();
    lemma_auto_spec_u64_to_from_le_bytes();
    let f = edit_frame(EditModel::AddFile(id, level, m));
    let n = f.len() as int;
    lemma_add_frame(id, level, m);
    let p = 21 + m.min_key.len() as int;
    let q = p + 4 + m.max_key.len() as int;
    if k >= 17 {
        lemma_same_range(buf, at, f, k, 5, 13);
        lemma_same_range(buf, at, f, k, 13, 17);
    }
    if k >= 21 {
        lemma_same_range(buf, at, f, k, 17, 21);
        assert(u32_at(buf, at + 17) == m.min_key.len());
    }
    if k >= p {
        lemma_same_range(buf, at, f, k, 21, p);
        assert(take_prefixed(buf, at + 17) == Some((m.min_key, at + p)));
    } else {
        assert(k >= 17 ==> take_prefixed(buf, at + 17) is None);
    }
    if k >= p + 4 {
        lemma_same_range(buf, at, f, k, p, p + 4);
        assert(u32_at(buf, at + p) == m.max_key.len());
    }
    if k >= q {
        lemma_same_range(buf, at, f, k, p + 4, q);
        assert(take_prefixed(buf, at + p) == Some((m.max_key, at + q)));
    } else {
        assert(k >= p ==> take_prefixed(buf, at + p) is None);
    }
    if k >= q + 16 {
        lemma_same_range(buf, at, f, k, q, q + 8);
        lemma_same_range(buf, at, f, k, q + 8, q + 16);
    }
}

/// The payload is read back as soon as all of it is there, and not before.
proof fn lemma_payload_reads_back(buf: Seq<u8>, at: int, e: EditModel, k: int)
    requires
        edit_fits(e),
        agrees(buf, at, edit_frame(e), k),
        9 <= k,
        k < edit_frame(e).len() ==> buf.len() == at + k,
    ensures
        ({
            let n = edit_frame(e).len() as int;
            &&& k < n - 4 ==> take_payload(buf, op_tag(e), at + 5) is None
            &&& k >= n - 4 ==> take_payload(buf, op_tag(e), at + 5) == Some((e, at + n - 4))
        }),
{
    lemma_auto_spec_u32_to_from_le_bytes();
    lemma_auto_spec_u64_to_from_le_bytes();
    lemma_frame_ends(e);
    let f = edit_frame(e);
    let n = f.len() as int;
    match e {
        EditModel::AddFile(id, level, m) => {
            lemma_add_reads_back(buf, at, id, level, m, k);
        },
        EditModel::DeleteFile(id, level) => {
            let b = payload(e);
            assert(b.subrange(0, 8) =~= spec_u64_to_le_bytes(id));
            assert(b.subrange(8, 12) =~= spec_u32_to_le_bytes(level));
            if k >= n - 4 {
                lemma_same_range(buf, at, f, k, 5, 13);
                lemma_same_range(buf, at, f, k, 13, 17);
                assert(f.subrange(5, 13) =~= f.subrange(5, n - 4).subrange(0, 8));
                assert(f.subrange(13, 17) =~= f.subrange(5, n - 4).subrange(8, 12));
            }
        },
        EditModel::NextFileId(id) => {
            if k >= n - 4 {
                lemma_same_range(buf, at, f, k, 5, 13);
            }
        },
        EditModel::DroppedPrefix(s) => {
            lemma_prefix_reads_back(buf, at, e, s, k);
        },
        EditModel::UndroppedPrefix(s) => {
            lemma_prefix_reads_back(buf, at, e, s, k);
        },
    }
}

proof fn lemma_prefix_reads_back(buf: Seq<u8>, at: int, e: EditModel, s: Seq<u8>, k: int)
    requires
        s.len() <= u32::MAX,
        e == EditModel::DroppedPrefix(s) || e == EditModel::UndroppedPrefix(s),
        agrees(buf, at, edit_frame(e), k),
        9 <= k,
        k < edit_frame(e).len() ==> buf.len() == at + k,
    ensures
        ({
            let n = edit_frame(e).len() as int;
            &&& k < n - 4 ==> take_prefixed(buf, at + 5) is None
            &&& k >= n - 4 ==> take_prefixed(buf, at + 5) == Some((s, at + n - 4))
        }),
{
    lemma_auto_spec_u32_to_from_le_bytes();
    lemma_frame_ends(e);
    let f = edit_frame(e);
    let n = f.len() as int;
    let b = payload(e);
    assert(b.subrange(0, 4) =~= spec_u32_to_le_bytes(s.len() as u32));
    assert(b.subrange(4, b.len() as int) =~= s);
    assert(f.subrange(5, 9) =~= f.subrange(5, n - 4).subrange(0, 4));
    assert(f.subrange(9, n - 4) =~= f.subrange(5, n - 4).subrange(4, b.len() as int));
    lemma_same_range(buf, at, f, k, 5, 9);
    assert(u32_at(buf, at + 5) == s.len());
    if k >= n - 4 {
        lemma_same_range(buf, at, f, k, 9, n - 4);
    }
}

/// An edit that was written is read back, wherever its frame stands; a frame
/// whose end is cut off is torn.
pub proof fn lemma_edit_frame_reads_back(buf: Seq<u8>, at: int, e: EditModel)
    requires
        edit_reads_back(e),
        0 <= at <= buf.len(),
        ({
            let n = edit_frame(e).len() as int;
            let k = if buf.len() - at >= n {
                n
            } else {
                buf.len() - at
            };
            buf.subrange(at, at + k) == edit_frame(e).take(k)
        }),
    ensures
        ({
            let n = edit_frame(e).len() as int;
            parse_edit(buf, at) == (if buf.len() - at >= n {
                ParsedEdit::Edit(e, at + n)
            } else {
                ParsedEdit::Torn
            })
        }),
{
    reveal(parse_edit);
    lemma_auto_spec_u32_to_from_le_bytes();
    lemma_frame_ends(e);
    let f = edit_frame(e);
    let n = f.len() as int;
    let k = if buf.len() - at >= n {
        n
    } else {
        buf.len() - at
    };
    assert forall|i: int| 0 <= i < k implies #[trigger] f[i] == buf[at + i] by {
        assert(buf.subrange(at, at + k)[i] == f.take(k)[i]);
    }
    if k >= 9 {
        lemma_same_range(buf, at, f, k, 0, 4);
        assert(buf[at + 4] == f[4]);
        lemma_payload_reads_back(buf, at, e, k);
        if k == n {
            lemma_same_range(buf, at, f, k, 0, n - 4);
            lemma_same_range(buf, at, f, k, n - 4, n);
            let end = at + n - 4;
            assert(buf.subrange(at, end) == edit_body(e));
            assert(buf.subrange(end, end + 4) == spec_u32_to_le_bytes(crc_fold(0, edit_body(e))));
            assert(u32_at(buf, end) == crc_fold(0, edit_body(e)));
        }
    }
}

/// The frames of a longer list begin with those of a shorter one.
proof fn lemma_edit_frames_prefix(es: Seq<EditModel>, i: int)
    requires
        0 <= i <= es.len(),
    ensures
        edit_frames(es.take(i)).len() <= edit_frames(es).len(),
        edit_frames(es).take(edit_frames(es.take(i)).len() as int) == edit_frames(es.take(i)),
        i < es.len() ==> {
            let start = edit_frames(es.take(i)).len() as int;
            let n = edit_frame(es[i]).len() as int;
            &&& edit_frames(es.take(i + 1)) == edit_frames(es.take(i)) + edit_frame(es[i])
            &&& start + n <= edit_frames(es).len()
            &&& edit_frames(es).subrange(start, start + n) == edit_frame(es[i])
        },
    decreases es.len() - i,
{
    if i == es.len() {
        assert(es.take(i) =~= es);
        assert(edit_frames(es).take(edit_frames(es).len() as int) =~= edit_frames(es));
    } else {
        lemma_edit_frames_prefix(es, i + 1);
        assert(es.take(i + 1).drop_last() =~= es.take(i));
        let a = edit_frames(es.take(i));
        let b = edit_frames(es.take(i + 1));
        let start = a.len() as int;
        let end = b.len() as int;
        assert(edit_frames(es).take(start) =~= edit_frames(es).take(end).take(start));
        assert(b.take(start) =~= a);
        assert(edit_frames(es).subrange(start, end) =~= edit_frames(es).take(end).subrange(
            start,
            end,
        ));
        assert(b.subrange(start, end) =~= edit_frame(es[i]));
    }
}

/// Reading a log that begins with the frames of `es` gives `es`, and then
/// whatever stands behind them.
pub proof fn lemma_edits_begin_with(buf: Seq<u8>, es: Seq<EditModel>)
    requires
        edits_read_back(es),
        edit_frames(es).len() <= buf.len(),
        buf.take(edit_frames(es).len() as int) == edit_frames(es),
    ensures
        ({
            let rest = parse_edits(buf, edit_frames(es).len() as int);
            parse_edits(buf, 0) == EditLog {
                edits: es + rest.edits,
                valid: rest.valid,
                stop: rest.stop,
            }
        }),
    decreases es.len(),
{
    let end = edit_frames(es).len() as int;
    if es.len() == 0 {
        assert(es + parse_edits(buf, 0).edits =~= parse_edits(buf, 0).edits);
    } else {
        let init = es.drop_last();
        let e = es.last();
        let start = edit_frames(init).len() as int;
        assert(es.take(es.len() - 1) =~= init);
        lemma_edit_frames_prefix(es, es.len() - 1);
        assert(buf.take(start) =~= edit_frames(es).take(start));
        lemma_edits_begin_with(buf, init);
        assert(buf.subrange(start, end) =~= edit_frames(es).subrange(start, end));
        assert(edit_frame(e).take(edit_frame(e).len() as int) =~= edit_frame(e));
        lemma_frame_ends(e);
        lemma_edit_frame_reads_back(buf, start, e);
        let rest = parse_edits(buf, end);
        assert(init + (seq![e] + rest.edits) =~= es + rest.edits);
    }
}

/// How many of the frames of `es` end within the first `cut` bytes.
pub open spec fn whole_edits(es: Seq<EditModel>, cut: int) -> nat
    decreases es.len(),
{
    if es.len() == 0 || edit_frames(es).len() <= cut {
        es.len()
    } else {
        whole_edits(es.drop_last(), cut)
    }
}

proof fn lemma_whole_edits(es: Seq<EditModel>, cut: int)
    requires
        0 <= cut,
    ensures
        whole_edits(es, cut) <= es.len(),
        edit_frames(es.take(whole_edits(es, cut) as int)).len() <= cut,
        whole_edits(es, cut) < es.len() ==> cut < edit_frames(
            es.take(whole_edits(es, cut) as int + 1),
        ).len(),
    decreases es.len(),
{
    let k = whole_edits(es, cut) as int;
    if es.len() == 0 || edit_frames(es).len() <= cut {
        assert(es.take(k) =~= es);
    } else {
        let init = es.drop_last();
        lemma_whole_edits(init, cut);
        assert(init.take(k) =~= es.take(k));
        if k < init.len() {
            assert(init.take(k + 1) =~= es.take(k + 1));
        } else {
            assert(es.take(k + 1) =~= es);
        }
    }
}

proof fn lemma_cut_edit(es: Seq<EditModel>, cut: int, n: int)
    requires
        edits_read_back(es),
        0 <= n <= es.len(),
        0 <= cut <= edit_frames(es).len(),
        edit_frames(es.take(n)).len() <= cut,
        n < es.len() ==> cut < edit_frames(es.take(n + 1)).len(),
    ensures
        parse_edit(
            edit_frames(es).take(cut),
            edit_frames(es.take(n)).len() as int,
        ) == ParsedEdit::Torn,
{
    reveal(parse_edit);
    let buf = edit_frames(es).take(cut);
    let start = edit_frames(es.take(n)).len() as int;
    lemma_edit_frames_prefix(es, n);
    if n < es.len() {
        let f = edit_frame(es[n]);
        assert(buf.subrange(start, cut) =~= edit_frames(es).subrange(
            start,
            start + f.len(),
        ).take(cut - start));
        lemma_edit_frame_reads_back(buf, start, es[n]);
    } else {
        assert(es.take(n) =~= es);
    }
}

/// A manifest that lost its tail gives back exactly the edits whose frames are
/// complete, and their end as the offset to truncate to.
pub proof fn law_manifest_torn_tail(es: Seq<EditModel>, cut: int)
    requires
        edits_read_back(es),
        0 <= cut <= edit_frames(es).len(),
    ensures
        ({
            let n = whole_edits(es, cut) as int;
            &&& n <= es.len()
            &&& parse_edits(edit_frames(es).take(cut), 0) == EditLog {
                edits: es.take(n),
                valid: edit_frames(es.take(n)).len() as int,
                stop: ParsedEdit::Torn,
            }
        }),
{
    let n = whole_edits(es, cut) as int;
    lemma_whole_edits(es, cut);
    let buf = edit_frames(es).take(cut);
    let start = edit_frames(es.take(n)).len() as int;
    lemma_edit_frames_prefix(es, n);
    assert(buf.take(start) =~= edit_frames(es).take(start));
    assert forall|i: int| 0 <= i < n implies edit_reads_back(#[trigger] es.take(n)[i]) by {
        assert(es.take(n)[i] == es[i]);
    }
    lemma_edits_begin_with(buf, es.take(n));
    lemma_cut_edit(es, cut, n);
    assert(es.take(n) + Seq::<EditModel>::empty() =~= es.take(n));
}

/// Reading what was written gives every edit back, up to the end.
pub proof fn law_manifest_round_trip(es: Seq<EditModel>)
    requires
        edits_read_back(es),
    ensures
        parse_edits(edit_frames(es), 0) == (EditLog {
            edits: es,
            valid: edit_frames(es).len() as int,
            stop: ParsedEdit::Torn,
        }),
{
    law_manifest_torn_tail(es, edit_frames(es).len() as int);
    assert(edit_frames(es).take(edit_frames(es).len() as int) =~= edit_frames(es));
    assert(es.take(es.len() as int) =~= es);
}

/// Frames of two lists, one behind the other.
pub proof fn lemma_edit_frames_concat(a: Seq<EditModel>, b: Seq<EditModel>)
    ensures
        edit_frames(a + b) == edit_frames(a) + edit_frames(b),
    decreases b.len(),
{
    if b.len() == 0 {
        assert(a + b =~= a);
        assert(edit_frames(a) + edit_frames(b) =~= edit_frames(a));
    } else {
        assert((a + b).drop_last() =~= a + b.drop_last());
        lemma_edit_frames_concat(a, b.drop_last());
        assert(edit_frames(a) + edit_frames(b.drop_last()) + edit_frame(b.last()) =~= edit_frames(a)
            + edit_frames(b));
    }
}

/// Replaying two lists is replaying the one and then the other.
pub proof fn lemma_replay_concat(m: VersionSetModel, a: Seq<EditModel>, b: Seq<EditModel>)
    ensures
        m.replay(a + b) == m.replay(a).replay(b),
    decreases b.len(),
{
    if b.len() == 0 {
        assert(a + b =~= a);
    } else {
        assert((a + b).drop_last() =~= a + b.drop_last());
        lemma_replay_concat(m, a, b.drop_last());
    }
}

/// The state can be restored from the edits that list it: every file of a
/// level is known and every known file is in a level, no level is empty, and
/// the next id lies beyond every file.
pub open spec fn restorable(m: VersionSetModel) -> bool {
    &&& forall|l: u32, f: u64| #[trigger] m.holds(l, f) ==> m.meta.contains_key(f)
    &&& forall|f: u64| #[trigger] m.meta.contains_key(f) ==> exists|l: u32| m.holds(l, f)
    &&& forall|l: u32| #[trigger] m.levels.contains_key(l) ==> !m.levels[l].is_empty()
    &&& forall|f: u64| #[trigger] m.meta.contains_key(f) ==> id_after(f) <= m.next_file_id
}

proof fn lemma_replay_adds(m: VersionSetModel, ps: Seq<(u32, u64)>, i: int)
    requires
        0 <= i <= ps.len(),
        restorable(m),
        lists_files(ps, m.levels),
    ensures
        ({
            let es = ps.map_values(|p: (u32, u64)| add_edit(m, p)).take(i);
            let s = VersionSetModel::empty().replay(es);
            &&& forall|l: u32, f: u64| #[trigger] s.holds(l, f) <==> ps.take(i).contains((l, f))
            &&& forall|l: u32| #[trigger] s.levels.contains_key(l) ==> !s.levels[l].is_empty()
            &&& forall|f: u64| #[trigger]
                s.meta.contains_key(f) <==> exists|l: u32| ps.take(i).contains((l, f))
            &&& forall|f: u64| #[trigger] s.meta.contains_key(f) ==> s.meta[f] == m.meta[f]
            &&& s.next_file_id <= m.next_file_id
            &&& s.dropped == Set::<Seq<u8>>::empty()
        }),
    decreases i,
{
    let all = ps.map_values(|p: (u32, u64)| add_edit(m, p));
    let s = VersionSetModel::empty().replay(all.take(i));
    if i == 0 {
        assert(all.take(0) =~= Seq::<EditModel>::empty());
    } else {
        lemma_replay_adds(m, ps, i - 1);
        let r = VersionSetModel::empty().replay(all.take(i - 1));
        let (l0, f0) = ps[i - 1];
        assert(all.take(i).drop_last() =~= all.take(i - 1));
        assert(all.take(i).last() == add_edit(m, ps[i - 1]));
        assert(ps.contains((l0, f0)));
        assert(m.holds(l0, f0));
        assert(s == r.apply(EditModel::AddFile(f0, l0, m.meta[f0])));
        let t0 = ps.take(i - 1);
        let t1 = ps.take(i);
        assert(t1 =~= t0.push((l0, f0)));
        assert forall|l: u32, f: u64| #[trigger] s.holds(l, f) <==> t1.contains((l, f)) by {
            lemma_push_contains(t0, (l0, f0), (l, f));
            assert(r.holds(l, f) <==> t0.contains((l, f)));
        }
        assert forall|l: u32| #[trigger] s.levels.contains_key(l) implies !s.levels[l].is_empty() by {
            if l == l0 {
                assert(s.levels[l].contains(f0));
            } else {
                assert(r.levels.contains_key(l));
            }
        }
        assert forall|f: u64| #[trigger] s.meta.contains_key(f) <==> exists|l: u32|
            t1.contains((l, f)) by {
            if s.meta.contains_key(f) {
                if f == f0 {
                    lemma_push_contains(t0, (l0, f0), (l0, f));
                } else {
                    assert(r.meta.contains_key(f));
                    let l = choose|l: u32| t0.contains((l, f));
                    lemma_push_contains(t0, (l0, f0), (l, f));
                }
            }
            if exists|l: u32| t1.contains((l, f)) {
                let l = choose|l: u32| t1.contains((l, f));
                lemma_push_contains(t0, (l0, f0), (l, f));
                if f != f0 {
                    assert(t0.contains((l, f)));
                    assert(r.meta.contains_key(f));
                }
            }
        }
        assert forall|f: u64| #[trigger] s.meta.contains_key(f) implies s.meta[f] == m.meta[f] by {
            if f != f0 {
                assert(r.meta.contains_key(f));
            }
        }
        assert(m.meta.contains_key(f0));
    }
}

proof fn lemma_push_contains(s: Seq<(u32, u64)>, x: (u32, u64), y: (u32, u64))
    ensures
        s.push(x).contains(y) <==> s.contains(y) || x == y,
{
    if s.contains(y) {
        let j = choose|j: int| 0 <= j < s.len() && s[j] == y;
        assert(s.push(x)[j] == y);
    }
    if x == y {
        assert(s.push(x)[s.len() as int] == y);
    }
    if s.push(x).contains(y) {
        let j = choose|j: int| 0 <= j < s.push(x).len() && s.push(x)[j] == y;
        if j < s.len() {
            assert(s[j] == y);
        }
    }
}

proof fn lemma_replay_drops(m: VersionSetModel, ds: Seq<Seq<u8>>)
    ensures
        ({
            let s = m.replay(ds.map_values(|p: Seq<u8>| EditModel::DroppedPrefix(p)));
            &&& s.levels == m.levels
            &&& s.meta == m.meta
            &&& s.next_file_id == m.next_file_id
            &&& forall|p: Seq<u8>| #[trigger]
                s.dropped.contains(p) <==> m.dropped.contains(p) || ds.contains(p)
        }),
    decreases ds.len(),
{
    let f = |p: Seq<u8>| EditModel::DroppedPrefix(p);
    let es = ds.map_values(f);
    let s = m.replay(es);
    if ds.len() > 0 {
        let init = ds.drop_last();
        assert(es.drop_last() =~= init.map_values(f));
        lemma_replay_drops(m, init);
        let r = m.replay(init.map_values(f));
        assert(s == r.apply(EditModel::DroppedPrefix(ds.last())));
        assert forall|p: Seq<u8>| #[trigger] s.dropped.contains(p) <==> m.dropped.contains(p)
            || ds.contains(p) by {
            assert(r.dropped.contains(p) <==> m.dropped.contains(p) || init.contains(p));
            if init.contains(p) {
                let j = choose|j: int| 0 <= j < init.len() && init[j] == p;
                assert(ds[j] == p);
            }
            if p == ds.last() {
                assert(ds[ds.len() - 1] == p);
            }
            if ds.contains(p) && p != ds.last() {
                let j = choose|j: int| 0 <= j < ds.len() && ds[j] == p;
                assert(init[j] == p);
            }
        }
    }
}

/// Replaying the snapshot of a state restores that state.
pub proof fn law_snapshot_restores(m: VersionSetModel, ps: Seq<(u32, u64)>)
    requires
        restorable(m),
        lists_files(ps, m.levels),
        lists_keys(sorted_keys(m.dropped), m.dropped),
    ensures
        VersionSetModel::empty().replay(snapshot_edits(m, ps)) == m,
{
    let adds = ps.map_values(|p: (u32, u64)| add_edit(m, p));
    let front = adds.push(EditModel::NextFileId(m.next_file_id));
    let ds = sorted_keys(m.dropped);
    let drops = ds.map_values(|p: Seq<u8>| EditModel::DroppedPrefix(p));
    lemma_replay_adds(m, ps, ps.len() as int);
    assert(adds.take(ps.len() as int) =~= adds);
    assert(ps.take(ps.len() as int) =~= ps);
    let a = VersionSetModel::empty().replay(adds);
    let b = VersionSetModel::empty().replay(front);
    assert(front.drop_last() =~= adds);
    assert(b == a.apply(EditModel::NextFileId(m.next_file_id)));
    lemma_replay_concat(VersionSetModel::empty(), front, drops);
    lemma_replay_drops(b, ds);
    let s = VersionSetModel::empty().replay(snapshot_edits(m, ps));
    assert(snapshot_edits(m, ps) =~= front + drops);
    assert(s == b.replay(drops));
    assert forall|l: u32| a.levels.contains_key(l) <==> m.levels.contains_key(l) by {
        if a.levels.contains_key(l) {
            let f = choose|f: u64| a.levels[l].contains(f);
            assert(a.holds(l, f));
            assert(ps.contains((l, f)));
        }
        if m.levels.contains_key(l) {
            let f = choose|f: u64| m.levels[l].contains(f);
            assert(ps.contains((l, f)));
            assert(a.holds(l, f));
        }
    }
    assert forall|l: u32| a.levels.contains_key(l) implies a.levels[l] == m.levels[l] by {
        assert forall|f: u64| a.levels[l].contains(f) <==> m.levels[l].contains(f) by {
            assert(a.holds(l, f) <==> ps.contains((l, f)));
        }
        assert(a.levels[l] =~= m.levels[l]);
    }
    assert(a.levels =~= m.levels);
    assert forall|f: u64| a.meta.contains_key(f) <==> m.meta.contains_key(f) by {
        if a.meta.contains_key(f) {
            let l = choose|l: u32| ps.contains((l, f));
            assert(m.holds(l, f));
        }
        if m.meta.contains_key(f) {
            let l = choose|l: u32| m.holds(l, f);
            assert(ps.contains((l, f)));
        }
    }
    assert(a.meta =~= m.meta);
    assert forall|p: Seq<u8>| s.dropped.contains(p) <==> m.dropped.contains(p) by {
        if ds.contains(p) {
            let j = choose|j: int| 0 <= j < ds.len() && ds[j] == p;
            assert(m.dropped.contains(ds[j]));
        }
    }
    assert(s.dropped =~= m.dropped);
    assert(s =~= m);
}

/// Every dropped prefix has a byte.
pub open spec fn drops_are_named(m: VersionSetModel) -> bool {
    forall|p: Seq<u8>| #[trigger] m.dropped.contains(p) ==> p.len() > 0
}

/// An edit that removes a file names the only level that holds it.
pub open spec fn names_its_level(m: VersionSetModel, e: EditModel) -> bool {
    match e {
        EditModel::DeleteFile(id, level) => forall|l: u32| #[trigger]
            m.holds(l, id) ==> l == level,
        _ => true,
    }
}

/// Every edit reads back, and those that remove a file name the only level
/// that holds it then.
pub open spec fn is_orderly(m: VersionSetModel, es: Seq<EditModel>) -> bool {
    forall|i: int|
        0 <= i < es.len() ==> edit_reads_back(#[trigger] es[i]) && names_its_level(
            m.replay(es.take(i)),
            es[i],
        )
}

/// Every state that orderly edits lead to can be restored.
pub proof fn law_orderly_edits_are_restorable(m: VersionSetModel, es: Seq<EditModel>)
    requires
        restorable(m),
        drops_are_named(m),
        is_orderly(m, es),
    ensures
        restorable(m.replay(es)),
        drops_are_named(m.replay(es)),
        edits_read_back(es),
    decreases es.len(),
{
    if es.len() > 0 {
        let init = es.drop_last();
        let n = es.len() - 1;
        assert forall|i: int| 0 <= i < init.len() implies edit_reads_back(#[trigger] init[i])
            && names_its_level(m.replay(init.take(i)), init[i]) by {
            assert(init[i] == es[i]);
            assert(init.take(i) =~= es.take(i));
        }
        law_orderly_edits_are_restorable(m, init);
        assert(edit_reads_back(es[n]));
        assert(es.take(n) =~= init);
        law_edits_keep_restorable(m.replay(init), es.last());
        let s = m.replay(es);
        assert forall|p: Seq<u8>| #[trigger] s.dropped.contains(p) implies p.len() > 0 by {
            assert(m.replay(init).dropped.contains(p) ==> p.len() > 0);
        }
        assert forall|i: int| 0 <= i < es.len() implies edit_reads_back(#[trigger] es[i]) by {}
    }
}

/// The whole edits of a cut log are its front.
pub proof fn lemma_whole_is_front(es: Seq<EditModel>, cut: int)
    requires
        edits_read_back(es),
        0 <= cut <= edit_frames(es).len(),
    ensures
        ({
            let n = whole_edits(es, cut) as int;
            edit_frames(es).take(cut).take(edit_frames(es.take(n)).len() as int) == edit_frames(
                es.take(n),
            )
        }),
{
    let n = whole_edits(es, cut) as int;
    lemma_whole_edits(es, cut);
    lemma_edit_frames_prefix(es, n);
    let k = edit_frames(es.take(n)).len() as int;
    assert(edit_frames(es).take(cut).take(k) =~= edit_frames(es).take(k));
}

/// Adding a file, removing a file from the only level that holds it, bumping
/// the id and dropping or restoring a prefix keep a state restorable.
pub proof fn law_edits_keep_restorable(m: VersionSetModel, e: EditModel)
    requires
        restorable(m),
        names_its_level(m, e),
    ensures
        restorable(m.apply(e)),
{
    let s = m.apply(e);
    match e {
        EditModel::AddFile(id, level, meta) => {
            assert forall|l: u32, f: u64| #[trigger] s.holds(l, f) implies s.meta.contains_key(
                f,
            ) by {
                if f != id {
                    assert(m.holds(l, f));
                }
            }
            assert forall|f: u64| #[trigger] s.meta.contains_key(f) implies exists|l: u32|
                s.holds(l, f) by {
                if f == id {
                    assert(s.holds(level, f));
                } else {
                    assert(m.meta.contains_key(f));
                    let l = choose|l: u32| m.holds(l, f);
                    assert(s.holds(l, f));
                }
            }
            assert forall|l: u32| #[trigger]
                s.levels.contains_key(l) implies !s.levels[l].is_empty() by {
                if l == level {
                    assert(s.levels[l].contains(id));
                } else {
                    assert(m.levels.contains_key(l));
                }
            }
            assert forall|f: u64| #[trigger] s.meta.contains_key(f) implies id_after(f)
                <= s.next_file_id by {
                if f != id {
                    assert(m.meta.contains_key(f));
                }
            }
        },
        EditModel::DeleteFile(id, level) => {
            assert forall|l: u32, f: u64| #[trigger] s.holds(l, f) <==> m.holds(l, f) && (f != id
                || l != level) by {
                if m.levels.contains_key(level) && l == level {
                    let left = m.levels[level].remove(id);
                    if left.is_empty() {
                        assert(!left.contains(f));
                    }
                }
            }
            assert forall|l: u32, f: u64| #[trigger] s.holds(l, f) implies s.meta.contains_key(
                f,
            ) by {
                assert(m.holds(l, f));
            }
            assert forall|f: u64| #[trigger] s.meta.contains_key(f) implies exists|l: u32|
                s.holds(l, f) by {
                assert(m.meta.contains_key(f));
                let l = choose|l: u32| m.holds(l, f);
                assert(s.holds(l, f));
            }
            assert forall|f: u64| #[trigger] s.meta.contains_key(f) implies id_after(f)
                <= s.next_file_id by {
                assert(m.meta.contains_key(f));
            }
        },
        _ => {
            assert forall|l: u32, f: u64| #[trigger] s.holds(l, f) == m.holds(l, f) by {}
            assert forall|f: u64| #[trigger] s.meta.contains_key(f) implies exists|l: u32|
                s.holds(l, f) by {
                assert(m.meta.contains_key(f));
                let l = choose|l: u32| m.holds(l, f);
                assert(s.holds(l, f));
            }
        },
    }
}

proof fn lemma_taken_prefix(buf: Seq<u8>, at: int)
    requires
        0 <= at,
    ensures
        take_prefixed(buf, at) matches Some(p) ==> {
            &&& at + 4 <= p.1 <= buf.len()
            &&& p.0.len() <= u32::MAX
            &&& buf.subrange(at, p.1) == prefixed(p.0)
        },
{
    lemma_auto_spec_u32_to_from_le_bytes();
    if let Some((s, end)) = take_prefixed(buf, at) {
        let field = buf.subrange(at, at + 4);
        assert(spec_u32_to_le_bytes(u32_at(buf, at)) == field);
        assert(s.len() == u32_at(buf, at));
        assert(buf.subrange(at, end) =~= field + s);
    }
}

/// A frame that reading accepts is the one that writing its edit makes.
pub proof fn lemma_accepted_is_written(buf: Seq<u8>, at: int)
    requires
        0 <= at,
    ensures
        parse_edit(buf, at) matches ParsedEdit::Edit(e, end) ==> {
            &&& edit_reads_back(e)
            &&& at < end <= buf.len()
            &&& buf.subrange(at, end) == edit_frame(e)
        },
{
    reveal(parse_edit);
    reveal(edit_frame);
    lemma_auto_spec_u32_to_from_le_bytes();
    lemma_auto_spec_u64_to_from_le_bytes();
    if let ParsedEdit::Edit(e, end) = parse_edit(buf, at) {
        let op = buf[at + 4];
        let stop = end - 4;
        assert(take_payload(buf, op, at + 5) == Some((e, stop)));
        if op == 1 {
            lemma_taken_prefix(buf, at + 17);
            let (min_key, p) = take_prefixed(buf, at + 17)->0;
            lemma_taken_prefix(buf, p);
            let (max_key, q) = take_prefixed(buf, p)->0;
            let (a, b) = (buf.subrange(at + 5, at + 13), buf.subrange(at + 13, at + 17));
            let (c, d) = (buf.subrange(q, q + 8), buf.subrange(q + 8, q + 16));
            assert(spec_u64_to_le_bytes(u64_at(buf, at + 5)) == a);
            assert(spec_u32_to_le_bytes(u32_at(buf, at + 13)) == b);
            assert(spec_u64_to_le_bytes(u64_at(buf, q)) == c);
            assert(spec_u64_to_le_bytes(u64_at(buf, q + 8)) == d);
            assert(buf.subrange(at + 5, stop) =~= a + b + buf.subrange(at + 17, p) + buf.subrange(
                p,
                q,
            ) + c + d);
            assert(buf.subrange(at + 5, stop) == payload(e));
        } else if op == 2 {
            let (a, b) = (buf.subrange(at + 5, at + 13), buf.subrange(at + 13, at + 17));
            assert(spec_u64_to_le_bytes(u64_at(buf, at + 5)) == a);
            assert(spec_u32_to_le_bytes(u32_at(buf, at + 13)) == b);
            assert(buf.subrange(at + 5, stop) =~= a + b);
        } else if op == 3 {
            let a = buf.subrange(at + 5, at + 13);
            assert(spec_u64_to_le_bytes(u64_at(buf, at + 5)) == a);
        } else {
            lemma_taken_prefix(buf, at + 5);
        }
        assert(op_tag(e) == op);
        assert(buf.subrange(at, stop) =~= buf.subrange(at, at + 4) + seq![op] + buf.subrange(
            at + 5,
            stop,
        ));
        assert(buf.subrange(at, stop) == edit_body(e));
        let crc = buf.subrange(stop, end);
        assert(spec_u32_to_le_bytes(u32_at(buf, stop)) == crc);
        assert(buf.subrange(at, end) =~= buf.subrange(at, stop) + crc);
    }
}

/// The sound part of a manifest is what writing its edits makes.
pub proof fn lemma_log_is_written(buf: Seq<u8>, at: int)
    requires
        0 <= at <= buf.len(),
    ensures
        ({
            let log = parse_edits(buf, at);
            &&& at <= log.valid <= buf.len()
            &&& edits_read_back(log.edits)
            &&& buf.subrange(at, log.valid) == edit_frames(log.edits)
        }),
    decreases buf.len() - at,
{
    lemma_accepted_is_written(buf, at);
    let log = parse_edits(buf, at);
    match parse_edit(buf, at) {
        ParsedEdit::Edit(e, end) => {
            lemma_log_is_written(buf, end);
            let rest = parse_edits(buf, end);
            lemma_edit_frames_concat(seq![e], rest.edits);
            assert(seq![e].drop_last() =~= Seq::<EditModel>::empty());
            assert(edit_frames(seq![e]) =~= edit_frame(e)) by {
                assert(edit_frames(Seq::<EditModel>::empty()) =~= Seq::<u8>::empty());
                assert(seq![e].last() == e);
            }
            assert(buf.subrange(at, log.valid) =~= buf.subrange(at, end) + buf.subrange(
                end,
                rest.valid,
            ));
            assert forall|i: int| 0 <= i < log.edits.len() implies edit_reads_back(
                #[trigger] log.edits[i],
            ) by {
                if i > 0 {
                    assert(log.edits[i] == rest.edits[i - 1]);
                }
            }
        },
        _ => {
            assert(buf.subrange(at, at) =~= Seq::<u8>::empty());
        },
    }
}

/// The bytes are the log of edits that lead to the state.
pub open spec fn log_holds(bytes: Seq<u8>, m: VersionSetModel) -> bool {
    exists|es: Seq<EditModel>| #[trigger]
        edits_read_back(es) && bytes == edit_frames(es) && VersionSetModel::empty().replay(es) == m
}

/// A manifest that holds a state gives that state back when it is read.
pub proof fn law_reopen_restores(bytes: Seq<u8>, m: VersionSetModel)
    requires
        log_holds(bytes, m),
    ensures
        VersionSetModel::empty().replay(parse_edits(bytes, 0).edits) == m,
        parse_edits(bytes, 0).valid == bytes.len(),
        parse_edits(bytes, 0).stop is Torn,
{
    let es = choose|es: Seq<EditModel>| #[trigger]
        edits_read_back(es) && bytes == edit_frames(es) && VersionSetModel::empty().replay(es) == m;
    law_manifest_round_trip(es);
}

/// Appending edits to the log of a state gives the log of the state after
/// them.
pub proof fn lemma_append_holds(bytes: Seq<u8>, m: VersionSetModel, more: Seq<EditModel>)
    requires
        log_holds(bytes, m),
        edits_read_back(more),
    ensures
        log_holds(bytes + edit_frames(more), m.replay(more)),
{
    let es = choose|es: Seq<EditModel>| #[trigger]
        edits_read_back(es) && bytes == edit_frames(es) && VersionSetModel::empty().replay(es) == m;
    lemma_edit_frames_concat(es, more);
    lemma_replay_concat(VersionSetModel::empty(), es, more);
    let all = es + more;
    assert forall|i: int| 0 <= i < all.len() implies edit_reads_back(#[trigger] all[i]) by {
        if i < es.len() {
            assert(all[i] == es[i]);
        } else {
            assert(all[i] == more[i - es.len()]);
        }
    }
    assert(edits_read_back(all));
}

/// Every key range and every dropped prefix is short enough to be written.
pub open spec fn state_fits(m: VersionSetModel) -> bool {
    &&& forall|f: u64| #[trigger]
        m.meta.contains_key(f) ==> m.meta[f].min_key.len() <= u32::MAX && m.meta[f].max_key.len()
            <= u32::MAX
    &&& forall|p: Seq<u8>| #[trigger] m.dropped.contains(p) ==> p.len() <= u32::MAX
}

/// Edits that fit lead to a state that fits.
pub proof fn lemma_replay_fits(m: VersionSetModel, es: Seq<EditModel>)
    requires
        state_fits(m),
        all_fit(es),
    ensures
        state_fits(m.replay(es)),
    decreases es.len(),
{
    if es.len() > 0 {
        let init = es.drop_last();
        assert forall|i: int| 0 <= i < init.len() implies edit_fits(#[trigger] init[i]) by {
            assert(init[i] == es[i]);
        }
        lemma_replay_fits(m, init);
        assert(edit_fits(es[es.len() - 1]));
        let r = m.replay(init);
        let s = m.replay(es);
        assert forall|f: u64| #[trigger] s.meta.contains_key(f) implies s.meta[f].min_key.len()
            <= u32::MAX && s.meta[f].max_key.len() <= u32::MAX by {
            match es.last() {
                EditModel::AddFile(id, _, _) => {
                    if f != id {
                        assert(r.meta.contains_key(f));
                    }
                },
                _ => {
                    assert(r.meta.contains_key(f));
                },
            }
        }
        assert forall|p: Seq<u8>| #[trigger] s.dropped.contains(p) implies p.len() <= u32::MAX by {
            match es.last() {
                EditModel::DroppedPrefix(q) => {
                    if p != q {
                        assert(r.dropped.contains(p));
                    }
                },
                _ => {
                    assert(r.dropped.contains(p));
                },
            }
        }
    }
}

/// The snapshot of a state that fits can be written.
pub proof fn lemma_snapshot_fits(m: VersionSetModel, ps: Seq<(u32, u64)>)
    requires
        state_fits(m),
        lists_keys(sorted_keys(m.dropped), m.dropped),
    ensures
        all_fit(snapshot_edits(m, ps)),
{
    let es = snapshot_edits(m, ps);
    let ds = sorted_keys(m.dropped);
    assert forall|i: int| 0 <= i < es.len() implies edit_fits(#[trigger] es[i]) by {
        if i < ps.len() {
            assert(es[i] == add_edit(m, ps[i]));
        } else if i > ps.len() {
            assert(es[i] == EditModel::DroppedPrefix(ds[i - ps.len() - 1]));
            assert(m.dropped.contains(ds[i - ps.len() - 1]));
        }
    }
}

/// The snapshot of a state is a log of it.
pub proof fn lemma_snapshot_holds(m: VersionSetModel, ps: Seq<(u32, u64)>)
    requires
        state_fits(m),
        restorable(m),
        drops_are_named(m),
        lists_files(ps, m.levels),
        lists_keys(sorted_keys(m.dropped), m.dropped),
    ensures
        log_holds(edit_frames(snapshot_edits(m, ps)), m),
{
    lemma_snapshot_fits(m, ps);
    law_snapshot_restores(m, ps);
    let es = snapshot_edits(m, ps);
    let ds = sorted_keys(m.dropped);
    assert forall|i: int| 0 <= i < es.len() implies edit_reads_back(#[trigger] es[i]) by {
        assert(edit_fits(es[i]));
        if i < ps.len() {
            assert(es[i] == add_edit(m, ps[i]));
        } else if i > ps.len() {
            assert(es[i] == EditModel::DroppedPrefix(ds[i - ps.len() - 1]));
            assert(m.dropped.contains(ds[i - ps.len() - 1]));
        }
    }
    assert(edits_read_back(es));
}

} // verus!
