//! What decoding a log gives back of what was encoded.

use crate::codec::{u32_at, u64_at};
use crate::crc32c::{crc_fold, lemma_crc_detects_changed_byte};
use crate::wal::{
    field_len, frame_body, frame_bytes, frame_header, frame_len, frames, kept, magic, parse_frame,
    parse_log, value_bytes, value_len_field, LogModel, OpType, Parsed, RecordModel, VALUE_NONE,
};
use vstd::bytes::{
    lemma_auto_spec_u32_to_from_le_bytes, lemma_auto_spec_u64_to_from_le_bytes,
    spec_u32_from_le_bytes, spec_u32_to_le_bytes, spec_u64_to_le_bytes,
};
use vstd::prelude::*;

verus! {

/// Key and value are short enough that neither length is the one that marks a
/// missing value.
pub open spec fn record_reads_back(r: RecordModel) -> bool {
    &&& r.key.len() < u32::MAX
    &&& value_bytes(r.value).len() < u32::MAX
}

/// Every record reads back.
pub open spec fn all_read_back(rs: Seq<RecordModel>) -> bool {
    forall|i: int| 0 <= i < rs.len() ==> record_reads_back(#[trigger] rs[i])
}

/// The records as decoding keeps them.
pub open spec fn all_kept(rs: Seq<RecordModel>) -> Seq<RecordModel> {
    rs.map_values(|r: RecordModel| kept(r))
}

/// How many of the frames of `rs` end within the first `cut` bytes.
pub open spec fn whole_frames(rs: Seq<RecordModel>, cut: int) -> nat
    decreases rs.len(),
{
    if rs.len() == 0 || frames(rs).len() <= cut {
        rs.len()
    } else {
        whole_frames(rs.drop_last(), cut)
    }
}

/// The fields of a frame, read at their places.
proof fn lemma_frame_fields(r: RecordModel)
    ensures
        ({
            let f = frame_bytes(r);
            let body = frame_body(r);
            &&& f.len() == frame_len(r)
            &&& body.len() + 4 == f.len()
            &&& f.subrange(0, 4) == magic()
            &&& f.subrange(4, 12) == spec_u64_to_le_bytes(r.tx_id)
            &&& f[12] == r.op.tag()
            &&& f.subrange(13, 17) == spec_u32_to_le_bytes(r.key.len() as u32)
            &&& f.subrange(17, 21) == spec_u32_to_le_bytes(value_len_field(r.value))
            &&& f.subrange(21, 21 + r.key.len() as int) == r.key
            &&& f.subrange(21 + r.key.len() as int, body.len() as int) == value_bytes(r.value)
            &&& f.subrange(0, body.len() as int) == body
            &&& f.subrange(body.len() as int, f.len() as int) == spec_u32_to_le_bytes(
                crc_fold(0, body),
            )
        }),
{
    lemma_auto_spec_u32_to_from_le_bytes();
    lemma_auto_spec_u64_to_from_le_bytes();
    let f = frame_bytes(r);
    let h = frame_header(r);
    let body = frame_body(r);
    assert(h.len() == 21);
    assert(h.subrange(0, 4) =~= magic());
    assert(h.subrange(4, 12) =~= spec_u64_to_le_bytes(r.tx_id));
    assert(h[12] == r.op.tag());
    assert(h.subrange(13, 17) =~= spec_u32_to_le_bytes(r.key.len() as u32));
    assert(h.subrange(17, 21) =~= spec_u32_to_le_bytes(value_len_field(r.value)));
    assert(f.subrange(0, 21) =~= h);
    assert(f.subrange(0, 4) =~= h.subrange(0, 4));
    assert(f.subrange(4, 12) =~= h.subrange(4, 12));
    assert(f[12] == h[12]);
    assert(f.subrange(13, 17) =~= h.subrange(13, 17));
    assert(f.subrange(17, 21) =~= h.subrange(17, 21));
    assert(f.subrange(21, 21 + r.key.len() as int) =~= r.key);
    assert(f.subrange(21 + r.key.len() as int, body.len() as int) =~= value_bytes(r.value));
    assert(f.subrange(0, body.len() as int) =~= body);
    assert(f.subrange(body.len() as int, f.len() as int) =~= spec_u32_to_le_bytes(
        crc_fold(0, body),
    ));
}

/// What stands in a buffer stands there part by part.
proof fn lemma_part(buf: Seq<u8>, at: int, f: Seq<u8>, i: int, j: int)
    requires
        0 <= at,
        at + f.len() <= buf.len(),
        buf.subrange(at, at + f.len()) == f,
        0 <= i <= j <= f.len(),
    ensures
        buf.subrange(at + i, at + j) == f.subrange(i, j),
{
    let b = buf.subrange(at, at + f.len());
    assert(buf.subrange(at + i, at + j) =~= b.subrange(i, j));
}

/// The header fields of `h`, which holds those of a record, read where it
/// begins at `at`.
proof fn lemma_header_at(buf: Seq<u8>, at: int, h: Seq<u8>, r: RecordModel)
    requires
        record_reads_back(r),
        0 <= at,
        h.len() == 21,
        at + 21 <= buf.len(),
        buf.subrange(at, at + 21) == h,
        h.subrange(0, 4) == magic(),
        h.subrange(4, 12) == spec_u64_to_le_bytes(r.tx_id),
        h[12] == r.op.tag(),
        h.subrange(13, 17) == spec_u32_to_le_bytes(r.key.len() as u32),
        h.subrange(17, 21) == spec_u32_to_le_bytes(value_len_field(r.value)),
    ensures
        buf.subrange(at, at + 4) == magic(),
        u64_at(buf, at + 4) == r.tx_id,
        OpType::of_tag(buf[at + 12]) == Some(r.op),
        field_len(u32_at(buf, at + 13)) == r.key.len(),
        field_len(u32_at(buf, at + 17)) == value_bytes(r.value).len(),
        u32_at(buf, at + 17) == VALUE_NONE <==> r.value is None,
{
    lemma_auto_spec_u32_to_from_le_bytes();
    lemma_auto_spec_u64_to_from_le_bytes();
    lemma_part(buf, at, h, 0, 4);
    lemma_part(buf, at, h, 4, 12);
    lemma_part(buf, at, h, 13, 17);
    lemma_part(buf, at, h, 17, 21);
    assert(buf.subrange(at, at + 21)[12] == buf[at + 12]);
    assert(u32_at(buf, at + 13) == r.key.len() as u32) by {
        assert(buf.subrange(at + 13, at + 13 + 4) == h.subrange(13, 17));
    }
    assert(u32_at(buf, at + 17) == value_len_field(r.value)) by {
        assert(buf.subrange(at + 17, at + 17 + 4) == h.subrange(17, 21));
    }
    assert(u64_at(buf, at + 4) == r.tx_id) by {
        assert(buf.subrange(at + 4, at + 4 + 8) == h.subrange(4, 12));
    }
}

/// The header fields of a frame that begins at `at` and of which at least the
/// header is there.
proof fn lemma_header_fields(buf: Seq<u8>, at: int, r: RecordModel)
    requires
        record_reads_back(r),
        0 <= at,
        at + 21 <= buf.len(),
        buf.subrange(at, at + 21) == frame_bytes(r).subrange(0, 21),
    ensures
        buf.subrange(at, at + 4) == magic(),
        u64_at(buf, at + 4) == r.tx_id,
        OpType::of_tag(buf[at + 12]) == Some(r.op),
        field_len(u32_at(buf, at + 13)) == r.key.len(),
        field_len(u32_at(buf, at + 17)) == value_bytes(r.value).len(),
        u32_at(buf, at + 17) == VALUE_NONE <==> r.value is None,
{
    lemma_frame_fields(r);
    lemma_front(frame_bytes(r), r);
    lemma_header_at(buf, at, frame_bytes(r).subrange(0, 21), r);
}

/// The header of a frame has the fields of the frame.
proof fn lemma_front(f: Seq<u8>, r: RecordModel)
    requires
        f.len() >= 21,
        f.subrange(0, 4) == magic(),
        f.subrange(4, 12) == spec_u64_to_le_bytes(r.tx_id),
        f[12] == r.op.tag(),
        f.subrange(13, 17) == spec_u32_to_le_bytes(r.key.len() as u32),
        f.subrange(17, 21) == spec_u32_to_le_bytes(value_len_field(r.value)),
    ensures
        ({
            let h = f.subrange(0, 21);
            &&& h.subrange(0, 4) == magic()
            &&& h.subrange(4, 12) == spec_u64_to_le_bytes(r.tx_id)
            &&& h[12] == r.op.tag()
            &&& h.subrange(13, 17) == spec_u32_to_le_bytes(r.key.len() as u32)
            &&& h.subrange(17, 21) == spec_u32_to_le_bytes(value_len_field(r.value))
        }),
{
    let h = f.subrange(0, 21);
    assert(h.subrange(0, 4) =~= f.subrange(0, 4));
    assert(h.subrange(4, 12) =~= f.subrange(4, 12));
    assert(h.subrange(13, 17) =~= f.subrange(13, 17));
    assert(h.subrange(17, 21) =~= f.subrange(17, 21));
}

/// An encoded number is read back where it stands.
proof fn lemma_u32_reads_back(buf: Seq<u8>, at: int, x: u32)
    requires
        buf.subrange(at, at + 4) == spec_u32_to_le_bytes(x),
    ensures
        u32_at(buf, at) == x,
{
    lemma_auto_spec_u32_to_from_le_bytes();
    assert(spec_u32_to_le_bytes(x).len() == 4);
}

/// Bytes with the fields of a record are parsed as the record.
proof fn lemma_fields_parse(buf: Seq<u8>, at: int, f: Seq<u8>, body: Seq<u8>, r: RecordModel)
    requires
        record_reads_back(r),
        0 <= at,
        f.len() == frame_len(r),
        at + f.len() <= buf.len() <= usize::MAX,
        buf.subrange(at, at + f.len()) == f,
        f.subrange(0, 4) == magic(),
        f.subrange(4, 12) == spec_u64_to_le_bytes(r.tx_id),
        f[12] == r.op.tag(),
        f.subrange(13, 17) == spec_u32_to_le_bytes(r.key.len() as u32),
        f.subrange(17, 21) == spec_u32_to_le_bytes(value_len_field(r.value)),
        f.subrange(21, 21 + r.key.len() as int) == r.key,
        f.subrange(21 + r.key.len() as int, f.len() - 4) == value_bytes(r.value),
        f.subrange(0, f.len() - 4) == body,
        f.subrange(f.len() - 4, f.len() as int) == spec_u32_to_le_bytes(crc_fold(0, body)),
    ensures
        parse_frame(buf, at) == Parsed::Frame(r, at + frame_len(r)),
{
    lemma_front(f, r);
    lemma_part(buf, at, f, 0, 21);
    lemma_header_at(buf, at, f.subrange(0, 21), r);
    let n = f.len() as int;
    let k = 21 + r.key.len() as int;
    lemma_part(buf, at, f, 21, k);
    lemma_part(buf, at, f, k, n - 4);
    lemma_part(buf, at, f, 0, n - 4);
    lemma_part(buf, at, f, n - 4, n);
    let end = at + n - 4;
    assert(buf.subrange(at + 21, at + k) == r.key);
    assert(buf.subrange(at + k, end) == value_bytes(r.value));
    assert(buf.subrange(at, end) == body);
    assert(buf.subrange(end, end + 4) == spec_u32_to_le_bytes(crc_fold(0, body)));
    lemma_u32_reads_back(buf, end, crc_fold(0, body));
}

/// A frame that was encoded is parsed back, wherever it stands.
pub proof fn lemma_frame_reads_back(buf: Seq<u8>, at: int, r: RecordModel)
    requires
        record_reads_back(r),
        0 <= at,
        at + frame_len(r) <= buf.len() <= usize::MAX,
        buf.subrange(at, at + frame_len(r)) == frame_bytes(r),
    ensures
        parse_frame(buf, at) == Parsed::Frame(r, at + frame_len(r)),
{
    lemma_frame_fields(r);
    lemma_fields_parse(buf, at, frame_bytes(r), frame_body(r), r);
}

/// A frame whose end is cut off is torn.
proof fn lemma_cut_frame_is_torn(buf: Seq<u8>, at: int, r: RecordModel)
    requires
        record_reads_back(r),
        0 <= at <= buf.len(),
        buf.len() < at + frame_len(r) <= usize::MAX,
        buf.subrange(at, buf.len() as int) == frame_bytes(r).subrange(0, buf.len() - at),
    ensures
        parse_frame(buf, at) == Parsed::Torn,
{
    if at + 21 <= buf.len() {
        lemma_frame_fields(r);
        let b = buf.subrange(at, buf.len() as int);
        assert(buf.subrange(at, at + 21) =~= b.subrange(0, 21));
        assert(frame_bytes(r).subrange(0, buf.len() - at).subrange(0, 21) =~= frame_bytes(
            r,
        ).subrange(0, 21));
        lemma_header_fields(buf, at, r);
    }
}

/// The frames of a longer list begin with those of a shorter one.
/// The frames of the first records stand at the front.
pub proof fn lemma_frames_prefix(rs: Seq<RecordModel>, i: int)
    requires
        0 <= i <= rs.len(),
    ensures
        frames(rs.take(i)).len() <= frames(rs).len(),
        frames(rs).take(frames(rs.take(i)).len() as int) == frames(rs.take(i)),
        i < rs.len() ==> {
            let start = frames(rs.take(i)).len() as int;
            &&& frames(rs.take(i + 1)) == frames(rs.take(i)) + frame_bytes(rs[i])
            &&& start + frame_len(rs[i]) <= frames(rs).len()
            &&& frames(rs).subrange(start, start + frame_len(rs[i])) == frame_bytes(rs[i])
        },
    decreases rs.len() - i,
{
    if i == rs.len() {
        assert(rs.take(i) =~= rs);
        assert(frames(rs).take(frames(rs).len() as int) =~= frames(rs));
    } else {
        lemma_frames_prefix(rs, i + 1);
        lemma_frame_fields(rs[i]);
        assert(rs.take(i + 1).drop_last() =~= rs.take(i));
        let a = frames(rs.take(i));
        let b = frames(rs.take(i + 1));
        assert(b == a + frame_bytes(rs[i]));
        let start = a.len() as int;
        let end = b.len() as int;
        assert(frames(rs).take(start) =~= frames(rs).take(end).take(start));
        assert(b.take(start) =~= a);
        assert(frames(rs).subrange(start, end) =~= frames(rs).take(end).subrange(start, end));
        assert(b.subrange(start, end) =~= frame_bytes(rs[i]));
    }
}

/// Where a frame stands, a log goes on behind it.
proof fn lemma_log_step(buf: Seq<u8>, at: int, r: RecordModel)
    requires
        record_reads_back(r),
        0 <= at,
        at + frame_len(r) <= buf.len() <= usize::MAX,
        buf.subrange(at, at + frame_len(r)) == frame_bytes(r),
        frame_len(r) > 0,
    ensures
        ({
            let rest = parse_log(buf, at + frame_len(r));
            parse_log(buf, at) == LogModel {
                records: seq![kept(r)] + rest.records,
                valid: rest.valid,
                stop: rest.stop,
            }
        }),
{
    lemma_frame_reads_back(buf, at, r);
}

/// What the parsing of frames adds up to.
proof fn lemma_records_join(
    init: Seq<RecordModel>,
    rs: Seq<RecordModel>,
    rest: Seq<RecordModel>,
)
    requires
        rs.len() > 0,
        init == rs.drop_last(),
    ensures
        all_kept(init) + (seq![kept(rs.last())] + rest) == all_kept(rs) + rest,
{
    assert(all_kept(init) + (seq![kept(rs.last())] + rest) =~= all_kept(rs) + rest);
}

/// The bytes of the last of some frames.
proof fn lemma_last_frame(buf: Seq<u8>, rs: Seq<RecordModel>)
    requires
        rs.len() > 0,
        frames(rs).len() <= buf.len(),
        buf.take(frames(rs).len() as int) == frames(rs),
    ensures
        ({
            let start = frames(rs.drop_last()).len() as int;
            &&& frame_len(rs.last()) > 0
            &&& start + frame_len(rs.last()) == frames(rs).len()
            &&& buf.take(start) == frames(rs.drop_last())
            &&& buf.subrange(start, frames(rs).len() as int) == frame_bytes(rs.last())
        }),
{
    let init = rs.drop_last();
    let start = frames(init).len() as int;
    let end = frames(rs).len() as int;
    lemma_frame_fields(rs.last());
    let whole = frames(init) + frame_bytes(rs.last());
    assert(frames(rs) == whole);
    assert(buf.take(start) =~= buf.take(end).take(start));
    assert(whole.take(start) =~= frames(init));
    assert(buf.subrange(start, end) =~= buf.take(end).subrange(start, end));
    assert(whole.subrange(start, end) =~= frame_bytes(rs.last()));
}

/// Parsing a log that begins with the frames of `rs` gives `rs`, and then
/// whatever stands behind them.
pub proof fn lemma_log_begins_with(buf: Seq<u8>, rs: Seq<RecordModel>)
    requires
        all_read_back(rs),
        frames(rs).len() <= buf.len() <= usize::MAX,
        buf.take(frames(rs).len() as int) == frames(rs),
    ensures
        ({
            let rest = parse_log(buf, frames(rs).len() as int);
            parse_log(buf, 0) == LogModel {
                records: all_kept(rs) + rest.records,
                valid: rest.valid,
                stop: rest.stop,
            }
        }),
    decreases rs.len(),
{
    if rs.len() == 0 {
        let whole = parse_log(buf, 0);
        assert(all_kept(rs) + whole.records =~= whole.records);
    } else {
        let init = rs.drop_last();
        lemma_last_frame(buf, rs);
        lemma_log_begins_with(buf, init);
        lemma_log_step(buf, frames(init).len() as int, rs.last());
        lemma_records_join(init, rs, parse_log(buf, frames(rs).len() as int).records);
    }
}

/// The frames that a cut leaves whole end within it, and the next one does not.
pub proof fn lemma_whole_frames(rs: Seq<RecordModel>, cut: int)
    requires
        0 <= cut,
    ensures
        whole_frames(rs, cut) <= rs.len(),
        frames(rs.take(whole_frames(rs, cut) as int)).len() <= cut,
        whole_frames(rs, cut) < rs.len() ==> cut < frames(
            rs.take(whole_frames(rs, cut) as int + 1),
        ).len(),
    decreases rs.len(),
{
    let k = whole_frames(rs, cut) as int;
    if rs.len() == 0 || frames(rs).len() <= cut {
        assert(rs.take(k) =~= rs);
    } else {
        let init = rs.drop_last();
        lemma_whole_frames(init, cut);
        assert(init.take(k) =~= rs.take(k));
        if k < init.len() {
            assert(init.take(k + 1) =~= rs.take(k + 1));
        } else {
            assert(rs.take(k + 1) =~= rs);
        }
    }
}

/// A log that lost its tail gives back exactly the records whose frames are
/// complete, and their end as the offset to truncate to. With nothing lost
/// this is the round trip.
///
/// Encoding drops nothing as long as no key or value has the one length that
/// marks a missing value.
#[verifier::rlimit(40)]
#[verifier::spinoff_prover]
pub proof fn law_torn_tail(rs: Seq<RecordModel>, cut: int)
    requires
        all_read_back(rs),
        frames(rs).len() <= usize::MAX,
        0 <= cut <= frames(rs).len(),
    ensures
        ({
            let n = whole_frames(rs, cut) as int;
            &&& n <= rs.len()
            &&& parse_log(frames(rs).take(cut), 0) == LogModel {
                records: all_kept(rs.take(n)),
                valid: frames(rs.take(n)).len() as int,
                stop: Parsed::Torn,
            }
        }),
{
    let n = whole_frames(rs, cut) as int;
    lemma_whole_frames(rs, cut);
    let buf = frames(rs).take(cut);
    let start = frames(rs.take(n)).len() as int;
    lemma_frames_prefix(rs, n);
    assert(buf.take(start) =~= frames(rs).take(start));
    assert forall|i: int| 0 <= i < n implies record_reads_back(#[trigger] rs.take(n)[i]) by {
        assert(rs.take(n)[i] == rs[i]);
    }
    lemma_log_begins_with(buf, rs.take(n));
    if n < rs.len() {
        lemma_frame_fields(rs[n]);
        assert(buf.subrange(start, cut) =~= frames(rs).subrange(
            start,
            start + frame_len(rs[n]),
        ).subrange(0, cut - start));
        lemma_cut_frame_is_torn(buf, start, rs[n]);
    } else {
        assert(rs.take(n) =~= rs);
    }
    assert(all_kept(rs.take(n)) + Seq::<RecordModel>::empty() =~= all_kept(rs.take(n)));
}

/// Decoding what was encoded gives every record back, up to the end.
pub proof fn law_round_trip(rs: Seq<RecordModel>)
    requires
        all_read_back(rs),
        frames(rs).len() <= usize::MAX,
    ensures
        parse_log(frames(rs), 0) == (LogModel {
            records: all_kept(rs),
            valid: frames(rs).len() as int,
            stop: Parsed::Torn,
        }),
{
    law_torn_tail(rs, frames(rs).len() as int);
    assert(frames(rs).take(frames(rs).len() as int) =~= frames(rs));
    assert(rs.take(rs.len() as int) =~= rs);
}

/// A frame with one changed byte, outside the two length fields, is not
/// accepted.
#[verifier::rlimit(60)]
proof fn lemma_changed_frame_is_refused(buf: Seq<u8>, at: int, r: RecordModel, p: int, b: u8)
    requires
        record_reads_back(r),
        0 <= at,
        at + frame_len(r) <= buf.len() <= usize::MAX,
        0 <= p < frame_len(r),
        p <= 12 || 21 <= p,
        b != frame_bytes(r)[p],
        buf.subrange(at, at + frame_len(r)) == frame_bytes(r).update(p, b),
    ensures
        p != 12 ==> parse_frame(buf, at) is Torn,
        p == 12 ==> parse_frame(buf, at) is Torn || parse_frame(buf, at) is UnknownOp,
{
    lemma_auto_spec_u32_to_from_le_bytes();
    lemma_frame_fields(r);
    let f = frame_bytes(r);
    let g = f.update(p, b);
    let n = f.len() as int;
    let body = frame_body(r);
    let w = buf.subrange(at, at + n);
    assert(w == g);
    let body_end = at + n - 4;
    assert(buf.subrange(at, at + 4) =~= w.subrange(0, 4));
    if p < 4 {
        assert(g.subrange(0, 4)[p] == b);
        assert(f.subrange(0, 4)[p] == f[p]);
    } else {
        assert(g.subrange(0, 4) =~= f.subrange(0, 4));
        assert(buf.subrange(at + 13, at + 17) =~= w.subrange(13, 17));
        assert(g.subrange(13, 17) =~= f.subrange(13, 17));
        assert(buf.subrange(at + 17, at + 21) =~= w.subrange(17, 21));
        assert(g.subrange(17, 21) =~= f.subrange(17, 21));
        assert(field_len(u32_at(buf, at + 13)) == r.key.len());
        assert(field_len(u32_at(buf, at + 17)) == value_bytes(r.value).len());
        assert(buf[at + 12] == w[12]);
        assert(buf.subrange(at, body_end) =~= w.subrange(0, n - 4));
        assert(buf.subrange(body_end, body_end + 4) =~= w.subrange(n - 4, n));
        if p < n - 4 {
            let changed = g.subrange(0, n - 4);
            assert(g.subrange(n - 4, n) =~= f.subrange(n - 4, n));
            assert(f.subrange(0, n - 4)[p] == f[p]);
            assert forall|i: int| 0 <= i < body.len() && i != p implies body[i] == changed[i] by {
                assert(f.subrange(0, n - 4)[i] == f[i]);
            }
            lemma_crc_detects_changed_byte(0, body, changed, p);
        } else {
            assert(g.subrange(0, n - 4) =~= f.subrange(0, n - 4));
            let x = g.subrange(n - 4, n);
            let y = f.subrange(n - 4, n);
            assert(x[p - (n - 4)] == b);
            assert(y[p - (n - 4)] == f[p]);
            if spec_u32_from_le_bytes(x) == spec_u32_from_le_bytes(y) {
                assert(spec_u32_to_le_bytes(spec_u32_from_le_bytes(x)) == x);
                assert(spec_u32_to_le_bytes(spec_u32_from_le_bytes(y)) == y);
            }
        }
    }
}

/// Parsing stops where a frame behind whole ones is refused.
proof fn lemma_log_stops(buf: Seq<u8>, front: Seq<RecordModel>)
    requires
        all_read_back(front),
        frames(front).len() <= buf.len() <= usize::MAX,
        buf.take(frames(front).len() as int) == frames(front),
        parse_frame(buf, frames(front).len() as int) !is Frame,
    ensures
        ({
            let at = frames(front).len() as int;
            parse_log(buf, 0) == LogModel {
                records: all_kept(front),
                valid: at,
                stop: parse_frame(buf, at),
            }
        }),
{
    lemma_log_begins_with(buf, front);
    assert(all_kept(front) + Seq::<RecordModel>::empty() =~= all_kept(front));
}

proof fn lemma_frame_len(r: RecordModel)
    ensures
        frame_bytes(r).len() == frame_len(r),
{
    lemma_frame_fields(r);
}

/// Changing a byte of a part leaves what stands before it, and the part with
/// the byte changed.
proof fn lemma_update_part(s: Seq<u8>, front: Seq<u8>, f: Seq<u8>, p: int, b: u8)
    requires
        front.len() + f.len() <= s.len(),
        s.take(front.len() as int) == front,
        s.subrange(front.len() as int, (front.len() + f.len()) as int) == f,
        0 <= p < f.len(),
    ensures
        ({
            let t = s.update(front.len() + p, b);
            &&& t.take(front.len() as int) == front
            &&& t.subrange(front.len() as int, (front.len() + f.len()) as int) == f.update(p, b)
        }),
{
    let n = front.len() as int;
    let t = s.update(n + p, b);
    assert(t.take(n) =~= s.take(n));
    assert(t.subrange(n, n + f.len()) =~= s.subrange(n, n + f.len()).update(p, b));
}

/// If one byte of one frame is changed, outside that frame's length fields,
/// decoding gives back exactly the records in front of it and the frame's
/// start as the offset to truncate to.
pub proof fn law_changed_byte_truncates(rs: Seq<RecordModel>, j: int, p: int, b: u8)
    requires
        all_read_back(rs),
        frames(rs).len() <= usize::MAX,
        0 <= j < rs.len(),
        0 <= p < frame_len(rs[j]),
        p <= 12 || 21 <= p,
        b != frame_bytes(rs[j])[p],
    ensures
        ({
            let start = frames(rs.take(j)).len() as int;
            let log = parse_log(frames(rs).update(start + p, b), 0);
            &&& log.records == all_kept(rs.take(j))
            &&& log.valid == start
            &&& p != 12 ==> log.stop is Torn
            &&& p == 12 ==> log.stop is Torn || log.stop is UnknownOp
        }),
{
    let front = rs.take(j);
    let start = frames(front).len() as int;
    let buf = frames(rs).update(start + p, b);
    lemma_frames_prefix(rs, j);
    lemma_frame_len(rs[j]);
    lemma_update_part(frames(rs), frames(front), frame_bytes(rs[j]), p, b);
    assert(record_reads_back(rs[j]));
    lemma_changed_frame_is_refused(buf, start, rs[j], p, b);
    assert forall|i: int| 0 <= i < j implies record_reads_back(#[trigger] front[i]) by {
        assert(front[i] == rs[i]);
    }
    lemma_log_stops(buf, front);
}

} // verus!
