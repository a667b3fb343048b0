//! Durable manifest: an append-only binary edit log with snapshot rewrites.
//!
//! ```text
//!   magic    [u8; 4]  "MAN1"
//!   op       u8       1=AddFile 2=DeleteFile 3=NextFileId
//!                     4=DroppedPrefix 5=UndroppedPrefix
//!   payload  (op-dependent, all integers little-endian)
//!   crc32c   u32 LE   (covers magic .. end of payload)
//! ```
//!
//! A torn final frame is truncated on open. Past [`SNAPSHOT_THRESHOLD`] edits
//! the log is replaced by the edits that restore the current state.

use crate::buf::{append_bytes, bytes_from_vec, bytes_slice, has_prefix};
use crate::codec::{prefixed, push_u32, push_u64, read_u32, read_u64, take_prefixed, u32_at, u64_at};
use crate::crc32c::{crc32c_with_state, crc_fold};
use crate::error::{EngineError, Result};
use crate::file_io::{
    cut_may_fail, file_bytes, is_cut, may_append, may_read, may_replace, may_sync, same_reach,
    FileIO,
};
use crate::manifest_laws::{
    drops_are_named, edit_reads_back, edits_read_back, is_orderly, law_manifest_torn_tail,
    law_orderly_edits_are_restorable, law_reopen_restores, lemma_append_holds, lemma_log_is_written,
    lemma_replay_concat, lemma_replay_fits, lemma_snapshot_fits, lemma_snapshot_holds,
    lemma_whole_is_front, log_holds, names_its_level, restorable, state_fits, whole_edits,
};
use crate::text::{hex_byte, push_hex_byte};
use crate::version_set::{ids_of, lists_files};
use arc_swap::ArcSwap;
use std::sync::Arc;
use vstd::bytes::{spec_u32_to_le_bytes, spec_u64_to_le_bytes};
use vstd::prelude::*;
use vstd::slice::slice_subrange;

pub use crate::version_set::{
    edit_models, meta_model, snapshot_edits, EditModel, FileMeta, MetaModel, VersionEdit,
    VersionSet, VersionSetModel,
};

verus! {

/// Number of edits after which the log is rewritten as a snapshot.
pub const SNAPSHOT_THRESHOLD: usize = 1024;

/// Bytes of a frame without its payload.
const FRAME_OVERHEAD: usize = 9;

const OP_ADD_FILE: u8 = 1;

const OP_DELETE_FILE: u8 = 2;

const OP_NEXT_FILE_ID: u8 = 3;

const OP_DROPPED_PREFIX: u8 = 4;

const OP_UNDROPPED_PREFIX: u8 = 5;

/// The magic bytes, `MAN1`.
pub open spec fn magic() -> Seq<u8> {
    seq![77u8, 65u8, 78u8, 49u8]
}

// ── Encoding ──────────────────────────────────────────────────────────────

/// The byte that stands for an edit's operation.
pub open spec fn op_tag(e: EditModel) -> u8 {
    match e {
        EditModel::AddFile(_, _, _) => 1,
        EditModel::DeleteFile(_, _) => 2,
        EditModel::NextFileId(_) => 3,
        EditModel::DroppedPrefix(_) => 4,
        EditModel::UndroppedPrefix(_) => 5,
    }
}

/// The payload of an edit's frame.
pub open spec fn payload(e: EditModel) -> Seq<u8> {
    match e {
        EditModel::AddFile(id, level, m) => spec_u64_to_le_bytes(id) + spec_u32_to_le_bytes(level)
            + prefixed(m.min_key) + prefixed(m.max_key) + spec_u64_to_le_bytes(m.bytes)
            + spec_u64_to_le_bytes(m.created_at),
        EditModel::DeleteFile(id, level) => spec_u64_to_le_bytes(id) + spec_u32_to_le_bytes(level),
        EditModel::NextFileId(id) => spec_u64_to_le_bytes(id),
        EditModel::DroppedPrefix(p) => prefixed(p),
        EditModel::UndroppedPrefix(p) => prefixed(p),
    }
}

/// The bytes of an edit's frame that the checksum covers.
pub open spec fn edit_body(e: EditModel) -> Seq<u8> {
    magic() + seq![op_tag(e)] + payload(e)
}

/// The frame of an edit.
#[verifier::opaque]
pub open spec fn edit_frame(e: EditModel) -> Seq<u8> {
    edit_body(e) + spec_u32_to_le_bytes(crc_fold(0, edit_body(e)))
}

/// The frames of a list of edits, one behind the other.
pub open spec fn edit_frames(es: Seq<EditModel>) -> Seq<u8>
    decreases es.len(),
{
    if es.len() == 0 {
        Seq::empty()
    } else {
        edit_frames(es.drop_last()) + edit_frame(es.last())
    }
}

/// Every field is short enough to be length-prefixed.
pub open spec fn edit_fits(e: EditModel) -> bool {
    match e {
        EditModel::AddFile(_, _, m) => m.min_key.len() <= u32::MAX && m.max_key.len() <= u32::MAX,
        EditModel::DroppedPrefix(p) => p.len() <= u32::MAX,
        EditModel::UndroppedPrefix(p) => p.len() <= u32::MAX,
        _ => true,
    }
}

/// Every edit fits.
pub open spec fn all_fit(es: Seq<EditModel>) -> bool {
    forall|i: int| 0 <= i < es.len() ==> edit_fits(#[trigger] es[i])
}

fn push_prefixed(out: &mut Vec<u8>, s: &[u8]) -> (r: Result<()>)
    ensures
        r is Ok <==> s@.len() <= u32::MAX,
        r is Ok ==> final(out)@ == old(out)@ + prefixed(s@),
        r matches Err(e) ==> e.is_out_of_range("manifest field > u32::MAX"),
{
    if s.len() as u64 > u32::MAX as u64 {
        return Err(EngineError::OutOfRange("manifest field > u32::MAX"));
    }
    push_u32(out, s.len() as u32);
    append_bytes(out, s);
    assert(out@ =~= old(out)@ + prefixed(s@));
    Ok(())
}

/// Appends the frame of `edit`. Fails, leaving `out` as it was, if a field
/// exceeds `u32::MAX` bytes.
pub fn encode_frame(out: &mut Vec<u8>, edit: &VersionEdit) -> (r: Result<()>)
    ensures
        r is Ok <==> edit_fits(edit@),
        r is Ok ==> final(out)@ == old(out)@ + edit_frame(edit@),
        r matches Err(e) ==> e.is_out_of_range("manifest field > u32::MAX") && final(out)@ == old(
            out,
        )@,
{
    let mut frame: Vec<u8> = Vec::new();
    frame.push(77);
    frame.push(65);
    frame.push(78);
    frame.push(49);
    let ghost head = magic() + seq![op_tag(edit@)];
    match edit {
        VersionEdit::AddFile { file_id, level, min_key, max_key, bytes, created_at } => {
            frame.push(OP_ADD_FILE);
            assert(frame@ =~= head);
            push_u64(&mut frame, *file_id);
            push_u32(&mut frame, *level);
            match push_prefixed(&mut frame, bytes_slice(min_key)) {
                Ok(()) => {},
                Err(e) => {
                    return Err(e);
                },
            }
            match push_prefixed(&mut frame, bytes_slice(max_key)) {
                Ok(()) => {},
                Err(e) => {
                    return Err(e);
                },
            }
            push_u64(&mut frame, *bytes);
            push_u64(&mut frame, *created_at);
        },
        VersionEdit::DeleteFile { file_id, level } => {
            frame.push(OP_DELETE_FILE);
            assert(frame@ =~= head);
            push_u64(&mut frame, *file_id);
            push_u32(&mut frame, *level);
        },
        VersionEdit::NextFileId(file_id) => {
            frame.push(OP_NEXT_FILE_ID);
            assert(frame@ =~= head);
            push_u64(&mut frame, *file_id);
        },
        VersionEdit::DroppedPrefix(prefix) => {
            frame.push(OP_DROPPED_PREFIX);
            assert(frame@ =~= head);
            match push_prefixed(&mut frame, prefix.as_slice()) {
                Ok(()) => {},
                Err(e) => {
                    return Err(e);
                },
            }
        },
        VersionEdit::UndroppedPrefix(prefix) => {
            frame.push(OP_UNDROPPED_PREFIX);
            assert(frame@ =~= head);
            match push_prefixed(&mut frame, prefix.as_slice()) {
                Ok(()) => {},
                Err(e) => {
                    return Err(e);
                },
            }
        },
    }
    assert(frame@ =~= edit_body(edit@));
    proof {
        reveal(edit_frame);
    }
    let crc: u32 = crc32c_with_state(frame.as_slice(), 0);
    push_u32(&mut frame, crc);
    append_bytes(out, frame.as_slice());
    Ok(())
}

fn encode_all(edits: &[VersionEdit]) -> (r: Result<Vec<u8>>)
    ensures
        r is Ok <==> all_fit(edit_models(edits@)),
        r matches Ok(b) ==> b@ == edit_frames(edit_models(edits@)),
        r matches Err(e) ==> e.is_out_of_range("manifest field > u32::MAX"),
{
    let ghost es = edit_models(edits@);
    let mut buf: Vec<u8> = Vec::new();
    let mut i: usize = 0;
    assert(buf@ =~= edit_frames(es.take(0)));
    while i < edits.len()
        invariant
            i <= edits@.len(),
            es == edit_models(edits@),
            forall|j: int| 0 <= j < i ==> edit_fits(#[trigger] es[j]),
            buf@ == edit_frames(es.take(i as int)),
        decreases edits@.len() - i,
    {
        assert(es[i as int] == edits@[i as int]@);
        match encode_frame(&mut buf, &edits[i]) {
            Ok(()) => {},
            Err(e) => {
                return Err(e);
            },
        }
        assert(es.take(i + 1).drop_last() =~= es.take(i as int));
        i += 1;
    }
    assert(es.take(i as int) =~= es);
    Ok(buf)
}

// ── Decoding ──────────────────────────────────────────────────────────────

/// What stands at a place of a manifest.
#[verifier::ext_equal]
pub enum ParsedEdit {
    /// No complete, sound frame.
    Torn,
    /// A frame with an unknown operation byte.
    UnknownOp(u8),
    /// A drop frame whose prefix is empty.
    EmptyPrefix,
    /// A sound frame, and where it ends.
    Edit(EditModel, int),
}

/// The payload of an added file at `at`, and where it ends.
pub open spec fn take_add(buf: Seq<u8>, at: int) -> Option<(EditModel, int)> {
    if at + 12 > buf.len() {
        None
    } else {
        match take_prefixed(buf, at + 12) {
            None => None,
            Some((min_key, p)) => match take_prefixed(buf, p) {
                None => None,
                Some((max_key, q)) => if q + 16 > buf.len() {
                    None
                } else {
                    Some(
                        (
                            EditModel::AddFile(
                                u64_at(buf, at),
                                u32_at(buf, at + 8),
                                MetaModel {
                                    min_key,
                                    max_key,
                                    bytes: u64_at(buf, q),
                                    created_at: u64_at(buf, q + 8),
                                },
                            ),
                            q + 16,
                        ),
                    )
                },
            },
        }
    }
}

/// The payload of operation `op` at `at`, and where it ends; none if the
/// buffer ends before it does.
pub open spec fn take_payload(buf: Seq<u8>, op: u8, at: int) -> Option<(EditModel, int)> {
    if op == 1 {
        take_add(buf, at)
    } else if op == 2 {
        if at + 12 > buf.len() {
            None
        } else {
            Some((EditModel::DeleteFile(u64_at(buf, at), u32_at(buf, at + 8)), at + 12))
        }
    } else if op == 3 {
        if at + 8 > buf.len() {
            None
        } else {
            Some((EditModel::NextFileId(u64_at(buf, at)), at + 8))
        }
    } else {
        match take_prefixed(buf, at) {
            None => None,
            Some((p, end)) => Some(
                (
                    if op == 4 {
                        EditModel::DroppedPrefix(p)
                    } else {
                        EditModel::UndroppedPrefix(p)
                    },
                    end,
                ),
            ),
        }
    }
}

/// A drop frame with an empty prefix would match every key.
pub open spec fn has_empty_prefix(e: EditModel) -> bool {
    match e {
        EditModel::DroppedPrefix(p) => p.len() == 0,
        EditModel::UndroppedPrefix(p) => p.len() == 0,
        _ => false,
    }
}

/// Reads the frame at `at`.
#[verifier::opaque]
pub open spec fn parse_edit(buf: Seq<u8>, at: int) -> ParsedEdit {
    if at + 9 > buf.len() || buf.subrange(at, at + 4) != magic() {
        ParsedEdit::Torn
    } else if !(1 <= buf[at + 4] <= 5) {
        ParsedEdit::UnknownOp(buf[at + 4])
    } else {
        match take_payload(buf, buf[at + 4], at + 5) {
            None => ParsedEdit::Torn,
            Some((e, end)) => if has_empty_prefix(e) {
                ParsedEdit::EmptyPrefix
            } else if end + 4 > buf.len() || u32_at(buf, end) != crc_fold(
                0,
                buf.subrange(at, end),
            ) {
                ParsedEdit::Torn
            } else {
                ParsedEdit::Edit(e, end + 4)
            },
        }
    }
}

/// The message for an operation byte that stands for nothing.
pub open spec fn unknown_op_text(tag: u8) -> Seq<char> {
    "unknown manifest operation tag "@ + hex_byte(tag)
}

/// `e` is the error for what stands at a place of a manifest.
pub open spec fn is_parse_error(e: EngineError, p: ParsedEdit) -> bool {
    match p {
        ParsedEdit::UnknownOp(tag) => e.is_message(unknown_op_text(tag)),
        ParsedEdit::EmptyPrefix => e.is_corrupt("manifest drop-prefix frame has an empty prefix"),
        _ => false,
    }
}

fn read_prefixed(buf: &[u8], at: usize) -> (r: Option<(Vec<u8>, usize)>)
    requires
        at <= buf@.len(),
    ensures
        r is Some <==> take_prefixed(buf@, at as int) is Some,
        r matches Some(p) ==> take_prefixed(buf@, at as int) == Some((p.0@, p.1 as int)),
        r matches Some(p) ==> at <= p.1 <= buf@.len(),
{
    if buf.len() - at < 4 {
        return None;
    }
    let n: usize = read_u32(buf, at) as usize;
    if n > buf.len() - at - 4 {
        return None;
    }
    let mut out: Vec<u8> = Vec::new();
    append_bytes(&mut out, slice_subrange(buf, at + 4, at + 4 + n));
    assert(out@ =~= buf@.subrange(at + 4, at + 4 + n));
    Some((out, at + 4 + n))
}

fn read_payload(buf: &[u8], op: u8, at: usize) -> (r: Option<(VersionEdit, usize)>)
    requires
        at <= buf@.len(),
        1 <= op <= 5,
    ensures
        r is Some <==> take_payload(buf@, op, at as int) is Some,
        r matches Some(p) ==> take_payload(buf@, op, at as int) == Some((p.0@, p.1 as int)),
        r matches Some(p) ==> at <= p.1 <= buf@.len(),
{
    if op == OP_ADD_FILE {
        if buf.len() - at < 12 {
            return None;
        }
        let file_id: u64 = read_u64(buf, at);
        let level: u32 = read_u32(buf, at + 8);
        let (min_key, p) = match read_prefixed(buf, at + 12) {
            Some(x) => x,
            None => {
                return None;
            },
        };
        let (max_key, q) = match read_prefixed(buf, p) {
            Some(x) => x,
            None => {
                return None;
            },
        };
        if buf.len() - q < 16 {
            return None;
        }
        let bytes: u64 = read_u64(buf, q);
        let created_at: u64 = read_u64(buf, q + 8);
        let edit = VersionEdit::AddFile {
            file_id,
            level,
            min_key: bytes_from_vec(min_key),
            max_key: bytes_from_vec(max_key),
            bytes,
            created_at,
        };
        Some((edit, q + 16))
    } else if op == OP_DELETE_FILE {
        if buf.len() - at < 12 {
            return None;
        }
        let file_id: u64 = read_u64(buf, at);
        let level: u32 = read_u32(buf, at + 8);
        Some((VersionEdit::DeleteFile { file_id, level }, at + 12))
    } else if op == OP_NEXT_FILE_ID {
        if buf.len() - at < 8 {
            return None;
        }
        Some((VersionEdit::NextFileId(read_u64(buf, at)), at + 8))
    } else {
        match read_prefixed(buf, at) {
            None => None,
            Some((p, end)) => if op == OP_DROPPED_PREFIX {
                Some((VersionEdit::DroppedPrefix(p), end))
            } else {
                Some((VersionEdit::UndroppedPrefix(p), end))
            },
        }
    }
}

fn is_magic_at(buf: &[u8], at: usize) -> (r: bool)
    requires
        at + 4 <= buf@.len(),
    ensures
        r == (buf@.subrange(at as int, at + 4) == magic()),
{
    let r = buf[at] == 77 && buf[at + 1] == 65 && buf[at + 2] == 78 && buf[at + 3] == 49;
    proof {
        let s = buf@.subrange(at as int, at + 4);
        assert(s[0] == buf@[at as int] && s[1] == buf@[at + 1] && s[2] == buf@[at + 2] && s[3]
            == buf@[at + 3]);
        if r {
            assert(s =~= magic());
        } else {
            assert(magic()[0] == 77 && magic()[1] == 65 && magic()[2] == 78 && magic()[3] == 49);
        }
    }
    r
}

fn drops_nothing(edit: &VersionEdit) -> (r: bool)
    ensures
        r == has_empty_prefix(edit@),
{
    match edit {
        VersionEdit::DroppedPrefix(p) => p.len() == 0,
        VersionEdit::UndroppedPrefix(p) => p.len() == 0,
        _ => false,
    }
}

/// Decodes the frame at `cursor` and tells where the next one starts.
///
/// A torn tail (truncated header or body, bad magic or checksum) gives
/// `Ok(None)`.
pub fn decode_frame(buf: &[u8], cursor: usize) -> (r: Result<Option<(VersionEdit, usize)>>)
    ensures
        match parse_edit(buf@, cursor as int) {
            ParsedEdit::Torn => r matches Ok(None),
            ParsedEdit::Edit(m, end) => {
                &&& r matches Ok(Some(p))
                &&& p.0@ == m
                &&& p.1 == end
            },
            p => r matches Err(e) && is_parse_error(e, p),
        },
{
    proof {
        reveal(parse_edit);
    }
    if buf.len() < FRAME_OVERHEAD || cursor > buf.len() - FRAME_OVERHEAD {
        return Ok(None);
    }
    if !is_magic_at(buf, cursor) {
        return Ok(None);
    }
    let op: u8 = buf[cursor + 4];
    if op < 1 || op > 5 {
        let mut text: String = "unknown manifest operation tag ".to_owned();
        push_hex_byte(&mut text, op);
        return Err(EngineError::CorruptMessage(text));
    }
    let (edit, end) = match read_payload(buf, op, cursor + 5) {
        Some(p) => p,
        None => {
            return Ok(None);
        },
    };
    if drops_nothing(&edit) {
        return Err(EngineError::Corrupt("manifest drop-prefix frame has an empty prefix"));
    }
    if buf.len() - end < 4 {
        return Ok(None);
    }
    let stored: u32 = read_u32(buf, end);
    let computed: u32 = crc32c_with_state(slice_subrange(buf, cursor, end), 0);
    if stored != computed {
        return Ok(None);
    }
    Ok(Some((edit, end + 4)))
}

/// What a manifest holds from `at` on.
#[verifier::ext_equal]
pub struct EditLog {
    /// The edits of the sound frames.
    pub edits: Seq<EditModel>,
    /// Where the sound frames end.
    pub valid: int,
    /// What stopped the walk.
    pub stop: ParsedEdit,
}

/// Walks the frames of a manifest from `at` up to the first that is not sound.
pub open spec fn parse_edits(buf: Seq<u8>, at: int) -> EditLog
    decreases buf.len() - at,
{
    match parse_edit(buf, at) {
        ParsedEdit::Edit(m, end) => if at < end <= buf.len() {
            let rest = parse_edits(buf, end);
            EditLog { edits: seq![m] + rest.edits, valid: rest.valid, stop: rest.stop }
        } else {
            EditLog { edits: Seq::empty(), valid: at, stop: ParsedEdit::Torn }
        },
        p => EditLog { edits: Seq::empty(), valid: at, stop: p },
    }
}

proof fn lemma_parse_end(buf: Seq<u8>, at: int)
    requires
        0 <= at,
    ensures
        parse_edit(buf, at) matches ParsedEdit::Edit(_, end) ==> at < end <= buf.len(),
{
    reveal(parse_edit);
}

/// Decodes all frames up to the first torn one: the edits, and the end of the
/// last sound frame.
pub fn decode_all(buf: &[u8]) -> (r: Result<(Vec<VersionEdit>, u64)>)
    ensures
        ({
            let log = parse_edits(buf@, 0);
            &&& r is Ok <==> log.stop is Torn
            &&& r matches Ok(p) ==> edit_models(p.0@) == log.edits && p.1 == log.valid
            &&& r matches Err(e) ==> is_parse_error(e, log.stop)
        }),
{
    let mut cursor: usize = 0;
    let mut out: Vec<VersionEdit> = Vec::new();
    let ghost whole = parse_edits(buf@, 0);
    assert(edit_models(out@) + parse_edits(buf@, 0).edits =~= whole.edits);
    loop
        invariant
            cursor <= buf@.len(),
            whole == parse_edits(buf@, 0),
            whole.edits == edit_models(out@) + parse_edits(buf@, cursor as int).edits,
            whole.valid == parse_edits(buf@, cursor as int).valid,
            whole.stop == parse_edits(buf@, cursor as int).stop,
        decreases buf@.len() - cursor,
    {
        proof {
            lemma_parse_end(buf@, cursor as int);
        }
        let (edit, next) = match decode_frame(buf, cursor) {
            Err(e) => {
                return Err(e);
            },
            Ok(None) => {
                assert(edit_models(out@) =~= whole.edits);
                return Ok((out, cursor as u64));
            },
            Ok(Some(p)) => p,
        };
        let ghost m = edit@;
        let ghost before = out@;
        out.push(edit);
        proof {
            assert(edit_models(out@) =~= edit_models(before).push(m));
            let tail = parse_edits(buf@, next as int).edits;
            assert(edit_models(before) + (seq![m] + tail) =~= edit_models(out@) + tail);
        }
        cursor = next;
    }
}

/// Decodes arbitrary bytes; returns the edits alone.
pub fn decode_all_for_fuzz(buf: &[u8]) -> (r: Result<Vec<VersionEdit>>)
    ensures
        ({
            let log = parse_edits(buf@, 0);
            &&& r is Ok <==> log.stop is Torn
            &&& r matches Ok(es) ==> edit_models(es@) == log.edits
            &&& r matches Err(e) ==> is_parse_error(e, log.stop)
        }),
{
    match decode_all(buf) {
        Ok((edits, _valid)) => Ok(edits),
        Err(e) => Err(e),
    }
}

// ── The manifest file ─────────────────────────────────────────────────────

/// The message for a manifest of another format.
pub open spec fn unsupported_manifest_text() -> Seq<char> {
    "MANIFEST uses an unsupported format: only the binary MAN1 format is accepted (legacy Arrow-IPC manifests are no longer supported)"@
}

/// The manifest begins like one of this format; an empty one does too.
pub open spec fn is_man1(bytes: Seq<u8>) -> bool {
    bytes.len() == 0 || has_prefix(bytes, magic())
}

/// Decodes the bytes of a manifest file: the edits, and the offset that a torn
/// tail is truncated to.
pub fn read_manifest_bytes(bytes: &[u8]) -> (r: Result<(Vec<VersionEdit>, u64)>)
    ensures
        ({
            let log = parse_edits(bytes@, 0);
            &&& r is Ok <==> is_man1(bytes@) && log.stop is Torn
            &&& r matches Ok(p) ==> edit_models(p.0@) == log.edits && p.1 == log.valid
            &&& r matches Err(e) ==> if is_man1(bytes@) {
                is_parse_error(e, log.stop)
            } else {
                e.is_message(unsupported_manifest_text())
            }
        }),
{
    if bytes.len() > 0 && !(bytes.len() >= 4 && is_magic_at(bytes, 0)) {
        proof {
            if bytes@.len() >= 4 {
                assert(bytes@.subrange(0, 4) =~= bytes@.take(4));
            }
        }
        return Err(
            EngineError::CorruptMessage(
                "MANIFEST uses an unsupported format: only the binary MAN1 format is accepted (legacy Arrow-IPC manifests are no longer supported)".to_owned(),
            ),
        );
    }
    proof {
        if bytes@.len() > 0 {
            assert(bytes@.subrange(0, 4) =~= bytes@.take(4));
        }
    }
    decode_all(bytes)
}

/// An `arc_swap::ArcSwap` that holds the current version set.
#[verifier::external_body]
pub struct VersionCell {
    inner: ArcSwap<VersionSet>,
}

/// The version set that a cell holds.
pub uninterp spec fn version_cell_view(c: VersionCell) -> VersionSet;

/// `ArcSwap::from_pointee` makes a cell that holds `v`.
#[verifier::external_body]
fn cell_new(v: VersionSet) -> (r: VersionCell)
    ensures
        version_cell_view(r) == v,
{
    VersionCell { inner: ArcSwap::from_pointee(v) }
}

/// `ArcSwap::load_full` gives what the cell holds.
#[verifier::external_body]
fn cell_load(c: &VersionCell) -> (r: Arc<VersionSet>)
    ensures
        *r == version_cell_view(*c),
{
    c.inner.load_full()
}

/// `ArcSwap::store` makes the cell hold `v`.
#[verifier::external_body]
fn cell_store(c: &mut VersionCell, v: VersionSet)
    ensures
        version_cell_view(*final(c)) == v,
{
    c.inner.store(Arc::new(v))
}

/// Append-only manifest over an open file.
pub struct Manifest<F: FileIO> {
    path: String,
    file: F,
    version_set: VersionCell,
    edit_count: usize,
}

impl<F: FileIO> Manifest<F> {
    /// The bytes of the manifest file.
    pub closed spec fn content(&self) -> Seq<u8> {
        file_bytes(self.file.files(), self.file.current())
    }

    /// The current version set.
    pub closed spec fn current(&self) -> VersionSet {
        version_cell_view(self.version_set)
    }

    /// Which files exist.
    pub open spec fn state(&self) -> VersionSetModel {
        self.current()@
    }

    /// Edits appended since the last snapshot rewrite.
    pub closed spec fn edit_count(&self) -> usize {
        self.edit_count
    }

    /// The path of the manifest file.
    pub closed spec fn spec_path(&self) -> Seq<char> {
        self.path@
    }

    /// The file handle and the version set are in order.
    pub closed spec fn wf(&self) -> bool {
        &&& self.file.wf()
        &&& self.file.current() == self.path@
        &&& self.current().wf()
        &&& self.current().indexed()
        &&& state_fits(self.state())
    }

    /// The handle on the manifest file.
    pub closed spec fn handle(&self) -> F {
        self.file
    }

    /// Appending `es` to `self` went as `done` says: their frames were written
    /// and made durable in one go, and past [`SNAPSHOT_THRESHOLD`] edits the
    /// file was then replaced by a snapshot; if not, one of these steps failed.
    pub open spec fn appending(&self, es: Seq<EditModel>, done: bool) -> bool {
        ||| !done && may_append(self.handle(), edit_frames(es), false)
        ||| may_append(self.handle(), edit_frames(es), true) && exists|io: F| #[trigger]
            self.appended_to(io, es) && {
                ||| !done && may_sync(io, false)
                ||| may_sync(io, true) && if self.edit_count() + es.len() < SNAPSHOT_THRESHOLD {
                    done
                } else {
                    self.rewriting(es, done)
                }
            }
    }

    /// The handle reaches the manifest file with the frames of `es` behind it.
    pub open spec fn appended_to(&self, io: F, es: Seq<EditModel>) -> bool {
        &&& io.current() == self.handle().current()
        &&& io.files() == self.handle().files().insert(
            io.current(),
            self.content() + edit_frames(es),
        )
    }

    /// Replacing the file that holds `es` behind what it held by the snapshot
    /// of its state went as `done` says.
    pub open spec fn rewriting(&self, es: Seq<EditModel>, done: bool) -> bool {
        exists|io: F, ps: Seq<(u32, u64)>|
            #![trigger self.appended_to(io, es), lists_files(ps, self.state().replay(es).levels)]
            self.appended_to(io, es) && lists_files(ps, self.state().replay(es).levels)
                && may_replace(
                io,
                self.spec_path(),
                edit_frames(snapshot_edits(self.state().replay(es), ps)),
                done,
            )
    }

    /// `self` is `before` after it took the edits: they lead to its state, and
    /// its file holds them behind what it held, or is a snapshot of the state.
    pub open spec fn took(&self, before: &Self, es: Seq<EditModel>) -> bool {
        let after = before.state().replay(es);
        let count = before.edit_count() + es.len();
        &&& self.state() == after
        &&& if es.len() == 0 {
            self.content() == before.content() && self.edit_count() == before.edit_count()
        } else if count < SNAPSHOT_THRESHOLD {
            self.content() == before.content() + edit_frames(es) && self.edit_count() == count
        } else {
            &&& self.edit_count() == 0
            &&& exists|ps: Seq<(u32, u64)>| #[trigger]
                lists_files(ps, after.levels) && self.content() == edit_frames(
                    snapshot_edits(after, ps),
                )
        }
        &&& log_holds(before.content(), before.state()) && edits_read_back(es) && restorable(after)
            && drops_are_named(after) ==> log_holds(self.content(), after)
    }

    /// Opens a manifest and replays every complete frame; a torn final frame
    /// is truncated.
    pub fn open(path: &str, file: F) -> (r: Result<Self>)
        requires
            file.wf(),
            file.current() == path@,
        ensures
            ({
                let bytes = file_bytes(file.files(), file.current());
                let log = parse_edits(bytes, 0);
                &&& r matches Ok(m) ==> {
                    &&& is_man1(bytes)
                    &&& log.stop is Torn
                    &&& m.wf()
                    &&& m.spec_path() == path@
                    &&& m.content() == bytes.take(log.valid)
                    &&& is_cut(m.handle(), file, log.valid)
                    &&& m.state() == VersionSetModel::empty().replay(log.edits)
                    &&& m.edit_count() == log.edits.len()
                    &&& log_holds(m.content(), m.state())
                }
                &&& r matches Err(e) ==> {
                    ||| e is Io && cut_may_fail(file, log.valid)
                    ||| !is_man1(bytes) && e.is_message(unsupported_manifest_text())
                    ||| is_man1(bytes) && is_parse_error(e, log.stop)
                }
            }),
    {
        let ghost given = file;
        let mut file = file;
        let content = file.read_all();
        assert(may_read(given, content is Ok));
        let bytes = match content {
            Ok(b) => b,
            Err(e) => {
                return Err(EngineError::Io(e));
            },
        };
        let (edits, valid) = match read_manifest_bytes(bytes.as_slice()) {
            Ok(p) => p,
            Err(e) => {
                return Err(e);
            },
        };
        proof {
            lemma_log_is_written(bytes@, 0);
            assert(bytes@.subrange(0, valid as int) =~= bytes@.take(valid as int));
        }
        assert(same_reach(file, given));
        match file.set_len(valid) {
            Ok(()) => {},
            Err(e) => {
                return Err(EngineError::Io(e));
            },
        }
        let version_set = VersionSet::new().applied(edits.as_slice());
        let edit_count: usize = edits.len();
        proof {
            let es = edit_models(edits@);
            assert(edits_read_back(es));
            assert forall|i: int| 0 <= i < es.len() implies edit_fits(#[trigger] es[i]) by {
                assert(edit_reads_back(es[i]));
            }
            lemma_replay_fits(VersionSetModel::empty(), es);
        }
        Ok(Manifest { path: path.to_owned(), file, version_set: cell_new(version_set), edit_count })
    }

    /// Appends a batch of edits as one durable commit; past
    /// [`SNAPSHOT_THRESHOLD`] edits the log is then replaced by a snapshot.
    ///
    /// The version set changes only once the edits are durable.
    pub fn append_batch(&mut self, edits: Vec<VersionEdit>) -> (r: Result<()>)
        requires
            old(self).wf(),
        ensures
            final(self).wf(),
            final(self).spec_path() == old(self).spec_path(),
            ({
                let es = edit_models(edits@);
                let before = old(self).state();
                let after = before.replay(es);
                &&& es.len() == 0 ==> r is Ok
                &&& es.len() == 0 || !all_fit(es) ==> {
                    &&& final(self).state() == before
                    &&& final(self).content() == old(self).content()
                    &&& final(self).edit_count() == old(self).edit_count()
                }
                &&& !all_fit(es) ==> (r matches Err(e) && e.is_out_of_range(
                    "manifest field > u32::MAX",
                ))
                &&& all_fit(es) && r is Err ==> {
                    &&& r->Err_0 is Io
                    &&& final(self).state() == before || final(self).state() == after
                }
                &&& es.len() > 0 && all_fit(es) ==> old(self).appending(es, r is Ok)
                &&& r is Ok ==> final(self).took(old(self), es)
            }),
    {
        if edits.len() == 0 {
            return Ok(());
        }
        let ghost es = edit_models(edits@);
        let buf = match encode_all(edits.as_slice()) {
            Ok(b) => b,
            Err(e) => {
                return Err(e);
            },
        };
        let written = self.file.write_all(buf.as_slice());
        assert(may_append(old(self).handle(), edit_frames(es), written is Ok));
        match written {
            Ok(()) => {},
            Err(e) => {
                return Err(EngineError::Io(e));
            },
        }
        let ghost io = self.file;
        assert(old(self).appended_to(io, es));
        let synced = self.file.sync_data();
        assert(may_sync(io, synced is Ok));
        match synced {
            Ok(()) => {},
            Err(e) => {
                return Err(EngineError::Io(e));
            },
        }
        let next = cell_load(&self.version_set).applied(edits.as_slice());
        cell_store(&mut self.version_set, next);
        proof {
            lemma_replay_fits(old(self).state(), es);
            if log_holds(old(self).content(), old(self).state()) && edits_read_back(es) {
                lemma_append_holds(old(self).content(), old(self).state(), es);
            }
        }
        self.edit_count = self.edit_count.saturating_add(edits.len());
        if self.edit_count >= SNAPSHOT_THRESHOLD {
            assert(old(self).appended_to(self.file, es));
            return self.rewrite();
        }
        Ok(())
    }

    /// Replaces the manifest by the snapshot of the current state.
    fn rewrite(&mut self) -> (r: Result<()>)
        requires
            old(self).wf(),
        ensures
            final(self).wf(),
            final(self).spec_path() == old(self).spec_path(),
            final(self).state() == old(self).state(),
            r matches Err(e) ==> e is Io,
            exists|ps: Seq<(u32, u64)>| #[trigger]
                lists_files(ps, old(self).state().levels) && may_replace(
                    old(self).handle(),
                    old(self).spec_path(),
                    edit_frames(snapshot_edits(old(self).state(), ps)),
                    r is Ok,
                ),
            r is Ok ==> {
                let m = old(self).state();
                &&& final(self).edit_count() == 0
                &&& exists|ps: Seq<(u32, u64)>| #[trigger]
                    lists_files(ps, m.levels) && final(self).content() == edit_frames(
                        snapshot_edits(m, ps),
                    )
                &&& restorable(m) && drops_are_named(m) ==> log_holds(final(self).content(), m)
            },
    {
        let edits = cell_load(&self.version_set).to_edits();
        let ghost m = self.state();
        let ghost ps = choose|ps: Seq<(u32, u64)>| #[trigger]
            lists_files(ps, m.levels) && edit_models(edits@) == snapshot_edits(m, ps);
        proof {
            lemma_snapshot_fits(m, ps);
        }
        let buf = match encode_all(edits.as_slice()) {
            Ok(b) => b,
            Err(e) => {
                return Err(e);
            },
        };
        let path: String = self.path.clone();
        let replaced = self.file.write_atomic(path.as_str(), buf.as_slice());
        assert(may_replace(
            old(self).handle(),
            old(self).spec_path(),
            edit_frames(snapshot_edits(m, ps)),
            replaced is Ok,
        ));
        match replaced {
            Ok(()) => {},
            Err(e) => {
                return Err(EngineError::Io(e));
            },
        }
        self.edit_count = 0;
        proof {
            if restorable(m) && drops_are_named(m) {
                lemma_snapshot_holds(m, ps);
            }
        }
        Ok(())
    }

    /// Returns the version set as a shared snapshot.
    pub fn version_set(&self) -> (r: Arc<VersionSet>)
        requires
            self.wf(),
        ensures
            r@ == self.state(),
            r.wf(),
            r.indexed(),
    {
        cell_load(&self.version_set)
    }

    /// Returns every file id across all levels, by level and then by id.
    pub fn file_ids(&self) -> (r: Vec<u64>)
        ensures
            exists|ps: Seq<(u32, u64)>| #[trigger]
                lists_files(ps, self.state().levels) && r@ == ids_of(ps),
    {
        let current = cell_load(&self.version_set);
        let r = current.file_ids();
        proof {
            let ps = choose|ps: Seq<(u32, u64)>| #[trigger]
                lists_files(ps, current@.levels) && r@ == ids_of(ps);
            assert(lists_files(ps, self.state().levels));
        }
        r
    }

    /// Returns the manifest path.
    pub fn path(&self) -> (r: &String)
        ensures
            r@ == self.spec_path(),
    {
        &self.path
    }
}

// ── Laws ──────────────────────────────────────────────────────────────────

/// What a manifest takes is read back: whoever opens its file later finds the
/// state that it had after the edits, also where they brought the log to the
/// threshold and the file was replaced by a snapshot. What this rests on holds
/// again afterwards.
pub proof fn law_append_is_read_back<F: FileIO>(
    before: Manifest<F>,
    after: Manifest<F>,
    es: Seq<EditModel>,
)
    requires
        log_holds(before.content(), before.state()),
        restorable(before.state()),
        drops_are_named(before.state()),
        is_orderly(before.state(), es),
        after.took(&before, es),
    ensures
        after.state() == before.state().replay(es),
        VersionSetModel::empty().replay(parse_edits(after.content(), 0).edits) == after.state(),
        parse_edits(after.content(), 0).valid == after.content().len(),
        log_holds(after.content(), after.state()),
        restorable(after.state()),
        drops_are_named(after.state()),
{
    law_orderly_edits_are_restorable(before.state(), es);
    law_reopen_restores(after.content(), after.state());
}

/// A manifest that lost a part of its last frames is opened with every whole
/// edit, and nothing that it takes afterwards is lost: opened once more it has
/// the whole edits followed by the new ones.
pub proof fn law_torn_manifest_keeps_edits<F: FileIO>(
    fs: Seq<EditModel>,
    cut: int,
    opened: Manifest<F>,
    es: Seq<EditModel>,
    after: Manifest<F>,
)
    requires
        is_orderly(VersionSetModel::empty(), fs),
        0 <= cut <= edit_frames(fs).len(),
        ({
            let log = parse_edits(edit_frames(fs).take(cut), 0);
            &&& opened.content() == edit_frames(fs).take(cut).take(log.valid)
            &&& opened.state() == VersionSetModel::empty().replay(log.edits)
            &&& log_holds(opened.content(), opened.state())
        }),
        is_orderly(opened.state(), es),
        after.took(&opened, es),
    ensures
        ({
            let whole = fs.take(whole_edits(fs, cut) as int);
            &&& opened.state() == VersionSetModel::empty().replay(whole)
            &&& opened.content() == edit_frames(whole)
            &&& VersionSetModel::empty().replay(parse_edits(after.content(), 0).edits)
                == VersionSetModel::empty().replay(whole + es)
        }),
{
    let empty = VersionSetModel::empty();
    let n = whole_edits(fs, cut) as int;
    let whole = fs.take(n);
    assert forall|i: int| 0 <= i < fs.len() implies edit_reads_back(#[trigger] fs[i]) by {}
    law_manifest_torn_tail(fs, cut);
    assert forall|i: int| 0 <= i < whole.len() implies edit_reads_back(#[trigger] whole[i])
        && names_its_level(empty.replay(whole.take(i)), whole[i]) by {
        assert(whole[i] == fs[i]);
        assert(whole.take(i) =~= fs.take(i));
    }
    assert(restorable(empty) && drops_are_named(empty));
    law_orderly_edits_are_restorable(empty, whole);
    law_append_is_read_back(opened, after, es);
    lemma_replay_concat(empty, whole, es);
    lemma_whole_is_front(fs, cut);
}

} // verus!
