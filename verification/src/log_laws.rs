//! What holds of commit log files as a whole.

use crate::digest::fnv;
use crate::errors::FileErrorModel;
use crate::frame::{FrameModel, WorldId, payload_bytes};
use crate::log_format::{
    FILE_VERSION, RecordModel, Wording, end_magic, file_magic, follows, frame_magic, framed_bytes,
    header_bytes, linked, log_bytes, position_fault, read_log, record_at, record_bytes,
    records_bytes, scan, storable, tail_of,
};
use crate::payload::{MAX_OPERATIONS_PER_FRAME, payload_parses};
use crate::wire::{
    concat_assoc, concat_stands, le32, le32_facts, le32_stands, le64, le64_facts, le64_stands,
    stands_at, stands_at_split, u32_at, u64_at, whole_stands,
};
use vstd::prelude::*;

verus! {

/// Every frame of a history is small enough to be stored.
pub open spec fn all_storable(frames: Seq<FrameModel>) -> bool {
    forall|i: int| 0 <= i < frames.len() ==> storable(#[trigger] frames[i])
}

pub proof fn framed_length(magic: Seq<u8>, payload: Seq<u8>)
    requires
        magic.len() == 4,
    ensures
        framed_bytes(magic, payload).len() == payload.len() + 24,
{
    le64_facts(payload.len() as u64);
    le64_facts(fnv(payload));
}

/// A framed payload stands somewhere exactly when its five parts stand one behind the other.
pub proof fn framed_parts(bytes: Seq<u8>, offset: int, magic: Seq<u8>, payload: Seq<u8>)
    requires
        magic.len() == 4,
    ensures
        stands_at(bytes, offset, framed_bytes(magic, payload)) <==> (stands_at(bytes, offset, magic)
            && stands_at(bytes, offset + 4, le64(payload.len() as u64)) && stands_at(
            bytes,
            offset + 12,
            le64(fnv(payload)),
        ) && stands_at(bytes, offset + 20, payload) && stands_at(
            bytes,
            offset + 20 + payload.len(),
            end_magic(),
        )),
{
    let b = le64(payload.len() as u64);
    let c = le64(fnv(payload));
    le64_facts(payload.len() as u64);
    le64_facts(fnv(payload));
    stands_at_split(bytes, offset, magic + b + c + payload, end_magic());
    stands_at_split(bytes, offset, magic + b + c, payload);
    stands_at_split(bytes, offset, magic + b, c);
    stands_at_split(bytes, offset, magic, b);
}

/// A record is read at a position exactly when its bytes stand there.
pub proof fn record_stands(
    bytes: Seq<u8>,
    offset: int,
    frame: FrameModel,
    next: int,
    wording: Wording,
)
    requires
        bytes.len() <= usize::MAX,
        0 <= offset,
    ensures
        record_at(bytes, offset, wording) == RecordModel::Complete(frame, next) <==> (stands_at(
            bytes,
            offset,
            record_bytes(frame),
        ) && next == offset + record_bytes(frame).len() && storable(frame)),
{
    let payload = payload_bytes(frame);
    framed_length(frame_magic(), payload);
    framed_parts(bytes, offset, frame_magic(), payload);
    le64_stands(bytes, offset + 4, payload.len() as u64);
    le64_stands(bytes, offset + 12, fnv(payload));
    if stands_at(bytes, offset, record_bytes(frame)) && storable(frame) {
        payload_parses(payload, frame);
        assert(u64_at(bytes, offset + 4) == payload.len());
        assert(bytes.subrange(offset + 20, offset + 20 + payload.len()) == payload);
    }
    if record_at(bytes, offset, wording) == RecordModel::Complete(frame, next) {
        let length = u64_at(bytes, offset + 4);
        let found = bytes.subrange(offset + 20, offset + 20 + length);
        payload_parses(found, frame);
        assert(found == payload);
    }
}

/// Bytes within a cut-off piece are those of the whole piece.
pub proof fn piece_of_prefix(before: Seq<u8>, piece: Seq<u8>, cut: int, from: int, to: int)
    requires
        0 <= from <= to <= cut <= piece.len(),
    ensures
        (before + piece.take(cut)).subrange(before.len() + from, before.len() + to)
            == piece.subrange(from, to),
{
    assert((before + piece.take(cut)).subrange(before.len() + from, before.len() + to)
        =~= piece.subrange(from, to));
}

/// Magic and length of a framed payload.
pub proof fn framed_prefix(bytes: Seq<u8>, offset: int, magic: Seq<u8>, payload: Seq<u8>)
    requires
        magic.len() == 4,
        payload.len() <= u64::MAX,
        stands_at(bytes, offset, framed_bytes(magic, payload)),
    ensures
        bytes.subrange(offset, offset + 4) == magic,
        u64_at(bytes, offset + 4) == payload.len(),
{
    framed_parts(bytes, offset, magic, payload);
    le64_stands(bytes, offset + 4, payload.len() as u64);
}

/// A record that is cut off anywhere before its end is incomplete.
pub proof fn torn_record_is_incomplete(
    before: Seq<u8>,
    frame: FrameModel,
    cut: int,
    wording: Wording,
)
    requires
        storable(frame),
        0 <= cut < record_bytes(frame).len(),
    ensures
        record_at(before + record_bytes(frame).take(cut), before.len() as int, wording)
            == RecordModel::Incomplete,
{
    let record = record_bytes(frame);
    framed_length(frame_magic(), payload_bytes(frame));
    whole_stands(record);
    framed_prefix(record, 0, frame_magic(), payload_bytes(frame));
    if cut >= 20 {
        piece_of_prefix(before, record, cut, 0, 4);
        piece_of_prefix(before, record, cut, 4, 12);
    }
}

proof fn position_is_link(tail: (WorldId, u64), frame: FrameModel, wording: Wording)
    ensures
        position_fault(tail, frame, wording) is None <==> follows(tail, frame),
{
}

/// Reading passes over records that stand in the file.
proof fn scan_passes(
    bytes: Seq<u8>,
    offset: int,
    done: Seq<FrameModel>,
    frames: Seq<FrameModel>,
    wording: Wording,
)
    requires
        bytes.len() <= usize::MAX,
        0 <= offset,
        stands_at(bytes, offset, records_bytes(frames)),
        linked(done + frames),
        all_storable(frames),
    ensures
        scan(bytes, offset, done, wording) == scan(
            bytes,
            offset + records_bytes(frames).len(),
            done + frames,
            wording,
        ),
    decreases frames.len(),
{
    if frames.len() == 0 {
        assert(done + frames =~= done);
    } else {
        let front = frames.drop_last();
        let last = frames.last();
        assert((done + frames).drop_last() =~= done + front);
        assert((done + frames).last() == last);
        stands_at_split(bytes, offset, records_bytes(front), record_bytes(last));
        assert forall|i: int| 0 <= i < front.len() implies storable(#[trigger] front[i]) by {
            assert(front[i] == frames[i]);
        }
        scan_passes(bytes, offset, done, front, wording);
        let middle = offset + records_bytes(front).len();
        assert(storable(frames[frames.len() - 1]));
        record_stands(bytes, middle, last, middle + record_bytes(last).len(), wording);
        position_is_link(tail_of(done + front), last, wording);
        framed_length(frame_magic(), payload_bytes(last));
        assert((done + front).push(last) =~= done + frames);
    }
}

pub proof fn header_stands(rest: Seq<u8>, wording: Wording)
    ensures
        read_log(header_bytes() + rest, wording) == scan(
            header_bytes() + rest,
            16,
            Seq::empty(),
            wording,
        ),
        header_bytes().len() == 16,
{
    let bytes = header_bytes() + rest;
    le32_facts(FILE_VERSION);
    le32_facts(0);
    assert(bytes.subrange(0, 16) =~= header_bytes());
    stands_at_split(bytes, 0, file_magic() + le32(FILE_VERSION), le32(0));
    stands_at_split(bytes, 0, file_magic(), le32(FILE_VERSION));
    le32_stands(bytes, 8, FILE_VERSION);
    le32_stands(bytes, 12, 0);
}

/// Reading a written log gives back its frames, and an incomplete record behind them is left out:
/// what is kept ends where the last complete record does.
pub proof fn written_log_reads_back(frames: Seq<FrameModel>, rest: Seq<u8>, wording: Wording)
    requires
        linked(frames),
        all_storable(frames),
        log_bytes(frames).len() + rest.len() <= usize::MAX,
        record_at(log_bytes(frames) + rest, log_bytes(frames).len() as int, wording)
            == RecordModel::Incomplete,
    ensures
        read_log(log_bytes(frames) + rest, wording) == Ok::<
            (Seq<FrameModel>, int),
            FileErrorModel,
        >((frames, log_bytes(frames).len() as int)),
{
    let bytes = log_bytes(frames) + rest;
    concat_assoc(header_bytes(), records_bytes(frames), rest);
    header_stands(records_bytes(frames) + rest, wording);
    concat_stands(header_bytes(), records_bytes(frames), rest);
    assert(Seq::<FrameModel>::empty() + frames =~= frames);
    scan_passes(bytes, 16, Seq::empty(), frames, wording);
}

/// A complete log reads back whole.
pub proof fn complete_log_reads_back(frames: Seq<FrameModel>, wording: Wording)
    requires
        linked(frames),
        all_storable(frames),
        log_bytes(frames).len() <= usize::MAX,
    ensures
        read_log(log_bytes(frames), wording) == Ok::<(Seq<FrameModel>, int), FileErrorModel>(
            (frames, log_bytes(frames).len() as int),
        ),
{
    assert(log_bytes(frames) + Seq::<u8>::empty() =~= log_bytes(frames));
    written_log_reads_back(frames, Seq::empty(), wording);
}

/// A crash in the middle of writing a record loses that record and nothing else.
pub proof fn torn_append_keeps_history(
    frames: Seq<FrameModel>,
    frame: FrameModel,
    cut: int,
    wording: Wording,
)
    requires
        linked(frames),
        all_storable(frames),
        storable(frame),
        0 <= cut < record_bytes(frame).len(),
        log_bytes(frames).len() + cut <= usize::MAX,
    ensures
        read_log(log_bytes(frames) + record_bytes(frame).take(cut), wording) == Ok::<
            (Seq<FrameModel>, int),
            FileErrorModel,
        >((frames, log_bytes(frames).len() as int)),
{
    torn_record_is_incomplete(log_bytes(frames), frame, cut, wording);
    written_log_reads_back(frames, record_bytes(frame).take(cut), wording);
}

proof fn scan_is_canonical(
    bytes: Seq<u8>,
    offset: int,
    done: Seq<FrameModel>,
    wording: Wording,
)
    requires
        bytes.len() <= usize::MAX,
        16 <= offset <= bytes.len(),
        linked(done),
        all_storable(done),
        bytes.take(offset) == log_bytes(done),
    ensures
        scan(bytes, offset, done, wording) matches Ok((frames, end)) ==> linked(frames)
            && all_storable(frames) && 16 <= end <= bytes.len() && bytes.take(end) == log_bytes(
            frames,
        ),
    decreases bytes.len() - offset,
{
    match record_at(bytes, offset, wording) {
        RecordModel::Complete(frame, next) => {
            record_stands(bytes, offset, frame, next, wording);
            framed_length(frame_magic(), payload_bytes(frame));
            position_is_link(tail_of(done), frame, wording);
            if position_fault(tail_of(done), frame, wording) is None {
                let more = done.push(frame);
                assert(more.drop_last() =~= done);
                assert(bytes.take(next) =~= bytes.take(offset) + bytes.subrange(offset, next));
                concat_assoc(header_bytes(), records_bytes(done), record_bytes(frame));
                assert forall|i: int| 0 <= i < more.len() implies storable(#[trigger] more[i]) by {
                    if i < done.len() {
                        assert(more[i] == done[i]);
                    }
                }
                scan_is_canonical(bytes, next, more, wording);
            }
        },
        _ => {},
    }
}

/// What is read from a log is linear, and its encoding is the very prefix that is kept.
pub proof fn read_log_is_canonical(bytes: Seq<u8>, wording: Wording)
    requires
        bytes.len() <= usize::MAX,
    ensures
        read_log(bytes, wording) matches Ok((frames, end)) ==> linked(frames) && all_storable(
            frames,
        ) && 16 <= end <= bytes.len() && bytes.take(end) == log_bytes(frames),
{
    if read_log(bytes, wording) is Ok {
        assert(bytes.take(16) =~= header_bytes()) by {
            le32_facts(FILE_VERSION);
            le32_facts(0);
            le32_stands(bytes, 8, FILE_VERSION);
            le32_stands(bytes, 12, 0);
            stands_at_split(bytes, 0, file_magic(), le32(FILE_VERSION));
            stands_at_split(bytes, 0, file_magic() + le32(FILE_VERSION), le32(0));
            assert(bytes.take(16) =~= bytes.subrange(0, 16));
        }
        assert(records_bytes(Seq::<FrameModel>::empty()) =~= Seq::empty());
        assert(log_bytes(Seq::<FrameModel>::empty()) =~= header_bytes());
        scan_is_canonical(bytes, 16, Seq::empty(), wording);
    }
}

proof fn scans_agree(bytes: Seq<u8>, offset: int, done: Seq<FrameModel>)
    ensures
        scan(bytes, offset, done, Wording::Open) is Ok <==> scan(
            bytes,
            offset,
            done,
            Wording::Inspect,
        ) is Ok,
        scan(bytes, offset, done, Wording::Open) is Ok ==> scan(bytes, offset, done, Wording::Open)
            == scan(bytes, offset, done, Wording::Inspect),
    decreases bytes.len() - offset,
{
    match record_at(bytes, offset, Wording::Open) {
        RecordModel::Complete(frame, next) => {
            position_is_link(tail_of(done), frame, Wording::Open);
            position_is_link(tail_of(done), frame, Wording::Inspect);
            if next > offset {
                scans_agree(bytes, next, done.push(frame));
            }
        },
        _ => {},
    }
}

/// Opening a log and inspecting it accept the same files and find the same frames in them.
pub proof fn readers_agree(bytes: Seq<u8>)
    ensures
        read_log(bytes, Wording::Open) is Ok <==> read_log(bytes, Wording::Inspect) is Ok,
        read_log(bytes, Wording::Open) is Ok ==> read_log(bytes, Wording::Open) == read_log(
            bytes,
            Wording::Inspect,
        ),
{
    scans_agree(bytes, 16, Seq::empty());
}

/// A record written behind a complete log adds its frame and changes nothing before it.
pub proof fn append_extends_history(
    bytes: Seq<u8>,
    frames: Seq<FrameModel>,
    frame: FrameModel,
    wording: Wording,
)
    requires
        bytes.len() + record_bytes(frame).len() <= usize::MAX,
        read_log(bytes, wording) == Ok::<(Seq<FrameModel>, int), FileErrorModel>(
            (frames, bytes.len() as int),
        ),
        follows(tail_of(frames), frame),
        storable(frame),
    ensures
        read_log(bytes + record_bytes(frame), wording) == Ok::<
            (Seq<FrameModel>, int),
            FileErrorModel,
        >((frames.push(frame), (bytes.len() + record_bytes(frame).len()) as int)),
{
    read_log_is_canonical(bytes, wording);
    let more = frames.push(frame);
    whole_stands(bytes);
    assert(more.drop_last() =~= frames);
    concat_assoc(header_bytes(), records_bytes(frames), record_bytes(frame));
    assert forall|i: int| 0 <= i < more.len() implies storable(#[trigger] more[i]) by {
        if i < frames.len() {
            assert(more[i] == frames[i]);
        }
    }
    complete_log_reads_back(more, wording);
}

/// Equal bytes come only from equal histories.
pub proof fn log_bytes_injective(left: Seq<FrameModel>, right: Seq<FrameModel>)
    requires
        linked(left),
        linked(right),
        all_storable(left),
        all_storable(right),
        log_bytes(left) == log_bytes(right),
        log_bytes(left).len() <= usize::MAX,
    ensures
        left == right,
{
    complete_log_reads_back(left, Wording::Open);
    complete_log_reads_back(right, Wording::Open);
}

/// Where reading stops without a fault, a record has been begun at most: too few bytes are left for
/// what stands in front of a payload, or the length that stands there takes the record beyond the
/// end of the file.
proof fn scan_stops_at_a_torn_end(
    bytes: Seq<u8>,
    offset: int,
    done: Seq<FrameModel>,
    wording: Wording,
)
    requires
        bytes.len() <= usize::MAX,
        16 <= offset <= bytes.len(),
        linked(done),
        all_storable(done),
        bytes.take(offset) == log_bytes(done),
    ensures
        scan(bytes, offset, done, wording) matches Ok((frames, end)) ==> offset <= end
            <= bytes.len() && (bytes.len() - end < 20 || bytes.subrange(end, end + 4) == seq![
            0x46u8, 0x52, 0x4d, 0x31,
        ] && u64_at(bytes, end + 4) <= 67_108_864 && bytes.len() - end < 24 + u64_at(
            bytes,
            end + 4,
        )),
        scan(bytes, offset, done, wording) matches Err(error) ==> (error matches
            FileErrorModel::CorruptFrame { offset: at, .. } && offset <= at < bytes.len()
            && bytes.len() - at >= 20),
    decreases bytes.len() - offset,
{
    match record_at(bytes, offset, wording) {
        RecordModel::Complete(frame, next) => {
            record_stands(bytes, offset, frame, next, wording);
            framed_length(frame_magic(), payload_bytes(frame));
            position_is_link(tail_of(done), frame, wording);
            if position_fault(tail_of(done), frame, wording) is None {
                let more = done.push(frame);
                assert(more.drop_last() =~= done);
                assert(bytes.take(next) =~= bytes.take(offset) + bytes.subrange(offset, next));
                concat_assoc(header_bytes(), records_bytes(done), record_bytes(frame));
                assert forall|i: int| 0 <= i < more.len() implies storable(#[trigger] more[i]) by {
                    if i < done.len() {
                        assert(more[i] == done[i]);
                    }
                }
                scan_stops_at_a_torn_end(bytes, next, more, wording);
            }
        },
        RecordModel::Incomplete => {
            assert(frame_magic() =~= seq![0x46u8, 0x52, 0x4d, 0x31]);
        },
        RecordModel::Corrupt(_) => {},
    }
}

/// What a log is cut to is never more than a record that was not finished: if reading a file
/// succeeds, the bytes behind the last frame are too short for the record that they begin. So a
/// complete but damaged record is not taken for a tail, wherever it stands.
pub proof fn only_torn_records_are_cut(bytes: Seq<u8>, wording: Wording)
    requires
        bytes.len() <= usize::MAX,
    ensures
        read_log(bytes, wording) matches Ok((frames, end)) ==> 16 <= end <= bytes.len()
            && bytes.take(end) == log_bytes(frames) && (bytes.len() - end < 20 || bytes.subrange(
            end,
            end + 4,
        ) == seq![0x46u8, 0x52, 0x4d, 0x31] && u64_at(bytes, end + 4) <= 67_108_864 && bytes.len()
            - end < 24 + u64_at(bytes, end + 4)),
        read_log(bytes, wording) is Ok ==> bytes.take(8) == seq![
            0x46u8, 0x54, 0x48, 0x44, 0x42, 0x30, 0x30, 0x31,
        ] && u32_at(bytes, 8) == 1 && u32_at(bytes, 12) == 0,
        read_log(bytes, wording) matches Err(error) ==> match error {
            FileErrorModel::CorruptFrame { offset, .. } => 16 <= offset && bytes.len() - offset
                >= 20,
            FileErrorModel::InvalidHeader(_) => bytes.len() < 16 || bytes.take(8) != seq![
                0x46u8, 0x54, 0x48, 0x44, 0x42, 0x30, 0x30, 0x31,
            ] || u32_at(bytes, 12) != 0,
            FileErrorModel::UnsupportedFormat(version) => version == u32_at(bytes, 8) && version
                != 1,
            _ => false,
        },
{
    read_log_is_canonical(bytes, wording);
    assert(file_magic() =~= seq![0x46u8, 0x54, 0x48, 0x44, 0x42, 0x30, 0x30, 0x31]);
    if bytes.len() >= 8 {
        assert(bytes.take(8) =~= bytes.subrange(0, 8));
    }
    if bytes.len() >= 16 && bytes.subrange(0, 8) == file_magic() && u32_at(bytes, 8) == FILE_VERSION
        && u32_at(bytes, 12) == 0 {
        assert(bytes.take(16) =~= header_bytes()) by {
            le32_facts(FILE_VERSION);
            le32_facts(0);
            le32_stands(bytes, 8, FILE_VERSION);
            le32_stands(bytes, 12, 0);
            stands_at_split(bytes, 0, file_magic(), le32(FILE_VERSION));
            stands_at_split(bytes, 0, file_magic() + le32(FILE_VERSION), le32(0));
            assert(bytes.take(16) =~= bytes.subrange(0, 16));
        }
        assert(records_bytes(Seq::<FrameModel>::empty()) =~= Seq::empty());
        assert(log_bytes(Seq::<FrameModel>::empty()) =~= header_bytes());
        scan_stops_at_a_torn_end(bytes, 16, Seq::empty(), wording);
    }
}

/// Corruption fails closed: where a complete record is expected behind a history and something else
/// stands there, reading fails at that place, however many frames stand in front of it. Something
/// else is a wrong mark, a length that no record has, or a record that ends within the file with a
/// wrong end mark, a checksum that is not that of its payload, or a payload that is not that of a
/// frame which continues the history.
pub proof fn damaged_records_fail_closed(
    frames: Seq<FrameModel>,
    rest: Seq<u8>,
    wording: Wording,
)
    requires
        linked(frames),
        all_storable(frames),
        log_bytes(frames).len() + rest.len() <= usize::MAX,
        rest.len() >= 20,
        ({
            let length = u64_at(rest, 4);
            ||| rest.take(4) != seq![0x46u8, 0x52, 0x4d, 0x31]
            ||| length > 67_108_864
            ||| rest.len() >= 24 + length && (rest.subrange(20 + length, 24 + length) != seq![
                0x45u8, 0x4e, 0x44, 0x31,
            ] || fnv(rest.subrange(20, 20 + length)) != u64_at(rest, 12) || !(exists|
                frame: FrameModel,
            |
                rest.subrange(20, 20 + length) == #[trigger] payload_bytes(frame)
                    && frame.operations.len() <= MAX_OPERATIONS_PER_FRAME && follows(
                    tail_of(frames),
                    frame,
                )))
        }),
    ensures
        read_log(log_bytes(frames) + rest, wording) matches Err(FileErrorModel::CorruptFrame {
            offset,
            ..
        }) && offset == log_bytes(frames).len(),
{
    let bytes = log_bytes(frames) + rest;
    let at = log_bytes(frames).len() as int;
    history_is_passed(frames, rest, wording);
    pieces_behind(log_bytes(frames), rest);
    if rest.len() >= 24 + u64_at(rest, 4) && u64_at(rest, 4) <= 67_108_864 {
        payload_behind(log_bytes(frames), rest);
    }
    match record_at(bytes, at, wording) {
        RecordModel::Complete(frame, next) => {
            record_stands(bytes, at, frame, next, wording);
            framed_length(frame_magic(), payload_bytes(frame));
            framed_parts(bytes, at, frame_magic(), payload_bytes(frame));
            position_is_link(tail_of(frames), frame, wording);
            payload_parses(rest.subrange(20, 20 + u64_at(rest, 4)), frame);
        },
        _ => {},
    }
}

/// Reading goes on behind a history.
proof fn history_is_passed(frames: Seq<FrameModel>, rest: Seq<u8>, wording: Wording)
    requires
        linked(frames),
        all_storable(frames),
        log_bytes(frames).len() + rest.len() <= usize::MAX,
    ensures
        read_log(log_bytes(frames) + rest, wording) == scan(
            log_bytes(frames) + rest,
            log_bytes(frames).len() as int,
            frames,
            wording,
        ),
{
    let bytes = log_bytes(frames) + rest;
    concat_assoc(header_bytes(), records_bytes(frames), rest);
    header_stands(records_bytes(frames) + rest, wording);
    concat_stands(header_bytes(), records_bytes(frames), rest);
    assert(Seq::<FrameModel>::empty() + frames =~= frames);
    scan_passes(bytes, 16, Seq::empty(), frames, wording);
}

/// What stands in front of a payload, behind other bytes.
proof fn pieces_behind(before: Seq<u8>, rest: Seq<u8>)
    requires
        rest.len() >= 20,
    ensures
        (before + rest).subrange(before.len() as int, before.len() as int + 4) == rest.take(4),
        u64_at(before + rest, before.len() as int + 4) == u64_at(rest, 4),
        u64_at(before + rest, before.len() as int + 12) == u64_at(rest, 12),
        frame_magic() == seq![0x46u8, 0x52, 0x4d, 0x31],
        end_magic() == seq![0x45u8, 0x4e, 0x44, 0x31],
{
    let bytes = before + rest;
    let at = before.len() as int;
    assert(bytes.subrange(at, at + 4) =~= rest.take(4));
    assert(bytes.subrange(at + 4, at + 12) =~= rest.subrange(4, 12));
    assert(bytes.subrange(at + 12, at + 20) =~= rest.subrange(12, 20));
    assert(frame_magic() =~= seq![0x46u8, 0x52, 0x4d, 0x31]);
    assert(end_magic() =~= seq![0x45u8, 0x4e, 0x44, 0x31]);
}

proof fn payload_behind(before: Seq<u8>, rest: Seq<u8>)
    requires
        rest.len() >= 24 + u64_at(rest, 4),
    ensures
        ({
            let at = before.len() as int;
            let length = u64_at(rest, 4);
            &&& (before + rest).subrange(at + 20, at + 20 + length) == rest.subrange(
                20,
                20 + length,
            )
            &&& (before + rest).subrange(at + 20 + length, at + 24 + length) == rest.subrange(
                20 + length,
                24 + length,
            )
        }),
{
    let at = before.len() as int;
    let length = u64_at(rest, 4);
    assert((before + rest).subrange(at + 20, at + 20 + length) =~= rest.subrange(20, 20 + length));
    assert((before + rest).subrange(at + 20 + length, at + 24 + length) =~= rest.subrange(
        20 + length,
        24 + length,
    ));
}

} // verus!
