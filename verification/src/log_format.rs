//! The commit log file: a header, then one checksummed record per frame.

use crate::digest::{FNV_OFFSET, digest, fnv};
use crate::errors::{
    FileCommitStoreError, FileErrorModel, describe_numbers, describe_worlds, two_numbers,
    two_worlds,
};
use crate::fact::{views, views_push};
use crate::frame::{CommitFrame, FrameModel, WorldId, encode_payload, payload_bytes};
use crate::payload::{
    MAX_OPERATIONS_PER_FRAME, PayloadFault, PayloadFaultModel, decode_payload, parse_payload,
};
use crate::text::{decimal, hex_digits, joined, labelled, push_hex};
use crate::wire::{fixed_u32, fixed_u64, le32, le64, put_bytes, put_u32, put_u64, u32_at, u64_at};
use std::sync::Arc;
use vstd::prelude::*;
use vstd::string::*;

verus! {

/// Length of the file header.
pub const FILE_HEADER_LEN: usize = 16;

/// Length of what stands in front of a record's payload.
pub const FRAME_PREFIX_LEN: usize = 20;

/// Length of what stands behind a record's payload.
pub const FRAME_TRAILER_LEN: usize = 4;

/// Longest payload of one record.
pub const MAX_FRAME_BYTES: u64 = 67_108_864;

/// The only file format version.
pub const FILE_VERSION: u32 = 1;

/// `FTHDB001`.
pub open spec fn file_magic() -> Seq<u8> {
    seq![0x46u8, 0x54, 0x48, 0x44, 0x42, 0x30, 0x30, 0x31]
}

/// `FRM1`.
pub open spec fn frame_magic() -> Seq<u8> {
    seq![0x46u8, 0x52, 0x4d, 0x31]
}

/// `END1`.
pub open spec fn end_magic() -> Seq<u8> {
    seq![0x45u8, 0x4e, 0x44, 0x31]
}

/// Magic, version and flags.
pub open spec fn header_bytes() -> Seq<u8> {
    file_magic() + le32(FILE_VERSION) + le32(0)
}

/// A payload between its prefix, which starts with `magic`, and its trailer.
pub open spec fn framed_bytes(magic: Seq<u8>, payload: Seq<u8>) -> Seq<u8> {
    magic + le64(payload.len() as u64) + le64(fnv(payload)) + payload + end_magic()
}

/// The record of a frame.
pub open spec fn record_bytes(frame: FrameModel) -> Seq<u8> {
    framed_bytes(frame_magic(), payload_bytes(frame))
}

/// The records of `frames`, one after the other.
pub open spec fn records_bytes(frames: Seq<FrameModel>) -> Seq<u8>
    decreases frames.len(),
{
    if frames.len() == 0 {
        Seq::empty()
    } else {
        records_bytes(frames.drop_last()) + record_bytes(frames.last())
    }
}

/// The whole file that holds `frames`.
pub open spec fn log_bytes(frames: Seq<FrameModel>) -> Seq<u8> {
    header_bytes() + records_bytes(frames)
}

/// A frame is small enough to be stored.
pub open spec fn storable(frame: FrameModel) -> bool {
    &&& payload_bytes(frame).len() <= MAX_FRAME_BYTES
    &&& frame.operations.len() <= MAX_OPERATIONS_PER_FRAME
}

/// Identity and version of the world that a history leads to.
pub open spec fn tail_of(frames: Seq<FrameModel>) -> (WorldId, u64) {
    if frames.len() == 0 {
        (WorldId(FNV_OFFSET), 0)
    } else {
        (frames.last().resulting_world, frames.last().resulting_version)
    }
}

/// A frame continues a history: it starts where the history ends and is one version on.
pub open spec fn follows(tail: (WorldId, u64), frame: FrameModel) -> bool {
    &&& frame.parent_world == tail.0
    &&& frame.parent_version == tail.1
    &&& frame.resulting_version == tail.1 + 1
}

/// Every frame continues the frames before it.
pub open spec fn linked(frames: Seq<FrameModel>) -> bool
    decreases frames.len(),
{
    frames.len() == 0 || (linked(frames.drop_last()) && follows(
        tail_of(frames.drop_last()),
        frames.last(),
    ))
}

/// Which of the two readers words the faults.
#[derive(Clone, Copy, Debug, PartialEq, Eq, Structural)]
pub enum Wording {
    /// The reader that opens a log.
    Open,
    /// The reader that inspects a log between epochs.
    Inspect,
}

/// How a payload fault reads.
pub open spec fn payload_fault_text(fault: PayloadFaultModel, wording: Wording) -> Seq<char> {
    match (fault, wording) {
        (PayloadFaultModel::LengthUnsupported, Wording::Open) =>
            "string length does not fit this platform"@,
        (PayloadFaultModel::LengthUnsupported, Wording::Inspect) =>
            "string length does not fit platform"@,
        (PayloadFaultModel::LengthOverflow, Wording::Open) => "payload cursor overflow"@,
        (PayloadFaultModel::LengthOverflow, Wording::Inspect) => "string offset overflow"@,
        (PayloadFaultModel::UnexpectedEnd { position, needed, in_string }, Wording::Open) =>
            two_numbers(
                "unexpected end of payload at byte "@,
                position as nat,
                ", need "@,
                needed as nat,
            ) + " more bytes"@,
        (PayloadFaultModel::UnexpectedEnd { position, needed, in_string }, Wording::Inspect) =>
            if in_string {
                "unexpected end of string"@
            } else {
                "unexpected end of payload"@
            },
        (PayloadFaultModel::InvalidText { message }, Wording::Open) =>
            "string is not valid UTF-8: "@ + message,
        (PayloadFaultModel::InvalidText { message }, Wording::Inspect) => "invalid UTF-8: "@
            + message,
        (PayloadFaultModel::UnknownOperation { tag }, _) => "unknown operation tag "@ + decimal(
            tag as nat,
        ),
        (PayloadFaultModel::UnknownAtom { tag }, _) => "unknown atom tag "@ + decimal(tag as nat),
        (PayloadFaultModel::TooManyOperations { count }, Wording::Open) => two_numbers(
            "operation count "@,
            count as nat,
            " exceeds limit "@,
            MAX_OPERATIONS_PER_FRAME as nat,
        ),
        (PayloadFaultModel::TooManyOperations { count }, Wording::Inspect) =>
            "operation count exceeds limit"@,
        (PayloadFaultModel::TrailingBytes { extra }, Wording::Open) => decimal(extra as nat)
            + " trailing payload bytes remain"@,
        (PayloadFaultModel::TrailingBytes { extra }, Wording::Inspect) => "payload has "@
            + decimal(extra as nat) + " trailing bytes"@,
    }
}

fn describe_payload_fault(fault: &PayloadFault, wording: Wording) -> (result: String)
    ensures
        result@ == payload_fault_text(fault@, wording),
{
    match (fault, wording) {
        (PayloadFault::LengthUnsupported, Wording::Open) =>
            "string length does not fit this platform".to_owned(),
        (PayloadFault::LengthUnsupported, Wording::Inspect) =>
            "string length does not fit platform".to_owned(),
        (PayloadFault::LengthOverflow, Wording::Open) => "payload cursor overflow".to_owned(),
        (PayloadFault::LengthOverflow, Wording::Inspect) => "string offset overflow".to_owned(),
        (PayloadFault::UnexpectedEnd { position, needed, in_string }, Wording::Open) => {
            let mut out = describe_numbers(
                "unexpected end of payload at byte ",
                *position as u64,
                ", need ",
                *needed as u64,
            );
            out.append(" more bytes");
            out
        },
        (PayloadFault::UnexpectedEnd { position, needed, in_string }, Wording::Inspect) => if *in_string {
            "unexpected end of string".to_owned()
        } else {
            "unexpected end of payload".to_owned()
        },
        (PayloadFault::InvalidText { message }, Wording::Open) => joined(
            "string is not valid UTF-8: ",
            message.as_str(),
        ),
        (PayloadFault::InvalidText { message }, Wording::Inspect) => joined(
            "invalid UTF-8: ",
            message.as_str(),
        ),
        (PayloadFault::UnknownOperation { tag }, _) => labelled(
            "unknown operation tag ",
            *tag as u64,
        ),
        (PayloadFault::UnknownAtom { tag }, _) => labelled("unknown atom tag ", *tag as u64),
        (PayloadFault::TooManyOperations { count }, Wording::Open) => describe_numbers(
            "operation count ",
            *count,
            " exceeds limit ",
            MAX_OPERATIONS_PER_FRAME,
        ),
        (PayloadFault::TooManyOperations { count }, Wording::Inspect) =>
            "operation count exceeds limit".to_owned(),
        (PayloadFault::TrailingBytes { extra }, Wording::Open) => {
            let mut out = labelled("", *extra as u64);
            out.append(" trailing payload bytes remain");
            proof {
                reveal_strlit("");
                assert(""@ + decimal(*extra as nat) =~= decimal(*extra as nat));
            }
            out
        },
        (PayloadFault::TrailingBytes { extra }, Wording::Inspect) => {
            let mut out = labelled("payload has ", *extra as u64);
            out.append(" trailing bytes");
            out
        },
    }
}

/// Why `frame` does not continue a history that ends at `tail`, in the words of an append.
pub open spec fn append_fault(tail: (WorldId, u64), frame: FrameModel) -> Option<Seq<char>> {
    if frame.parent_world != tail.0 {
        Some(two_worlds("expected parent "@, tail.0, ", found "@, frame.parent_world))
    } else if frame.parent_version != tail.1 {
        Some(
            two_numbers(
                "expected parent version "@,
                tail.1 as nat,
                ", found "@,
                frame.parent_version as nat,
            ),
        )
    } else if tail.1 == u64::MAX {
        Some("world version overflow"@)
    } else if frame.resulting_version != tail.1 + 1 {
        Some(
            two_numbers(
                "expected resulting version "@,
                (tail.1 + 1) as nat,
                ", found "@,
                frame.resulting_version as nat,
            ),
        )
    } else {
        None
    }
}

/// Why a decoded frame does not continue the frames in front of it.
pub open spec fn position_fault(
    tail: (WorldId, u64),
    frame: FrameModel,
    wording: Wording,
) -> Option<Seq<char>> {
    match wording {
        Wording::Open => append_fault(tail, frame),
        Wording::Inspect => if frame.parent_world != tail.0 {
            Some("decoded parent world is nonlinear"@)
        } else if frame.parent_version != tail.1 || frame.resulting_version != tail.1 + 1 {
            Some("decoded world version is nonlinear"@)
        } else {
            None
        },
    }
}

pub open spec fn optional_text(text: Option<String>) -> Option<Seq<char>> {
    match text {
        Some(text) => Some(text@),
        None => None,
    }
}

pub(crate) fn find_append_fault(world: WorldId, version: u64, frame: &CommitFrame) -> (result: Option<String>)
    ensures
        optional_text(result) == append_fault((world, version), frame@),
{
    if frame.parent_world().0 != world.0 {
        Some(describe_worlds("expected parent ", world, ", found ", frame.parent_world()))
    } else if frame.parent_version() != version {
        Some(
            describe_numbers(
                "expected parent version ",
                version,
                ", found ",
                frame.parent_version(),
            ),
        )
    } else if version == u64::MAX {
        Some("world version overflow".to_owned())
    } else if frame.resulting_version() != version + 1 {
        Some(
            describe_numbers(
                "expected resulting version ",
                version + 1,
                ", found ",
                frame.resulting_version(),
            ),
        )
    } else {
        None
    }
}

fn find_position_fault(
    world: WorldId,
    version: u64,
    frame: &CommitFrame,
    wording: Wording,
) -> (result: Option<String>)
    ensures
        optional_text(result) == position_fault((world, version), frame@, wording),
{
    match wording {
        Wording::Open => find_append_fault(world, version, frame),
        Wording::Inspect => if frame.parent_world().0 != world.0 {
            Some("decoded parent world is nonlinear".to_owned())
        } else if frame.parent_version() != version || version == u64::MAX
            || frame.resulting_version() != version + 1 {
            Some("decoded world version is nonlinear".to_owned())
        } else {
            None
        },
    }
}

/// Identity and version of the last world of a history.
pub fn history_tail(frames: &[Arc<CommitFrame>]) -> (result: (WorldId, u64))
    ensures
        result == tail_of(views(frames@)),
{
    if frames.len() == 0 {
        (WorldId::genesis(), 0)
    } else {
        let last = &frames[frames.len() - 1];
        (last.resulting_world(), last.resulting_version())
    }
}

/// Accepts `frame` as the next of a history exactly when it continues it.
pub fn validate_append(frames: &[Arc<CommitFrame>], frame: &CommitFrame) -> (result: Result<
    (),
    FileCommitStoreError,
>)
    ensures
        match append_fault(tail_of(views(frames@)), frame@) {
            None => result is Ok,
            Some(reason) => result matches Err(error) && error@ == FileErrorModel::NonLinearAppend(
                reason,
            ),
        },
        result is Ok <==> follows(tail_of(views(frames@)), frame@),
{
    let (world, version) = history_tail(frames);
    match find_append_fault(world, version, frame) {
        Some(reason) => Err(FileCommitStoreError::NonLinearAppend(reason)),
        None => Ok(()),
    }
}

/// What stands in a log at one position.
pub enum RecordModel {
    /// The file ends before a record does.
    Incomplete,
    Corrupt(Seq<char>),
    /// A frame and the position behind its record.
    Complete(FrameModel, int),
}

pub open spec fn checksum_text(expected: u64, actual: u64, wording: Wording) -> Seq<char> {
    match wording {
        Wording::Open => "checksum mismatch: expected "@ + hex_digits(expected as nat, 16)
            + ", calculated "@ + hex_digits(actual as nat, 16),
        Wording::Inspect => "checksum mismatch"@,
    }
}

/// Reads one record.
pub open spec fn record_at(bytes: Seq<u8>, offset: int, wording: Wording) -> RecordModel {
    let remaining = bytes.len() - offset;
    let length = u64_at(bytes, offset + 4);
    let payload = bytes.subrange(offset + 20, offset + 20 + length);
    if remaining < 20 {
        RecordModel::Incomplete
    } else if bytes.subrange(offset, offset + 4) != frame_magic() {
        RecordModel::Corrupt("frame magic does not match FRM1"@)
    } else if length > MAX_FRAME_BYTES {
        RecordModel::Corrupt(
            "declared payload length "@ + decimal(length as nat) + " exceeds limit"@,
        )
    } else if remaining < 24 + length {
        RecordModel::Incomplete
    } else if bytes.subrange(offset + 20 + length, offset + 24 + length) != end_magic() {
        RecordModel::Corrupt("completion trailer does not match END1"@)
    } else if fnv(payload) != u64_at(bytes, offset + 12) {
        RecordModel::Corrupt(checksum_text(u64_at(bytes, offset + 12), fnv(payload), wording))
    } else {
        match parse_payload(payload) {
            Err(fault) => RecordModel::Corrupt(
                match wording {
                    Wording::Open => "invalid payload: "@ + payload_fault_text(fault, wording),
                    Wording::Inspect => payload_fault_text(fault, wording),
                },
            ),
            Ok(frame) => RecordModel::Complete(frame, offset + 24 + length),
        }
    }
}

/// Reads records from `offset` on, behind the frames in `done`: all frames up to an incomplete
/// record or the end, and where the last of them ends; or the first fault.
pub open spec fn scan(
    bytes: Seq<u8>,
    offset: int,
    done: Seq<FrameModel>,
    wording: Wording,
) -> Result<(Seq<FrameModel>, int), FileErrorModel>
    decreases bytes.len() - offset,
{
    match record_at(bytes, offset, wording) {
        RecordModel::Incomplete => Ok((done, offset)),
        RecordModel::Corrupt(reason) => Err(
            FileErrorModel::CorruptFrame { offset: offset as u64, reason },
        ),
        RecordModel::Complete(frame, next) => match position_fault(tail_of(done), frame, wording) {
            Some(reason) => Err(FileErrorModel::CorruptFrame { offset: offset as u64, reason }),
            None => if next > offset {
                scan(bytes, next, done.push(frame), wording)
            } else {
                Ok((done, offset))
            },
        },
    }
}

/// Reads a whole log file.
pub open spec fn read_log(bytes: Seq<u8>, wording: Wording) -> Result<
    (Seq<FrameModel>, int),
    FileErrorModel,
> {
    if bytes.len() < 16 {
        Err(FileErrorModel::InvalidHeader("header is incomplete"@))
    } else if bytes.subrange(0, 8) != file_magic() {
        Err(FileErrorModel::InvalidHeader("magic bytes do not match FTHDB001"@))
    } else if u32_at(bytes, 8) != FILE_VERSION {
        Err(FileErrorModel::UnsupportedFormat(u32_at(bytes, 8)))
    } else if u32_at(bytes, 12) != 0 {
        Err(
            FileErrorModel::InvalidHeader(
                "unsupported header flags 0x"@ + hex_digits(u32_at(bytes, 12) as nat, 8),
            ),
        )
    } else {
        scan(bytes, 16, Seq::empty(), wording)
    }
}

/// Whether four bytes at `at` are `piece`.
pub fn four_at(bytes: &[u8], at: usize, piece: [u8; 4]) -> (result: bool)
    requires
        at + 4 <= bytes.len(),
    ensures
        result == (bytes@.subrange(at as int, at + 4) == piece@),
{
    let equal = bytes[at] == piece[0] && bytes[at + 1] == piece[1] && bytes[at + 2] == piece[2]
        && bytes[at + 3] == piece[3];
    proof {
        let found = bytes@.subrange(at as int, at + 4);
        assert(found[0] == bytes@[at as int] && found[1] == bytes@[at + 1] && found[2] == bytes@[at
            + 2] && found[3] == bytes@[at + 3]);
        if equal {
            assert(found =~= piece@);
        }
    }
    equal
}

/// Whether eight bytes at `at` are `piece`.
pub fn eight_at(bytes: &[u8], at: usize, piece: [u8; 8]) -> (result: bool)
    requires
        at + 8 <= bytes.len(),
    ensures
        result == (bytes@.subrange(at as int, at + 8) == piece@),
{
    let found = vstd::slice::slice_subrange(bytes, at, at + 8);
    let mut index: usize = 0;
    while index < 8
        invariant
            index <= 8,
            found@ == bytes@.subrange(at as int, at + 8),
            found.len() == 8,
            forall|k: int| 0 <= k < index ==> found@[k] == piece@[k],
        decreases 8 - index,
    {
        if found[index] != piece[index] {
            return false;
        }
        index += 1;
    }
    proof {
        assert(found@ =~= piece@);
    }
    true
}

fn corrupt(offset: usize, reason: String) -> (result: FileCommitStoreError)
    ensures
        result@ == (FileErrorModel::CorruptFrame { offset: offset as u64, reason: reason@ }),
{
    FileCommitStoreError::CorruptFrame { offset: offset as u64, reason }
}

fn check_header(bytes: &[u8]) -> (result: Result<(), FileCommitStoreError>)
    ensures
        match result {
            Ok(()) => bytes.len() >= 16 && forall|wording: Wording| #[trigger]
                read_log(bytes@, wording) == scan(bytes@, 16, Seq::empty(), wording),
            Err(error) => forall|wording: Wording| #[trigger]
                read_log(bytes@, wording) == Err::<(Seq<FrameModel>, int), FileErrorModel>(
                    error@,
                ),
        },
{
    if bytes.len() < 16 {
        return Err(FileCommitStoreError::InvalidHeader("header is incomplete".to_owned()));
    }
    let magic: [u8; 8] = [0x46u8, 0x54, 0x48, 0x44, 0x42, 0x30, 0x30, 0x31];
    proof {
        assert(magic@ =~= file_magic());
    }
    if !eight_at(bytes, 0, magic) {
        return Err(
            FileCommitStoreError::InvalidHeader("magic bytes do not match FTHDB001".to_owned()),
        );
    }
    let version: u32 = fixed_u32(bytes, 8);
    if version != FILE_VERSION {
        return Err(FileCommitStoreError::UnsupportedFormat(version));
    }
    let flags: u32 = fixed_u32(bytes, 12);
    if flags != 0 {
        let mut out = "unsupported header flags 0x".to_owned();
        push_hex(&mut out, flags as u64, 8);
        return Err(FileCommitStoreError::InvalidHeader(out));
    }
    Ok(())
}

/// One record, read.
enum RecordRead {
    Incomplete,
    Corrupt(String),
    Complete(CommitFrame, usize),
}

fn read_record(bytes: &[u8], offset: usize, wording: Wording) -> (result: RecordRead)
    requires
        offset <= bytes.len(),
    ensures
        match (result, record_at(bytes@, offset as int, wording)) {
            (RecordRead::Incomplete, RecordModel::Incomplete) => true,
            (RecordRead::Corrupt(reason), RecordModel::Corrupt(model)) => reason@ == model,
            (RecordRead::Complete(frame, next), RecordModel::Complete(model, end)) => frame@
                == model && next == end && offset < next <= bytes.len(),
            _ => false,
        },
{
    let remaining: usize = bytes.len() - offset;
    if remaining < 20 {
        return RecordRead::Incomplete;
    }
    let magic: [u8; 4] = [0x46u8, 0x52, 0x4d, 0x31];
    let trailer: [u8; 4] = [0x45u8, 0x4e, 0x44, 0x31];
    proof {
        assert(magic@ =~= frame_magic());
        assert(trailer@ =~= end_magic());
    }
    if !four_at(bytes, offset, magic) {
        return RecordRead::Corrupt("frame magic does not match FRM1".to_owned());
    }
    let length: u64 = fixed_u64(bytes, offset + 4);
    if length > MAX_FRAME_BYTES {
        let mut out = labelled("declared payload length ", length);
        out.append(" exceeds limit");
        return RecordRead::Corrupt(out);
    }
    let length: usize = length as usize;
    if remaining < 24 + length {
        return RecordRead::Incomplete;
    }
    let expected: u64 = fixed_u64(bytes, offset + 12);
    if !four_at(bytes, offset + 20 + length, trailer) {
        return RecordRead::Corrupt("completion trailer does not match END1".to_owned());
    }
    let payload = vstd::slice::slice_subrange(bytes, offset + 20, offset + 20 + length);
    let actual: u64 = digest(payload);
    if actual != expected {
        return RecordRead::Corrupt(
            match wording {
                Wording::Open => {
                    let mut out = "checksum mismatch: expected ".to_owned();
                    push_hex(&mut out, expected, 16);
                    out.append(", calculated ");
                    push_hex(&mut out, actual, 16);
                    out
                },
                Wording::Inspect => "checksum mismatch".to_owned(),
            },
        );
    }
    match decode_payload(payload) {
        Err(fault) => RecordRead::Corrupt(
            match wording {
                Wording::Open => joined(
                    "invalid payload: ",
                    describe_payload_fault(&fault, wording).as_str(),
                ),
                Wording::Inspect => describe_payload_fault(&fault, wording),
            },
        ),
        Ok(frame) => RecordRead::Complete(frame, offset + 24 + length),
    }
}

/// A reading of a log agrees with what the file holds.
pub open spec fn log_agrees(
    result: Result<(Vec<Arc<CommitFrame>>, usize), FileCommitStoreError>,
    expected: Result<(Seq<FrameModel>, int), FileErrorModel>,
) -> bool {
    match (result, expected) {
        (Ok((frames, offset)), Ok((models, end))) => views(frames@) == models && offset == end,
        (Err(error), Err(model)) => error@ == model,
        _ => false,
    }
}

fn scan_file(bytes: &[u8], wording: Wording) -> (result: Result<
    (Vec<Arc<CommitFrame>>, usize),
    FileCommitStoreError,
>)
    ensures
        log_agrees(result, read_log(bytes@, wording)),
        result matches Ok((frames, offset)) ==> FILE_HEADER_LEN <= offset <= bytes.len(),
{
    check_header(bytes)?;
    let mut frames: Vec<Arc<CommitFrame>> = Vec::new();
    let mut offset: usize = 16;
    proof {
        assert(views(frames@) =~= Seq::empty());
    }
    loop
        invariant
            16 <= offset <= bytes.len(),
            read_log(bytes@, wording) == scan(bytes@, offset as int, views(frames@), wording),
        decreases bytes.len() - offset,
    {
        match read_record(bytes, offset, wording) {
            RecordRead::Incomplete => {
                return Ok((frames, offset));
            },
            RecordRead::Corrupt(reason) => {
                return Err(corrupt(offset, reason));
            },
            RecordRead::Complete(frame, next) => {
                let (world, version) = history_tail(frames.as_slice());
                match find_position_fault(world, version, &frame, wording) {
                    Some(reason) => {
                        return Err(corrupt(offset, reason));
                    },
                    None => {
                        let shared = Arc::new(frame);
                        proof {
                            views_push(frames@, shared);
                        }
                        frames.push(shared);
                        offset = next;
                    },
                }
            },
        }
    }
}

/// Reads a log file that is being opened: its frames, and where the last complete one ends.
pub fn decode_file(bytes: &[u8]) -> (result: Result<
    (Vec<Arc<CommitFrame>>, usize),
    FileCommitStoreError,
>)
    ensures
        log_agrees(result, read_log(bytes@, Wording::Open)),
        result matches Ok((frames, offset)) ==> FILE_HEADER_LEN <= offset <= bytes.len(),
{
    scan_file(bytes, Wording::Open)
}

/// Reads a log file between epochs: its frames, and where the last complete one ends.
pub fn inspect_file(bytes: &[u8]) -> (result: Result<
    (Vec<Arc<CommitFrame>>, usize),
    FileCommitStoreError,
>)
    ensures
        log_agrees(result, read_log(bytes@, Wording::Inspect)),
        result matches Ok((frames, offset)) ==> FILE_HEADER_LEN <= offset <= bytes.len(),
{
    scan_file(bytes, Wording::Inspect)
}

/// The header of a new log file.
pub fn encode_header() -> (result: Vec<u8>)
    ensures
        result@ == header_bytes(),
{
    let mut out: Vec<u8> = vec![0x46u8, 0x54, 0x48, 0x44, 0x42, 0x30, 0x30, 0x31];
    proof {
        assert(out@ =~= file_magic());
    }
    put_u32(&mut out, FILE_VERSION);
    put_u32(&mut out, 0);
    out
}

/// Puts a payload between its prefix, which starts with `magic`, and its trailer.
pub fn frame_with(magic: [u8; 4], payload: &[u8]) -> (result: Vec<u8>)
    ensures
        result@ == framed_bytes(magic@, payload@),
{
    let mut out: Vec<u8> = Vec::new();
    put_bytes(&mut out, magic.as_slice());
    proof {
        assert(out@ =~= magic@);
    }
    put_u64(&mut out, payload.len() as u64);
    put_u64(&mut out, digest(payload));
    put_bytes(&mut out, payload);
    let trailer: [u8; 4] = [0x45u8, 0x4e, 0x44, 0x31];
    proof {
        assert(trailer@ =~= end_magic());
    }
    put_bytes(&mut out, trailer.as_slice());
    out
}

/// The record of a payload that is known to be short enough.
pub fn frame_payload(payload: &[u8]) -> (result: Vec<u8>)
    ensures
        result@ == framed_bytes(frame_magic(), payload@),
{
    let magic: [u8; 4] = [0x46u8, 0x52, 0x4d, 0x31];
    proof {
        assert(magic@ =~= frame_magic());
    }
    frame_with(magic, payload)
}

pub open spec fn oversize_text(length: nat) -> Seq<char> {
    two_numbers("encoded frame payload is "@, length, " bytes, limit is "@, MAX_FRAME_BYTES as nat)
}

/// Encodes the record of a frame, unless its payload is too long.
pub fn encode_record(frame: &CommitFrame) -> (result: Result<Vec<u8>, FileCommitStoreError>)
    ensures
        match result {
            Ok(record) => payload_bytes(frame@).len() <= MAX_FRAME_BYTES && record@
                == record_bytes(frame@),
            Err(error) => payload_bytes(frame@).len() > MAX_FRAME_BYTES && error@
                == FileErrorModel::NonLinearAppend(oversize_text(payload_bytes(frame@).len())),
        },
{
    let payload = encode_payload(frame);
    if payload.len() as u64 > MAX_FRAME_BYTES {
        return Err(
            FileCommitStoreError::NonLinearAppend(
                describe_numbers(
                    "encoded frame payload is ",
                    payload.len() as u64,
                    " bytes, limit is ",
                    MAX_FRAME_BYTES,
                ),
            ),
        );
    }
    Ok(frame_payload(payload.as_slice()))
}

} // verus!
