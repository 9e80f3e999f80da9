//! Chunked transfer of file content.
//!
//! A file's bytes move as an ordered sequence of `FileSync` messages with
//! strictly contiguous offsets and a bounded payload, the last one carrying
//! the authoritative end-of-file mark. The receiver keeps at most one
//! destination open at a time and treats any gap, overlap or missing
//! end-of-file mark as a protocol error.
use crate::pathcmp::{lex_compare, PathOrdering};
use crate::snapshot::clone_bytes;
use vstd::prelude::*;
use vstd::slice::{slice_subrange, slice_to_vec};

verus! {

/// Default bound on a chunk's payload, in bytes.
pub const DEFAULT_MAX_CHUNK_BYTES: usize = 8192;

/// One chunk of file content on the wire: the session it belongs to, the
/// destination path, the position of the payload in the file, and whether
/// this chunk ends the file.
pub struct FileSync {
    pub sync_uuid: u128,
    pub path: Vec<u8>,
    pub chunk: Vec<u8>,
    pub offset: i64,
    pub is_final: bool,
}

/// Mathematical value of a chunk.
pub struct FileSyncV {
    pub sync_uuid: u128,
    pub path: Seq<u8>,
    pub chunk: Seq<u8>,
    pub offset: int,
    pub is_final: bool,
}

impl View for FileSync {
    type V = FileSyncV;

    open spec fn view(&self) -> FileSyncV {
        FileSyncV {
            sync_uuid: self.sync_uuid,
            path: self.path@,
            chunk: self.chunk@,
            offset: self.offset as int,
            is_final: self.is_final,
        }
    }
}

/// The chunks of a transfer, as mathematical values.
pub open spec fn chunks_view(chunks: Seq<FileSync>) -> Seq<FileSyncV> {
    chunks.map_values(|c: FileSync| c@)
}

/// The chunk sequence for `data` starting at file offset `off`: pieces of
/// exactly `max` bytes, then one final piece of what remains. Only the last
/// chunk carries the end-of-file mark.
pub open spec fn chunks_from(
    sync_uuid: u128,
    path: Seq<u8>,
    data: Seq<u8>,
    max: int,
    off: int,
) -> Seq<FileSyncV>
    decreases data.len(),
{
    if max < 1 || data.len() <= max {
        seq![
            FileSyncV { sync_uuid, path, chunk: data, offset: off, is_final: true },
        ]
    } else {
        seq![
            FileSyncV { sync_uuid, path, chunk: data.take(max), offset: off, is_final: false },
        ] + chunks_from(sync_uuid, path, data.skip(max), max, off + max)
    }
}

/// The chunk sequence for a whole file.
pub open spec fn chunks_of(sync_uuid: u128, path: Seq<u8>, data: Seq<u8>, max: int) -> Seq<
    FileSyncV,
> {
    chunks_from(sync_uuid, path, data, max, 0)
}

/// The file content that a chunk sequence carries: its payloads appended
/// in order.
pub open spec fn payload_concat(chunks: Seq<FileSyncV>) -> Seq<u8>
    decreases chunks.len(),
{
    if chunks.len() == 0 {
        Seq::empty()
    } else {
        chunks[0].chunk + payload_concat(chunks.skip(1))
    }
}

/// Splitting a file into bounded chunks and appending the payloads back in
/// offset order yields byte-identical content, for any chunk bound.
pub proof fn lemma_chunk_round_trip(
    sync_uuid: u128,
    path: Seq<u8>,
    data: Seq<u8>,
    max: int,
    off: int,
)
    ensures
        payload_concat(chunks_from(sync_uuid, path, data, max, off)) == data,
    decreases data.len(),
{
    if max < 1 || data.len() <= max {
        let head = FileSyncV { sync_uuid, path, chunk: data, offset: off, is_final: true };
        let s = chunks_from(sync_uuid, path, data, max, off);
        assert(s == seq![head]);
        assert(s[0] == head);
        assert(s.skip(1) =~= Seq::<FileSyncV>::empty());
        assert(payload_concat(s.skip(1)) == Seq::<u8>::empty());
        assert(payload_concat(s) =~= data);
    } else {
        lemma_chunk_round_trip(sync_uuid, path, data.skip(max), max, off + max);
        let rest = chunks_from(sync_uuid, path, data.skip(max), max, off + max);
        let head = FileSyncV {
            sync_uuid,
            path,
            chunk: data.take(max),
            offset: off,
            is_final: false,
        };
        let s = seq![head] + rest;
        assert(s[0] == head);
        assert(s.skip(1) =~= rest);
        assert(payload_concat(s) =~= data.take(max) + data.skip(max));
        assert(data.take(max) + data.skip(max) =~= data);
    }
}

/// Shape of a chunk sequence: at least one chunk; the first starts at
/// `off`; offsets are contiguous, with no gap and no overlap; every payload
/// is bounded by `max` and every payload but the last fills it; exactly the
/// last chunk carries the end-of-file mark; all chunks carry the session
/// and the path.
pub proof fn lemma_chunk_shape(sync_uuid: u128, path: Seq<u8>, data: Seq<u8>, max: int, off: int)
    requires
        max >= 1,
    ensures
        ({
            let s = chunks_from(sync_uuid, path, data, max, off);
            &&& s.len() >= 1
            &&& s[0].offset == off
            &&& forall|i: int|
                1 <= i < s.len() ==> (#[trigger] s[i]).offset == s[i - 1].offset + s[i
                    - 1].chunk.len()
            &&& forall|i: int| 0 <= i < s.len() ==> (#[trigger] s[i]).chunk.len() <= max
            &&& forall|i: int| 0 <= i < s.len() - 1 ==> (#[trigger] s[i]).chunk.len() == max
            &&& forall|i: int|
                0 <= i < s.len() ==> ((#[trigger] s[i]).is_final <==> i == s.len() - 1)
            &&& forall|i: int|
                0 <= i < s.len() ==> (#[trigger] s[i]).sync_uuid == sync_uuid && s[i].path == path
        }),
    decreases data.len(),
{
    let s = chunks_from(sync_uuid, path, data, max, off);
    if data.len() <= max {
    } else {
        lemma_chunk_shape(sync_uuid, path, data.skip(max), max, off + max);
        let rest = chunks_from(sync_uuid, path, data.skip(max), max, off + max);
        assert forall|i: int| 0 <= i < s.len() implies ((#[trigger] s[i]).chunk.len() <= max && (
        s[i].is_final <==> i == s.len() - 1) && s[i].sync_uuid == sync_uuid && s[i].path
            == path) by {
            if i > 0 {
                assert(s[i] == rest[i - 1]);
            }
        }
        assert forall|i: int| 0 <= i < s.len() - 1 implies (#[trigger] s[i]).chunk.len()
            == max by {
            if i > 0 {
                assert(s[i] == rest[i - 1]);
            }
        }
        assert forall|i: int| 1 <= i < s.len() implies (#[trigger] s[i]).offset == s[i - 1].offset
            + s[i - 1].chunk.len() by {
            assert(s[i] == rest[i - 1]);
            if i > 1 {
                assert(s[i - 1] == rest[i - 2]);
            }
        }
    }
}

/// What the receiver must do with an arriving chunk.
#[derive(Clone, Copy, PartialEq, Eq, Structural, Debug)]
pub enum ReceiverAction {
    /// First chunk of a new file: create or truncate the destination, then
    /// write the payload.
    StartWrite,
    /// Next chunk of the open file: append the payload.
    AppendWrite,
    /// Protocol error: a gap or overlap in offsets, a path change before
    /// the end-of-file mark, or an offset past the representable range.
    /// The transfer must abort; the receiver state is unchanged.
    Reject,
}

/// Receiver side of a transfer: at most one destination is open at a time,
/// identified by its path, with the offset the next chunk must carry.
pub struct ReceiverState {
    pub current_path: Option<Vec<u8>>,
    pub expected_offset: i64,
}

/// Mathematical value of the receiver state.
pub struct ReceiverStateV {
    pub current_path: Option<Seq<u8>>,
    pub expected_offset: int,
}

impl View for ReceiverState {
    type V = ReceiverStateV;

    open spec fn view(&self) -> ReceiverStateV {
        ReceiverStateV {
            current_path: match self.current_path {
                Some(ref p) => Some(p@),
                None => None,
            },
            expected_offset: self.expected_offset as int,
        }
    }
}

/// The receiver's transition relation: the state after a chunk arrives and
/// the action the chunk demands. A chunk is accepted only if it opens a
/// new file at offset zero, or continues the open file exactly at the
/// expected offset; its end-of-file mark closes the file.
pub open spec fn receive_step(st: ReceiverStateV, c: FileSyncV) -> (ReceiverStateV, ReceiverAction) {
    match st.current_path {
        None => {
            if c.offset == 0 && c.chunk.len() <= i64::MAX {
                if c.is_final {
                    (
                        ReceiverStateV { current_path: None, expected_offset: 0 },
                        ReceiverAction::StartWrite,
                    )
                } else {
                    (
                        ReceiverStateV {
                            current_path: Some(c.path),
                            expected_offset: c.chunk.len() as int,
                        },
                        ReceiverAction::StartWrite,
                    )
                }
            } else {
                (st, ReceiverAction::Reject)
            }
        },
        Some(p) => {
            if p == c.path && c.offset == st.expected_offset && st.expected_offset + c.chunk.len()
                <= i64::MAX {
                if c.is_final {
                    (
                        ReceiverStateV { current_path: None, expected_offset: 0 },
                        ReceiverAction::AppendWrite,
                    )
                } else {
                    (
                        ReceiverStateV {
                            current_path: Some(p),
                            expected_offset: st.expected_offset + c.chunk.len(),
                        },
                        ReceiverAction::AppendWrite,
                    )
                }
            } else {
                (st, ReceiverAction::Reject)
            }
        },
    }
}

impl ReceiverState {
    /// Well-formedness: the expected offset never runs backwards past zero.
    pub open spec fn wf(&self) -> bool {
        self.expected_offset >= 0
    }

    /// A receiver with no destination open.
    pub fn new() -> (r: ReceiverState)
        ensures
            r.wf(),
            r@.current_path is None,
            r@.expected_offset == 0,
    {
        ReceiverState { current_path: None, expected_offset: 0 }
    }

    /// Feeds one arriving chunk to the receiver, returning what to do with
    /// it; the state advances exactly as `receive_step` says.
    pub fn accept(&mut self, chunk: &FileSync) -> (r: ReceiverAction)
        requires
            old(self).wf(),
        ensures
            final(self).wf(),
            (final(self)@, r) == receive_step(old(self)@, chunk@),
    {
        let is_open = self.current_path.is_some();
        if !is_open {
            if chunk.offset == 0 && chunk.chunk.len() as u128 <= i64::MAX as u128 {
                if chunk.is_final {
                    self.current_path = None;
                    self.expected_offset = 0;
                } else {
                    self.current_path = Some(clone_bytes(&chunk.path));
                    self.expected_offset = chunk.chunk.len() as i64;
                }
                ReceiverAction::StartWrite
            } else {
                ReceiverAction::Reject
            }
        } else {
            let same = match &self.current_path {
                Some(p) => lex_compare(p, &chunk.path) == PathOrdering::Equal,
                None => false,
            };
            let len_ok = chunk.chunk.len() as u128 <= (i64::MAX - self.expected_offset) as u128;
            if same && chunk.offset == self.expected_offset && len_ok {
                if chunk.is_final {
                    self.current_path = None;
                    self.expected_offset = 0;
                } else {
                    self.expected_offset = self.expected_offset + chunk.chunk.len() as i64;
                }
                ReceiverAction::AppendWrite
            } else {
                ReceiverAction::Reject
            }
        }
    }
}

/// The receiver's state after a whole chunk sequence arrives, and whether
/// it accepted every chunk; a rejected chunk stops the run.
pub open spec fn run_receiver(st: ReceiverStateV, chunks: Seq<FileSyncV>) -> (ReceiverStateV, bool)
    decreases chunks.len(),
{
    if chunks.len() == 0 {
        (st, true)
    } else {
        let step = receive_step(st, chunks[0]);
        if step.1 == ReceiverAction::Reject {
            (step.0, false)
        } else {
            run_receiver(step.0, chunks.skip(1))
        }
    }
}

/// A receiver already reading this file at the right offset accepts the
/// rest of a conforming chunk sequence and ends with the file closed.
proof fn lemma_receiver_accepts_from(
    sync_uuid: u128,
    path: Seq<u8>,
    data: Seq<u8>,
    max: int,
    off: int,
    st: ReceiverStateV,
)
    requires
        max >= 1,
        0 <= off,
        off + data.len() <= i64::MAX,
        st.current_path == Some(path),
        st.expected_offset == off,
    ensures
        ({
            let r = run_receiver(st, chunks_from(sync_uuid, path, data, max, off));
            r.1 && r.0.current_path is None
        }),
    decreases data.len(),
{
    let chunks = chunks_from(sync_uuid, path, data, max, off);
    if data.len() <= max {
        let c = FileSyncV { sync_uuid, path, chunk: data, offset: off, is_final: true };
        assert(chunks == seq![c]);
        assert(chunks[0] == c);
        assert(chunks.skip(1) =~= Seq::<FileSyncV>::empty());
        let step = receive_step(st, c);
        assert(step.1 == ReceiverAction::AppendWrite);
        assert(step.0 == (ReceiverStateV { current_path: None, expected_offset: 0 }));
        assert(run_receiver(step.0, Seq::<FileSyncV>::empty()) == (step.0, true));
        assert(run_receiver(st, chunks) == (step.0, true));
    } else {
        let c = FileSyncV { sync_uuid, path, chunk: data.take(max), offset: off, is_final: false };
        let rest = chunks_from(sync_uuid, path, data.skip(max), max, off + max);
        assert(chunks == seq![c] + rest);
        assert(chunks[0] == c);
        assert(chunks.skip(1) =~= rest);
        let step = receive_step(st, c);
        assert(step.1 == ReceiverAction::AppendWrite);
        assert(step.0.current_path == Some(path) && step.0.expected_offset == off + max);
        lemma_receiver_accepts_from(sync_uuid, path, data.skip(max), max, off + max, step.0);
        assert(run_receiver(st, chunks) == run_receiver(step.0, rest));
    }
}

/// A fresh receiver accepts the whole chunk sequence of any file and ends
/// with the file closed: a conforming sender is never rejected.
pub proof fn lemma_conforming_transfer_accepted(
    sync_uuid: u128,
    path: Seq<u8>,
    data: Seq<u8>,
    max: int,
)
    requires
        max >= 1,
        data.len() <= i64::MAX,
    ensures
        ({
            let fresh = ReceiverStateV { current_path: None, expected_offset: 0 };
            let r = run_receiver(fresh, chunks_of(sync_uuid, path, data, max));
            r.1 && r.0.current_path is None
        }),
{
    let fresh = ReceiverStateV { current_path: None, expected_offset: 0 };
    let chunks = chunks_of(sync_uuid, path, data, max);
    if data.len() <= max {
        let c = FileSyncV { sync_uuid, path, chunk: data, offset: 0, is_final: true };
        assert(chunks == seq![c]);
        assert(chunks[0] == c);
        assert(chunks.skip(1) =~= Seq::<FileSyncV>::empty());
        let step = receive_step(fresh, c);
        assert(step.1 == ReceiverAction::StartWrite);
        assert(step.0 == (ReceiverStateV { current_path: None, expected_offset: 0 }));
        assert(run_receiver(step.0, Seq::<FileSyncV>::empty()) == (step.0, true));
        assert(run_receiver(fresh, chunks) == (step.0, true));
    } else {
        let c = FileSyncV { sync_uuid, path, chunk: data.take(max), offset: 0, is_final: false };
        let rest = chunks_from(sync_uuid, path, data.skip(max), max, max);
        assert(chunks == seq![c] + rest);
        assert(chunks[0] == c);
        assert(chunks.skip(1) =~= rest);
        let step = receive_step(fresh, c);
        assert(step.1 == ReceiverAction::StartWrite);
        assert(step.0.current_path == Some(path) && step.0.expected_offset == max);
        lemma_receiver_accepts_from(sync_uuid, path, data.skip(max), max, max, step.0);
        assert(run_receiver(fresh, chunks) == run_receiver(step.0, rest));
    }
}

/// Splits a file's bytes into the chunk sequence that the transfer sends:
/// contiguous offsets from zero, payloads bounded by `max_chunk_bytes`, and
/// the end-of-file mark on exactly the last chunk.
pub fn chunk_file(sync_uuid: u128, path: &Vec<u8>, content: &Vec<u8>, max_chunk_bytes: usize) -> (r:
    Vec<FileSync>)
    requires
        max_chunk_bytes >= 1,
        content@.len() <= i64::MAX,
    ensures
        chunks_view(r@) == chunks_of(sync_uuid, path@, content@, max_chunk_bytes as int),
{
    let ghost data = content@;
    let ghost max = max_chunk_bytes as int;
    let mut out: Vec<FileSync> = Vec::new();
    let mut pos: usize = 0;
    proof {
        assert(data.skip(0) =~= data);
        assert(chunks_view(out@) =~= Seq::<FileSyncV>::empty());
    }
    while content.len() - pos > max_chunk_bytes
        invariant
            pos <= content.len(),
            data == content@,
            max == max_chunk_bytes as int,
            max >= 1,
            data.len() <= i64::MAX,
            chunks_view(out@) + chunks_from(sync_uuid, path@, data.skip(pos as int), max, pos as int)
                == chunks_of(sync_uuid, path@, data, max),
        decreases content.len() - pos,
    {
        let ghost acc = chunks_view(out@);
        let ghost tail = data.skip(pos as int);
        let end = pos + max_chunk_bytes;
        let piece = slice_to_vec(slice_subrange(content.as_slice(), pos, end));
        out.push(
            FileSync {
                sync_uuid,
                path: clone_bytes(path),
                chunk: piece,
                offset: pos as i64,
                is_final: false,
            },
        );
        proof {
            let head = FileSyncV {
                sync_uuid,
                path: path@,
                chunk: tail.take(max),
                offset: pos as int,
                is_final: false,
            };
            assert(tail.take(max) =~= data.subrange(pos as int, end as int));
            assert(tail.skip(max) =~= data.skip(end as int));
            assert(chunks_from(sync_uuid, path@, tail, max, pos as int) == seq![head]
                + chunks_from(sync_uuid, path@, data.skip(end as int), max, end as int));
            assert(chunks_view(out@) =~= acc + seq![head]);
            assert(chunks_view(out@) + chunks_from(
                sync_uuid,
                path@,
                data.skip(end as int),
                max,
                end as int,
            ) =~= acc + chunks_from(sync_uuid, path@, tail, max, pos as int));
        }
        pos = end;
    }
    let ghost acc = chunks_view(out@);
    let ghost tail = data.skip(pos as int);
    let piece = slice_to_vec(slice_subrange(content.as_slice(), pos, content.len()));
    out.push(
        FileSync {
            sync_uuid,
            path: clone_bytes(path),
            chunk: piece,
            offset: pos as i64,
            is_final: true,
        },
    );
    proof {
        let head = FileSyncV {
            sync_uuid,
            path: path@,
            chunk: tail,
            offset: pos as int,
            is_final: true,
        };
        assert(tail =~= data.subrange(pos as int, data.len() as int));
        assert(chunks_from(sync_uuid, path@, tail, max, pos as int) == seq![head]);
        assert(chunks_view(out@) =~= acc + seq![head]);
    }
    out
}

} // verus!
