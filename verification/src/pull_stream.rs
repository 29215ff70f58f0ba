//! Sending the project from disk to Studio, service by service, in chunks.
//!
//! A service is read while Studio waits; its structure is sent first, then the
//! sources of its scripts in parts, then, for a selection, what is to be
//! deleted. The service must not change on disk meanwhile.
use std::collections::HashMap;

use vstd::prelude::*;
use vstd::string::*;
use vstd::utf8::*;

use crate::conflict;
use crate::fingerprint::ExactTreeFingerprint;
use crate::flat::FlatSnapshotRecord;
use crate::fs_safety::{same_generation, FileGeneration, TreeGeneration};
use crate::hex;
use crate::packing;
use crate::packing::{pack, STREAM_RESPONSE_PACK_TARGET};
use crate::text::{owned, same, text_from_utf8};

verus! {

broadcast use vstd::std_specs::hash::group_hash_axioms;

pub const STREAM_SOURCE_PART_BYTES: usize = 65_536;

pub const STREAM_SOURCE_PART_CHUNK_NODES: usize = 512;

/// The largest source that is sent.
pub const MAX_STREAM_SOURCE_BYTES: u64 = 33_554_432;

/// How long a transfer may stay without a request, in milliseconds.
pub const STREAM_SESSION_TTL_MS: u64 = 900_000;

/// How long a finished transfer answers repeated requests, in milliseconds.
pub const STREAM_COMPLETED_TTL_MS: u64 = 120_000;

pub const MAX_STREAM_SESSIONS: usize = 32;

pub const MAX_REQUEST_ID_BYTES: usize = 128;

/// What is sent of a service.
#[derive(Debug, Clone, Copy, PartialEq, Eq, Structural)]
pub enum PullPhase {
    Structure,
    Sources,
    Deletes,
}

impl PullPhase {
    pub open spec fn text(self) -> Seq<char> {
        match self {
            PullPhase::Structure => "structure"@,
            PullPhase::Sources => "sources"@,
            PullPhase::Deletes => "deletes"@,
        }
    }
}

pub fn snapshot_phase_name(phase: PullPhase) -> (r: &'static str)
    ensures
        r@ == phase.text(),
{
    match phase {
        PullPhase::Structure => "structure",
        PullPhase::Sources => "sources",
        PullPhase::Deletes => "deletes",
    }
}

/// Why a transfer ends.
#[derive(Debug, Clone, Copy, PartialEq, Eq, Structural)]
pub enum PullProblem {
    /// The reader of the service is gone.
    WorkerLost,
    /// The service could not be read.
    WorkerFailed,
    /// The service changed before its sources were sent.
    ChangedBeforeSources,
    /// The service changed while it was sent.
    ChangedWhileSent,
    /// The first fingerprint is missing.
    NoFingerprint,
    NoPath(u64),
    NoGeneration(u64),
    /// A source changed before it was read.
    ChangedBefore,
    TooLarge,
    /// A source changed while it was read.
    ChangedWhile,
    NotUtf8,
    /// No source is being sent.
    NoActive,
    /// A source changed between two of its parts.
    ChangedBetween,
    OffsetOverflow,
    /// The last part ends in the wrong place.
    WrongEnd,
    /// The size of the reply is not a number of the machine.
    SizeOverflow,
    /// One record alone exceeds the size of a reply.
    RecordTooLarge,
    /// One part alone exceeds the size of a reply.
    PartTooLarge(u64),
    /// One path alone exceeds the size of a reply.
    DeleteTooLarge,
}

/// One part of a source.
#[derive(Debug)]
pub struct StreamSourcePart {
    pub id: u64,
    pub part_index: u64,
    pub offset: u64,
    pub total_bytes: u64,
    pub data: String,
    pub final_part: bool,
    pub sha256: String,
}

/// The source that is being sent.
#[derive(Debug)]
pub struct PullActiveSource {
    pub id: u64,
    pub text: String,
    /// How many bytes were sent.
    pub offset: usize,
    pub part_index: u64,
    pub sha256: String,
    pub generation: FileGeneration,
    pub path: String,
}

impl PullActiveSource {
    pub open spec fn bytes(&self) -> Seq<u8> {
        encode_utf8(self.text@)
    }

    pub open spec fn wf(&self) -> bool {
        &&& self.offset <= self.bytes().len() <= usize::MAX
        &&& is_char_boundary(self.bytes(), self.offset as int)
    }
}

/// The end of the part that begins at `offset`: as far as a part may go without
/// cutting a character.
pub open spec fn part_end(bytes: Seq<u8>, offset: int, limit: int) -> int
    decreases limit - offset,
{
    if limit <= offset || is_char_boundary(bytes, limit) {
        limit
    } else {
        part_end(bytes, offset, limit - 1)
    }
}

pub open spec fn part_limit(bytes: Seq<u8>, offset: int) -> int {
    if offset + STREAM_SOURCE_PART_BYTES <= bytes.len() {
        offset + STREAM_SOURCE_PART_BYTES
    } else {
        bytes.len() as int
    }
}

/// The next part of a source.
pub open spec fn is_part_of(active: PullActiveSource, part: StreamSourcePart) -> bool {
    let bytes = active.bytes();
    let end = part_end(bytes, active.offset as int, part_limit(bytes, active.offset as int));
    &&& part.id == active.id
    &&& part.part_index == active.part_index
    &&& part.offset == active.offset
    &&& part.total_bytes == bytes.len()
    &&& encode_utf8(part.data@) == bytes.subrange(active.offset as int, end)
    &&& part.final_part == (end == bytes.len())
    &&& part.sha256@ == active.sha256@
}

proof fn lemma_part_end(bytes: Seq<u8>, offset: int, limit: int)
    requires
        valid_utf8(bytes),
        0 <= offset <= limit <= bytes.len(),
        is_char_boundary(bytes, offset),
    ensures
        offset <= part_end(bytes, offset, limit) <= limit,
        is_char_boundary(bytes, part_end(bytes, offset, limit)),
    decreases limit - offset,
{
    if limit > offset && !is_char_boundary(bytes, limit) {
        lemma_part_end(bytes, offset, limit - 1);
    }
}

/// A boundary of the whole is one of what begins at an earlier boundary.
proof fn lemma_boundary_in_tail(bytes: Seq<u8>, offset: int, end: int)
    requires
        valid_utf8(bytes),
        0 <= offset <= end <= bytes.len(),
        is_char_boundary(bytes, offset),
    ensures
        valid_utf8(bytes.subrange(offset, bytes.len() as int)),
        is_char_boundary(bytes, end) == is_char_boundary(
            bytes.subrange(offset, bytes.len() as int),
            end - offset,
        ),
{
    let tail = bytes.subrange(offset, bytes.len() as int);
    valid_utf8_split(bytes, offset);
    is_char_boundary_start_end_of_seq(bytes);
    is_char_boundary_start_end_of_seq(tail);
    if end < bytes.len() {
        is_char_boundary_iff_not_is_continuation_byte(bytes, end);
        is_char_boundary_iff_not_is_continuation_byte(tail, end - offset);
        assert(tail[end - offset] == bytes[end]);
    }
}

/// The next part of the source that is being sent.
pub fn pull_source_part(active: &PullActiveSource) -> (part: StreamSourcePart)
    requires
        active.wf(),
    ensures
        is_part_of(*active, part),
{
    let ghost bytes = active.bytes();
    proof {
        encode_utf8_valid_utf8(active.text@);
    }
    let whole = active.text.as_str();
    let len: usize = whole.as_bytes().len();
    let start: usize = active.offset;
    let limit: usize = if len - start > STREAM_SOURCE_PART_BYTES {
        start + STREAM_SOURCE_PART_BYTES
    } else {
        len
    };
    let mut end: usize = limit;
    while end > start && !whole.is_char_boundary(end)
        invariant
            start <= end <= limit <= len,
            bytes == whole.spec_bytes(),
            bytes.len() == len,
            part_end(bytes, start as int, limit as int) == part_end(
                bytes,
                start as int,
                end as int,
            ),
        ensures
            start <= end <= len,
            part_end(bytes, start as int, limit as int) == end,
        decreases end - start,
    {
        end -= 1;
    }
    proof {
        lemma_part_end(bytes, start as int, limit as int);
        lemma_boundary_in_tail(bytes, start as int, end as int);
        is_char_boundary_start_end_of_seq(bytes);
    }
    let (_, tail) = whole.split_at(start);
    let (data, _) = tail.split_at(end - start);
    proof {
        assert(data.spec_bytes() =~= bytes.subrange(start as int, end as int));
    }
    StreamSourcePart {
        id: active.id,
        part_index: active.part_index,
        offset: start as u64,
        total_bytes: len as u64,
        data: owned(data),
        final_part: end == len,
        sha256: owned(active.sha256.as_str()),
    }
}

/// What the reader of a service says.
#[derive(Debug)]
pub enum WorkerPoll {
    Pending,
    Lost,
    Failed,
    Ready(ExactTreeFingerprint),
}

/// A service that is being sent.
#[derive(Debug)]
pub struct PullService {
    pub service: String,
    pub phase: PullPhase,
    pub next_chunk: u64,
    pub records: Vec<FlatSnapshotRecord>,
    pub record_offset: usize,
    pub source_ids: Vec<u64>,
    pub source_paths: HashMap<u64, String>,
    pub source_generations: HashMap<u64, FileGeneration>,
    pub source_index: usize,
    pub active: Option<PullActiveSource>,
    pub deletes: Vec<Vec<String>>,
    pub delete_offset: usize,
    pub generation: TreeGeneration,
    pub initial_fingerprint: Option<ExactTreeFingerprint>,
    /// The service is being read once more.
    pub revalidating: bool,
}

impl PullService {
    pub open spec fn wf(&self) -> bool {
        &&& self.record_offset <= self.records@.len()
        &&& self.source_index <= self.source_ids@.len()
        &&& self.delete_offset <= self.deletes@.len()
        &&& self.active matches Some(a) ==> a.wf() && self.source_index < self.source_ids@.len()
    }

    pub fn new(
        service: &str,
        records: Vec<FlatSnapshotRecord>,
        source_ids: Vec<u64>,
        source_paths: HashMap<u64, String>,
        source_generations: HashMap<u64, FileGeneration>,
        deletes: Vec<Vec<String>>,
        generation: TreeGeneration,
    ) -> (s: PullService)
        ensures
            s.wf(),
            s.service@ == service@,
            s.phase == PullPhase::Structure && s.next_chunk == 0,
            s.records == records && s.record_offset == 0,
            s.source_ids == source_ids && s.source_index == 0 && s.active is None,
            s.source_paths == source_paths && s.source_generations == source_generations,
            s.deletes == deletes && s.delete_offset == 0,
            s.generation == generation,
            s.initial_fingerprint is None && !s.revalidating,
    {
        PullService {
            service: owned(service),
            phase: PullPhase::Structure,
            next_chunk: 0,
            records,
            record_offset: 0,
            source_ids,
            source_paths,
            source_generations,
            source_index: 0,
            active: None,
            deletes,
            delete_offset: 0,
            generation,
            initial_fingerprint: None,
            revalidating: false,
        }
    }

    /// Takes the first fingerprint; says whether it is there.
    pub fn poll_initial_pull_fingerprint(&mut self, poll: WorkerPoll) -> (r: Result<
        bool,
        PullProblem,
    >)
        requires
            old(self).wf(),
        ensures
            final(self).wf(),
            *final(self) == (PullService {
                initial_fingerprint: final(self).initial_fingerprint,
                ..*old(self)
            }),
            if old(self).initial_fingerprint is Some {
                r == Ok::<bool, PullProblem>(true) && final(self).initial_fingerprint
                    == old(self).initial_fingerprint
            } else {
                match poll {
                    WorkerPoll::Pending => r == Ok::<bool, PullProblem>(false)
                        && final(self).initial_fingerprint is None,
                    WorkerPoll::Lost => r == Err::<bool, PullProblem>(PullProblem::WorkerLost)
                        && final(self).initial_fingerprint is None,
                    WorkerPoll::Failed => r == Err::<bool, PullProblem>(PullProblem::WorkerFailed)
                        && final(self).initial_fingerprint is None,
                    WorkerPoll::Ready(f) => if f.metadata@ == old(self).generation@ {
                        r == Ok::<bool, PullProblem>(true) && final(self).initial_fingerprint
                            == Some(f)
                    } else {
                        r == Err::<bool, PullProblem>(PullProblem::ChangedBeforeSources)
                            && final(self).initial_fingerprint is None
                    },
                }
            },
    {
        if self.initial_fingerprint.is_some() {
            return Ok(true);
        }
        match poll {
            WorkerPoll::Pending => Ok(false),
            WorkerPoll::Lost => Err(PullProblem::WorkerLost),
            WorkerPoll::Failed => Err(PullProblem::WorkerFailed),
            WorkerPoll::Ready(fingerprint) => {
                if !fingerprint.metadata.same(&self.generation) {
                    return Err(PullProblem::ChangedBeforeSources);
                }
                self.initial_fingerprint = Some(fingerprint);
                Ok(true)
            },
        }
    }

    /// Takes the fingerprint of the service at the end; says whether it is
    /// there. The first call only asks for it.
    pub fn poll_revalidated_pull_fingerprint(&mut self, poll: WorkerPoll) -> (r: Result<
        bool,
        PullProblem,
    >)
        requires
            old(self).wf(),
        ensures
            final(self).wf(),
            *final(self) == (PullService {
                revalidating: final(self).revalidating,
                ..*old(self)
            }),
            if !old(self).revalidating {
                r == Ok::<bool, PullProblem>(false) && final(self).revalidating
            } else {
                match poll {
                    WorkerPoll::Pending => r == Ok::<bool, PullProblem>(false)
                        && final(self).revalidating,
                    WorkerPoll::Lost => r == Err::<bool, PullProblem>(PullProblem::WorkerLost)
                        && final(self).revalidating,
                    WorkerPoll::Failed => r == Err::<bool, PullProblem>(PullProblem::WorkerFailed)
                        && final(self).revalidating,
                    WorkerPoll::Ready(f) => match old(self).initial_fingerprint {
                        None => r == Err::<bool, PullProblem>(PullProblem::NoFingerprint)
                            && final(self).revalidating,
                        Some(first) => if f@ == first@ {
                            r == Ok::<bool, PullProblem>(true) && !final(self).revalidating
                        } else {
                            r == Err::<bool, PullProblem>(PullProblem::ChangedWhileSent)
                                && final(self).revalidating
                        },
                    },
                }
            },
    {
        if !self.revalidating {
            self.revalidating = true;
            return Ok(false);
        }
        match poll {
            WorkerPoll::Pending => Ok(false),
            WorkerPoll::Lost => Err(PullProblem::WorkerLost),
            WorkerPoll::Failed => Err(PullProblem::WorkerFailed),
            WorkerPoll::Ready(current) => {
                let unchanged = match &self.initial_fingerprint {
                    None => return Err(PullProblem::NoFingerprint),
                    Some(first) => current.same(first),
                };
                if !unchanged {
                    return Err(PullProblem::ChangedWhileSent);
                }
                self.revalidating = false;
                Ok(true)
            },
        }
    }
}

/// The records of one reply.
#[derive(Debug, Clone, Copy, PartialEq, Eq, Structural)]
pub struct BatchReply {
    pub chunk_index: u64,
    pub final_chunk: bool,
    pub from: usize,
    pub count: usize,
}

impl PullService {
    /// What a reply with the next `n` records says.
    pub open spec fn structure_reply(&self, n: int) -> BatchReply {
        BatchReply {
            chunk_index: self.next_chunk,
            final_chunk: self.record_offset + n == self.records@.len(),
            from: self.record_offset,
            count: n as usize,
        }
    }

    /// The service after a reply with the next `n` records.
    pub open spec fn after_structure(&self, n: int) -> PullService {
        let last = self.record_offset + n == self.records@.len();
        PullService {
            record_offset: (self.record_offset + n) as usize,
            phase: if last {
                PullPhase::Sources
            } else {
                PullPhase::Structure
            },
            next_chunk: if last {
                0
            } else {
                (self.next_chunk + 1) as u64
            },
            ..*self
        }
    }

    /// Sends the next records. `sizes` are the encoded sizes of all of them,
    /// `envelope` that of a reply without any.
    pub fn produce_structure_response(&mut self, sizes: &[usize], envelope: usize) -> (r: Result<
        BatchReply,
        PullProblem,
    >)
        requires
            old(self).wf(),
            old(self).phase == PullPhase::Structure,
            old(self).next_chunk < u64::MAX,
            sizes@.len() == old(self).records@.len(),
        ensures
            final(self).wf(),
            ({
                let from = old(self).record_offset;
                match packing::packed(sizes@, from as int, envelope as int, 0) {
                    Err(_) => r == Err::<BatchReply, PullProblem>(PullProblem::SizeOverflow)
                        && *final(self) == *old(self),
                    Ok(n) => if n == 0 {
                        r == Err::<BatchReply, PullProblem>(PullProblem::RecordTooLarge)
                            && *final(self) == *old(self)
                    } else {
                        &&& r == Ok::<BatchReply, PullProblem>(old(self).structure_reply(n))
                        &&& *final(self) == old(self).after_structure(n)
                    },
                }
            }),
    {
        let from: usize = self.record_offset;
        let count: usize = match pack(sizes, from, envelope) {
            Err(_) => return Err(PullProblem::SizeOverflow),
            Ok(count) => count,
        };
        if count == 0 {
            return Err(PullProblem::RecordTooLarge);
        }
        let chunk_index: u64 = self.next_chunk;
        let len: usize = sizes.len();
        self.record_offset = from + count;
        let final_chunk = self.record_offset == len;
        if final_chunk {
            self.phase = PullPhase::Sources;
            self.next_chunk = 0;
        } else {
            self.next_chunk = self.next_chunk + 1;
        }
        Ok(BatchReply { chunk_index, final_chunk, from, count })
    }

    /// The source to read next, by its id and path; nothing where one is being
    /// sent or all were sent.
    pub fn next_source(&self) -> (r: Result<Option<(u64, &str)>, PullProblem>)
        requires
            self.wf(),
        ensures
            ({
                let id = self.source_ids@[self.source_index as int];
                if self.active is Some || self.source_index >= self.source_ids@.len() {
                    r == Ok::<Option<(u64, &str)>, PullProblem>(None)
                } else if !self.source_paths@.contains_key(id) {
                    r == Err::<Option<(u64, &str)>, PullProblem>(PullProblem::NoPath(id))
                } else if !self.source_generations@.contains_key(id) {
                    r == Err::<Option<(u64, &str)>, PullProblem>(PullProblem::NoGeneration(id))
                } else {
                    r matches Ok(Some(found)) && found.0 == id && found.1@
                        == self.source_paths@[id]@
                }
            }),
    {
        if self.active.is_some() || self.source_index >= self.source_ids.len() {
            return Ok(None);
        }
        let id: u64 = self.source_ids[self.source_index];
        let path = match self.source_paths.get(&id) {
            None => return Err(PullProblem::NoPath(id)),
            Some(path) => path.as_str(),
        };
        if self.source_generations.get(&id).is_none() {
            return Err(PullProblem::NoGeneration(id));
        }
        Ok(Some((id, path)))
    }

    /// What is wrong with a source that was read.
    pub open spec fn source_problem(
        &self,
        before: FileGeneration,
        bytes: Seq<u8>,
        after: FileGeneration,
    ) -> Option<PullProblem> {
        let id = self.source_ids@[self.source_index as int];
        if !self.source_paths@.contains_key(id) {
            Some(PullProblem::NoPath(id))
        } else if !self.source_generations@.contains_key(id) {
            Some(PullProblem::NoGeneration(id))
        } else {
            let expected = self.source_generations@[id];
            if before != expected {
                Some(PullProblem::ChangedBefore)
            } else if expected.len > MAX_STREAM_SOURCE_BYTES {
                Some(PullProblem::TooLarge)
            } else if after != expected {
                Some(PullProblem::ChangedWhile)
            } else if !valid_utf8(bytes) {
                Some(PullProblem::NotUtf8)
            } else {
                None
            }
        }
    }

    /// Takes a source that was seen before and after it was read.
    pub fn load_pull_source(
        &mut self,
        before: FileGeneration,
        bytes: Vec<u8>,
        after: FileGeneration,
    ) -> (r: Result<(), PullProblem>)
        requires
            old(self).wf(),
        ensures
            final(self).wf(),
            *final(self) == (PullService { active: final(self).active, ..*old(self) }),
            if old(self).active is Some || old(self).source_index >= old(self).source_ids@.len() {
                r is Ok && final(self).active == old(self).active
            } else {
                match old(self).source_problem(before, bytes@, after) {
                    Some(p) => r == Err::<(), PullProblem>(p) && final(self).active is None,
                    None => {
                        let id = old(self).source_ids@[old(self).source_index as int];
                        &&& r is Ok
                        &&& final(self).active matches Some(a) && {
                            &&& a.id == id
                            &&& a.bytes() == bytes@
                            &&& a.offset == 0 && a.part_index == 0
                            &&& a.sha256@ == hex::hex_text(conflict::sha256(bytes@))
                            &&& a.generation == old(self).source_generations@[id]
                            &&& a.path@ == old(self).source_paths@[id]@
                        }
                    },
                }
            },
    {
        if self.active.is_some() || self.source_index >= self.source_ids.len() {
            return Ok(());
        }
        let id: u64 = self.source_ids[self.source_index];
        let path = match self.source_paths.get(&id) {
            None => return Err(PullProblem::NoPath(id)),
            Some(path) => owned(path.as_str()),
        };
        let expected: FileGeneration = match self.source_generations.get(&id) {
            None => return Err(PullProblem::NoGeneration(id)),
            Some(expected) => *expected,
        };
        if !same_generation(&before, &expected) {
            return Err(PullProblem::ChangedBefore);
        }
        if expected.len > MAX_STREAM_SOURCE_BYTES {
            return Err(PullProblem::TooLarge);
        }
        if !same_generation(&after, &expected) {
            return Err(PullProblem::ChangedWhile);
        }
        let digest = crate::conflict::hash(bytes.as_slice());
        let sha256 = crate::hex::hex(&digest);
        let ghost whole = bytes@;
        assert(whole.len() == bytes.len());
        let text = match text_from_utf8(bytes) {
            None => return Err(PullProblem::NotUtf8),
            Some(text) => text,
        };
        proof {
            decode_utf8_encode_utf8(whole);
            is_char_boundary_start_end_of_seq(whole);
        }
        self.active = Some(
            PullActiveSource {
                id,
                text,
                offset: 0,
                part_index: 0,
                sha256,
                generation: expected,
                path,
            },
        );
        Ok(())
    }
}

/// The parts of one reply so far, and its size.
#[derive(Debug)]
pub struct SourceBatch {
    pub encoded: usize,
    pub count: usize,
}

/// What is wrong with committing a part of the source that is being sent.
pub open spec fn commit_problem(
    active: Option<PullActiveSource>,
    part: StreamSourcePart,
    seen: FileGeneration,
) -> Option<PullProblem> {
    match active {
        None => Some(PullProblem::NoActive),
        Some(a) => if seen != a.generation {
            Some(PullProblem::ChangedBetween)
        } else if a.offset + encode_utf8(part.data@).len() > usize::MAX {
            Some(PullProblem::OffsetOverflow)
        } else if part.final_part && a.offset + encode_utf8(part.data@).len() != a.bytes().len() {
            Some(PullProblem::WrongEnd)
        } else {
            None
        },
    }
}

impl PullService {
    /// The service after a part of its source was sent.
    pub open spec fn after_part(&self, part: StreamSourcePart) -> PullService {
        let a = self.active->0;
        if part.final_part {
            PullService {
                active: None,
                source_index: (self.source_index + 1) as usize,
                ..*self
            }
        } else {
            PullService {
                active: Some(
                    PullActiveSource {
                        offset: (a.offset + encode_utf8(part.data@).len()) as usize,
                        part_index: (a.part_index + 1) as u64,
                        ..a
                    },
                ),
                ..*self
            }
        }
    }

    /// Goes past a part that was put into a reply; its file was seen again.
    pub fn commit_pull_source_part(&mut self, part: &StreamSourcePart, seen: FileGeneration) -> (r:
        Result<(), PullProblem>)
        requires
            old(self).wf(),
            old(self).active matches Some(a) ==> is_part_of(a, *part) && a.part_index < u64::MAX,
        ensures
            final(self).wf(),
            match commit_problem(old(self).active, *part, seen) {
                Some(p) => r == Err::<(), PullProblem>(p) && *final(self) == *old(self),
                None => {
                    &&& r is Ok
                    &&& *final(self) == old(self).after_part(*part)
                },
            },
    {
        let mut active = match self.active.take() {
            None => return Err(PullProblem::NoActive),
            Some(active) => active,
        };
        if !same_generation(&seen, &active.generation) {
            self.active = Some(active);
            return Err(PullProblem::ChangedBetween);
        }
        let len: usize = part.data.as_str().as_bytes().len();
        let end: usize = match active.offset.checked_add(len) {
            None => {
                self.active = Some(active);
                return Err(PullProblem::OffsetOverflow);
            },
            Some(end) => end,
        };
        let total: usize = active.text.as_str().as_bytes().len();
        if part.final_part && end != total {
            self.active = Some(active);
            return Err(PullProblem::WrongEnd);
        }
        proof {
            let bytes = active.bytes();
            encode_utf8_valid_utf8(active.text@);
            lemma_part_end(
                bytes,
                active.offset as int,
                part_limit(bytes, active.offset as int),
            );
        }
        if part.final_part {
            assert(self.source_index < self.source_ids.len());
            self.source_index = self.source_index + 1;
        } else {
            active.offset = end;
            active.part_index = active.part_index + 1;
            self.active = Some(active);
        }
        Ok(())
    }

    /// Whether another part may go into the reply.
    pub fn wants_part(&self, batch: &SourceBatch) -> (r: bool)
        ensures
            r == (batch.count < STREAM_SOURCE_PART_CHUNK_NODES && self.source_index
                < self.source_ids@.len()),
    {
        batch.count < STREAM_SOURCE_PART_CHUNK_NODES && self.source_index < self.source_ids.len()
    }

    /// Puts a part of that encoded size into the reply and goes past it; says
    /// whether it had room.
    pub fn take_part(
        &mut self,
        batch: &mut SourceBatch,
        part: &StreamSourcePart,
        size: usize,
        seen: FileGeneration,
    ) -> (r: Result<bool, PullProblem>)
        requires
            old(self).wf(),
            old(batch).count < STREAM_SOURCE_PART_CHUNK_NODES,
            old(self).active matches Some(a) ==> is_part_of(a, *part) && a.part_index < u64::MAX,
        ensures
            final(self).wf(),
            ({
                let next = old(batch).encoded + size + 1;
                if next > usize::MAX {
                    r == Err::<bool, PullProblem>(PullProblem::SizeOverflow) && *final(self)
                        == *old(self) && *final(batch) == *old(batch)
                } else if next > STREAM_RESPONSE_PACK_TARGET {
                    &&& *final(self) == *old(self)
                    &&& *final(batch) == *old(batch)
                    &&& r == (if old(batch).count == 0 {
                        Err::<bool, PullProblem>(PullProblem::PartTooLarge(part.id))
                    } else {
                        Ok(false)
                    })
                } else {
                    match commit_problem(old(self).active, *part, seen) {
                        Some(p) => r == Err::<bool, PullProblem>(p) && *final(self) == *old(self)
                            && *final(batch) == *old(batch),
                        None => {
                            &&& r == Ok::<bool, PullProblem>(true)
                            &&& final(batch).encoded == next
                            &&& final(batch).count == old(batch).count + 1
                            &&& part.final_part ==> *final(self) == (PullService {
                                active: None,
                                source_index: (old(self).source_index + 1) as usize,
                                ..*old(self)
                            })
                            &&& !part.final_part ==> *final(self) == (PullService {
                                active: Some(
                                    PullActiveSource {
                                        offset: (old(self).active->0.offset + encode_utf8(
                                            part.data@,
                                        ).len()) as usize,
                                        part_index: (old(self).active->0.part_index + 1) as u64,
                                        ..old(self).active->0
                                    },
                                ),
                                ..*old(self)
                            })
                        },
                    }
                }
            }),
    {
        let with_part: usize = match batch.encoded.checked_add(size) {
            None => return Err(PullProblem::SizeOverflow),
            Some(total) => total,
        };
        let next: usize = match with_part.checked_add(1) {
            None => return Err(PullProblem::SizeOverflow),
            Some(total) => total,
        };
        if next > STREAM_RESPONSE_PACK_TARGET {
            if batch.count == 0 {
                return Err(PullProblem::PartTooLarge(part.id));
            }
            return Ok(false);
        }
        match self.commit_pull_source_part(part, seen) {
            Err(p) => return Err(p),
            Ok(()) => {},
        }
        batch.encoded = next;
        batch.count = batch.count + 1;
        Ok(true)
    }

    pub open spec fn all_sent(&self) -> bool {
        self.source_index == self.source_ids@.len() && self.active is None
    }

    /// Whether every source was sent.
    pub fn sources_complete(&self) -> (r: bool)
        ensures
            r == self.all_sent(),
    {
        self.source_index == self.source_ids.len() && self.active.is_none()
    }
}

/// How a reply with sources or deletions ends.
#[derive(Debug, Clone, Copy, PartialEq, Eq, Structural)]
pub struct PhaseReply {
    pub chunk_index: u64,
    pub final_chunk: bool,
    /// The whole transfer is complete.
    pub complete: bool,
}

impl PullService {
    /// What a reply with sources says.
    pub open spec fn sources_reply(
        &self,
        revalidated: bool,
        selective: bool,
        final_service: bool,
    ) -> PhaseReply {
        let last = self.all_sent() && revalidated;
        PhaseReply {
            chunk_index: self.next_chunk,
            final_chunk: last,
            complete: last && !selective && final_service,
        }
    }

    /// The service after a reply with sources.
    pub open spec fn after_sources(&self, revalidated: bool, selective: bool) -> PullService {
        let last = self.all_sent() && revalidated;
        if !last {
            PullService { next_chunk: (self.next_chunk + 1) as u64, ..*self }
        } else if selective {
            PullService {
                phase: PullPhase::Deletes,
                next_chunk: 0,
                revalidating: false,
                ..*self
            }
        } else {
            *self
        }
    }

    /// Ends a reply with sources, once the service was read anew or not.
    pub fn finish_sources(&mut self, revalidated: bool, selective: bool, final_service: bool) -> (r:
        PhaseReply)
        requires
            old(self).wf(),
            old(self).phase == PullPhase::Sources,
            old(self).next_chunk < u64::MAX,
        ensures
            final(self).wf(),
            r == old(self).sources_reply(revalidated, selective, final_service),
            *final(self) == old(self).after_sources(revalidated, selective),
    {
        let chunk_index: u64 = self.next_chunk;
        let final_chunk = self.sources_complete() && revalidated;
        if !final_chunk {
            self.next_chunk = self.next_chunk + 1;
        } else if selective {
            self.phase = PullPhase::Deletes;
            self.next_chunk = 0;
            self.revalidating = false;
        }
        PhaseReply { chunk_index, final_chunk, complete: final_chunk && !selective && final_service }
    }

    /// Takes the next deletions of these encoded sizes into a reply; gives the
    /// first of them and how many.
    pub fn take_deletes(&mut self, sizes: &[usize], envelope: usize) -> (r: Result<
        (usize, usize),
        PullProblem,
    >)
        requires
            old(self).wf(),
            sizes@.len() == old(self).deletes@.len(),
        ensures
            final(self).wf(),
            ({
                let from = old(self).delete_offset;
                match packing::packed(sizes@, from as int, envelope as int, 0) {
                    Err(_) => r == Err::<(usize, usize), PullProblem>(PullProblem::SizeOverflow)
                        && *final(self) == *old(self),
                    Ok(n) => if n == 0 && from < sizes@.len() {
                        r == Err::<(usize, usize), PullProblem>(PullProblem::DeleteTooLarge)
                            && *final(self) == *old(self)
                    } else {
                        &&& r == Ok::<(usize, usize), PullProblem>((from, n as usize))
                        &&& *final(self) == (PullService {
                            delete_offset: (from + n) as usize,
                            ..*old(self)
                        })
                    },
                }
            }),
    {
        let from: usize = self.delete_offset;
        let len: usize = sizes.len();
        let count: usize = match pack(sizes, from, envelope) {
            Err(_) => return Err(PullProblem::SizeOverflow),
            Ok(count) => count,
        };
        if count == 0 && from < len {
            return Err(PullProblem::DeleteTooLarge);
        }
        self.delete_offset = from + count;
        Ok((from, count))
    }

    /// Whether every deletion was sent.
    pub fn deletes_complete(&self) -> (r: bool)
        ensures
            r == (self.delete_offset == self.deletes@.len()),
    {
        self.delete_offset == self.deletes.len()
    }

    /// What a reply with deletions says.
    pub open spec fn deletes_reply(&self, revalidated: bool, final_service: bool) -> PhaseReply {
        let last = self.delete_offset == self.deletes@.len() && revalidated;
        PhaseReply {
            chunk_index: self.next_chunk,
            final_chunk: last,
            complete: last && final_service,
        }
    }

    /// The service after a reply with deletions.
    pub open spec fn after_deletes(&self, revalidated: bool) -> PullService {
        if self.delete_offset == self.deletes@.len() && revalidated {
            *self
        } else {
            PullService { next_chunk: (self.next_chunk + 1) as u64, ..*self }
        }
    }

    /// Ends a reply with deletions, once the service was read anew or not.
    pub fn finish_deletes(&mut self, revalidated: bool, final_service: bool) -> (r: PhaseReply)
        requires
            old(self).wf(),
            old(self).next_chunk < u64::MAX,
        ensures
            final(self).wf(),
            r == old(self).deletes_reply(revalidated, final_service),
            *final(self) == old(self).after_deletes(revalidated),
    {
        let chunk_index: u64 = self.next_chunk;
        let final_chunk = self.deletes_complete() && revalidated;
        if !final_chunk {
            self.next_chunk = self.next_chunk + 1;
        }
        PhaseReply { chunk_index, final_chunk, complete: final_chunk && final_service }
    }
}

/// What was sent of a source and its next part make up what is sent after it:
/// the parts of a source, put together, are the source.
pub proof fn law_parts_make_up_the_source(active: PullActiveSource, part: StreamSourcePart)
    requires
        active.wf(),
        is_part_of(active, part),
    ensures
        ({
            let bytes = active.bytes();
            let end = active.offset + encode_utf8(part.data@).len();
            &&& end <= bytes.len()
            &&& bytes.take(active.offset as int) + encode_utf8(part.data@) == bytes.take(end as int)
            &&& part.final_part <==> end == bytes.len()
            &&& encode_utf8(part.data@).len() <= STREAM_SOURCE_PART_BYTES
        }),
{
    let bytes = active.bytes();
    encode_utf8_valid_utf8(active.text@);
    lemma_part_end(bytes, active.offset as int, part_limit(bytes, active.offset as int));
    let end = part_end(bytes, active.offset as int, part_limit(bytes, active.offset as int));
    assert(bytes.take(active.offset as int) + bytes.subrange(active.offset as int, end)
        =~= bytes.take(end));
}

/// Every part but one of an empty source brings the transfer forward.
pub proof fn law_parts_bring_the_source_forward(active: PullActiveSource, part: StreamSourcePart)
    requires
        active.wf(),
        is_part_of(active, part),
        active.offset < active.bytes().len(),
    ensures
        encode_utf8(part.data@).len() > 0,
{
    let bytes = active.bytes();
    let offset = active.offset as int;
    encode_utf8_valid_utf8(active.text@);
    let tail = bytes.subrange(offset, bytes.len() as int);
    lemma_boundary_in_tail(bytes, offset, offset);
    let width = length_of_first_scalar(tail);
    reveal_with_fuel(is_char_boundary, 3);
    assert(0 < width <= 4);
    assert(width <= tail.len());
    assert(is_char_boundary(tail, width));
    lemma_boundary_in_tail(bytes, offset, offset + width);
    lemma_part_end_reaches(bytes, offset, part_limit(bytes, offset), offset + width);
    lemma_part_end(bytes, offset, part_limit(bytes, offset));
}

proof fn lemma_part_end_reaches(bytes: Seq<u8>, offset: int, limit: int, boundary: int)
    requires
        valid_utf8(bytes),
        0 <= offset <= boundary <= limit <= bytes.len(),
        is_char_boundary(bytes, boundary),
    ensures
        part_end(bytes, offset, limit) >= boundary,
    decreases limit - offset,
{
    if limit > offset && !is_char_boundary(bytes, limit) {
        lemma_part_end_reaches(bytes, offset, limit - 1, boundary);
    }
}

} // verus!
