//! Comparing the two sides service by service, in chunks.
//!
//! Studio sends the structure of a service, waits while the directory is read,
//! receives the file names that correspond, and sends the digests of its
//! scripts. Each function here takes the state and one event; what has to be
//! read or sent in between is the caller's.
use std::collections::HashSet;

use vstd::prelude::*;

use crate::baselines::StagedScriptBaseline;
use crate::diff;
use crate::diff::{compare, DiffKind, DiffNode};
use crate::flat;
use crate::flat::{
    charge_stream_structure_bytes, validate_stream_record_chunk_fields, ChargeProblem,
    FieldProblem, FlatSnapshotRecord, MAX_BOOTSTRAP_NODES,
};
use crate::fs_safety::TreeGeneration;
use crate::hex;
use crate::hex::{parse_sha256_hex, DigestProblem};
use crate::initial_sync::{InitialComparison, Stats};
use crate::packing;
use crate::packing::{fit, STREAM_SOURCE_CHUNK_BYTES, STREAM_STRUCTURE_CHUNK_NODES};
use crate::preparation::PreparedComparison;
use crate::sync_scope;
use crate::sync_scope::service_at;
use crate::text::{owned, same};
use crate::text_map::TextMap;

verus! {

broadcast use vstd::std_specs::hash::group_hash_axioms;

pub const STREAM_COMPARE_HASH_CHUNK_NODES: usize = 512;

/// How long a comparison may stay without a request, in milliseconds.
pub const INITIAL_COMPARE_SESSION_TTL_MS: u64 = 900_000;

/// How long a finished comparison answers repeated requests, in milliseconds.
pub const INITIAL_COMPARE_COMPLETED_TTL_MS: u64 = 120_000;

/// The step of a service's comparison.
#[derive(Debug, Clone, Copy, PartialEq, Eq, Structural)]
pub enum ComparePhase {
    Structure,
    DiskPrepare,
    Identities,
    Hashes,
}

impl ComparePhase {
    /// The name of the step in requests and replies.
    pub open spec fn text(self) -> Seq<char> {
        match self {
            ComparePhase::Structure => "structure"@,
            ComparePhase::DiskPrepare => "diskPrepare"@,
            ComparePhase::Identities => "identities"@,
            ComparePhase::Hashes => "hashes"@,
        }
    }

    pub fn name(self) -> (r: &'static str)
        ensures
            r@ == self.text(),
    {
        match self {
            ComparePhase::Structure => "structure",
            ComparePhase::DiskPrepare => "diskPrepare",
            ComparePhase::Identities => "identities",
            ComparePhase::Hashes => "hashes",
        }
    }
}

/// The digest that Studio sends for one script.
#[derive(Debug)]
pub struct StreamSourceHash {
    pub id: u64,
    pub sha256: String,
}

/// One request of a service's comparison.
#[derive(Debug)]
pub struct CompareChunk {
    pub phase: Option<String>,
    pub chunk_index: Option<u64>,
    pub final_chunk: bool,
    pub records: Vec<FlatSnapshotRecord>,
    pub hashes: Vec<StreamSourceHash>,
    /// The request holds a nested tree.
    pub has_snapshot: bool,
    /// The size of the records as they were sent.
    pub encoded_bytes: usize,
}

/// A digest that was checked against the comparison.
#[derive(Debug)]
pub struct ValidatedHash {
    pub id: u64,
    pub path: String,
    pub digest: [u8; 32],
    /// The source file on disk to hold it against.
    pub source: Option<String>,
}

/// A chunk of digests whose source files are still to be read.
#[derive(Debug)]
pub struct PendingHashes {
    pub hashes: Vec<ValidatedHash>,
    pub last: bool,
}

/// The comparison of one service.
#[derive(Debug)]
pub struct CompareStream {
    pub service: String,
    pub phase: ComparePhase,
    pub next_chunk: u64,
    pub records: Vec<FlatSnapshotRecord>,
    pub accepted_structure_bytes: usize,
    pub final_structure_len: usize,
    pub final_structure_bytes: usize,
    pub final_structure_chunk: u64,
    pub prepared: Option<PreparedComparison>,
    pub identity_offset: usize,
    pub received_hash_ids: HashSet<u64>,
    pub pending: Option<PendingHashes>,
}

/// Whether digests were checked against a comparison, and are new to it.
pub open spec fn pending_fits(
    p: PreparedComparison,
    received: Set<u64>,
    hashes: Seq<ValidatedHash>,
) -> bool {
    &&& forall|k: int|
        0 <= k < hashes.len() ==> {
            let h = #[trigger] hashes[k];
            &&& p.expected_hash_ids@.contains(h.id)
            &&& !received.contains(h.id)
            &&& p.studio_nodes@.contains_key(h.path@)
            &&& h.source is Some ==> p.local_nodes@.contains_key(h.path@)
        }
    &&& forall|j: int, k: int|
        0 <= j < k < hashes.len() ==> (#[trigger] hashes[j]).id != (#[trigger] hashes[k]).id
}

impl CompareStream {
    pub open spec fn wf(&self) -> bool {
        &&& self.records@.len() <= MAX_BOOTSTRAP_NODES
        &&& self.received_hash_ids@.finite()
        &&& self.prepared matches Some(p) ==> p.wf() && self.identity_offset <= p.identities@.len()
            && self.received_hash_ids@.subset_of(p.expected_hash_ids@)
        &&& self.pending matches Some(pending) ==> {
            &&& self.phase == ComparePhase::Hashes
            &&& self.prepared matches Some(p) && pending_fits(
                p,
                self.received_hash_ids@,
                pending.hashes@,
            ) && (pending.last ==> self.received_hash_ids@.len() + pending.hashes@.len()
                == p.expected_hash_ids@.len())
        }
    }

    /// Whether what was read answers the pending digests.
    pub open spec fn answers_pending(&self, read: Seq<Option<StagedScriptBaseline>>) -> bool {
        &&& self.next_chunk < u64::MAX
        &&& self.pending is Some
        &&& self.pending->0.hashes@.len() == read.len()
        &&& forall|k: int|
            0 <= k < read.len() && (#[trigger] read[k]) is Some
                ==> self.pending->0.hashes@[k].source is Some
    }

    /// A stream that has received nothing.
    pub open spec fn is_fresh(&self, service: Seq<char>) -> bool {
        &&& self.service@ == service
        &&& self.phase == ComparePhase::Structure
        &&& self.next_chunk == 0
        &&& self.records@.len() == 0
        &&& self.accepted_structure_bytes == 0
        &&& self.final_structure_len == 0
        &&& self.final_structure_bytes == 0
        &&& self.final_structure_chunk == 0
        &&& self.prepared is None
        &&& self.identity_offset == 0
        &&& self.received_hash_ids@ == Set::<u64>::empty()
        &&& self.pending is None
    }

    pub fn new(service: &str) -> (s: CompareStream)
        ensures
            s.is_fresh(service@),
            s.wf(),
    {
        CompareStream {
            service: owned(service),
            phase: ComparePhase::Structure,
            next_chunk: 0,
            records: Vec::new(),
            accepted_structure_bytes: 0,
            final_structure_len: 0,
            final_structure_bytes: 0,
            final_structure_chunk: 0,
            prepared: None,
            identity_offset: 0,
            received_hash_ids: HashSet::new(),
            pending: None,
        }
    }
}

/// Why a request of a service's comparison is refused.
#[derive(Debug, Clone, Copy, PartialEq, Eq, Structural)]
pub enum CompareProblem {
    MissingPhase,
    MissingChunkIndex,
    /// The first request is not the first structure chunk.
    MustBeginWithStructure,
    /// Another service is being compared.
    OtherService,
    ChunkOutOfOrder { wanted: u64, got: u64 },
    /// Another phase was asked for before the structure was complete.
    StructureFirst,
    StructureOnlyRecords,
    Field(FieldProblem),
    StructureChunkTooLarge,
    TooManyNodes,
    NotDense { wanted: u64, got: u64 },
    Charge(ChargeProblem),
    PrepareOnlyTicks,
    IdentityOnlyTicks,
    /// An earlier phase was asked for again.
    HashesStarted,
    HashesOnlyHashes,
    HashChunkTooLarge,
    /// The structure of the service is gone.
    NoComparison,
    UnknownId(u64),
    RepeatedId(u64),
    /// No compared path belongs to the id.
    NoPath(u64),
    /// The compared path of the id is gone.
    PathGone(u64),
    Digest(DigestProblem),
    /// The script on disk has no source file.
    NoSource(u64),
    /// The digests end before all scripts have one.
    HashesIncomplete { received: usize, expected: usize },
    /// Both sides agree, but not every node has a file.
    IdentitiesIncomplete,
    /// The reader of the directory is gone.
    PrepareLost,
    /// One file name alone exceeds the size of a reply.
    IdentityTooLarge,
    /// A packed reply exceeds the limit.
    ReplyTooLarge,
}

/// What a request of a service's comparison calls for.
#[derive(Debug)]
pub enum CompareStep {
    /// Reply that the structure goes on with this chunk.
    MoreStructure(u64),
    /// Read the directory and compare it with these records.
    Prepare(Vec<FlatSnapshotRecord>),
    /// See whether the directory was read.
    PollPrepare,
    /// Send the next file names.
    SendIdentities,
    /// Read the source files of the pending digests, then commit them.
    ReadSources,
}

/// The first record of a chunk whose id does not go on from `base`.
pub open spec fn density_problem(s: Seq<FlatSnapshotRecord>, base: int, k: int) -> Option<
    CompareProblem,
>
    decreases s.len() - k,
{
    if k < 0 || k >= s.len() {
        None
    } else if s[k].id != base + k {
        Some(CompareProblem::NotDense { wanted: (base + k) as u64, got: s[k].id })
    } else {
        density_problem(s, base, k + 1)
    }
}

pub open spec fn structure_charge(stream: CompareStream, session_bytes: usize, chunk: CompareChunk) -> Result<
    (nat, nat),
    ChargeProblem,
> {
    flat::charge(
        stream.accepted_structure_bytes as nat,
        session_bytes as nat,
        chunk.encoded_bytes as nat,
        flat::MAX_STREAM_SERVICE_STRUCTURE_BYTES as nat,
        flat::MAX_STREAM_SESSION_STRUCTURE_BYTES as nat,
        usize::MAX as nat,
    )
}

/// What is wrong with a request while the structure is being received.
pub open spec fn structure_problem(
    stream: CompareStream,
    session_bytes: usize,
    phase: Seq<char>,
    chunk: CompareChunk,
) -> Option<CompareProblem> {
    if phase != "structure"@ {
        Some(CompareProblem::StructureFirst)
    } else if chunk.hashes@.len() > 0 || chunk.has_snapshot {
        Some(CompareProblem::StructureOnlyRecords)
    } else if flat::fields_problem(chunk.records@, 0) is Some {
        Some(CompareProblem::Field(flat::fields_problem(chunk.records@, 0)->0))
    } else if chunk.records@.len() > STREAM_STRUCTURE_CHUNK_NODES {
        Some(CompareProblem::StructureChunkTooLarge)
    } else if stream.records@.len() + chunk.records@.len() > MAX_BOOTSTRAP_NODES {
        Some(CompareProblem::TooManyNodes)
    } else if density_problem(chunk.records@, stream.records@.len() as int, 0) is Some {
        density_problem(chunk.records@, stream.records@.len() as int, 0)
    } else {
        match structure_charge(stream, session_bytes, chunk) {
            Err(problem) => Some(CompareProblem::Charge(problem)),
            Ok(_) => None,
        }
    }
}

/// Whether a request is a plain tick of the given phase.
pub open spec fn is_tick(phase: Seq<char>, want: Seq<char>, chunk: CompareChunk) -> bool {
    phase == want && chunk.records@.len() == 0 && chunk.hashes@.len() == 0 && !chunk.has_snapshot
        && !chunk.final_chunk
}

/// Whether the script at `path` is on disk with the same class.
pub open spec fn has_local_twin(p: PreparedComparison, path: Seq<char>) -> bool {
    let local = diff::nodes_of(p.local_nodes);
    let studio = diff::nodes_of(p.studio_nodes);
    local.contains_key(path) && local[path].kind == DiffKind::Script && local[path].class
        == studio[path].class
}

/// What is wrong with the digest `hashes[k]`.
pub open spec fn hash_problem(
    p: PreparedComparison,
    received: Set<u64>,
    hashes: Seq<StreamSourceHash>,
    k: int,
) -> Option<CompareProblem> {
    let id = hashes[k].id;
    if !p.expected_hash_ids@.contains(id) {
        Some(CompareProblem::UnknownId(id))
    } else if received.contains(id) || (exists|j: int| 0 <= j < k && (#[trigger] hashes[j]).id == id) {
        Some(CompareProblem::RepeatedId(id))
    } else if !p.studio_paths_by_id@.contains_key(id) {
        Some(CompareProblem::NoPath(id))
    } else {
        let path = p.studio_paths_by_id@[id]@;
        if !p.studio_nodes@.contains_key(path) {
            Some(CompareProblem::PathGone(id))
        } else {
            match hex::spelled_digest(hashes[k].sha256@) {
                Err(problem) => Some(CompareProblem::Digest(problem)),
                Ok(_) => if has_local_twin(p, path) && !p.local_sources@.contains_key(path) {
                    Some(CompareProblem::NoSource(id))
                } else {
                    None
                },
            }
        }
    }
}

/// The first thing wrong with the digests from the `k`-th on.
pub open spec fn hashes_problem(
    p: PreparedComparison,
    received: Set<u64>,
    hashes: Seq<StreamSourceHash>,
    k: int,
) -> Option<CompareProblem>
    decreases hashes.len() - k,
{
    if k < 0 || k >= hashes.len() {
        None
    } else {
        match hash_problem(p, received, hashes, k) {
            Some(problem) => Some(problem),
            None => hashes_problem(p, received, hashes, k + 1),
        }
    }
}

/// What is wrong with a request while digests are being received.
pub open spec fn digest_chunk_problem(
    stream: CompareStream,
    phase: Seq<char>,
    chunk: CompareChunk,
) -> Option<CompareProblem> {
    if phase != "hashes"@ {
        Some(CompareProblem::HashesStarted)
    } else if chunk.records@.len() > 0 || chunk.has_snapshot {
        Some(CompareProblem::HashesOnlyHashes)
    } else if chunk.hashes@.len() > STREAM_COMPARE_HASH_CHUNK_NODES {
        Some(CompareProblem::HashChunkTooLarge)
    } else if stream.prepared is None {
        Some(CompareProblem::NoComparison)
    } else {
        let p = stream.prepared->0;
        match hashes_problem(p, stream.received_hash_ids@, chunk.hashes@, 0) {
            Some(problem) => Some(problem),
            None => if chunk.final_chunk && stream.received_hash_ids@.len() + chunk.hashes@.len()
                != p.expected_hash_ids@.len() {
                Some(
                    CompareProblem::HashesIncomplete {
                        received: (stream.received_hash_ids@.len() + chunk.hashes@.len()) as usize,
                        expected: p.expected_hash_ids@.len() as usize,
                    },
                )
            } else {
                None
            },
        }
    }
}

/// What is wrong with a request to a running stream.
pub open spec fn stream_problem(
    stream: CompareStream,
    session_bytes: usize,
    service: Seq<char>,
    phase: Seq<char>,
    index: u64,
    chunk: CompareChunk,
) -> Option<CompareProblem> {
    if stream.service@ != service {
        Some(CompareProblem::OtherService)
    } else if index != stream.next_chunk {
        Some(CompareProblem::ChunkOutOfOrder { wanted: stream.next_chunk, got: index })
    } else {
        match stream.phase {
            ComparePhase::Structure => structure_problem(stream, session_bytes, phase, chunk),
            ComparePhase::DiskPrepare => if !is_tick(phase, "diskPrepare"@, chunk) {
                Some(CompareProblem::PrepareOnlyTicks)
            } else {
                None
            },
            ComparePhase::Identities => if !is_tick(phase, "identities"@, chunk) {
                Some(CompareProblem::IdentityOnlyTicks)
            } else {
                None
            },
            ComparePhase::Hashes => digest_chunk_problem(stream, phase, chunk),
        }
    }
}

/// Whether `v` is what was checked of `h`.
pub open spec fn is_validated(p: PreparedComparison, h: StreamSourceHash, v: ValidatedHash) -> bool {
    let path = p.studio_paths_by_id@[h.id]@;
    &&& v.id == h.id
    &&& v.path@ == path
    &&& hex::spelled_digest(h.sha256@) == Ok::<Seq<u8>, DigestProblem>(v.digest@)
    &&& has_local_twin(p, path) ==> v.source is Some && v.source->0@ == p.local_sources@[path]@
    &&& !has_local_twin(p, path) ==> v.source is None
}

fn only_tick(phase: &str, want: &str, chunk: &CompareChunk) -> (r: bool)
    ensures
        r == is_tick(phase@, want@, *chunk),
{
    same(phase, want) && chunk.records.len() == 0 && chunk.hashes.len() == 0 && !chunk.has_snapshot
        && !chunk.final_chunk
}

fn find_density_problem(records: &Vec<FlatSnapshotRecord>, base: usize) -> (r: Option<
    CompareProblem,
>)
    requires
        base + records@.len() <= MAX_BOOTSTRAP_NODES,
    ensures
        r == density_problem(records@, base as int, 0),
{
    let mut k: usize = 0;
    while k < records.len()
        invariant
            base + records@.len() <= MAX_BOOTSTRAP_NODES,
            k <= records@.len(),
            density_problem(records@, base as int, 0) == density_problem(
                records@,
                base as int,
                k as int,
            ),
        decreases records@.len() - k,
    {
        let wanted: u64 = (base + k) as u64;
        let got: u64 = records[k].id;
        if got != wanted {
            return Some(CompareProblem::NotDense { wanted, got });
        }
        k += 1;
    }
    None
}

/// Holds the digests of a chunk against the comparison.
fn check_hashes(p: &PreparedComparison, received: &HashSet<u64>, hashes: &Vec<StreamSourceHash>) -> (r:
    Result<Vec<ValidatedHash>, CompareProblem>)
    requires
        p.wf(),
    ensures
        match r {
            Err(problem) => hashes_problem(*p, received@, hashes@, 0) == Some(problem),
            Ok(out) => {
                &&& hashes_problem(*p, received@, hashes@, 0) is None
                &&& out@.len() == hashes@.len()
                &&& forall|k: int|
                    0 <= k < out@.len() ==> is_validated(*p, hashes@[k], #[trigger] out@[k])
                &&& pending_fits(*p, received@, out@)
            },
        },
{
    let mut seen: HashSet<u64> = HashSet::new();
    let mut out: Vec<ValidatedHash> = Vec::new();
    let mut k: usize = 0;
    while k < hashes.len()
        invariant
            p.wf(),
            k <= hashes@.len(),
            hashes_problem(*p, received@, hashes@, 0) == hashes_problem(
                *p,
                received@,
                hashes@,
                k as int,
            ),
            out@.len() == k,
            forall|id: u64| #[trigger]
                seen@.contains(id) <==> exists|j: int| 0 <= j < k && (#[trigger] hashes@[j]).id == id,
            forall|j: int| 0 <= j < k ==> is_validated(*p, hashes@[j], #[trigger] out@[j]),
            forall|j: int| 0 <= j < k ==> (#[trigger] out@[j]).id == hashes@[j].id,
            pending_fits(*p, received@, out@),
        decreases hashes@.len() - k,
    {
        let h = &hashes[k];
        let id: u64 = h.id;
        if !p.expected_hash_ids.contains(&id) {
            return Err(CompareProblem::UnknownId(id));
        }
        if received.contains(&id) || seen.contains(&id) {
            return Err(CompareProblem::RepeatedId(id));
        }
        let path: &str = match p.studio_paths_by_id.get(&id) {
            None => return Err(CompareProblem::NoPath(id)),
            Some(path) => path.as_str(),
        };
        let studio = match p.studio_nodes.get(path) {
            None => return Err(CompareProblem::PathGone(id)),
            Some(node) => node,
        };
        let digest = match parse_sha256_hex(h.sha256.as_str()) {
            Err(problem) => return Err(CompareProblem::Digest(problem)),
            Ok(digest) => digest,
        };
        let twin = match p.local_nodes.get(path) {
            None => false,
            Some(local) => local.kind == DiffKind::Script && same(
                local.class.as_str(),
                studio.class.as_str(),
            ),
        };
        proof {
            assert(twin == has_local_twin(*p, path@));
        }
        let source = if twin {
            match p.local_sources.get(path) {
                None => return Err(CompareProblem::NoSource(id)),
                Some(source) => Some(owned(source.as_str())),
            }
        } else {
            None
        };
        proof {
            assert(hash_problem(*p, received@, hashes@, k as int) is None);
        }
        let ghost seen_before = seen@;
        seen.insert(id);
        out.push(ValidatedHash { id, path: owned(path), digest, source });
        proof {
            assert forall|other: u64| #[trigger] seen@.contains(other) <==> exists|j: int|
                0 <= j < k + 1 && (#[trigger] hashes@[j]).id == other by {
                if seen@.contains(other) {
                    if other == id {
                        assert(hashes@[k as int].id == other);
                    } else {
                        assert(seen_before.contains(other));
                        let j = choose|j: int| 0 <= j < k && (#[trigger] hashes@[j]).id == other;
                        assert(hashes@[j].id == other);
                    }
                }
                if exists|j: int| 0 <= j < k + 1 && (#[trigger] hashes@[j]).id == other {
                    let j = choose|j: int| 0 <= j < k + 1 && (#[trigger] hashes@[j]).id == other;
                    if j < k {
                        assert(seen_before.contains(other));
                    }
                }
            }
        }
        k += 1;
    }
    Ok(out)
}

/// The state of a whole comparison.
#[derive(Debug)]
pub struct CompareSession {
    pub compare_id: String,
    pub disk_stats: Stats,
    pub studio_stats: Stats,
    /// How many services were compared.
    pub next_service: usize,
    pub comparison: InitialComparison,
    pub staged_baselines: Vec<StagedScriptBaseline>,
    pub staged_service_generations: Vec<TreeGeneration>,
    pub service_stream: Option<CompareStream>,
    pub accepted_stream_bytes: usize,
    /// The service and the digest of the last request that was answered, and
    /// its reply as it was sent.
    pub last_service: Option<String>,
    pub last_request_hash: Option<[u8; 32]>,
    pub last_reply: Option<String>,
    pub pending_choice_id: Option<String>,
    /// The last service was answered.
    pub completed: bool,
}

/// Whether two sessions differ at most in what a running service changes.
pub open spec fn same_frame(a: CompareSession, b: CompareSession) -> bool {
    b == (CompareSession {
        service_stream: b.service_stream,
        accepted_stream_bytes: b.accepted_stream_bytes,
        ..a
    })
}

impl CompareSession {
    pub open spec fn wf(&self) -> bool {
        self.service_stream matches Some(s) ==> s.wf()
    }

    pub fn new(compare_id: String, disk_stats: Stats, studio_stats: Stats) -> (s: CompareSession)
        ensures
            s.wf(),
            s.compare_id == compare_id,
            s.disk_stats == disk_stats,
            s.studio_stats == studio_stats,
            s.next_service == 0,
            s.comparison.clean(),
            s.staged_baselines@.len() == 0,
            s.staged_service_generations@.len() == 0,
            s.service_stream is None,
            s.accepted_stream_bytes == 0,
            s.last_service is None && s.last_request_hash is None && s.last_reply is None,
            s.pending_choice_id is None,
            !s.completed,
    {
        CompareSession {
            compare_id,
            disk_stats,
            studio_stats,
            next_service: 0,
            comparison: InitialComparison::new(),
            staged_baselines: Vec::new(),
            staged_service_generations: Vec::new(),
            service_stream: None,
            accepted_stream_bytes: 0,
            last_service: None,
            last_request_hash: None,
            last_reply: None,
            pending_choice_id: None,
            completed: false,
        }
    }

    /// Whether a request reaches the stream of a service, so that a new stream
    /// is kept even where the request is refused.
    pub open spec fn reaches_stream(&self, chunk: CompareChunk) -> bool {
        match (chunk.phase, chunk.chunk_index) {
            (Some(phase), Some(index)) => self.service_stream is Some || (phase@ == "structure"@
                && index == 0),
            _ => false,
        }
    }

    /// The stream that a request goes to.
    pub open spec fn stream_or(&self, fresh: CompareStream) -> CompareStream {
        match self.service_stream {
            Some(stream) => stream,
            None => fresh,
        }
    }

    /// What is wrong with a request; a first request is held against a fresh
    /// stream.
    pub open spec fn chunk_problem(
        &self,
        fresh: CompareStream,
        service: Seq<char>,
        chunk: CompareChunk,
    ) -> Option<CompareProblem> {
        match (chunk.phase, chunk.chunk_index) {
            (None, _) => Some(CompareProblem::MissingPhase),
            (Some(_), None) => Some(CompareProblem::MissingChunkIndex),
            (Some(phase), Some(index)) => if !self.reaches_stream(chunk) {
                Some(CompareProblem::MustBeginWithStructure)
            } else {
                stream_problem(
                    self.stream_or(fresh),
                    self.accepted_stream_bytes,
                    service,
                    phase@,
                    index,
                    chunk,
                )
            },
        }
    }

    /// Takes one request of a service's comparison.
    pub fn process_streamed_initial_compare_chunk(
        &mut self,
        service: &str,
        chunk: CompareChunk,
    ) -> (r: Result<CompareStep, CompareProblem>)
        requires
            old(self).wf(),
            old(self).service_stream matches Some(s) ==> s.next_chunk < u64::MAX,
        ensures
            final(self).wf(),
            same_frame(*old(self), *final(self)),
            exists|fresh: CompareStream| #[trigger]
                fresh.is_fresh(service@) && accepted(
                    *old(self),
                    *final(self),
                    fresh,
                    service@,
                    chunk,
                    r,
                ),
    {
        let fresh = CompareStream::new(service);
        let ghost new_stream = fresh;
        let ghost before = *self;
        let ghost whole = chunk;
        let phase = match &chunk.phase {
            None => {
                assert(accepted(before, *self, new_stream, service@, whole, Err(CompareProblem::MissingPhase)));
                return Err(CompareProblem::MissingPhase);
            },
            Some(phase) => owned(phase.as_str()),
        };
        let index: u64 = match chunk.chunk_index {
            None => {
                assert(accepted(before, *self, new_stream, service@, whole, Err(CompareProblem::MissingChunkIndex)));
                return Err(CompareProblem::MissingChunkIndex);
            },
            Some(index) => index,
        };
        let mut stream = match self.service_stream.take() {
            None => {
                if !same(phase.as_str(), "structure") || index != 0 {
                    assert(accepted(before, *self, new_stream, service@, whole, Err(CompareProblem::MustBeginWithStructure)));
                    return Err(CompareProblem::MustBeginWithStructure);
                }
                fresh
            },
            Some(stream) => stream,
        };
        let outcome = stream.step(&mut self.accepted_stream_bytes, service, phase.as_str(), index, chunk);
        self.service_stream = Some(stream);
        proof {
            assert(accepted(before, *self, new_stream, service@, whole, outcome));
        }
        outcome
    }
}

/// How the state after a request relates to the state before it.
pub open spec fn accepted(
    before: CompareSession,
    after: CompareSession,
    fresh: CompareStream,
    service: Seq<char>,
    chunk: CompareChunk,
    r: Result<CompareStep, CompareProblem>,
) -> bool {
    let problem = before.chunk_problem(fresh, service, chunk);
    match r {
        Err(p) => {
            &&& problem == Some(p)
            &&& after.accepted_stream_bytes == before.accepted_stream_bytes
            &&& after.service_stream == (if before.reaches_stream(chunk) {
                Some(before.stream_or(fresh))
            } else {
                before.service_stream
            })
        },
        Ok(step) => {
            &&& problem is None
            &&& before.reaches_stream(chunk)
            &&& after.service_stream matches Some(end) && stepped(
                before.stream_or(fresh),
                end,
                before.accepted_stream_bytes,
                after.accepted_stream_bytes,
                chunk,
                step,
            )
        },
    }
}

/// How an accepted request changes the stream, and what it calls for.
pub open spec fn stepped(
    start: CompareStream,
    end: CompareStream,
    bytes_before: usize,
    bytes_after: usize,
    chunk: CompareChunk,
    step: CompareStep,
) -> bool {
    match start.phase {
        ComparePhase::Structure => {
            let charged = structure_charge(start, bytes_before, chunk);
            &&& charged == Ok::<(nat, nat), ChargeProblem>(
                (end.accepted_structure_bytes as nat, bytes_after as nat),
            )
            &&& if !chunk.final_chunk {
                &&& end.records@ == start.records@ + chunk.records@
                &&& end == (CompareStream {
                    records: end.records,
                    accepted_structure_bytes: end.accepted_structure_bytes,
                    next_chunk: (start.next_chunk + 1) as u64,
                    ..start
                })
                &&& step == CompareStep::MoreStructure(end.next_chunk)
            } else {
                &&& end.records@.len() == 0
                &&& end == (CompareStream {
                    records: end.records,
                    accepted_structure_bytes: end.accepted_structure_bytes,
                    final_structure_len: chunk.records@.len() as usize,
                    final_structure_bytes: chunk.encoded_bytes,
                    final_structure_chunk: chunk.chunk_index->0,
                    phase: ComparePhase::DiskPrepare,
                    next_chunk: 0,
                    ..start
                })
                &&& step matches CompareStep::Prepare(records) && records@ == start.records@
                    + chunk.records@
            }
        },
        ComparePhase::DiskPrepare => end == start && bytes_after == bytes_before && step
            == CompareStep::PollPrepare,
        ComparePhase::Identities => end == start && bytes_after == bytes_before && step
            == CompareStep::SendIdentities,
        ComparePhase::Hashes => {
            &&& end == (CompareStream { pending: end.pending, ..start })
            &&& bytes_after == bytes_before
            &&& step == CompareStep::ReadSources
            &&& end.pending matches Some(pending) && pending.last == chunk.final_chunk
                && pending.hashes@.len() == chunk.hashes@.len() && forall|k: int|
                0 <= k < pending.hashes@.len() ==> is_validated(
                    start.prepared->0,
                    chunk.hashes@[k],
                    #[trigger] pending.hashes@[k],
                )
        },
    }
}

impl CompareStream {
    /// Takes one request.
    fn step(
        &mut self,
        session_bytes: &mut usize,
        service: &str,
        phase: &str,
        index: u64,
        chunk: CompareChunk,
    ) -> (r: Result<CompareStep, CompareProblem>)
        requires
            old(self).wf(),
            old(self).next_chunk < u64::MAX,
            chunk.chunk_index == Some(index),
        ensures
            final(self).wf(),
            match r {
                Err(p) => {
                    &&& stream_problem(
                        *old(self),
                        *old(session_bytes),
                        service@,
                        phase@,
                        index,
                        chunk,
                    ) == Some(p)
                    &&& *final(self) == *old(self)
                    &&& *final(session_bytes) == *old(session_bytes)
                },
                Ok(step) => {
                    &&& stream_problem(
                        *old(self),
                        *old(session_bytes),
                        service@,
                        phase@,
                        index,
                        chunk,
                    ) is None
                    &&& stepped(
                        *old(self),
                        *final(self),
                        *old(session_bytes),
                        *final(session_bytes),
                        chunk,
                        step,
                    )
                },
            },
    {
        if !same(self.service.as_str(), service) {
            return Err(CompareProblem::OtherService);
        }
        if index != self.next_chunk {
            return Err(CompareProblem::ChunkOutOfOrder { wanted: self.next_chunk, got: index });
        }
        match self.phase {
            ComparePhase::Structure => self.take_structure(session_bytes, phase, index, chunk),
            ComparePhase::DiskPrepare => {
                if !only_tick(phase, "diskPrepare", &chunk) {
                    return Err(CompareProblem::PrepareOnlyTicks);
                }
                Ok(CompareStep::PollPrepare)
            },
            ComparePhase::Identities => {
                if !only_tick(phase, "identities", &chunk) {
                    return Err(CompareProblem::IdentityOnlyTicks);
                }
                Ok(CompareStep::SendIdentities)
            },
            ComparePhase::Hashes => self.take_hashes(phase, chunk),
        }
    }

    fn take_structure(
        &mut self,
        session_bytes: &mut usize,
        phase: &str,
        index: u64,
        chunk: CompareChunk,
    ) -> (r: Result<CompareStep, CompareProblem>)
        requires
            old(self).wf(),
            old(self).next_chunk < u64::MAX,
            old(self).phase == ComparePhase::Structure,
            chunk.chunk_index == Some(index),
        ensures
            final(self).wf(),
            match r {
                Err(p) => {
                    &&& structure_problem(*old(self), *old(session_bytes), phase@, chunk) == Some(p)
                    &&& *final(self) == *old(self)
                    &&& *final(session_bytes) == *old(session_bytes)
                },
                Ok(step) => {
                    &&& structure_problem(*old(self), *old(session_bytes), phase@, chunk) is None
                    &&& stepped(
                        *old(self),
                        *final(self),
                        *old(session_bytes),
                        *final(session_bytes),
                        chunk,
                        step,
                    )
                },
            },
    {
        if !same(phase, "structure") {
            return Err(CompareProblem::StructureFirst);
        }
        if chunk.hashes.len() > 0 || chunk.has_snapshot {
            return Err(CompareProblem::StructureOnlyRecords);
        }
        if let Err(problem) = validate_stream_record_chunk_fields(&chunk.records) {
            return Err(CompareProblem::Field(problem));
        }
        if chunk.records.len() > STREAM_STRUCTURE_CHUNK_NODES {
            return Err(CompareProblem::StructureChunkTooLarge);
        }
        if self.records.len() + chunk.records.len() > MAX_BOOTSTRAP_NODES {
            return Err(CompareProblem::TooManyNodes);
        }
        if let Some(problem) = find_density_problem(&chunk.records, self.records.len()) {
            return Err(problem);
        }
        let (service_bytes, total_bytes) = match charge_stream_structure_bytes(
            self.accepted_structure_bytes,
            *session_bytes,
            chunk.encoded_bytes,
        ) {
            Err(problem) => return Err(CompareProblem::Charge(problem)),
            Ok(charged) => charged,
        };
        self.accepted_structure_bytes = service_bytes;
        *session_bytes = total_bytes;
        let count: usize = chunk.records.len();
        let last = chunk.final_chunk;
        let bytes: usize = chunk.encoded_bytes;
        let mut records = chunk.records;
        self.records.append(&mut records);
        if !last {
            self.next_chunk = self.next_chunk + 1;
            return Ok(CompareStep::MoreStructure(self.next_chunk));
        }
        let mut all: Vec<FlatSnapshotRecord> = Vec::new();
        std::mem::swap(&mut all, &mut self.records);
        self.final_structure_len = count;
        self.final_structure_bytes = bytes;
        self.final_structure_chunk = index;
        self.phase = ComparePhase::DiskPrepare;
        self.next_chunk = 0;
        Ok(CompareStep::Prepare(all))
    }

    fn take_hashes(&mut self, phase: &str, chunk: CompareChunk) -> (r: Result<
        CompareStep,
        CompareProblem,
    >)
        requires
            old(self).wf(),
            old(self).phase == ComparePhase::Hashes,
        ensures
            final(self).wf(),
            match r {
                Err(p) => {
                    &&& digest_chunk_problem(*old(self), phase@, chunk) == Some(p)
                    &&& *final(self) == *old(self)
                },
                Ok(step) => {
                    &&& digest_chunk_problem(*old(self), phase@, chunk) is None
                    &&& stepped(*old(self), *final(self), 0, 0, chunk, step)
                },
            },
    {
        if !same(phase, "hashes") {
            return Err(CompareProblem::HashesStarted);
        }
        if chunk.records.len() > 0 || chunk.has_snapshot {
            return Err(CompareProblem::HashesOnlyHashes);
        }
        if chunk.hashes.len() > STREAM_COMPARE_HASH_CHUNK_NODES {
            return Err(CompareProblem::HashChunkTooLarge);
        }
        let prepared = match &self.prepared {
            None => return Err(CompareProblem::NoComparison),
            Some(prepared) => prepared,
        };
        let hashes = match check_hashes(prepared, &self.received_hash_ids, &chunk.hashes) {
            Err(problem) => return Err(problem),
            Ok(hashes) => hashes,
        };
        if chunk.final_chunk {
            let received: usize = self.received_hash_ids.len();
            let expected: usize = prepared.expected_hash_ids.len();
            proof {
                lemma_ids_fit(
                    self.received_hash_ids@,
                    prepared.expected_hash_ids@,
                    hashes@,
                    hashes@.len() as int,
                );
                vstd::set_lib::lemma_len_subset(
                    with_ids(self.received_hash_ids@, hashes@, hashes@.len() as int),
                    prepared.expected_hash_ids@,
                );
            }
            let total: usize = received + hashes.len();
            if total != expected {
                return Err(CompareProblem::HashesIncomplete { received: total, expected });
            }
        }
        self.pending = Some(PendingHashes { hashes, last: chunk.final_chunk });
        Ok(CompareStep::ReadSources)
    }
}

/// The received ids with those of the first `n` digests.
pub open spec fn with_ids(received: Set<u64>, hashes: Seq<ValidatedHash>, n: int) -> Set<u64>
    decreases n,
{
    if n <= 0 {
        received
    } else {
        with_ids(received, hashes, n - 1).insert(hashes[n - 1].id)
    }
}

proof fn lemma_ids_fit(received: Set<u64>, expected: Set<u64>, hashes: Seq<ValidatedHash>, n: int)
    requires
        0 <= n <= hashes.len(),
        received.finite(),
        received.subset_of(expected),
        forall|k: int|
            0 <= k < hashes.len() ==> expected.contains((#[trigger] hashes[k]).id)
                && !received.contains(hashes[k].id),
        forall|j: int, k: int|
            0 <= j < k < hashes.len() ==> (#[trigger] hashes[j]).id != (#[trigger] hashes[k]).id,
    ensures
        with_ids(received, hashes, n).finite(),
        with_ids(received, hashes, n).subset_of(expected),
        with_ids(received, hashes, n).len() == received.len() + n,
        forall|k: int|
            n <= k < hashes.len() ==> !with_ids(received, hashes, n).contains(
                (#[trigger] hashes[k]).id,
            ),
    decreases n,
{
    if n > 0 {
        lemma_ids_fit(received, expected, hashes, n - 1);
        let h = hashes[n - 1];
        assert(!with_ids(received, hashes, n - 1).contains(h.id));
        assert forall|k: int| n <= k < hashes.len() implies !with_ids(
            received,
            hashes,
            n,
        ).contains((#[trigger] hashes[k]).id) by {
            assert(hashes[n - 1].id != hashes[k].id);
        }
    }
}

/// What the reader of the directory says.
#[derive(Debug)]
pub enum PrepareOutcome {
    Pending,
    /// The reader is gone.
    Lost,
    /// The directory could not be read or compared; the records come back.
    Failed(Vec<FlatSnapshotRecord>),
    Ready { prepared: PreparedComparison, generation: TreeGeneration },
}

/// What is replied while the directory is read.
#[derive(Debug, Clone, Copy, PartialEq, Eq, Structural)]
pub enum PrepareReply {
    /// Ask again with this chunk.
    Waiting(u64),
    /// The structure must be finished anew with this chunk.
    Failed(u64),
    /// So many file names follow.
    Identities(usize),
}

/// What the reading of the directory leads to.
pub open spec fn polled(
    before: CompareSession,
    after: CompareSession,
    outcome: PrepareOutcome,
    r: Result<PrepareReply, CompareProblem>,
) -> bool {
    let start = before.service_stream->0;
    let end = after.service_stream->0;
    &&& after.service_stream is Some
    &&& match outcome {
        PrepareOutcome::Pending => {
            &&& r == Ok::<PrepareReply, CompareProblem>(
                PrepareReply::Waiting((start.next_chunk + 1) as u64),
            )
            &&& same_frame(before, after)
            &&& after.accepted_stream_bytes == before.accepted_stream_bytes
            &&& end == (CompareStream {
                next_chunk: (start.next_chunk + 1) as u64,
                ..start
            })
        },
        PrepareOutcome::Lost => {
            &&& r == Err::<PrepareReply, CompareProblem>(CompareProblem::PrepareLost)
            &&& after == before
        },
        PrepareOutcome::Failed(records) => {
            let kept = if records@.len() >= start.final_structure_len {
                records@.len() - start.final_structure_len
            } else {
                0
            };
            &&& r == Ok::<PrepareReply, CompareProblem>(
                PrepareReply::Failed(start.final_structure_chunk),
            )
            &&& same_frame(before, after)
            &&& after.accepted_stream_bytes == refunded(
                before.accepted_stream_bytes,
                start.final_structure_bytes,
            )
            &&& end.records@ == records@.take(kept)
            &&& end == (CompareStream {
                records: end.records,
                final_structure_len: 0,
                accepted_structure_bytes: refunded(
                    start.accepted_structure_bytes,
                    start.final_structure_bytes,
                ),
                final_structure_bytes: 0,
                phase: ComparePhase::Structure,
                next_chunk: start.final_structure_chunk,
                ..start
            })
        },
        PrepareOutcome::Ready { prepared, generation } => {
            &&& r == Ok::<PrepareReply, CompareProblem>(
                PrepareReply::Identities(prepared.identities@.len() as usize),
            )
            &&& after.staged_service_generations@ == before.staged_service_generations@.push(generation)
            &&& after == (CompareSession {
                staged_service_generations: after.staged_service_generations,
                service_stream: after.service_stream,
                ..before
            })
            &&& end == (CompareStream {
                final_structure_len: 0,
                final_structure_bytes: 0,
                final_structure_chunk: 0,
                prepared: Some(prepared),
                identity_offset: 0,
                phase: ComparePhase::Identities,
                next_chunk: 0,
                ..start
            })
        },
    }
}

impl CompareSession {
    /// Takes what the reader of the directory says.
    pub fn prepare_polled(&mut self, outcome: PrepareOutcome) -> (r: Result<
        PrepareReply,
        CompareProblem,
    >)
        requires
            old(self).wf(),
            old(self).service_stream matches Some(s) && s.phase == ComparePhase::DiskPrepare
                && s.next_chunk < u64::MAX && s.pending is None && s.received_hash_ids@.len() == 0,
            outcome matches PrepareOutcome::Failed(records) ==> records@.len()
                <= MAX_BOOTSTRAP_NODES,
            outcome matches PrepareOutcome::Ready { prepared, .. } ==> prepared.wf(),
        ensures
            final(self).wf(),
            polled(*old(self), *final(self), outcome, r),
    {
        let mut stream = match self.service_stream.take() {
            None => return Err(CompareProblem::NoComparison),
            Some(stream) => stream,
        };
        match outcome {
            PrepareOutcome::Pending => {
                stream.next_chunk = stream.next_chunk + 1;
                let next: u64 = stream.next_chunk;
                self.service_stream = Some(stream);
                Ok(PrepareReply::Waiting(next))
            },
            PrepareOutcome::Lost => {
                self.service_stream = Some(stream);
                Err(CompareProblem::PrepareLost)
            },
            PrepareOutcome::Failed(records) => {
                let mut records = records;
                let kept: usize = if records.len() >= stream.final_structure_len {
                    records.len() - stream.final_structure_len
                } else {
                    0
                };
                records.truncate(kept);
                stream.records = records;
                stream.final_structure_len = 0;
                let bytes: usize = stream.final_structure_bytes;
                stream.accepted_structure_bytes = refund(stream.accepted_structure_bytes, bytes);
                self.accepted_stream_bytes = refund(self.accepted_stream_bytes, bytes);
                stream.final_structure_bytes = 0;
                stream.phase = ComparePhase::Structure;
                stream.next_chunk = stream.final_structure_chunk;
                let next: u64 = stream.next_chunk;
                self.service_stream = Some(stream);
                Ok(PrepareReply::Failed(next))
            },
            PrepareOutcome::Ready { prepared, generation } => {
                let count: usize = prepared.identities.len();
                proof {
                    assert(stream.received_hash_ids@ =~= Set::<u64>::empty());
                }
                stream.final_structure_len = 0;
                stream.final_structure_bytes = 0;
                stream.final_structure_chunk = 0;
                stream.prepared = Some(prepared);
                stream.identity_offset = 0;
                stream.phase = ComparePhase::Identities;
                stream.next_chunk = 0;
                self.staged_service_generations.push(generation);
                self.service_stream = Some(stream);
                Ok(PrepareReply::Identities(count))
            },
        }
    }
}

/// A charge that is taken back.
pub open spec fn refunded(bytes: usize, back: usize) -> usize {
    if bytes >= back {
        (bytes - back) as usize
    } else {
        0
    }
}

fn refund(bytes: usize, back: usize) -> (r: usize)
    ensures
        r == refunded(bytes, back),
{
    if bytes >= back {
        bytes - back
    } else {
        0
    }
}

/// The file names of one reply: those from `from` on, `count` of them.
#[derive(Debug, Clone, Copy, PartialEq, Eq, Structural)]
pub struct IdentityReply {
    pub chunk_index: u64,
    pub final_chunk: bool,
    pub next_chunk: u64,
    pub identity_count: usize,
    pub from: usize,
    pub count: usize,
}

/// What a reply with identities says, and what follows it.
pub open spec fn identified(
    before: CompareSession,
    after: CompareSession,
    sizes: Seq<usize>,
    more_frame: usize,
    last_frame: usize,
    r: Result<IdentityReply, CompareProblem>,
) -> bool {
    let start = before.service_stream->0;
    let end = after.service_stream->0;
    let from = start.identity_offset;
    let n = packing::fitted(
        sizes,
        from as int,
        more_frame as int,
        last_frame as int,
        0,
    );
    let last = from + n == sizes.len();
    if n == 0 && from < sizes.len() {
        r == Err::<IdentityReply, CompareProblem>(CompareProblem::IdentityTooLarge)
            && end == start
    } else if n == 0 && last_frame > STREAM_SOURCE_CHUNK_BYTES {
        r == Err::<IdentityReply, CompareProblem>(CompareProblem::ReplyTooLarge)
            && end == start
    } else {
        &&& r == Ok::<IdentityReply, CompareProblem>(
            IdentityReply {
                chunk_index: start.next_chunk,
                final_chunk: last,
                next_chunk: if last {
                    0
                } else {
                    (start.next_chunk + 1) as u64
                },
                identity_count: sizes.len() as usize,
                from,
                count: n as usize,
            },
        )
        &&& end == (CompareStream {
            identity_offset: (from + n) as usize,
            phase: if last {
                ComparePhase::Hashes
            } else {
                ComparePhase::Identities
            },
            next_chunk: if last {
                0
            } else {
                (start.next_chunk + 1) as u64
            },
            ..start
        })
    }
}

impl CompareSession {
    /// Sends the next file names. `sizes` are the encoded sizes of all of them,
    /// `more_frame` and `last_frame` those of a reply without any.
    pub fn produce_initial_compare_identity_response(
        &mut self,
        sizes: &[usize],
        more_frame: usize,
        last_frame: usize,
    ) -> (r: Result<IdentityReply, CompareProblem>)
        requires
            old(self).wf(),
            old(self).service_stream matches Some(s) && s.phase == ComparePhase::Identities
                && s.next_chunk < u64::MAX && s.prepared is Some && s.prepared->0.identities@.len()
                == sizes@.len(),
        ensures
            final(self).wf(),
            same_frame(*old(self), *final(self)),
            final(self).accepted_stream_bytes == old(self).accepted_stream_bytes,
            final(self).service_stream is Some,
            identified(*old(self), *final(self), sizes@, more_frame, last_frame, r),
    {
        let mut stream = match self.service_stream.take() {
            None => return Err(CompareProblem::NoComparison),
            Some(stream) => stream,
        };
        let from: usize = stream.identity_offset;
        let total: usize = sizes.len();
        let count: usize = fit(sizes, from, more_frame, last_frame);
        if count == 0 && from < total {
            self.service_stream = Some(stream);
            return Err(CompareProblem::IdentityTooLarge);
        }
        if count == 0 && last_frame > STREAM_SOURCE_CHUNK_BYTES {
            self.service_stream = Some(stream);
            return Err(CompareProblem::ReplyTooLarge);
        }
        let chunk_index: u64 = stream.next_chunk;
        stream.identity_offset = from + count;
        let final_chunk = stream.identity_offset == total;
        if final_chunk {
            stream.phase = ComparePhase::Hashes;
            stream.next_chunk = 0;
        } else {
            stream.next_chunk = stream.next_chunk + 1;
        }
        let next_chunk: u64 = stream.next_chunk;
        self.service_stream = Some(stream);
        Ok(
            IdentityReply {
                chunk_index,
                final_chunk,
                next_chunk,
                identity_count: total,
                from,
                count,
            },
        )
    }
}

/// The nodes with the digests that Studio sent for the first `n` scripts.
pub open spec fn with_studio_hashes(
    nodes: Map<Seq<char>, diff::NodeModel>,
    hashes: Seq<ValidatedHash>,
    n: int,
) -> Map<Seq<char>, diff::NodeModel>
    decreases n,
{
    if n <= 0 {
        nodes
    } else {
        let before = with_studio_hashes(nodes, hashes, n - 1);
        let h = hashes[n - 1];
        before.insert(
            h.path@,
            (diff::NodeModel { source_hash: Some(h.digest@), ..before[h.path@] }),
        )
    }
}

/// The nodes with the digests that were read from disk for the first `n`
/// scripts.
pub open spec fn with_local_hashes(
    nodes: Map<Seq<char>, diff::NodeModel>,
    hashes: Seq<ValidatedHash>,
    read: Seq<Option<StagedScriptBaseline>>,
    n: int,
) -> Map<Seq<char>, diff::NodeModel>
    decreases n,
{
    if n <= 0 {
        nodes
    } else {
        let before = with_local_hashes(nodes, hashes, read, n - 1);
        let path = hashes[n - 1].path@;
        match read[n - 1] {
            Some(baseline) => before.insert(
                path,
                (diff::NodeModel {
                    source_hash: Some(baseline.source_hash@),
                    ..before[path]
                }),
            ),
            None => before,
        }
    }
}

/// The baselines that were read for the first `n` scripts.
pub open spec fn staged(read: Seq<Option<StagedScriptBaseline>>, n: int) -> Seq<
    StagedScriptBaseline,
>
    decreases n,
{
    if n <= 0 {
        Seq::empty()
    } else {
        match read[n - 1] {
            Some(baseline) => staged(read, n - 1).push(baseline),
            None => staged(read, n - 1),
        }
    }
}

fn set_hash(nodes: &mut TextMap<DiffNode>, path: &str, digest: [u8; 32])
    requires
        old(nodes).wf(),
        old(nodes)@.contains_key(path@),
    ensures
        final(nodes).wf(),
        final(nodes).keys() == old(nodes).keys(),
        final(nodes)@.dom() == old(nodes)@.dom(),
        diff::nodes_of(*final(nodes)) == diff::nodes_of(*old(nodes)).insert(
            path@,
            (diff::NodeModel {
                source_hash: Some(digest@),
                ..diff::nodes_of(*old(nodes))[path@]
            }),
        ),
{
    let ghost before = *nodes;
    let (found, at) = nodes.locate(path);
    nodes.entries[at].1.source_hash = Some(digest);
    proof {
        let after = *nodes;
        assert(after.keys() =~= before.keys());
        before.lemma_at(at as int);
        after.lemma_at(at as int);
        assert forall|k: Seq<char>| after@.contains_key(k) == before@.contains_key(k) by {}
        assert(after@.dom() =~= before@.dom());
        assert forall|k: Seq<char>| before@.contains_key(k) && k != path@ implies after@[k]
            == before@[k] by {
            let p = before.position(k);
            assert(after.position(k) == p);
        }
        assert(diff::nodes_of(after) =~= diff::nodes_of(before).insert(
            path@,
            (diff::NodeModel { source_hash: Some(digest@), ..diff::nodes_of(before)[path@] }),
        ));
    }
}

/// What is replied to committed digests.
#[derive(Debug, Clone, Copy, PartialEq, Eq, Structural)]
pub enum CommitReply {
    /// The digests go on with this chunk.
    MoreHashes(u64),
    /// The service was compared.
    ServiceDone,
}

/// The outcome of a service whose last digests were committed.
pub open spec fn service_merged(
    before: CompareSession,
    after: CompareSession,
    p: PreparedComparison,
    local: Map<Seq<char>, diff::NodeModel>,
    studio: Map<Seq<char>, diff::NodeModel>,
) -> bool {
    let local_keys = p.local_nodes.keys();
    let studio_keys = p.studio_nodes.keys();
    &&& diff::items(after.comparison.new_files@) == diff::items(before.comparison.new_files@)
        + diff::only_in(local_keys, local, studio, local_keys.len() as int)
    &&& diff::items(after.comparison.removed_files@) == diff::items(
        before.comparison.removed_files@,
    ) + diff::only_in(studio_keys, studio, local, studio_keys.len() as int)
    &&& diff::changes(after.comparison.changed_files@) == diff::changes(
        before.comparison.changed_files@,
    ) + diff::changed_in(local_keys, local, studio, local_keys.len() as int)
}

/// Whether both sides of a service agree.
pub open spec fn service_clean(
    p: PreparedComparison,
    local: Map<Seq<char>, diff::NodeModel>,
    studio: Map<Seq<char>, diff::NodeModel>,
) -> bool {
    let local_keys = p.local_nodes.keys();
    let studio_keys = p.studio_nodes.keys();
    &&& diff::only_in(local_keys, local, studio, local_keys.len() as int).len() == 0
    &&& diff::only_in(studio_keys, studio, local, studio_keys.len() as int).len() == 0
    &&& diff::changed_in(local_keys, local, studio, local_keys.len() as int).len() == 0
}

/// What committing digests leads to.
pub open spec fn committed(
    before: CompareSession,
    after: CompareSession,
    read: Seq<Option<StagedScriptBaseline>>,
    r: Result<CommitReply, CompareProblem>,
) -> bool {
    let start = before.service_stream->0;
    let p = start.prepared->0;
    let hashes = start.pending->0.hashes@;
    let n = hashes.len() as int;
    let local = with_local_hashes(diff::nodes_of(p.local_nodes), hashes, read, n);
    let studio = with_studio_hashes(diff::nodes_of(p.studio_nodes), hashes, n);
    &&& after.staged_baselines@ == before.staged_baselines@ + staged(read, n)
    &&& if !start.pending->0.last {
        &&& r == Ok::<CommitReply, CompareProblem>(
            CommitReply::MoreHashes((start.next_chunk + 1) as u64),
        )
        &&& after == (CompareSession {
            staged_baselines: after.staged_baselines,
            service_stream: after.service_stream,
            ..before
        })
        &&& after.service_stream matches Some(end) && {
            &&& end == (CompareStream {
                prepared: end.prepared,
                received_hash_ids: end.received_hash_ids,
                pending: None,
                next_chunk: (start.next_chunk + 1) as u64,
                ..start
            })
            &&& end.received_hash_ids@ == with_ids(start.received_hash_ids@, hashes, n)
            &&& end.prepared matches Some(q) && {
                &&& q == (PreparedComparison {
                    local_nodes: q.local_nodes,
                    studio_nodes: q.studio_nodes,
                    ..p
                })
                &&& diff::nodes_of(q.local_nodes) == local
                &&& diff::nodes_of(q.studio_nodes) == studio
                &&& q.local_nodes.keys() == p.local_nodes.keys()
                &&& q.studio_nodes.keys() == p.studio_nodes.keys()
            }
        }
    } else if service_clean(p, local, studio) && !p.identity_complete {
        &&& r == Err::<CommitReply, CompareProblem>(
            CompareProblem::IdentitiesIncomplete,
        )
        &&& after == (CompareSession {
            staged_baselines: after.staged_baselines,
            service_stream: after.service_stream,
            ..before
        })
        &&& after.service_stream matches Some(end) && end == (CompareStream {
            prepared: None,
            received_hash_ids: end.received_hash_ids,
            pending: None,
            next_chunk: (start.next_chunk + 1) as u64,
            ..start
        }) && end.received_hash_ids@ == with_ids(start.received_hash_ids@, hashes, n)
    } else {
        &&& r == Ok::<CommitReply, CompareProblem>(CommitReply::ServiceDone)
        &&& after.service_stream is None
        &&& after.next_service == before.next_service + 1
        &&& after == (CompareSession {
            staged_baselines: after.staged_baselines,
            service_stream: None,
            next_service: (before.next_service + 1) as usize,
            comparison: after.comparison,
            ..before
        })
        &&& service_merged(before, after, p, local, studio)
        &&& with_ids(start.received_hash_ids@, hashes, n) == p.expected_hash_ids@
    }
}

impl CompareSession {
    /// Commits the pending digests together with what was read from disk: one
    /// baseline for each digest that named a source file.
    pub fn commit_hashes(&mut self, read: Vec<Option<StagedScriptBaseline>>) -> (r: Result<
        CommitReply,
        CompareProblem,
    >)
        requires
            old(self).wf(),
            old(self).next_service < usize::MAX,
            old(self).service_stream matches Some(s) && s.answers_pending(read@),
        ensures
            final(self).wf(),
            committed(*old(self), *final(self), read@, r),
    {
        let mut stream = match self.service_stream.take() {
            None => return Err(CompareProblem::NoComparison),
            Some(stream) => stream,
        };
        let ghost start = stream;
        let pending = match stream.pending.take() {
            None => return Err(CompareProblem::NoComparison),
            Some(pending) => pending,
        };
        let mut prepared = match stream.prepared.take() {
            None => return Err(CompareProblem::NoComparison),
            Some(prepared) => prepared,
        };
        let ghost p = prepared;
        let ghost hashes = pending.hashes@;
        let ghost baselines = self.staged_baselines@;
        let ghost all = read@;
        let ghost local0 = diff::nodes_of(p.local_nodes);
        let ghost studio0 = diff::nodes_of(p.studio_nodes);
        let count: usize = pending.hashes.len();
        let mut read = read;
        let mut k: usize = 0;
        proof {
            assert(baselines =~= baselines + staged(all, 0));
        }
        while k < count
            invariant
                k <= count,
                count == hashes.len(),
                hashes == pending.hashes@,
                read@.len() == count,
                all.len() == count,
                forall|j: int| k <= j < count ==> #[trigger] read@[j] == all[j],
                p.wf(),
                pending_fits(p, start.received_hash_ids@, hashes),
                forall|j: int|
                    0 <= j < all.len() && (#[trigger] all[j]) is Some ==> hashes[j].source is Some,
                prepared.wf(),
                prepared == (PreparedComparison {
                    local_nodes: prepared.local_nodes,
                    studio_nodes: prepared.studio_nodes,
                    ..p
                }),
                prepared.local_nodes.keys() == p.local_nodes.keys(),
                prepared.studio_nodes.keys() == p.studio_nodes.keys(),
                prepared.local_nodes@.dom() == p.local_nodes@.dom(),
                prepared.studio_nodes@.dom() == p.studio_nodes@.dom(),
                diff::nodes_of(prepared.local_nodes) == with_local_hashes(
                    local0,
                    hashes,
                    all,
                    k as int,
                ),
                diff::nodes_of(prepared.studio_nodes) == with_studio_hashes(
                    studio0,
                    hashes,
                    k as int,
                ),
                stream.received_hash_ids@ == with_ids(start.received_hash_ids@, hashes, k as int),
                stream == (CompareStream {
                    received_hash_ids: stream.received_hash_ids,
                    pending: None,
                    prepared: None,
                    ..start
                }),
                self.staged_baselines@ == baselines + staged(all, k as int),
                *self == (CompareSession {
                    staged_baselines: self.staged_baselines,
                    service_stream: None,
                    ..*old(self)
                }),
            decreases count - k,
        {
            let h = &pending.hashes[k];
            assert(p.studio_nodes@.contains_key(hashes[k as int].path@));
            set_hash(&mut prepared.studio_nodes, h.path.as_str(), h.digest);
            let mut slot: Option<StagedScriptBaseline> = None;
            let ghost read_before = read@;
            std::mem::swap(&mut slot, &mut read[k]);
            proof {
                assert(slot == all[k as int]);
            }
            let ghost staged_before = self.staged_baselines@;
            if let Some(baseline) = slot {
                assert(all[k as int] is Some);
                assert(p.local_nodes@.dom().contains(hashes[k as int].path@));
                set_hash(&mut prepared.local_nodes, h.path.as_str(), baseline.source_hash);
                self.staged_baselines.push(baseline);
                proof {
                    assert(self.staged_baselines@ =~= baselines + staged(all, k + 1));
                }
            }
            stream.received_hash_ids.insert(h.id);
            k += 1;
        }
        proof {
            lemma_ids_fit(
                start.received_hash_ids@,
                p.expected_hash_ids@,
                hashes,
                hashes.len() as int,
            );
        }
        stream.next_chunk = stream.next_chunk + 1;
        if !pending.last {
            let next: u64 = stream.next_chunk;
            stream.prepared = Some(prepared);
            self.service_stream = Some(stream);
            return Ok(CommitReply::MoreHashes(next));
        }
        proof {
            vstd::set_lib::lemma_subset_equality(
                stream.received_hash_ids@,
                p.expected_hash_ids@,
            );
        }
        let report = compare(&prepared.local_nodes, &prepared.studio_nodes);
        proof {
            assert(diff::items(report.added@).len() == report.added@.len());
            assert(diff::items(report.removed@).len() == report.removed@.len());
            assert(diff::changes(report.changed@).len() == report.changed@.len());
        }
        if report.is_clean() && !prepared.identity_complete {
            self.service_stream = Some(stream);
            return Err(CompareProblem::IdentitiesIncomplete);
        }
        let ghost earlier = self.comparison;
        let ghost added = report.added@;
        let ghost removed = report.removed@;
        let ghost changed = report.changed@;
        self.comparison.merge(
            InitialComparison {
                new_files: report.added,
                changed_files: report.changed,
                removed_files: report.removed,
            },
        );
        proof {
            assert(diff::items(self.comparison.new_files@) =~= diff::items(earlier.new_files@)
                + diff::items(added));
            assert(diff::items(self.comparison.removed_files@) =~= diff::items(
                earlier.removed_files@,
            ) + diff::items(removed));
            assert(diff::changes(self.comparison.changed_files@) =~= diff::changes(
                earlier.changed_files@,
            ) + diff::changes(changed));
        }
        self.next_service = self.next_service + 1;
        Ok(CommitReply::ServiceDone)
    }
}

/// How long a session lives on after its last event, in milliseconds.
pub open spec fn session_ttl(completed: bool) -> u64 {
    if completed {
        INITIAL_COMPARE_COMPLETED_TTL_MS
    } else {
        INITIAL_COMPARE_SESSION_TTL_MS
    }
}

/// Whether a session is over, `idle` milliseconds after its last event.
pub fn initial_compare_session_expired(completed: bool, idle: u64) -> (r: bool)
    ensures
        r == (idle >= session_ttl(completed)),
{
    initial_compare_time_left(completed, idle) == 0
}

/// How long a session still lives.
pub fn initial_compare_time_left(completed: bool, idle: u64) -> (r: u64)
    ensures
        r == (if idle >= session_ttl(completed) {
            0
        } else {
            session_ttl(completed) - idle
        }),
{
    let ttl: u64 = if completed {
        INITIAL_COMPARE_COMPLETED_TTL_MS
    } else {
        INITIAL_COMPARE_SESSION_TTL_MS
    };
    if idle >= ttl {
        0
    } else {
        ttl - idle
    }
}

/// Why a request to compare a service is not taken.
#[derive(Debug, Clone, Copy, PartialEq, Eq, Structural)]
pub enum AdmissionProblem {
    NoCompareId,
    NoService,
    /// A whole tree must be that of the service.
    NotTheService,
    /// A chunk holds a whole tree.
    ChunkWithTree,
    NoSession,
    Expired,
    OtherCompareId,
    Completed,
    /// Another service comes first, by its place.
    WrongService(usize),
}

/// What is wrong with the shape of a request.
pub open spec fn request_shape_problem(
    compare_id: Option<Seq<char>>,
    service: Option<Seq<char>>,
    streamed: bool,
    trees: Seq<Option<Seq<char>>>,
) -> Option<AdmissionProblem> {
    match (compare_id, service) {
        (None, _) => Some(AdmissionProblem::NoCompareId),
        (Some(_), None) => Some(AdmissionProblem::NoService),
        (Some(_), Some(name)) => if !streamed && (trees.len() != 1 || trees[0] != Some(name)) {
            Some(AdmissionProblem::NotTheService)
        } else if streamed && trees.len() > 0 {
            Some(AdmissionProblem::ChunkWithTree)
        } else {
            None
        },
    }
}

pub open spec fn option_str(o: Option<&str>) -> Option<Seq<char>> {
    match o {
        Some(s) => Some(s@),
        None => None,
    }
}

/// Checks the shape of a request: the ids that it names, whether it is one of
/// a stream, and the names of the whole trees that it holds.
pub fn check_request_shape(
    compare_id: Option<&str>,
    service: Option<&str>,
    streamed: bool,
    trees: &[Option<String>],
) -> (r: Result<(), AdmissionProblem>)
    ensures
        ({
            let names = Seq::new(
                trees@.len(),
                |i: int| crate::text::option_text(trees@[i]),
            );
            let problem = request_shape_problem(
                option_str(compare_id),
                option_str(service),
                streamed,
                names,
            );
            match r {
                Err(p) => problem == Some(p),
                Ok(()) => problem is None,
            }
        }),
{
    if compare_id.is_none() {
        return Err(AdmissionProblem::NoCompareId);
    }
    let name = match service {
        None => return Err(AdmissionProblem::NoService),
        Some(name) => name,
    };
    if !streamed {
        let fits = trees.len() == 1 && match &trees[0] {
            Some(tree) => same(tree.as_str(), name),
            None => false,
        };
        if !fits {
            return Err(AdmissionProblem::NotTheService);
        }
    } else if trees.len() > 0 {
        return Err(AdmissionProblem::ChunkWithTree);
    }
    Ok(())
}

/// What becomes of a well-formed request.
#[derive(Debug, Clone, Copy, PartialEq, Eq, Structural)]
pub enum Admission {
    Refused(AdmissionProblem),
    /// The last reply answers it.
    Replay,
    Process,
}

/// What becomes of a request to compare a service with that digest.
pub open spec fn admission(
    session: Option<&CompareSession>,
    idle: u64,
    compare_id: Seq<char>,
    service: Seq<char>,
    digest: Seq<u8>,
) -> Admission {
    match session {
        None => Admission::Refused(AdmissionProblem::NoSession),
        Some(s) => if idle >= session_ttl(s.completed) {
            Admission::Refused(AdmissionProblem::Expired)
        } else if s.compare_id@ != compare_id {
            Admission::Refused(AdmissionProblem::OtherCompareId)
        } else if crate::text::option_text(s.last_service) == Some(service)
            && s.last_request_hash is Some && s.last_request_hash->0@ == digest {
            Admission::Replay
        } else {
            match sync_scope::service_text(s.next_service as int) {
                None => Admission::Refused(AdmissionProblem::Completed),
                Some(name) => if name != service {
                    Admission::Refused(AdmissionProblem::WrongService(s.next_service))
                } else {
                    Admission::Process
                },
            }
        },
    }
}

/// Admits a request to compare a service.
pub fn initial_compare_service_chunk(
    session: Option<&CompareSession>,
    idle: u64,
    compare_id: &str,
    service: &str,
    digest: &[u8; 32],
) -> (r: Admission)
    ensures
        r == admission(session, idle, compare_id@, service@, digest@),
{
    let s = match session {
        None => return Admission::Refused(AdmissionProblem::NoSession),
        Some(s) => s,
    };
    if initial_compare_session_expired(s.completed, idle) {
        return Admission::Refused(AdmissionProblem::Expired);
    }
    if !same(s.compare_id.as_str(), compare_id) {
        return Admission::Refused(AdmissionProblem::OtherCompareId);
    }
    let repeated = match (&s.last_service, &s.last_request_hash) {
        (Some(last), Some(hash)) => same(last.as_str(), service) && crate::conflict::same_hash(
            hash,
            digest,
        ),
        _ => false,
    };
    if repeated {
        return Admission::Replay;
    }
    match service_at(s.next_service) {
        None => Admission::Refused(AdmissionProblem::Completed),
        Some(name) => if same(name, service) {
            Admission::Process
        } else {
            Admission::Refused(AdmissionProblem::WrongService(s.next_service))
        },
    }
}

impl CompareSession {
    /// The next service to compare; nothing where all were compared.
    pub fn next_initial_compare_response(&self) -> (r: Option<&'static str>)
        ensures
            match r {
                Some(name) => sync_scope::service_text(self.next_service as int) == Some(name@),
                None => sync_scope::service_text(self.next_service as int) is None,
            },
    {
        service_at(self.next_service)
    }

    /// The session after a reply.
    pub open spec fn after_reply(
        &self,
        service: Option<String>,
        digest: [u8; 32],
        said: String,
        choice_id: Option<String>,
    ) -> Self {
        CompareSession {
            last_service: service,
            last_request_hash: Some(digest),
            last_reply: Some(said),
            pending_choice_id: choice_id,
            completed: self.completed || self.next_service == sync_scope::SYNCED_SERVICE_COUNT,
            ..*self
        }
    }

    /// Remembers the request that was answered with the reply as it was sent,
    /// and the choice that the answer gave rise to.
    pub fn answered(
        &mut self,
        service: &str,
        digest: [u8; 32],
        said: String,
        choice_id: Option<String>,
    )
        ensures
            *final(self) == old(self).after_reply(
                final(self).last_service,
                digest,
                said,
                choice_id,
            ),
            crate::text::option_text(final(self).last_service) == Some(service@),
    {
        self.last_service = Some(owned(service));
        self.last_request_hash = Some(digest);
        self.last_reply = Some(said);
        self.pending_choice_id = choice_id;
        if self.next_service == sync_scope::SYNCED_SERVICE_COUNT {
            self.completed = true;
        }
    }

    /// The reply to the last request that was answered, for the same request
    /// once more.
    pub fn reply_again(&self) -> (said: Option<String>)
        ensures
            crate::text::option_text(said) == crate::text::option_text(self.last_reply),
    {
        match &self.last_reply {
            Some(said) => Some(owned(said.as_str())),
            None => None,
        }
    }

    /// Compares a service that came as one whole tree.
    pub fn merge_service(&mut self, comparison: InitialComparison)
        requires
            old(self).next_service < usize::MAX,
        ensures
            *final(self) == (CompareSession {
                comparison: final(self).comparison,
                next_service: (old(self).next_service + 1) as usize,
                ..*old(self)
            }),
            final(self).comparison.new_files@ == old(self).comparison.new_files@
                + comparison.new_files@,
            final(self).comparison.changed_files@ == old(self).comparison.changed_files@
                + comparison.changed_files@,
            final(self).comparison.removed_files@ == old(self).comparison.removed_files@
                + comparison.removed_files@,
    {
        self.comparison.merge(comparison);
        self.next_service = self.next_service + 1;
    }
}

/// Whether a session is done with, once its choice was answered.
pub fn clear_completed_initial_compare_for_choice(session: &CompareSession, choice_id: &str) -> (r:
    bool)
    ensures
        r == (session.completed && crate::text::option_text(session.pending_choice_id) == Some(
            choice_id@,
        )),
{
    let chosen = match &session.pending_choice_id {
        Some(id) => same(id.as_str(), choice_id),
        None => false,
    };
    session.completed && chosen
}

/// The request that was answered last, sent again, is answered from memory with
/// the very same reply, as long as the session lives.
pub proof fn law_repeated_request_gets_the_same_reply(
    before: CompareSession,
    after: CompareSession,
    service: Option<String>,
    digest: [u8; 32],
    said: String,
    choice_id: Option<String>,
    idle: u64,
)
    requires
        service is Some,
        after == before.after_reply(service, digest, said, choice_id),
        idle < session_ttl(after.completed),
    ensures
        admission(Some(&after), idle, after.compare_id@, service->0@, digest@) == Admission::Replay,
        after.last_reply == Some(said),
{
}

/// A failed reading of the directory leaves the structure as it was before the
/// last chunk, so that this chunk may be sent again.
pub proof fn law_failed_reading_can_be_retried(
    start: CompareStream,
    mid: CompareStream,
    end: CompareStream,
    chunk: CompareChunk,
    bytes_before: usize,
    bytes_mid: usize,
    step: CompareStep,
    records: Seq<FlatSnapshotRecord>,
)
    requires
        start.phase == ComparePhase::Structure,
        start.next_chunk == chunk.chunk_index->0,
        chunk.final_chunk,
        stepped(start, mid, bytes_before, bytes_mid, chunk, step),
        step matches CompareStep::Prepare(sent) && sent@ == records,
        records.len() <= usize::MAX,
        end.records@ == records.take(records.len() - mid.final_structure_len),
        end.next_chunk == mid.final_structure_chunk,
        end.phase == ComparePhase::Structure,
        end.accepted_structure_bytes == refunded(
            mid.accepted_structure_bytes,
            mid.final_structure_bytes,
        ),
    ensures
        end.records@ == start.records@,
        end.next_chunk == start.next_chunk,
        end.phase == start.phase,
        end.accepted_structure_bytes == start.accepted_structure_bytes,
        refunded(bytes_mid, mid.final_structure_bytes) == bytes_before,
{
    assert(end.records@ =~= start.records@);
}

/// A chunk of digests that is refused, or whose sources on disk cannot be read
/// and that is therefore never committed, leaves what was received, the nodes
/// and the results as they were: the next chunk is taken as if that one had
/// never been sent.
pub proof fn law_failed_digest_chunk_can_be_corrected(
    before: CompareSession,
    after: CompareSession,
    end: CompareSession,
    fresh: CompareStream,
    service: Seq<char>,
    failed: CompareChunk,
    corrected: CompareChunk,
    r: Result<CompareStep, CompareProblem>,
    step: CompareStep,
)
    requires
        before.service_stream matches Some(s) && s.phase == ComparePhase::Hashes,
        same_frame(before, after),
        accepted(before, after, fresh, service, failed, r),
    ensures
        after.service_stream matches Some(s) && {
            let start = before.service_stream->0;
            &&& s.received_hash_ids == start.received_hash_ids
            &&& s.next_chunk == start.next_chunk
            &&& s.prepared == start.prepared
            &&& s.phase == start.phase
        },
        after.staged_baselines == before.staged_baselines,
        after.comparison == before.comparison,
        after.chunk_problem(fresh, service, corrected) == before.chunk_problem(
            fresh,
            service,
            corrected,
        ),
        same_frame(after, end) == same_frame(before, end),
        accepted(after, end, fresh, service, corrected, Ok(step)) == accepted(
            before,
            end,
            fresh,
            service,
            corrected,
            Ok(step),
        ),
{
}

/// Whether an error asks the user to rename files of an older layout.
pub open spec fn asks_for_migration(error: Seq<char>) -> bool {
    &&& "legacy leaf script "@.is_prefix_of(error)
    &&& crate::text::holds(error, "uses the reserved init-marker filename grammar"@)
}

/// The message of an error, and whether it asks the user to rename files of an
/// older layout.
pub fn initial_compare_error_value(prefix: &str, error: &str) -> (r: (String, bool))
    ensures
        r.0@ == (if prefix@.len() == 0 {
            error@
        } else {
            prefix@ + ": "@ + error@
        }),
        r.1 == asks_for_migration(error@),
{
    let mut message = owned(prefix);
    if crate::text::chars_of(prefix).len() == 0 {
        message = owned(error);
    } else {
        crate::text::append(&mut message, ": ");
        crate::text::append(&mut message, error);
    }
    let chars = crate::text::chars_of(error);
    let migrate = crate::text::starts_with(&chars, "legacy leaf script ")
        && crate::text::text_holds(&chars, "uses the reserved init-marker filename grammar");
    (message, migrate)
}

} // verus!
