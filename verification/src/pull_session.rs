//! One transfer of the project to Studio: how it starts, which request comes
//! next, how a service is prepared and when the transfer is complete.
use std::collections::HashMap;

use vstd::prelude::*;

use crate::conflict::same_hash;
use crate::disk_index;
use crate::flat;
use crate::flat::{validate_flat_snapshot, FlatProblem, FlatSnapshotRecord};
use crate::fs_safety::{FileGeneration, ObjectProblem, TreeGeneration};
use crate::preparation;
use crate::pull_stream::{
    snapshot_phase_name, PhaseReply, PullPhase, PullService, MAX_REQUEST_ID_BYTES,
    MAX_STREAM_SESSIONS, STREAM_COMPLETED_TTL_MS, STREAM_SESSION_TTL_MS,
};
use crate::selective;
use crate::selective::{selective_flat_service, SelectiveFlatService};
use crate::sync_scope;
use crate::sync_scope::service_at;
use crate::text;
use crate::text::{owned, same};
use crate::timed_store;
use crate::timed_store::TimedStore;

verus! {

broadcast use vstd::std_specs::hash::group_hash_axioms;

/// A request of a transfer.
#[derive(Debug)]
pub struct SnapshotStreamBody {
    pub plugin_protocol: Option<u64>,
    pub request_id: String,
    pub stream_id: Option<String>,
    pub phase: String,
    pub service: Option<String>,
    pub chunk_index: Option<u64>,
    pub strict: bool,
    pub avoid_sync_paths: Vec<Vec<String>>,
    pub choice_id: Option<String>,
}

/// Why a request of a transfer is refused.
#[derive(Debug, Clone, Copy, PartialEq, Eq, Structural)]
pub enum PullRefusal {
    Protocol,
    RequestId,
    /// A start names a place in a transfer.
    StartWithCursor,
    TooManySessions,
    /// A selection cannot ask for pruning.
    StrictSelection,
    /// Nothing was granted for the choice.
    NoGrant,
    NoStreamId,
    /// A later request brings options of a start.
    ChangedOptions,
    NoSession,
    Expired,
    /// The request belongs to another transfer.
    OtherStream,
    Completed,
    /// Another service comes next, by its place.
    WrongService(usize),
    /// That chunk of the preparation comes next.
    ExpectedPrepare(u64),
    /// That phase and chunk come next.
    ExpectedChunk(PullPhase, u64),
}

/// What is wrong with every request of that form.
pub open spec fn form_refusal(body: SnapshotStreamBody, protocol: u64) -> Option<PullRefusal> {
    let size = vstd::utf8::encode_utf8(body.request_id@).len();
    if body.plugin_protocol != Some(protocol) {
        Some(PullRefusal::Protocol)
    } else if size == 0 || size > MAX_REQUEST_ID_BYTES {
        Some(PullRefusal::RequestId)
    } else {
        None
    }
}

/// Checks what every request must bring.
pub fn check_pull_request(body: &SnapshotStreamBody, protocol: u64) -> (r: Option<PullRefusal>)
    ensures
        r == form_refusal(*body, protocol),
{
    let fits = match body.plugin_protocol {
        Some(p) => p == protocol,
        None => false,
    };
    if !fits {
        return Some(PullRefusal::Protocol);
    }
    let size: usize = body.request_id.as_str().as_bytes().len();
    if size == 0 || size > MAX_REQUEST_ID_BYTES {
        return Some(PullRefusal::RequestId);
    }
    None
}

/// A transfer of the project to Studio.
#[derive(Debug)]
pub struct PullSession {
    pub request_id: String,
    pub stream_id: String,
    pub selective_paths: Option<Vec<String>>,
    pub selective_choice_id: Option<String>,
    /// The place of the service that is sent.
    pub next_service: usize,
    /// That service, once it was prepared.
    pub service: Option<PullService>,
    pub prepare_next_chunk: u64,
    /// The digest of the last request that was answered, and its reply as it
    /// was sent.
    pub last_request_hash: crate::conflict::Hash,
    pub last_reply: String,
    pub completed: bool,
}

/// How long a transfer lives on after its last request.
pub open spec fn pull_ttl(completed: bool) -> u64 {
    if completed {
        STREAM_COMPLETED_TTL_MS
    } else {
        STREAM_SESSION_TTL_MS
    }
}

/// Whether a transfer is over, `idle` milliseconds after its last request.
pub fn snapshot_stream_expired(completed: bool, idle: u64) -> (r: bool)
    ensures
        r == (idle >= pull_ttl(completed)),
{
    snapshot_stream_time_left(completed, idle) == 0
}

/// How long a transfer still lives.
pub fn snapshot_stream_time_left(completed: bool, idle: u64) -> (r: u64)
    ensures
        r == (if idle >= pull_ttl(completed) {
            0
        } else {
            pull_ttl(completed) - idle
        }),
{
    let ttl: u64 = if completed {
        STREAM_COMPLETED_TTL_MS
    } else {
        STREAM_SESSION_TTL_MS
    };
    if idle >= ttl {
        0
    } else {
        ttl - idle
    }
}

/// What becomes of a request.
#[derive(Debug, Clone, Copy, PartialEq, Eq, Structural)]
pub enum PullAdmission {
    Refused(PullRefusal),
    /// The last reply answers it.
    Replay,
    /// A transfer may start.
    Start,
    /// The preparation of the service is asked for.
    Prepare,
    /// The next chunk of the phase is asked for.
    Produce(PullPhase),
}

/// What becomes of a request to start a transfer, beside `sessions` living
/// ones, of which `existing` is that of the project.
pub open spec fn start_admission(
    body: SnapshotStreamBody,
    protocol: u64,
    existing: Option<&PullSession>,
    sessions: usize,
    digest: Seq<u8>,
) -> PullAdmission {
    match form_refusal(body, protocol) {
        Some(p) => PullAdmission::Refused(p),
        None => if body.stream_id is Some || body.service is Some || body.chunk_index is Some {
            PullAdmission::Refused(PullRefusal::StartWithCursor)
        } else if existing is Some && existing->0.request_id@ == body.request_id@
            && existing->0.last_request_hash@ == digest {
            PullAdmission::Replay
        } else if sessions >= MAX_STREAM_SESSIONS && existing is None {
            PullAdmission::Refused(PullRefusal::TooManySessions)
        } else {
            PullAdmission::Start
        },
    }
}

/// Admits a request to start a transfer.
pub fn admit_pull_start(
    body: &SnapshotStreamBody,
    protocol: u64,
    existing: Option<&PullSession>,
    sessions: usize,
    digest: &[u8; 32],
) -> (r: PullAdmission)
    ensures
        r == start_admission(*body, protocol, existing, sessions, digest@),
{
    match check_pull_request(body, protocol) {
        Some(p) => return PullAdmission::Refused(p),
        None => {},
    }
    if body.stream_id.is_some() || body.service.is_some() || body.chunk_index.is_some() {
        return PullAdmission::Refused(PullRefusal::StartWithCursor);
    }
    match existing {
        Some(s) => {
            if same(s.request_id.as_str(), body.request_id.as_str()) && same_hash(
                &s.last_request_hash,
                digest,
            ) {
                return PullAdmission::Replay;
            }
        },
        None => {
            if sessions >= MAX_STREAM_SESSIONS {
                return PullAdmission::Refused(PullRefusal::TooManySessions);
            }
        },
    }
    PullAdmission::Start
}

/// What becomes of a later request, `idle` milliseconds after the last one.
pub open spec fn chunk_admission(
    body: SnapshotStreamBody,
    protocol: u64,
    session: Option<&PullSession>,
    idle: u64,
    digest: Seq<u8>,
) -> PullAdmission {
    match form_refusal(body, protocol) {
        Some(p) => PullAdmission::Refused(p),
        None => if body.stream_id is None {
            PullAdmission::Refused(PullRefusal::NoStreamId)
        } else if body.strict || body.avoid_sync_paths@.len() > 0 || body.choice_id is Some {
            PullAdmission::Refused(PullRefusal::ChangedOptions)
        } else if session is None {
            PullAdmission::Refused(PullRefusal::NoSession)
        } else {
            let s = session->0;
            if idle >= pull_ttl(s.completed) {
                PullAdmission::Refused(PullRefusal::Expired)
            } else if s.stream_id@ != body.stream_id->0@ || s.request_id@ != body.request_id@ {
                PullAdmission::Refused(PullRefusal::OtherStream)
            } else if s.last_request_hash@ == digest {
                PullAdmission::Replay
            } else if s.completed {
                PullAdmission::Refused(PullRefusal::Completed)
            } else if text::option_text(body.service) is None || text::option_text(body.service)
                != sync_scope::service_text(s.next_service as int) {
                PullAdmission::Refused(PullRefusal::WrongService(s.next_service))
            } else {
                cursor_admission(*s, body.phase@, body.chunk_index)
            }
        },
    }
}

/// What becomes of a request for a chunk of a phase of the service.
pub open spec fn cursor_admission(
    s: PullSession,
    phase: Seq<char>,
    chunk: Option<u64>,
) -> PullAdmission {
    match s.service {
        None => if phase != "diskPrepare"@ || chunk != Some(s.prepare_next_chunk) {
            PullAdmission::Refused(PullRefusal::ExpectedPrepare(s.prepare_next_chunk))
        } else {
            PullAdmission::Prepare
        },
        Some(stream) => if phase != stream.phase.text() || chunk != Some(stream.next_chunk) {
            PullAdmission::Refused(PullRefusal::ExpectedChunk(stream.phase, stream.next_chunk))
        } else {
            PullAdmission::Produce(stream.phase)
        },
    }
}

fn is_number(o: Option<u64>, n: u64) -> (r: bool)
    ensures
        r == (o == Some(n)),
{
    match o {
        Some(x) => x == n,
        None => false,
    }
}

/// Admits a later request of a transfer.
pub fn admit_pull_chunk(
    body: &SnapshotStreamBody,
    protocol: u64,
    session: Option<&PullSession>,
    idle: u64,
    digest: &[u8; 32],
) -> (r: PullAdmission)
    ensures
        r == chunk_admission(*body, protocol, session, idle, digest@),
{
    match check_pull_request(body, protocol) {
        Some(p) => return PullAdmission::Refused(p),
        None => {},
    }
    let stream_id = match &body.stream_id {
        None => return PullAdmission::Refused(PullRefusal::NoStreamId),
        Some(stream_id) => stream_id.as_str(),
    };
    if body.strict || body.avoid_sync_paths.len() > 0 || body.choice_id.is_some() {
        return PullAdmission::Refused(PullRefusal::ChangedOptions);
    }
    let s = match session {
        None => return PullAdmission::Refused(PullRefusal::NoSession),
        Some(s) => s,
    };
    if snapshot_stream_expired(s.completed, idle) {
        return PullAdmission::Refused(PullRefusal::Expired);
    }
    if !same(s.stream_id.as_str(), stream_id) || !same(
        s.request_id.as_str(),
        body.request_id.as_str(),
    ) {
        return PullAdmission::Refused(PullRefusal::OtherStream);
    }
    if same_hash(&s.last_request_hash, digest) {
        return PullAdmission::Replay;
    }
    if s.completed {
        return PullAdmission::Refused(PullRefusal::Completed);
    }
    let expected = match (&body.service, service_at(s.next_service)) {
        (Some(asked), Some(next)) => same(asked.as_str(), next),
        _ => false,
    };
    if !expected {
        return PullAdmission::Refused(PullRefusal::WrongService(s.next_service));
    }
    match &s.service {
        None => {
            if !same(body.phase.as_str(), "diskPrepare") || !is_number(
                body.chunk_index,
                s.prepare_next_chunk,
            ) {
                return PullAdmission::Refused(
                    PullRefusal::ExpectedPrepare(s.prepare_next_chunk),
                );
            }
            PullAdmission::Prepare
        },
        Some(stream) => {
            if !same(body.phase.as_str(), snapshot_phase_name(stream.phase)) || !is_number(
                body.chunk_index,
                stream.next_chunk,
            ) {
                return PullAdmission::Refused(
                    PullRefusal::ExpectedChunk(stream.phase, stream.next_chunk),
                );
            }
            PullAdmission::Produce(stream.phase)
        },
    }
}

/// The paths that a choice grants to a transfer; the grant is used up.
pub fn take_selection(
    choice_id: Option<&str>,
    strict: bool,
    grants: &mut TimedStore<Vec<String>>,
    project: &str,
    now: u64,
    ttl: u64,
) -> (r: Result<Option<Vec<String>>, PullRefusal>)
    ensures
        ({
            let before = old(grants).entries@;
            let young = timed_store::alive(before, now, ttl, before.len() as int);
            match choice_id {
                None => r == Ok::<Option<Vec<String>>, PullRefusal>(None) && final(grants).entries@
                    == before,
                Some(id) => if strict {
                    r == Err::<Option<Vec<String>>, PullRefusal>(PullRefusal::StrictSelection)
                        && final(grants).entries@ == before
                } else {
                    match timed_store::place(young, seq![project@, id@], 0) {
                        None => r == Err::<Option<Vec<String>>, PullRefusal>(PullRefusal::NoGrant)
                            && final(grants).entries@ == young,
                        Some(k) => r == Ok::<Option<Vec<String>>, PullRefusal>(
                            Some(young[k].value),
                        ) && final(grants).entries@ == young.remove(k),
                    }
                },
            }
        }),
{
    let id = match choice_id {
        None => return Ok(None),
        Some(id) => id,
    };
    if strict {
        return Err(PullRefusal::StrictSelection);
    }
    match crate::decision::take_grant(grants, project, id, now, ttl) {
        None => Err(PullRefusal::NoGrant),
        Some(paths) => Ok(Some(paths)),
    }
}

/// What becomes of a transfer after a reply.
#[derive(Debug, Clone, Copy, PartialEq, Eq, Structural)]
pub enum Advance {
    /// The same service goes on.
    Stay,
    /// The service at that place is prepared next.
    NextService(usize),
    Complete,
}

impl PullSession {
    pub open spec fn wf(&self) -> bool {
        &&& self.next_service < sync_scope::SYNCED_SERVICE_COUNT
        &&& self.service matches Some(s) ==> s.wf()
    }

    /// Starts a transfer with the first service; its start is the first chunk of
    /// the preparation.
    pub fn start(
        request_id: &str,
        stream_id: String,
        selective_paths: Option<Vec<String>>,
        selective_choice_id: Option<String>,
        digest: [u8; 32],
        said: String,
    ) -> (s: PullSession)
        ensures
            s.wf(),
            s.request_id@ == request_id@,
            s.stream_id == stream_id,
            s.selective_paths == selective_paths,
            s.selective_choice_id == selective_choice_id,
            s.next_service == 0 && s.service is None && s.prepare_next_chunk == 1,
            s.last_request_hash == digest && s.last_reply == said,
            !s.completed,
    {
        PullSession {
            request_id: owned(request_id),
            stream_id,
            selective_paths,
            selective_choice_id,
            next_service: 0,
            service: None,
            prepare_next_chunk: 1,
            last_request_hash: digest,
            last_reply: said,
            completed: false,
        }
    }

    /// The transfer after the answer that the service is still being prepared.
    pub open spec fn after_preparing(&self, digest: crate::conflict::Hash, said: String) -> Self {
        PullSession {
            prepare_next_chunk: (self.prepare_next_chunk + 1) as u64,
            last_request_hash: digest,
            last_reply: said,
            ..*self
        }
    }

    /// Answers that the service is still being prepared; gives the chunk.
    pub fn still_preparing(&mut self, digest: [u8; 32], said: String) -> (chunk: u64)
        requires
            old(self).wf(),
            old(self).prepare_next_chunk < u64::MAX,
        ensures
            final(self).wf(),
            chunk == old(self).prepare_next_chunk,
            *final(self) == old(self).after_preparing(digest, said),
    {
        let chunk: u64 = self.prepare_next_chunk;
        self.prepare_next_chunk = chunk + 1;
        self.last_request_hash = digest;
        self.last_reply = said;
        chunk
    }

    /// The reply to the last request that was answered, for the same request
    /// once more.
    pub fn reply_again(&self) -> (said: String)
        ensures
            said@ == self.last_reply@,
    {
        owned(self.last_reply.as_str())
    }

    /// Takes the service that was prepared.
    pub fn prepared(&mut self, service: PullService)
        requires
            old(self).wf(),
            service.wf(),
        ensures
            final(self).wf(),
            *final(self) == (PullSession { service: Some(service), ..*old(self) }),
    {
        self.service = Some(service);
    }

    /// Whether the service is the last one.
    pub fn final_service(&self) -> (r: bool)
        requires
            self.wf(),
        ensures
            r == (self.next_service + 1 == sync_scope::SYNCED_SERVICE_COUNT),
    {
        self.next_service + 1 == sync_scope::SYNCED_SERVICE_COUNT
    }

    /// Where a transfer goes after a reply of a phase.
    pub open spec fn advance(&self, phase: PullPhase, reply: PhaseReply) -> Advance {
        if reply.complete {
            Advance::Complete
        } else if reply.final_chunk && phase == last_phase(self.selective_paths is Some) {
            Advance::NextService((self.next_service + 1) as usize)
        } else {
            Advance::Stay
        }
    }

    /// The transfer after a reply of a phase.
    pub open spec fn after_reply(
        &self,
        phase: PullPhase,
        reply: PhaseReply,
        digest: crate::conflict::Hash,
        said: String,
    ) -> Self {
        let kept = PullSession { last_request_hash: digest, last_reply: said, ..*self };
        match self.advance(phase, reply) {
            Advance::Complete => PullSession { completed: true, ..kept },
            Advance::NextService(k) => PullSession {
                next_service: k,
                service: None,
                prepare_next_chunk: 0,
                ..kept
            },
            Advance::Stay => kept,
        }
    }

    /// Remembers the request that was answered with the reply as it was sent,
    /// and goes on: to the next service where the last phase of this one is
    /// over, or to the end.
    pub fn answered(
        &mut self,
        phase: PullPhase,
        reply: PhaseReply,
        digest: [u8; 32],
        said: String,
    ) -> (r: Advance)
        requires
            old(self).wf(),
            reply.complete || old(self).next_service + 1 < sync_scope::SYNCED_SERVICE_COUNT
                || !reply.final_chunk || phase != last_phase(old(self).selective_paths is Some),
        ensures
            final(self).wf(),
            r == old(self).advance(phase, reply),
            *final(self) == old(self).after_reply(phase, reply, digest, said),
    {
        self.last_request_hash = digest;
        self.last_reply = said;
        if reply.complete {
            self.completed = true;
            return Advance::Complete;
        }
        let last = if self.selective_paths.is_some() {
            PullPhase::Deletes
        } else {
            PullPhase::Sources
        };
        if reply.final_chunk && phase == last {
            self.next_service = self.next_service + 1;
            self.service = None;
            self.prepare_next_chunk = 0;
            return Advance::NextService(self.next_service);
        }
        Advance::Stay
    }
}

/// The phase that ends a service.
pub open spec fn last_phase(selective: bool) -> PullPhase {
    if selective {
        PullPhase::Deletes
    } else {
        PullPhase::Sources
    }
}

/// Gives the grant of a transfer that failed back, so that it can be started
/// again.
pub fn restore_snapshot_selective_grant(
    grants: &mut TimedStore<Vec<String>>,
    project: &str,
    choice_id: Option<&str>,
    paths: Option<Vec<String>>,
    now: u64,
)
    ensures
        match (choice_id, paths) {
            (Some(id), Some(granted)) => exists|e: timed_store::TimedEntry<Vec<String>>|
                #![trigger timed_store::key_of(e)]
                timed_store::key_of(e) == seq![project@, id@] && e.value == granted && e.at == now
                    && final(grants).entries@ == timed_store::with_put(old(grants).entries@, e),
            _ => final(grants).entries@ == old(grants).entries@,
        },
{
    let id = match choice_id {
        None => return,
        Some(id) => id,
    };
    let granted = match paths {
        None => return,
        Some(granted) => granted,
    };
    let mut key: Vec<String> = Vec::new();
    key.push(owned(project));
    key.push(owned(id));
    let ghost e = timed_store::TimedEntry { key, value: granted, at: now };
    proof {
        assert(timed_store::key_of(e) =~= seq![project@, id@]);
    }
    grants.put(key, granted, now);
}

/// Why a service cannot be prepared.
#[derive(Debug, Clone, Copy, PartialEq, Eq, Structural)]
pub enum PullPrepareProblem {
    /// The service changed while it was read.
    Changed,
    Flat(FlatProblem),
    /// A script has no file.
    NoSourcePath(u64),
    /// The file of a script cannot be used.
    Source(ObjectProblem),
}

/// The scripts among the first `n` whose source is sent.
pub open spec fn sent_ids(s: Seq<FlatSnapshotRecord>, ids: Seq<u64>, n: int) -> Seq<u64>
    decreases n,
{
    if n <= 0 {
        Seq::empty()
    } else {
        let before = sent_ids(s, ids, n - 1);
        if ids[n - 1] < s.len() && s[ids[n - 1] as int].source_included != Some(false) {
            before.push(ids[n - 1])
        } else {
            before
        }
    }
}

/// A service that was read, while the files of its scripts are looked at.
#[derive(Debug)]
pub struct PullPreparation {
    pub service: String,
    pub generation: TreeGeneration,
    pub records: Vec<FlatSnapshotRecord>,
    pub source_ids: Vec<u64>,
    pub source_paths: HashMap<u64, String>,
    pub source_generations: HashMap<u64, FileGeneration>,
    pub deletes: Vec<Vec<String>>,
    /// How many files were looked at.
    pub seen: usize,
}

/// The scripts of these records whose source is sent.
pub open spec fn sent_scripts(s: Seq<FlatSnapshotRecord>) -> Seq<u64> {
    let ids = flat::script_ids_of(s, s.len() as int);
    sent_ids(s, ids, ids.len() as int)
}

/// Takes a service that was read between two looks at it: all of it, or the
/// part that the selected paths name.
pub fn prepare_snapshot_service_stream(
    service: &str,
    before: TreeGeneration,
    records: Vec<FlatSnapshotRecord>,
    source_paths: HashMap<u64, String>,
    after: &TreeGeneration,
    selected_paths: Option<&Vec<String>>,
    max_depth: usize,
) -> (r: Result<PullPreparation, PullPrepareProblem>)
    ensures
        if before@ != after@ {
            r matches Err(p) && p == PullPrepareProblem::Changed
        } else {
            match selected_paths {
                None => match flat::flat_problem(records@, service@, true, max_depth) {
                    Some(p) => r matches Err(q) && q == PullPrepareProblem::Flat(p),
                    None => r matches Ok(out) && {
                        &&& out.records == records
                        &&& out.source_paths == source_paths
                        &&& out.deletes@.len() == 0
                    },
                },
                Some(paths) => match flat::flat_problem(records@, service@, true, max_depth) {
                    Some(p) => r matches Err(q) && q == PullPrepareProblem::Flat(p),
                    None => exists|part: SelectiveFlatService|
                        {
                            &&& #[trigger] selective::is_selected_service(
                                service@,
                                records@,
                                preparation::texts_by_id(source_paths@),
                                disk_index::texts(paths@),
                                part,
                            )
                            &&& match flat::flat_problem(part.records@, service@, true, max_depth) {
                                Some(p) => r matches Err(q) && q == PullPrepareProblem::Flat(p),
                                None => r matches Ok(out) && {
                                    &&& out.records == part.records
                                    &&& out.source_paths == part.source_paths
                                    &&& out.deletes == part.deletes
                                },
                            }
                        },
                },
            }
        },
        r matches Ok(out) ==> {
            &&& out.service@ == service@
            &&& out.generation == before
            &&& out.source_ids@ == sent_scripts(out.records@)
            &&& out.source_generations@ == Map::<u64, FileGeneration>::empty()
            &&& out.seen == 0
        },
{
    if !before.same(after) {
        return Err(PullPrepareProblem::Changed);
    }
    let part = match selected_paths {
        None => SelectiveFlatService { records, source_paths, deletes: Vec::new() },
        Some(paths) => match selective_flat_service(
            service,
            &records,
            &source_paths,
            paths,
            max_depth,
        ) {
            Err(p) => return Err(PullPrepareProblem::Flat(p)),
            Ok(part) => part,
        },
    };
    let ids = match validate_flat_snapshot(
        part.records.as_slice(),
        service,
        true,
        max_depth,
    ) {
        Err(p) => return Err(PullPrepareProblem::Flat(p)),
        Ok(validated) => validated.script_ids,
    };
    let source_ids = keep_sent(&part.records, &ids);
    Ok(
        PullPreparation {
            service: owned(service),
            generation: before,
            records: part.records,
            source_ids,
            source_paths: part.source_paths,
            source_generations: HashMap::new(),
            deletes: part.deletes,
            seen: 0,
        },
    )
}

fn keep_sent(records: &Vec<FlatSnapshotRecord>, ids: &Vec<u64>) -> (out: Vec<u64>)
    ensures
        out@ == sent_ids(records@, ids@, ids@.len() as int),
{
    let mut out: Vec<u64> = Vec::new();
    let mut n: usize = 0;
    let len: usize = records.len();
    while n < ids.len()
        invariant
            n <= ids@.len(),
            len == records@.len(),
            out@ == sent_ids(records@, ids@, n as int),
        decreases ids@.len() - n,
    {
        let id: u64 = ids[n];
        if id < len as u64 {
            let left_out = match records[id as usize].source_included {
                Some(included) => !included,
                None => false,
            };
            if !left_out {
                out.push(id);
            }
        }
        n += 1;
    }
    out
}

impl PullPreparation {
    pub open spec fn wf(&self) -> bool {
        self.seen <= self.source_ids@.len()
    }

    /// The next file to look at; nothing when all were looked at.
    pub fn next(&self) -> (r: Result<Option<&str>, PullPrepareProblem>)
        requires
            self.wf(),
        ensures
            if self.seen == self.source_ids@.len() {
                r == Ok::<Option<&str>, PullPrepareProblem>(None)
            } else {
                let id = self.source_ids@[self.seen as int];
                if self.source_paths@.contains_key(id) {
                    r matches Ok(Some(path)) && path@ == self.source_paths@[id]@
                } else {
                    r == Err::<Option<&str>, PullPrepareProblem>(
                        PullPrepareProblem::NoSourcePath(id),
                    )
                }
            },
    {
        if self.seen == self.source_ids.len() {
            return Ok(None);
        }
        let id: u64 = self.source_ids[self.seen];
        match self.source_paths.get(&id) {
            None => Err(PullPrepareProblem::NoSourcePath(id)),
            Some(path) => Ok(Some(path.as_str())),
        }
    }

    /// Takes what was seen of that file.
    pub fn saw(&mut self, found: Result<FileGeneration, ObjectProblem>) -> (r: Result<
        (),
        PullPrepareProblem,
    >)
        requires
            old(self).wf(),
            old(self).seen < old(self).source_ids@.len(),
        ensures
            final(self).wf(),
            *final(self) == (PullPreparation {
                source_generations: final(self).source_generations,
                seen: final(self).seen,
                ..*old(self)
            }),
            match found {
                Err(p) => {
                    &&& r == Err::<(), PullPrepareProblem>(PullPrepareProblem::Source(p))
                    &&& final(self).seen == old(self).seen
                    &&& final(self).source_generations == old(self).source_generations
                },
                Ok(generation) => {
                    &&& r is Ok
                    &&& final(self).seen == old(self).seen + 1
                    &&& final(self).source_generations@ == old(self).source_generations@.insert(
                        old(self).source_ids@[old(self).seen as int],
                        generation,
                    )
                },
            },
    {
        let generation = match found {
            Err(p) => return Err(PullPrepareProblem::Source(p)),
            Ok(generation) => generation,
        };
        let id: u64 = self.source_ids[self.seen];
        self.source_generations.insert(id, generation);
        assert(self.seen < self.source_ids.len());
        self.seen = self.seen + 1;
        Ok(())
    }

    /// The service, ready to be sent.
    pub fn finish(self) -> (s: PullService)
        requires
            self.wf(),
        ensures
            s.wf(),
            s.service@ == self.service@,
            s.phase == PullPhase::Structure && s.next_chunk == 0,
            s.records == self.records && s.record_offset == 0,
            s.source_ids == self.source_ids && s.source_index == 0 && s.active is None,
            s.source_paths == self.source_paths,
            s.source_generations == self.source_generations,
            s.deletes == self.deletes && s.delete_offset == 0,
            s.generation == self.generation,
            s.initial_fingerprint is None && !s.revalidating,
    {
        PullService::new(
            self.service.as_str(),
            self.records,
            self.source_ids,
            self.source_paths,
            self.source_generations,
            self.deletes,
            self.generation,
        )
    }
}

/// What becomes of the attempt to end a transfer whose time is over.
#[derive(Debug, Clone, Copy, PartialEq, Eq, Structural)]
pub enum StreamCleanupAttempt {
    Removed,
    Retry,
    Superseded,
}

/// The transfer of a project, by its number.
#[derive(Debug)]
pub struct SessionEntry {
    pub project: String,
    pub ticket: u64,
}

/// The first transfer of a project.
pub open spec fn session_place(s: Seq<SessionEntry>, project: Seq<char>, k: int) -> Option<int>
    decreases s.len() - k,
{
    if k < 0 || k >= s.len() {
        None
    } else if s[k].project@ == project {
        Some(k)
    } else {
        session_place(s, project, k + 1)
    }
}

/// Ends the transfer of a project if it is still the expected one and over.
/// `expired` is absent while a request holds the transfer.
pub fn try_remove_expired_stream_session(
    sessions: &mut Vec<SessionEntry>,
    project: &str,
    expected: u64,
    expired: Option<bool>,
) -> (r: StreamCleanupAttempt)
    ensures
        match session_place(old(sessions)@, project@, 0) {
            None => r == StreamCleanupAttempt::Superseded && final(sessions)@ == old(sessions)@,
            Some(k) => if old(sessions)@[k].ticket != expected {
                r == StreamCleanupAttempt::Superseded && final(sessions)@ == old(sessions)@
            } else if expired != Some(true) {
                r == StreamCleanupAttempt::Retry && final(sessions)@ == old(sessions)@
            } else {
                r == StreamCleanupAttempt::Removed && final(sessions)@ == old(sessions)@.remove(k)
            },
        },
{
    let mut k: usize = 0;
    while k < sessions.len() && !same(sessions[k].project.as_str(), project)
        invariant
            k <= sessions@.len(),
            sessions@ == old(sessions)@,
            session_place(sessions@, project@, 0) == session_place(sessions@, project@, k as int),
        decreases sessions@.len() - k,
    {
        k += 1;
    }
    if k >= sessions.len() || sessions[k].ticket != expected {
        return StreamCleanupAttempt::Superseded;
    }
    let over = match expired {
        Some(over) => over,
        None => false,
    };
    if !over {
        return StreamCleanupAttempt::Retry;
    }
    let _ = sessions.remove(k);
    StreamCleanupAttempt::Removed
}

/// A later request that is sent again right after it was answered is answered
/// from memory with the very same reply, wherever the answer left the transfer:
/// that the service is being prepared, in the middle of a phase, at the next
/// service or at the end.
pub proof fn law_repeated_pull_request_gets_the_same_reply(
    body: SnapshotStreamBody,
    protocol: u64,
    before: PullSession,
    after: PullSession,
    phase: PullPhase,
    reply: PhaseReply,
    digest: crate::conflict::Hash,
    said: String,
    idle: u64,
)
    requires
        form_refusal(body, protocol) is None,
        body.stream_id is Some && body.stream_id->0@ == before.stream_id@,
        body.request_id@ == before.request_id@,
        !body.strict && body.avoid_sync_paths@.len() == 0 && body.choice_id is None,
        after == before.after_preparing(digest, said) || after == before.after_reply(
            phase,
            reply,
            digest,
            said,
        ),
        idle < pull_ttl(after.completed),
    ensures
        chunk_admission(body, protocol, Some(&after), idle, digest@) == PullAdmission::Replay,
        after.last_reply == said,
{
}

/// A request to start that is sent again before any other is answered from
/// memory with the same reply, and starts no second transfer.
pub proof fn law_repeated_start_gets_the_same_reply(
    body: SnapshotStreamBody,
    protocol: u64,
    session: PullSession,
    sessions: usize,
    digest: Seq<u8>,
)
    requires
        form_refusal(body, protocol) is None,
        body.stream_id is None && body.service is None && body.chunk_index is None,
        body.request_id@ == session.request_id@,
        session.last_request_hash@ == digest,
    ensures
        start_admission(body, protocol, Some(&session), sessions, digest) == PullAdmission::Replay,
{
}

} // verus!
