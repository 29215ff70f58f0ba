//! What holds of a comparison in chunks: which chunks are taken, what they add up
//! to, and when a service is done.
use vstd::prelude::*;
use vstd::utf8::*;

use crate::baselines::StagedScriptBaseline;
use crate::compare_session;
use crate::compare_session::{
    Admission, AdmissionProblem, CommitReply, CompareChunk, ComparePhase, CompareProblem,
    CompareSession, CompareStep, CompareStream, IdentityReply, PrepareOutcome, PrepareReply,
    StreamSourceHash, ValidatedHash,
};
use crate::diff;
use crate::diff::{DiffKind, NodeModel};
use crate::flat;
use crate::flat::FlatSnapshotRecord;
use crate::hex;
use crate::preparation::PreparedComparison;
use crate::sync_scope;
use crate::text;

verus! {

/// A record has no field that is too long exactly where each is within its bound.
pub proof fn law_fields_are_bounded(s: Seq<FlatSnapshotRecord>)
    ensures
        flat::fields_problem(s, 0) is None <==> forall|k: int|
            0 <= k < s.len() ==> encode_utf8((#[trigger] s[k]).name@).len()
                <= flat::MAX_STREAM_NAME_BYTES && encode_utf8(s[k].class@).len()
                <= flat::MAX_STREAM_CLASS_BYTES && (s[k].disk_fragment matches Some(f)
                ==> encode_utf8(f@).len() <= flat::MAX_STREAM_NAME_BYTES),
{
    lemma_fields(s, 0);
}

proof fn lemma_fields(s: Seq<FlatSnapshotRecord>, from: int)
    requires
        0 <= from,
    ensures
        flat::fields_problem(s, from) is None <==> forall|k: int|
            from <= k < s.len() ==> encode_utf8((#[trigger] s[k]).name@).len()
                <= flat::MAX_STREAM_NAME_BYTES && encode_utf8(s[k].class@).len()
                <= flat::MAX_STREAM_CLASS_BYTES && (s[k].disk_fragment matches Some(f)
                ==> encode_utf8(f@).len() <= flat::MAX_STREAM_NAME_BYTES),
    decreases s.len() - from,
{
    if from < s.len() {
        lemma_fields(s, from + 1);
    }
}

proof fn lemma_density(s: Seq<FlatSnapshotRecord>, base: int, from: int)
    requires
        0 <= from,
    ensures
        compare_session::density_problem(s, base, from) is None <==> forall|k: int|
            from <= k < s.len() ==> (#[trigger] s[k]).id == base + k,
    decreases s.len() - from,
{
    if from < s.len() {
        lemma_density(s, base, from + 1);
    }
}

/// A chunk of structure is taken exactly where it holds records and nothing else, is
/// not too large, numbers its records from where the last chunk ended, and stays
/// within what the service and the session may send.
pub proof fn law_structure_chunk_is_taken(
    stream: CompareStream,
    session_bytes: usize,
    phase: Seq<char>,
    chunk: CompareChunk,
)
    ensures
        compare_session::structure_problem(stream, session_bytes, phase, chunk) is None <==> {
            let n = stream.records@.len();
            let service = stream.accepted_structure_bytes + chunk.encoded_bytes;
            let session = session_bytes + chunk.encoded_bytes;
            &&& phase == "structure"@
            &&& chunk.hashes@.len() == 0 && !chunk.has_snapshot
            &&& flat::fields_problem(chunk.records@, 0) is None
            &&& chunk.records@.len() <= 512
            &&& n + chunk.records@.len() <= flat::MAX_BOOTSTRAP_NODES
            &&& forall|k: int|
                0 <= k < chunk.records@.len() ==> (#[trigger] chunk.records@[k]).id == n + k
            &&& service <= flat::MAX_STREAM_SERVICE_STRUCTURE_BYTES && service <= usize::MAX
            &&& session <= flat::MAX_STREAM_SESSION_STRUCTURE_BYTES && session <= usize::MAX
        },
{
    lemma_density(chunk.records@, stream.records@.len() as int, 0);
}

/// The records of a service are gathered in the order of their chunks, and stay
/// numbered from zero on; with the last chunk all of them are handed on.
pub proof fn law_records_are_gathered(
    start: CompareStream,
    end: CompareStream,
    before: usize,
    after: usize,
    phase: Seq<char>,
    chunk: CompareChunk,
    step: CompareStep,
)
    requires
        start.phase == ComparePhase::Structure,
        start.next_chunk < u64::MAX,
        forall|k: int| 0 <= k < start.records@.len() ==> (#[trigger] start.records@[k]).id == k,
        compare_session::structure_problem(start, before, phase, chunk) is None,
        compare_session::stepped(start, end, before, after, chunk, step),
    ensures
        ({
            let all = start.records@ + chunk.records@;
            &&& forall|k: int| 0 <= k < all.len() ==> (#[trigger] all[k]).id == k
            &&& end.service == start.service
            &&& end.accepted_structure_bytes == start.accepted_structure_bytes + chunk.encoded_bytes
            &&& after == before + chunk.encoded_bytes
            &&& chunk.final_chunk <==> end.phase == ComparePhase::DiskPrepare
            &&& !chunk.final_chunk ==> end.phase == ComparePhase::Structure && end.records@ == all
                && end.next_chunk == start.next_chunk + 1 && step == CompareStep::MoreStructure(
                end.next_chunk,
            )
            &&& chunk.final_chunk ==> step is Prepare && step->Prepare_0@ == all && end.next_chunk
                == 0
        }),
{
    lemma_density(chunk.records@, start.records@.len() as int, 0);
}

/// While a service is prepared and its identities are sent, only chunks without
/// contents are taken.
pub proof fn law_waiting_takes_empty_chunks(
    stream: CompareStream,
    session_bytes: usize,
    service: Seq<char>,
    phase: Seq<char>,
    index: u64,
    chunk: CompareChunk,
)
    requires
        stream.phase == ComparePhase::DiskPrepare || stream.phase == ComparePhase::Identities,
    ensures
        compare_session::stream_problem(stream, session_bytes, service, phase, index, chunk) is None
            <==> {
            &&& service == stream.service@
            &&& index == stream.next_chunk
            &&& phase == (if stream.phase == ComparePhase::DiskPrepare {
                "diskPrepare"@
            } else {
                "identities"@
            })
            &&& chunk.records@.len() == 0 && chunk.hashes@.len() == 0
            &&& !chunk.has_snapshot && !chunk.final_chunk
        },
{
}

/// No chunk of another service or out of its turn is taken.
pub proof fn law_chunks_come_in_turn(
    stream: CompareStream,
    session_bytes: usize,
    service: Seq<char>,
    phase: Seq<char>,
    index: u64,
    chunk: CompareChunk,
)
    ensures
        compare_session::stream_problem(stream, session_bytes, service, phase, index, chunk) is None
            ==> service == stream.service@ && index == stream.next_chunk,
        service != stream.service@ ==> compare_session::stream_problem(
            stream,
            session_bytes,
            service,
            phase,
            index,
            chunk,
        ) == Some(CompareProblem::OtherService),
        service == stream.service@ && index != stream.next_chunk
            ==> compare_session::stream_problem(
            stream,
            session_bytes,
            service,
            phase,
            index,
            chunk,
        ) == Some(CompareProblem::ChunkOutOfOrder { wanted: stream.next_chunk, got: index }),
{
}

/// Whether a digest from Studio is one that is waited for, is well spelled, and can
/// be held against the disk.
pub open spec fn is_due(
    p: PreparedComparison,
    received: Set<u64>,
    hashes: Seq<StreamSourceHash>,
    k: int,
) -> bool {
    let id = hashes[k].id;
    let local = diff::nodes_of(p.local_nodes);
    let studio = diff::nodes_of(p.studio_nodes);
    let path = p.studio_paths_by_id@[id]@;
    &&& p.expected_hash_ids@.contains(id)
    &&& !received.contains(id)
    &&& forall|j: int| 0 <= j < k ==> (#[trigger] hashes[j]).id != id
    &&& p.studio_paths_by_id@.contains_key(id)
    &&& p.studio_nodes@.contains_key(path)
    &&& hex::spelled_digest(hashes[k].sha256@) is Ok
    &&& local.contains_key(path) && local[path].kind == DiffKind::Script && local[path].class
        == studio[path].class ==> p.local_sources@.contains_key(path)
}

proof fn lemma_hashes(
    p: PreparedComparison,
    received: Set<u64>,
    hashes: Seq<StreamSourceHash>,
    from: int,
)
    requires
        0 <= from,
    ensures
        compare_session::hashes_problem(p, received, hashes, from) is None <==> forall|k: int|
            from <= k < hashes.len() ==> #[trigger] is_due(p, received, hashes, k),
    decreases hashes.len() - from,
{
    if from < hashes.len() {
        lemma_hashes(p, received, hashes, from + 1);
        assert(compare_session::hash_problem(p, received, hashes, from) is None <==> is_due(
            p,
            received,
            hashes,
            from,
        ));
    }
}

/// A chunk of digests is taken exactly where it holds digests and nothing else, each
/// of them is due, and the last chunk completes them.
pub proof fn law_digest_chunk_is_taken(stream: CompareStream, phase: Seq<char>, chunk: CompareChunk)
    ensures
        compare_session::digest_chunk_problem(stream, phase, chunk) is None <==> {
            &&& phase == "hashes"@
            &&& chunk.records@.len() == 0 && !chunk.has_snapshot
            &&& chunk.hashes@.len() <= 512
            &&& stream.prepared is Some
            &&& forall|k: int|
                0 <= k < chunk.hashes@.len() ==> #[trigger] is_due(
                    stream.prepared->0,
                    stream.received_hash_ids@,
                    chunk.hashes@,
                    k,
                )
            &&& chunk.final_chunk ==> stream.received_hash_ids@.len() + chunk.hashes@.len()
                == stream.prepared->0.expected_hash_ids@.len()
        },
{
    if stream.prepared is Some {
        lemma_hashes(stream.prepared->0, stream.received_hash_ids@, chunk.hashes@, 0);
    }
}

/// A digest that was taken is remembered for the path of its script, with the file on
/// disk to read where that is a script of the same class.
pub proof fn law_digest_is_kept_for_its_script(
    p: PreparedComparison,
    h: StreamSourceHash,
    v: ValidatedHash,
)
    requires
        compare_session::is_validated(p, h, v),
    ensures
        ({
            let path = p.studio_paths_by_id@[h.id]@;
            let local = diff::nodes_of(p.local_nodes);
            let studio = diff::nodes_of(p.studio_nodes);
            let twin = local.contains_key(path) && local[path].kind == DiffKind::Script
                && local[path].class == studio[path].class;
            &&& v.id == h.id
            &&& v.path@ == path
            &&& hex::spelled_digest(h.sha256@) == Ok::<Seq<u8>, hex::DigestProblem>(v.digest@)
            &&& text::option_text(v.source) == (if twin {
                Some(p.local_sources@[path]@)
            } else {
                None
            })
        }),
{
}

/// The ids that were received are those from before and those of the chunk.
pub proof fn law_received_ids_grow_by_the_chunk(
    received: Set<u64>,
    hashes: Seq<ValidatedHash>,
    n: int,
    x: u64,
)
    requires
        0 <= n <= hashes.len(),
    ensures
        compare_session::with_ids(received, hashes, n).contains(x) <==> received.contains(x) || (
        exists|k: int| 0 <= k < n && (#[trigger] hashes[k]).id == x),
    decreases n,
{
    if n > 0 {
        law_received_ids_grow_by_the_chunk(received, hashes, n - 1, x);
    }
}

/// A digest from Studio becomes that of its path, and nothing else changes.
pub proof fn law_studio_digests_are_entered(
    nodes: Map<Seq<char>, NodeModel>,
    hashes: Seq<ValidatedHash>,
    n: int,
    path: Seq<char>,
    k: int,
)
    requires
        0 <= n <= hashes.len(),
        forall|j: int| 0 <= j < n ==> nodes.contains_key((#[trigger] hashes[j]).path@),
        k < n,
        0 <= k ==> hashes[k].path@ == path,
        forall|j: int| k < j < n && 0 <= j ==> (#[trigger] hashes[j]).path@ != path,
    ensures
        ({
            let after = compare_session::with_studio_hashes(nodes, hashes, n);
            &&& after.dom() == nodes.dom()
            &&& k < 0 ==> after[path] == nodes[path]
            &&& 0 <= k ==> after[path] == (NodeModel {
                source_hash: Some(hashes[k].digest@),
                ..nodes[path]
            })
        }),
    decreases n,
{
    if n > 0 {
        if k == n - 1 {
            let earlier = lemma_last_with_path(hashes, n - 1, path);
            law_studio_digests_are_entered(nodes, hashes, n - 1, path, earlier);
        } else {
            law_studio_digests_are_entered(nodes, hashes, n - 1, path, k);
        }
        let after = compare_session::with_studio_hashes(nodes, hashes, n);
        assert(nodes.contains_key(hashes[n - 1].path@));
        assert(after.dom() =~= nodes.dom());
    }
}

proof fn lemma_last_with_path(hashes: Seq<ValidatedHash>, n: int, path: Seq<char>) -> (k: int)
    requires
        0 <= n <= hashes.len(),
    ensures
        k < n,
        0 <= k ==> hashes[k].path@ == path,
        forall|j: int| k < j < n && 0 <= j ==> (#[trigger] hashes[j]).path@ != path,
    decreases n,
{
    if n == 0 {
        -1
    } else if hashes[n - 1].path@ == path {
        n - 1
    } else {
        lemma_last_with_path(hashes, n - 1, path)
    }
}

/// What was read from disk becomes the digest of its path, and nothing else changes.
pub proof fn law_local_digests_are_entered(
    nodes: Map<Seq<char>, NodeModel>,
    hashes: Seq<ValidatedHash>,
    read: Seq<Option<StagedScriptBaseline>>,
    n: int,
    path: Seq<char>,
    k: int,
)
    requires
        0 <= n <= hashes.len(),
        n <= read.len(),
        forall|j: int|
            0 <= j < n && (#[trigger] read[j]) is Some ==> nodes.contains_key(hashes[j].path@),
        k < n,
        0 <= k ==> read[k] is Some && hashes[k].path@ == path,
        forall|j: int|
            k < j < n && 0 <= j && (#[trigger] read[j]) is Some ==> hashes[j].path@ != path,
    ensures
        ({
            let after = compare_session::with_local_hashes(nodes, hashes, read, n);
            &&& after.dom() == nodes.dom()
            &&& k < 0 ==> after[path] == nodes[path]
            &&& 0 <= k ==> after[path] == (NodeModel {
                source_hash: Some(read[k]->0.source_hash@),
                ..nodes[path]
            })
        }),
    decreases n,
{
    if n > 0 {
        if k == n - 1 {
            let earlier = lemma_last_read(hashes, read, n - 1, path);
            law_local_digests_are_entered(nodes, hashes, read, n - 1, path, earlier);
        } else {
            law_local_digests_are_entered(nodes, hashes, read, n - 1, path, k);
        }
        let after = compare_session::with_local_hashes(nodes, hashes, read, n);
        if read[n - 1] is Some {
            assert(nodes.contains_key(hashes[n - 1].path@));
        }
        assert(after.dom() =~= nodes.dom());
    }
}

proof fn lemma_last_read(
    hashes: Seq<ValidatedHash>,
    read: Seq<Option<StagedScriptBaseline>>,
    n: int,
    path: Seq<char>,
) -> (k: int)
    requires
        0 <= n <= hashes.len(),
        n <= read.len(),
    ensures
        k < n,
        0 <= k ==> read[k] is Some && hashes[k].path@ == path,
        forall|j: int|
            k < j < n && 0 <= j && (#[trigger] read[j]) is Some ==> hashes[j].path@ != path,
    decreases n,
{
    if n == 0 {
        -1
    } else if read[n - 1] is Some && hashes[n - 1].path@ == path {
        n - 1
    } else {
        lemma_last_read(hashes, read, n - 1, path)
    }
}

/// What was read from disk is what is staged, all of it and nothing else.
pub proof fn law_what_was_read_is_staged(
    read: Seq<Option<StagedScriptBaseline>>,
    n: int,
    b: StagedScriptBaseline,
)
    requires
        0 <= n <= read.len(),
    ensures
        compare_session::staged(read, n).contains(b) <==> exists|k: int|
            0 <= k < n && #[trigger] read[k] == Some(b),
    decreases n,
{
    if n > 0 {
        law_what_was_read_is_staged(read, n - 1, b);
        let before = compare_session::staged(read, n - 1);
        let all = compare_session::staged(read, n);
        if let Some(x) = read[n - 1] {
            assert(all[before.len() as int] == x);
            if before.contains(b) {
                let i = choose|i: int| 0 <= i < before.len() && before[i] == b;
                assert(all[i] == b);
            }
            if all.contains(b) && b != x {
                let i = choose|i: int| 0 <= i < all.len() && all[i] == b;
                assert(before[i] == b);
            }
        }
    }
}

/// A service is done only with its last chunk of digests, when all that were waited
/// for are there; its differences are then added to those of the services before.
pub proof fn law_service_is_done_with_its_last_digest(
    before: CompareSession,
    after: CompareSession,
    read: Seq<Option<StagedScriptBaseline>>,
    r: Result<CommitReply, CompareProblem>,
)
    requires
        before.service_stream is Some,
        before.service_stream->0.next_chunk < u64::MAX,
        before.service_stream->0.pending is Some,
        before.next_service < usize::MAX,
        compare_session::committed(before, after, read, r),
    ensures
        ({
            let start = before.service_stream->0;
            let hashes = start.pending->0.hashes@;
            let received = compare_session::with_ids(
                start.received_hash_ids@,
                hashes,
                hashes.len() as int,
            );
            &&& r is Ok && r->Ok_0 is ServiceDone ==> start.pending->0.last && received
                == start.prepared->0.expected_hash_ids@ && after.service_stream is None
                && after.next_service == before.next_service + 1
            &&& !(r is Ok && r->Ok_0 is ServiceDone) ==> after.next_service == before.next_service
                && after.comparison == before.comparison && after.service_stream is Some
            &&& !start.pending->0.last ==> r == Ok::<CommitReply, CompareProblem>(
                CommitReply::MoreHashes((start.next_chunk + 1) as u64),
            ) && after.service_stream->0.received_hash_ids@ == received
                && after.service_stream->0.pending is None && after.service_stream->0.next_chunk
                == start.next_chunk + 1
            &&& start.pending->0.last && start.prepared->0.identity_complete ==> r == Ok::<
                CommitReply,
                CompareProblem,
            >(CommitReply::ServiceDone)
            &&& after.staged_baselines@ == before.staged_baselines@ + compare_session::staged(
                read,
                hashes.len() as int,
            )
            &&& after.compare_id == before.compare_id && after.completed == before.completed
        }),
{
}

/// A service without a difference adds nothing to the comparison, and only one
/// without a difference does.
pub proof fn law_clean_service_adds_nothing(
    before: CompareSession,
    after: CompareSession,
    p: PreparedComparison,
    local: Map<Seq<char>, NodeModel>,
    studio: Map<Seq<char>, NodeModel>,
)
    requires
        compare_session::service_merged(before, after, p, local, studio),
    ensures
        compare_session::service_clean(p, local, studio) <==> after.comparison.new_files@.len()
            == before.comparison.new_files@.len() && after.comparison.removed_files@.len()
            == before.comparison.removed_files@.len() && after.comparison.changed_files@.len()
            == before.comparison.changed_files@.len(),
        after.comparison.new_files@.len() >= before.comparison.new_files@.len(),
        forall|k: int|
            0 <= k < before.comparison.new_files@.len() ==> (
            #[trigger] after.comparison.new_files@[k])@ == before.comparison.new_files@[k]@,
        forall|k: int|
            0 <= k < before.comparison.removed_files@.len() ==> (
            #[trigger] after.comparison.removed_files@[k])@ == before.comparison.removed_files@[k]@,
        forall|k: int|
            0 <= k < before.comparison.changed_files@.len() ==> (
            #[trigger] after.comparison.changed_files@[k])@ == before.comparison.changed_files@[k]@,
{
    let a = diff::items(after.comparison.new_files@);
    let b = diff::items(before.comparison.new_files@);
    let c = diff::items(after.comparison.removed_files@);
    let d = diff::items(before.comparison.removed_files@);
    let e = diff::changes(after.comparison.changed_files@);
    let f = diff::changes(before.comparison.changed_files@);
    let here = p.local_nodes.keys();
    let there = p.studio_nodes.keys();
    assert(a.len() == b.len() + diff::only_in(here, local, studio, here.len() as int).len());
    assert(c.len() == d.len() + diff::only_in(there, studio, local, there.len() as int).len());
    assert(e.len() == f.len() + diff::changed_in(here, local, studio, here.len() as int).len());
    assert forall|k: int| 0 <= k < before.comparison.new_files@.len() implies (
    #[trigger] after.comparison.new_files@[k])@ == before.comparison.new_files@[k]@ by {
        assert(a.len() >= b.len());
        assert(a[k] == b[k]);
        assert(a[k] == after.comparison.new_files@[k]@);
        assert(b[k] == before.comparison.new_files@[k]@);
    }
    assert forall|k: int| 0 <= k < before.comparison.removed_files@.len() implies (
    #[trigger] after.comparison.removed_files@[k])@ == before.comparison.removed_files@[k]@ by {
        assert(c.len() >= d.len());
        assert(c[k] == d[k]);
        assert(c[k] == after.comparison.removed_files@[k]@);
        assert(d[k] == before.comparison.removed_files@[k]@);
    }
    assert forall|k: int| 0 <= k < before.comparison.changed_files@.len() implies (
    #[trigger] after.comparison.changed_files@[k])@ == before.comparison.changed_files@[k]@ by {
        assert(e[k] == f[k]);
        assert(e[k] == after.comparison.changed_files@[k]@);
        assert(f[k] == before.comparison.changed_files@[k]@);
    }
}

/// What the reading of the directory leads to: waiting counts its chunks, a failure
/// asks for the last chunk of structure again, and success goes on to the identities.
pub proof fn law_reading_leads_on(
    before: CompareSession,
    after: CompareSession,
    outcome: PrepareOutcome,
    r: Result<PrepareReply, CompareProblem>,
)
    requires
        before.service_stream is Some,
        before.service_stream->0.phase == ComparePhase::DiskPrepare,
        before.service_stream->0.next_chunk < u64::MAX,
        compare_session::polled(before, after, outcome, r),
    ensures
        ({
            let start = before.service_stream->0;
            let end = after.service_stream->0;
            &&& after.service_stream is Some
            &&& end.phase == ComparePhase::DiskPrepare <==> outcome is Pending || outcome is Lost
            &&& end.phase == ComparePhase::Structure <==> outcome is Failed
            &&& end.phase == ComparePhase::Identities <==> outcome is Ready
            &&& outcome is Pending ==> end.next_chunk == start.next_chunk + 1 && r == Ok::<
                PrepareReply,
                CompareProblem,
            >(PrepareReply::Waiting(end.next_chunk))
            &&& outcome is Failed ==> end.next_chunk == start.final_structure_chunk && r == Ok::<
                PrepareReply,
                CompareProblem,
            >(PrepareReply::Failed(end.next_chunk))
            &&& outcome is Lost <==> r is Err
            &&& outcome matches PrepareOutcome::Ready { prepared, generation } ==> end.prepared
                == Some(prepared) && end.identity_offset == 0 && end.next_chunk == 0
                && after.staged_service_generations@
                == before.staged_service_generations@.push(generation)
        }),
        !(outcome is Ready) ==> after.staged_service_generations
            == before.staged_service_generations,
{
}

/// Taking bytes back undoes having counted them.
pub proof fn law_refund_undoes_a_charge(bytes: usize, back: usize)
    requires
        bytes + back <= usize::MAX,
    ensures
        compare_session::refunded((bytes + back) as usize, back) == bytes,
        compare_session::refunded(bytes, bytes) == 0,
        compare_session::refunded(bytes, back) <= bytes,
{
}

/// The identities are sent in order and without a gap; the digests follow once all
/// were sent.
pub proof fn law_identities_are_sent_in_order(
    before: CompareSession,
    after: CompareSession,
    sizes: Seq<usize>,
    more_frame: usize,
    last_frame: usize,
    r: Result<IdentityReply, CompareProblem>,
)
    requires
        before.service_stream is Some,
        before.service_stream->0.phase == ComparePhase::Identities,
        before.service_stream->0.next_chunk < u64::MAX,
        before.service_stream->0.identity_offset <= sizes.len() <= usize::MAX,
        compare_session::identified(before, after, sizes, more_frame, last_frame, r),
    ensures
        ({
            let start = before.service_stream->0;
            let end = after.service_stream->0;
            match r {
                Err(_) => end == start,
                Ok(reply) => {
                    &&& reply.from == start.identity_offset
                    &&& reply.identity_count == sizes.len()
                    &&& reply.chunk_index == start.next_chunk
                    &&& end.identity_offset == reply.from + reply.count
                    &&& end.identity_offset <= sizes.len()
                    &&& reply.final_chunk <==> end.identity_offset == sizes.len()
                    &&& reply.final_chunk ==> end.phase == ComparePhase::Hashes && end.next_chunk
                        == 0
                    &&& !reply.final_chunk ==> reply.count > 0 && end.phase
                        == ComparePhase::Identities && end.next_chunk == start.next_chunk + 1
                    &&& reply.next_chunk == end.next_chunk
                    &&& end.prepared == start.prepared && end.records == start.records
                },
            }
        }),
{
    crate::stream_laws::law_fitted_batches_are_full(
        sizes,
        before.service_stream->0.identity_offset as int,
        more_frame as int,
        last_frame as int,
    );
}

/// A chunk is processed exactly where the comparison lives, is the one that is named,
/// and waits for this service; the request that was answered last is answered again.
pub proof fn law_waited_for_service_is_processed(
    s: CompareSession,
    idle: u64,
    compare_id: Seq<char>,
    service: Seq<char>,
    digest: Seq<u8>,
)
    ensures
        ({
            let a = compare_session::admission(Some(&s), idle, compare_id, service, digest);
            let lives = (s.completed ==> idle < 120_000) && (!s.completed ==> idle < 900_000);
            let again = s.last_service is Some && s.last_service->0@ == service
                && s.last_request_hash is Some && s.last_request_hash->0@ == digest;
            &&& a is Replay <==> lives && s.compare_id@ == compare_id && again
            &&& a is Process <==> lives && s.compare_id@ == compare_id && !again
                && sync_scope::service_text(s.next_service as int) == Some(service)
            &&& !lives ==> a == Admission::Refused(AdmissionProblem::Expired)
        }),
        compare_session::admission(None, idle, compare_id, service, digest) == Admission::Refused(
            AdmissionProblem::NoSession,
        ),
{
}

/// A request names the comparison and the service, and brings either one tree, of that
/// service, or a chunk.
pub proof fn law_request_brings_one_service(
    compare_id: Option<Seq<char>>,
    service: Option<Seq<char>>,
    streamed: bool,
    trees: Seq<Option<Seq<char>>>,
)
    ensures
        compare_session::request_shape_problem(compare_id, service, streamed, trees) is None <==> {
            &&& compare_id is Some && service is Some
            &&& streamed ==> trees.len() == 0
            &&& !streamed ==> trees.len() == 1 && trees[0] == service
        },
{
}

/// A comparison is complete once its last service was answered, and stays so.
pub proof fn law_comparison_is_complete_after_the_last_service(
    s: CompareSession,
    service: Option<String>,
    digest: [u8; 32],
    said: String,
    choice: Option<String>,
)
    ensures
        ({
            let after = s.after_reply(service, digest, said, choice);
            &&& after.completed <==> s.completed || s.next_service == 8
            &&& after.last_service == service && after.last_request_hash == Some(digest)
            &&& after.last_reply == Some(said) && after.pending_choice_id == choice
            &&& after.compare_id == s.compare_id && after.next_service == s.next_service
            &&& after.comparison == s.comparison && after.service_stream == s.service_stream
            &&& after.staged_baselines == s.staged_baselines
        }),
{
}

/// The words for the phases.
pub proof fn law_phases_of_a_comparison_have_words()
    ensures
        ComparePhase::Structure.text() == "structure"@,
        ComparePhase::DiskPrepare.text() == "diskPrepare"@,
        ComparePhase::Identities.text() == "identities"@,
        ComparePhase::Hashes.text() == "hashes"@,
{
}

} // verus!
