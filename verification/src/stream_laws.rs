//! What holds of a transfer in chunks: how full a reply is, which requests are
//! answered, and how a service is sent part by part.
use vstd::prelude::*;
use vstd::utf8::*;

use crate::conflict;
use crate::flat;
use crate::flat::FlatSnapshotRecord;
use crate::flat_laws;
use crate::fs_safety::FileGeneration;
use crate::packing;
use crate::packing::{PackProblem, STREAM_RESPONSE_PACK_TARGET, STREAM_STRUCTURE_CHUNK_NODES};
use crate::pull_session;
use crate::pull_session::{
    PullAdmission, PullRefusal, PullSession, SessionEntry, SnapshotStreamBody,
};
use crate::pull_stream;
use crate::pull_stream::{
    PhaseReply, PullActiveSource, PullPhase, PullProblem, PullService, StreamSourcePart,
};
use crate::push_stream;
use crate::push_stream::SnapshotScope;
use crate::sync_scope;

verus! {

/// The encoded items of a reply are separated by one byte each.
pub proof fn law_items_are_separated_by_one_byte(sizes: Seq<usize>, from: int, mid: int, to: int)
    requires
        0 <= from < mid < to <= sizes.len(),
    ensures
        packing::items_size(sizes, from, from + 1) == sizes[from],
        packing::items_size(sizes, from, to) == packing::items_size(sizes, from, mid) + 1
            + packing::items_size(sizes, mid, to),
    decreases to,
{
    reveal_with_fuel(packing::items_size, 2);
    if mid < to - 1 {
        law_items_are_separated_by_one_byte(sizes, from, mid, to - 1);
    }
}

/// A reply is filled as far as it can be: where items and places are left, the next
/// item would bring it above its target.
pub proof fn law_packed_replies_are_full(sizes: Seq<usize>, from: int, envelope: int, count: int)
    requires
        0 <= from <= sizes.len(),
        envelope >= 0,
        packing::packed(sizes, from, envelope, 0) == Ok::<int, PackProblem>(count),
        from + count < sizes.len(),
        count < STREAM_STRUCTURE_CHUNK_NODES,
    ensures
        count >= 0,
        envelope + packing::items_size(sizes, from, from + count + 1) + 1
            > STREAM_RESPONSE_PACK_TARGET,
{
    lemma_packed_full(sizes, from, envelope, envelope, 0, count);
}

proof fn lemma_packed_full(
    sizes: Seq<usize>,
    from: int,
    envelope: int,
    used: int,
    n: int,
    count: int,
)
    requires
        0 <= from,
        0 <= n,
        from + n <= sizes.len(),
        used == envelope + packing::items_size(sizes, from, from + n) + (if n > 0 {
            1int
        } else {
            0
        }),
        packing::packed(sizes, from, used, n) == Ok::<int, PackProblem>(count),
        from + count < sizes.len(),
        count < STREAM_STRUCTURE_CHUNK_NODES,
    ensures
        n <= count,
        envelope + packing::items_size(sizes, from, from + count + 1) + 1
            > STREAM_RESPONSE_PACK_TARGET,
    decreases sizes.len() - from - n,
{
    reveal_with_fuel(packing::items_size, 2);
    if from + n < sizes.len() && n < STREAM_STRUCTURE_CHUNK_NODES && used + sizes[from + n] + 1
        <= STREAM_RESPONSE_PACK_TARGET {
        lemma_packed_full(sizes, from, envelope, used + sizes[from + n] + 1, n + 1, count);
    }
}

/// A batch is filled as far as it can be, with the frame of the last batch exactly
/// where nothing is left.
pub proof fn law_fitted_batches_are_full(sizes: Seq<usize>, from: int, more: int, last: int)
    requires
        0 <= from <= sizes.len(),
    ensures
        ({
            let n = packing::fitted(sizes, from, more, last, 0);
            let frame = if from + n == sizes.len() {
                last
            } else {
                more
            };
            let next_frame = if from + n + 1 == sizes.len() {
                last
            } else {
                more
            };
            &&& 0 <= n <= STREAM_STRUCTURE_CHUNK_NODES
            &&& from + n <= sizes.len()
            &&& n > 0 ==> frame + packing::items_size(sizes, from, from + n)
                <= STREAM_RESPONSE_PACK_TARGET
            &&& from + n < sizes.len() && n < STREAM_STRUCTURE_CHUNK_NODES ==> next_frame
                + packing::items_size(sizes, from, from + n + 1) > STREAM_RESPONSE_PACK_TARGET
        }),
{
    lemma_fitted(sizes, from, more, last, 0);
}

proof fn lemma_fitted(sizes: Seq<usize>, from: int, more: int, last: int, k: int)
    requires
        0 <= from,
        0 <= k <= STREAM_STRUCTURE_CHUNK_NODES,
        from + k <= sizes.len(),
        k > 0 ==> packing::exact_size(sizes, from, from + k, more, last)
            <= STREAM_RESPONSE_PACK_TARGET,
    ensures
        ({
            let n = packing::fitted(sizes, from, more, last, k);
            &&& k <= n <= STREAM_STRUCTURE_CHUNK_NODES
            &&& from + n <= sizes.len()
            &&& n > 0 ==> packing::exact_size(sizes, from, from + n, more, last)
                <= STREAM_RESPONSE_PACK_TARGET
            &&& from + n < sizes.len() && n < STREAM_STRUCTURE_CHUNK_NODES ==> packing::exact_size(
                sizes,
                from,
                from + n + 1,
                more,
                last,
            ) > STREAM_RESPONSE_PACK_TARGET
        }),
    decreases sizes.len() - from - k,
{
    if from + k < sizes.len() && k < STREAM_STRUCTURE_CHUNK_NODES && packing::exact_size(
        sizes,
        from,
        from + k + 1,
        more,
        last,
    ) <= STREAM_RESPONSE_PACK_TARGET {
        lemma_fitted(sizes, from, more, last, k + 1);
    }
}

/// Whether a request that continues a transfer is one of this session.
pub open spec fn is_of_session(
    body: SnapshotStreamBody,
    protocol: u64,
    s: PullSession,
    idle: u64,
) -> bool {
    &&& body.plugin_protocol == Some(protocol)
    &&& 1 <= encode_utf8(body.request_id@).len() <= 128
    &&& body.request_id@ == s.request_id@
    &&& body.stream_id matches Some(id) && id@ == s.stream_id@
    &&& !body.strict && body.avoid_sync_paths@.len() == 0 && body.choice_id is None
    &&& s.completed ==> idle < 120_000
    &&& !s.completed ==> idle < 900_000
}

/// A request continues a transfer exactly where it is of the session, is not the one
/// that was answered last, and asks for what comes next; the one that was answered
/// last is answered again.
pub proof fn law_next_request_is_answered(
    body: SnapshotStreamBody,
    protocol: u64,
    s: PullSession,
    idle: u64,
    digest: Seq<u8>,
)
    ensures
        ({
            let a = pull_session::chunk_admission(body, protocol, Some(&s), idle, digest);
            let of_session = is_of_session(body, protocol, s, idle);
            let fresh = of_session && s.last_request_hash@ != digest && !s.completed && body.service
                is Some && sync_scope::service_text(s.next_service as int) == Some(
                body.service->0@,
            );
            &&& a is Replay <==> of_session && s.last_request_hash@ == digest
            &&& a is Prepare <==> fresh && s.service is None && body.phase@ == "diskPrepare"@
                && body.chunk_index == Some(s.prepare_next_chunk)
            &&& a is Produce <==> fresh && s.service is Some && body.phase@
                == s.service->0.phase.text() && body.chunk_index == Some(s.service->0.next_chunk)
            &&& a is Produce ==> a->Produce_0 == s.service->0.phase
            &&& a is Start ==> false
        }),
{
    reveal_strlit("diskPrepare");
}

/// Why a request that continues a transfer is refused: the transfer is not known, was
/// left too long, is another one or is over.
pub proof fn law_other_transfers_are_refused(
    body: SnapshotStreamBody,
    protocol: u64,
    session: Option<&PullSession>,
    idle: u64,
    digest: Seq<u8>,
)
    requires
        body.plugin_protocol == Some(protocol),
        1 <= encode_utf8(body.request_id@).len() <= 128,
        body.stream_id is Some,
        !body.strict && body.avoid_sync_paths@.len() == 0 && body.choice_id is None,
    ensures
        ({
            let a = pull_session::chunk_admission(body, protocol, session, idle, digest);
            match session {
                None => a == PullAdmission::Refused(PullRefusal::NoSession),
                Some(s) => {
                    let limit: u64 = if s.completed {
                        120_000
                    } else {
                        900_000
                    };
                    &&& a == PullAdmission::Refused(PullRefusal::Expired) <==> idle >= limit
                    &&& a == PullAdmission::Refused(PullRefusal::OtherStream) <==> idle < limit && (
                    s.stream_id@ != body.stream_id->0@ || s.request_id@ != body.request_id@)
                    &&& a == PullAdmission::Refused(PullRefusal::Completed) <==> idle < limit
                        && s.stream_id@ == body.stream_id->0@ && s.request_id@ == body.request_id@
                        && s.last_request_hash@ != digest && s.completed
                },
            }
        }),
{
}

/// A transfer starts where the request says nothing of one under way and there is
/// room, or one of the same project to replace.
pub proof fn law_transfer_starts_where_there_is_room(
    body: SnapshotStreamBody,
    protocol: u64,
    existing: Option<&PullSession>,
    sessions: usize,
    digest: Seq<u8>,
)
    ensures
        ({
            let a = pull_session::start_admission(body, protocol, existing, sessions, digest);
            let plain = body.plugin_protocol == Some(protocol) && 1 <= encode_utf8(
                body.request_id@,
            ).len() <= 128 && body.stream_id is None && body.service is None && body.chunk_index
                is None;
            let known = existing matches Some(s) && s.request_id@ == body.request_id@
                && s.last_request_hash@ == digest;
            &&& a is Replay <==> plain && known
            &&& a is Start <==> plain && !known && (existing is Some || sessions < 32)
            &&& a is Prepare ==> false
            &&& a is Produce ==> false
        }),
{
}

/// The services of a transfer are sent one after the other: a service is left only
/// with the last chunk of its last phase, the next one follows, and the transfer is
/// over where the reply says so.
pub proof fn law_services_are_sent_one_after_the_other(
    s: PullSession,
    phase: PullPhase,
    reply: PhaseReply,
    digest: conflict::Hash,
    said: String,
)
    requires
        s.wf(),
        !s.completed,
    ensures
        ({
            let after = s.after_reply(phase, reply, digest, said);
            let left = !reply.complete && reply.final_chunk && phase == (if s.selective_paths
                is Some {
                PullPhase::Deletes
            } else {
                PullPhase::Sources
            });
            &&& after.completed <==> reply.complete
            &&& after.next_service == s.next_service + (if left {
                1int
            } else {
                0
            })
            &&& left ==> after.service is None && after.prepare_next_chunk == 0
            &&& !left ==> after.service == s.service && after.prepare_next_chunk
                == s.prepare_next_chunk
            &&& after.request_id == s.request_id && after.stream_id == s.stream_id
            &&& after.selective_paths == s.selective_paths
            &&& after.last_request_hash == digest && after.last_reply == said
        }),
{
}

/// While a service is being prepared, only the number of the next chunk grows.
pub proof fn law_preparing_counts_its_chunks(s: PullSession, digest: conflict::Hash, said: String)
    requires
        s.prepare_next_chunk < u64::MAX,
    ensures
        ({
            let after = s.after_preparing(digest, said);
            &&& after.prepare_next_chunk == s.prepare_next_chunk + 1
            &&& after.next_service == s.next_service && after.service == s.service
            &&& after.completed == s.completed
            &&& after.request_id == s.request_id && after.stream_id == s.stream_id
            &&& after.selective_paths == s.selective_paths
            &&& after.last_request_hash == digest && after.last_reply == said
        }),
{
}

/// The words for the phases.
pub proof fn law_phases_have_words(a: PullPhase, b: PullPhase)
    ensures
        a.text() == b.text() ==> a == b,
        PullPhase::Structure.text() == "structure"@,
        PullPhase::Sources.text() == "sources"@,
        PullPhase::Deletes.text() == "deletes"@,
{
    reveal_strlit("structure");
    reveal_strlit("sources");
    reveal_strlit("deletes");
    assert("structure"@.len() == 9 && "sources"@.len() == 7 && "deletes"@.len() == 7);
    assert("sources"@[0] == 's' && "deletes"@[0] == 'd');
}

/// The records of a service are sent in order and without a gap, and its sources
/// follow once all were sent.
pub proof fn law_records_are_sent_in_order(s: PullService, n: int)
    requires
        s.wf(),
        s.phase == PullPhase::Structure,
        s.next_chunk < u64::MAX,
        0 < n,
        s.record_offset + n <= s.records@.len(),
    ensures
        ({
            let reply = s.structure_reply(n);
            let after = s.after_structure(n);
            let rest = s.records@.skip(s.record_offset as int);
            &&& reply.from == s.record_offset && reply.count == n
            &&& reply.chunk_index == s.next_chunk
            &&& s.records@.subrange(reply.from as int, reply.from + reply.count)
                + after.records@.skip(after.record_offset as int) == rest
            &&& reply.final_chunk <==> after.records@.skip(after.record_offset as int).len() == 0
            &&& after.phase == PullPhase::Sources <==> reply.final_chunk
            &&& after.phase == PullPhase::Structure <==> !reply.final_chunk
            &&& reply.final_chunk ==> after.next_chunk == 0
            &&& !reply.final_chunk ==> after.next_chunk == s.next_chunk + 1
            &&& after.source_ids == s.source_ids && after.source_index == s.source_index
            &&& after.deletes == s.deletes && after.delete_offset == s.delete_offset
        }),
{
    let rest = s.records@.skip(s.record_offset as int);
    assert(s.records@.len() == s.records.len());
    assert(s.records@.subrange(s.record_offset as int, s.record_offset + n) + s.records@.skip(
        s.record_offset + n,
    ) =~= rest);
}

/// The phase of sources ends only once all were sent and the service was found
/// unchanged; what follows are the deletions of a selection, or the end.
pub proof fn law_sources_end_when_all_were_sent(
    s: PullService,
    revalidated: bool,
    selective: bool,
    final_service: bool,
)
    requires
        s.wf(),
        s.phase == PullPhase::Sources,
        s.next_chunk < u64::MAX,
    ensures
        ({
            let reply = s.sources_reply(revalidated, selective, final_service);
            let after = s.after_sources(revalidated, selective);
            &&& reply.chunk_index == s.next_chunk
            &&& reply.final_chunk <==> revalidated && s.active is None && s.source_index
                == s.source_ids@.len()
            &&& reply.complete <==> reply.final_chunk && final_service && !selective
            &&& after.phase == PullPhase::Deletes <==> reply.final_chunk && selective
            &&& after.phase != PullPhase::Deletes ==> after.phase == PullPhase::Sources
            &&& !reply.final_chunk ==> after.next_chunk == s.next_chunk + 1
            &&& after.phase == PullPhase::Deletes ==> after.next_chunk == 0 && !after.revalidating
            &&& after.source_index == s.source_index && after.active == s.active
            &&& after.deletes == s.deletes && after.delete_offset == s.delete_offset
        }),
{
}

/// The phase of deletions ends only once all were sent and the service was found
/// unchanged.
pub proof fn law_deletes_end_when_all_were_sent(s: PullService, revalidated: bool, final_service: bool)
    requires
        s.next_chunk < u64::MAX,
    ensures
        ({
            let reply = s.deletes_reply(revalidated, final_service);
            let after = s.after_deletes(revalidated);
            &&& reply.chunk_index == s.next_chunk
            &&& reply.final_chunk <==> revalidated && s.delete_offset == s.deletes@.len()
            &&& reply.complete <==> reply.final_chunk && final_service
            &&& after.next_chunk == s.next_chunk + (if reply.final_chunk {
                0int
            } else {
                1
            })
            &&& after.delete_offset == s.delete_offset && after.phase == s.phase
        }),
{
}

/// A part carries its source's id, size and digest, and its own place.
pub proof fn law_parts_are_labelled(a: PullActiveSource, part: StreamSourcePart)
    requires
        pull_stream::is_part_of(a, part),
    ensures
        part.id == a.id,
        part.part_index == a.part_index,
        part.offset == a.offset,
        part.total_bytes == encode_utf8(a.text@).len(),
        part.sha256@ == a.sha256@,
{
}

/// A part that was sent is not sent again: the next one goes on behind it, and behind
/// the last one the next source follows.
pub proof fn law_next_part_goes_on_behind(s: PullService, part: StreamSourcePart)
    requires
        s.wf(),
        s.active is Some,
        s.active->0.part_index < u64::MAX,
        pull_stream::is_part_of(s.active->0, part),
    ensures
        ({
            let a = s.active->0;
            let after = s.after_part(part);
            let end = a.offset + encode_utf8(part.data@).len();
            if end == encode_utf8(a.text@).len() {
                &&& after.active is None
                &&& after.source_index == s.source_index + 1
            } else {
                &&& after.source_index == s.source_index
                &&& after.active matches Some(b) && b.offset == end && b.part_index == a.part_index
                    + 1 && b.text == a.text && b.id == a.id && b.sha256 == a.sha256
                    && b.generation == a.generation
            }
        }),
        s.after_part(part).record_offset == s.record_offset,
        s.after_part(part).next_chunk == s.next_chunk,
        s.after_part(part).phase == s.phase,
{
    assert(s.source_ids@.len() == s.source_ids.len());
    pull_stream::law_parts_make_up_the_source(s.active->0, part);
}

/// A source is sent exactly where it is known and text, is not too large, and was the
/// same before and after it was read as when the service was prepared.
pub proof fn law_only_unchanged_sources_are_sent(
    s: PullService,
    before: FileGeneration,
    bytes: Seq<u8>,
    after: FileGeneration,
)
    requires
        s.source_index < s.source_ids@.len(),
    ensures
        ({
            let id = s.source_ids@[s.source_index as int];
            s.source_problem(before, bytes, after) is None <==> s.source_paths@.contains_key(id)
                && s.source_generations@.contains_key(id) && before == s.source_generations@[id]
                && after == before && before.len <= 33_554_432 && valid_utf8(bytes)
        }),
{
}

/// A part is sent exactly where its source is still the same and the last part ends
/// where the source does.
pub proof fn law_only_unchanged_parts_are_sent(
    active: Option<PullActiveSource>,
    part: StreamSourcePart,
    seen: FileGeneration,
)
    requires
        active matches Some(a) ==> a.wf() && pull_stream::is_part_of(a, part),
    ensures
        pull_stream::commit_problem(active, part, seen) is None <==> active is Some && seen
            == active->0.generation,
        active matches Some(a) && seen != a.generation ==> pull_stream::commit_problem(
            active,
            part,
            seen,
        ) == Some(PullProblem::ChangedBetween),
{
    if active is Some {
        pull_stream::law_parts_make_up_the_source(active->0, part);
    }
}

/// The sources that are sent are those of the scripts whose source is not left out,
/// in the order of the records.
pub proof fn law_sources_of_scripts_are_sent(s: Seq<FlatSnapshotRecord>, i: int)
    requires
        forall|k: int| 0 <= k < s.len() ==> (#[trigger] s[k]).id == k,
        0 <= i < s.len(),
    ensures
        pull_session::sent_scripts(s).contains(i as u64) <==> !s[i].avoid_sync
            && !s[i].avoid_sync_carrier && (s[i].class@ == "Script"@ || s[i].class@
            == "LocalScript"@ || s[i].class@ == "ModuleScript"@) && s[i].source_included != Some(
            false,
        ),
{
    let ids = flat::script_ids_of(s, s.len() as int);
    flat_laws::law_scripts_of_a_list(s, s.len() as int, i);
    assert(s[i].id == i);
    lemma_sent_ids(s, ids, ids.len() as int, i as u64);
    assert(ids.take(ids.len() as int) =~= ids);
}

proof fn lemma_sent_ids(s: Seq<FlatSnapshotRecord>, ids: Seq<u64>, n: int, x: u64)
    requires
        0 <= n <= ids.len(),
        x < s.len(),
    ensures
        pull_session::sent_ids(s, ids, n).contains(x) <==> ids.take(n).contains(x)
            && s[x as int].source_included != Some(false),
    decreases n,
{
    if n > 0 {
        lemma_sent_ids(s, ids, n - 1, x);
        let before = pull_session::sent_ids(s, ids, n - 1);
        assert(ids.take(n) =~= ids.take(n - 1).push(ids[n - 1]));
        lemma_push_contains(ids.take(n - 1), ids[n - 1], x);
        lemma_push_contains(before, ids[n - 1], x);
    }
}

proof fn lemma_push_contains(s: Seq<u64>, y: u64, x: u64)
    ensures
        s.push(y).contains(x) <==> s.contains(x) || x == y,
{
    if s.contains(x) {
        let i = choose|i: int| 0 <= i < s.len() && s[i] == x;
        assert(s.push(y)[i] == x);
    }
    assert(s.push(y)[s.len() as int] == y);
    if s.push(y).contains(x) && x != y {
        let i = choose|i: int| 0 <= i < s.push(y).len() && s.push(y)[i] == x;
        assert(s[i] == x);
    }
}

/// The first session of a project is the one that is found.
pub proof fn law_session_of_a_project_is_found(s: Seq<SessionEntry>, project: Seq<char>, i: int)
    requires
        0 <= i < s.len(),
        s[i].project@ == project,
    ensures
        pull_session::session_place(s, project, 0) matches Some(k) && 0 <= k <= i
            && s[k].project@ == project,
{
    lemma_session_place(s, project, 0, i);
}

proof fn lemma_session_place(s: Seq<SessionEntry>, project: Seq<char>, k: int, i: int)
    requires
        0 <= k <= i < s.len(),
        s[i].project@ == project,
    ensures
        pull_session::session_place(s, project, k) matches Some(j) && k <= j <= i
            && s[j].project@ == project,
    decreases i - k,
{
    if s[k].project@ != project {
        lemma_session_place(s, project, k + 1, i);
    }
}

/// A snapshot without a service is of every service only where it is strict and may
/// remove what is not in it.
pub proof fn law_snapshot_of_every_service_is_forced(given: bool, strict: bool, force: bool)
    ensures
        push_stream::scope_of(given, strict, force) == SnapshotScope::One <==> given,
        push_stream::scope_of(given, strict, force) == SnapshotScope::Every <==> !given && strict
            && force,
{
}

} // verus!
