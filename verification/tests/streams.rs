use std::collections::HashMap;

use rosync::baselines::StagedScriptBaseline;
use rosync::compare_session::{
    check_request_shape, clear_completed_initial_compare_for_choice, initial_compare_error_value,
    initial_compare_service_chunk, initial_compare_session_expired, Admission, AdmissionProblem,
    CommitReply, CompareChunk, ComparePhase, CompareProblem, CompareSession, CompareStep,
    PrepareOutcome, PrepareReply, StreamSourceHash, INITIAL_COMPARE_SESSION_TTL_MS,
};
use rosync::conflict::hash;
use rosync::diff::{DiffItem, DiffKind};
use rosync::fingerprint::{capture_exact_tree_fingerprint, hash_tree_contents};
use rosync::flat::{
    charge_stream_source_bytes, charge_stream_structure_bytes, validate_flat_snapshot,
    validate_stream_record_chunk_fields, ChargeProblem, FieldProblem, FlatProblem,
    FlatSnapshotRecord, MAX_STREAM_SERVICE_STRUCTURE_BYTES,
};
use rosync::fs_safety::{
    FileGeneration, FileIdentity, SafeEntryKind, SafeTreeEntry, TreeGeneration,
};
use rosync::hex::hex;
use rosync::initial_sync::{InitialComparison, Stats};
use rosync::packing::{fit, pack, STREAM_RESPONSE_PACK_TARGET};
use rosync::preparation::prepare_streamed_initial_service_comparison;
use rosync::reservations::{overlay_local_avoid_sync_reservations, PlannedChild};
use rosync::pull_session::{
    admit_pull_chunk, admit_pull_start, prepare_snapshot_service_stream,
    restore_snapshot_selective_grant, snapshot_stream_expired, take_selection,
    try_remove_expired_stream_session, Advance, PullAdmission, PullPrepareProblem, PullRefusal,
    PullSession, SessionEntry, SnapshotStreamBody, StreamCleanupAttempt,
};
use rosync::pull_stream::{
    pull_source_part, snapshot_phase_name, PhaseReply, PullActiveSource, PullPhase, PullProblem,
    SourceBatch, WorkerPoll, STREAM_SESSION_TTL_MS,
};
use rosync::push_stream::{
    abandon_commit, awaits_receipt, drop_service_stream, keep_backup, recovery_required,
    snapshot_is_bootstrap, snapshot_scope, SnapshotScope, StreamCommitControl,
};
use rosync::timed_store::TimedStore;

const SERVICE: &str = "ReplicatedStorage";

fn record(
    id: u64,
    parent: Option<u64>,
    index: u32,
    count: u32,
    name: &str,
    class: &str,
) -> FlatSnapshotRecord {
    FlatSnapshotRecord {
        id,
        parent_id: parent,
        child_index: index,
        child_count: count,
        name: name.to_string(),
        class: class.to_string(),
        has_children: count > 0 || class == "Folder",
        avoid_sync: false,
        avoid_sync_carrier: false,
        disk_fragment: None,
        disk_fragment_is_dir: None,
        source_included: None,
    }
}

fn studio_records() -> Vec<FlatSnapshotRecord> {
    vec![
        record(0, None, 0, 1, SERVICE, SERVICE),
        record(1, Some(0), 0, 0, "Main", "ModuleScript"),
    ]
}

fn disk_records() -> Vec<FlatSnapshotRecord> {
    let mut records = studio_records();
    records[1].disk_fragment = Some("Main.luau".to_string());
    records[1].disk_fragment_is_dir = Some(false);
    records
}

fn generation_of(len: u64) -> FileGeneration {
    FileGeneration {
        len,
        modified_ns: Some(1),
        identity: FileIdentity { device: Some(1), file: Some(2) },
    }
}

fn tree() -> TreeGeneration {
    TreeGeneration {
        service: SERVICE.to_string(),
        present: true,
        root_generation: Some(generation_of(0)),
        entries: vec![SafeTreeEntry {
            path: "/p/ReplicatedStorage/Main.luau".to_string(),
            relative: "Main.luau".to_string(),
            kind: SafeEntryKind::File,
            generation: generation_of(8),
        }],
    }
}

fn request(phase: &str, index: u64, last: bool) -> CompareChunk {
    CompareChunk {
        phase: Some(phase.to_string()),
        chunk_index: Some(index),
        final_chunk: last,
        records: Vec::new(),
        hashes: Vec::new(),
        has_snapshot: false,
        encoded_bytes: 10,
    }
}

fn session() -> CompareSession {
    let stats = Stats { script_count: 1, instance_count: 2 };
    CompareSession::new("compare".to_string(), stats, stats)
}

fn structure() -> CompareChunk {
    let mut chunk = request("structure", 0, true);
    chunk.records = studio_records();
    chunk
}

fn prepared() -> PrepareOutcome {
    let local = validate_flat_snapshot(&disk_records(), SERVICE, true, 256).unwrap();
    let studio = validate_flat_snapshot(&studio_records(), SERVICE, false, 256).unwrap();
    let mut sources = HashMap::new();
    sources.insert(1, "/p/ReplicatedStorage/Main.luau".to_string());
    let laid =
        overlay_local_avoid_sync_reservations("/p", local.service, &[0], studio.service, &[0]);
    assert!(laid.next().is_none());
    let prepared =
        prepare_streamed_initial_service_comparison(&laid, &sources, &studio.script_ids).unwrap();
    PrepareOutcome::Ready { prepared, generation: tree() }
}

fn baseline(source: &str) -> StagedScriptBaseline {
    StagedScriptBaseline {
        path: "/p/ReplicatedStorage/Main.luau".to_string(),
        source_hash: hash(source.as_bytes()),
        fs_mtime: 5,
        generation: generation_of(8),
    }
}

/// A session that waits for the digests of its one script.
fn awaiting() -> CompareSession {
    let mut session = session();
    match session.process_streamed_initial_compare_chunk(SERVICE, structure()).unwrap() {
        CompareStep::Prepare(records) => assert_eq!(records.len(), 2),
        other => panic!("{other:?}"),
    }
    let tick = request("diskPrepare", 0, false);
    assert!(matches!(
        session.process_streamed_initial_compare_chunk(SERVICE, tick),
        Ok(CompareStep::PollPrepare)
    ));
    assert_eq!(
        session.prepare_polled(PrepareOutcome::Pending).unwrap(),
        PrepareReply::Waiting(1)
    );
    let tick = request("diskPrepare", 1, false);
    assert!(session.process_streamed_initial_compare_chunk(SERVICE, tick).is_ok());
    assert_eq!(session.prepare_polled(prepared()).unwrap(), PrepareReply::Identities(1));
    let tick = request("identities", 0, false);
    assert!(matches!(
        session.process_streamed_initial_compare_chunk(SERVICE, tick),
        Ok(CompareStep::SendIdentities)
    ));
    let reply =
        session.produce_initial_compare_identity_response(&[50], 100, 100).unwrap();
    assert_eq!((reply.from, reply.count, reply.final_chunk), (0, 1, true));
    session
}

fn digest_chunk(hashes: &[(u64, String)], last: bool) -> CompareChunk {
    let mut chunk = request("hashes", 0, last);
    chunk.hashes = hashes
        .iter()
        .map(|(id, sha256)| StreamSourceHash { id: *id, sha256: sha256.clone() })
        .collect();
    chunk
}

fn compared(studio_source: &str, local_source: &str) -> CompareSession {
    let mut session = awaiting();
    let digests = digest_chunk(&[(1, hex(&hash(studio_source.as_bytes())))], true);
    assert!(matches!(
        session.process_streamed_initial_compare_chunk(SERVICE, digests),
        Ok(CompareStep::ReadSources)
    ));
    assert!(matches!(
        session.commit_hashes(vec![Some(baseline(local_source))]),
        Ok(CommitReply::ServiceDone)
    ));
    session
}

#[test]
fn equal_sources_compare_clean() {
    let session = compared("return 1", "return 1");
    assert!(session.comparison.is_clean());
    assert_eq!(session.next_service, 1);
    assert_eq!(session.staged_baselines.len(), 1);
    assert_eq!(session.next_initial_compare_response(), Some("ServerScriptService"));
}

#[test]
fn other_sources_are_a_change() {
    let session = compared("return 2", "return 1");
    assert_eq!(session.comparison.changed_files.len(), 1);
    assert_eq!(session.comparison.changed_files[0].path, "ReplicatedStorage/Main");
    assert!(session.comparison.changed_files[0].source_changed);
}

#[test]
fn a_failed_reading_can_be_retried() {
    let mut session = session();
    let records = match session.process_streamed_initial_compare_chunk(SERVICE, structure()) {
        Ok(CompareStep::Prepare(records)) => records,
        other => panic!("{other:?}"),
    };
    assert_eq!(session.accepted_stream_bytes, 10);
    assert_eq!(
        session.prepare_polled(PrepareOutcome::Failed(records)).unwrap(),
        PrepareReply::Failed(0)
    );
    assert_eq!(session.accepted_stream_bytes, 0);
    assert!(matches!(
        session.process_streamed_initial_compare_chunk(SERVICE, structure()),
        Ok(CompareStep::Prepare(_))
    ));
    assert_eq!(
        session.prepare_polled(PrepareOutcome::Lost).unwrap_err(),
        CompareProblem::PrepareLost
    );
}

#[test]
fn a_refused_digest_chunk_can_be_corrected() {
    let mut session = awaiting();
    let sha = hex(&hash(b"return 1"));
    let refused = [
        (vec![(7, sha.clone())], false),
        (vec![(0, sha.clone())], false),
        (vec![(1, sha.clone()), (1, sha.clone())], false),
        (vec![(1, "zz".repeat(32))], true),
        (vec![(1, "00".to_string())], true),
        (vec![], true),
    ];
    for (hashes, last) in refused {
        let chunk = digest_chunk(&hashes, last);
        assert!(session.process_streamed_initial_compare_chunk(SERVICE, chunk).is_err());
        let stream = session.service_stream.as_ref().unwrap();
        assert_eq!((stream.next_chunk, stream.received_hash_ids.len()), (0, 0));
        assert!(session.staged_baselines.is_empty());
    }
    // The source of this one could not be read, so that it was never committed.
    let unread = digest_chunk(&[(1, hex(&hash(b"return 2")))], true);
    assert!(session.process_streamed_initial_compare_chunk(SERVICE, unread).is_ok());
    assert_eq!(session.service_stream.as_ref().unwrap().next_chunk, 0);
    let corrected = digest_chunk(&[(1, sha)], true);
    assert!(matches!(
        session.process_streamed_initial_compare_chunk(SERVICE, corrected),
        Ok(CompareStep::ReadSources)
    ));
    assert!(matches!(
        session.commit_hashes(vec![Some(baseline("return 1"))]),
        Ok(CommitReply::ServiceDone)
    ));
    assert!(session.comparison.is_clean());
    assert_eq!(session.staged_baselines.len(), 1);
}

#[test]
fn compare_chunks_are_refused_out_of_place() {
    let refused = |chunk: CompareChunk| {
        session().process_streamed_initial_compare_chunk(SERVICE, chunk).unwrap_err()
    };
    let mut no_phase = structure();
    no_phase.phase = None;
    assert_eq!(refused(no_phase), CompareProblem::MissingPhase);
    let mut no_index = structure();
    no_index.chunk_index = None;
    assert_eq!(refused(no_index), CompareProblem::MissingChunkIndex);
    assert_eq!(refused(request("hashes", 0, false)), CompareProblem::MustBeginWithStructure);
    let mut gap = structure();
    gap.records[1].id = 2;
    assert_eq!(refused(gap), CompareProblem::NotDense { wanted: 1, got: 2 });
    let mut mixed = structure();
    mixed.has_snapshot = true;
    assert_eq!(refused(mixed), CompareProblem::StructureOnlyRecords);

    let mut begun = session();
    let mut first = structure();
    first.final_chunk = false;
    assert!(matches!(
        begun.process_streamed_initial_compare_chunk(SERVICE, first),
        Ok(CompareStep::MoreStructure(1))
    ));
    assert_eq!(
        begun.process_streamed_initial_compare_chunk("Workspace", structure()).unwrap_err(),
        CompareProblem::OtherService
    );
    assert_eq!(
        begun.process_streamed_initial_compare_chunk(SERVICE, structure()).unwrap_err(),
        CompareProblem::ChunkOutOfOrder { wanted: 1, got: 0 }
    );
    assert_eq!(ComparePhase::DiskPrepare.name(), "diskPrepare");
}

#[test]
fn a_repeated_request_is_replayed() {
    let mut session = session();
    let digest = hash(b"request");
    assert_eq!(
        initial_compare_service_chunk(Some(&session), 0, "compare", SERVICE, &digest),
        Admission::Process
    );
    assert_eq!(session.reply_again(), None);
    session.answered(SERVICE, digest, "{\"ok\":true}".to_string(), None);
    assert_eq!(
        initial_compare_service_chunk(Some(&session), 0, "compare", SERVICE, &digest),
        Admission::Replay
    );
    assert_eq!(session.reply_again().as_deref(), Some("{\"ok\":true}"));
    let other = hash(b"other");
    let admitted = |idle: u64, compare: &str, service: &str| {
        initial_compare_service_chunk(Some(&session), idle, compare, service, &other)
    };
    assert_eq!(
        admitted(INITIAL_COMPARE_SESSION_TTL_MS, "compare", SERVICE),
        Admission::Refused(AdmissionProblem::Expired)
    );
    assert_eq!(
        admitted(0, "else", SERVICE),
        Admission::Refused(AdmissionProblem::OtherCompareId)
    );
    assert_eq!(
        admitted(0, "compare", "Workspace"),
        Admission::Refused(AdmissionProblem::WrongService(0))
    );
    assert_eq!(
        initial_compare_service_chunk(None, 0, "compare", SERVICE, &other),
        Admission::Refused(AdmissionProblem::NoSession)
    );
    assert!(!initial_compare_session_expired(false, 1));
    assert!(!clear_completed_initial_compare_for_choice(&session, "c"));
}

#[test]
fn requests_to_compare_have_one_form() {
    let tree = [Some(SERVICE.to_string())];
    assert!(check_request_shape(Some("c"), Some(SERVICE), false, &tree).is_ok());
    assert_eq!(
        check_request_shape(None, Some(SERVICE), false, &tree).unwrap_err(),
        AdmissionProblem::NoCompareId
    );
    assert_eq!(
        check_request_shape(Some("c"), None, false, &tree).unwrap_err(),
        AdmissionProblem::NoService
    );
    assert_eq!(
        check_request_shape(Some("c"), Some("Workspace"), false, &tree).unwrap_err(),
        AdmissionProblem::NotTheService
    );
    assert_eq!(
        check_request_shape(Some("c"), Some(SERVICE), true, &tree).unwrap_err(),
        AdmissionProblem::ChunkWithTree
    );
    let (message, migrate) = initial_compare_error_value("compare", "broken");
    assert!(message.contains("broken"));
    assert!(!migrate);
}

#[test]
fn flat_records_are_refused_for_their_shape() {
    let refused = |change: fn(&mut Vec<FlatSnapshotRecord>)| {
        let mut records = studio_records();
        change(&mut records);
        validate_flat_snapshot(&records, SERVICE, false, 256).unwrap_err()
    };
    assert_eq!(refused(|r| r.clear()), FlatProblem::Empty);
    assert_eq!(refused(|r| r[1].id = 7), FlatProblem::NotDense { at: 1, received: 7 });
    assert_eq!(refused(|r| r[1].name = "a\0b".to_string()), FlatProblem::NulName { at: 1 });
    assert_eq!(refused(|r| r[0].name = "Else".to_string()), FlatProblem::RootMismatch);
    assert_eq!(refused(|r| r[1].parent_id = None), FlatProblem::Disconnected { at: 1 });
    assert_eq!(refused(|r| r[1].parent_id = Some(1)), FlatProblem::ParentNotBefore { at: 1 });
    assert_eq!(
        refused(|r| r[1].class = "Part".to_string()),
        FlatProblem::UnsupportedClass { at: 1 }
    );
    assert_eq!(
        refused(|r| r[0].child_count = 2),
        FlatProblem::ChildCount { parent: 0, declared: 2, received: 1 }
    );
    assert_eq!(
        refused(|r| r[1].child_index = 4),
        FlatProblem::ChildIndexGap { parent: 0, expected: 0, received: 4 }
    );
    assert!(matches!(
        refused(|r| r[1].disk_fragment = Some("x".to_string())),
        FlatProblem::FragmentChosen { at: 1 }
    ));
    let whole = validate_flat_snapshot(&studio_records(), SERVICE, false, 256).unwrap();
    assert_eq!(whole.script_ids, [1]);
    assert_eq!(whole.service.nodes.len(), 2);
    let mut long = studio_records();
    long[1].name = "n".repeat(32_769);
    assert_eq!(
        validate_stream_record_chunk_fields(&long).unwrap_err(),
        FieldProblem::Name(1)
    );
}

#[test]
fn charges_stay_within_limits() {
    assert_eq!(charge_stream_structure_bytes(1, 2, 3).unwrap(), (4, 5));
    assert_eq!(
        charge_stream_structure_bytes(MAX_STREAM_SERVICE_STRUCTURE_BYTES, 0, 1).unwrap_err(),
        ChargeProblem::ServiceLimit
    );
    assert_eq!(
        charge_stream_structure_bytes(usize::MAX, 0, 1).unwrap_err(),
        ChargeProblem::ServiceOverflow
    );
    assert_eq!(
        charge_stream_source_bytes(0, 134_217_728, 1).unwrap_err(),
        ChargeProblem::SessionLimit
    );
    assert_eq!(
        charge_stream_source_bytes(0, u64::MAX, 1).unwrap_err(),
        ChargeProblem::SessionOverflow
    );
}

#[test]
fn replies_are_packed_up_to_their_target() {
    assert_eq!(pack(&[10, 20, 30], 1, 100).unwrap(), 2);
    let half = STREAM_RESPONSE_PACK_TARGET / 2;
    assert_eq!(pack(&[half, half, 1], 0, 0).unwrap(), 1);
    assert_eq!(pack(&[STREAM_RESPONSE_PACK_TARGET + 1], 0, 0).unwrap(), 0);
    assert_eq!(fit(&[10, 20], 0, 100, 100), 2);
}

fn body(phase: &str, chunk: Option<u64>) -> SnapshotStreamBody {
    SnapshotStreamBody {
        plugin_protocol: Some(3),
        request_id: "request".to_string(),
        stream_id: chunk.map(|_| "stream".to_string()),
        phase: phase.to_string(),
        service: chunk.map(|_| SERVICE.to_string()),
        chunk_index: chunk,
        strict: false,
        avoid_sync_paths: Vec::new(),
        choice_id: None,
    }
}

fn pull(digest: [u8; 32]) -> PullSession {
    let said = "started".to_string();
    PullSession::start("request", "stream".to_string(), None, None, digest, said)
}

#[test]
fn a_service_is_sent_in_its_phases() {
    let mut session = pull(hash(b"start"));
    assert_eq!(
        admit_pull_chunk(&body("diskPrepare", Some(1)), 3, Some(&session), 0, &hash(b"0")),
        PullAdmission::Prepare
    );
    assert_eq!(session.reply_again(), "started");
    assert_eq!(session.still_preparing(hash(b"0"), "preparing".to_string()), 1);
    assert_eq!(session.reply_again(), "preparing");
    assert_eq!(
        admit_pull_chunk(&body("diskPrepare", Some(1)), 3, Some(&session), 0, &hash(b"0")),
        PullAdmission::Replay
    );
    assert_eq!(
        admit_pull_chunk(&body("diskPrepare", Some(5)), 3, Some(&session), 0, &hash(b"x")),
        PullAdmission::Refused(PullRefusal::ExpectedPrepare(2))
    );

    let mut paths = HashMap::new();
    paths.insert(1, "/p/ReplicatedStorage/Main.luau".to_string());
    let mut preparation = prepare_snapshot_service_stream(
        SERVICE,
        tree(),
        disk_records(),
        paths,
        &tree(),
        None,
        256,
    )
    .unwrap();
    assert_eq!(preparation.next().unwrap(), Some("/p/ReplicatedStorage/Main.luau"));
    assert!(preparation.saw(Ok(generation_of(8))).is_ok());
    assert_eq!(preparation.next().unwrap(), None);
    session.prepared(preparation.finish());
    assert_eq!(
        admit_pull_chunk(&body("structure", Some(0)), 3, Some(&session), 0, &hash(b"1")),
        PullAdmission::Produce(PullPhase::Structure)
    );

    let mut service = session.service.take().unwrap();
    let reply = service.produce_structure_response(&[100, 100], 200).unwrap();
    assert_eq!((reply.from, reply.count, reply.final_chunk), (0, 2, true));
    assert_eq!(service.phase, PullPhase::Sources);
    assert_eq!(snapshot_phase_name(service.phase), "sources");

    let fingerprint = || {
        let digest = hash_tree_contents(&tree(), &vec![b"return 1".to_vec()]);
        capture_exact_tree_fingerprint(tree(), digest, &tree()).unwrap()
    };
    assert!(!service.poll_initial_pull_fingerprint(WorkerPoll::Pending).unwrap());
    assert!(service.poll_initial_pull_fingerprint(WorkerPoll::Ready(fingerprint())).unwrap());
    assert_eq!(
        service.next_source().unwrap(),
        Some((1, "/p/ReplicatedStorage/Main.luau"))
    );
    assert_eq!(
        service
            .load_pull_source(generation_of(9), b"return 1".to_vec(), generation_of(9))
            .unwrap_err(),
        PullProblem::ChangedBefore
    );
    assert!(service
        .load_pull_source(generation_of(8), b"return 1".to_vec(), generation_of(8))
        .is_ok());
    let mut batch = SourceBatch { encoded: 0, count: 0 };
    assert!(service.wants_part(&batch));
    let part = pull_source_part(service.active.as_ref().unwrap());
    assert_eq!((part.data.as_str(), part.final_part, part.total_bytes), ("return 1", true, 8));
    assert_eq!(part.sha256, hex(&hash(b"return 1")));
    assert!(service.take_part(&mut batch, &part, 60, generation_of(8)).unwrap());
    assert!(service.sources_complete());
    assert!(!service.poll_revalidated_pull_fingerprint(WorkerPoll::Pending).unwrap());
    assert!(service.poll_revalidated_pull_fingerprint(WorkerPoll::Ready(fingerprint())).unwrap());
    let reply = service.finish_sources(true, false, false);
    assert!(reply.final_chunk && !reply.complete);
    session.service = Some(service);
    assert!(matches!(
        session.answered(PullPhase::Sources, reply, hash(b"2"), "sources".to_string()),
        Advance::NextService(1)
    ));
    assert_eq!(
        admit_pull_chunk(&body("sources", Some(9)), 3, Some(&session), 0, &hash(b"2")),
        PullAdmission::Replay
    );
    assert_eq!(session.reply_again(), "sources");
    assert_eq!((session.next_service, session.prepare_next_chunk), (1, 0));
    assert!(session.service.is_none());
    assert!(!session.final_service());
}

#[test]
fn long_sources_come_in_parts() {
    let text = format!("{}é{}", "a".repeat(65_535), "b".repeat(10));
    let mut active = PullActiveSource {
        id: 1,
        text: text.clone(),
        offset: 0,
        part_index: 0,
        sha256: hex(&hash(text.as_bytes())),
        generation: generation_of(text.len() as u64),
        path: "/p".to_string(),
    };
    let first = pull_source_part(&active);
    assert_eq!(first.data.len(), 65_535);
    assert!(!first.final_part);
    active.offset += first.data.len();
    active.part_index += 1;
    let second = pull_source_part(&active);
    assert!(second.final_part);
    assert_eq!(format!("{}{}", first.data, second.data), text);
}

#[test]
fn transfers_are_refused_out_of_place() {
    let digest = hash(b"start");
    let start = body("start", None);
    assert_eq!(admit_pull_start(&start, 3, None, 0, &digest), PullAdmission::Start);
    assert_eq!(
        admit_pull_start(&start, 4, None, 0, &digest),
        PullAdmission::Refused(PullRefusal::Protocol)
    );
    assert_eq!(
        admit_pull_start(&start, 3, None, 32, &digest),
        PullAdmission::Refused(PullRefusal::TooManySessions)
    );
    assert_eq!(
        admit_pull_start(&body("start", Some(0)), 3, None, 0, &digest),
        PullAdmission::Refused(PullRefusal::StartWithCursor)
    );
    let session = pull(digest);
    assert_eq!(
        admit_pull_start(&start, 3, Some(&session), 1, &digest),
        PullAdmission::Replay
    );
    let other = hash(b"other");
    let chunk = body("structure", Some(0));
    assert_eq!(
        admit_pull_chunk(&chunk, 3, None, 0, &other),
        PullAdmission::Refused(PullRefusal::NoSession)
    );
    assert_eq!(
        admit_pull_chunk(&chunk, 3, Some(&session), STREAM_SESSION_TTL_MS, &other),
        PullAdmission::Refused(PullRefusal::Expired)
    );
    let mut strict = body("structure", Some(0));
    strict.strict = true;
    assert_eq!(
        admit_pull_chunk(&strict, 3, Some(&session), 0, &other),
        PullAdmission::Refused(PullRefusal::ChangedOptions)
    );
    assert!(snapshot_stream_expired(false, STREAM_SESSION_TTL_MS));

    let changed = prepare_snapshot_service_stream(
        SERVICE,
        tree(),
        disk_records(),
        HashMap::new(),
        &TreeGeneration { present: false, ..tree() },
        None,
        256,
    );
    assert_eq!(changed.unwrap_err(), PullPrepareProblem::Changed);
}

#[test]
fn a_selection_is_taken_and_given_back() {
    let mut grants: TimedStore<Vec<String>> = TimedStore::new();
    assert_eq!(take_selection(None, false, &mut grants, "/p", 0, 100).unwrap(), None);
    assert_eq!(
        take_selection(Some("c"), false, &mut grants, "/p", 0, 100).unwrap_err(),
        PullRefusal::NoGrant
    );
    assert_eq!(
        take_selection(Some("c"), true, &mut grants, "/p", 0, 100).unwrap_err(),
        PullRefusal::StrictSelection
    );
    restore_snapshot_selective_grant(
        &mut grants,
        "/p",
        Some("c"),
        Some(vec!["Workspace/A".to_string()]),
        1,
    );
    assert_eq!(
        take_selection(Some("c"), false, &mut grants, "/p", 2, 100).unwrap(),
        Some(vec!["Workspace/A".to_string()])
    );
    assert_eq!(
        take_selection(Some("c"), false, &mut grants, "/p", 3, 100).unwrap_err(),
        PullRefusal::NoGrant
    );
}

#[test]
fn old_sessions_are_removed_unless_superseded() {
    let mut sessions = vec![SessionEntry { project: "/p".to_string(), ticket: 4 }];
    assert!(matches!(
        try_remove_expired_stream_session(&mut sessions, "/p", 3, Some(true)),
        StreamCleanupAttempt::Superseded
    ));
    assert!(matches!(
        try_remove_expired_stream_session(&mut sessions, "/p", 4, None),
        StreamCleanupAttempt::Retry
    ));
    assert!(matches!(
        try_remove_expired_stream_session(&mut sessions, "/p", 4, Some(true)),
        StreamCleanupAttempt::Removed
    ));
    assert!(sessions.is_empty());
}

#[test]
fn the_last_reply_completes_the_transfer() {
    let mut session = pull(hash(b"start"));
    let reply = PhaseReply { chunk_index: 0, final_chunk: true, complete: true };
    assert!(matches!(
        session.answered(PullPhase::Sources, reply, hash(b"1"), "done".to_string()),
        Advance::Complete
    ));
    assert!(session.completed);
    assert_eq!(
        admit_pull_chunk(&body("sources", Some(0)), 3, Some(&session), 0, &hash(b"1")),
        PullAdmission::Replay
    );
    assert_eq!(session.reply_again(), "done");
}

#[test]
fn abandoned_commits_keep_their_backups() {
    let mut slot = Some(StreamCommitControl {
        cancelled: false,
        committed: true,
        retained_backup: Some("/b".to_string()),
        partial_failure: false,
    });
    let abandoned = abandon_commit(&mut slot);
    assert!(abandoned.committed && awaits_receipt(&abandoned));
    assert_eq!(abandoned.retained_backup.as_deref(), Some("/b"));
    let mut backups = Vec::new();
    keep_backup(&mut backups, Some("/b"));
    keep_backup(&mut backups, Some("/b"));
    keep_backup(&mut backups, None);
    assert_eq!(backups, ["/b"]);
    assert!(recovery_required(&abandoned, 1, 0));
    let mut control = StreamCommitControl {
        cancelled: false,
        committed: false,
        retained_backup: None,
        partial_failure: false,
    };
    drop_service_stream(&mut control);
    assert!(control.cancelled);
    assert_eq!(snapshot_scope(true, false, false), SnapshotScope::One);
    assert!(!snapshot_is_bootstrap(true, false, 1));
}

#[test]
fn deletions_follow_the_sources_of_a_selection() {
    let mut paths = HashMap::new();
    paths.insert(1, "/p/ReplicatedStorage/Main.luau".to_string());
    let selected = vec!["ReplicatedStorage/Gone".to_string()];
    let preparation = prepare_snapshot_service_stream(
        SERVICE,
        tree(),
        disk_records(),
        paths,
        &tree(),
        Some(&selected),
        256,
    )
    .unwrap();
    let mut service = preparation.finish();
    assert_eq!(
        service.deletes,
        vec![vec!["ReplicatedStorage".to_string(), "Gone".to_string()]]
    );
    assert!(!service.deletes_complete());
    assert_eq!(
        service.take_deletes(&[STREAM_RESPONSE_PACK_TARGET], 10).unwrap_err(),
        PullProblem::DeleteTooLarge
    );
    let reply = service.finish_deletes(false, true);
    assert_eq!((reply.chunk_index, reply.final_chunk, reply.complete), (0, false, false));
    assert_eq!(service.take_deletes(&[40], 10).unwrap(), (0, 1));
    assert!(service.deletes_complete());
    let reply = service.finish_deletes(true, false);
    assert_eq!((reply.chunk_index, reply.final_chunk, reply.complete), (1, true, false));
    let reply = service.finish_deletes(true, true);
    assert_eq!((reply.chunk_index, reply.final_chunk, reply.complete), (1, true, true));
}

#[test]
fn services_compared_as_trees_add_up() {
    let mut first = InitialComparison::new();
    first.new_files.push(DiffItem {
        path: "Workspace/A".to_string(),
        class: "Folder".to_string(),
        kind: DiffKind::Folder,
    });
    let mut second = InitialComparison::new();
    second.removed_files.push(DiffItem {
        path: "ReplicatedStorage/B".to_string(),
        class: "ModuleScript".to_string(),
        kind: DiffKind::Script,
    });
    let mut session = session();
    session.merge_service(first);
    session.merge_service(second);
    assert_eq!(session.next_service, 2);
    assert_eq!(session.comparison.new_files.len(), 1);
    assert_eq!(session.comparison.new_files[0].path, "Workspace/A");
    assert_eq!(session.comparison.changed_files.len(), 0);
    assert_eq!(session.comparison.removed_files[0].path, "ReplicatedStorage/B");
}

#[test]
fn a_reservation_of_studio_is_no_change_of_a_streamed_service() {
    let local = validate_flat_snapshot(&disk_records(), SERVICE, true, 256).unwrap();
    let mut records = studio_records();
    records[0].child_count = 2;
    records.push(record(2, Some(0), 1, 0, "Kept", "Folder"));
    records[2].avoid_sync = true;
    let studio = validate_flat_snapshot(&records, SERVICE, false, 256).unwrap();
    let mut sources = HashMap::new();
    sources.insert(1, "/p/ReplicatedStorage/Main.luau".to_string());
    let mut laid =
        overlay_local_avoid_sync_reservations("/p", local.service, &[0], studio.service, &[0]);
    assert_eq!(laid.next().unwrap().directory, "/p/ReplicatedStorage");
    let plan = vec![
        PlannedChild { node: 1, fragments: vec![("Main.luau".to_string(), false)] },
        PlannedChild { node: 2, fragments: vec![("Kept".to_string(), true)] },
    ];
    assert!(laid.lay(&plan).is_ok());
    assert!(laid.next().is_none());
    let prepared =
        prepare_streamed_initial_service_comparison(&laid, &sources, &studio.script_ids).unwrap();
    assert!(prepared.local_nodes.get("ReplicatedStorage/Kept").is_none());
    assert!(prepared.studio_nodes.get("ReplicatedStorage/Kept").is_none());
    assert!(prepared.local_nodes.get("ReplicatedStorage/Main").is_some());
}
