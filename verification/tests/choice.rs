use rosync::decision::{
    check_studio_choice, delta_source_paths, finish_initial_comparison, give_grant,
    initial_choice, initial_choice_name, initial_compare, initial_decision, park_choice,
    parse_choice, persist_initial_choice_default, take_grant, ChoiceProblem, Decision, FinishStep,
    InitialAction, DECISION_POLL_MS,
};
use rosync::details::{
    decode_initial_choice_cursor, encode_initial_choice_cursor, initial_choice_details,
    pack_initial_choice_detail_page, CursorProblem, PageProblem,
};
use rosync::diff::{ChangedItem, DiffItem, DiffKind};
use rosync::initial_sync::{Choice, InitialComparison, Stats};
use rosync::selection::{
    abort_initial_selection, accept_selection_chunk, commit_initial_selection_with,
    initial_choice_selection, selection_request,
    valid_initial_choice_token, CompletedSelections, InitialSelectionReceipt, PendingInitial,
    SelectionProblem, SelectionRequest, INITIAL_SELECTION_TTL_MS,
};
use rosync::timed_store::TimedStore;

const STATS: Stats = Stats { script_count: 1, instance_count: 2 };

fn comparison(paths: &[&str]) -> InitialComparison {
    let mut comparison = InitialComparison::new();
    for path in paths {
        comparison.new_files.push(DiffItem {
            path: path.to_string(),
            class: "Script".to_string(),
            kind: DiffKind::Script,
        });
    }
    comparison
}

fn parked(paths: &[&str]) -> Option<PendingInitial> {
    match park_choice("c1".to_string(), STATS, STATS, &comparison(paths), Vec::new()) {
        Ok(pending) => Some(pending),
        Err(problem) => panic!("{problem:?}"),
    }
}

fn chunk(index: u32, last: bool, restart: bool, ids: &[u32]) -> InitialSelectionReceipt {
    let request = selection_request(
        "c1",
        "s1",
        None,
        Some(index),
        Some(last),
        restart,
        ids.to_vec(),
    );
    match request {
        Ok(SelectionRequest::Chunk(chunk)) => chunk,
        other => panic!("{other:?}"),
    }
}

#[test]
fn the_first_step_depends_on_what_is_there() {
    let none = Stats { script_count: 0, instance_count: 0 };
    assert_eq!(initial_compare(none, STATS, 0), InitialAction::Push);
    assert_eq!(initial_compare(STATS, none, 0), InitialAction::Pull);
    assert_eq!(initial_compare(STATS, STATS, 0), InitialAction::Stream);
    assert_eq!(initial_compare(STATS, STATS, 3), InitialAction::CompareTrees);
    assert_eq!(
        finish_initial_comparison(&comparison(&["a"]), true),
        FinishStep::Ask
    );
    assert_eq!(
        finish_initial_comparison(&comparison(&[]), true),
        FinishStep::RevalidateStaged
    );
    assert_eq!(finish_initial_comparison(&comparison(&[]), false), FinishStep::SeedBaselines);
}

#[test]
fn choices_are_read_with_their_mode() {
    assert_eq!(parse_choice("studio", None).unwrap(), Choice::Studio);
    assert_eq!(parse_choice("disk", None).unwrap_err(), ChoiceProblem::DiskNeedsMode);
    assert_eq!(
        parse_choice("studio", Some("all")).unwrap_err(),
        ChoiceProblem::ModeWithoutDisk
    );
    assert_eq!(parse_choice("both", None).unwrap_err(), ChoiceProblem::Unknown);
    assert_eq!(initial_choice_name(Choice::Studio), "studio");
}

#[test]
fn a_choice_is_answered_once() {
    let mut slot = parked(&["Workspace/A"]);
    assert_eq!(
        initial_choice(&mut slot, "other", Choice::Studio).unwrap_err(),
        ChoiceProblem::NoPending
    );
    assert!(check_studio_choice(slot.as_ref(), "c1").is_ok());
    assert!(matches!(initial_decision(&mut slot, "c1", 0), Decision::Waiting));
    assert!(matches!(
        initial_decision(&mut slot, "c1", DECISION_POLL_MS),
        Decision::Pending
    ));
    assert!(initial_choice(&mut slot, "c1", Choice::Studio).unwrap());
    assert!(!initial_choice(&mut slot, "c1", Choice::Studio).unwrap());
    assert_eq!(
        initial_choice(&mut slot, "c1", Choice::Cancel).unwrap_err(),
        ChoiceProblem::Resolved
    );
    assert!(matches!(initial_decision(&mut slot, "c2", 0), Decision::Stale));
    assert!(matches!(initial_decision(&mut slot, "c1", 0), Decision::Studio(_)));
    assert!(slot.is_none());
    assert!(matches!(initial_decision(&mut slot, "c1", 0), Decision::Stale));
}

#[test]
fn a_selection_is_committed_with_its_last_chunk() {
    let mut slot = parked(&["Workspace/A", "Workspace/B", "Workspace/C"]);
    let mut store: CompletedSelections = TimedStore::new();
    let ids: Vec<u32> = slot.as_ref().unwrap().details.iter().map(|item| item.id).collect();
    let first = chunk(0, false, true, &ids[..1]);
    let reply =
        initial_choice_selection(&mut slot, &mut store, "/p", "c1", "s1", first, 10).unwrap();
    assert_eq!((reply.accepted_chunk, reply.next_chunk, reply.selected_count), (0, 1, 1));
    assert!(!reply.committed);
    let again = chunk(0, false, true, &ids[..1]);
    let replayed =
        initial_choice_selection(&mut slot, &mut store, "/p", "c1", "s1", again, 11).unwrap();
    assert_eq!(replayed.selected_count, reply.selected_count);

    let out_of_order = chunk(2, true, false, &ids[2..]);
    assert_eq!(
        initial_choice_selection(&mut slot, &mut store, "/p", "c1", "s1", out_of_order, 12)
            .unwrap_err(),
        SelectionProblem::OutOfOrder { wanted: 1, got: 2 }
    );
    let repeated = chunk(1, true, false, &ids[..1]);
    assert_eq!(
        initial_choice_selection(&mut slot, &mut store, "/p", "c1", "s1", repeated, 12)
            .unwrap_err(),
        SelectionProblem::RepeatsEarlier
    );
    let unknown = chunk(1, true, false, &[99]);
    assert_eq!(
        initial_choice_selection(&mut slot, &mut store, "/p", "c1", "s1", unknown, 12)
            .unwrap_err(),
        SelectionProblem::UnknownId
    );
    let last = chunk(1, true, false, &ids[2..]);
    let done =
        initial_choice_selection(&mut slot, &mut store, "/p", "c1", "s1", last, 13).unwrap();
    assert!(done.committed);
    assert_eq!(done.selected_count, 2);
    match initial_decision(&mut slot, "c1", 0) {
        Decision::Selected(paths) => assert_eq!(paths, ["Workspace/A", "Workspace/C"]),
        other => panic!("{other:?}"),
    }
    let late = chunk(1, true, false, &ids[2..]);
    let answered =
        initial_choice_selection(&mut slot, &mut store, "/p", "c1", "s1", late, 14).unwrap();
    assert!(answered.committed);
    assert_eq!(answered.selected_count, 2);
}

#[test]
fn a_committed_chunk_is_answered_as_it_was_and_no_other_is() {
    let mut slot = parked(&["Workspace/A", "Workspace/B", "Workspace/C"]);
    let mut store: CompletedSelections = TimedStore::new();
    let ids: Vec<u32> = slot.as_ref().unwrap().details.iter().map(|item| item.id).collect();
    let first = chunk(0, false, true, &ids[..1]);
    let started =
        initial_choice_selection(&mut slot, &mut store, "/p", "c1", "s1", first, 10).unwrap();
    let last = chunk(1, true, false, &ids[2..]);
    let done =
        initial_choice_selection(&mut slot, &mut store, "/p", "c1", "s1", last, 11).unwrap();
    let paths = slot.as_ref().unwrap().selected_disk_paths.clone();

    let again = chunk(1, true, false, &ids[2..]);
    let replayed =
        initial_choice_selection(&mut slot, &mut store, "/p", "c1", "s1", again, 12).unwrap();
    assert_eq!(
        (replayed.accepted_chunk, replayed.next_chunk, replayed.selected_count),
        (done.accepted_chunk, done.next_chunk, done.selected_count)
    );
    assert!(replayed.committed);
    let earlier = chunk(0, false, true, &ids[..1]);
    let replayed =
        initial_choice_selection(&mut slot, &mut store, "/p", "c1", "s1", earlier, 13).unwrap();
    assert_eq!(replayed.selected_count, started.selected_count);
    for other in [
        chunk(1, true, false, &ids[1..2]),
        chunk(1, false, false, &ids[2..]),
        chunk(0, false, false, &ids[..1]),
    ] {
        assert_eq!(
            initial_choice_selection(&mut slot, &mut store, "/p", "c1", "s1", other, 14)
                .unwrap_err(),
            SelectionProblem::ReceiptMismatch
        );
    }
    assert_eq!(slot.as_ref().unwrap().selected_disk_paths, paths);
}

#[test]
fn the_last_step_before_a_commit_is_taken() {
    let mut pending = parked(&["Workspace/A", "Workspace/B"]).unwrap();
    let id = pending.details[1].id;
    let mut store: CompletedSelections = TimedStore::new();
    let (reply, last) =
        accept_selection_chunk(&mut pending, "s1", chunk(0, true, true, &[id]), 5).unwrap();
    assert!(last && reply.selected_count == 1);
    let mut called = 0;
    commit_initial_selection_with(
        &mut pending,
        &mut store,
        vec!["k".to_string()],
        6,
        |waiting, kept| {
            called += 1;
            assert_eq!(waiting.choice, None);
            assert_eq!(waiting.selected_disk_paths, None);
            assert_eq!(kept.entries.len(), 1);
            assert_eq!(kept.entries[0].value.len(), 1);
            assert!(kept.entries[0].value[0].committed);
        },
    );
    assert_eq!(called, 1);
    assert_eq!(store.entries.len(), 1);
    assert_eq!(pending.choice, Some(Choice::Disk));
    assert_eq!(pending.selected_disk_paths, Some(vec!["Workspace/B".to_string()]));
}

#[test]
fn a_selection_is_given_up_or_grows_old() {
    let mut slot = parked(&["Workspace/A", "Workspace/B"]);
    let mut store: CompletedSelections = TimedStore::new();
    let ids: Vec<u32> = slot.as_ref().unwrap().details.iter().map(|item| item.id).collect();
    assert!(!abort_initial_selection(&mut slot, "c1", "s1", 5).unwrap());
    let first = chunk(0, false, true, &ids[..1]);
    assert!(
        initial_choice_selection(&mut slot, &mut store, "/p", "c1", "s1", first, 10).is_ok()
    );
    assert_eq!(
        abort_initial_selection(&mut slot, "c1", "s2", 11).unwrap_err(),
        SelectionProblem::OtherAbort
    );
    assert!(abort_initial_selection(&mut slot, "c1", "s1", 11).unwrap());
    let first = chunk(0, false, true, &ids[..1]);
    assert!(
        initial_choice_selection(&mut slot, &mut store, "/p", "c1", "s1", first, 12).is_ok()
    );
    let next = chunk(1, true, false, &ids[1..]);
    let late = 12 + INITIAL_SELECTION_TTL_MS;
    assert!(
        initial_choice_selection(&mut slot, &mut store, "/p", "c1", "s1", next, late).is_err()
    );
}

#[test]
fn selection_requests_have_one_form() {
    assert!(valid_initial_choice_token("c-1_a"));
    assert!(!valid_initial_choice_token(""));
    let request = |op: Option<&str>, index: Option<u32>, last: Option<bool>, ids: Vec<u32>| {
        selection_request("c1", "s1", op, index, last, false, ids)
    };
    assert!(matches!(
        request(Some("abort"), None, None, Vec::new()),
        Ok(SelectionRequest::Abort)
    ));
    assert_eq!(
        request(Some("abort"), Some(0), None, Vec::new()).unwrap_err(),
        SelectionProblem::AbortWithChunk
    );
    assert_eq!(
        request(Some("else"), None, None, Vec::new()).unwrap_err(),
        SelectionProblem::UnknownOperation
    );
    assert_eq!(
        request(None, None, Some(true), vec![1]).unwrap_err(),
        SelectionProblem::MissingChunkIndex
    );
    assert_eq!(
        request(None, Some(0), None, vec![1]).unwrap_err(),
        SelectionProblem::MissingFinalChunk
    );
    assert_eq!(
        request(None, Some(0), Some(true), Vec::new()).unwrap_err(),
        SelectionProblem::NoIds
    );
    assert_eq!(
        request(None, Some(0), Some(true), vec![1; 2049]).unwrap_err(),
        SelectionProblem::TooManyIds
    );
}

#[test]
fn cursors_read_back_for_their_choice() {
    let cursor = encode_initial_choice_cursor("c1", 512);
    assert_ne!(cursor, "c1");
    assert_eq!(decode_initial_choice_cursor(&cursor, "c1").unwrap(), 512);
    assert_eq!(
        decode_initial_choice_cursor(&cursor, "c2").unwrap_err(),
        CursorProblem::OtherChoice
    );
    assert_eq!(
        decode_initial_choice_cursor("?!", "c1").unwrap_err(),
        CursorProblem::Invalid
    );
}

#[test]
fn pages_hold_what_fits() {
    let slot = parked(&["Workspace/A", "Workspace/B", "Workspace/C"]);
    assert_eq!(initial_choice_details(slot.as_ref(), "c1", None, Some(2)).unwrap(), (0, 2));
    let cursor = encode_initial_choice_cursor("c1", 2);
    assert_eq!(
        initial_choice_details(slot.as_ref(), "c1", Some(&cursor), None).unwrap(),
        (2, 3)
    );
    let far = encode_initial_choice_cursor("c1", 9);
    assert_eq!(
        initial_choice_details(slot.as_ref(), "c1", Some(&far), None).unwrap_err(),
        PageProblem::OutOfRange
    );
    assert_eq!(
        initial_choice_details(None, "c1", None, None).unwrap_err(),
        PageProblem::NoPending
    );
    let page = pack_initial_choice_detail_page("c1", 3, 0, &[10, 20], 100).unwrap();
    assert_eq!((page.count, page.complete), (2, false));
    assert_eq!(page.next_cursor, Some(encode_initial_choice_cursor("c1", 2)));
    let end = pack_initial_choice_detail_page("c1", 3, 2, &[10], 100).unwrap();
    assert!(end.complete && end.next_cursor.is_none());
    assert_eq!(
        pack_initial_choice_detail_page("c1", 3, 0, &[600_000], 100).unwrap_err(),
        PageProblem::ItemTooLarge
    );
}

#[test]
fn grants_are_taken_once_and_in_time() {
    let mut grants: TimedStore<Vec<String>> = TimedStore::new();
    give_grant(&mut grants, "/p", "c1", vec!["a".to_string()], 10, 100);
    assert!(take_grant(&mut grants, "/q", "c1", 11, 100).is_none());
    assert_eq!(take_grant(&mut grants, "/p", "c1", 11, 100).unwrap(), ["a"]);
    assert!(take_grant(&mut grants, "/p", "c1", 12, 100).is_none());
    give_grant(&mut grants, "/p", "c1", Vec::new(), 10, 100);
    assert!(take_grant(&mut grants, "/p", "c1", 1_000, 100).is_none());
}

#[test]
fn defaults_and_sources_follow_the_choice() {
    assert_eq!(persist_initial_choice_default(None, Choice::Studio), Some("studio"));
    assert_eq!(persist_initial_choice_default(Some("studio"), Choice::Studio), None);
    let changed = |path: &str, class_changed: bool| ChangedItem {
        path: path.to_string(),
        kind: DiffKind::Script,
        local_class: "Script".to_string(),
        studio_class: "Script".to_string(),
        class_changed,
        source_changed: true,
    };
    let mut found = comparison(&["Workspace/New"]);
    found.changed_files.push(changed("Workspace/B", false));
    found.changed_files.push(changed("Workspace/A", false));
    found.changed_files.push(changed("Workspace/C", true));
    let pending = park_choice("c1".to_string(), STATS, STATS, &found, Vec::new()).unwrap();
    assert_eq!(delta_source_paths(&pending.details), ["Workspace/A", "Workspace/B"]);
}
