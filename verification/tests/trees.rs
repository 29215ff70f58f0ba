use std::collections::HashMap;

use rosync::baselines::{
    find_changed_service, normalized_file_hash, normalized_file_hash_cached,
    prepare_one_staged_script_baseline, record_baselines, revalidate_initial_service_generations,
    seeds_baseline, BaselineProblem, ContentHashCache, FenceProblem, LineFolder,
};
use rosync::conflict::{hash, ConflictEngine, FsDecision};
use rosync::decision::initial_snapshot_comparison_with_local;
use rosync::decimal::{read_digits, read_signed_32, read_unsigned, write_decimal};
use rosync::fingerprint::{
    backup_transaction_name, capture_exact_tree_fingerprint,
    cleanup_empty_stream_backup_transaction, copy_fenced_service_to_stage, hash_tree_contents,
    relocated_fingerprint_matches, relocated_tree_generation_matches, CleanupProblem, CopiedEntry,
    FingerprintProblem, TreeHasher,
};
use rosync::flat::FlatSnapshotRecord;
use rosync::fs_map::{ComponentProblem, META_FILE};
use rosync::fs_safety::{
    DirectoryPolicy, FileGeneration, FileIdentity, ObjectKind, Observed, PortableDirectoryIndex,
    SafeEntryKind, SafeTreeEntry, ScannedEntry, TreeGeneration,
};
use rosync::hex::{hex, is_hex_digit, parse_sha256_hex, DigestProblem};
use rosync::legacy_scan::LegacyScan;
use rosync::path_lists::{
    compact_avoid_sync_paths, compact_selected_paths, set_avoid_sync_paths, AvoidPathProblem,
    RawPath, SelectProblem,
};
use rosync::preflight::{
    preflight_directory, preflight_streamed_service_fragments, FragmentAssignment,
    PreflightProblem,
};
use rosync::reservations::{
    overlay_local_avoid_sync_children, overlay_local_avoid_sync_reservations,
    reservation_subtree_ids, PlannedChild, ReservationOverlay,
};
use rosync::selective::{build_selective_snapshot, selective_flat_service, OpKind};
use rosync::sync_scope::{contains, same_as_service_ignoring_case, script, suppressed};
use rosync::text_map::TextMap;
use rosync::timed_store::TimedStore;
use rosync::tree::{Tree, TreeNode};

fn generation(file: u64, len: u64) -> FileGeneration {
    FileGeneration {
        len,
        modified_ns: Some(1),
        identity: FileIdentity { device: Some(1), file: Some(file) },
    }
}

fn tree(service: &str, file: u64) -> TreeGeneration {
    TreeGeneration {
        service: service.to_string(),
        present: true,
        root_generation: Some(generation(1, 0)),
        entries: vec![SafeTreeEntry {
            path: format!("/p/{service}/Main.luau"),
            relative: "Main.luau".to_string(),
            kind: SafeEntryKind::File,
            generation: generation(file, 8),
        }],
    }
}

fn segments(parts: &[&str]) -> RawPath {
    RawPath::Segments(parts.iter().map(|part| Some(part.to_string())).collect())
}

#[test]
fn avoided_paths_are_sorted_without_repeats() {
    let raw = vec![
        segments(&["Workspace", "A", "B"]),
        segments(&["Workspace", "A"]),
        segments(&["Lighting"]),
        segments(&["Workspace", "A"]),
    ];
    let compacted = compact_avoid_sync_paths(&raw).unwrap();
    assert_eq!(
        compacted,
        vec![texts(&["Lighting"]), texts(&["Workspace", "A"]), texts(&["Workspace", "A", "B"])]
    );
    let refused = |path: RawPath| compact_avoid_sync_paths(&vec![path]).unwrap_err();
    assert_eq!(refused(RawPath::NotAnArray), AvoidPathProblem::NotAnArray);
    assert_eq!(refused(segments(&[])), AvoidPathProblem::Depth);
    assert_eq!(refused(RawPath::Segments(vec![None])), AvoidPathProblem::NotText);
    assert_eq!(refused(segments(&["Workspace", ""])), AvoidPathProblem::Segment);
    assert_eq!(refused(segments(&["Else"])), AvoidPathProblem::OutsideService);
    let mut cache = None;
    set_avoid_sync_paths(&mut cache, "/p", compacted);
    assert_eq!(cache.unwrap().root, "/p");
}

fn texts(parts: &[&str]) -> Vec<String> {
    parts.iter().map(|part| part.to_string()).collect()
}

#[test]
fn selected_paths_are_compacted() {
    let given = texts(&["Workspace/A/B", "Workspace/A", "Lighting/C"]);
    let kept = compact_selected_paths(&given).unwrap();
    assert_eq!(kept, texts(&["Lighting/C", "Workspace/A"]));
    assert_eq!(compact_selected_paths(&Vec::new()).unwrap_err().0, SelectProblem::NoPaths);
    assert_eq!(
        compact_selected_paths(&texts(&["Workspace"])).unwrap_err(),
        (SelectProblem::Invalid, "Workspace".to_string())
    );
    assert_eq!(
        compact_selected_paths(&texts(&["Else/A"])).unwrap_err().0,
        SelectProblem::OutsideService
    );
    let long = format!("Workspace/{}", "a".repeat(4096));
    assert_eq!(compact_selected_paths(&vec![long]).unwrap_err().0, SelectProblem::TooLong);
}

fn record(
    id: u64,
    parent: Option<u64>,
    index: u32,
    count: u32,
    name: &str,
    class: &str,
) -> FlatSnapshotRecord {
    FlatSnapshotRecord {
        id,
        parent_id: parent,
        child_index: index,
        child_count: count,
        name: name.to_string(),
        class: class.to_string(),
        has_children: count > 0 || class == "Folder",
        avoid_sync: false,
        avoid_sync_carrier: false,
        disk_fragment: parent.map(|_| {
            if class == "Folder" { name.to_string() } else { format!("{name}.luau") }
        }),
        disk_fragment_is_dir: parent.map(|_| class == "Folder"),
        source_included: None,
    }
}

#[test]
fn a_selection_keeps_the_way_to_what_was_selected() {
    let records = vec![
        record(0, None, 0, 2, "Workspace", "Workspace"),
        record(1, Some(0), 0, 1, "Box", "Folder"),
        record(2, Some(1), 0, 0, "Inner", "ModuleScript"),
        record(3, Some(0), 1, 0, "Other", "ModuleScript"),
    ];
    let mut sources = HashMap::new();
    sources.insert(2, "/p/Workspace/Box/Inner.luau".to_string());
    sources.insert(3, "/p/Workspace/Other.luau".to_string());
    let selected = texts(&["Workspace/Box/Inner", "Workspace/Gone"]);
    let kept = selective_flat_service("Workspace", &records, &sources, &selected, 256).unwrap();
    let names: Vec<&str> = kept.records.iter().map(|record| record.name.as_str()).collect();
    assert_eq!(names, ["Workspace", "Box", "Inner"]);
    assert_eq!(kept.source_paths.len(), 1);
    assert_eq!(kept.deletes, vec![texts(&["Workspace", "Gone"])]);
}

fn node(tree: &mut Tree, parent: Option<usize>, name: &str, class: &str) -> usize {
    tree.add_node(parent, TreeNode::plain(class.to_string(), name.to_string()))
}

#[test]
fn selected_nodes_become_operations() {
    let mut t = Tree::new();
    let root = node(&mut t, None, "Workspace", "Workspace");
    let folder = node(&mut t, Some(root), "Box", "Folder");
    node(&mut t, Some(folder), "Inner", "ModuleScript");
    let paths = texts(&["Workspace/Box/Inner", "Workspace/Gone"]);
    let (ops, selected) = build_selective_snapshot(&t, &[root], &paths).unwrap();
    assert_eq!(selected, texts(&["Workspace/Gone", "Workspace/Box/Inner"]));
    let kinds: Vec<OpKind> = ops.iter().map(|op| op.kind).collect();
    assert!(kinds.contains(&OpKind::Delete));
    assert!(kinds.contains(&OpKind::Replace));
    let delete = ops.iter().find(|op| op.kind == OpKind::Delete).unwrap();
    assert_eq!(delete.target, texts(&["Workspace", "Gone"]));
    assert_eq!(
        build_selective_snapshot(&t, &[root], &Vec::new()).unwrap_err().0,
        SelectProblem::NoPaths
    );
}

fn assignment(
    fragment: &str,
    class: &str,
    children: bool,
    name: Option<&str>,
) -> FragmentAssignment {
    FragmentAssignment {
        fragment: fragment.to_string(),
        materializes: true,
        class: class.to_string(),
        has_children: children,
        name: name.map(str::to_string),
    }
}

#[test]
fn file_names_of_a_directory_stay_apart() {
    let good = vec![
        assignment("A.luau", "ModuleScript", false, Some("A")),
        assignment("B", "Folder", true, Some("B")),
    ];
    assert!(preflight_directory(&good).is_ok());
    let clash = vec![
        assignment("A.luau", "ModuleScript", false, Some("A")),
        assignment("a.LUAU", "ModuleScript", false, Some("a")),
    ];
    assert_eq!(preflight_directory(&clash).unwrap_err(), PreflightProblem::Collapsed(1));
    let nameless = vec![assignment("A", "ModuleScript", true, None)];
    assert_eq!(preflight_directory(&nameless).unwrap_err(), PreflightProblem::Nameless(0));
    let empty = vec![assignment("", "Folder", true, Some("A"))];
    assert_eq!(
        preflight_streamed_service_fragments(&vec![good, empty]).unwrap_err(),
        (1, PreflightProblem::Component { at: 0, problem: ComponentProblem::Empty })
    );
}

#[test]
fn a_fingerprint_covers_names_and_contents() {
    let service = tree("Workspace", 2);
    let one = hash_tree_contents(&service, &vec![b"return 1".to_vec()]);
    let two = hash_tree_contents(&service, &vec![b"return 2".to_vec()]);
    assert_ne!(one, two);
    let mut hasher = TreeHasher::new();
    assert!(hasher
        .add_file(&service.entries[0], generation(2, 8), b"return 1", generation(2, 8))
        .is_ok());
    assert_eq!(hasher.finish(), one);
    assert_eq!(
        hasher
            .add_file(&service.entries[0], generation(3, 8), b"return 1", generation(3, 8))
            .unwrap_err(),
        FingerprintProblem::ChangedBefore
    );
    assert_eq!(
        hasher
            .add_file(&service.entries[0], generation(2, 8), b"return 1", generation(2, 9))
            .unwrap_err(),
        FingerprintProblem::ChangedWhile
    );
    let copied = vec![CopiedEntry {
        before: generation(2, 8),
        contents: b"return 1".to_vec(),
        after: generation(2, 8),
    }];
    assert_eq!(copy_fenced_service_to_stage(&service, &copied).unwrap(), one);
    let kept = capture_exact_tree_fingerprint(tree("Workspace", 2), one, &service).unwrap();
    let same = capture_exact_tree_fingerprint(tree("Workspace", 2), one, &service).unwrap();
    assert!(kept.same(&same));
    assert!(relocated_fingerprint_matches(&kept, &same));
    assert!(relocated_tree_generation_matches(&service, &tree("Workspace", 2)));
    assert_eq!(
        capture_exact_tree_fingerprint(tree("Workspace", 2), one, &tree("Workspace", 3))
            .unwrap_err(),
        FingerprintProblem::ServiceChanged
    );
    assert_eq!(backup_transaction_name(12, 3), "stream-12-3");
}

#[test]
fn only_an_empty_backup_is_cleaned_up() {
    let seen = |kind| Some(Observed { kind, generation: generation(4, 0) });
    let at = generation(4, 0);
    let directory = seen(ObjectKind::Directory);
    assert!(cleanup_empty_stream_backup_transaction(directory, at, false, at).unwrap());
    assert!(!cleanup_empty_stream_backup_transaction(None, at, false, at).unwrap());
    assert_eq!(
        cleanup_empty_stream_backup_transaction(directory, at, true, at).unwrap_err(),
        CleanupProblem::NotEmpty
    );
    assert_eq!(
        cleanup_empty_stream_backup_transaction(seen(ObjectKind::File), at, false, at)
            .unwrap_err(),
        CleanupProblem::NotADirectory
    );
    assert_eq!(
        cleanup_empty_stream_backup_transaction(seen(ObjectKind::SymbolicLink), at, false, at)
            .unwrap_err(),
        CleanupProblem::Linked
    );
}

#[test]
fn hashes_are_kept_for_one_generation() {
    let digest = normalized_file_hash(b"a\r\nb");
    assert_eq!(digest, hash(b"a\nb"));
    let mut cache = ContentHashCache::new();
    let at = generation(2, 4);
    assert_eq!(
        normalized_file_hash_cached(&mut cache, "/p/a", at, digest, at).unwrap(),
        digest
    );
    assert_eq!(cache.lookup_cached_content_hash("/p/a", &at), Some(digest));
    assert_eq!(cache.lookup_cached_content_hash("/p/a", &generation(2, 5)), None);
    assert_eq!(cache.lookup_cached_content_hash("/p/b", &at), None);
    assert_eq!(cache.lookup_cached_content_hash("/p/./a", &at), Some(digest));
    cache.invalidate_cached_content_hash("/p//a");
    assert_eq!(cache.lookup_cached_content_hash("/p/a", &at), None);
    cache.store_cached_content_hash("/p/a", at, digest);
    assert!(cache.lookup_cached_content_hash("/p/a", &at).is_some());
    assert_eq!(
        normalized_file_hash_cached(&mut cache, "/p/c", at, digest, generation(2, 9)).unwrap_err(),
        BaselineProblem::Changed
    );
}

#[test]
fn lines_are_folded_across_chunks() {
    let mut folder = LineFolder::new();
    let mut out = folder.fold(b"a\r");
    out.extend(folder.fold(b"\nb\r"));
    out.extend(folder.fold(b"c\r"));
    out.extend(folder.finish());
    assert_eq!(hash(&out), normalized_file_hash(b"a\r\nb\rc\r"));
}

#[test]
fn baselines_are_recorded_for_unchanged_files() {
    let at = generation(2, 4);
    let digest = hash(b"text");
    let staged =
        prepare_one_staged_script_baseline("/p/a".to_string(), at, digest, at, 9).unwrap();
    assert_eq!(
        prepare_one_staged_script_baseline("/p/a".to_string(), at, digest, generation(3, 4), 9)
            .unwrap_err(),
        BaselineProblem::Changed
    );
    let mut engine = ConflictEngine::new();
    record_baselines(&mut engine, &vec![staged]);
    assert_eq!(engine.on_fs_change("/p/a", "/p/a", b"text", 10), FsDecision::NoChange);
    let entry = &tree("Workspace", 2).entries[0];
    assert!(seeds_baseline(entry, "Main.luau"));
    assert!(!seeds_baseline(entry, META_FILE));
}

#[test]
fn a_fence_means_unchanged() {
    let services = [
        "ReplicatedStorage",
        "ServerScriptService",
        "StarterPlayer",
        "StarterGui",
        "Workspace",
        "ReplicatedFirst",
        "ServerStorage",
        "Lighting",
    ];
    let seen = |file: u64| -> Vec<TreeGeneration> {
        services.iter().map(|service| tree(service, file)).collect()
    };
    assert!(revalidate_initial_service_generations(&seen(2), &seen(2)).is_ok());
    let mut changed = seen(2);
    changed[4] = tree("Workspace", 3);
    assert_eq!(find_changed_service(&seen(2), &changed), Some(4));
    assert_eq!(
        revalidate_initial_service_generations(&seen(2), &changed).unwrap_err(),
        FenceProblem::Changed(4)
    );
    assert_eq!(
        revalidate_initial_service_generations(&Vec::new(), &Vec::new()).unwrap_err(),
        FenceProblem::Incomplete
    );
    let mut swapped = seen(2);
    swapped.swap(0, 1);
    assert_eq!(
        revalidate_initial_service_generations(&swapped, &swapped).unwrap_err(),
        FenceProblem::OtherService(0)
    );
}

fn index(names: &[(&str, ObjectKind)]) -> PortableDirectoryIndex {
    let at = generation(1, 0);
    let listing = names
        .iter()
        .map(|(name, kind)| ScannedEntry {
            fragment: Some(name.to_string()),
            seen: Some(Observed { kind: *kind, generation: at }),
        })
        .collect();
    let after = Some(Observed { kind: ObjectKind::Directory, generation: at });
    match PortableDirectoryIndex::read_with_policy(
        "Workspace",
        DirectoryPolicy::SyncedProjection,
        at,
        listing,
        after,
    ) {
        Ok(index) => index,
        Err(problem) => panic!("{problem:?}"),
    }
}

#[test]
fn every_directory_of_a_service_is_scanned() {
    let mut scan = LegacyScan::reject_legacy_reserved_init_leafs("/p/Workspace");
    assert_eq!(scan.next().unwrap(), Some("/p/Workspace"));
    let found =
        scan.visit(&index(&[("A", ObjectKind::Directory), ("Main.luau", ObjectKind::File)]));
    assert_eq!(found.files, [1]);
    assert!(!found.too_many);
    assert_eq!(scan.next().unwrap(), Some("/p/Workspace/A"));
    let inner = scan.visit(&index(&[]));
    assert!(inner.files.is_empty());
    assert_eq!(scan.next().unwrap(), None);
}

#[test]
fn reserved_subtrees_are_overlaid() {
    let mut studio = Tree::new();
    let root = node(&mut studio, None, "Workspace", "Workspace");
    let kept = node(&mut studio, Some(root), "Kept", "Folder");
    studio.nodes[kept].avoid_sync = true;
    node(&mut studio, Some(root), "Plain", "Folder");
    let marks = reservation_subtree_ids(&studio);
    assert_eq!(marks, [true, true, false]);
    let mut local = Tree::new();
    let parent = node(&mut local, None, "Workspace", "Workspace");
    let plan =
        vec![PlannedChild { node: kept, fragments: vec![("Kept".to_string(), true)] }];
    let placed =
        overlay_local_avoid_sync_children(&mut local, parent, &studio, &marks, &plan).unwrap();
    assert!(placed[0].unwrap().added);
    assert_eq!(local.nodes.len(), 2);
    assert!(local.nodes[1].avoid_sync);
    assert!(!local.nodes[1].avoid_sync_carrier);
}

#[test]
fn a_carrier_is_overlaid_as_a_carrier() {
    let mut studio = Tree::new();
    let root = node(&mut studio, None, "Workspace", "Workspace");
    let carrier = node(&mut studio, Some(root), "Carrier", "Folder");
    studio.nodes[carrier].avoid_sync_carrier = true;
    let marks = reservation_subtree_ids(&studio);
    let mut local = Tree::new();
    let parent = node(&mut local, None, "Workspace", "Workspace");
    let plan =
        vec![PlannedChild { node: carrier, fragments: vec![("Carrier".to_string(), true)] }];
    let placed =
        overlay_local_avoid_sync_children(&mut local, parent, &studio, &marks, &plan).unwrap();
    assert!(placed[0].unwrap().added);
    assert!(local.nodes[1].avoid_sync_carrier);
    assert!(!local.nodes[1].avoid_sync);
}

#[test]
fn reservations_are_laid_one_directory_at_a_time() {
    let mut studio = Tree::new();
    let root = node(&mut studio, None, "Workspace", "Workspace");
    let outer = node(&mut studio, Some(root), "Outer", "Folder");
    let kept = node(&mut studio, Some(outer), "Kept", "Folder");
    studio.nodes[kept].avoid_sync = true;
    let mut local = Tree::new();
    let parent = node(&mut local, None, "Workspace", "Workspace");
    let inside = node(&mut local, Some(parent), "Outer", "Folder");
    local.nodes[inside].disk_fragment = Some("Outer".to_string());
    local.nodes[inside].disk_fragment_is_dir = Some(true);
    let mut laid =
        overlay_local_avoid_sync_reservations("/p", local, &[parent], studio, &[root]);

    let task = laid.next().unwrap();
    assert_eq!((task.directory.as_str(), task.local, task.studio), ("/p/Workspace", 0, 0));
    let plan =
        vec![PlannedChild { node: outer, fragments: vec![("Outer".to_string(), true)] }];
    assert!(laid.lay(&plan).is_ok());
    assert_eq!(laid.local.nodes.len(), 2);

    let task = laid.next().unwrap();
    assert_eq!((task.directory.as_str(), task.local), ("/p/Workspace/Outer", inside));
    let plan = vec![PlannedChild { node: kept, fragments: vec![("Kept".to_string(), true)] }];
    assert!(laid.lay(&plan).is_ok());
    assert_eq!(laid.local.nodes.len(), 3);
    assert!(laid.local.nodes[2].avoid_sync);
    assert!(laid.next().is_none());
}

#[test]
fn a_reservation_without_a_place_on_disk_is_refused() {
    let mut studio = Tree::new();
    let root = node(&mut studio, None, "Workspace", "Workspace");
    let kept = node(&mut studio, Some(root), "Kept", "Folder");
    studio.nodes[kept].avoid_sync = true;
    let mut local = Tree::new();
    let parent = node(&mut local, None, "Workspace", "Workspace");
    let mut laid =
        overlay_local_avoid_sync_reservations("/p", local, &[parent], studio, &[root]);
    assert!(laid.next().is_some());
    assert!(laid.lay(&vec![PlannedChild { node: kept, fragments: Vec::new() }]).is_err());
}

#[test]
fn stored_values_are_taken_once() {
    let key = || vec!["a".to_string()];
    let mut store: TimedStore<u64> = TimedStore::new();
    store.put(key(), 7, 10);
    store.put(vec!["b".to_string()], 8, 11);
    assert!(store.find(&key()).is_some());
    assert_eq!(store.take(&key()), Some(7));
    assert_eq!(store.take(&key()), None);
    store.put(key(), 9, 12);
    store.drop_oldest();
    assert_eq!(store.take(&vec!["b".to_string()]), None);
    store.prune(1_000, 100);
    assert_eq!(store.take(&key()), None);
}

#[test]
fn text_maps_are_ordered_by_their_bytes() {
    let mut map: TextMap<u32> = TextMap::new();
    map.insert("b".to_string(), 2);
    map.insert("a".to_string(), 1);
    map.insert("é".to_string(), 3);
    map.insert("a".to_string(), 4);
    let keys: Vec<&str> = map.entries.iter().map(|(key, _)| key.as_str()).collect();
    assert_eq!(keys, ["a", "b", "é"]);
    assert_eq!(map.get("a"), Some(&4));
    assert!(map.contains("é") && !map.contains("c"));
    assert!(map.remove("a") && !map.remove("a"));
    assert_eq!(map.len(), 2);
}

#[test]
fn digests_and_numbers_are_spelled() {
    assert_eq!(hex(&[0, 171, 255]), "00abff");
    let digest = hash(b"x");
    assert_eq!(parse_sha256_hex(&hex(&digest)).unwrap(), digest);
    assert_eq!(parse_sha256_hex("00").unwrap_err(), DigestProblem::Length);
    assert_eq!(parse_sha256_hex(&"zz".repeat(32)).unwrap_err(), DigestProblem::Digit);
    assert_eq!(parse_sha256_hex(&"+1".repeat(32)).unwrap_err(), DigestProblem::Digit);
    assert!(is_hex_digit('F') && !is_hex_digit('g'));
    let chars = |s: &str| -> Vec<char> { s.chars().collect() };
    assert_eq!(read_unsigned(&chars("+42"), 100), Some(42));
    assert_eq!(read_unsigned(&chars("101"), 100), None);
    assert_eq!(read_unsigned(&chars(""), 100), None);
    assert_eq!(read_signed_32(&chars("-2147483648")), Some(i32::MIN));
    assert_eq!(read_signed_32(&chars("2147483648")), None);
    assert_eq!(read_digits(&chars("x12"), 1, 100), Some(12));
    assert_eq!(write_decimal(120), chars("120"));
}

#[test]
fn classes_and_services_are_known() {
    assert!(contains("Folder") && contains("ModuleScript") && !contains("Part"));
    assert!(script("LocalScript") && !script("Folder"));
    assert!(!suppressed("Folder"));
    assert!(same_as_service_ignoring_case("workspace"));
    assert!(!same_as_service_ignoring_case("elsewhere"));
}

/// Two trees without a marker: there is nothing to lay.
fn unmarked(local: Tree, at: usize, studio: Tree, root: usize) -> ReservationOverlay {
    let laid = overlay_local_avoid_sync_reservations("/p", local, &[at], studio, &[root]);
    assert!(laid.next().is_none());
    laid
}

#[test]
fn whole_trees_are_compared_by_what_they_hold() {
    let script = |source: &str| TreeNode {
        source: Some(source.to_string()),
        ..TreeNode::plain("ModuleScript".to_string(), "Main".to_string())
    };
    let service = || TreeNode::plain("ReplicatedStorage".to_string(), "ReplicatedStorage".to_string());
    let at = 0;
    let local = || {
        let mut local = Tree::new();
        local.add_node(None, service());
        local.add_node(Some(at), script("return 1\r\n"));
        local.add_node(Some(at), TreeNode::plain("Script".to_string(), "OnDisk".to_string()));
        local
    };
    let mut same = Tree::new();
    let root = same.add_node(None, service());
    same.add_node(Some(root), script("return 1\n"));
    same.add_node(Some(root), TreeNode::plain("Script".to_string(), "OnDisk".to_string()));
    let laid = unmarked(local(), at, same, root);
    let clean = initial_snapshot_comparison_with_local(&laid, &[at], &[root]);
    assert!(clean.is_clean());

    let mut studio = Tree::new();
    let root = studio.add_node(None, service());
    studio.add_node(Some(root), script("return 2\n"));
    studio.add_node(Some(root), TreeNode::plain("Script".to_string(), "InStudio".to_string()));
    let laid = unmarked(local(), at, studio, root);
    let found = initial_snapshot_comparison_with_local(&laid, &[at], &[root]);
    assert!(!found.is_clean());
    assert_eq!(found.new_files[0].path, "ReplicatedStorage/OnDisk");
    assert_eq!(found.removed_files[0].path, "ReplicatedStorage/InStudio");
    assert_eq!(found.changed_files[0].path, "ReplicatedStorage/Main");
    assert!(found.changed_files[0].source_changed && !found.changed_files[0].class_changed);
}
