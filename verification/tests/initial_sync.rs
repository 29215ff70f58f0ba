use rosync::diff::{ChangedItem, DiffItem, DiffKind};
use rosync::fs_safety::{
    DirectoryPolicy, FileGeneration, FileIdentity, ObjectKind, ObjectProblem, Observed,
    PortableDirectoryIndex, ScanProblem, ScannedEntry, metadata_no_follow,
};
use rosync::initial_sync::{
    compute_disk_stats, initial_choice_details_from_comparison, new_choice_id, DetailsProblem,
    DiskWalk, InitialChoiceAction, InitialComparison, Stats,
};
use rosync::sync_scope::service_at;

/// A project: the paths of its directories and files below the root.
struct Project {
    directories: Vec<String>,
    files: Vec<String>,
}

fn generation() -> FileGeneration {
    FileGeneration {
        len: 1,
        modified_ns: None,
        identity: FileIdentity { device: Some(1), file: Some(2) },
    }
}

fn seen(kind: ObjectKind) -> Option<Observed> {
    Some(Observed { kind, generation: generation() })
}

impl Project {
    fn new(directories: &[&str], files: &[&str]) -> Project {
        Project {
            directories: directories.iter().map(|path| path.to_string()).collect(),
            files: files.iter().map(|path| path.to_string()).collect(),
        }
    }

    fn index(&self, directory: &str) -> PortableDirectoryIndex {
        let mut listing = Vec::new();
        for (paths, kind) in
            [(&self.directories, ObjectKind::Directory), (&self.files, ObjectKind::File)]
        {
            for path in paths.iter() {
                if let Some(name) = path.strip_prefix(&format!("{directory}/")) {
                    if !name.contains('/') {
                        listing.push(ScannedEntry {
                            fragment: Some(name.to_string()),
                            seen: seen(kind),
                        });
                    }
                }
            }
        }
        let name = directory.rsplit('/').next().unwrap();
        match PortableDirectoryIndex::read_with_policy(
            name,
            DirectoryPolicy::SyncedProjection,
            generation(),
            listing,
            seen(ObjectKind::Directory),
        ) {
            Ok(index) => index,
            Err(problem) => panic!("{directory} was refused: {problem:?}"),
        }
    }

    fn stats(&self) -> Stats {
        let mut walk: DiskWalk = compute_disk_stats();
        let mut k = 0;
        while let Some(service) = service_at(k) {
            k += 1;
            if !self.directories.iter().any(|path| path == service) {
                continue;
            }
            assert!(walk.enter_service(service.to_string()).is_ok());
            loop {
                let path = match walk.next().unwrap() {
                    None => break,
                    Some(directory) => directory.path.clone(),
                };
                assert!(walk.visit(&self.index(&path)).is_ok());
            }
        }
        walk.finish()
    }
}

#[test]
fn empty_root_empty_stats() {
    assert!(Project::new(&[], &[]).stats().is_empty());
}

#[test]
fn counts_scripts_and_instances() {
    let s = Project::new(
        &["ReplicatedStorage", "ReplicatedStorage/Shared"],
        &[
            "ReplicatedStorage/Config.luau",
            "ReplicatedStorage/Main.server.luau",
            "ReplicatedStorage/React.lua",
            "ReplicatedStorage/Shared/Util.luau",
        ],
    )
    .stats();
    assert_eq!(s.script_count, 4);
    // instances: ReplicatedStorage, Config, Main, React, Shared, Util = 6
    assert_eq!(s.instance_count, 6);
}

#[test]
fn counts_twenty_five_thousand_scripts_without_generation_allocation() {
    const WIDTH: u32 = 25_000;
    let mut project = Project::new(&["ReplicatedStorage"], &[]);
    for index in 0..WIDTH {
        project.files.push(format!("ReplicatedStorage/Item{index:05}.luau"));
    }

    let stats = project.stats();
    assert_eq!(stats.script_count, WIDTH);
    assert_eq!(stats.instance_count, WIDTH + 1);
}

#[test]
fn ignores_control_files() {
    let s = Project::new(&[], &["ro-sync.md", "ro-sync.json", "tree.json"]).stats();
    assert!(s.is_empty());
    let inside = Project::new(
        &["Workspace"],
        &["Workspace/ro-sync.md", "Workspace/ro-sync.json", "Workspace/tree.json"],
    )
    .stats();
    assert_eq!(inside.script_count, 0);
    assert_eq!(inside.instance_count, 1);
}

#[test]
fn counts_only_folders_and_scripts() {
    let s = Project::new(
        &["ReplicatedStorage", "RandomTool"],
        &[
            "ReplicatedStorage/Util.luau",
            "ReplicatedStorage/.meta.json",
            "RandomTool/Script.luau",
        ],
    )
    .stats();
    assert_eq!(s.script_count, 1);
    // ReplicatedStorage + Util = 2; .meta.json and RandomTool excluded.
    assert_eq!(s.instance_count, 2);
}

#[test]
fn init_file_does_not_double_count() {
    let s = Project::new(
        &["ServerScriptService", "ServerScriptService/Net"],
        &[
            "ServerScriptService/Net/init (Net).server.luau",
            "ServerScriptService/Net/Helper.luau",
        ],
    )
    .stats();
    // scripts: Helper.luau only (init file describes parent dir).
    assert_eq!(s.script_count, 1);
    // instances: ServerScriptService, Net, Helper = 3
    assert_eq!(s.instance_count, 3);
}

#[test]
fn an_empty_directory_below_a_service_counts() {
    let s = Project::new(
        &[
            "ServerScriptService",
            "ServerScriptService/Net",
            "ServerScriptService/Empty",
            "RandomTool",
        ],
        &[
            "ServerScriptService/Net/init (Net).server.luau",
            "ServerScriptService/Net/Helper.luau",
            "RandomTool/Script.luau",
        ],
    )
    .stats();
    assert_eq!(s.script_count, 1);
    assert_eq!(s.instance_count, 4);
}

#[test]
fn linked_service_root_is_rejected_without_touching_external_tree() {
    let listing = vec![ScannedEntry {
        fragment: Some("Workspace".to_string()),
        seen: seen(ObjectKind::SymbolicLink),
    }];
    let root = PortableDirectoryIndex::read_with_policy(
        "project",
        DirectoryPolicy::ProjectRoot,
        generation(),
        listing,
        seen(ObjectKind::Directory),
    );
    match root {
        Err(problem) => assert_eq!(problem, ScanProblem::Linked(0)),
        Ok(_) => panic!("a linked service was accepted"),
    }
    assert_eq!(
        metadata_no_follow(seen(ObjectKind::SymbolicLink)).unwrap_err(),
        ObjectProblem::SymbolicLink
    );
}

#[test]
fn choice_id_is_12_hex_chars() {
    let a = new_choice_id(1_700_000_000_000_000_000, 1);
    let b = new_choice_id(1_700_000_000_000_000_000, 2);
    assert_eq!(a.len(), 12);
    assert!(a.chars().all(|c| c.is_ascii_hexdigit()));
    assert_ne!(a, b);
}

fn added(path: &str) -> DiffItem {
    DiffItem { path: path.to_string(), class: "Script".to_string(), kind: DiffKind::Script }
}

#[test]
fn differences_become_one_ordered_list() {
    let mut comparison = InitialComparison::new();
    assert!(comparison.is_clean());
    comparison.removed_files.push(added("Workspace/Gone"));
    comparison.new_files.push(added("Workspace/Added"));
    comparison.changed_files.push(ChangedItem {
        path: "Workspace/Changed".to_string(),
        kind: DiffKind::Script,
        local_class: "Script".to_string(),
        studio_class: "Script".to_string(),
        class_changed: false,
        source_changed: true,
    });
    assert!(!comparison.is_clean());
    assert_eq!(comparison.summary().changed_files, 1);
    let details = initial_choice_details_from_comparison(&comparison).unwrap();
    let actions: Vec<InitialChoiceAction> = details.iter().map(|item| item.action).collect();
    assert_eq!(
        actions,
        vec![
            InitialChoiceAction::Create,
            InitialChoiceAction::Overwrite,
            InitialChoiceAction::Remove,
        ]
    );
    assert_eq!(details[1].path, "Workspace/Changed");
}

#[test]
fn a_path_that_occurs_twice_is_refused() {
    let mut comparison = InitialComparison::new();
    comparison.new_files.push(added("Workspace/Same"));
    comparison.removed_files.push(added("Workspace/Same"));
    match initial_choice_details_from_comparison(&comparison) {
        Err(problem) => assert_eq!(problem, DetailsProblem::DuplicatePath),
        Ok(_) => panic!("a duplicate path was accepted"),
    }
}

#[test]
fn comparisons_of_services_are_merged_in_order() {
    let mut first = InitialComparison::new();
    first.new_files.push(added("Workspace/A"));
    let mut second = InitialComparison::new();
    second.new_files.push(added("Lighting/B"));
    first.merge(second);
    assert_eq!(first.new_files[0].path, "Workspace/A");
    assert_eq!(first.new_files[1].path, "Lighting/B");
}

#[test]
fn a_choice_id_spells_the_time_and_the_counter() {
    assert_eq!(new_choice_id(0, 0), "000000000000");
    assert_eq!(new_choice_id(0, 0xabc), "000000000abc");
    assert_eq!(new_choice_id(1, 0), "79b97f4a7c15");
    assert_eq!(new_choice_id(1, 1), "79b97f4a7c16");
    assert_eq!(new_choice_id(0, 1 << 48), "000000000000");
    assert_eq!(new_choice_id(0, (1 << 48) - 1), "ffffffffffff");
    assert_ne!(new_choice_id(7, u64::MAX), new_choice_id(7, 0));
}
