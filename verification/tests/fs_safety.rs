use rosync::fs_chain::{
    ensure_descendant_directory_chain, stable_canonical_directory, ChainProblem, ChainStep,
    RootProblem, SyncedPathValidationCache,
};
use rosync::fs_safety::{
    absent_generation, ascii_fold, attributes_have_reparse_point, capture_tree_metadata,
    directory_generation_no_follow, file_generation_no_follow,
    guard_descendant_directory_chain, guard_descendant_parent_chain,
    guard_synced_directory_chain, guard_synced_parent_chain, init_source_describes_directory,
    looks_like_script_source, metadata_no_follow, normal_components, parse_rojo_relative_path,
    read_file_no_follow_bounded, read_to_string_no_follow, require_metadata_no_follow,
    resolve_rojo_path_no_follow, same_physical_object_no_follow, validate_rojo_project_file,
    validate_descendant_no_follow, validate_rojo_project_in_index, validate_service_path,
    validate_synced_path, DirectoryPolicy, FileGeneration, FileIdentity, GuardProblem, GuardWalk,
    ObjectKind, ObjectProblem, Observed, PathWalk, PortableDirectoryIndex, ReadProblem, RojoProblem,
    RojoProjectProblem, ScanProblem, ScannedEntry, TreeGeneration, TreeProblem, WalkProblem,
    MAX_ROJO_PROJECT_BYTES, MAX_SYNCED_SCRIPT_BYTES, WINDOWS_FILE_ATTRIBUTE_REPARSE_POINT,
};

/// Objects by their path below a root, each with what an observer sees there.
struct Disk {
    root: Option<Observed>,
    objects: Vec<(String, Observed)>,
    next: u64,
}

impl Disk {
    fn new() -> Disk {
        let mut disk = Disk { root: None, objects: Vec::new(), next: 10 };
        disk.root = Some(disk.fresh(ObjectKind::Directory));
        disk
    }

    fn fresh(&mut self, kind: ObjectKind) -> Observed {
        self.next += 1;
        Observed {
            kind,
            generation: FileGeneration {
                len: 1,
                modified_ns: Some(7),
                identity: FileIdentity { device: Some(1), file: Some(self.next) },
            },
        }
    }

    fn put(&mut self, path: &str, kind: ObjectKind) {
        let seen = self.fresh(kind);
        self.objects.retain(|(other, _)| other != path);
        self.objects.push((path.to_string(), seen));
    }

    fn of(objects: &[(&str, ObjectKind)]) -> Disk {
        let mut disk = Disk::new();
        for (path, kind) in objects {
            disk.put(path, *kind);
        }
        disk
    }

    fn see(&self, path: &str) -> Option<Observed> {
        if path.is_empty() {
            return self.root;
        }
        self.objects.iter().find(|(other, _)| other == path).map(|(_, seen)| *seen)
    }

    fn listing(&self, directory: &str) -> Vec<ScannedEntry> {
        let prefix =
            if directory.is_empty() { String::new() } else { format!("{directory}/") };
        self.objects
            .iter()
            .filter_map(|(path, seen)| {
                let name = path.strip_prefix(prefix.as_str())?;
                if name.contains('/') {
                    return None;
                }
                Some(ScannedEntry { fragment: Some(name.to_string()), seen: Some(*seen) })
            })
            .collect()
    }

    fn index(
        &self,
        directory: &str,
        policy: DirectoryPolicy,
    ) -> Result<PortableDirectoryIndex, ScanProblem> {
        let before = match directory_generation_no_follow(self.see(directory)) {
            Ok(generation) => generation,
            Err(problem) => return Err(ScanProblem::Object(problem)),
        };
        let name = directory.rsplit('/').next().unwrap();
        PortableDirectoryIndex::read_with_policy(
            name,
            policy,
            before,
            self.listing(directory),
            self.see(directory),
        )
    }

    fn read(&self, directory: &str) -> Result<PortableDirectoryIndex, ScanProblem> {
        self.index(directory, DirectoryPolicy::SyncedProjection)
    }

    fn refused(&self, directory: &str) -> ScanProblem {
        match self.read(directory) {
            Ok(_) => panic!("{directory} was accepted"),
            Err(problem) => problem,
        }
    }

    fn walk(&self, mut walk: PathWalk) -> Result<PathWalk, WalkProblem> {
        while let Some(policy) = walk.wants() {
            let directory = walk.components[..walk.at].join("/");
            let index = match self.index(&directory, policy) {
                Ok(index) => index,
                Err(problem) => panic!("{directory:?} was refused: {problem:?}"),
            };
            walk.step(&index)?;
        }
        Ok(walk)
    }

    fn guard(&self, guard: Result<GuardWalk, WalkProblem>) -> Result<GuardWalk, WalkProblem> {
        let mut guard = guard?;
        while let Some(policy) = guard.wants() {
            let directory = guard.walk.components[..guard.walk.at].join("/");
            let index = match self.index(&directory, policy) {
                Ok(index) => index,
                Err(problem) => panic!("{directory:?} was refused: {problem:?}"),
            };
            guard.step(&index)?;
        }
        Ok(guard)
    }

    fn identity(&self) -> FileIdentity {
        self.root.unwrap().generation.identity
    }

    fn tree(&self, service: &str) -> Result<TreeGeneration, ScanProblem> {
        let root = match metadata_no_follow(self.see(service)) {
            Err(problem) => return Err(ScanProblem::Object(problem)),
            Ok(None) => return Ok(absent_generation(service)),
            Ok(Some(seen)) => seen.generation,
        };
        let mut walk = capture_tree_metadata(service, service.to_string(), root);
        loop {
            let path = match walk.next().unwrap() {
                None => return Ok(walk.finish()),
                Some(directory) => directory.path.clone(),
            };
            let index = self.read(&path)?;
            assert!(walk.visit(&index).is_ok());
        }
    }
}

fn names(index: &PortableDirectoryIndex) -> Vec<&str> {
    index.entries().iter().map(|entry| entry.fragment.as_str()).collect()
}

fn components(path: &str) -> Vec<String> {
    path.split('/').map(|part| part.to_string()).collect()
}

const FILE: ObjectKind = ObjectKind::File;
const DIRECTORY: ObjectKind = ObjectKind::Directory;
const LINK: ObjectKind = ObjectKind::SymbolicLink;

#[test]
fn portable_index_rejects_ascii_case_aliases() {
    let disk = Disk::of(&[("Foo.luau", FILE), ("foo.luau", FILE)]);
    assert_eq!(disk.refused(""), ScanProblem::Collision { first: 0, second: 1 });
    assert_eq!(ascii_fold("Foo.luau"), ascii_fold("foo.luau"));
}

#[test]
fn portable_index_has_deterministic_order() {
    let disk = Disk::of(&[("z.luau", FILE), ("A.luau", FILE), ("m.luau", FILE)]);
    let index = disk.read("").unwrap_or_else(|problem| panic!("{problem:?}"));
    assert_eq!(names(&index), ["A.luau", "m.luau", "z.luau"]);
}

fn generation(len: u64) -> FileGeneration {
    FileGeneration {
        len,
        modified_ns: None,
        identity: FileIdentity { device: Some(7), file: Some(11) },
    }
}

#[test]
fn regular_file_reads_are_bounded_to_a_physical_file() {
    let at = generation(9);
    assert_eq!(
        read_file_no_follow_bounded(at, b"return 42".to_vec(), false, at, 9).unwrap(),
        Some(b"return 42".to_vec())
    );
    assert_eq!(read_to_string_no_follow(b"return 42".to_vec()).unwrap(), "return 42");
}

#[test]
fn bounded_read_rejects_oversize_metadata_before_buffer_allocation() {
    let at = generation(MAX_SYNCED_SCRIPT_BYTES + 1);
    assert_eq!(
        read_file_no_follow_bounded(at, Vec::new(), false, at, MAX_SYNCED_SCRIPT_BYTES).unwrap(),
        None
    );
}

#[test]
fn a_file_that_grew_past_the_bound_or_changed_is_not_read() {
    let at = generation(9);
    assert_eq!(
        read_file_no_follow_bounded(at, b"return 42+".to_vec(), true, at, 9).unwrap(),
        None
    );
    assert_eq!(
        read_file_no_follow_bounded(at, b"return 42".to_vec(), false, generation(10), 20)
            .unwrap_err(),
        ReadProblem::Changed
    );
}

fn directory_with(identity: u64, modified_ns: Option<u128>) -> Option<Observed> {
    Some(Observed {
        kind: DIRECTORY,
        generation: FileGeneration {
            len: 0,
            modified_ns,
            identity: FileIdentity { device: Some(7), file: Some(identity) },
        },
    })
}

#[test]
fn stable_canonical_directory_preserves_identity_and_rejects_mismatch_seam() {
    let before = directory_with(11, None);
    assert!(stable_canonical_directory(before, before, before).is_ok());
    assert_eq!(
        stable_canonical_directory(before, directory_with(12, None), before).unwrap_err(),
        RootProblem::Replaced
    );
    assert_eq!(
        stable_canonical_directory(before, before, directory_with(12, None)).unwrap_err(),
        RootProblem::Elsewhere
    );
    let listed = PortableDirectoryIndex::read_with_policy(
        "project",
        DirectoryPolicy::SyncedProjection,
        before.unwrap().generation,
        Vec::new(),
        directory_with(11, Some(1)),
    );
    match listed {
        Err(problem) => assert_eq!(problem, ScanProblem::Changed),
        Ok(_) => panic!("changed contents were accepted"),
    }
}

#[test]
fn regular_file_read_refuses_a_final_symlink() {
    let disk = Disk::of(&[("Main.luau", LINK)]);
    assert_eq!(
        file_generation_no_follow(disk.see("Main.luau")).unwrap_err(),
        ObjectProblem::SymbolicLink
    );
}

#[test]
fn duplicate_init_markers_are_rejected() {
    let disk =
        Disk::of(&[("Pkg", DIRECTORY), ("Pkg/init.lua", FILE), ("Pkg/init (Pkg).luau", FILE)]);
    assert!(matches!(disk.refused("Pkg"), ScanProblem::TwoMarkers { .. }));
}

#[test]
fn init_marker_safety_grammar_is_case_insensitive_and_requires_named_content() {
    assert!(init_source_describes_directory("Pkg", "INIT (Pkg).server.luau"));
    assert!(!init_source_describes_directory("Pkg", "Init.client.lua"));
    assert!(!init_source_describes_directory("Pkg", "init ().luau"));
    assert!(!init_source_describes_directory("Pkg", "init (Pkg) [1].luau"));

    let mut disk = Disk::of(&[("Pkg", DIRECTORY), ("init ().luau", FILE), ("init.lua", FILE)]);
    let index = disk.read("").unwrap_or_else(|problem| panic!("{problem:?}"));
    assert_eq!(index.unique_init_source().map(|entry| entry.fragment.as_str()), Some("init.lua"));

    disk.put("Pkg/INIT (Pkg).luau", FILE);
    disk.put("Pkg/init.server.lua", FILE);
    assert!(matches!(disk.refused("Pkg"), ScanProblem::TwoMarkers { .. }));
}

#[test]
fn mismatched_named_init_remains_a_literal_leaf() {
    let disk = Disk::of(&[
        ("Misc", DIRECTORY),
        ("Misc/init.luau", FILE),
        ("Misc/init (Notifications).luau", FILE),
    ]);
    let index = disk.read("Misc").unwrap_or_else(|problem| panic!("{problem:?}"));
    assert_eq!(index.unique_init_source().map(|entry| entry.fragment.as_str()), Some("init.luau"));
    assert!(index.exact("init (Notifications).luau").is_some());
}

#[test]
fn rojo_path_rejects_cross_platform_escape_forms() {
    for path in [
        "",
        "../outside",
        "a//b",
        "/root",
        "\\\\server\\share",
        "C:relative",
        "C:\\root",
        "nested/file.lua:stream",
    ] {
        assert!(parse_rojo_relative_path(path).is_err(), "{path:?}");
    }
    assert_eq!(parse_rojo_relative_path("src/init.luau").unwrap(), ["src", "init.luau"]);
}

#[test]
fn rojo_paths_are_refused_for_their_form() {
    assert_eq!(parse_rojo_relative_path("/root").unwrap_err(), RojoProblem::Rooted);
    assert_eq!(parse_rojo_relative_path("C:relative").unwrap_err(), RojoProblem::DriveRelative);
    assert_eq!(parse_rojo_relative_path("a//b").unwrap_err(), RojoProblem::Segment);
    assert_eq!(
        parse_rojo_relative_path("nested/file.lua:stream").unwrap_err(),
        RojoProblem::Colon
    );
}

#[test]
fn absent_service_has_distinct_generation() {
    let generation = Disk::new().tree("Workspace").unwrap();
    assert!(!generation.present);
    assert!(generation.entries.is_empty());
}

#[test]
fn unrelated_project_root_aliases_and_init_files_do_not_block_service_lookup() {
    let disk = Disk::of(&[
        ("README", FILE),
        ("readme", FILE),
        ("init.lua", FILE),
        ("init (Root).luau", FILE),
        ("Workspace", DIRECTORY),
    ]);
    let walk = disk.walk(validate_service_path("Workspace", false).unwrap()).unwrap();
    assert_eq!(walk.components, ["Workspace"]);
    assert!(!walk.missing);
}

#[test]
fn lowercase_service_alias_cannot_masquerade_as_workspace() {
    let disk = Disk::of(&[("workspace", DIRECTORY)]);
    let problem = disk.walk(validate_service_path("Workspace", false).unwrap()).unwrap_err();
    assert_eq!(problem, WalkProblem::Alias(0));
}

#[test]
fn linked_and_dangling_entries_are_rejected_without_following() {
    let linked = Disk::of(&[("linked", LINK)]);
    assert_eq!(linked.refused(""), ScanProblem::Linked(0));
    let dangling = Disk::of(&[("init.lua", LINK)]);
    assert_eq!(dangling.refused(""), ScanProblem::Linked(0));
}

#[test]
fn directory_chain_creation_refuses_a_linked_parent() {
    let disk = Disk::of(&[("tools", LINK)]);
    let mut chain = ensure_descendant_directory_chain(
        "/p".to_string(),
        disk.identity(),
        components("tools/luau-lsp/roblox"),
    )
    .unwrap();
    assert_eq!(chain.wants(), Some("/p"));
    let index = disk.index("", DirectoryPolicy::RawLookup).unwrap_or_else(|_| panic!());
    assert_eq!(chain.step(&index, &[disk.root]).unwrap_err(), ChainProblem::Linked(0));
}

#[test]
fn a_missing_directory_of_the_chain_is_created_and_entered() {
    let mut disk = Disk::of(&[("tools", DIRECTORY)]);
    let mut chain = ensure_descendant_directory_chain(
        "/p".to_string(),
        disk.identity(),
        components("tools/roblox"),
    )
    .unwrap();
    let root = disk.index("", DirectoryPolicy::RawLookup).unwrap_or_else(|_| panic!());
    assert!(matches!(chain.step(&root, &[disk.root]), Ok(ChainStep::Entered)));
    assert_eq!(chain.wants(), Some("/p/tools"));
    let tools = disk.index("tools", DirectoryPolicy::RawLookup).unwrap_or_else(|_| panic!());
    match chain.step(&tools, &[disk.root, disk.see("tools")]) {
        Ok(ChainStep::Create(path)) => assert_eq!(path, "/p/tools/roblox"),
        _ => panic!("nothing is created"),
    }
    disk.put("tools/roblox", DIRECTORY);
    assert!(chain.created(disk.see("tools/roblox"), &[disk.root, disk.see("tools")]).is_ok());
    assert_eq!(chain.wants(), None);
    assert_eq!(chain.current, "/p/tools/roblox");
}

#[test]
fn a_chain_of_directories_is_fenced_by_its_parents() {
    let mut disk = Disk::of(&[("tools", DIRECTORY)]);
    let mut chain = ensure_descendant_directory_chain(
        "/p".to_string(),
        disk.identity(),
        components("tools/roblox"),
    )
    .unwrap();
    let root = disk.index("", DirectoryPolicy::RawLookup).unwrap_or_else(|_| panic!());
    assert!(chain.step(&root, &[disk.root]).is_ok());
    let tools = disk.index("tools", DirectoryPolicy::RawLookup).unwrap_or_else(|_| panic!());
    assert!(chain.step(&tools, &[disk.root, disk.see("tools")]).is_ok());
    disk.put("tools", DIRECTORY);
    disk.put("tools/roblox", DIRECTORY);
    assert_eq!(
        chain
            .created(disk.see("tools/roblox"), &[disk.root, disk.see("tools")])
            .unwrap_err(),
        ChainProblem::Guard(GuardProblem::Replaced(1))
    );
    disk.put("tools", LINK);
    assert_eq!(
        chain.step(&tools, &[disk.root, disk.see("tools")]).unwrap_err(),
        ChainProblem::Guard(GuardProblem::Object {
            parent: 1,
            problem: ObjectProblem::SymbolicLink,
        })
    );
}

#[test]
fn dotted_directory_link_inside_service_is_rejected_and_external_tree_survives() {
    let disk = Disk::of(&[("Workspace", DIRECTORY), ("Workspace/assets.v1", LINK)]);
    assert_eq!(disk.tree("Workspace").unwrap_err(), ScanProblem::Linked(0));
}

#[test]
fn rojo_intermediate_and_wrong_case_links_never_enter_missing_tail_mode() {
    let disk = Disk::of(&[("link", LINK)]);
    let exact = resolve_rojo_path_no_follow("link/sub/file.luau", true).unwrap();
    assert_eq!(disk.walk(exact).unwrap_err(), WalkProblem::Linked(0));
    let wrong_case = resolve_rojo_path_no_follow("LINK/sub/file.luau", true).unwrap();
    assert_eq!(disk.walk(wrong_case).unwrap_err(), WalkProblem::LinkedAlias(0));
}

#[test]
fn linked_project_or_package_root_is_rejected_before_canonicalization() {
    let linked = Some(Observed { kind: LINK, generation: generation(0) });
    assert_eq!(
        stable_canonical_directory(linked, linked, directory_with(11, None)).unwrap_err(),
        RootProblem::Before(ObjectProblem::SymbolicLink)
    );
}

#[test]
fn reparse_constant_matches_windows_contract() {
    assert_eq!(WINDOWS_FILE_ATTRIBUTE_REPARSE_POINT, 0x400);
    assert!(attributes_have_reparse_point(0x400));
    assert!(attributes_have_reparse_point(0x420));
    assert!(!attributes_have_reparse_point(0x20));
}

#[test]
fn tree_generation_changes_when_file_metadata_changes() {
    let mut disk = Disk::of(&[("Workspace", DIRECTORY), ("Workspace/Main.luau", FILE)]);
    let before = disk.tree("Workspace").unwrap();
    assert!(before.same(&disk.tree("Workspace").unwrap()));
    for (path, seen) in disk.objects.iter_mut() {
        if path == "Workspace/Main.luau" {
            seen.generation.len = 20;
        }
    }
    let after = disk.tree("Workspace").unwrap();
    assert!(!before.same(&after));
}

/// The index of a directory through a cache, with a count of the scans made.
fn cached<'a>(
    disk: &Disk,
    cache: &'a mut SyncedPathValidationCache,
    directory: &str,
    policy: DirectoryPolicy,
    scans: &mut usize,
) -> Result<&'a PortableDirectoryIndex, ScanProblem> {
    let kept = match cache.reuse(directory, policy, disk.see(directory)) {
        Err(problem) => return Err(ScanProblem::Object(problem)),
        Ok(kept) => kept,
    };
    let k = match kept {
        Some(k) => k,
        None => {
            let index = disk.index(directory, policy)?;
            *scans += 1;
            cache.keep(directory.to_string(), policy, index)
        }
    };
    Ok(cache.index(k))
}

fn validate_cached(
    disk: &Disk,
    cache: &mut SyncedPathValidationCache,
    path: &str,
    scans: &mut usize,
) -> Result<(), String> {
    let mut walk = validate_synced_path(components(path), false).unwrap();
    while let Some(policy) = walk.wants() {
        let directory = walk.components[..walk.at].join("/");
        match cached(disk, cache, &directory, policy, scans) {
            Err(problem) => return Err(format!("{problem:?}")),
            Ok(index) => {
                if let Err(problem) = walk.step(index) {
                    return Err(format!("{problem:?}"));
                }
            }
        }
    }
    Ok(())
}

#[test]
fn batch_validation_scans_one_stable_wide_parent_once() {
    let mut disk = Disk::of(&[("Workspace", DIRECTORY)]);
    let mut paths = Vec::new();
    for index in 0..1_024 {
        let path = format!("Workspace/Item{index:04}.luau");
        disk.put(&path, FILE);
        paths.push(path);
    }
    let mut cache = SyncedPathValidationCache::new();
    let mut scans = 0;
    for path in &paths {
        assert!(validate_cached(&disk, &mut cache, path, &mut scans).is_ok());
        assert!(validate_cached(&disk, &mut cache, path, &mut scans).is_ok());
    }
    assert_eq!(scans, 2, "the project root and one stable wide service should each scan once");

    for (path, seen) in disk.objects.iter_mut() {
        if *path == paths[0] {
            seen.generation.len = 11;
        }
    }
    assert!(validate_cached(&disk, &mut cache, &paths[0], &mut scans).is_ok());
    assert_eq!(scans, 2, "file-content writes do not invalidate an unchanged directory index");
}

#[test]
fn batch_validation_rebuilds_after_directory_identity_changes() {
    let mut disk = Disk::of(&[("Workspace", DIRECTORY), ("Workspace/Old.luau", FILE)]);
    let mut cache = SyncedPathValidationCache::new();
    let mut scans = 0;
    assert!(validate_cached(&disk, &mut cache, "Workspace/Old.luau", &mut scans).is_ok());
    assert_eq!(scans, 2);

    disk.objects.clear();
    disk.put("Workspace", DIRECTORY);
    disk.put("Workspace/New.luau", FILE);
    assert!(validate_cached(&disk, &mut cache, "Workspace/New.luau", &mut scans).is_ok());
    assert!(scans >= 3, "the replaced service directory must not reuse its retired index");
}

#[test]
fn batch_validation_never_reuses_an_index_through_a_new_link() {
    let mut disk = Disk::of(&[("Workspace", DIRECTORY), ("Workspace/Safe.luau", FILE)]);
    let mut cache = SyncedPathValidationCache::new();
    let mut scans = 0;
    assert!(validate_cached(&disk, &mut cache, "Workspace/Safe.luau", &mut scans).is_ok());

    disk.put("Workspace", LINK);
    let error =
        validate_cached(&disk, &mut cache, "Workspace/Sentinel.luau", &mut scans).unwrap_err();
    assert!(error.contains("SymbolicLink") || error.contains("Linked"), "{error}");
}

#[test]
fn wide_service_index_handles_twenty_five_thousand_entries_deterministically() {
    let mut disk = Disk::of(&[("Workspace", DIRECTORY)]);
    let seen = disk.fresh(FILE);
    for index in 0..25_000 {
        disk.objects.push((format!("Workspace/Item{:05}.luau", 24_999 - index), seen));
    }
    let generation = disk.tree("Workspace").unwrap();
    assert_eq!(generation.entries().len(), 25_000);
    assert_eq!(generation.entries().first().unwrap().relative, "Item00000.luau");
    assert_eq!(generation.entries().last().unwrap().relative, "Item24999.luau");
}

#[test]
fn paths_outside_the_services_are_refused() {
    assert_eq!(validate_synced_path(Vec::new(), false).unwrap_err(), WalkProblem::NoService);
    assert_eq!(
        validate_synced_path(components("Elsewhere/a.luau"), false).unwrap_err(),
        WalkProblem::NotAService
    );
    assert_eq!(
        validate_service_path("Elsewhere", false).unwrap_err(),
        WalkProblem::NotAService
    );
}

#[test]
fn a_missing_tail_is_accepted_only_on_request() {
    let disk = Disk::of(&[("Workspace", DIRECTORY)]);
    let allowed = validate_synced_path(components("Workspace/A/B.luau"), true).unwrap();
    assert!(disk.walk(allowed).unwrap().missing);
    let refused = validate_synced_path(components("Workspace/A/B.luau"), false).unwrap();
    assert_eq!(disk.walk(refused).unwrap_err(), WalkProblem::Missing(1));
    let file = Disk::of(&[("Workspace", FILE)]);
    assert_eq!(file.refused("Workspace"), ScanProblem::Object(ObjectProblem::NotADirectory));
    let guard = guard_descendant_parent_chain(
        "/p".to_string(),
        file.identity(),
        components("Workspace/A"),
        false,
    );
    assert_eq!(file.guard(guard).unwrap_err(), WalkProblem::NotADirectory(0));
}

#[test]
fn a_relative_path_has_normal_components_only() {
    for part in ["", ".", "..", "a/b"] {
        let parts = vec!["a".to_string(), part.to_string(), "b".to_string()];
        assert_eq!(normal_components(parts.clone()).unwrap_err(), WalkProblem::Component(1));
        assert_eq!(
            validate_descendant_no_follow(parts.clone(), true).unwrap_err(),
            WalkProblem::Component(1)
        );
        assert!(matches!(
            ensure_descendant_directory_chain("/p".to_string(), generation(0).identity, parts),
            Err(ChainProblem::Component(1))
        ));
    }
    for part in ["a\\b", "C:x", "c:", "...b", " ", "..."] {
        let parts = vec!["a".to_string(), part.to_string(), "b".to_string()];
        assert_eq!(normal_components(parts.clone()).unwrap(), parts);
        assert!(validate_descendant_no_follow(parts.clone(), true).is_ok());
        assert!(ensure_descendant_directory_chain(
            "/p".to_string(),
            generation(0).identity,
            parts
        )
        .is_ok());
    }
    assert_eq!(
        validate_synced_path(components("Workspace/../Elsewhere"), true).unwrap_err(),
        WalkProblem::Component(1)
    );
}

#[test]
fn a_validated_path_joins_the_exact_components() {
    let disk = Disk::of(&[("src", DIRECTORY), ("src/A.luau", FILE)]);
    let walk = validate_descendant_no_follow(components("src/A.luau"), false).unwrap();
    let walk = disk.walk(walk).unwrap();
    assert_eq!(walk.path("/p", 2), "/p/src/A.luau");
    assert_eq!(walk.path("/p", 0), "/p");
    let alias = validate_descendant_no_follow(components("SRC/A.luau"), true).unwrap();
    assert_eq!(disk.walk(alias).unwrap_err(), WalkProblem::Alias(0));
    let missing = validate_descendant_no_follow(components("src/B.luau"), false).unwrap();
    assert_eq!(disk.walk(missing).unwrap_err(), WalkProblem::Missing(1));
}

#[test]
fn listings_with_other_objects_or_lost_entries_are_refused() {
    let pipe = Disk::of(&[("pipe", ObjectKind::Other)]);
    assert_eq!(pipe.refused(""), ScanProblem::Unsupported(0));
    let marker = Disk::of(&[("init.luau", DIRECTORY)]);
    assert_eq!(marker.refused(""), ScanProblem::MarkerNotAFile(0));
    let disk = Disk::new();
    let unnamed = PortableDirectoryIndex::read_with_policy(
        "",
        DirectoryPolicy::SyncedProjection,
        disk.root.unwrap().generation,
        vec![ScannedEntry { fragment: None, seen: disk.root }],
        disk.root,
    );
    assert!(matches!(unnamed, Err(ScanProblem::NotUtf8(0))));
}

#[test]
fn a_guarded_parent_may_not_be_replaced() {
    let mut disk = Disk::of(&[("Workspace", DIRECTORY), ("Workspace/A", DIRECTORY)]);
    let started = guard_descendant_parent_chain(
        "/p".to_string(),
        disk.identity(),
        components("Workspace/A/B.luau"),
        true,
    );
    let walk = disk.guard(started).unwrap();
    assert!(walk.walk.missing);
    let guarded: Vec<&str> = walk.guard.parents.iter().map(|(path, _)| path.as_str()).collect();
    assert_eq!(guarded, ["/p", "/p/Workspace", "/p/Workspace/A"]);
    let seen = [disk.root, disk.see("Workspace"), disk.see("Workspace/A")];
    assert!(walk.guard.verify(&seen).is_ok());
    disk.put("Workspace", DIRECTORY);
    let seen = [disk.root, disk.see("Workspace"), disk.see("Workspace/A")];
    assert_eq!(walk.guard.verify(&seen).unwrap_err(), GuardProblem::Replaced(1));
    let gone = [disk.root, disk.see("Workspace"), None];
    assert_eq!(walk.guard.verify(&gone).unwrap_err(), GuardProblem::Replaced(1));
}

#[test]
fn guards_of_a_service_start_at_the_project_root() {
    let identity = generation(0).identity;
    let parents =
        guard_synced_parent_chain("/p".to_string(), identity, components("Workspace"), false);
    assert!(parents.is_ok());
    assert!(matches!(
        guard_synced_directory_chain("/p".to_string(), identity, components("tools")),
        Err(WalkProblem::NotAService)
    ));
    assert!(matches!(
        guard_synced_parent_chain("/p".to_string(), identity, Vec::new(), false),
        Err(WalkProblem::NoService)
    ));
}

#[test]
fn a_guarded_directory_is_there_in_its_exact_spelling() {
    let disk = Disk::of(&[
        ("Workspace", DIRECTORY),
        ("Workspace/A", DIRECTORY),
        ("Workspace/F.luau", FILE),
    ]);
    let chain = |path: &str| {
        guard_synced_directory_chain("/p".to_string(), disk.identity(), components(path))
    };
    let whole = disk.guard(chain("Workspace/A")).unwrap();
    let guarded: Vec<&str> = whole.guard.parents.iter().map(|(path, _)| path.as_str()).collect();
    assert_eq!(guarded, ["/p", "/p/Workspace", "/p/Workspace/A"]);
    assert_eq!(disk.guard(chain("Workspace/B")).unwrap_err(), WalkProblem::Missing(1));
    assert_eq!(disk.guard(chain("Workspace/a")).unwrap_err(), WalkProblem::Alias(1));
    assert_eq!(
        disk.guard(chain("Workspace/F.luau")).unwrap_err(),
        WalkProblem::NotADirectory(1)
    );
    let plain = |path: &str| {
        guard_descendant_directory_chain("/p".to_string(), disk.identity(), components(path))
    };
    assert!(disk.guard(plain("Workspace/A")).is_ok());
    assert_eq!(disk.guard(plain("Other")).unwrap_err(), WalkProblem::Missing(0));
    assert_eq!(disk.guard(plain("..")).unwrap_err(), WalkProblem::Component(0));
}

#[test]
fn guarded_parents_of_a_missing_target_are_kept_only_on_request() {
    let disk = Disk::of(&[("Workspace", DIRECTORY)]);
    let parents = |path: &str, allow_missing_tail: bool| {
        guard_synced_parent_chain(
            "/p".to_string(),
            disk.identity(),
            components(path),
            allow_missing_tail,
        )
    };
    let kept = disk.guard(parents("Workspace/A/B.luau", true)).unwrap();
    assert_eq!(kept.guard.parents.len(), 2);
    assert_eq!(
        disk.guard(parents("Workspace/A/B.luau", false)).unwrap_err(),
        WalkProblem::Missing(1)
    );
    assert_eq!(disk.guard(parents("workspace/A", true)).unwrap_err(), WalkProblem::NotAService);
    let lower = Disk::of(&[("workspace", DIRECTORY)]);
    let aliased = guard_synced_parent_chain(
        "/p".to_string(),
        lower.identity(),
        components("Workspace/A"),
        true,
    );
    assert_eq!(lower.guard(aliased).unwrap_err(), WalkProblem::Alias(0));
}

#[test]
fn a_captured_tree_lists_each_entry_once_in_ascending_order() {
    let disk = Disk::of(&[
        ("Workspace", DIRECTORY),
        ("Workspace/b", DIRECTORY),
        ("Workspace/b/x.luau", FILE),
        ("Workspace/b.luau", FILE),
        ("Workspace/a", DIRECTORY),
        ("Workspace/a/c", DIRECTORY),
        ("Workspace/a/c/z.luau", FILE),
        ("Elsewhere", DIRECTORY),
    ]);
    let tree = disk.tree("Workspace").unwrap();
    let listed: Vec<&str> = tree.entries().iter().map(|entry| entry.relative.as_str()).collect();
    assert_eq!(listed, ["a", "a/c", "a/c/z.luau", "b", "b/x.luau", "b.luau"]);
    assert!(tree.same(&disk.tree("Workspace").unwrap()));
}

#[test]
fn trees_that_are_too_deep_are_refused() {
    let mut disk = Disk::of(&[("Workspace", DIRECTORY)]);
    let mut path = "Workspace".to_string();
    for _ in 0..257 {
        path.push_str("/a");
        disk.put(&path, DIRECTORY);
    }
    let root = disk.see("Workspace").unwrap().generation;
    let mut walk = capture_tree_metadata("Workspace", "Workspace".to_string(), root);
    let problem = loop {
        let path = match walk.next() {
            Err(problem) => break problem,
            Ok(None) => panic!("the tree was accepted"),
            Ok(Some(directory)) => directory.path.clone(),
        };
        let index = disk.read(&path).unwrap_or_else(|_| panic!());
        assert!(walk.visit(&index).is_ok());
    };
    assert_eq!(problem, TreeProblem::TooDeep);
}

#[test]
fn script_sources_and_objects_are_told_apart() {
    assert!(looks_like_script_source("Main.server.luau"));
    assert!(!looks_like_script_source("Main.txt"));
    let disk = Disk::of(&[("a", FILE), ("b", FILE), ("d", DIRECTORY)]);
    assert!(same_physical_object_no_follow(disk.see("a"), disk.see("a")).unwrap());
    assert!(!same_physical_object_no_follow(disk.see("a"), disk.see("b")).unwrap());
    assert_eq!(
        directory_generation_no_follow(disk.see("a")).unwrap_err(),
        ObjectProblem::NotADirectory
    );
    assert_eq!(file_generation_no_follow(disk.see("d")).unwrap_err(), ObjectProblem::NotAFile);
    assert_eq!(file_generation_no_follow(None).unwrap_err(), ObjectProblem::Missing);
}

#[test]
fn a_project_file_names_what_is_walked() {
    let walk = validate_rojo_project_file(10, r#"{"tree":{"$path":"src/lib"}}"#).unwrap().unwrap();
    assert_eq!(walk.components, ["src", "lib"]);
    assert!(validate_rojo_project_file(10, r#"{"tree":{}}"#).unwrap().is_none());
    assert_eq!(
        validate_rojo_project_file(10, "not json").unwrap_err(),
        RojoProjectProblem::NotJson
    );
    assert_eq!(
        validate_rojo_project_file(MAX_ROJO_PROJECT_BYTES + 1, "{}").unwrap_err(),
        RojoProjectProblem::TooLarge
    );
    assert_eq!(
        validate_rojo_project_file(10, r#"{"tree":{"$path":"../x"}}"#).unwrap_err(),
        RojoProjectProblem::Path(RojoProblem::Segment)
    );
    let disk = Disk::of(&[("default.project.json", FILE), ("src", DIRECTORY)]);
    let index = disk.read("").unwrap_or_else(|_| panic!());
    assert_eq!(validate_rojo_project_in_index(&index).unwrap(), Some(0));
    let bare = Disk::of(&[("src", DIRECTORY)]);
    let index = bare.read("").unwrap_or_else(|_| panic!());
    assert_eq!(validate_rojo_project_in_index(&index).unwrap(), None);
    let mut huge = Disk::of(&[("default.project.json", FILE)]);
    huge.objects[0].1.generation.len = MAX_ROJO_PROJECT_BYTES + 1;
    let index = huge.read("").unwrap_or_else(|_| panic!());
    assert_eq!(
        validate_rojo_project_in_index(&index).unwrap_err(),
        RojoProjectProblem::TooLarge
    );
}

#[test]
fn a_text_file_is_utf8() {
    assert_eq!(read_to_string_no_follow("caf\u{e9}".as_bytes().to_vec()).unwrap(), "caf\u{e9}");
    assert_eq!(
        read_to_string_no_follow(vec![0x63, 0xff]).unwrap_err(),
        ReadProblem::NotText
    );
}

#[test]
fn an_object_that_is_required_is_there_and_no_link() {
    let there = Observed { kind: FILE, generation: generation(9) };
    assert_eq!(require_metadata_no_follow(Some(there)).unwrap(), there);
    assert_eq!(require_metadata_no_follow(None).unwrap_err(), ObjectProblem::Missing);
    let link = Observed { kind: ObjectKind::SymbolicLink, generation: generation(9) };
    assert_eq!(
        require_metadata_no_follow(Some(link)).unwrap_err(),
        ObjectProblem::SymbolicLink
    );
}
