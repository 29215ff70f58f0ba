use rosync::conflict::{
    hash, resolve_key, same_hash, ConflictEngine, FsDecision, Resolution, Resolved, StudioDecision,
};
use rosync::path_text::{plain_path, same_path};
use rosync::text_map::TextMap;

const PATH: &str = "/x/a.luau";

fn synced() -> ConflictEngine {
    let mut e = ConflictEngine::new();
    e.record_sync(PATH, hash(b"hello"), 100);
    e
}

fn diverged() -> ConflictEngine {
    let mut e = synced();
    e.on_studio_push(PATH, PATH, b"studio-edit", Some((b"fs-edit", 200)), 250);
    e
}

#[test]
fn fs_noop_when_content_matches_baseline() {
    let mut e = synced();
    assert_eq!(e.on_fs_change(PATH, PATH, b"hello", 200), FsDecision::NoChange);
}

#[test]
fn fs_change_propagates_when_no_studio_push_pending() {
    let mut e = synced();
    assert_eq!(e.on_fs_change(PATH, PATH, b"world", 200), FsDecision::Propagate);
}

#[test]
fn studio_push_applies_when_fs_matches_baseline() {
    let mut e = synced();
    let d = e.on_studio_push(PATH, PATH, b"world", Some((b"hello", 100)), 150);
    assert_eq!(d, StudioDecision::Apply);
}

#[test]
fn both_sides_diverge_parks_conflict() {
    let mut e = synced();
    let d = e.on_studio_push(PATH, PATH, b"studio-edit", Some((b"fs-edit", 200)), 250);
    assert_eq!(d, StudioDecision::Conflict);
    assert_eq!(e.list().len(), 1);
    assert!(e.has_conflict(PATH, PATH));
}

#[test]
fn resolve_keep_local_returns_fs_bytes_to_push() {
    let mut e = diverged();
    match e.resolve(PATH, PATH, Resolution::KeepLocal) {
        Some(Resolved::PushStudio(b)) => assert_eq!(b, b"fs-edit"),
        other => panic!("got {:?}", other),
    }
    assert!(!e.has_conflict(PATH, PATH));
}

#[test]
fn resolve_keep_studio_returns_studio_bytes_to_write() {
    let mut e = diverged();
    match e.resolve(PATH, PATH, Resolution::KeepStudio) {
        Some(Resolved::WriteFs(b)) => assert_eq!(b, b"studio-edit"),
        other => panic!("got {:?}", other),
    }
}

#[test]
fn fs_change_matching_parked_studio_version_clears_conflict() {
    let mut e = diverged();
    // user manually makes FS match studio
    let d = e.on_fs_change(PATH, PATH, b"studio-edit", 300);
    assert_eq!(d, FsDecision::NoChange);
    assert!(!e.has_conflict(PATH, PATH));
}

#[test]
fn identical_push_is_noop() {
    let mut e = synced();
    let d = e.on_studio_push(PATH, PATH, b"hello", Some((b"hello", 100)), 150);
    assert_eq!(d, StudioDecision::NoChange);
}

#[test]
fn a_resolution_is_given_once() {
    let mut e = diverged();
    assert!(e.resolve(PATH, PATH, Resolution::KeepLocal).is_some());
    assert!(e.resolve(PATH, PATH, Resolution::KeepLocal).is_none());
}

#[test]
fn a_parked_conflict_is_listed_with_both_digests() {
    let e = diverged();
    let listed = e.list();
    assert_eq!(listed[0].path, PATH);
    assert_eq!(listed[0].fs_mtime, 200);
    assert_eq!(listed[0].studio_mtime, 250);
    assert_ne!(listed[0].fs_hash, listed[0].studio_hash);
    assert_eq!(listed[0].fs_hash.len(), 64);
}

#[test]
fn the_digest_is_that_of_sha256() {
    let digest = hash(b"");
    assert_eq!(digest[0], 0xe3);
    assert_eq!(digest[31], 0x55);
    assert!(same_hash(&digest, &hash(b"")));
    assert!(!same_hash(&digest, &hash(b"x")));
}

#[test]
fn a_push_without_a_file_applies() {
    let mut e = ConflictEngine::new();
    assert_eq!(e.on_studio_push(PATH, PATH, b"new", None, 1), StudioDecision::Apply);
}

#[test]
fn a_path_that_nothing_matches_is_its_own_key() {
    let mut map: TextMap<u8> = TextMap::new();
    assert_eq!(resolve_key(&map, "/work/project", "."), ".");
    map.insert("/work".to_string(), 1);
    assert_eq!(resolve_key(&map, "/work/project", "."), "/work");
    map.insert("/work/project".to_string(), 2);
    assert_eq!(resolve_key(&map, "/work/project", "."), "/work/project");
}

#[test]
fn a_file_is_known_however_its_path_is_spelled() {
    for spelled in ["/x//a.luau", "/x/./a.luau", "//x/a.luau", "/x/a.luau/", "/./x/a.luau/."] {
        let mut e = synced();
        assert_eq!(e.on_fs_change(spelled, spelled, b"hello", 200), FsDecision::NoChange);
        assert_eq!(e.baselines.len(), 1);
        let mut e = diverged();
        assert!(e.has_conflict(spelled, spelled));
        e.on_studio_push(spelled, spelled, b"again", Some((b"fs-edit", 200)), 260);
        assert_eq!(e.list().len(), 1);
        assert_eq!(e.list()[0].path, PATH);
        match e.resolve(spelled, spelled, Resolution::KeepStudio) {
            Some(Resolved::WriteFs(b)) => assert_eq!(b, b"again"),
            other => panic!("got {:?}", other),
        }
        assert!(!e.has_conflict(PATH, PATH));
    }
    let e = diverged();
    assert!(!e.has_conflict("x/a.luau", "x/a.luau"));
    assert!(!e.has_conflict("/x/../x/b.luau", "/x/b.luau"));
    assert!(e.has_conflict("/x/a.luau/below", "/x/a.luau/below"));
}

#[test]
fn a_parked_path_is_reported_as_it_was_first_spelled() {
    let mut e = ConflictEngine::new();
    e.record_sync("/x//a.luau", hash(b"hello"), 100);
    e.on_studio_push("/x//a.luau", "/x//a.luau", b"studio", Some((b"disk", 200)), 250);
    e.on_studio_push("/x/a.luau", "/x/a.luau", b"later", Some((b"disk", 200)), 260);
    let listed = e.list();
    assert_eq!(listed.len(), 1);
    assert_eq!(listed[0].path, "/x//a.luau");
    assert_eq!(listed[0].studio_mtime, 260);
}

#[test]
fn a_path_has_one_spelling() {
    for (path, plain) in [
        ("", ""),
        ("/", "/"),
        ("//", "/"),
        ("/.", "/"),
        (".", "."),
        ("./", "."),
        ("./a", "./a"),
        ("a/.", "a"),
        ("a//b/./c/", "a/b/c"),
        ("/a/../b", "/a/../b"),
        ("//a//b", "/a/b"),
    ] {
        assert_eq!(plain_path(path), plain);
        assert!(same_path(path, plain));
    }
    assert_ne!(plain_path("./a"), plain_path("a"));
}
