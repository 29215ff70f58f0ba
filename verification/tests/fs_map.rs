use std::borrow::Cow;

use rosync::fs_map::{
    classify_script_file, decode_name, encode_name, fragments_equal, instance_to_path,
    is_empty_plain_folder, is_init_file, is_windows_reserved_stem, normalize_line_endings,
    parse_disambiguated, parse_init_file, parse_plain_init_file, path_to_instance_meta,
    portable_init_file_name, validate_portable_component, InstanceDescriptor,
    PathFragmentAllocator, PathInstance, ScriptClass, EMPTY_NAME_SENTINEL,
    MAX_PORTABLE_COMPONENT_BYTES, META_FILE,
};
use rosync::fs_safety::{
    DirectoryPolicy, FileGeneration, FileIdentity, ObjectKind, ObjectProblem, Observed,
    PortableDirectoryIndex, ScannedEntry,
};

fn generation(file: u64) -> FileGeneration {
    FileGeneration {
        len: 9,
        modified_ns: Some(1),
        identity: FileIdentity { device: Some(1), file: Some(file) },
    }
}

fn seen(kind: ObjectKind) -> Option<Observed> {
    Some(Observed { kind, generation: generation(1) })
}

fn file() -> Option<Observed> {
    seen(ObjectKind::File)
}

fn directory() -> Option<Observed> {
    seen(ObjectKind::Directory)
}

/// The reading of a directory of that name that holds these files.
fn index(name: &str, files: &[&str]) -> PortableDirectoryIndex {
    let mut listing = Vec::new();
    for (k, fragment) in files.iter().enumerate() {
        listing.push(ScannedEntry {
            fragment: Some(fragment.to_string()),
            seen: Some(Observed { kind: ObjectKind::File, generation: generation(10 + k as u64) }),
        });
    }
    match PortableDirectoryIndex::read_with_policy(
        name,
        DirectoryPolicy::SyncedProjection,
        generation(1),
        listing,
        directory(),
    ) {
        Ok(index) => index,
        Err(problem) => panic!("directory {name} was refused: {problem:?}"),
    }
}

fn instance_of_file(name: &str) -> PathInstance {
    path_to_instance_meta(name, file(), &index(name, &[])).unwrap().unwrap()
}

fn instance_of_directory(name: &str, files: &[&str]) -> PathInstance {
    path_to_instance_meta(name, directory(), &index(name, files)).unwrap().unwrap()
}

// ----- classify_script_file / parse_init_file / parse_disambiguated -----

#[test]
fn classify_plain_luau() {
    let (c, s) = classify_script_file("Config.luau").unwrap();
    assert_eq!(c, ScriptClass::ModuleScript);
    assert_eq!(s, "Config");
}

#[test]
fn classify_plain_lua() {
    let (c, s) = classify_script_file("React.lua").unwrap();
    assert_eq!(c, ScriptClass::ModuleScript);
    assert_eq!(s, "React");
}

#[test]
fn classify_server_luau() {
    let (c, s) = classify_script_file("Main.server.luau").unwrap();
    assert_eq!(c, ScriptClass::Script);
    assert_eq!(s, "Main");
}

#[test]
fn classify_client_luau() {
    let (c, s) = classify_script_file("UI.client.luau").unwrap();
    assert_eq!(c, ScriptClass::LocalScript);
    assert_eq!(s, "UI");
}

#[test]
fn classify_lua_script_variants() {
    let (c, s) = classify_script_file("Main.server.lua").unwrap();
    assert_eq!(c, ScriptClass::Script);
    assert_eq!(s, "Main");

    let (c, s) = classify_script_file("UI.client.lua").unwrap();
    assert_eq!(c, ScriptClass::LocalScript);
    assert_eq!(s, "UI");
}

#[test]
fn classify_rejects_non_script_files() {
    assert!(classify_script_file("README.md").is_none());
    assert!(classify_script_file("wally.toml").is_none());
}

#[test]
fn parse_init_variants() {
    assert_eq!(
        parse_init_file("init (Thing).luau"),
        Some((ScriptClass::ModuleScript, "Thing".to_string()))
    );
    assert_eq!(
        parse_init_file("init (Net).server.luau"),
        Some((ScriptClass::Script, "Net".to_string()))
    );
    assert_eq!(
        parse_init_file("init (UI).client.luau"),
        Some((ScriptClass::LocalScript, "UI".to_string()))
    );
    assert_eq!(
        parse_init_file("init (Package).lua"),
        Some((ScriptClass::ModuleScript, "Package".to_string()))
    );
    assert_eq!(
        parse_init_file("init (ServerPackage).server.lua"),
        Some((ScriptClass::Script, "ServerPackage".to_string()))
    );
    assert_eq!(parse_init_file("foo.luau"), None);
    assert_eq!(parse_init_file("init ().luau"), None);
    assert_eq!(
        parse_plain_init_file("init.lua"),
        Some(ScriptClass::ModuleScript)
    );
    assert_eq!(
        parse_plain_init_file("init.luau"),
        Some(ScriptClass::ModuleScript)
    );
    assert_eq!(
        parse_plain_init_file("init.server.lua"),
        Some(ScriptClass::Script)
    );
    assert!(is_init_file("init.lua"));
}

#[test]
fn parse_disambig_variants() {
    assert_eq!(
        parse_disambiguated("Thing [1]"),
        Some(("Thing".to_string(), 1))
    );
    assert_eq!(
        parse_disambiguated("Thing [12]"),
        Some(("Thing".to_string(), 12))
    );
    assert_eq!(
        parse_disambiguated("Thing [1] [2]"),
        Some(("Thing [1]".to_string(), 2))
    );
    assert_eq!(parse_disambiguated("Thing"), None);
    assert_eq!(parse_disambiguated("Thing [foo]"), None);
    assert_eq!(parse_disambiguated("Thing []"), None);
    // Old `(ClassName)` form should NOT be recognized as disambiguation.
    assert_eq!(parse_disambiguated("Thing (Folder)"), None);
}

#[test]
fn parse_init_file_strips_ordinal() {
    assert_eq!(
        parse_init_file("init (Thing [1]).luau"),
        Some((ScriptClass::ModuleScript, "Thing".to_string()))
    );
    assert_eq!(
        parse_init_file("init (Thing).server.luau"),
        Some((ScriptClass::Script, "Thing".to_string()))
    );
    assert_eq!(
        parse_init_file("init (a%2Fb).luau"),
        Some((ScriptClass::ModuleScript, "a/b".to_string()))
    );
    assert_eq!(
        parse_init_file("init (%C3%89).luau"),
        Some((ScriptClass::ModuleScript, "É".to_string()))
    );
}

// ----- encode / decode ----------------------------------------------

#[test]
fn encode_roundtrip_safe_chars() {
    let name = "Hello World";
    assert_eq!(encode_name(name), "Hello World");
    assert_eq!(decode_name(&encode_name(name)), name);
}

#[test]
fn encode_escapes_slash_and_leading_dot() {
    assert_eq!(encode_name("a/b"), "a%2Fb");
    assert_eq!(encode_name(".secret"), "%2Esecret");
    assert_eq!(decode_name("a%2Fb"), "a/b");
    assert_eq!(decode_name("%2Esecret"), ".secret");
}

#[test]
fn encode_escapes_windows_illegal_chars() {
    // <>:"|?* all forbidden on Windows — must round-trip via percent-encoding.
    let inputs = ["a<b", "a>b", "a:b", "a\"b", "a|b", "a?b", "a*b"];
    for s in inputs {
        let enc = encode_name(s);
        assert!(
            !enc.contains(['<', '>', '"', '|', '?', '*']),
            "encoded form of {s:?} still contains a Windows-illegal char: {enc}"
        );
        assert_eq!(decode_name(&enc), s);
    }
}

#[test]
fn encode_escapes_trailing_dot_and_space() {
    assert!(encode_name("Foo.").ends_with("%2E"));
    assert!(encode_name("Foo ").ends_with("%20"));
    assert_eq!(decode_name(&encode_name("Foo.")), "Foo.");
    assert_eq!(decode_name(&encode_name("Foo ")), "Foo ");
}

#[test]
fn encode_escapes_leading_ascii_space_for_win32_portability() {
    assert_eq!(encode_name(" Foo"), "%20Foo");
    assert_eq!(encode_name("  Foo"), "%20 Foo");
    assert_eq!(decode_name(&encode_name(" Foo")), " Foo");
}

#[test]
fn empty_name_uses_a_non_collapsing_reversible_sentinel() {
    assert_eq!(encode_name(""), EMPTY_NAME_SENTINEL);
    assert_eq!(decode_name(EMPTY_NAME_SENTINEL), "");

    // A literal name equal to the sentinel remains distinct.
    assert_eq!(encode_name(EMPTY_NAME_SENTINEL), "%25_");
    assert_eq!(
        decode_name(&encode_name(EMPTY_NAME_SENTINEL)),
        EMPTY_NAME_SENTINEL
    );
}

#[test]
fn encode_escapes_windows_reserved_names() {
    // Exact reserved name — first char must be escaped so the result isn't CON.
    let enc = encode_name("CON");
    assert_ne!(enc.to_ascii_uppercase(), "CON");
    assert_eq!(decode_name(&enc), "CON");

    // Reserved + extension is still reserved on Windows.
    let enc2 = encode_name("PRN");
    assert_ne!(enc2.to_ascii_uppercase(), "PRN");

    // Case-insensitive.
    assert_ne!(encode_name("nul").to_ascii_uppercase(), "NUL");

    // CreateFile also recognizes the console device aliases even though
    // the shorter Win32 naming-rule summary lists only CON.
    assert_eq!(encode_name("CONIN$"), "%43ONIN$");
    assert_eq!(encode_name("conout$.txt"), "%63onout$.txt");
    assert_eq!(decode_name(&encode_name("CONOUT$")), "CONOUT$");

    // Microsoft also reserves COM/LPT with superscript 1, 2, and 3.
    // Encoding all non-ASCII UTF-8 bytes makes those spellings portable
    // without growing a second device-name table in either codec.
    let superscript = encode_name("COM¹");
    assert_eq!(superscript, "COM%C2%B9");
    assert_eq!(decode_name(&superscript), "COM¹");
    assert!(!is_windows_reserved_stem(&superscript));

    // Non-reserved stems are left alone.
    assert_eq!(encode_name("CONFIG"), "CONFIG");
    assert_eq!(encode_name("COM"), "COM"); // only COM1..COM9 are reserved
}

#[test]
fn reserved_name_with_literal_ordinal_suffix_applies_both_escapes() {
    let encoded = encode_name("CON.foo [1]");
    assert_eq!(encoded, "%43ON.foo %5B1%5D");
    assert_eq!(decode_name(&encoded), "CON.foo [1]");
    assert_eq!(parse_disambiguated(&encoded), None);
    assert!(!is_windows_reserved_stem(&encoded));

    let lowercase = encode_name("nul.data [12]");
    assert_eq!(lowercase, "%6Eul.data %5B12%5D");
    assert_eq!(decode_name(&lowercase), "nul.data [12]");
    assert_eq!(parse_disambiguated(&lowercase), None);
    assert!(!is_windows_reserved_stem(&lowercase));
}

#[test]
fn encode_roundtrip_unicode() {
    let name = "配置/αβ.data";
    let enc = encode_name(name);
    assert!(!enc.contains('/'));
    assert!(enc.is_ascii());
    assert_eq!(decode_name(&enc), name);
}

#[test]
fn unicode_names_have_distinct_portable_ascii_fragments() {
    let names = ["É", "é", "e\u{301}"];
    let encoded: Vec<String> = names.iter().map(|name| encode_name(name)).collect();
    assert!(encoded.iter().all(|name| name.is_ascii()));
    assert_eq!(encoded, ["%C3%89", "%C3%A9", "e%CC%81"]);
    assert_eq!(
        encoded
            .iter()
            .collect::<std::collections::HashSet<_>>()
            .len(),
        names.len()
    );
    for (encoded, original) in encoded.iter().zip(names) {
        assert_eq!(decode_name(encoded), original);
    }
}

#[test]
fn encode_escapes_percent_marker() {
    assert_eq!(encode_name("Value%2FName"), "Value%252FName");
    assert_eq!(decode_name(&encode_name("Value%2FName")), "Value%2FName");
    assert_eq!(decode_name(&encode_name("%")), "%");
}

#[test]
fn literal_disambiguation_suffix_roundtrips_without_becoming_an_ordinal() {
    let encoded = encode_name("Thing [1]");
    assert_eq!(encoded, "Thing %5B1%5D");
    assert_eq!(decode_name(&encoded), "Thing [1]");
    assert_eq!(parse_disambiguated(&encoded), None);

    let fragment = instance_to_path(
        &InstanceDescriptor {
            class: "ModuleScript",
            name: "Thing [1]",
            has_children: false,
        },
        &[],
    );
    assert_eq!(fragment.fragment, "Thing %5B1%5D.luau");
}

#[test]
fn empty_sibling_names_keep_distinct_leaf_and_directory_fragments() {
    let mut folders = PathFragmentAllocator::new();
    let first_folder = folders.allocate(&InstanceDescriptor {
        class: "Folder",
        name: "",
        has_children: true,
    });
    let second_folder = folders.allocate(&InstanceDescriptor {
        class: "Folder",
        name: "",
        has_children: true,
    });
    assert_eq!(first_folder.fragment, "%_");
    assert_eq!(second_folder.fragment, "%_ [1]");
    let (folder_name, folder_ordinal) = parse_disambiguated(&second_folder.fragment).unwrap();
    assert_eq!(decode_name(&folder_name), "");
    assert_eq!(folder_ordinal, 1);

    let mut scripts = PathFragmentAllocator::new();
    let first_script = scripts.allocate(&InstanceDescriptor {
        class: "ModuleScript",
        name: "",
        has_children: false,
    });
    let second_script = scripts.allocate(&InstanceDescriptor {
        class: "ModuleScript",
        name: "",
        has_children: false,
    });
    assert_eq!(first_script.fragment, "%_.luau");
    assert_eq!(second_script.fragment, "%_ [1].luau");
    assert_eq!(
        path_to_instance_meta(&first_script.fragment, file(), &index(&first_script.fragment, &[]))
            .unwrap()
            .unwrap()
            .name,
        ""
    );

    let empty_init = portable_init_file_name("", ScriptClass::Script);
    assert_eq!(empty_init, "init (%_).server.luau");
    let metadata = path_to_instance_meta(
        EMPTY_NAME_SENTINEL,
        directory(),
        &index(EMPTY_NAME_SENTINEL, &[&empty_init]),
    )
    .unwrap()
    .unwrap();
    assert_eq!(metadata.name, "");
    assert_eq!(metadata.class, "Script");
    assert!(metadata.is_script_with_children);
}

// ----- instance_to_path --------------------------------------------

#[test]
fn instance_to_path_module_script() {
    let f = instance_to_path(
        &InstanceDescriptor {
            class: "ModuleScript",
            name: "Config",
            has_children: false,
        },
        &[],
    );
    assert_eq!(f.fragment, "Config.luau");
    assert!(!f.is_dir);
}

#[test]
fn instance_to_path_server_script() {
    let f = instance_to_path(
        &InstanceDescriptor {
            class: "Script",
            name: "Main",
            has_children: false,
        },
        &[],
    );
    assert_eq!(f.fragment, "Main.server.luau");
}

#[test]
fn instance_to_path_script_with_children_is_dir() {
    let f = instance_to_path(
        &InstanceDescriptor {
            class: "ModuleScript",
            name: "Net",
            has_children: true,
        },
        &[],
    );
    assert_eq!(f.fragment, "Net");
    assert!(f.is_dir);
}

#[test]
fn instance_to_path_folder() {
    let f = instance_to_path(
        &InstanceDescriptor {
            class: "Folder",
            name: "Shared",
            has_children: true,
        },
        &[],
    );
    assert_eq!(f.fragment, "Shared");
    assert!(f.is_dir);
}

#[test]
fn instance_to_path_collision_numbered_suffix() {
    // A ModuleScript `Thing.luau` already exists — a sibling Folder `Thing`
    // uses a different fragment (`Thing/`) so doesn't collide.
    let taken = vec!["Thing.luau".to_string()];
    let f = instance_to_path(
        &InstanceDescriptor {
            class: "Folder",
            name: "Thing",
            has_children: false,
        },
        &taken,
    );
    assert_eq!(f.fragment, "Thing");
    assert!(f.is_dir);

    // Two ModuleScripts named Thing → second gets `[1]` suffix.
    let f2 = instance_to_path(
        &InstanceDescriptor {
            class: "ModuleScript",
            name: "Thing",
            has_children: false,
        },
        &taken,
    );
    assert_eq!(f2.fragment, "Thing [1].luau");
}

#[test]
fn instance_to_path_collision_escalates_ordinal() {
    let taken = vec!["Thing.luau".to_string(), "Thing [1].luau".to_string()];
    let f = instance_to_path(
        &InstanceDescriptor {
            class: "ModuleScript",
            name: "Thing",
            has_children: false,
        },
        &taken,
    );
    assert_eq!(f.fragment, "Thing [2].luau");
}

#[test]
fn instance_to_path_collision_folders_numbered() {
    let taken = vec!["Shared".to_string()];
    let f = instance_to_path(
        &InstanceDescriptor {
            class: "Folder",
            name: "Shared",
            has_children: true,
        },
        &taken,
    );
    assert_eq!(f.fragment, "Shared [1]");
    assert!(f.is_dir);
}

#[test]
fn instance_to_path_avoids_case_only_collisions() {
    let taken = vec!["Config.luau".to_string(), "Shared".to_string()];
    let script = instance_to_path(
        &InstanceDescriptor {
            class: "ModuleScript",
            name: "config",
            has_children: false,
        },
        &taken,
    );
    assert_eq!(script.fragment, "config [1].luau");

    let folder = instance_to_path(
        &InstanceDescriptor {
            class: "Folder",
            name: "shared",
            has_children: true,
        },
        &taken,
    );
    assert_eq!(folder.fragment, "shared [1]");
}

#[test]
fn duplicate_matching_uses_ascii_case_rules_on_portable_fragments() {
    assert!(fragments_equal("Config", "config"));
    assert!(!fragments_equal(&encode_name("É"), &encode_name("é")));
}

#[test]
fn instance_to_path_collision_script_with_children_numbered() {
    let taken = vec!["Net".to_string()];
    let f = instance_to_path(
        &InstanceDescriptor {
            class: "ModuleScript",
            name: "Net",
            has_children: true,
        },
        &taken,
    );
    assert_eq!(f.fragment, "Net [1]");
    assert!(f.is_dir);
}

#[test]
fn instance_to_path_encodes_special_chars() {
    let f = instance_to_path(
        &InstanceDescriptor {
            class: "ModuleScript",
            name: "a/b",
            has_children: false,
        },
        &[],
    );
    assert_eq!(f.fragment, "a%2Fb.luau");
}

#[test]
fn fragment_allocator_preserves_case_insensitive_collision_rules() {
    let mut allocator = PathFragmentAllocator::from_taken(&["Config.luau", "Thing [1].luau"]);
    let config = allocator.allocate(&InstanceDescriptor {
        class: "ModuleScript",
        name: "config",
        has_children: false,
    });
    let thing = allocator.allocate(&InstanceDescriptor {
        class: "ModuleScript",
        name: "Thing",
        has_children: false,
    });
    let duplicate = allocator.allocate(&InstanceDescriptor {
        class: "ModuleScript",
        name: "Thing",
        has_children: false,
    });

    assert_eq!(config.fragment, "config [1].luau");
    assert_eq!(thing.fragment, "Thing.luau");
    assert_eq!(duplicate.fragment, "Thing [2].luau");
}

#[test]
fn fragment_allocator_handles_tens_of_thousands_of_wide_siblings() {
    const WIDTH: usize = 20_000;
    let mut allocator = PathFragmentAllocator::new();
    for index in 0..WIDTH {
        let name = format!("Item{index:05}");
        let fragment = allocator.allocate(&InstanceDescriptor {
            class: "ModuleScript",
            name: &name,
            has_children: false,
        });
        assert_eq!(fragment.fragment, format!("{name}.luau"));
    }
    assert_eq!(allocator.used.len(), WIDTH);
}

#[test]
fn fragment_allocator_keeps_five_digit_duplicate_ordinals_roundtrippable() {
    let module = InstanceDescriptor {
        class: "ModuleScript",
        name: "Repeated",
        has_children: false,
    };
    let mut module_allocator = PathFragmentAllocator::new();
    let mut module_fragment = None;
    for _ in 0..=10_000 {
        module_fragment = Some(module_allocator.allocate(&module));
    }
    let module_fragment = module_fragment.unwrap();
    assert_eq!(module_fragment.fragment, "Repeated [10000].luau");
    let (class, stem) = classify_script_file(&module_fragment.fragment).unwrap();
    assert_eq!(class, ScriptClass::ModuleScript);
    assert_eq!(
        parse_disambiguated(&stem),
        Some(("Repeated".to_string(), 10_000))
    );

    let folder = InstanceDescriptor {
        class: "Folder",
        name: "Repeated",
        has_children: true,
    };
    let mut folder_allocator = PathFragmentAllocator::new();
    let mut folder_fragment = None;
    for _ in 0..=10_000 {
        folder_fragment = Some(folder_allocator.allocate(&folder));
    }
    let folder_fragment = folder_fragment.unwrap();
    assert_eq!(folder_fragment.fragment, "Repeated [10000]");
    assert_eq!(
        parse_disambiguated(&folder_fragment.fragment),
        Some(("Repeated".to_string(), 10_000))
    );
}

#[test]
fn one_off_path_mapping_keeps_five_digit_duplicate_ordinal_before_extension() {
    let mut taken = Vec::with_capacity(10_000);
    taken.push("Repeated.luau".to_string());
    taken.extend((1..10_000).map(|ordinal| format!("Repeated [{ordinal}].luau")));

    let fragment = instance_to_path(
        &InstanceDescriptor {
            class: "ModuleScript",
            name: "Repeated",
            has_children: false,
        },
        &taken,
    );
    assert_eq!(fragment.fragment, "Repeated [10000].luau");
}

#[test]
fn overlong_duplicate_component_is_lossless_but_fails_portable_preflight() {
    let name = "A".repeat(MAX_PORTABLE_COMPONENT_BYTES - ".luau".len());
    let descriptor = InstanceDescriptor {
        class: "ModuleScript",
        name: &name,
        has_children: false,
    };
    let mut allocator = PathFragmentAllocator::new();
    let bare = allocator.allocate(&descriptor);
    let duplicate = allocator.allocate(&descriptor);

    assert_eq!(bare.fragment.len(), MAX_PORTABLE_COMPONENT_BYTES);
    assert!(validate_portable_component(&bare.fragment).is_ok());
    assert!(duplicate.fragment.ends_with(" [1].luau"));
    assert!(duplicate.fragment.len() > MAX_PORTABLE_COMPONENT_BYTES);
    assert!(validate_portable_component(&duplicate.fragment).is_err());
    let (class, stem) = classify_script_file(&duplicate.fragment).unwrap();
    assert_eq!(class, ScriptClass::ModuleScript);
    let (decoded_name, ordinal) = parse_disambiguated(&stem).unwrap();
    assert_eq!(ordinal, 1);
    assert_eq!(decoded_name, name);
}

#[test]
fn percent_expanded_unicode_component_fails_portable_preflight() {
    let encoded = encode_name(&"😀".repeat(100));
    assert_eq!(decode_name(&encoded), "😀".repeat(100));
    assert!(encoded.len() > MAX_PORTABLE_COMPONENT_BYTES);
    let error = validate_portable_component(&encoded).unwrap_err();
    assert!(error.contains("portable limit is 255"));
}

#[test]
fn long_script_directory_uses_a_portable_plain_init_marker() {
    let name = "A".repeat(MAX_PORTABLE_COMPONENT_BYTES - 1);
    let init = portable_init_file_name(&name, ScriptClass::LocalScript);
    assert_eq!(init, "init.client.luau");
    assert!(init.len() <= MAX_PORTABLE_COMPONENT_BYTES);

    let ordinary = portable_init_file_name("Controller", ScriptClass::ModuleScript);
    assert_eq!(ordinary, "init (Controller).luau");
}

// ----- path_to_instance_meta ---------------------------------------

#[test]
fn path_to_instance_module_script() {
    let inst = instance_of_file("Config.luau");
    assert_eq!(inst.name, "Config");
    assert_eq!(inst.class, "ModuleScript");
    assert!(!inst.is_dir);
}

#[test]
fn path_to_instance_wally_lua_module_script() {
    let inst = instance_of_file("React.lua");
    assert_eq!(inst.name, "React");
    assert_eq!(inst.class, "ModuleScript");
    assert!(!inst.is_dir);
}

#[test]
fn path_to_instance_folder_default() {
    let inst = instance_of_directory("Shared", &[]);
    assert_eq!(inst.name, "Shared");
    assert_eq!(inst.class, "Folder");
    assert!(inst.is_dir);
    assert!(!inst.is_script_with_children);
    assert!(is_empty_plain_folder("Shared", directory(), &index("Shared", &[])).unwrap());
    assert!(
        !is_empty_plain_folder("Shared", directory(), &index("Shared", &["Child.luau"])).unwrap()
    );
}

#[test]
fn path_to_instance_script_with_children() {
    let inst = instance_of_directory("Net", &["init (Net).luau", "Helper.luau"]);
    assert_eq!(inst.name, "Net");
    assert_eq!(inst.class, "ModuleScript");
    assert!(inst.is_script_with_children);
    assert_eq!(inst.script_class, Some(ScriptClass::ModuleScript));
}

#[test]
fn path_to_instance_decodes_portable_script_with_children_names() {
    for name in ["a/b", "É", "é", "e\u{301}"] {
        let encoded = encode_name(name);
        let init = format!("init ({encoded}).luau");
        let inst = instance_of_directory(&encoded, &[&init]);
        assert_eq!(inst.name, name);
        assert_eq!(inst.class, "ModuleScript");
        assert!(inst.is_script_with_children);
    }
}

#[test]
fn path_to_instance_still_reads_legacy_literal_unicode_init() {
    let inst = instance_of_directory("É", &["init (É).luau"]);
    assert_eq!(inst.name, "É");
    assert_eq!(inst.class, "ModuleScript");
}

#[test]
fn path_to_instance_wally_plain_init_script_with_children() {
    let inst = instance_of_directory("net", &["init.lua", "client.lua"]);
    assert_eq!(inst.name, "net");
    assert_eq!(inst.class, "ModuleScript");
    assert!(inst.is_script_with_children);
    assert_eq!(inst.script_class, Some(ScriptClass::ModuleScript));
}

#[test]
fn path_to_instance_script_with_children_server_variant() {
    let inst = instance_of_directory("Main", &["init (Main).server.luau"]);
    assert_eq!(inst.class, "Script");
    assert_eq!(inst.script_class, Some(ScriptClass::Script));
}

#[test]
fn path_to_instance_disambiguated_file() {
    let inst = instance_of_file("Thing [1].luau");
    assert_eq!(inst.name, "Thing");
    assert_eq!(inst.class, "ModuleScript");
}

#[test]
fn path_to_instance_disambiguated_folder() {
    let inst = instance_of_directory("Shared [2]", &[]);
    assert_eq!(inst.name, "Shared");
    assert_eq!(inst.class, "Folder");
    assert!(inst.is_dir);
}

#[test]
fn path_to_instance_disambiguated_script_with_children() {
    let inst = instance_of_directory("Net [1]", &["init (Net).luau"]);
    // Instance name comes from the init file's inner — not from the dir
    // fragment — so it's the clean `Net`, matching the Roblox instance.
    assert_eq!(inst.name, "Net");
    assert_eq!(inst.class, "ModuleScript");
    assert!(inst.is_script_with_children);
}

#[test]
fn path_to_instance_skips_meta_and_init_files() {
    let empty = index("skip", &[]);
    assert!(path_to_instance_meta(META_FILE, file(), &empty).unwrap().is_none());
    assert!(path_to_instance_meta("init (X).luau", file(), &empty).unwrap().is_none());
}

#[test]
fn path_to_instance_refuses_links_and_what_is_missing() {
    let empty = index("x", &[]);
    for (kind, problem) in [
        (ObjectKind::SymbolicLink, ObjectProblem::SymbolicLink),
        (ObjectKind::ReparsePoint, ObjectProblem::ReparsePoint),
    ] {
        match path_to_instance_meta("Config.luau", seen(kind), &empty) {
            Err(found) => assert_eq!(found, problem),
            Ok(_) => panic!("a link was followed"),
        }
    }
    match path_to_instance_meta("Config.luau", None, &empty) {
        Err(found) => assert_eq!(found, ObjectProblem::Missing),
        Ok(_) => panic!("a missing file was read"),
    }
}

// ----- round-trip --------------------------------------------------

#[test]
fn roundtrip_module_script() {
    let desc = InstanceDescriptor {
        class: "ModuleScript",
        name: "Config",
        has_children: false,
    };
    let frag = instance_to_path(&desc, &[]);
    let inst = instance_of_file(&frag.fragment);
    assert_eq!(inst.name, desc.name);
    assert_eq!(inst.class, desc.class);
}

#[test]
fn roundtrip_name_with_slash() {
    let desc = InstanceDescriptor {
        class: "ModuleScript",
        name: "a/b",
        has_children: false,
    };
    let frag = instance_to_path(&desc, &[]);
    let inst = instance_of_file(&frag.fragment);
    assert_eq!(inst.name, "a/b");
}

#[test]
fn roundtrip_script_with_children() {
    let desc = InstanceDescriptor {
        class: "Script",
        name: "Main",
        has_children: true,
    };
    let frag = instance_to_path(&desc, &[]);
    let inst = instance_of_directory(&frag.fragment, &["init (Main).server.luau"]);
    assert_eq!(inst.name, "Main");
    assert_eq!(inst.class, "Script");
    assert!(inst.is_script_with_children);
}

#[test]
fn line_endings_become_line_feeds() {
    assert_eq!(normalize_line_endings(b"a\r\nb\rc\n").as_ref(), b"a\nb\rc\n");
    assert_eq!(normalize_line_endings(b"plain\n").as_ref(), b"plain\n");
    assert!(matches!(normalize_line_endings(b"a\rb"), Cow::Borrowed(b) if b == b"a\rb"));
    assert!(matches!(normalize_line_endings(b"a\r"), Cow::Borrowed(_)));
    assert!(matches!(normalize_line_endings(b"a\r\nb"), Cow::Owned(_)));
}

#[test]
fn the_allocator_gives_the_ordinal_of_the_one_off_mapping() {
    let module = InstanceDescriptor { class: "ModuleScript", name: "Thing", has_children: false };
    let folder = InstanceDescriptor { class: "Folder", name: "Thing.luau", has_children: true };
    let mut allocator = PathFragmentAllocator::new();
    assert_eq!(allocator.allocate(&module).fragment, "Thing.luau");
    assert_eq!(allocator.allocate(&folder).fragment, "Thing.luau [1]");
    let taken = ["Thing.luau".to_string(), "Thing.luau [1]".to_string()];
    assert_eq!(instance_to_path(&module, &taken).fragment, "Thing [1].luau");
    assert_eq!(allocator.allocate(&module).fragment, "Thing [1].luau");
    assert_eq!(allocator.allocate(&module).fragment, "Thing [2].luau");
}

#[test]
fn an_allocated_fragment_reads_back() {
    let mut allocator = PathFragmentAllocator::new();
    let name = "a/b [1]";
    for ordinal in 0..12 {
        let made = allocator.allocate(&InstanceDescriptor {
            class: "Script",
            name,
            has_children: false,
        });
        let stem = made.fragment.strip_suffix(".server.luau").unwrap();
        match parse_disambiguated(stem) {
            None => {
                assert_eq!(ordinal, 0);
                assert_eq!(decode_name(stem), name);
            }
            Some((encoded, k)) => {
                assert_eq!(k as usize, ordinal);
                assert_eq!(decode_name(&encoded), name);
            }
        }
    }
}

#[test]
fn bytes_that_are_no_text_decode_with_replacement() {
    assert_eq!(decode_name("a%FFb"), "a\u{fffd}b");
}

#[test]
fn allocated_fragments_stay_apart() {
    let mut allocator = PathFragmentAllocator::from_taken(&["Taken.luau"]);
    let mut given = vec!["taken.luau".to_string()];
    for name in ["A", "a", "A", "A [1]", "taken", "a", "A [1]", "Taken"] {
        let made = allocator.allocate(&InstanceDescriptor {
            class: "ModuleScript",
            name,
            has_children: false,
        });
        let lower = made.fragment.to_lowercase();
        assert!(!given.contains(&lower), "{lower}");
        given.push(lower);
    }
}
