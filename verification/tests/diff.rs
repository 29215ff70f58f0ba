use rosync::conflict::hash;
use rosync::diff::{
    compare, has_truncated_tree, remove_studio_node, set_node_source, snapshot_sibling_order,
    studio_script_paths, DiffItem, DiffKind, DiffNode,
};
use rosync::disk_index::collect_local_snapshot_entries;
use rosync::fs_map::normalize_line_endings;
use rosync::sync_scope::contains;
use rosync::text_map::TextMap;
use rosync::tree::{Tree, TreeNode};
use serde_json::Value;

fn parse(text: &str) -> Value {
    serde_json::from_str(text).unwrap()
}

fn text(node: &Value, key: &str) -> Option<String> {
    node.get(key).and_then(Value::as_str).map(str::to_string)
}

fn flag(node: &Value, key: &str) -> Option<bool> {
    node.get(key).and_then(Value::as_bool)
}

fn add(tree: &mut Tree, parent: Option<usize>, node: &Value) -> usize {
    let id = tree.add_node(
        parent,
        TreeNode {
            class: text(node, "class"),
            name: text(node, "name"),
            avoid_sync: flag(node, "avoidSync") == Some(true),
            avoid_sync_carrier: flag(node, "avoidSyncCarrier") == Some(true),
            truncated: flag(node, "truncated") == Some(true),
            source: node.get("properties").and_then(|properties| text(properties, "Source")),
            disk_fragment: text(node, "diskFragment"),
            disk_fragment_is_dir: flag(node, "diskFragmentIsDir"),
            has_children: flag(node, "hasChildren"),
            source_included: flag(node, "sourceIncluded"),
            stream_id: node.get("streamId").and_then(Value::as_u64),
            children: Vec::new(),
        },
    );
    if let Some(children) = node.get("children").and_then(Value::as_array) {
        for child in children {
            add(tree, Some(id), child);
        }
    }
    id
}

fn trees(nodes: &[Value]) -> (Tree, Vec<usize>) {
    let mut tree = Tree::new();
    let mut ids = Vec::new();
    for node in nodes {
        ids.push(add(&mut tree, None, node));
    }
    (tree, ids)
}

fn collect_local_nodes(services: &[Value]) -> TextMap<DiffNode> {
    let (tree, ids) = trees(services);
    rosync::diff::collect_local_nodes(&tree, &ids)
}

fn collect_studio_tree_nodes(game: &Value) -> TextMap<DiffNode> {
    let mut tree = Tree::new();
    let root = add(&mut tree, None, game);
    rosync::diff::collect_studio_tree_nodes(&tree, root)
}

fn keys(nodes: &TextMap<DiffNode>) -> Vec<&str> {
    nodes.entries.iter().map(|entry| entry.0.as_str()).collect()
}

fn normalized_source_hash(source: &str) -> [u8; 32] {
    hash(normalize_line_endings(source.as_bytes()).as_ref())
}

fn plain(class: &str, name: &str) -> TreeNode {
    TreeNode::plain(class.to_string(), name.to_string())
}

fn reference_snapshot_sort_key(node: &Value, mapped_class: &str) -> String {
    let name = node.get("name").and_then(Value::as_str).unwrap_or("");
    let lower_name = name.to_ascii_lowercase();
    let mut parts = vec![mapped_class.to_string()];

    if let Some(children) = node.get("children").and_then(Value::as_array) {
        let mut child_keys = children
            .iter()
            .filter(|child| {
                !child
                    .get("avoidSync")
                    .and_then(Value::as_bool)
                    .unwrap_or(false)
            })
            .filter_map(|child| {
                let class = child.get("class").and_then(Value::as_str)?;
                if contains(class) {
                    Some(reference_snapshot_sort_key(child, class))
                } else {
                    None
                }
            })
            .collect::<Vec<_>>();
        child_keys.sort();
        parts.extend(child_keys);
    }

    let signature = parts.join("\u{0}");
    format!("{lower_name}\u{0}{name}\u{0}{mapped_class}\u{0}{signature}")
}

#[test]
fn compact_snapshot_order_matches_recursive_reference_order() {
    let children = vec![
        parse(
        r#"{
            "class": "Folder",
            "name": "Same",
            "children": [{
                "class": "ModuleScript",
                "name": "Node",
                "children": []
            }, {
                "class": "ModuleScript",
                "name": "Tail",
                "children": []
            }]
        }"#,
    ),
        parse(
        r#"{
            "class": "Folder",
            "name": "same",
            "children": [{
                "class": "ModuleScript",
                "name": "node",
                "children": []
            }]
        }"#,
    ),
        parse(
        r#"{
            "class": "Folder",
            "name": "Same",
            "children": [{
                "class": "ModuleScript",
                "name": "Node",
                "children": [{
                    "class": "ModuleScript",
                    "name": "Branch",
                    "children": []
                }]
            }]
        }"#,
    ),
        parse(
        r#"{
            "class": "Folder",
            "name": "Same",
            "children": [{
                "class": "ModuleScript",
                "name": "Node",
                "children": []
            }]
        }"#,
    ),
    ];

    let mut expected = (0..children.len()).collect::<Vec<_>>();
    expected.sort_by(|left, right| {
        let left_class = children[*left]
            .get("class")
            .and_then(Value::as_str)
            .unwrap();
        let right_class = children[*right]
            .get("class")
            .and_then(Value::as_str)
            .unwrap();
        reference_snapshot_sort_key(&children[*left], left_class)
            .cmp(&reference_snapshot_sort_key(&children[*right], right_class))
    });

    let mut below = Tree::new();
    let root = below.add_node(None, TreeNode::plain("Workspace".to_string(), "Workspace".to_string()));
    let mut places = Vec::new();
    for child in &children {
        places.push(add(&mut below, Some(root), child));
    }
    let order = snapshot_sibling_order(&below, root)
        .iter()
        .map(|id| places.iter().position(|place| place == id).unwrap())
        .collect::<Vec<_>>();
    assert_eq!(order, expected);
}

#[test]
fn compare_reports_added_removed_and_changed() {
    let local_services = vec![parse(
        r#"{
        "class": "ReplicatedStorage",
        "name": "ReplicatedStorage",
        "properties": {},
        "children": [
            { "class": "ModuleScript", "name": "Config", "properties": { "Source": "return 1\r\n" }, "children": [] },
            { "class": "Folder", "name": "LocalOnly", "properties": {}, "children": [] }
        ]
    }"#,
    )];
    let studio_tree = parse(
        r#"{
        "class": "DataModel",
        "name": "game",
        "children": [
            { "class": "ReplicatedStorage", "name": "ReplicatedStorage", "children": [
                { "class": "ModuleScript", "name": "Config", "children": [] },
                { "class": "Folder", "name": "StudioOnly", "children": [] }
            ] }
        ]
    }"#,
    );
    let local = collect_local_nodes(&local_services);
    let mut studio = collect_studio_tree_nodes(&studio_tree);
    set_node_source(&mut studio, "ReplicatedStorage/Config", "return 2\n".into());

    let report = compare(&local, &studio);
    assert_eq!(report.summary.added, 1);
    assert_eq!(report.added[0].path, "ReplicatedStorage/LocalOnly");
    assert_eq!(report.summary.removed, 0);
    assert_eq!(report.summary.changed, 1);
    assert_eq!(report.changed[0].path, "ReplicatedStorage/Config");
    assert!(report.changed[0].source_changed);
}

#[test]
fn studio_tree_ignores_folder_without_script_descendants() {
    let studio_tree = parse(
        r#"{
        "class": "DataModel",
        "name": "game",
        "children": [
            { "class": "ReplicatedStorage", "name": "ReplicatedStorage", "children": [
                { "class": "Folder", "name": "Assets", "children": [
                    { "class": "Folder", "name": "Models", "children": [] }
                ] }
            ] }
        ]
    }"#,
    );

    let studio = collect_studio_tree_nodes(&studio_tree);
    assert!(!studio.contains("ReplicatedStorage/Assets"));
    assert!(!studio.contains("ReplicatedStorage/Assets/Models"));
}

#[test]
fn studio_tree_keeps_folder_ancestors_of_scripts() {
    let studio_tree = parse(
        r#"{
        "class": "DataModel",
        "name": "game",
        "children": [
            { "class": "ReplicatedStorage", "name": "ReplicatedStorage", "children": [
                { "class": "Folder", "name": "Shared", "children": [
                    { "class": "ModuleScript", "name": "Config", "children": [] }
                ] }
            ] }
        ]
    }"#,
    );

    let studio = collect_studio_tree_nodes(&studio_tree);
    assert_eq!(studio.get("ReplicatedStorage/Shared").unwrap().class, "Folder");
    assert_eq!(
        studio.get("ReplicatedStorage/Shared/Config").unwrap().class,
        "ModuleScript"
    );
}

#[test]
fn studio_tree_suppresses_camera_subtrees_even_with_scripts() {
    let studio_tree = parse(
        r#"{
        "class": "DataModel",
        "name": "game",
        "children": [
            { "class": "ServerStorage", "name": "ServerStorage", "children": [
                { "class": "Camera", "name": "PreviewCamera", "children": [
                    { "class": "ModuleScript", "name": "Bindings", "children": [] }
                ] }
            ] }
        ]
    }"#,
    );

    let studio = collect_studio_tree_nodes(&studio_tree);
    assert!(!studio.contains("ServerStorage/PreviewCamera"));
    assert!(!studio.contains("ServerStorage/PreviewCamera/Bindings"));
}

#[test]
fn case_only_siblings_disambiguate_independent_of_snapshot_order() {
    let local_services = vec![parse(
        r#"{
        "class": "ReplicatedStorage",
        "name": "ReplicatedStorage",
        "properties": {},
        "children": [{
            "class": "Folder",
            "name": "Packages",
            "properties": {},
            "children": [
                { "class": "ModuleScript", "name": "Net", "properties": { "Source": "return 'Net'\n" }, "children": [] },
                { "class": "ModuleScript", "name": "net", "properties": { "Source": "return 'net'\n" }, "children": [] }
            ]
        }]
    }"#,
    )];
    let studio_services = vec![parse(
        r#"{
        "class": "ReplicatedStorage",
        "name": "ReplicatedStorage",
        "properties": {},
        "children": [{
            "class": "Folder",
            "name": "Packages",
            "properties": {},
            "children": [
                { "class": "ModuleScript", "name": "net", "properties": { "Source": "return 'net'\n" }, "children": [] },
                { "class": "ModuleScript", "name": "Net", "properties": { "Source": "return 'Net'\n" }, "children": [] }
            ]
        }]
    }"#,
    )];

    let local = collect_local_nodes(&local_services);
    let studio = collect_local_nodes(&studio_services);

    assert!(local.contains("ReplicatedStorage/Packages/Net"));
    assert!(local.contains("ReplicatedStorage/Packages/net [1]"));
    assert!(studio.contains("ReplicatedStorage/Packages/Net"));
    assert!(studio.contains("ReplicatedStorage/Packages/net [1]"));
    assert!(compare(&local, &studio).is_clean());
}

#[test]
fn studio_tree_case_only_collision_keeps_real_source_path() {
    let studio_tree = parse(
        r#"{
        "class": "DataModel",
        "name": "game",
        "children": [{
            "class": "ReplicatedStorage",
            "name": "ReplicatedStorage",
            "children": [{
                "class": "Folder",
                "name": "Packages",
                "children": [
                    { "class": "ModuleScript", "name": "net", "children": [] },
                    { "class": "ModuleScript", "name": "Net", "children": [] }
                ]
            }]
        }]
    }"#,
    );

    let studio = collect_studio_tree_nodes(&studio_tree);

    assert!(studio.contains("ReplicatedStorage/Packages/Net"));
    assert!(studio.contains("ReplicatedStorage/Packages/net [1]"));
    assert_eq!(
        studio.get("ReplicatedStorage/Packages/net [1]").unwrap().source_path,
        "ReplicatedStorage/Packages/net"
    );
}

#[test]
fn duplicate_snapshot_siblings_sort_by_sync_relevant_subtree() {
    let local_services = vec![parse(
        r#"{
        "class": "Workspace",
        "name": "Workspace",
        "properties": {},
        "children": [
            { "class": "Folder", "name": "SellNPC", "properties": {}, "children": [
                { "class": "LocalScript", "name": "Animate", "properties": { "Source": "animate" }, "children": [] }
            ] },
            { "class": "Folder", "name": "SellNPC", "properties": {}, "children": [
                { "class": "Folder", "name": "HumanoidRootPart", "properties": {}, "children": [
                    { "class": "LocalScript", "name": "DialogueDemo", "properties": { "Source": "dialogue" }, "children": [] }
                ] }
            ] }
        ]
    }"#,
    )];
    let studio_services = vec![parse(
        r#"{
        "class": "Workspace",
        "name": "Workspace",
        "properties": {},
        "children": [
            { "class": "Folder", "name": "SellNPC", "properties": {}, "children": [
                { "class": "Folder", "name": "HumanoidRootPart", "properties": {}, "children": [
                    { "class": "LocalScript", "name": "DialogueDemo", "properties": { "Source": "dialogue" }, "children": [] }
                ] }
            ] },
            { "class": "Folder", "name": "SellNPC", "properties": {}, "children": [
                { "class": "LocalScript", "name": "Animate", "properties": { "Source": "animate" }, "children": [] }
            ] }
        ]
    }"#,
    )];

    let local = collect_local_nodes(&local_services);
    let studio = collect_local_nodes(&studio_services);

    assert!(local.contains("Workspace/SellNPC/Animate"));
    assert!(local.contains("Workspace/SellNPC [1]/HumanoidRootPart/DialogueDemo"));
    assert!(studio.contains("Workspace/SellNPC/Animate"));
    assert!(studio.contains("Workspace/SellNPC [1]/HumanoidRootPart/DialogueDemo"));
    assert_eq!(
        studio.get("Workspace/SellNPC [1]/HumanoidRootPart/DialogueDemo").unwrap().source_path,
        "Workspace/SellNPC [1]/HumanoidRootPart/DialogueDemo"
    );
    assert!(compare(&local, &studio).is_clean());
}

#[test]
fn selective_snapshot_index_retains_exact_physical_ancestry() {
    let services = vec![parse(
        r#"{
        "class": "ReplicatedStorage",
        "name": "ReplicatedStorage",
        "properties": {},
        "children": [{
            "class": "Folder",
            "name": "Parent",
            "diskFragment": "Parent [7]",
            "diskFragmentIsDir": true,
            "properties": {},
            "children": [{
                "class": "ModuleScript",
                "name": "Thing [1]",
                "diskFragment": "Thing %5B1%5D [3].luau",
                "diskFragmentIsDir": false,
                "properties": { "Source": "return true" },
                "children": []
            }]
        }]
    }"#,
    )];

    let (tree, ids) = trees(&services);
    let entries = collect_local_snapshot_entries(&tree, &ids);
    let parent = entries
        .get("ReplicatedStorage/Parent")
        .expect("logical parent");
    assert_eq!(parent.disk_path, ["ReplicatedStorage", "Parent [7]"]);

    let child = entries
        .get("ReplicatedStorage/Parent/Thing %5B1%5D")
        .expect("logical child");
    assert_eq!(
        child.disk_path,
        ["ReplicatedStorage", "Parent [7]", "Thing %5B1%5D [3].luau"]
    );
    assert_eq!(tree.nodes[child.node].name.as_deref(), Some("Thing [1]"));
}

#[test]
fn duplicate_studio_names_use_disk_disambiguation() {
    let local_services = vec![parse(
        r#"{
        "class": "Workspace",
        "name": "Workspace",
        "properties": {},
        "children": [
            { "class": "Folder", "name": "SellNPC", "properties": {}, "children": [
                { "class": "LocalScript", "name": "Animate", "properties": { "Source": "simple" }, "children": [] }
            ] },
            { "class": "Folder", "name": "SellNPC", "properties": {}, "children": [
                { "class": "LocalScript", "name": "Animate", "properties": { "Source": "r15" }, "children": [] }
            ] }
        ]
    }"#,
    )];
    let studio_tree = parse(
        r#"{
        "class": "DataModel",
        "name": "game",
        "children": [
            { "class": "Workspace", "name": "Workspace", "children": [
                { "class": "Model", "name": "SellNPC", "children": [
                    { "class": "LocalScript", "name": "Animate", "children": [] }
                ] },
                { "class": "Model", "name": "SellNPC", "children": [
                    { "class": "LocalScript", "name": "Animate", "children": [] }
                ] }
            ] }
        ]
    }"#,
    );

    let local = collect_local_nodes(&local_services);
    let mut studio = collect_studio_tree_nodes(&studio_tree);
    set_node_source(&mut studio, "Workspace/SellNPC/Animate", "simple".into());
    set_node_source(&mut studio, "Workspace/SellNPC [1]/Animate", "r15".into());

    assert!(local.contains("Workspace/SellNPC/Animate"));
    assert!(local.contains("Workspace/SellNPC [1]/Animate"));
    assert!(studio.contains("Workspace/SellNPC/Animate"));
    assert!(studio.contains("Workspace/SellNPC [1]/Animate"));
    assert!(compare(&local, &studio).is_clean());
}

#[test]
fn indistinguishable_duplicate_scripts_pair_by_source_not_enumeration_order() {
    let local_services = vec![parse(
        r#"{
        "class": "ReplicatedStorage",
        "name": "ReplicatedStorage",
        "properties": {},
        "children": [{
            "class": "ModuleScript",
            "name": "Same",
            "properties": { "Source": "return 'alpha'\r\n" },
            "children": []
        }, {
            "class": "ModuleScript",
            "name": "Same",
            "properties": { "Source": "return 'beta'\n" },
            "children": []
        }]
    }"#,
    )];
    let studio_tree = parse(
        r#"{
        "class": "DataModel",
        "name": "game",
        "children": [{
            "class": "ReplicatedStorage",
            "name": "ReplicatedStorage",
            "children": [{
                "class": "ModuleScript",
                "name": "Same",
                "properties": { "Source": "return 'beta'\r\n" },
                "children": []
            }, {
                "class": "ModuleScript",
                "name": "Same",
                "properties": { "Source": "return 'alpha'\n" },
                "children": []
            }]
        }]
    }"#,
    );

    let local = collect_local_nodes(&local_services);
    let studio = collect_studio_tree_nodes(&studio_tree);

    assert_eq!(local.len(), 2);
    assert_eq!(studio.len(), 2);
    assert!(local.contains("ReplicatedStorage/Same"));
    assert!(local.contains("ReplicatedStorage/Same [1]"));
    assert!(compare(&local, &studio).is_clean());
}

#[test]
fn cross_class_duplicate_scripts_keep_both_source_differences() {
    let local_services = vec![parse(
        r#"{
        "class": "Workspace",
        "name": "Workspace",
        "properties": {},
        "children": [{
            "class": "ModuleScript",
            "name": "Shared",
            "properties": { "Source": "return 'disk module'" },
            "children": []
        }, {
            "class": "Script",
            "name": "Shared",
            "properties": { "Source": "return 'same server'" },
            "children": []
        }]
    }"#,
    )];
    let studio_tree = parse(
        r#"{
        "class": "DataModel",
        "name": "game",
        "children": [{
            "class": "Workspace",
            "name": "Workspace",
            "children": [{
                "class": "ModuleScript",
                "name": "Shared",
                "properties": { "Source": "return 'studio module'" },
                "children": []
            }, {
                "class": "Script",
                "name": "Shared",
                "properties": { "Source": "return 'same server'" },
                "children": []
            }]
        }]
    }"#,
    );

    let local = collect_local_nodes(&local_services);
    let studio = collect_studio_tree_nodes(&studio_tree);

    assert_eq!(
        keys(&local),
        vec!["Workspace/Shared", "Workspace/Shared [1]"]
    );
    assert_eq!(
        keys(&studio),
        vec!["Workspace/Shared", "Workspace/Shared [1]"]
    );
    assert_eq!(studio.get("Workspace/Shared").unwrap().source_path, "Workspace/Shared");
    assert_eq!(
        studio.get("Workspace/Shared [1]").unwrap().source_path,
        "Workspace/Shared [1]"
    );

    let report = compare(&local, &studio);
    assert_eq!(report.summary.changed, 1);
    assert_eq!(report.changed[0].path, "Workspace/Shared");
    assert!(report.changed[0].source_changed);
}

#[test]
fn leaf_and_directory_script_shapes_do_not_collapse() {
    let local_services = vec![parse(
        r#"{
        "class": "ReplicatedStorage",
        "name": "ReplicatedStorage",
        "properties": {},
        "children": [{
            "class": "ModuleScript",
            "name": "Package",
            "properties": { "Source": "return 'same leaf'" },
            "children": []
        }, {
            "class": "ModuleScript",
            "name": "Package",
            "properties": { "Source": "return 'disk package'" },
            "children": [{
                "class": "ModuleScript",
                "name": "Child",
                "properties": { "Source": "return true" },
                "children": []
            }]
        }]
    }"#,
    )];
    let studio_tree = parse(
        r#"{
        "class": "DataModel",
        "name": "game",
        "children": [{
            "class": "ReplicatedStorage",
            "name": "ReplicatedStorage",
            "children": [{
                "class": "ModuleScript",
                "name": "Package",
                "properties": { "Source": "return 'same leaf'" },
                "children": []
            }, {
                "class": "ModuleScript",
                "name": "Package",
                "properties": { "Source": "return 'studio package'" },
                "children": [{
                    "class": "ModuleScript",
                    "name": "Child",
                    "properties": { "Source": "return true" },
                    "children": []
                }]
            }]
        }]
    }"#,
    );

    let local = collect_local_nodes(&local_services);
    let studio = collect_studio_tree_nodes(&studio_tree);
    assert_eq!(local.len(), 3);
    assert_eq!(studio.len(), 3);
    assert!(local.contains("ReplicatedStorage/Package"));
    assert!(local.contains("ReplicatedStorage/Package [1]"));
    assert!(local.contains("ReplicatedStorage/Package [1]/Child"));

    let report = compare(&local, &studio);
    assert_eq!(report.summary.changed, 1);
    assert_eq!(report.changed[0].path, "ReplicatedStorage/Package [1]");
    assert!(report.changed[0].source_changed);
}

#[test]
fn duplicate_studio_names_with_distinct_subtrees_ignore_studio_order() {
    let local_services = vec![parse(
        r#"{
        "class": "Workspace",
        "name": "Workspace",
        "properties": {},
        "children": [
            { "class": "Folder", "name": "SellNPC", "properties": {}, "children": [
                { "class": "LocalScript", "name": "Animate", "properties": { "Source": "animate" }, "children": [] }
            ] },
            { "class": "Folder", "name": "SellNPC", "properties": {}, "children": [
                { "class": "Folder", "name": "HumanoidRootPart", "properties": {}, "children": [
                    { "class": "LocalScript", "name": "DialogueDemo", "properties": { "Source": "dialogue" }, "children": [] }
                ] }
            ] }
        ]
    }"#,
    )];
    let studio_tree = parse(
        r#"{
        "class": "DataModel",
        "name": "game",
        "children": [
            { "class": "Workspace", "name": "Workspace", "children": [
                { "class": "Model", "name": "SellNPC", "children": [
                    { "class": "Part", "name": "HumanoidRootPart", "children": [
                        { "class": "LocalScript", "name": "DialogueDemo", "children": [] }
                    ] }
                ] },
                { "class": "Model", "name": "SellNPC", "children": [
                    { "class": "LocalScript", "name": "Animate", "children": [] }
                ] }
            ] }
        ]
    }"#,
    );

    let local = collect_local_nodes(&local_services);
    let mut studio = collect_studio_tree_nodes(&studio_tree);
    set_node_source(&mut studio, "Workspace/SellNPC/Animate", "animate".into());
    set_node_source(
        &mut studio,
        "Workspace/SellNPC [1]/HumanoidRootPart/DialogueDemo",
        "dialogue".into(),
    );

    assert!(studio.contains("Workspace/SellNPC/Animate"));
    assert!(studio.contains("Workspace/SellNPC [1]/HumanoidRootPart/DialogueDemo"));
    assert!(compare(&local, &studio).is_clean());
}






#[test]
fn studio_non_sync_container_with_script_descendant_maps_to_folder() {
    let studio_tree = parse(
        r#"{
        "class": "DataModel",
        "name": "game",
        "children": [
            { "class": "Workspace", "name": "Workspace", "children": [
                { "class": "Part", "name": "ModelRoot", "children": [
                    { "class": "Script", "name": "Runner", "children": [] }
                ] }
            ] }
        ]
    }"#,
    );

    let studio = collect_studio_tree_nodes(&studio_tree);
    assert_eq!(studio.get("Workspace/ModelRoot").unwrap().class, "Folder");
    assert_eq!(studio.get("Workspace/ModelRoot").unwrap().kind, DiffKind::Folder);
    assert_eq!(studio.get("Workspace/ModelRoot/Runner").unwrap().class, "Script");
}

#[test]
fn studio_tree_ignores_unsynced_top_level_services() {
    let studio_tree = parse(
        r#"{
        "class": "DataModel",
        "name": "game",
        "children": [
            { "class": "CoreGui", "name": "CoreGui", "children": [
                { "class": "Folder", "name": "PluginNoise", "children": [] }
            ] },
            { "class": "ReplicatedStorage", "name": "ReplicatedStorage", "children": [
                { "class": "ModuleScript", "name": "Config", "children": [] }
            ] }
        ]
    }"#,
    );

    let studio = collect_studio_tree_nodes(&studio_tree);
    assert!(!studio.contains("CoreGui/PluginNoise"));
    assert_eq!(studio.get("ReplicatedStorage/Config").unwrap().class, "ModuleScript");
}

#[test]
fn studio_tree_ignores_avoid_sync_subtrees() {
    let studio_tree = parse(
        r#"{
        "class": "DataModel",
        "name": "game",
        "children": [
            { "class": "Workspace", "name": "Workspace", "children": [
                { "class": "Folder", "name": "Ignored", "avoidSync": true, "children": [
                    { "class": "Script", "name": "Runner", "children": [] }
                ] },
                { "class": "Folder", "name": "Included", "children": [
                    { "class": "Script", "name": "Runner", "children": [] }
                ] }
            ] }
        ]
    }"#,
    );

    let studio = collect_studio_tree_nodes(&studio_tree);
    assert!(!studio.contains("Workspace/Ignored"));
    assert!(!studio.contains("Workspace/Ignored/Runner"));
    assert_eq!(studio.get("Workspace/Included/Runner").unwrap().class, "Script");
}

#[test]
fn avoid_sync_carrier_reserves_duplicate_sibling_fragment() {
    let studio_tree = parse(
        r#"{
        "class": "DataModel",
        "name": "game",
        "children": [{
            "class": "Workspace",
            "name": "Workspace",
            "children": [{
                "class": "Folder",
                "name": "Shared",
                "children": [{
                    "class": "Script",
                    "name": "Runner",
                    "children": []
                }]
            }, {
                "class": "Folder",
                "name": "Shared",
                "avoidSyncCarrier": true,
                "children": [{
                    "class": "Folder",
                    "name": "Ignored",
                    "avoidSync": true,
                    "children": []
                }]
            }]
        }]
    }"#,
    );

    let studio = collect_studio_tree_nodes(&studio_tree);
    assert!(!studio.contains("Workspace/Shared"));
    assert_eq!(studio.get("Workspace/Shared [1]").unwrap().class, "Folder");
    assert_eq!(studio.get("Workspace/Shared [1]/Runner").unwrap().class, "Script");
}

#[test]
fn detects_truncated_tree_anywhere() {
    let tree = parse(
        r#"{
        "class": "DataModel",
        "name": "game",
        "children": [
            { "class": "Workspace", "name": "Workspace", "truncated": true, "children": [] }
        ]
    }"#,
    );
    let (nodes, ids) = trees(&[tree]);
    assert!(has_truncated_tree(&nodes, ids[0]));
}

#[test]
fn crlf_and_lf_sources_compare_equal() {
    let mut local = TextMap::new();
    local.insert(
        "ServerScriptService/Main".into(),
        DiffNode {
            path: "ServerScriptService/Main".into(),
            source_path: "ServerScriptService/Main".into(),
            class: "Script".into(),
            kind: DiffKind::Script,
            source_hash: Some(normalized_source_hash("print(1)\r\n")),
            stream_id: None,
        },
    );
    let mut studio = TextMap::new();
    studio.insert(
        "ServerScriptService/Main".into(),
        DiffNode {
            path: "ServerScriptService/Main".into(),
            source_path: "ServerScriptService/Main".into(),
            class: "Script".into(),
            kind: DiffKind::Script,
            source_hash: Some(normalized_source_hash("print(1)\n")),
            stream_id: None,
        },
    );

    assert!(compare(&local, &studio).is_clean());
}

#[test]
fn wide_duplicate_trees_prepare_each_sort_signature_once() {
    const WIDTH: usize = 1_024;

    let mut local_tree = Tree::new();
    let service = local_tree.add_node(None, plain("Workspace", "Workspace"));
    for index in 0..WIDTH {
        let container = local_tree.add_node(Some(service), plain("Folder", "Container"));
        local_tree
            .add_node(Some(container), plain("ModuleScript", &format!("Script{index:04}")));
    }
    let mut studio_tree = Tree::new();
    let game = studio_tree.add_node(None, plain("DataModel", "game"));
    let workspace = studio_tree.add_node(Some(game), plain("Workspace", "Workspace"));
    for index in (0..WIDTH).rev() {
        let container = studio_tree.add_node(Some(workspace), plain("Model", "Container"));
        studio_tree
            .add_node(Some(container), plain("ModuleScript", &format!("Script{index:04}")));
    }

    let local = rosync::diff::collect_local_nodes(&local_tree, &[service]);
    let studio = rosync::diff::collect_studio_tree_nodes(&studio_tree, game);

    assert_eq!(local.len(), WIDTH * 2);
    assert_eq!(studio.len(), WIDTH * 2);
    assert!(compare(&local, &studio).is_clean());
    assert!(local.contains("Workspace/Container/Script0000"));
    assert!(local.contains(&format!(
        "Workspace/Container [{}]/Script{:04}",
        WIDTH - 1,
        WIDTH - 1
    )));
    let ordered = snapshot_sibling_order(&local_tree, service);
    assert_eq!(ordered.len(), WIDTH);
    let ordered_script_name = |position: usize| {
        let script = local_tree.nodes[ordered[position]].children[0];
        local_tree.nodes[script].name.clone().unwrap()
    };
    assert_eq!(ordered_script_name(0), "Script0000");
    assert_eq!(
        ordered_script_name(WIDTH - 1),
        format!("Script{:04}", WIDTH - 1)
    );
}

#[test]
fn wide_unique_studio_siblings_collect_without_repeated_name_scans() {
    const WIDTH: usize = 10_000;

    let mut tree = Tree::new();
    let game = tree.add_node(None, plain("DataModel", "game"));
    let service = tree.add_node(Some(game), plain("ReplicatedStorage", "ReplicatedStorage"));
    for index in (0..WIDTH).rev() {
        tree.add_node(Some(service), plain("ModuleScript", &format!("Script{index:05}")));
    }

    let studio = rosync::diff::collect_studio_tree_nodes(&tree, game);

    assert_eq!(studio.len(), WIDTH);
    assert!(studio.contains("ReplicatedStorage/Script00000"));
    assert!(studio.contains(&format!("ReplicatedStorage/Script{:05}", WIDTH - 1)));
}

fn chain(depth: usize) -> (Tree, usize) {
    let mut tree = Tree::new();
    let game = tree.add_node(None, plain("DataModel", "game"));
    let mut parent = tree.add_node(Some(game), plain("Workspace", "Workspace"));
    for index in 0..depth {
        parent = tree.add_node(Some(parent), plain("Model", &format!("Layer{index:04}")));
    }
    tree.add_node(Some(parent), plain("Script", "Leaf"));
    (tree, game)
}

#[test]
fn deep_passthrough_tree_prepares_each_subtree_once() {
    const DEPTH: usize = 384;

    let (tree, game) = chain(DEPTH);
    let studio = rosync::diff::collect_studio_tree_nodes(&tree, game);
    let mut leaf_path = "Workspace".to_string();
    for index in 0..DEPTH {
        leaf_path.push_str(&format!("/Layer{index:04}"));
    }
    leaf_path.push_str("/Leaf");

    assert_eq!(studio.len(), DEPTH + 1);
    assert_eq!(studio.get("Workspace/Layer0000").unwrap().class, "Folder");
    assert_eq!(studio.get(&leaf_path).unwrap().class, "Script");
}

#[test]
fn iterative_cache_and_collection_handle_a_very_deep_chain() {
    const DEPTH: usize = 4_096;

    let (tree, game) = chain(DEPTH);
    let collected = rosync::diff::collect_studio_tree_nodes(&tree, game);
    assert_eq!(collected.len(), DEPTH + 1);
    assert!(collected.entries.iter().any(|entry| entry.1.class == "Script"));
}

#[test]
fn studio_script_paths_pair_each_script_with_the_path_that_studio_knows() {
    let studio = collect_studio_tree_nodes(&parse(
        r#"{ "class": "DataModel", "name": "game", "children": [
            { "class": "ReplicatedStorage", "name": "ReplicatedStorage", "children": [
                { "class": "ModuleScript", "name": "net", "children": [] },
                { "class": "ModuleScript", "name": "Net", "children": [] },
                { "class": "Folder", "name": "Shared", "children": [
                    { "class": "Script", "name": "Main", "children": [] }
                ] }
            ] }
        ] }"#,
    ));
    let paths = studio_script_paths(&studio);
    assert_eq!(
        paths,
        vec![
            ("ReplicatedStorage/Net".to_string(), "ReplicatedStorage/Net".to_string()),
            ("ReplicatedStorage/Shared/Main".to_string(), "ReplicatedStorage/Shared/Main".to_string()),
            ("ReplicatedStorage/net [1]".to_string(), "ReplicatedStorage/net".to_string()),
        ]
    );
}

#[test]
fn a_node_that_is_removed_is_no_longer_compared() {
    let game = parse(
        r#"{ "class": "DataModel", "name": "game", "children": [
            { "class": "ReplicatedStorage", "name": "ReplicatedStorage", "children": [
                { "class": "ModuleScript", "name": "Config", "children": [] }
            ] }
        ] }"#,
    );
    let mut studio = collect_studio_tree_nodes(&game);
    let empty = TextMap::new();
    assert_eq!(compare(&empty, &studio).summary.removed, 1);
    remove_studio_node(&mut studio, "ReplicatedStorage/Config");
    assert!(compare(&empty, &studio).is_clean());
    remove_studio_node(&mut studio, "ReplicatedStorage/Config");
    assert_eq!(studio.len(), 0);
}

#[test]
fn a_changed_class_is_reported_with_both_classes() {
    let local = collect_local_nodes(&[parse(
        r#"{ "class": "ReplicatedStorage", "name": "ReplicatedStorage", "children": [
            { "class": "ModuleScript", "name": "Main", "properties": { "Source": "x" }, "children": [] }
        ] }"#,
    )]);
    let studio = collect_local_nodes(&[parse(
        r#"{ "class": "ReplicatedStorage", "name": "ReplicatedStorage", "children": [
            { "class": "Script", "name": "Main", "properties": { "Source": "x" }, "children": [] }
        ] }"#,
    )]);
    let report = compare(&local, &studio);
    assert_eq!(report.summary.changed, 1);
    assert_eq!(report.changed[0].local_class, "ModuleScript");
    assert_eq!(report.changed[0].studio_class, "Script");
    assert!(report.changed[0].class_changed);
    assert!(!report.changed[0].source_changed);
}

#[test]
fn swapped_sides_give_the_mirrored_report() {
    let node = |path: &str, class: &str, source: Option<&[u8]>| DiffNode {
        path: path.to_string(),
        source_path: path.to_string(),
        class: class.to_string(),
        kind: DiffKind::Script,
        source_hash: source.map(hash),
        stream_id: None,
    };
    let side = |nodes: Vec<DiffNode>| {
        let mut map: TextMap<DiffNode> = TextMap::new();
        for node in nodes {
            map.insert(node.path.clone(), node);
        }
        map
    };
    let a = side(vec![
        node("Workspace/A", "Script", Some(b"1")),
        node("Workspace/B", "Script", Some(b"1")),
        node("Workspace/C", "Script", Some(b"1")),
    ]);
    let b = side(vec![
        node("Workspace/B", "ModuleScript", Some(b"1")),
        node("Workspace/C", "Script", Some(b"2")),
        node("Workspace/D", "Script", None),
    ]);
    let x = compare(&a, &b);
    let y = compare(&b, &a);
    let paths = |items: &[DiffItem]| -> Vec<String> {
        items.iter().map(|item| item.path.clone()).collect()
    };
    assert_eq!(paths(&x.added), ["Workspace/A"]);
    assert_eq!(paths(&x.removed), ["Workspace/D"]);
    assert_eq!(paths(&y.added), paths(&x.removed));
    assert_eq!(paths(&y.removed), paths(&x.added));
    assert_eq!(x.changed.len(), 2);
    assert_eq!(y.changed.len(), 2);
    for (one, other) in x.changed.iter().zip(y.changed.iter()) {
        assert_eq!(one.path, other.path);
        assert_eq!(one.class_changed, other.class_changed);
        assert_eq!(one.source_changed, other.source_changed);
        assert_eq!(one.local_class, other.studio_class);
        assert_eq!(one.studio_class, other.local_class);
    }
}
