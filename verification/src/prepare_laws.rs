//! What holds of the preparation of a comparison and of what both sides agree on.
use vstd::prelude::*;

use crate::baselines;
use crate::baselines::StagedScriptBaseline;
use crate::conflict::EngineModel;
use crate::diff::{DiffKind, NodeModel};
use crate::disk_index::PlaceModel;
use crate::fs_map;
use crate::fs_safety;
use crate::fs_safety::{SafeEntryKind, TreeGeneration};
use crate::path_text;
use crate::preparation;
use crate::preparation::IdentityModel;
use crate::ranking;
use crate::sync_scope;
use crate::tree::TreeNode;

verus! {

/// The sources of a service can be staged exactly where every script on disk has an
/// id with a file.
pub proof fn law_every_script_needs_a_file(
    keys: Seq<Seq<char>>,
    local: Map<Seq<char>, NodeModel>,
    sources: Map<u64, Seq<char>>,
    from: int,
)
    requires
        0 <= from,
    ensures
        preparation::source_problem(keys, local, sources, from) is None <==> forall|k: int|
            from <= k < keys.len() && local[#[trigger] keys[k]].kind == DiffKind::Script
                ==> local[keys[k]].stream_id is Some && sources.contains_key(
                local[keys[k]].stream_id->0,
            ),
    decreases keys.len() - from,
{
    if from < keys.len() {
        law_every_script_needs_a_file(keys, local, sources, from + 1);
        let node = local[keys[from]];
    }
}

/// Each script on disk is staged with the file of its id, under its path.
pub proof fn law_scripts_are_staged_with_their_files(
    keys: Seq<Seq<char>>,
    local: Map<Seq<char>, NodeModel>,
    sources: Map<u64, Seq<char>>,
    n: int,
    k: int,
)
    requires
        0 <= k < n <= keys.len(),
        forall|j: int| 0 <= j < keys.len() ==> local[#[trigger] keys[j]].path == keys[j],
        forall|i: int, j: int| 0 <= i < j < keys.len() ==> #[trigger] keys[i] != #[trigger] keys[j],
    ensures
        ({
            let staged = preparation::sources_by_path(keys, local, sources, n);
            let node = local[keys[k]];
            &&& staged.contains_key(keys[k]) <==> node.kind == DiffKind::Script
            &&& node.kind == DiffKind::Script ==> staged[keys[k]] == sources[node.stream_id->0]
        }),
    decreases n,
{
    if k < n - 1 {
        law_scripts_are_staged_with_their_files(keys, local, sources, n - 1, k);
        assert(keys[k] != keys[n - 1]);
    } else {
        lemma_not_staged(keys, local, sources, n - 1, keys[k]);
    }
    assert(local[keys[n - 1]].path == keys[n - 1]);
}

proof fn lemma_not_staged(
    keys: Seq<Seq<char>>,
    local: Map<Seq<char>, NodeModel>,
    sources: Map<u64, Seq<char>>,
    n: int,
    path: Seq<char>,
)
    requires
        0 <= n < keys.len(),
        path == keys[n],
        forall|j: int| 0 <= j < keys.len() ==> local[#[trigger] keys[j]].path == keys[j],
        forall|i: int, j: int| 0 <= i < j < keys.len() ==> #[trigger] keys[i] != #[trigger] keys[j],
    ensures
        !preparation::sources_by_path(keys, local, sources, n).contains_key(path),
{
    lemma_not_staged_upto(keys, local, sources, n, n);
}

proof fn lemma_not_staged_upto(
    keys: Seq<Seq<char>>,
    local: Map<Seq<char>, NodeModel>,
    sources: Map<u64, Seq<char>>,
    n: int,
    m: int,
)
    requires
        0 <= m <= n < keys.len(),
        forall|j: int| 0 <= j < keys.len() ==> local[#[trigger] keys[j]].path == keys[j],
        forall|i: int, j: int| 0 <= i < j < keys.len() ==> #[trigger] keys[i] != #[trigger] keys[j],
    ensures
        !preparation::sources_by_path(keys, local, sources, m).contains_key(keys[n]),
    decreases m,
{
    if m > 0 {
        lemma_not_staged_upto(keys, local, sources, n, m - 1);
        assert(keys[m - 1] != keys[n]);
        assert(local[keys[m - 1]].path == keys[m - 1]);
    }
}

/// Each id of a node in Studio leads to the path of that node.
pub proof fn law_ids_lead_to_their_paths(
    keys: Seq<Seq<char>>,
    studio: Map<Seq<char>, NodeModel>,
    n: int,
    k: int,
)
    requires
        0 <= k < n <= keys.len(),
        studio[keys[k]].stream_id is Some,
        forall|j: int|
            0 <= j < n && j != k ==> studio[#[trigger] keys[j]].stream_id
                != studio[keys[k]].stream_id,
    ensures
        ({
            let paths = preparation::paths_by_id(keys, studio, n);
            let id = studio[keys[k]].stream_id->0;
            paths.contains_key(id) && paths[id] == keys[k]
        }),
    decreases n,
{
    if k < n - 1 {
        law_ids_lead_to_their_paths(keys, studio, n - 1, k);
        assert(studio[keys[n - 1]].stream_id != studio[keys[k]].stream_id);
    }
}

/// A node in Studio is identified with a file exactly where the disk has a node of the
/// same class and kind at its path, with a known place; the identity names that file.
pub proof fn law_node_is_identified_with_its_file(
    path: Seq<char>,
    studio: Map<Seq<char>, NodeModel>,
    local: Map<Seq<char>, NodeModel>,
    places: Map<Seq<char>, PlaceModel>,
    t: Seq<TreeNode>,
)
    ensures
        ({
            let found = preparation::identity_at(path, studio, local, places, t);
            let node = studio[path];
            let place = places[path];
            let known = node.stream_id is Some && local.contains_key(path) && local[path].class
                == node.class && local[path].kind == node.kind && places.contains_key(path)
                && place.disk_path.len() > 0 && 0 <= place.node < t.len()
                && t[place.node].disk_fragment_is_dir is Some;
            &&& found is Some <==> known
            &&& found matches Some(i) ==> Some(i.id) == node.stream_id && i.disk_fragment
                == place.disk_path[place.disk_path.len() - 1] && Some(i.disk_fragment_is_dir)
                == t[place.node].disk_fragment_is_dir
        }),
{
}

proof fn lemma_identities(
    keys: Seq<Seq<char>>,
    studio: Map<Seq<char>, NodeModel>,
    local: Map<Seq<char>, NodeModel>,
    places: Map<Seq<char>, PlaceModel>,
    t: Seq<TreeNode>,
    n: int,
    x: IdentityModel,
)
    requires
        0 <= n <= keys.len(),
    ensures
        preparation::identities_of(keys, studio, local, places, t, n).contains(x) <==> exists|k: int|
            0 <= k < n && preparation::identity_at(#[trigger] keys[k], studio, local, places, t)
                == Some(x),
        preparation::identities_of(keys, studio, local, places, t, n).len() <= n,
        preparation::identities_of(keys, studio, local, places, t, n).len() == n <==> forall|k: int|
            0 <= k < n ==> preparation::identity_at(#[trigger] keys[k], studio, local, places, t)
                is Some,
    decreases n,
{
    if n > 0 {
        lemma_identities(keys, studio, local, places, t, n - 1, x);
        let before = preparation::identities_of(keys, studio, local, places, t, n - 1);
        let all = preparation::identities_of(keys, studio, local, places, t, n);
        if let Some(y) = preparation::identity_at(keys[n - 1], studio, local, places, t) {
            assert(all[before.len() as int] == y);
            if before.contains(x) {
                let i = choose|i: int| 0 <= i < before.len() && before[i] == x;
                assert(all[i] == x);
            }
            if all.contains(x) && x != y {
                let i = choose|i: int| 0 <= i < all.len() && all[i] == x;
                assert(before[i] == x);
            }
        }
    }
}

/// The identities that are sent are those of the nodes that have one, and they are
/// complete exactly where every node has.
pub proof fn law_every_identity_is_sent(
    keys: Seq<Seq<char>>,
    studio: Map<Seq<char>, NodeModel>,
    local: Map<Seq<char>, NodeModel>,
    places: Map<Seq<char>, PlaceModel>,
    t: Seq<TreeNode>,
    x: IdentityModel,
)
    ensures
        ({
            let found = preparation::identities_of(
                keys,
                studio,
                local,
                places,
                t,
                keys.len() as int,
            );
            &&& preparation::by_id(found).len() == found.len()
            &&& preparation::by_id(found).contains(x) <==> exists|k: int|
                0 <= k < keys.len() && preparation::identity_at(
                    #[trigger] keys[k],
                    studio,
                    local,
                    places,
                    t,
                ) == Some(x)
            &&& found.len() == keys.len() <==> forall|k: int|
                0 <= k < keys.len() ==> preparation::identity_at(
                    #[trigger] keys[k],
                    studio,
                    local,
                    places,
                    t,
                ) is Some
        }),
{
    let found = preparation::identities_of(keys, studio, local, places, t, keys.len() as int);
    lemma_identities(keys, studio, local, places, t, keys.len() as int, x);
    let rows = preparation::id_rows(found);
    ranking::lemma_ranking(rows);
    let order = ranking::ranking(rows);
    let all = preparation::by_id(found);
    if found.contains(x) {
        let at = choose|at: int| 0 <= at < found.len() && found[at] == x;
        assert(order.contains(at));
        let i = choose|i: int| 0 <= i < order.len() && order[i] == at;
        assert(all[i] == x);
    }
    if all.contains(x) {
        let i = choose|i: int| 0 <= i < all.len() && all[i] == x;
        assert(found[order[i]] == x);
    }
}

/// No id is without a path exactly where each has one.
pub proof fn law_every_script_id_needs_a_path(ids: Seq<u64>, paths: Map<u64, Seq<char>>, from: int)
    requires
        0 <= from,
    ensures
        preparation::pathless_from(ids, paths, from) is None <==> forall|k: int|
            from <= k < ids.len() ==> paths.contains_key(#[trigger] ids[k]),
        preparation::pathless_from(ids, paths, from) matches Some(id) ==> !paths.contains_key(id)
            && ids.contains(id),
    decreases ids.len() - from,
{
    if from < ids.len() {
        law_every_script_id_needs_a_path(ids, paths, from + 1);
        assert(ids.contains(ids[from]));
    }
}

/// The first service that changed is found, and none where none did.
pub proof fn law_changed_service_is_found(
    expected: Seq<TreeGeneration>,
    current: Seq<TreeGeneration>,
    from: int,
)
    requires
        0 <= from,
    ensures
        match baselines::first_changed(expected, current, from) {
            None => forall|k: int|
                from <= k < expected.len() ==> (#[trigger] expected[k])@ == current[k]@,
            Some(k) => from <= k < expected.len() && expected[k]@ != current[k]@ && forall|j: int|
                from <= j < k ==> (#[trigger] expected[j])@ == current[j]@,
        },
    decreases expected.len() - from,
{
    if from < expected.len() {
        law_changed_service_is_found(expected, current, from + 1);
    }
}

/// The fence holds exactly where the services are the synced ones in their order and
/// none changed.
pub proof fn law_fence_holds_for_unchanged_services(
    expected: Seq<TreeGeneration>,
    current: Seq<TreeGeneration>,
    from: int,
)
    requires
        0 <= from,
    ensures
        baselines::fence_problem(expected, current, from) is None <==> forall|k: int|
            from <= k < expected.len() ==> Some((#[trigger] expected[k]).service@)
                == sync_scope::service_text(k) && current[k]@ == expected[k]@,
    decreases expected.len() - from,
{
    if from < expected.len() {
        law_fence_holds_for_unchanged_services(expected, current, from + 1);
    }
}

/// What was staged last for a path is what both sides agree on there; other paths and
/// the conflicts are left as they were.
pub proof fn law_staged_contents_are_agreed_on(
    s: EngineModel,
    staged: Seq<StagedScriptBaseline>,
    n: int,
    path: Seq<char>,
    k: int,
)
    requires
        0 <= n <= staged.len(),
        k < n,
        0 <= k ==> path_text::plain(staged[k].path@) == path,
        forall|j: int|
            k < j < n && 0 <= j ==> path_text::plain((#[trigger] staged[j]).path@) != path,
    ensures
        ({
            let after = baselines::recorded_baselines(s, staged, n);
            &&& after.conflicts == s.conflicts
            &&& 0 <= k ==> after.baselines.contains_key(path) && after.baselines[path] == (
                staged[k].source_hash@,
                staged[k].fs_mtime,
            )
            &&& k < 0 ==> after.baselines.contains_key(path) == s.baselines.contains_key(path) && (
            s.baselines.contains_key(path) ==> after.baselines[path] == s.baselines[path])
        }),
    decreases n,
{
    if n > 0 {
        if k == n - 1 {
            lemma_conflicts_stay(s, staged, n - 1);
        } else {
            law_staged_contents_are_agreed_on(s, staged, n - 1, path, k);
        }
    }
}

proof fn lemma_conflicts_stay(s: EngineModel, staged: Seq<StagedScriptBaseline>, n: int)
    ensures
        baselines::recorded_baselines(s, staged, n).conflicts == s.conflicts,
    decreases n,
{
    if n > 0 {
        lemma_conflicts_stay(s, staged, n - 1);
    }
}

/// Both sides agree on the contents of scripts: of every file with the name of one.
pub proof fn law_scripts_are_agreed_on(e: fs_safety::TreeEntryModel, name: Seq<char>)
    ensures
        baselines::is_seeded(e, name) <==> e.kind == SafeEntryKind::File && (
        ".luau"@.is_suffix_of(name) || ".lua"@.is_suffix_of(name)),
{
    fs_map::law_file_name_tells_the_class(name);
}

} // verus!
