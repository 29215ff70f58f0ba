//! What both sides of one service are before their sources are compared.
use std::collections::{HashMap, HashSet};

use vstd::prelude::*;

use crate::diff;
use crate::diff::{collect_local_nodes, collect_studio_services, DiffKind, DiffNode};
use crate::disk_index;
use crate::disk_index::{collect_local_snapshot_entries, LocalSnapshotValue};
use crate::ranking;
use crate::ranking::{rank, Row};
use crate::reservations::ReservationOverlay;
use crate::text::{owned, same};
use crate::text_map::TextMap;
use crate::tree::{Tree, TreeNode};

verus! {

broadcast use vstd::std_specs::hash::group_hash_axioms;

/// The file that corresponds to a node in Studio.
#[derive(Debug)]
pub struct StreamDiskIdentity {
    pub id: u64,
    pub disk_fragment: String,
    pub disk_fragment_is_dir: bool,
}

#[verifier::ext_equal]
pub struct IdentityModel {
    pub id: u64,
    pub disk_fragment: Seq<char>,
    pub disk_fragment_is_dir: bool,
}

impl StreamDiskIdentity {
    pub open spec fn view(&self) -> IdentityModel {
        IdentityModel {
            id: self.id,
            disk_fragment: self.disk_fragment@,
            disk_fragment_is_dir: self.disk_fragment_is_dir,
        }
    }
}

pub open spec fn identity_models(v: Seq<StreamDiskIdentity>) -> Seq<IdentityModel> {
    Seq::new(v.len(), |i: int| v[i]@)
}

/// What is known of both sides once the directory was read.
#[derive(Debug)]
pub struct PreparedComparison {
    pub local_nodes: TextMap<DiffNode>,
    /// The source file of each script on disk, by path.
    pub local_sources: TextMap<String>,
    pub studio_nodes: TextMap<DiffNode>,
    pub studio_paths_by_id: HashMap<u64, String>,
    pub identities: Vec<StreamDiskIdentity>,
    /// Every node in Studio has a corresponding file.
    pub identity_complete: bool,
    pub expected_hash_ids: HashSet<u64>,
}

impl PreparedComparison {
    pub open spec fn wf(&self) -> bool {
        &&& self.local_nodes.wf()
        &&& self.local_sources.wf()
        &&& self.studio_nodes.wf()
        &&& self.expected_hash_ids@.finite()
    }
}

/// Why the two sides cannot be prepared.
#[derive(Debug, Clone, Copy, PartialEq, Eq, Structural)]
pub enum PrepareProblem {
    /// A script on disk has no id.
    NoStreamId,
    /// No file holds the source of the script with this id.
    NoSourceFile(u64),
    /// No compared path belongs to the script in Studio with this id.
    NoStudioPath(u64),
}

pub open spec fn texts_by_id(m: Map<u64, String>) -> Map<u64, Seq<char>> {
    Map::new(|k: u64| m.contains_key(k), |k: u64| m[k]@)
}

pub open spec fn texts_by_path(m: TextMap<String>) -> Map<Seq<char>, Seq<char>> {
    Map::new(|k: Seq<char>| m@.contains_key(k), |k: Seq<char>| m@[k]@)
}

/// What is wrong with the nodes on disk from the `k`-th on.
pub open spec fn source_problem(
    keys: Seq<Seq<char>>,
    local: Map<Seq<char>, diff::NodeModel>,
    sources: Map<u64, Seq<char>>,
    k: int,
) -> Option<PrepareProblem>
    decreases keys.len() - k,
{
    if k < 0 || k >= keys.len() {
        None
    } else {
        let node = local[keys[k]];
        if node.kind != DiffKind::Script {
            source_problem(keys, local, sources, k + 1)
        } else {
            match node.stream_id {
                None => Some(PrepareProblem::NoStreamId),
                Some(id) => if !sources.contains_key(id) {
                    Some(PrepareProblem::NoSourceFile(id))
                } else {
                    source_problem(keys, local, sources, k + 1)
                },
            }
        }
    }
}

/// The source files of the scripts among the first `n` nodes on disk.
pub open spec fn sources_by_path(
    keys: Seq<Seq<char>>,
    local: Map<Seq<char>, diff::NodeModel>,
    sources: Map<u64, Seq<char>>,
    n: int,
) -> Map<Seq<char>, Seq<char>>
    decreases n,
{
    if n <= 0 {
        Map::empty()
    } else {
        let before = sources_by_path(keys, local, sources, n - 1);
        let node = local[keys[n - 1]];
        if node.kind != DiffKind::Script {
            before
        } else {
            before.insert(node.path, sources[node.stream_id->0])
        }
    }
}

/// The paths of the first `n` nodes in Studio by id.
pub open spec fn paths_by_id(
    keys: Seq<Seq<char>>,
    studio: Map<Seq<char>, diff::NodeModel>,
    n: int,
) -> Map<u64, Seq<char>>
    decreases n,
{
    if n <= 0 {
        Map::empty()
    } else {
        let before = paths_by_id(keys, studio, n - 1);
        match studio[keys[n - 1]].stream_id {
            Some(id) => before.insert(id, keys[n - 1]),
            None => before,
        }
    }
}

/// The file that corresponds to the Studio node at `path`.
pub open spec fn identity_at(
    path: Seq<char>,
    studio: Map<Seq<char>, diff::NodeModel>,
    local: Map<Seq<char>, diff::NodeModel>,
    places: Map<Seq<char>, disk_index::PlaceModel>,
    t: Seq<TreeNode>,
) -> Option<IdentityModel> {
    let node = studio[path];
    let place = places[path];
    if node.stream_id is None || !local.contains_key(path) || local[path].class != node.class
        || local[path].kind != node.kind || !places.contains_key(path) || place.disk_path.len() == 0
        || !(0 <= place.node < t.len()) || t[place.node].disk_fragment_is_dir is None {
        None
    } else {
        Some(
            IdentityModel {
                id: node.stream_id->0,
                disk_fragment: place.disk_path.last(),
                disk_fragment_is_dir: t[place.node].disk_fragment_is_dir->0,
            },
        )
    }
}

/// The files that correspond to the first `n` Studio nodes.
pub open spec fn identities_of(
    keys: Seq<Seq<char>>,
    studio: Map<Seq<char>, diff::NodeModel>,
    local: Map<Seq<char>, diff::NodeModel>,
    places: Map<Seq<char>, disk_index::PlaceModel>,
    t: Seq<TreeNode>,
    n: int,
) -> Seq<IdentityModel>
    decreases n,
{
    if n <= 0 {
        Seq::empty()
    } else {
        let before = identities_of(keys, studio, local, places, t, n - 1);
        match identity_at(keys[n - 1], studio, local, places, t) {
            Some(identity) => before.push(identity),
            None => before,
        }
    }
}

/// A number as bytes that order as it does.
pub open spec fn id_key(x: u64) -> Seq<u8> {
    seq![
        (x / 72057594037927936) as u8,
        ((x / 281474976710656) % 256) as u8,
        ((x / 1099511627776) % 256) as u8,
        ((x / 4294967296) % 256) as u8,
        ((x / 16777216) % 256) as u8,
        ((x / 65536) % 256) as u8,
        ((x / 256) % 256) as u8,
        (x % 256) as u8,
    ]
}

pub(crate) fn key_of_id(x: u64) -> (key: Vec<u8>)
    ensures
        key@ == id_key(x),
{
    let mut key: Vec<u8> = Vec::new();
    key.push((x / 72057594037927936) as u8);
    key.push(((x / 281474976710656) % 256) as u8);
    key.push(((x / 1099511627776) % 256) as u8);
    key.push(((x / 4294967296) % 256) as u8);
    key.push(((x / 16777216) % 256) as u8);
    key.push(((x / 65536) % 256) as u8);
    key.push(((x / 256) % 256) as u8);
    key.push((x % 256) as u8);
    proof {
        assert(key@ =~= id_key(x));
    }
    key
}

pub open spec fn id_rows(s: Seq<IdentityModel>) -> Seq<ranking::RowModel> {
    Seq::new(
        s.len(),
        |i: int| ranking::RowModel { key: id_key(s[i].id), content: Seq::empty() },
    )
}

pub open spec fn by_id(s: Seq<IdentityModel>) -> Seq<IdentityModel> {
    let order = ranking::ranking(id_rows(s));
    Seq::new(order.len(), |i: int| s[order[i]])
}

fn sort_identities(found: Vec<StreamDiskIdentity>) -> (out: Vec<StreamDiskIdentity>)
    ensures
        identity_models(out@) == by_id(identity_models(found@)),
{
    let ghost whole = identity_models(found@);
    let mut rows: Vec<Row> = Vec::new();
    let mut i: usize = 0;
    while i < found.len()
        invariant
            i <= found@.len(),
            rows@.len() == i,
            whole == identity_models(found@),
            forall|j: int| 0 <= j < i ==> (#[trigger] rows@[j])@ == id_rows(whole)[j],
        decreases found@.len() - i,
    {
        let row = Row { key: key_of_id(found[i].id), content: Vec::new() };
        proof {
            assert(row@.content =~= Seq::<u8>::empty());
        }
        rows.push(row);
        i += 1;
    }
    proof {
        assert(ranking::models(rows@) =~= id_rows(whole));
    }
    let order = rank(&rows);
    let ghost r = ranking::ranking(id_rows(whole));
    let mut out: Vec<StreamDiskIdentity> = Vec::new();
    let mut k: usize = 0;
    while k < order.len()
        invariant
            k <= order@.len(),
            out@.len() == k,
            order@.len() == r.len(),
            r.len() == found@.len(),
            whole == identity_models(found@),
            forall|j: int| 0 <= j < order@.len() ==> (#[trigger] order@[j]) as int == r[j],
            forall|j: int| 0 <= j < order@.len() ==> (#[trigger] order@[j]) < found@.len(),
            forall|j: int| 0 <= j < k ==> (#[trigger] out@[j])@ == whole[r[j]],
        decreases order@.len() - k,
    {
        let e = &found[order[k]];
        out.push(
            StreamDiskIdentity {
                id: e.id,
                disk_fragment: owned(e.disk_fragment.as_str()),
                disk_fragment_is_dir: e.disk_fragment_is_dir,
            },
        );
        k += 1;
    }
    proof {
        assert(identity_models(out@) =~= by_id(whole));
    }
    out
}

/// The source files of the scripts on disk by path.
fn stage_sources(local: &TextMap<DiffNode>, sources: &HashMap<u64, String>) -> (r: Result<
    TextMap<String>,
    PrepareProblem,
>)
    requires
        local.wf(),
    ensures
        ({
            let keys = local.keys();
            let nodes = diff::nodes_of(*local);
            let files = texts_by_id(sources@);
            match r {
                Err(p) => source_problem(keys, nodes, files, 0) == Some(p),
                Ok(out) => {
                    &&& source_problem(keys, nodes, files, 0) is None
                    &&& out.wf()
                    &&& texts_by_path(out) == sources_by_path(
                        keys,
                        nodes,
                        files,
                        keys.len() as int,
                    )
                },
            }
        }),
{
    let ghost keys = local.keys();
    let ghost nodes = diff::nodes_of(*local);
    let ghost files = texts_by_id(sources@);
    let mut out: TextMap<String> = TextMap::new();
    let mut k: usize = 0;
    proof {
        assert(texts_by_path(out) =~= sources_by_path(keys, nodes, files, 0));
    }
    while k < local.entries.len()
        invariant
            local.wf(),
            keys == local.keys(),
            nodes == diff::nodes_of(*local),
            files == texts_by_id(sources@),
            k <= local.entries@.len(),
            out.wf(),
            source_problem(keys, nodes, files, 0) == source_problem(keys, nodes, files, k as int),
            texts_by_path(out) == sources_by_path(keys, nodes, files, k as int),
        decreases local.entries@.len() - k,
    {
        proof {
            local.lemma_at(k as int);
        }
        let node = &local.entries[k].1;
        proof {
            assert(nodes[keys[k as int]] == node@);
        }
        if node.kind == DiffKind::Script {
            let id: u64 = match node.stream_id {
                None => return Err(PrepareProblem::NoStreamId),
                Some(id) => id,
            };
            match sources.get(&id) {
                None => return Err(PrepareProblem::NoSourceFile(id)),
                Some(source) => {
                    let ghost before = texts_by_path(out);
                    out.insert(owned(node.path.as_str()), owned(source.as_str()));
                    proof {
                        assert(texts_by_path(out) =~= before.insert(node.path@, files[id]));
                    }
                },
            }
        }
        k += 1;
    }
    Ok(out)
}

fn index_paths(studio: &TextMap<DiffNode>) -> (out: HashMap<u64, String>)
    requires
        studio.wf(),
    ensures
        texts_by_id(out@) == paths_by_id(
            studio.keys(),
            diff::nodes_of(*studio),
            studio.keys().len() as int,
        ),
{
    let ghost keys = studio.keys();
    let ghost nodes = diff::nodes_of(*studio);
    let mut out: HashMap<u64, String> = HashMap::new();
    let mut k: usize = 0;
    proof {
        assert(texts_by_id(out@) =~= paths_by_id(keys, nodes, 0));
    }
    while k < studio.entries.len()
        invariant
            studio.wf(),
            keys == studio.keys(),
            nodes == diff::nodes_of(*studio),
            k <= studio.entries@.len(),
            texts_by_id(out@) == paths_by_id(keys, nodes, k as int),
        decreases studio.entries@.len() - k,
    {
        proof {
            studio.lemma_at(k as int);
            assert(nodes[keys[k as int]] == studio.entries@[k as int].1@);
        }
        if let Some(id) = studio.entries[k].1.stream_id {
            let ghost before = texts_by_id(out@);
            let path = owned(studio.entries[k].0.as_str());
            out.insert(id, path);
            proof {
                assert(texts_by_id(out@) =~= before.insert(id, keys[k as int]));
            }
        }
        k += 1;
    }
    out
}

fn identify(
    path: &str,
    node: &DiffNode,
    local: &TextMap<DiffNode>,
    places: &TextMap<LocalSnapshotValue>,
    t: &Tree,
    Ghost(studio): Ghost<Map<Seq<char>, diff::NodeModel>>,
) -> (r: Option<StreamDiskIdentity>)
    requires
        local.wf(),
        places.wf(),
        studio[path@] == node@,
    ensures
        ({
            let want = identity_at(
                path@,
                studio,
                diff::nodes_of(*local),
                disk_index::places_of(*places),
                t.nodes@,
            );
            match r {
                Some(identity) => want == Some(identity@),
                None => want is None,
            }
        }),
{
    let id: u64 = match node.stream_id {
        None => return None,
        Some(id) => id,
    };
    let twin = match local.get(path) {
        None => return None,
        Some(twin) => twin,
    };
    if !same(twin.class.as_str(), node.class.as_str()) || twin.kind != node.kind {
        return None;
    }
    let place = match places.get(path) {
        None => return None,
        Some(place) => place,
    };
    let n: usize = place.disk_path.len();
    if n == 0 || place.node >= t.nodes.len() {
        return None;
    }
    match t.nodes[place.node].disk_fragment_is_dir {
        None => None,
        Some(is_dir) => Some(
            StreamDiskIdentity {
                id,
                disk_fragment: owned(place.disk_path[n - 1].as_str()),
                disk_fragment_is_dir: is_dir,
            },
        ),
    }
}

fn collect_ids(ids: &Vec<u64>) -> (out: HashSet<u64>)
    ensures
        out@ == ids@.to_set(),
        out@.finite(),
{
    let mut out: HashSet<u64> = HashSet::new();
    let mut k: usize = 0;
    proof {
        assert(out@ =~= ids@.take(0).to_set());
    }
    while k < ids.len()
        invariant
            k <= ids@.len(),
            out@ == ids@.take(k as int).to_set(),
            out@.finite(),
        decreases ids@.len() - k,
    {
        let ghost before = ids@.take(k as int);
        out.insert(ids[k]);
        proof {
            let after = ids@.take(k + 1);
            assert(after =~= before.push(ids@[k as int]));
            assert forall|x: u64| after.to_set().contains(x) == before.to_set().insert(
                ids@[k as int],
            ).contains(x) by {
                if before.contains(x) {
                    let i = choose|i: int| 0 <= i < before.len() && before[i] == x;
                    assert(after[i] == x);
                }
                if after.contains(x) {
                    let i = choose|i: int| 0 <= i < after.len() && after[i] == x;
                    if i < before.len() {
                        assert(before[i] == x);
                    }
                }
                assert(after[k as int] == ids@[k as int]);
            }
            assert(after.to_set() =~= before.to_set().insert(ids@[k as int]));
        }
        k += 1;
    }
    proof {
        assert(ids@.take(k as int) =~= ids@);
    }
    out
}

/// The first id that has no path.
pub open spec fn pathless_from(ids: Seq<u64>, paths: Map<u64, Seq<char>>, k: int) -> Option<u64>
    decreases ids.len() - k,
{
    if k < 0 || k >= ids.len() {
        None
    } else if !paths.contains_key(ids[k]) {
        Some(ids[k])
    } else {
        pathless_from(ids, paths, k + 1)
    }
}

/// Prepares the comparison of the service at the root of the tree from disk, over
/// which Studio's markers were laid, with the one at the root of Studio's.
/// `sources` holds the source files by id, `script_ids` the scripts in Studio.
pub fn prepare_streamed_initial_service_comparison(
    laid: &ReservationOverlay,
    sources: &HashMap<u64, String>,
    script_ids: &Vec<u64>,
) -> (r: Result<PreparedComparison, PrepareProblem>)
    requires
        laid.wf(),
        laid.stack@.len() == 0,
        laid.local.nodes@.len() > 0,
        laid.studio.nodes@.len() > 0,
    ensures
        ({
            let local_nodes = diff::recorded(diff::local_visits(laid.local.nodes@, seq![0usize]));
            let studio_nodes = diff::recorded(diff::synced_visits(laid.studio.nodes@, seq![0usize]));
            let places = disk_index::placed(
                disk_index::service_places(laid.local.nodes@, seq![0usize]),
            );
            match r {
                Ok(p) => {
                    let keys = p.studio_nodes.keys();
                    let count = keys.len() as int;
                    let paths = paths_by_id(keys, studio_nodes, count);
                    let found = identities_of(
                        keys,
                        studio_nodes,
                        local_nodes,
                        places,
                        laid.local.nodes@,
                        count,
                    );
                    &&& p.wf()
                    &&& diff::nodes_of(p.local_nodes) == local_nodes
                    &&& diff::nodes_of(p.studio_nodes) == studio_nodes
                    &&& source_problem(
                        p.local_nodes.keys(),
                        local_nodes,
                        texts_by_id(sources@),
                        0,
                    ) is None
                    &&& texts_by_path(p.local_sources) == sources_by_path(
                        p.local_nodes.keys(),
                        local_nodes,
                        texts_by_id(sources@),
                        p.local_nodes.keys().len() as int,
                    )
                    &&& texts_by_id(p.studio_paths_by_id@) == paths
                    &&& identity_models(p.identities@) == by_id(found)
                    &&& p.identity_complete == (found.len() == count)
                    &&& p.expected_hash_ids@ == script_ids@.to_set()
                    &&& pathless_from(script_ids@, paths, 0) is None
                },
                Err(problem) => exists|l: TextMap<DiffNode>, s: TextMap<DiffNode>|
                    #![trigger diff::nodes_of(l), diff::nodes_of(s)]
                    {
                        &&& l.wf() && diff::nodes_of(l) == local_nodes
                        &&& s.wf() && diff::nodes_of(s) == studio_nodes
                        &&& match source_problem(
                            l.keys(),
                            local_nodes,
                            texts_by_id(sources@),
                            0,
                        ) {
                            Some(p) => problem == p,
                            None => pathless_from(
                                script_ids@,
                                paths_by_id(s.keys(), studio_nodes, s.keys().len() as int),
                                0,
                            ) is Some && problem == PrepareProblem::NoStudioPath(
                                pathless_from(
                                    script_ids@,
                                    paths_by_id(s.keys(), studio_nodes, s.keys().len() as int),
                                    0,
                                )->0,
                            ),
                        }
                    },
            }
        }),
{
    let local = &laid.local;
    let studio = &laid.studio;
    let roots: [usize; 1] = [0];
    proof {
        assert(roots@ =~= seq![0usize]);
    }
    let local_nodes = collect_local_nodes(local, &roots);
    let studio_nodes = collect_studio_services(studio, &roots);
    let local_sources = match stage_sources(&local_nodes, sources) {
        Err(p) => return Err(p),
        Ok(staged) => staged,
    };
    let studio_paths_by_id = index_paths(&studio_nodes);
    let places = collect_local_snapshot_entries(local, &roots);
    let ghost keys = studio_nodes.keys();
    let ghost studio_map = diff::nodes_of(studio_nodes);
    let ghost local_map = diff::nodes_of(local_nodes);
    let ghost place_map = disk_index::places_of(places);
    let mut found: Vec<StreamDiskIdentity> = Vec::new();
    let mut k: usize = 0;
    proof {
        assert(identity_models(found@) =~= Seq::<IdentityModel>::empty());
    }
    while k < studio_nodes.entries.len()
        invariant
            *local == laid.local,
            *studio == laid.studio,
            studio_nodes.wf(),
            local_nodes.wf(),
            places.wf(),
            keys == studio_nodes.keys(),
            studio_map == diff::nodes_of(studio_nodes),
            local_map == diff::nodes_of(local_nodes),
            place_map == disk_index::places_of(places),
            k <= studio_nodes.entries@.len(),
            found@.len() <= k,
            identity_models(found@) == identities_of(
                keys,
                studio_map,
                local_map,
                place_map,
                local.nodes@,
                k as int,
            ),
        decreases studio_nodes.entries@.len() - k,
    {
        proof {
            studio_nodes.lemma_at(k as int);
            assert(studio_map[keys[k as int]] == studio_nodes.entries@[k as int].1@);
        }
        let entry = &studio_nodes.entries[k];
        let ghost before = found@;
        if let Some(identity) = identify(
            entry.0.as_str(),
            &entry.1,
            &local_nodes,
            &places,
            local,
            Ghost(studio_map),
        ) {
            found.push(identity);
            proof {
                assert(identity_models(found@) =~= identity_models(before).push(
                    found@.last()@,
                ));
            }
        }
        k += 1;
    }
    proof {
        assert(identity_models(found@).len() == found@.len());
    }
    let identity_complete = found.len() == studio_nodes.entries.len();
    let identities = sort_identities(found);
    let mut j: usize = 0;
    let ghost paths = texts_by_id(studio_paths_by_id@);
    while j < script_ids.len()
        invariant
            *local == laid.local,
            *studio == laid.studio,
            j <= script_ids@.len(),
            paths == texts_by_id(studio_paths_by_id@),
            pathless_from(script_ids@, paths, 0) == pathless_from(script_ids@, paths, j as int),
            studio_nodes.wf(),
            local_nodes.wf(),
            diff::nodes_of(local_nodes) == diff::recorded(
                diff::local_visits(local.nodes@, seq![0usize]),
            ),
            diff::nodes_of(studio_nodes) == diff::recorded(
                diff::synced_visits(studio.nodes@, seq![0usize]),
            ),
            paths == paths_by_id(
                studio_nodes.keys(),
                diff::nodes_of(studio_nodes),
                studio_nodes.keys().len() as int,
            ),
            source_problem(
                local_nodes.keys(),
                diff::nodes_of(local_nodes),
                texts_by_id(sources@),
                0,
            ) is None,
        decreases script_ids@.len() - j,
    {
        if studio_paths_by_id.get(&script_ids[j]).is_none() {
            return Err(PrepareProblem::NoStudioPath(script_ids[j]));
        }
        j += 1;
    }
    Ok(
        PreparedComparison {
            local_nodes,
            local_sources,
            studio_nodes,
            studio_paths_by_id,
            identities,
            identity_complete,
            expected_hash_ids: collect_ids(script_ids),
        },
    )
}

} // verus!
