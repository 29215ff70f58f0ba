//! What a comparison takes from a tree: which nodes take part, under which paths
//! they are compared, and that none of them is lost.
use vstd::prelude::*;
use vstd::utf8::*;

use crate::conflict;
use crate::decimal;
use crate::diff;
use crate::diff::{DiffKind, NodeModel};
use crate::fs_map;
use crate::ranking;
use crate::survey;
use crate::survey::TreeFlavor;
use crate::sync_scope;
use crate::text;
use crate::tree;
use crate::tree::TreeNode;

verus! {

/// Whether each of the nodes is a child of the one before.
pub open spec fn is_descent(t: Seq<TreeNode>, down: Seq<int>) -> bool {
    &&& down.len() > 0
    &&& forall|k: int| 0 <= k < down.len() ==> 0 <= #[trigger] down[k] < t.len()
    &&& forall|k: int|
        0 <= k < down.len() - 1 ==> t[#[trigger] down[k]].children@.contains(down[k + 1] as usize)
}

/// Whether a node of a Studio tree may be looked at: it has a class that Studio
/// does not manage itself, and is not kept from being synced.
pub open spec fn is_open(n: TreeNode) -> bool {
    &&& !n.avoid_sync
    &&& n.class_text() matches Some(class) && class != "Camera"@ && class != "Terrain"@ && class
        != "PlayerScripts"@ && class != "PackageLink"@
}

/// Whether a node is a script of one of the three classes.
pub open spec fn is_script_node(n: TreeNode) -> bool {
    n.class_text() matches Some(class) && (class == "Script"@ || class == "LocalScript"@ || class
        == "ModuleScript"@)
}

/// Of the project directory, a node takes part exactly where it is a folder or a
/// script and is not kept from being synced.
pub proof fn law_folders_and_scripts_on_disk_take_part(t: Seq<TreeNode>, i: int)
    requires
        0 <= i < t.len(),
    ensures
        survey::relevant(TreeFlavor::Snapshot, t, i) <==> !t[i].avoid_sync
            && !t[i].avoid_sync_carrier && (is_script_node(t[i]) || t[i].class_text() == Some(
            "Folder"@,
        )),
{
}

/// Of a Studio session, a script takes part unless it is kept from being synced,
/// whatever its class; any other node takes part exactly where a script that
/// takes part lies below it, with nothing in between that is closed.
pub proof fn law_scripts_in_studio_take_part_with_what_leads_to_them(t: Seq<TreeNode>, i: int)
    requires
        tree::tree_wf(t),
        0 <= i < t.len() <= usize::MAX,
    ensures
        is_script_node(t[i]) ==> survey::relevant(TreeFlavor::Studio, t, i) == !t[i].avoid_sync,
        survey::relevant(TreeFlavor::Studio, t, i) <==> exists|down: Seq<int>| #[trigger]
            is_descent(t, down) && down[0] == i && is_script_node(t[down.last()]) && forall|k: int|
                0 <= k < down.len() ==> is_open(#[trigger] t[down[k]]),
{
    lemma_names_apart();
    if survey::relevant(TreeFlavor::Studio, t, i) {
        let down = lemma_leads_to_script(t, i);
        assert(is_descent(t, down));
    }
    if exists|down: Seq<int>| #[trigger]
        is_descent(t, down) && down[0] == i && is_script_node(t[down.last()]) && forall|k: int|
            0 <= k < down.len() ==> is_open(#[trigger] t[down[k]]) {
        let down = choose|down: Seq<int>| #[trigger]
            is_descent(t, down) && down[0] == i && is_script_node(t[down.last()]) && forall|k: int|
                0 <= k < down.len() ==> is_open(#[trigger] t[down[k]]);
        lemma_led_to_script(t, down);
    }
}

proof fn lemma_names_apart()
    ensures
        "Script"@ != "Camera"@ && "Script"@ != "Terrain"@ && "Script"@ != "PlayerScripts"@
            && "Script"@ != "PackageLink"@ && "Script"@ != "Folder"@,
        "LocalScript"@ != "Camera"@ && "LocalScript"@ != "Terrain"@ && "LocalScript"@
            != "PlayerScripts"@ && "LocalScript"@ != "PackageLink"@ && "LocalScript"@ != "Folder"@,
        "ModuleScript"@ != "Camera"@ && "ModuleScript"@ != "Terrain"@ && "ModuleScript"@
            != "PlayerScripts"@ && "ModuleScript"@ != "PackageLink"@ && "ModuleScript"@
            != "Folder"@,
{
    reveal_strlit("Script");
    reveal_strlit("LocalScript");
    reveal_strlit("ModuleScript");
    reveal_strlit("Camera");
    reveal_strlit("Terrain");
    reveal_strlit("PlayerScripts");
    reveal_strlit("PackageLink");
    reveal_strlit("Folder");
    assert("Script"@[0] == 'S' && "Camera"@[0] == 'C' && "Folder"@[0] == 'F');
    assert("LocalScript"@[0] == 'L' && "PackageLink"@[0] == 'P');
    assert("Script"@.len() == 6 && "Terrain"@.len() == 7 && "PlayerScripts"@.len() == 13);
    assert("ModuleScript"@.len() == 12 && "LocalScript"@.len() == 11);
    assert("PackageLink"@.len() == 11 && "Camera"@.len() == 6 && "Folder"@.len() == 6);
}

proof fn lemma_leads_to_script(t: Seq<TreeNode>, i: int) -> (down: Seq<int>)
    requires
        tree::tree_wf(t),
        0 <= i < t.len(),
        survey::relevant(TreeFlavor::Studio, t, i),
    ensures
        is_descent(t, down),
        down[0] == i,
        is_script_node(t[down.last()]),
        forall|k: int| 0 <= k < down.len() ==> is_open(#[trigger] t[down[k]]),
    decreases t.len() - i,
{
    let later = survey::facts_from(TreeFlavor::Studio, t, i + 1);
    if is_script_node(t[i]) {
        let down = seq![i];
        assert(is_open(t[i]));
        down
    } else {
        let k = choose|k: int|
            0 <= k < t[i].children@.len() && later[#[trigger] t[i].children@[k] - i - 1].relevant;
        let c = t[i].children@[k] as int;
        survey::lemma_facts_from(TreeFlavor::Studio, t, i + 1, c);
        let rest = lemma_leads_to_script(t, c);
        let down = seq![i] + rest;
        assert forall|k: int| 0 <= k < down.len() implies 0 <= #[trigger] down[k] < t.len() by {
            if k > 0 {
                assert(down[k] == rest[k - 1]);
            }
        }
        assert forall|k: int| 0 <= k < down.len() - 1 implies t[#[trigger] down[k]].children@.contains(
            down[k + 1] as usize,
        ) by {
            if k > 0 {
                assert(down[k] == rest[k - 1] && down[k + 1] == rest[k - 1 + 1]);
            } else {
                assert(t[i].children@.contains(c as usize));
            }
        }
        assert forall|k: int| 0 <= k < down.len() implies is_open(#[trigger] t[down[k]]) by {
            if k > 0 {
                assert(down[k] == rest[k - 1]);
            }
        }
        down
    }
}

proof fn lemma_led_to_script(t: Seq<TreeNode>, down: Seq<int>)
    requires
        tree::tree_wf(t),
        t.len() <= usize::MAX,
        is_descent(t, down),
        is_script_node(t[down.last()]),
        forall|k: int| 0 <= k < down.len() ==> is_open(#[trigger] t[down[k]]),
    ensures
        survey::relevant(TreeFlavor::Studio, t, down[0]),
    decreases down.len(),
{
    let i = down[0];
    assert(is_open(t[down[0]]));
    if down.len() > 1 {
        let rest = down.skip(1);
        assert forall|k: int| 0 <= k < rest.len() implies 0 <= #[trigger] rest[k] < t.len() by {
            assert(rest[k] == down[k + 1]);
        }
        assert forall|k: int| 0 <= k < rest.len() - 1 implies t[#[trigger] rest[k]].children@.contains(
            rest[k + 1] as usize,
        ) by {
            assert(rest[k] == down[k + 1] && rest[k + 1] == down[k + 1 + 1]);
        }
        assert forall|k: int| 0 <= k < rest.len() implies is_open(#[trigger] t[rest[k]]) by {
            assert(rest[k] == down[k + 1]);
        }
        lemma_led_to_script(t, rest);
        let c = down[1];
        let first: int = 0;
        assert(t[down[first]].children@.contains(down[first + 1] as usize));
        let later = survey::facts_from(TreeFlavor::Studio, t, i + 1);
        let k = choose|k: int|
            0 <= k < t[i].children@.len() && t[i].children@[k] == down[1] as usize;
        assert(i < t[i].children@[k] < t.len());
        assert(t[i].children@[k] == c);
        survey::lemma_facts_from(TreeFlavor::Studio, t, i + 1, c);
        assert(later[t[i].children@[k] - i - 1].relevant);
    }
}

/// What is recorded of a node that takes part: a script with its own class, as a
/// script, with the digest of its source, line endings aside; anything else as a
/// folder without a digest, in Studio also under the class of one where it leads
/// to a script.
pub proof fn law_node_is_recorded_as_it_is(
    f: TreeFlavor,
    t: Seq<TreeNode>,
    i: int,
    path: Seq<char>,
    source_path: Seq<char>,
)
    requires
        tree::tree_wf(t),
        0 <= i < t.len(),
        survey::relevant(f, t, i),
    ensures
        diff::node_entry(f, t, i, path, source_path) matches Some(n) && {
            &&& n.path == path && n.source_path == source_path && n.stream_id == t[i].stream_id
            &&& is_script_node(t[i]) ==> {
                &&& n.kind == DiffKind::Script
                &&& Some(n.class) == t[i].class_text()
                &&& n.source_hash == Some(
                    match t[i].source {
                        Some(source) => conflict::sha256(
                            fs_map::normalized(encode_utf8(source@)),
                        ),
                        None => conflict::sha256(Seq::empty()),
                    },
                )
            }
            &&& !is_script_node(t[i]) ==> n.kind == DiffKind::Folder && n.source_hash is None
                && n.class == "Folder"@
        },
{
    lemma_names_apart();
}

/// What is not recorded: a node that does not take part.
pub proof fn law_only_nodes_that_take_part_are_recorded(
    f: TreeFlavor,
    t: Seq<TreeNode>,
    i: int,
    path: Seq<char>,
    source_path: Seq<char>,
)
    requires
        !survey::relevant(f, t, i),
    ensures
        diff::node_entry(f, t, i, path, source_path) is None,
{
}

proof fn lemma_kept_children(t: Seq<TreeNode>, i: int, later: Seq<survey::Fact>, n: int, c: int)
    requires
        tree::tree_wf(t),
        0 <= i < t.len(),
        0 <= n <= t[i].children@.len(),
    ensures
        survey::kept(t, i, later, n).contains(c) <==> exists|k: int|
            0 <= k < n && #[trigger] t[i].children@[k] == c && (later[c - i - 1].relevant
                || t[c].is_reservation()),
    decreases n,
{
    if n > 0 {
        lemma_kept_children(t, i, later, n - 1, c);
        let before = survey::kept(t, i, later, n - 1);
        let all = survey::kept(t, i, later, n);
        let last = t[i].children@[n - 1] as int;
        if before.contains(c) {
            let q = choose|q: int| 0 <= q < before.len() && before[q] == c;
            assert(all[q] == c);
        }
        if later[last - i - 1].relevant || t[last].is_reservation() {
            assert(all[before.len() as int] == last);
        }
        if all.contains(c) {
            let q = choose|q: int| 0 <= q < all.len() && all[q] == c;
            if q < before.len() {
                assert(before[q] == c);
            } else {
                assert(t[i].children@[n - 1] == c);
            }
        }
    }
}

proof fn lemma_chosen_are(t: Seq<TreeNode>, ids: Seq<int>, reserving: bool, n: int, c: int)
    requires
        0 <= n <= ids.len(),
    ensures
        survey::chosen(t, ids, reserving, n).contains(c) <==> ids.take(n).contains(c)
            && survey::is_named(t[c]) && t[c].is_reservation() == reserving,
    decreases n,
{
    if n > 0 {
        lemma_chosen_are(t, ids, reserving, n - 1, c);
        let before = survey::chosen(t, ids, reserving, n - 1);
        let all = survey::chosen(t, ids, reserving, n);
        let was = ids.take(n - 1);
        let is = ids.take(n);
        assert(is =~= was.push(ids[n - 1]));
        if was.contains(c) {
            let q = choose|q: int| 0 <= q < was.len() && was[q] == c;
            assert(is[q] == c);
        }
        assert(is[n - 1] == ids[n - 1]);
        if before.contains(c) {
            let q = choose|q: int| 0 <= q < before.len() && before[q] == c;
            assert(all[q] == c);
        }
        if survey::is_named(t[ids[n - 1]]) && t[ids[n - 1]].is_reservation() == reserving {
            assert(all[before.len() as int] == ids[n - 1]);
        }
        if all.contains(c) {
            let q = choose|q: int| 0 <= q < all.len() && all[q] == c;
            if q < before.len() {
                assert(before[q] == c);
            }
        }
        if is.contains(c) {
            let q = choose|q: int| 0 <= q < is.len() && is[q] == c;
            if q < n - 1 {
                assert(was[q] == c);
            }
        }
    } else {
        assert(ids.take(0) =~= Seq::<int>::empty());
    }
}

/// The children of a node that are given paths are those with a name and a class
/// that take part or reserve their name, and no others.
pub proof fn law_children_that_take_part_get_paths(
    f: TreeFlavor,
    t: Seq<TreeNode>,
    i: int,
    c: int,
)
    requires
        tree::tree_wf(t),
        0 <= i < t.len(),
    ensures
        survey::projection(f, t, i).contains(c) <==> (exists|k: int|
            0 <= k < t[i].children@.len() && #[trigger] t[i].children@[k] == c) && t[c].name is Some
            && t[c].class is Some && (survey::relevant(f, t, c) || t[c].avoid_sync
            || t[c].avoid_sync_carrier),
{
    let later = survey::facts_from(f, t, i + 1);
    let n = t[i].children@.len() as int;
    let ids = survey::kept(t, i, later, n);
    let m = survey::rows(t, i, later, ids);
    let order = ranking::ranking(m);
    let sorted = survey::ordered(t, i, later);
    let all = sorted.len() as int;
    ranking::lemma_ranking(m);
    lemma_kept_children(t, i, later, n, c);
    assert(sorted.contains(c) <==> ids.contains(c)) by {
        if ids.contains(c) {
            let q = choose|q: int| 0 <= q < ids.len() && ids[q] == c;
            assert(order.contains(q));
            let r = choose|r: int| 0 <= r < order.len() && order[r] == q;
            assert(sorted[r] == c);
        }
        if sorted.contains(c) {
            let r = choose|r: int| 0 <= r < sorted.len() && sorted[r] == c;
            assert(ids[order[r]] == c);
        }
    }
    lemma_chosen_are(t, sorted, true, all, c);
    lemma_chosen_are(t, sorted, false, all, c);
    assert(sorted.take(all) =~= sorted);
    let first = survey::chosen(t, sorted, true, all);
    let rest = survey::chosen(t, sorted, false, all);
    let both = first + rest;
    assert(both.contains(c) <==> first.contains(c) || rest.contains(c)) by {
        if first.contains(c) {
            let q = choose|q: int| 0 <= q < first.len() && first[q] == c;
            assert(both[q] == c);
        }
        if rest.contains(c) {
            let q = choose|q: int| 0 <= q < rest.len() && rest[q] == c;
            assert(both[first.len() + q] == c);
        }
        if both.contains(c) {
            let q = choose|q: int| 0 <= q < both.len() && both[q] == c;
            if q < first.len() {
                assert(first[q] == c);
            } else {
                assert(rest[q - first.len()] == c);
            }
        }
    }
    if exists|k: int| 0 <= k < n && #[trigger] t[i].children@[k] == c {
        survey::lemma_facts_from(f, t, i + 1, c);
    }
}

/// A segment is made of the name that it stands for, read back with its ordinal
/// and escapes undone, and holds no slash.
proof fn lemma_segment(taken: Set<Seq<char>>, name: Seq<char>)
    requires
        taken.finite(),
        taken.len() <= usize::MAX,
    ensures
        ({
            let (segment, next) = fs_map::allocation(taken, name, Seq::empty());
            &&& fs_map::decoded(fs_map::without_ordinal(segment)) == name
            &&& !segment.contains('/')
            &&& !taken.contains(text::lower(segment))
            &&& next == taken.insert(text::lower(segment))
        }),
{
    let ordinal = fs_map::ordinal_beside(taken, name, Seq::empty());
    let stem = fs_map::numbered(name, ordinal);
    fs_map::lemma_ordinal_beside(taken, name, Seq::empty());
    fs_map::law_stem_reads_back(name, ordinal);
    fs_map::law_encoded_is_portable(name);
    assert(stem + Seq::<char>::empty() =~= stem);
    assert(fs_map::encoded(name) + Seq::<char>::empty() =~= fs_map::encoded(name));
    assert(!stem.contains('/')) by {
        if stem.contains('/') {
            let i = choose|i: int| 0 <= i < stem.len() && stem[i] == '/';
            let enc = fs_map::encoded(name);
            if i < enc.len() {
                assert(enc[i] == '/');
                assert(fs_map::is_portable_char(enc[i]));
            } else {
                let n = ordinal->0;
                decimal::lemma_decimal_text(n);
                let d = decimal::decimal_text(n);
                if enc.len() + 2 <= i < enc.len() + 2 + d.len() {
                    assert(d[i - enc.len() - 2] == '/');
                    assert(decimal::is_digit(d[i - enc.len() - 2]));
                }
            }
        }
    }
    if let Some(n) = ordinal {
        assert(fs_map::candidate_of(name, n, Seq::empty()) =~= stem);
    }
}

/// Siblings get segments that differ by more than case, hold no slash, and read
/// back as their names.
pub proof fn law_siblings_get_segments_of_their_own(
    names: Seq<Seq<char>>,
    taken: Set<Seq<char>>,
    a: int,
    b: int,
)
    requires
        taken.finite(),
        taken.len() + names.len() <= usize::MAX,
        0 <= a < names.len(),
        0 <= b < names.len(),
    ensures
        diff::segments(names, taken).len() == names.len(),
        fs_map::decoded(fs_map::without_ordinal(diff::segments(names, taken)[a])) == names[a],
        !diff::segments(names, taken)[a].contains('/'),
        !taken.contains(text::lower(diff::segments(names, taken)[a])),
        a != b ==> text::lower(diff::segments(names, taken)[a]) != text::lower(
            diff::segments(names, taken)[b],
        ),
    decreases names.len(),
{
    let (segment, next) = fs_map::allocation(taken, names[0], Seq::empty());
    let rest = names.drop_first();
    let all = diff::segments(names, taken);
    let tail = diff::segments(rest, next);
    lemma_segment(taken, names[0]);
    lemma_segments_count(names, taken);
    lemma_segments_count(rest, next);
    assert(all[0] == segment);
    if a > 0 {
        law_siblings_get_segments_of_their_own(rest, next, a - 1, if b > 0 {
            b - 1
        } else {
            a - 1
        });
        assert(all[a] == tail[a - 1]);
        assert(rest[a - 1] == names[a]);
        if b > 0 {
            assert(all[b] == tail[b - 1]);
        }
    } else if b > 0 {
        law_siblings_get_segments_of_their_own(rest, next, b - 1, b - 1);
        assert(all[b] == tail[b - 1]);
    }
}

proof fn lemma_segments_count(names: Seq<Seq<char>>, taken: Set<Seq<char>>)
    ensures
        diff::segments(names, taken).len() == names.len(),
    decreases names.len(),
{
    if names.len() > 0 {
        let next = fs_map::allocation(taken, names[0], Seq::empty()).1;
        lemma_segments_count(names.drop_first(), next);
    }
}

/// Whether what is recorded lies at or below a path.
spec fn stays_below(path: Seq<char>, visits: Seq<Option<NodeModel>>) -> bool {
    forall|a: int|
        0 <= a < visits.len() && (#[trigger] visits[a]) is Some ==> visits[a]->0.path == path
            || path.push('/').is_prefix_of(visits[a]->0.path)
}

/// Whether no two nodes are recorded under one path.
pub open spec fn have_paths_of_their_own(visits: Seq<Option<NodeModel>>) -> bool {
    forall|a: int, b: int|
        0 <= a < b < visits.len() && (#[trigger] visits[a]) is Some && (#[trigger] visits[b]) is Some
            ==> visits[a]->0.path != visits[b]->0.path
}

proof fn lemma_prefix_trans(a: Seq<char>, b: Seq<char>, c: Seq<char>)
    requires
        a.is_prefix_of(b),
        b.is_prefix_of(c),
    ensures
        a.is_prefix_of(c),
{
    assert(c.subrange(0, a.len() as int) =~= b.subrange(0, a.len() as int));
}

proof fn lemma_child_below(path: Seq<char>, segment: Seq<char>, x: Seq<char>)
    requires
        path.len() > 0,
        x == diff::join(path, segment) || diff::join(path, segment).push('/').is_prefix_of(x),
    ensures
        path.push('/').is_prefix_of(x),
        (path.push('/') + segment).is_prefix_of(x),
        x.len() > path.len() + 1 + segment.len() ==> x[path.len() as int + 1 + segment.len()] == '/',
{
    let child = diff::join(path, segment);
    assert(child =~= path.push('/') + segment);
    assert(child.is_prefix_of(child.push('/')));
    if x != child {
        lemma_prefix_trans(child, child.push('/'), x);
        assert(x.subrange(0, child.len() as int + 1)[child.len() as int] == '/');
    } else {
        assert(x.subrange(0, child.len() as int) =~= child);
    }
    assert(path.push('/').is_prefix_of(child)) by {
        assert(child.subrange(0, path.len() as int + 1) =~= path.push('/'));
    }
    lemma_prefix_trans(path.push('/'), child, x);
}

proof fn lemma_segment_of(path: Seq<char>, a: Seq<char>, b: Seq<char>, x: Seq<char>)
    requires
        path.len() > 0,
        !a.contains('/'),
        !b.contains('/'),
        x == diff::join(path, a) || diff::join(path, a).push('/').is_prefix_of(x),
        x == diff::join(path, b) || diff::join(path, b).push('/').is_prefix_of(x),
    ensures
        a == b,
{
    lemma_child_below(path, a, x);
    lemma_child_below(path, b, x);
    let at = path.len() as int + 1;
    let p = path.push('/') + a;
    let q = path.push('/') + b;
    assert forall|i: int| 0 <= i < a.len() implies #[trigger] a[i] == x[at + i] by {
        assert(x.subrange(0, p.len() as int)[at + i] == p[at + i]);
    }
    assert forall|i: int| 0 <= i < b.len() implies #[trigger] b[i] == x[at + i] by {
        assert(x.subrange(0, q.len() as int)[at + i] == q[at + i]);
    }
    if a.len() < b.len() {
        assert(b[a.len() as int] == x[at + a.len()]);
        assert(b.contains('/'));
    } else if b.len() < a.len() {
        assert(a[b.len() as int] == x[at + b.len()]);
        assert(a.contains('/'));
    }
    assert(a =~= b);
}

/// What `lemma_visits_apart` says of a node.
proof fn lemma_visits_apart(
    f: TreeFlavor,
    t: Seq<TreeNode>,
    i: int,
    path: Seq<char>,
    source_path: Seq<char>,
)
    requires
        tree::tree_wf(t),
        0 <= i < t.len() <= usize::MAX,
        path.len() > 0,
    ensures
        stays_below(path, diff::visits(f, t, i, path, source_path)),
        have_paths_of_their_own(diff::visits(f, t, i, path, source_path)),
    decreases t.len() - i, survey::projection(f, t, i).len() + 1,
{
    let all = diff::visits(f, t, i, path, source_path);
    if diff::opens(f, t[i]) {
        let below = diff::child_visits(f, t, i, path, source_path, 0);
        lemma_child_visits_apart(f, t, i, path, source_path, 0);
        assert forall|a: int| 0 <= a < all.len() && (#[trigger] all[a]) is Some implies all[a]->0.path
            == path || path.push('/').is_prefix_of(all[a]->0.path) by {
            if a > 0 {
                assert(all[a] == below[a - 1]);
            }
        }
        assert forall|a: int, b: int|
            0 <= a < b < all.len() && (#[trigger] all[a]) is Some && (
            #[trigger] all[b]) is Some implies all[a]->0.path != all[b]->0.path by {
            assert(all[b] == below[b - 1]);
            if a > 0 {
                assert(all[a] == below[a - 1]);
            } else {
                assert(path.push('/').is_prefix_of(below[b - 1]->0.path));
            }
        }
    }
}

/// The same of the children of a node from the `k`-th on.
proof fn lemma_child_visits_apart(
    f: TreeFlavor,
    t: Seq<TreeNode>,
    i: int,
    path: Seq<char>,
    source_path: Seq<char>,
    k: int,
)
    requires
        tree::tree_wf(t),
        0 <= i < t.len() <= usize::MAX,
        path.len() > 0,
        0 <= k,
    ensures
        ({
            let all = diff::child_visits(f, t, i, path, source_path, k);
            let segments = diff::child_segments(f, t, i);
            &&& have_paths_of_their_own(all)
            &&& forall|a: int|
                0 <= a < all.len() && (#[trigger] all[a]) is Some ==> {
                    let x = all[a]->0.path;
                    &&& path.push('/').is_prefix_of(x)
                    &&& exists|j: int|
                        k <= j < segments.len() && (x == diff::join(path, #[trigger] segments[j])
                            || diff::join(path, segments[j]).push('/').is_prefix_of(x))
                }
        }),
    decreases t.len() - i, survey::projection(f, t, i).len() - k,
{
    let ids = survey::projection(f, t, i);
    let names = diff::child_names(t, ids);
    let segments = diff::child_segments(f, t, i);
    let all = diff::child_visits(f, t, i, path, source_path, k);
    if 0 <= k < ids.len() && i < ids[k] < t.len() {
        let name = survey::name_or_empty(t[ids[k]]);
        let segment = segments[k];
        let source = diff::join(source_path, diff::source_segment(f, t, i, name, segment));
        let here = diff::join(path, segment);
        let first = diff::visits(f, t, ids[k], here, source);
        let rest = diff::child_visits(f, t, i, path, source_path, k + 1);
        lemma_visits_apart(f, t, ids[k], here, source);
        lemma_child_visits_apart(f, t, i, path, source_path, k + 1);
        lemma_projection_short(f, t, i);
        lemma_segments_count(names, Set::empty());
        assert forall|a: int| 0 <= a < all.len() && (#[trigger] all[a]) is Some implies ({
            let x = all[a]->0.path;
            &&& path.push('/').is_prefix_of(x)
            &&& exists|j: int|
                k <= j < segments.len() && (x == diff::join(path, #[trigger] segments[j])
                    || diff::join(path, segments[j]).push('/').is_prefix_of(x))
        }) by {
            if a < first.len() {
                assert(all[a] == first[a]);
                lemma_child_below(path, segment, all[a]->0.path);
                assert(segments[k] == segment);
            } else {
                assert(all[a] == rest[a - first.len()]);
            }
        }
        assert forall|a: int, b: int|
            0 <= a < b < all.len() && (#[trigger] all[a]) is Some && (
            #[trigger] all[b]) is Some implies all[a]->0.path != all[b]->0.path by {
            if b < first.len() {
                assert(all[a] == first[a] && all[b] == first[b]);
            } else if a >= first.len() {
                assert(all[a] == rest[a - first.len()] && all[b] == rest[b - first.len()]);
            } else {
                assert(all[a] == first[a] && all[b] == rest[b - first.len()]);
                let x = all[b]->0.path;
                let j = choose|j: int|
                    k + 1 <= j < segments.len() && (x == diff::join(path, #[trigger] segments[j])
                        || diff::join(path, segments[j]).push('/').is_prefix_of(x));
                law_siblings_get_segments_of_their_own(names, Set::empty(), k, j);
                law_siblings_get_segments_of_their_own(names, Set::empty(), j, k);
                if all[a]->0.path == x {
                    lemma_segment_of(path, segment, segments[j], x);
                }
            }
        }
    }
}

proof fn lemma_projection_short(f: TreeFlavor, t: Seq<TreeNode>, i: int)
    requires
        tree::tree_wf(t),
        0 <= i < t.len(),
    ensures
        survey::projection(f, t, i).len() <= t[i].children@.len(),
{
    let later = survey::facts_from(f, t, i + 1);
    let ids = survey::kept(t, i, later, t[i].children@.len() as int);
    ranking::lemma_ranking(survey::rows(t, i, later, ids));
    survey::lemma_ordered(t, i, later);
    let sorted = survey::ordered(t, i, later);
    survey::lemma_chosen_total(t, sorted, sorted.len() as int);
}

/// No two nodes below a service are recorded under one path, and each path
/// begins with the name of the service.
pub proof fn law_nodes_of_a_service_have_paths_of_their_own(
    f: TreeFlavor,
    t: Seq<TreeNode>,
    i: int,
)
    requires
        tree::tree_wf(t),
        0 <= i < t.len() <= usize::MAX,
        t[i].name_text() is Some && t[i].name_text()->0.len() > 0,
    ensures
        have_paths_of_their_own(diff::service_visits(f, t, i)),
        forall|a: int|
            #![trigger diff::service_visits(f, t, i)[a]]
            0 <= a < diff::service_visits(f, t, i).len() && diff::service_visits(f, t, i)[a] is Some
                ==> t[i].name_text()->0.push('/').is_prefix_of(
                diff::service_visits(f, t, i)[a]->0.path,
            ),
{
    let name = t[i].name_text()->0;
    lemma_child_visits_apart(f, t, i, name, name, 0);
}

/// A node is recorded wherever its parent is opened: every child that gets a path
/// is visited below the path of its parent, under its own segment, and with it
/// what is below it. `at` is where these visits begin.
pub proof fn law_children_are_visited_below_their_parent(
    f: TreeFlavor,
    t: Seq<TreeNode>,
    i: int,
    path: Seq<char>,
    source_path: Seq<char>,
    k: int,
    from: int,
) -> (at: int)
    requires
        tree::tree_wf(t),
        0 <= i < t.len(),
        0 <= from <= k < survey::projection(f, t, i).len(),
    ensures
        ({
            let c = survey::projection(f, t, i)[k];
            let segment = diff::child_segments(f, t, i)[k];
            let source = if f == TreeFlavor::Snapshot || diff::is_duplicate(
                t,
                i,
                survey::name_or_empty(t[c]),
            ) {
                segment
            } else {
                survey::name_or_empty(t[c])
            };
            let below = diff::visits(
                f,
                t,
                c,
                diff::join(path, segment),
                diff::join(source_path, source),
            );
            let all = diff::child_visits(f, t, i, path, source_path, from);
            &&& below[0] == diff::node_entry(
                f,
                t,
                c,
                diff::join(path, segment),
                diff::join(source_path, source),
            )
            &&& 0 <= at <= all.len() - below.len()
            &&& all.subrange(at, at + below.len()) == below
        }),
    decreases k - from,
{
    let ids = survey::projection(f, t, i);
    let all = diff::child_visits(f, t, i, path, source_path, from);
    lemma_projection_inside(f, t, i, from);
    lemma_projection_inside(f, t, i, k);
    let c = ids[from];
    let name = survey::name_or_empty(t[c]);
    let segment = diff::child_segments(f, t, i)[from];
    let first = diff::visits(
        f,
        t,
        c,
        diff::join(path, segment),
        diff::join(source_path, diff::source_segment(f, t, i, name, segment)),
    );
    let rest = diff::child_visits(f, t, i, path, source_path, from + 1);
    assert(all == first + rest);
    if from == k {
        assert(all.subrange(0, 0 + first.len() as int) =~= first);
        0
    } else {
        let at = law_children_are_visited_below_their_parent(
            f,
            t,
            i,
            path,
            source_path,
            k,
            from + 1,
        );
        let c = ids[k];
        let segment = diff::child_segments(f, t, i)[k];
        let name = survey::name_or_empty(t[c]);
        let below = diff::visits(
            f,
            t,
            c,
            diff::join(path, segment),
            diff::join(source_path, diff::source_segment(f, t, i, name, segment)),
        );
        assert(all.subrange(first.len() + at, first.len() + at + below.len()) =~= rest.subrange(
            at,
            at + below.len(),
        ));
        first.len() + at
    }
}

proof fn lemma_projection_inside(f: TreeFlavor, t: Seq<TreeNode>, i: int, k: int)
    requires
        tree::tree_wf(t),
        0 <= i < t.len(),
        0 <= k < survey::projection(f, t, i).len(),
    ensures
        i < survey::projection(f, t, i)[k] < t.len(),
{
    let c = survey::projection(f, t, i)[k];
    assert(survey::projection(f, t, i).contains(c));
    law_children_that_take_part_get_paths(f, t, i, c);
}

/// The children of a node are opened: on disk where the node is a folder or a
/// script and is not kept from being synced, in Studio also where it is of
/// another class.
pub proof fn law_nodes_are_opened(f: TreeFlavor, n: TreeNode)
    ensures
        f == TreeFlavor::Snapshot ==> diff::opens(f, n) == (!n.avoid_sync && (is_script_node(n)
            || n.class_text() == Some("Folder"@))),
        f == TreeFlavor::Studio ==> diff::opens(f, n) == (!n.avoid_sync && n.class is Some),
{
}

/// What the nodes are recorded under: each under its path, and nothing else.
pub proof fn law_every_visited_node_is_recorded(visits: Seq<Option<NodeModel>>, a: int)
    requires
        have_paths_of_their_own(visits),
        0 <= a < visits.len(),
        visits[a] is Some,
    ensures
        diff::recorded(visits).contains_key(visits[a]->0.path),
        diff::recorded(visits)[visits[a]->0.path] == visits[a]->0,
    decreases visits.len(),
{
    let before = visits.drop_last();
    if a < visits.len() - 1 {
        assert(before[a] == visits[a]);
        assert(have_paths_of_their_own(before)) by {
            assert forall|x: int, y: int|
                0 <= x < y < before.len() && (#[trigger] before[x]) is Some && (
                #[trigger] before[y]) is Some implies before[x]->0.path != before[y]->0.path by {
                assert(before[x] == visits[x] && before[y] == visits[y]);
            }
        }
        law_every_visited_node_is_recorded(before, a);
        if visits.last() is Some {
            assert(visits[visits.len() - 1] is Some);
            assert(visits[a]->0.path != visits[visits.len() - 1]->0.path);
        }
    }
}

/// What is recorded under a path was visited there.
pub proof fn law_only_visited_nodes_are_recorded(visits: Seq<Option<NodeModel>>, path: Seq<char>)
    requires
        diff::recorded(visits).contains_key(path),
    ensures
        exists|a: int|
            0 <= a < visits.len() && #[trigger] visits[a] == Some(diff::recorded(visits)[path])
                && diff::recorded(visits)[path].path == path,
    decreases visits.len(),
{
    if visits.len() > 0 {
        let before = visits.drop_last();
        if visits.last() is Some && visits.last()->0.path == path {
            assert(visits[visits.len() - 1] == visits.last());
        } else {
            law_only_visited_nodes_are_recorded(before, path);
            let a = choose|a: int|
                0 <= a < before.len() && #[trigger] before[a] == Some(
                    diff::recorded(before)[path],
                );
            assert(visits[a] == before[a]);
        }
    }
}

/// The eight services, each of which is compared, and nothing else of a place.
pub proof fn law_synced_services_are_compared(t: Seq<TreeNode>, root: int, n: int)
    requires
        0 < n <= t[root].children@.len(),
    ensures
        ({
            let c = t[root].children@[n - 1] as int;
            let before = diff::place_visits(t, root, n - 1);
            let all = diff::place_visits(t, root, n);
            let name = t[c].name_text();
            &&& name == Some("ReplicatedStorage"@) || name == Some("ServerScriptService"@) || name
                == Some("StarterPlayer"@) || name == Some("StarterGui"@) || name == Some(
                "Workspace"@,
            ) || name == Some("ReplicatedFirst"@) || name == Some("ServerStorage"@) || name
                == Some("Lighting"@) ==> all == before + diff::child_visits(
                TreeFlavor::Studio,
                t,
                c,
                name->0,
                name->0,
                0,
            )
            &&& name is None || !sync_scope::is_synced_service(name->0) ==> all == before
        }),
{
    let c = t[root].children@[n - 1] as int;
    let before = diff::place_visits(t, root, n - 1);
    assert(before + Seq::<Option<NodeModel>>::empty() =~= before);
}

/// Every service that is handed over is compared, under its own name.
pub proof fn law_given_services_are_compared(t: Seq<TreeNode>, ids: Seq<usize>, id: usize)
    requires
        t[id as int].name_text() is Some,
    ensures
        ({
            let name = t[id as int].name_text()->0;
            &&& diff::local_visits(t, ids.push(id)) == diff::local_visits(t, ids)
                + diff::child_visits(TreeFlavor::Snapshot, t, id as int, name, name, 0)
            &&& sync_scope::is_synced_service(name) ==> diff::synced_visits(t, ids.push(id))
                == diff::synced_visits(t, ids) + diff::child_visits(
                TreeFlavor::Studio,
                t,
                id as int,
                name,
                name,
                0,
            )
        }),
{
    assert(ids.push(id).drop_last() =~= ids);
}

} // verus!
