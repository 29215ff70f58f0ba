//! What holds of the reading of directories, of names and of texts.
use vstd::prelude::*;
use vstd::utf8::*;

use crate::diff;
use crate::diff::{DiffKind, DiffNode};
use crate::fingerprint;
use crate::fingerprint::CopiedEntry;
use crate::fs_chain;
use crate::fs_chain::ChainProblem;
use crate::fs_safety;
use crate::fs_safety::{
    DirectoryPolicy, EntryModel, IndexModel, ObjectKind, ObjectProblem, Observed, OpenModel,
    SafeEntryKind, ScannedEntry, TreeEntryModel, WalkModel, WalkProblem,
};
use crate::ranking;
use crate::reservations;
use crate::reservations::{PlannedChild, Shelf};
use crate::selection;
use crate::selection::{PendingInitial, SelectionProblem};
use crate::sync_scope;
use crate::text;
use crate::text_map::TextMap;
use crate::tree::TreeNode;

verus! {

/// An object is what it is taken for exactly where it is there and of that kind; a
/// link is never taken for what it leads to.
pub proof fn law_links_are_not_followed(
    seen: Option<Observed>,
    want: ObjectKind,
    otherwise: ObjectProblem,
)
    requires
        want == ObjectKind::File || want == ObjectKind::Directory,
    ensures
        fs_safety::generation_problem(seen, want, otherwise) is None <==> seen is Some
            && seen->0.kind == want,
        seen is None ==> fs_safety::generation_problem(seen, want, otherwise) == Some(
            ObjectProblem::Missing,
        ),
        seen is Some && seen->0.kind == ObjectKind::SymbolicLink ==> fs_safety::generation_problem(
            seen,
            want,
            otherwise,
        ) == Some(ObjectProblem::SymbolicLink),
        seen is Some && seen->0.kind == ObjectKind::ReparsePoint ==> fs_safety::generation_problem(
            seen,
            want,
            otherwise,
        ) == Some(ObjectProblem::ReparsePoint),
{
}

/// Whether an entry of a directory that is synced can be read: its name is text, and
/// it is a file or a directory or gone.
pub open spec fn is_plain(e: ScannedEntry) -> bool {
    e.fragment is Some && (e.seen matches Some(o) ==> o.kind == ObjectKind::File || o.kind
        == ObjectKind::Directory)
}

/// A synced directory can be listed exactly where each entry is plain.
pub proof fn law_synced_directory_holds_plain_entries(s: Seq<ScannedEntry>, from: int)
    requires
        0 <= from,
    ensures
        fs_safety::listing_problem(s, DirectoryPolicy::SyncedProjection, from) is None <==> forall|
            k: int,
        |
            from <= k < s.len() ==> is_plain(#[trigger] s[k]),
    decreases s.len() - from,
{
    if from < s.len() {
        law_synced_directory_holds_plain_entries(s, from + 1);
    }
}

/// Elsewhere only a name that is no text is refused, and at the root of a project what
/// stands in the place of a service and is neither a file nor a directory.
pub proof fn law_other_directories_may_hold_links(e: ScannedEntry, at: int)
    ensures
        fs_safety::entry_problem(e, at, DirectoryPolicy::RawLookup) is None <==> e.fragment is Some,
        e.fragment is Some && !sync_scope::is_service_ignoring_case(e.fragment->0@)
            ==> fs_safety::entry_problem(e, at, DirectoryPolicy::ProjectRoot) is None,
        e.fragment is Some && sync_scope::is_service_ignoring_case(e.fragment->0@) ==> (
        fs_safety::entry_problem(e, at, DirectoryPolicy::ProjectRoot) is None <==> is_plain(e)),
{
}

/// What is kept of a listing are its files and directories, with their names and
/// generations; and the names of its links.
pub proof fn law_files_and_directories_are_kept(s: Seq<ScannedEntry>, n: int, e: EntryModel)
    requires
        0 <= n <= s.len(),
    ensures
        fs_safety::kept_entries(s, n).contains(e) <==> exists|k: int|
            0 <= k < n && is_entry(#[trigger] s[k], e),
    decreases n,
{
    if n > 0 {
        law_files_and_directories_are_kept(s, n - 1, e);
        let before = fs_safety::kept_entries(s, n - 1);
        let all = fs_safety::kept_entries(s, n);
        assert(is_entry(s[n - 1], e) <==> fs_safety::kept_entry(s[n - 1]) == Some(e));
        if let Some(x) = fs_safety::kept_entry(s[n - 1]) {
            assert(all[before.len() as int] == x);
            if before.contains(e) {
                let i = choose|i: int| 0 <= i < before.len() && before[i] == e;
                assert(all[i] == e);
            }
            if all.contains(e) && e != x {
                let i = choose|i: int| 0 <= i < all.len() && all[i] == e;
                assert(before[i] == e);
            }
        }
    }
}

/// Whether an entry is what was seen under its name.
pub open spec fn is_entry(found: ScannedEntry, e: EntryModel) -> bool {
    &&& found.fragment is Some && found.seen is Some
    &&& found.fragment->0@ == e.fragment
    &&& found.seen->0.generation == e.generation
    &&& found.seen->0.kind == (if e.kind == SafeEntryKind::Directory {
        ObjectKind::Directory
    } else {
        ObjectKind::File
    })
}

/// The entries by name are the same entries.
pub proof fn law_sorting_keeps_the_entries(s: Seq<EntryModel>, e: EntryModel)
    ensures
        fs_safety::by_name(s).len() == s.len(),
        fs_safety::by_name(s).contains(e) <==> s.contains(e),
{
    let rows = fs_safety::name_rows(fs_safety::fragments(s));
    ranking::lemma_ranking(rows);
    let order = ranking::ranking(rows);
    let all = fs_safety::by_name(s);
    if s.contains(e) {
        let at = choose|at: int| 0 <= at < s.len() && s[at] == e;
        assert(order.contains(at));
        let i = choose|i: int| 0 <= i < order.len() && order[i] == at;
        assert(all[i] == e);
    }
    if all.contains(e) {
        let i = choose|i: int| 0 <= i < all.len() && all[i] == e;
        assert(s[order[i]] == e);
    }
}

proof fn lemma_folded(s: Seq<EntryModel>, fragment: Seq<char>, n: int)
    requires
        0 <= n <= s.len(),
    ensures
        fs_safety::folded_places(s, fragment, n).len() > 0 <==> exists|k: int|
            0 <= k < n && text::lower((#[trigger] s[k]).fragment) == text::lower(fragment),
    decreases n,
{
    if n > 0 {
        lemma_folded(s, fragment, n - 1);
    }
}

proof fn lemma_folded_links(s: Seq<Seq<char>>, fragment: Seq<char>, n: int)
    requires
        0 <= n <= s.len(),
    ensures
        fs_safety::folded_links(s, fragment, n) > 0 <==> exists|k: int|
            0 <= k < n && text::lower(#[trigger] s[k]) == text::lower(fragment),
    decreases n,
{
    if n > 0 {
        lemma_folded_links(s, fragment, n - 1);
    }
}

/// A component of a path is entered exactly where an entry has its very name and no
/// link has; it is missing only where no name differs from it in case alone.
pub proof fn law_component_is_entered_by_its_very_name(
    index: IndexModel,
    fragment: Seq<char>,
    at: usize,
    allow: bool,
)
    ensures
        ({
            let raw = fs_safety::raw_step(index, fragment, at, allow);
            let synced = fs_safety::synced_step(index, fragment, at, allow);
            let chain = fs_chain::chain_step(index, fragment, at);
            let there = exists|k: int|
                0 <= k < index.entries.len() && (#[trigger] index.entries[k]).fragment == fragment;
            let alike = exists|k: int|
                0 <= k < index.entries.len() && text::lower((#[trigger] index.entries[k]).fragment)
                    == text::lower(fragment);
            let link_alike = exists|k: int|
                0 <= k < index.linked.len() && text::lower(#[trigger] index.linked[k])
                    == text::lower(fragment);
            &&& raw == Ok::<bool, WalkProblem>(true) <==> there && !index.linked.contains(fragment)
            &&& raw == Ok::<bool, WalkProblem>(false) <==> allow && !alike && !link_alike
            &&& synced == Ok::<bool, WalkProblem>(true) <==> there
            &&& synced == Ok::<bool, WalkProblem>(false) <==> allow && !alike
            &&& chain == Ok::<bool, ChainProblem>(true) ==> there && !index.linked.contains(fragment)
            &&& chain == Ok::<bool, ChainProblem>(false) <==> !alike && !link_alike
            &&& !allow && !alike && !link_alike ==> raw == Err::<bool, WalkProblem>(
                WalkProblem::Missing(at),
            )
        }),
{
    lemma_folded(index.entries, fragment, index.entries.len() as int);
    lemma_folded_links(index.linked, fragment, index.linked.len() as int);
    if exists|k: int|
        0 <= k < index.entries.len() && (#[trigger] index.entries[k]).fragment == fragment {
        let k = choose|k: int|
            0 <= k < index.entries.len() && (#[trigger] index.entries[k]).fragment == fragment;
        assert(text::lower(index.entries[k].fragment) == text::lower(fragment));
    }
    if index.linked.contains(fragment) {
        let k = choose|k: int| 0 <= k < index.linked.len() && index.linked[k] == fragment;
        assert(text::lower(index.linked[k]) == text::lower(fragment));
    }
}

/// A path is walked exactly where each component is one name and the first is that of
/// a service.
pub proof fn law_walked_path_begins_at_a_service(parts: Seq<String>)
    ensures
        fs_safety::synced_problem(parts) is None <==> {
            &&& parts.len() > 0
            &&& sync_scope::is_synced_service(parts[0]@)
            &&& forall|k: int|
                0 <= k < parts.len() ==> (#[trigger] parts[k])@.len() > 0 && parts[k]@ != "."@
                    && parts[k]@ != ".."@ && !parts[k]@.contains('/')
        },
{
    lemma_abnormal(parts, 0);
}

proof fn lemma_abnormal(parts: Seq<String>, from: int)
    requires
        0 <= from,
    ensures
        fs_safety::abnormal_from(parts, from) is None <==> forall|k: int|
            from <= k < parts.len() ==> (#[trigger] parts[k])@.len() > 0 && parts[k]@ != "."@
                && parts[k]@ != ".."@ && !parts[k]@.contains('/'),
    decreases parts.len() - from,
{
    if from < parts.len() {
        lemma_abnormal(parts, from + 1);
    }
}

/// What a directory holds is captured below it, one entry for each.
pub proof fn law_entries_are_captured_below(d: OpenModel, entries: Seq<EntryModel>, i: int)
    requires
        0 <= i < entries.len(),
    ensures
        ({
            let all = fs_safety::captured(d, entries);
            &&& all.len() == entries.len()
            &&& all[i].path == d.path + seq!['/'] + entries[i].fragment
            &&& all[i].relative == (if d.relative.len() == 0 {
                entries[i].fragment
            } else {
                d.relative + seq!['/'] + entries[i].fragment
            })
            &&& all[i].kind == entries[i].kind && all[i].generation == entries[i].generation
        }),
{
    reveal_strlit("/");
    assert("/"@ =~= seq!['/']);
}

/// Every directory that was found is gone into later, one level further down, and
/// nothing else is.
pub proof fn law_found_directories_are_gone_into(
    d: OpenModel,
    entries: Seq<EntryModel>,
    from: int,
    o: OpenModel,
)
    requires
        0 <= from,
    ensures
        fs_safety::opened(d, entries, from).contains(o) <==> exists|k: int|
            from <= k < entries.len() && (#[trigger] entries[k]).kind == SafeEntryKind::Directory
                && o.path == fs_safety::below(d.path, entries[k].fragment) && o.relative
                == fs_safety::relative_below(d.relative, entries[k].fragment) && o.depth == d.depth
                + 1,
    decreases entries.len() - from,
{
    if from < entries.len() {
        law_found_directories_are_gone_into(d, entries, from + 1, o);
        let rest = fs_safety::opened(d, entries, from + 1);
        let all = fs_safety::opened(d, entries, from);
        if entries[from].kind == SafeEntryKind::Directory {
            let x = all[rest.len() as int];
            if rest.contains(o) {
                let i = choose|i: int| 0 <= i < rest.len() && rest[i] == o;
                assert(all[i] == o);
            }
            if all.contains(o) && o != x {
                let i = choose|i: int| 0 <= i < all.len() && all[i] == o;
                assert(rest[i] == o);
            }
        }
    }
}

/// Visiting a directory adds what it holds to what was captured, and leaves the other
/// directories waiting.
pub proof fn law_visit_adds_what_was_found(w: WalkModel, found: Seq<EntryModel>, i: int)
    requires
        w.stack.len() > 0,
    ensures
        ({
            let after = w.visited(found);
            &&& after.entries.len() == w.entries.len() + found.len()
            &&& 0 <= i < w.entries.len() ==> after.entries[i] == w.entries[i]
            &&& 0 <= i < found.len() ==> after.entries[w.entries.len() + i] == fs_safety::captured(
                w.stack.last(),
                found,
            )[i]
            &&& 0 <= i < w.stack.len() - 1 ==> after.stack[i] == w.stack[i]
        }),
{
}

/// A root is accepted exactly where it is one and the same directory each time that
/// it is looked at, and at its canonical path.
pub proof fn law_root_stays_the_same_directory(
    before: Option<Observed>,
    after: Option<Observed>,
    canonical: Option<Observed>,
)
    ensures
        fs_chain::root_problem(before, after, canonical) is None <==> {
            &&& before is Some && before->0.kind == ObjectKind::Directory
            &&& after is Some && after->0.kind == ObjectKind::Directory
            &&& canonical is Some && canonical->0.kind == ObjectKind::Directory
            &&& before->0.generation.identity == after->0.generation.identity
            &&& after->0.generation.identity == canonical->0.generation.identity
        },
{
}

/// Every file of a tree goes into its fingerprint with its place, its size and its
/// contents, behind the files before it; a directory adds nothing.
pub proof fn law_every_file_goes_into_the_fingerprint(
    entries: Seq<TreeEntryModel>,
    contents: Seq<Seq<u8>>,
    n: int,
)
    requires
        0 <= n < entries.len(),
    ensures
        ({
            let before = fingerprint::framed_tree(entries, contents, n);
            let after = fingerprint::framed_tree(entries, contents, n + 1);
            let e = entries[n];
            let place = encode_utf8(e.relative);
            &&& e.kind != SafeEntryKind::File ==> after == before
            &&& e.kind == SafeEntryKind::File ==> after == before + fingerprint::little_endian(
                place.len() as u64,
            ) + place + fingerprint::little_endian(e.generation.len) + contents[n]
        }),
{
    let e = entries[n];
    let place = encode_utf8(e.relative);
    let before = fingerprint::framed_tree(entries, contents, n);
    if e.kind == SafeEntryKind::File {
        let a = fingerprint::little_endian(place.len() as u64);
        let b = fingerprint::little_endian(e.generation.len);
        assert(before + (a + place + b + contents[n]) =~= before + a + place + b + contents[n]);
    }
}

/// A copy is accepted exactly where every file was the same before and after it was
/// copied as when the tree was listed.
pub proof fn law_copy_is_of_unchanged_files(
    entries: Seq<TreeEntryModel>,
    copied: Seq<CopiedEntry>,
    n: int,
)
    requires
        0 <= n <= entries.len(),
    ensures
        fingerprint::copy_problem(entries, copied, n) is None <==> forall|k: int|
            0 <= k < n && (#[trigger] entries[k]).kind == SafeEntryKind::File ==> copied[k].before
                == entries[k].generation && copied[k].after == entries[k].generation,
    decreases n,
{
    if n > 0 {
        law_copy_is_of_unchanged_files(entries, copied, n - 1);
    }
}

/// Lower case leaves everything but the letters A to Z as it is.
pub proof fn law_lower_case_changes_letters_only(s: Seq<char>, i: int)
    requires
        0 <= i < s.len(),
    ensures
        text::lower(s).len() == s.len(),
        !('A' <= s[i] && s[i] <= 'Z') ==> text::lower(s)[i] == s[i],
        'A' <= s[i] && s[i] <= 'Z' ==> text::lower(s)[i] == ((s[i] as u32) + 32) as char,
{
}

proof fn lemma_trim_start(s: Seq<char>) -> (k: int)
    ensures
        0 <= k <= s.len(),
        text::trim_start(s) == s.skip(k),
        forall|i: int| 0 <= i < k ==> text::is_space(#[trigger] s[i]),
        k < s.len() ==> !text::is_space(s[k]),
    decreases s.len(),
{
    if s.len() > 0 && text::is_space(s[0]) {
        let rest = s.drop_first();
        let k = lemma_trim_start(rest);
        assert(rest.skip(k) =~= s.skip(k + 1));
        assert forall|i: int| 0 <= i < k + 1 implies text::is_space(#[trigger] s[i]) by {
            if i > 0 {
                assert(rest[i - 1] == s[i]);
            }
        }
        if k < rest.len() {
            assert(rest[k] == s[k + 1]);
        }
        k + 1
    } else {
        assert(s.skip(0) =~= s);
        0
    }
}

proof fn lemma_trim_end(s: Seq<char>) -> (k: int)
    ensures
        0 <= k <= s.len(),
        text::trim_end(s) == s.take(k),
        forall|i: int| k <= i < s.len() ==> text::is_space(#[trigger] s[i]),
        k > 0 ==> !text::is_space(s[k - 1]),
    decreases s.len(),
{
    if s.len() > 0 && text::is_space(s.last()) {
        let rest = s.drop_last();
        let k = lemma_trim_end(rest);
        assert(rest.take(k) =~= s.take(k));
        assert forall|i: int| k <= i < s.len() implies text::is_space(#[trigger] s[i]) by {
            if i < rest.len() {
                assert(rest[i] == s[i]);
            }
        }
        if k > 0 {
            assert(rest[k - 1] == s[k - 1]);
        }
        k
    } else {
        assert(s.take(s.len() as int) =~= s);
        s.len() as int
    }
}

/// Trimming takes away white space at the two ends, all of it and nothing else.
pub proof fn law_trimming_takes_white_space_only(s: Seq<char>) -> (ab: (int, int))
    ensures
        ({
            let (a, b) = ab;
            let t = text::trimmed(s);
            &&& 0 <= a <= b <= s.len()
            &&& t == s.subrange(a, b)
            &&& forall|i: int| 0 <= i < a ==> text::is_space(#[trigger] s[i])
            &&& forall|i: int| b <= i < s.len() ==> text::is_space(#[trigger] s[i])
            &&& t.len() > 0 ==> !text::is_space(t[0]) && !text::is_space(t[t.len() - 1])
        }),
{
    let a = lemma_trim_start(s);
    let mid = s.skip(a);
    let k = lemma_trim_end(mid);
    assert(mid.take(k) =~= s.subrange(a, a + k));
    assert forall|i: int| a + k <= i < s.len() implies text::is_space(#[trigger] s[i]) by {
        assert(mid[i - a] == s[i]);
    }
    (a, a + k)
}

/// The classes that are synced: folders and the three kinds of scripts.
pub proof fn law_scripts_and_folders_are_in_scope(class: Seq<char>)
    ensures
        sync_scope::is_script(class) <==> class == "Script"@ || class == "LocalScript"@ || class
            == "ModuleScript"@,
        sync_scope::in_scope(class) <==> sync_scope::is_script(class) || class == "Folder"@,
        diff::kind_of(class) == DiffKind::Script <==> sync_scope::is_script(class),
{
}

/// A part of a tree is cut short exactly where a node on some way down from it is.
pub proof fn law_cut_is_found_below(t: Seq<TreeNode>, i: int, k: int)
    requires
        0 <= i < t.len(),
        0 <= k < t[i].children@.len(),
        i < t[i].children@[k] < t.len(),
    ensures
        t[i].truncated ==> diff::truncated_in(t, i),
        diff::truncated_in(t, t[i].children@[k] as int) ==> diff::truncated_in(t, i),
{
}

/// A part of a tree of which no node is cut short is not.
pub proof fn law_whole_tree_is_not_cut(t: Seq<TreeNode>, i: int)
    requires
        forall|j: int| 0 <= j < t.len() ==> !(#[trigger] t[j]).truncated,
    ensures
        !diff::truncated_in(t, i),
    decreases t.len() - i,
{
    if diff::truncated_in(t, i) {
        assert(!t[i].truncated);
        let k = choose|k: int|
            0 <= k < t[i].children@.len() && i < #[trigger] t[i].children@[k] < t.len()
                && diff::truncated_in(t, t[i].children@[k] as int);
        law_whole_tree_is_not_cut(t, t[i].children@[k] as int);
    }
}

/// The scripts of a side are told with their paths and the paths of their sources.
pub proof fn law_scripts_are_told_with_their_sources(m: TextMap<DiffNode>, n: int, p: (Seq<char>, Seq<char>))
    requires
        0 <= n <= m.entries@.len(),
    ensures
        diff::script_paths(m, n).contains(p) <==> exists|k: int|
            0 <= k < n && (#[trigger] m.entries@[k]).1.kind == DiffKind::Script
                && m.entries@[k].1.path@ == p.0 && m.entries@[k].1.source_path@ == p.1,
    decreases n,
{
    if n > 0 {
        law_scripts_are_told_with_their_sources(m, n - 1, p);
        let before = diff::script_paths(m, n - 1);
        let all = diff::script_paths(m, n);
        let node = m.entries@[n - 1].1;
        if node.kind == DiffKind::Script {
            let x = (node.path@, node.source_path@);
            assert(all[before.len() as int] == x);
            if before.contains(p) {
                let i = choose|i: int| 0 <= i < before.len() && before[i] == p;
                assert(all[i] == p);
            }
            if all.contains(p) && p != x {
                let i = choose|i: int| 0 <= i < all.len() && all[i] == p;
                assert(before[i] == p);
            }
        }
    }
}

/// A selection under way is aborted exactly where it is the one that is named and
/// still kept; where none is kept there is nothing to abort.
pub proof fn law_named_selection_is_aborted(
    p: PendingInitial,
    submission: Seq<char>,
    now: u64,
)
    requires
        p.choice is None,
    ensures
        ({
            let r = selection::abort_outcome(Some(p), p.choice_id@, submission, now);
            let kept = p.selection is Some && now < p.selection->0.updated_at + 300_000;
            &&& r == Ok::<bool, SelectionProblem>(true) <==> kept
                && p.selection->0.submission_id@ == submission
            &&& r == Ok::<bool, SelectionProblem>(false) <==> !kept
            &&& kept && p.selection->0.submission_id@ != submission ==> r == Err::<
                bool,
                SelectionProblem,
            >(SelectionProblem::OtherAbort)
        }),
{
}

/// The files of a directory are found by their names, without regard to case.
pub proof fn law_files_are_found_by_name(t: Seq<TreeNode>, parent: int, n: int, k: int)
    requires
        0 <= k < n <= t[parent].children@.len(),
        t[t[parent].children@[k] as int].disk_fragment is Some,
        forall|j: int|
            k < j < n && t[(#[trigger] t[parent].children@[j]) as int].disk_fragment is Some
                ==> text::lower(t[t[parent].children@[j] as int].disk_fragment->0@) != text::lower(
                t[t[parent].children@[k] as int].disk_fragment->0@,
            ),
    ensures
        ({
            let name = text::lower(t[t[parent].children@[k] as int].disk_fragment->0@);
            let shelf = reservations::shelved(t, parent, n);
            shelf.contains_key(name) && shelf[name] == t[parent].children@[k]
        }),
    decreases n,
{
    if k < n - 1 {
        law_files_are_found_by_name(t, parent, n - 1, k);
        let last = t[parent].children@[n - 1];
    }
}

/// Only a marked child is placed: at the file that has one of its names, or, where
/// none has and it stands for something that is kept from syncing, at a new one.
pub proof fn law_only_marked_children_are_placed(
    shelf: Shelf,
    studio: Seq<TreeNode>,
    child: PlannedChild,
)
    ensures
        ({
            let (place, after) = reservations::place_child(shelf, studio, child);
            let known = exists|k: int|
                0 <= k < child.fragments@.len() && shelf.known.contains_key(
                    text::lower((#[trigger] child.fragments@[k]).0@),
                );
            let marked = reservations::marked(studio, child.node as int);
            &&& !marked ==> place is None && after == shelf
            &&& marked && known ==> place is Some && !place->0.added && after == shelf
            &&& place is Some && place->0.added ==> marked && !known
                && studio[child.node as int].is_reservation() && after.count == shelf.count + 1
        }),
{
    lemma_first_known(shelf.known, child.fragments@, 0);
}

proof fn lemma_first_known(known: Map<Seq<char>, usize>, fragments: Seq<(String, bool)>, from: int)
    requires
        0 <= from,
    ensures
        reservations::first_known(known, fragments, from) is Some <==> exists|k: int|
            from <= k < fragments.len() && known.contains_key(
                text::lower((#[trigger] fragments[k]).0@),
            ),
    decreases fragments.len() - from,
{
    if from < fragments.len() {
        lemma_first_known(known, fragments, from + 1);
    }
}

} // verus!
