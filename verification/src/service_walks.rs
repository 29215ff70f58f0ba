//! What a whole walk of a service comes to: a capture lists each file and directory
//! below it, once, in the order of the relative paths, and a count counts them.
use vstd::prelude::*;
use vstd::utf8::*;

use crate::fs_safety;
use crate::fs_safety::{
    by_relative, captured, component_key, fresh_walk, opened, relative_below, relative_rows,
    EntryModel, OpenModel, SafeEntryKind, TreeEntryModel, WalkModel,
};
use crate::fs_map;
use crate::initial_sync;
use crate::initial_sync::{counted_below, tally_directory, tally_from, CountedModel, Tally};
use crate::ranking;
use crate::text_map;

verus! {

/// Whether a file system can give something that name.
pub open spec fn is_name(fragment: Seq<char>) -> bool {
    fragment.len() > 0 && !fragment.contains('/') && !fragment.contains('\0')
}

/// Whether a directory can hold those entries: no name twice.
pub open spec fn is_listing(entries: Seq<EntryModel>) -> bool {
    &&& forall|i: int| 0 <= i < entries.len() ==> is_name((#[trigger] entries[i]).fragment)
    &&& forall|i: int, j: int|
        0 <= i < j < entries.len() ==> (#[trigger] entries[i]).fragment != (
        #[trigger] entries[j]).fragment
}

/// Whether a function from a directory's path to its entries is a disk.
pub open spec fn is_disk(disk: spec_fn(Seq<char>) -> Seq<EntryModel>) -> bool {
    forall|path: Seq<char>| is_listing(#[trigger] disk(path))
}

/// The path that leads by those names down from a root.
pub open spec fn path_of(root: Seq<char>, names: Seq<Seq<char>>) -> Seq<char>
    decreases names.len(),
{
    if names.len() == 0 {
        root
    } else {
        fs_safety::below(path_of(root, names.drop_last()), names.last())
    }
}

/// The relative path of those names.
pub open spec fn relative_of(names: Seq<Seq<char>>) -> Seq<char>
    decreases names.len(),
{
    if names.len() == 0 {
        Seq::empty()
    } else {
        relative_below(relative_of(names.drop_last()), names.last())
    }
}

/// Whether those names lead to a directory, each the name of one.
pub open spec fn is_directory(
    disk: spec_fn(Seq<char>) -> Seq<EntryModel>,
    root: Seq<char>,
    names: Seq<Seq<char>>,
) -> bool
    decreases names.len(),
{
    names.len() == 0 || {
        &&& is_directory(disk, root, names.drop_last())
        &&& exists|d: EntryModel| #[trigger]
            disk(path_of(root, names.drop_last())).contains(d) && d.fragment == names.last()
                && d.kind == SafeEntryKind::Directory
    }
}

/// Whether an entry is where those names lead to.
pub open spec fn lies(
    disk: spec_fn(Seq<char>) -> Seq<EntryModel>,
    root: Seq<char>,
    names: Seq<Seq<char>>,
    e: EntryModel,
) -> bool {
    &&& names.len() > 0
    &&& is_directory(disk, root, names.drop_last())
    &&& disk(path_of(root, names.drop_last())).contains(e)
    &&& e.fragment == names.last()
}

/// The captured form of an entry.
pub open spec fn entry_at(root: Seq<char>, names: Seq<Seq<char>>, e: EntryModel) -> TreeEntryModel {
    TreeEntryModel {
        path: path_of(root, names),
        relative: relative_of(names),
        kind: e.kind,
        generation: e.generation,
    }
}

/// Whether a captured entry is one of those below the root.
pub open spec fn is_below(
    disk: spec_fn(Seq<char>) -> Seq<EntryModel>,
    root: Seq<char>,
    t: TreeEntryModel,
) -> bool {
    exists|names: Seq<Seq<char>>, e: EntryModel| #[trigger]
        lies(disk, root, names, e) && t == entry_at(root, names, e)
}

/// Whether the states are those of a whole capture on an unchanging disk.
pub open spec fn is_walk(
    disk: spec_fn(Seq<char>) -> Seq<EntryModel>,
    root: Seq<char>,
    states: Seq<WalkModel>,
) -> bool {
    &&& states.len() > 0
    &&& states[0] == fresh_walk(root)
    &&& states.last().stack.len() == 0
    &&& forall|i: int|
        0 <= i < states.len() - 1 ==> {
            &&& (#[trigger] states[i]).stack.len() > 0
            &&& states[i + 1] == states[i].visited(disk(states[i].stack.last().path))
        }
}

/// Whether `names` leads to something inside the directory `base`.
spec fn inside(base: Seq<Seq<char>>, names: Seq<Seq<char>>) -> bool {
    base.len() < names.len() && names.take(base.len() as int) == base
}

/// The names of what is listed and of what is still to be read, in their places.
spec fn keeps(
    disk: spec_fn(Seq<char>) -> Seq<EntryModel>,
    root: Seq<char>,
    w: WalkModel,
    listed: Seq<(Seq<Seq<char>>, EntryModel)>,
    open: Seq<Seq<Seq<char>>>,
) -> bool {
    &&& w.entries.len() == listed.len()
    &&& w.stack.len() == open.len()
    &&& forall|i: int|
        0 <= i < listed.len() ==> {
            &&& lies(disk, root, (#[trigger] listed[i]).0, listed[i].1)
            &&& w.entries[i] == entry_at(root, listed[i].0, listed[i].1)
        }
    &&& forall|i: int|
        0 <= i < open.len() ==> {
            &&& is_directory(disk, root, #[trigger] open[i])
            &&& w.stack[i].path == path_of(root, open[i])
            &&& w.stack[i].relative == relative_of(open[i])
        }
    &&& forall|i: int, j: int|
        0 <= i < listed.len() && 0 <= j < listed.len() && i != j ==> (#[trigger] listed[i]).0 != (
        #[trigger] listed[j]).0
    &&& forall|i: int, j: int|
        0 <= i < open.len() && 0 <= j < open.len() && i != j ==> {
            &&& #[trigger] open[i] != #[trigger] open[j]
            &&& !inside(open[i], open[j])
        }
    &&& forall|i: int, j: int|
        0 <= i < listed.len() && 0 <= j < open.len() ==> !inside(
            #[trigger] open[j],
            (#[trigger] listed[i]).0,
        )
    &&& forall|names: Seq<Seq<char>>, e: EntryModel| #[trigger]
        lies(disk, root, names, e) ==> listed.contains((names, e)) || exists|j: int|
            0 <= j < open.len() && inside(#[trigger] open[j], names)
}

spec fn entries_of(listed: Seq<(Seq<Seq<char>>, EntryModel)>) -> Seq<EntryModel> {
    Seq::new(listed.len(), |i: int| listed[i].1)
}

/// The places of the directories from `k` on, the first one last.
spec fn directory_places(entries: Seq<EntryModel>, k: int) -> Seq<int>
    decreases entries.len() - k,
{
    if k < 0 || k >= entries.len() {
        Seq::empty()
    } else {
        let rest = directory_places(entries, k + 1);
        if entries[k].kind == SafeEntryKind::Directory {
            rest.push(k)
        } else {
            rest
        }
    }
}

proof fn lemma_directory_places(d: OpenModel, entries: Seq<EntryModel>, k: int)
    requires
        0 <= k <= entries.len(),
    ensures
        ({
            let places = directory_places(entries, k);
            &&& opened(d, entries, k).len() == places.len()
            &&& forall|x: int|
                0 <= x < places.len() ==> {
                    &&& k <= #[trigger] places[x] < entries.len()
                    &&& entries[places[x]].kind == SafeEntryKind::Directory
                    &&& opened(d, entries, k)[x].path == fs_safety::below(
                        d.path,
                        entries[places[x]].fragment,
                    )
                    &&& opened(d, entries, k)[x].relative == relative_below(
                        d.relative,
                        entries[places[x]].fragment,
                    )
                }
            &&& forall|x: int, y: int|
                0 <= x < y < places.len() ==> #[trigger] places[x] > #[trigger] places[y]
            &&& forall|i: int|
                k <= i < entries.len() && (#[trigger] entries[i]).kind == SafeEntryKind::Directory
                    ==> places.contains(i)
        }),
    decreases entries.len() - k,
{
    if k < entries.len() {
        lemma_directory_places(d, entries, k + 1);
        let rest = directory_places(entries, k + 1);
        let places = directory_places(entries, k);
        assert forall|i: int|
            k <= i < entries.len() && (#[trigger] entries[i]).kind
                == SafeEntryKind::Directory implies places.contains(i) by {
            if i == k {
                assert(places[places.len() - 1] == k);
            } else {
                assert(rest.contains(i));
                let x = choose|x: int| 0 <= x < rest.len() && rest[x] == i;
                assert(places[x] == i);
            }
        }
    }
}

proof fn lemma_child(base: Seq<Seq<char>>, name: Seq<char>)
    ensures
        base.push(name).drop_last() == base,
        base.push(name).last() == name,
        inside(base, base.push(name)),
        forall|n: Seq<Seq<char>>| inside(base.push(name), n) ==> inside(base, n),
        forall|s: Seq<Seq<char>>| inside(s, base.push(name)) ==> s == base || inside(s, base),
        forall|s: Seq<Seq<char>>, n: Seq<Seq<char>>|
            #![trigger inside(s, n), inside(base.push(name), n)]
            inside(s, n) && s == base.push(name) ==> inside(base, n),
{
    let child = base.push(name);
    assert(child.drop_last() =~= base);
    assert(child.take(base.len() as int) =~= base);
    assert forall|n: Seq<Seq<char>>| inside(child, n) implies inside(base, n) by {
        assert(n.take(base.len() as int) =~= n.take(child.len() as int).take(base.len() as int));
    }
    assert forall|s: Seq<Seq<char>>| inside(s, child) implies s == base || inside(s, base) by {
        assert(child.take(s.len() as int) =~= base.take(s.len() as int));
        assert(base.take(base.len() as int) =~= base);
    }
}

/// The listed entries and open directories after another directory was read.
proof fn lemma_step(
    disk: spec_fn(Seq<char>) -> Seq<EntryModel>,
    root: Seq<char>,
    w: WalkModel,
    listed: Seq<(Seq<Seq<char>>, EntryModel)>,
    open: Seq<Seq<Seq<char>>>,
) -> (r: (Seq<(Seq<Seq<char>>, EntryModel)>, Seq<Seq<Seq<char>>>))
    requires
        is_disk(disk),
        keeps(disk, root, w, listed, open),
        w.stack.len() > 0,
    ensures
        keeps(disk, root, w.visited(disk(w.stack.last().path)), r.0, r.1),
        entries_of(r.0) == entries_of(listed) + disk(w.stack.last().path),
{
    let d = w.stack.last();
    let base = open.last();
    let found = disk(d.path);
    let next = w.visited(found);
    assert(is_listing(found));
    assert(d.path == path_of(root, base) && d.relative == relative_of(base)) by {
        assert(open[open.len() - 1] == base);
    }
    assert(is_directory(disk, root, base)) by {
        assert(open[open.len() - 1] == base);
    }
    lemma_directory_places(d, found, 0);
    let places = directory_places(found, 0);
    let added = Seq::new(found.len(), |i: int| (base.push(found[i].fragment), found[i]));
    let below = Seq::new(places.len(), |x: int| base.push(found[places[x]].fragment));
    let rest = open.drop_last();
    let l = listed + added;
    let o = rest + below;
    let n: int = listed.len() as int;
    let m: int = rest.len() as int;
    assert forall|i: int| 0 <= i < found.len() implies lies(
        disk,
        root,
        #[trigger] base.push(found[i].fragment),
        found[i],
    ) by {
        lemma_child(base, found[i].fragment);
        assert(found.contains(found[i]));
    }
    assert forall|i: int| 0 <= i < l.len() implies ({
        &&& lies(disk, root, (#[trigger] l[i]).0, l[i].1)
        &&& next.entries[i] == entry_at(root, l[i].0, l[i].1)
    }) by {
        if i < n {
            assert(l[i] == listed[i]);
        } else {
            let e = found[i - n];
            assert(l[i] == (base.push(e.fragment), e));
            lemma_child(base, e.fragment);
            assert(next.entries[i] == captured(d, found)[i - n]);
        }
    }
    assert forall|i: int| 0 <= i < o.len() implies ({
        &&& is_directory(disk, root, #[trigger] o[i])
        &&& next.stack[i].path == path_of(root, o[i])
        &&& next.stack[i].relative == relative_of(o[i])
    }) by {
        if i < m {
            assert(o[i] == open[i]);
            assert(next.stack[i] == w.stack[i]);
        } else {
            let p = places[i - m];
            assert(o[i] == base.push(found[p].fragment));
            lemma_child(base, found[p].fragment);
            assert(disk(path_of(root, o[i].drop_last())).contains(found[p]));
            assert(next.stack[i] == opened(d, found, 0)[i - m]);
        }
    }
    assert forall|i: int, j: int|
        0 <= i < l.len() && 0 <= j < l.len() && i != j implies (#[trigger] l[i]).0 != (
    #[trigger] l[j]).0 by {
        if i < n && j < n {
            assert(l[i] == listed[i] && l[j] == listed[j]);
        } else if i >= n && j >= n {
            assert(l[i].0.last() == found[i - n].fragment);
            assert(l[j].0.last() == found[j - n].fragment);
        } else {
            let old_at = if i < n {
                i
            } else {
                j
            };
            let new_at = if i < n {
                j
            } else {
                i
            };
            assert(l[old_at] == listed[old_at]);
            lemma_child(base, found[new_at - n].fragment);
            assert(inside(base, l[new_at].0));
            assert(!inside(open[open.len() - 1], listed[old_at].0));
        }
    }
    assert forall|i: int, j: int| 0 <= i < o.len() && 0 <= j < o.len() && i != j implies ({
        &&& #[trigger] o[i] != #[trigger] o[j]
        &&& !inside(o[i], o[j])
    }) by {
        let last = open.len() - 1;
        assert(open[last] == base);
        if i < m && j < m {
            assert(o[i] == open[i] && o[j] == open[j]);
        } else if i >= m && j >= m {
            assert(o[i].last() == found[places[i - m]].fragment);
            assert(o[j].last() == found[places[j - m]].fragment);
            assert(places[i - m] != places[j - m]);
        } else if i < m {
            assert(o[i] == open[i]);
            lemma_child(base, found[places[j - m]].fragment);
            assert(open[i] != open[last] && !inside(open[i], open[last]) && !inside(
                open[last],
                open[i],
            ));
        } else {
            assert(o[j] == open[j]);
            lemma_child(base, found[places[i - m]].fragment);
            assert(open[j] != open[last] && !inside(open[j], open[last]) && !inside(
                open[last],
                open[j],
            ));
        }
    }
    assert forall|i: int, j: int| 0 <= i < l.len() && 0 <= j < o.len() implies !inside(
        #[trigger] o[j],
        (#[trigger] l[i]).0,
    ) by {
        let last = open.len() - 1;
        assert(open[last] == base);
        if i < n {
            assert(l[i] == listed[i]);
            assert(!inside(open[last], listed[i].0));
            if j < m {
                assert(o[j] == open[j]);
            } else {
                lemma_child(base, found[places[j - m]].fragment);
            }
        } else {
            lemma_child(base, found[i - n].fragment);
            if j < m {
                assert(o[j] == open[j]);
                assert(open[j] != open[last] && !inside(open[j], open[last]));
            }
        }
    }
    assert forall|names: Seq<Seq<char>>, e: EntryModel| #[trigger]
        lies(disk, root, names, e) implies l.contains((names, e)) || exists|j: int|
        0 <= j < o.len() && inside(#[trigger] o[j], names) by {
        if listed.contains((names, e)) {
            let i = choose|i: int| 0 <= i < listed.len() && listed[i] == (names, e);
            assert(l[i] == (names, e));
        } else {
            let j = choose|j: int| 0 <= j < open.len() && inside(#[trigger] open[j], names);
            if j < m {
                assert(o[j] == open[j]);
            } else {
                assert(open[j] == base);
                lemma_first_below(disk, root, base, names, e);
                let c = names[base.len() as int];
                let x = choose|x: EntryModel|
                    #![trigger found.contains(x)]
                    found.contains(x) && x.fragment == c && (names.len() == base.len() + 1 ==> x
                        == e) && (names.len() > base.len() + 1 ==> x.kind
                        == SafeEntryKind::Directory);
                let at = choose|at: int| 0 <= at < found.len() && found[at] == x;
                if names.len() == base.len() + 1 {
                    assert(names =~= base.push(c));
                    assert(l[n + at] == (names, e));
                } else {
                    assert(places.contains(at));
                    let y = choose|y: int| 0 <= y < places.len() && places[y] == at;
                    assert(o[m + y] == base.push(c));
                    assert(names.take((base.len() + 1) as int) =~= base.push(c));
                    assert(inside(o[m + y], names));
                }
            }
        }
    }
    assert(entries_of(l) =~= entries_of(listed) + found);
    (l, o)
}

/// What lies inside a directory lies in or below one of its entries.
proof fn lemma_first_below(
    disk: spec_fn(Seq<char>) -> Seq<EntryModel>,
    root: Seq<char>,
    base: Seq<Seq<char>>,
    names: Seq<Seq<char>>,
    e: EntryModel,
)
    requires
        lies(disk, root, names, e),
        inside(base, names),
    ensures
        exists|x: EntryModel|
            #![trigger disk(path_of(root, base)).contains(x)]
            disk(path_of(root, base)).contains(x) && x.fragment == names[base.len() as int] && (
            names.len() == base.len() + 1 ==> x == e) && (names.len() > base.len() + 1 ==> x.kind
                == SafeEntryKind::Directory),
    decreases names.len(),
{
    let up = names.drop_last();
    if names.len() == base.len() + 1 {
        assert(up =~= base);
        assert(disk(path_of(root, base)).contains(e));
    } else {
        let d = choose|d: EntryModel| #[trigger]
            disk(path_of(root, up.drop_last())).contains(d) && d.fragment == up.last() && d.kind
                == SafeEntryKind::Directory;
        assert(up.take(base.len() as int) =~= base);
        lemma_first_below(disk, root, base, up, d);
        let x = choose|x: EntryModel|
            #![trigger disk(path_of(root, base)).contains(x)]
            disk(path_of(root, base)).contains(x) && x.fragment == up[base.len() as int] && (
            up.len() == base.len() + 1 ==> x == d) && (up.len() > base.len() + 1 ==> x.kind
                == SafeEntryKind::Directory);
        assert(disk(path_of(root, base)).contains(x));
    }
}

proof fn lemma_fresh(disk: spec_fn(Seq<char>) -> Seq<EntryModel>, root: Seq<char>)
    ensures
        keeps(
            disk,
            root,
            fresh_walk(root),
            Seq::<(Seq<Seq<char>>, EntryModel)>::empty(),
            seq![Seq::<Seq<char>>::empty()],
        ),
{
    let open = seq![Seq::<Seq<char>>::empty()];
    let listed = Seq::<(Seq<Seq<char>>, EntryModel)>::empty();
    assert forall|names: Seq<Seq<char>>, e: EntryModel| #[trigger]
        lies(disk, root, names, e) implies listed.contains((names, e)) || exists|j: int|
        0 <= j < open.len() && inside(#[trigger] open[j], names) by {
        assert(names.take(0) =~= Seq::<Seq<char>>::empty());
        assert(inside(open[0], names));
    }
}

proof fn lemma_state(
    disk: spec_fn(Seq<char>) -> Seq<EntryModel>,
    root: Seq<char>,
    states: Seq<WalkModel>,
    k: int,
) -> (r: (Seq<(Seq<Seq<char>>, EntryModel)>, Seq<Seq<Seq<char>>>))
    requires
        is_disk(disk),
        is_walk(disk, root, states),
        0 <= k < states.len(),
    ensures
        keeps(disk, root, states[k], r.0, r.1),
    decreases k,
{
    if k == 0 {
        lemma_fresh(disk, root);
        (Seq::empty(), seq![Seq::<Seq<char>>::empty()])
    } else {
        let (listed, open) = lemma_state(disk, root, states, k - 1);
        assert(states[k - 1 + 1] == states[k - 1].visited(disk(states[k - 1].stack.last().path)));
        lemma_step(disk, root, states[k - 1], listed, open)
    }
}

/// A byte of a text is zero only for the zero character.
proof fn lemma_no_zero_byte(s: Seq<char>, k: int)
    requires
        !s.contains('\0'),
        0 <= k < encode_utf8(s).len(),
    ensures
        encode_utf8(s)[k] != 0,
    decreases s.len(),
{
    let c = s[0] as u32;
    let rest = s.drop_first();
    let head = encode_scalar(c);
    assert(s.contains(s[0]));
    assert(c != 0) by {
        if c == 0 {
            char_u32_cast(s[0], c);
            char_u32_cast('\0', c);
        }
    }
    assert(c != 0 && c <= 0x7f ==> (c & 0x7F) as u8 != 0) by (bit_vector);
    assert((0xC0 | ((c >> 6) & 0x1F) as u8) != 0) by (bit_vector);
    assert((0xE0 | ((c >> 12) & 0x0F) as u8) != 0) by (bit_vector);
    assert((0xF0 | ((c >> 18) & 0x7) as u8) != 0) by (bit_vector);
    assert((0x80 | (c & 0x3F) as u8) != 0) by (bit_vector);
    assert((0x80 | ((c >> 6) & 0x3F) as u8) != 0) by (bit_vector);
    assert((0x80 | ((c >> 12) & 0x3F) as u8) != 0) by (bit_vector);
    if k >= head.len() {
        assert(!rest.contains('\0')) by {
            if rest.contains('\0') {
                let i = choose|i: int| 0 <= i < rest.len() && rest[i] == '\0';
                assert(s[i + 1] == '\0');
            }
        }
        lemma_no_zero_byte(rest, k - head.len());
    }
}

/// The names that lead to an entry are names.
proof fn lemma_names(
    disk: spec_fn(Seq<char>) -> Seq<EntryModel>,
    root: Seq<char>,
    names: Seq<Seq<char>>,
    k: int,
)
    requires
        is_disk(disk),
        is_directory(disk, root, names) || exists|e: EntryModel| lies(disk, root, names, e),
        0 <= k < names.len(),
    ensures
        is_name(names[k]),
    decreases names.len(),
{
    let up = names.drop_last();
    let e = choose|e: EntryModel| #[trigger]
        disk(path_of(root, up)).contains(e) && e.fragment == names.last();
    assert(is_listing(disk(path_of(root, up))));
    if k == names.len() - 1 {
        if is_directory(disk, root, names) {
        } else {
            let x = choose|e: EntryModel| lies(disk, root, names, e);
            assert(disk(path_of(root, up)).contains(x));
        }
        assert(disk(path_of(root, up)).contains(e) && e.fragment == names.last());
    } else {
        assert(is_directory(disk, root, up));
        lemma_names(disk, root, up, k);
    }
}

spec fn all_names(names: Seq<Seq<char>>) -> bool {
    forall|k: int| 0 <= k < names.len() ==> is_name(#[trigger] names[k])
}

proof fn lemma_relative(names: Seq<Seq<char>>)
    requires
        all_names(names),
    ensures
        names.len() > 0 <==> relative_of(names).len() > 0,
        !relative_of(names).contains('\0'),
        names.len() > 1 ==> relative_of(names) == relative_of(names.drop_last()) + "/"@
            + names.last(),
        names.len() == 1 ==> relative_of(names) == names[0],
    decreases names.len(),
{
    reveal_strlit("/");
    if names.len() > 0 {
        let up = names.drop_last();
        assert(all_names(up)) by {
            assert forall|k: int| 0 <= k < up.len() implies is_name(#[trigger] up[k]) by {
                assert(is_name(names[k]));
            }
        }
        lemma_relative(up);
        assert(is_name(names[names.len() - 1]));
        let whole = relative_of(names);
        let first = relative_of(up);
        if whole.contains('\0') {
            let i = choose|i: int| 0 <= i < whole.len() && whole[i] == '\0';
            if first.len() == 0 {
                assert(names.last()[i] == '\0');
            } else if i < first.len() {
                assert(first[i] == '\0');
            } else if i == first.len() {
                assert(whole[i] == '/');
            } else {
                assert(names.last()[i - first.len() - 1] == '\0');
            }
        }
    }
}

/// A relative path tells the names.
proof fn lemma_relative_injective(a: Seq<Seq<char>>, b: Seq<Seq<char>>)
    requires
        all_names(a),
        all_names(b),
        relative_of(a) == relative_of(b),
    ensures
        a == b,
    decreases a.len(),
{
    reveal_strlit("/");
    lemma_relative(a);
    lemma_relative(b);
    if a.len() == 0 {
        assert(a =~= b);
    } else {
        let x = a.last();
        let y = b.last();
        let ra = relative_of(a);
        assert(is_name(a[a.len() - 1]) && is_name(b[b.len() - 1]));
        if x.len() < y.len() {
            if a.len() > 1 {
                let at = ra.len() - x.len() - 1;
                assert(ra[at] == '/');
                assert(y[y.len() - x.len() - 1] == '/');
            }
        }
        if y.len() < x.len() {
            if b.len() > 1 {
                let at = ra.len() - y.len() - 1;
                assert(ra[at] == '/');
                assert(x[x.len() - y.len() - 1] == '/');
            }
        }
        assert(x.len() == y.len());
        assert(x =~= y) by {
            assert(x =~= ra.skip(ra.len() - x.len()));
            assert(y =~= ra.skip(ra.len() - y.len()));
        }
        let p = a.drop_last();
        let q = b.drop_last();
        assert(all_names(p)) by {
            assert forall|k: int| 0 <= k < p.len() implies is_name(#[trigger] p[k]) by {
                assert(is_name(a[k]));
            }
        }
        assert(all_names(q)) by {
            assert forall|k: int| 0 <= k < q.len() implies is_name(#[trigger] q[k]) by {
                assert(is_name(b[k]));
            }
        }
        lemma_relative(p);
        lemma_relative(q);
        if a.len() == 1 {
            assert(ra.len() == x.len());
            assert(b.len() == 1);
            assert(a =~= b);
        } else {
            assert(b.len() > 1);
            assert(relative_of(p) =~= ra.take(ra.len() - x.len() - 1));
            assert(relative_of(q) =~= ra.take(ra.len() - y.len() - 1));
            lemma_relative_injective(p, q);
            assert(a =~= p.push(x));
            assert(b =~= q.push(y));
        }
    }
}

/// The order of relative paths: component by component.
pub open spec fn relative_less(a: Seq<char>, b: Seq<char>) -> bool {
    text_map::byte_less(component_key(encode_utf8(a)), component_key(encode_utf8(b)))
}

/// Paths of names have different keys.
proof fn lemma_key_injective(a: Seq<Seq<char>>, b: Seq<Seq<char>>)
    requires
        all_names(a),
        all_names(b),
        component_key(encode_utf8(relative_of(a))) == component_key(encode_utf8(relative_of(b))),
    ensures
        a == b,
{
    let x = encode_utf8(relative_of(a));
    let y = encode_utf8(relative_of(b));
    lemma_relative(a);
    lemma_relative(b);
    assert(component_key(x).len() == x.len() && component_key(y).len() == y.len());
    assert forall|i: int| 0 <= i < x.len() implies #[trigger] x[i] == y[i] by {
        lemma_no_zero_byte(relative_of(a), i);
        lemma_no_zero_byte(relative_of(b), i);
        assert(component_key(x)[i] == component_key(y)[i]);
    }
    assert(x =~= y);
    encode_utf8_decode_utf8(relative_of(a));
    encode_utf8_decode_utf8(relative_of(b));
    lemma_relative_injective(a, b);
}

/// A whole capture lists each file and directory at any depth below the service,
/// and nothing else, in strictly ascending order of the relative paths: so each of
/// them once.
pub proof fn law_capture_lists_each_entry_once(
    disk: spec_fn(Seq<char>) -> Seq<EntryModel>,
    root: Seq<char>,
    states: Seq<WalkModel>,
)
    requires
        is_disk(disk),
        is_walk(disk, root, states),
    ensures
        ({
            let t = by_relative(states.last().entries);
            &&& forall|i: int| 0 <= i < t.len() ==> is_below(disk, root, #[trigger] t[i])
            &&& forall|names: Seq<Seq<char>>, e: EntryModel| #[trigger]
                lies(disk, root, names, e) ==> t.contains(entry_at(root, names, e))
            &&& forall|i: int, j: int|
                0 <= i < j < t.len() ==> relative_less(
                    (#[trigger] t[i]).relative,
                    (#[trigger] t[j]).relative,
                )
        }),
{
    let whole = states.last().entries;
    let t = by_relative(whole);
    let rows = relative_rows(whole);
    let order = ranking::ranking(rows);
    let (listed, open) = lemma_state(disk, root, states, states.len() - 1);
    ranking::lemma_ranking(rows);
    assert forall|i: int| 0 <= i < t.len() implies is_below(disk, root, #[trigger] t[i]) by {
        let at = order[i];
        assert(lies(disk, root, listed[at].0, listed[at].1));
        assert(t[i] == entry_at(root, listed[at].0, listed[at].1));
    }
    assert forall|names: Seq<Seq<char>>, e: EntryModel| #[trigger]
        lies(disk, root, names, e) implies t.contains(entry_at(root, names, e)) by {
        assert(listed.contains((names, e)));
        let at = choose|at: int| 0 <= at < listed.len() && listed[at] == (names, e);
        assert(order.contains(at));
        let i = choose|i: int| 0 <= i < order.len() && order[i] == at;
        assert(t[i] == entry_at(root, names, e));
    }
    assert forall|i: int, j: int| 0 <= i < j < t.len() implies relative_less(
        (#[trigger] t[i]).relative,
        (#[trigger] t[j]).relative,
    ) by {
        let a = order[i];
        let b = order[j];
        assert(ranking::row_less(rows, a, b));
        ranking::lemma_row_less_asymmetric(rows, a, b);
        assert(a != b);
        let p = listed[a].0;
        let q = listed[b].0;
        assert(p != q);
        assert(lies(disk, root, p, listed[a].1) && lies(disk, root, q, listed[b].1));
        assert forall|k: int| 0 <= k < p.len() implies is_name(#[trigger] p[k]) by {
            lemma_names(disk, root, p, k);
        }
        assert forall|k: int| 0 <= k < q.len() implies is_name(#[trigger] q[k]) by {
            lemma_names(disk, root, q, k);
        }
        if rows[a].key == rows[b].key {
            lemma_key_injective(p, q);
        }
    }
}

proof fn lemma_same_states(
    disk: spec_fn(Seq<char>) -> Seq<EntryModel>,
    root: Seq<char>,
    s: Seq<WalkModel>,
    t: Seq<WalkModel>,
    k: int,
)
    requires
        is_walk(disk, root, s),
        is_walk(disk, root, t),
        0 <= k < s.len(),
        k < t.len(),
    ensures
        s[k] == t[k],
    decreases k,
{
    if k > 0 {
        lemma_same_states(disk, root, s, t, k - 1);
        assert(s[k - 1 + 1] == s[k - 1].visited(disk(s[k - 1].stack.last().path)));
        assert(t[k - 1 + 1] == t[k - 1].visited(disk(t[k - 1].stack.last().path)));
    }
}

proof fn lemma_listing_problem(
    s: Seq<fs_safety::ScannedEntry>,
    policy: fs_safety::DirectoryPolicy,
    k: int,
    at: int,
)
    requires
        0 <= k <= at < s.len(),
        fs_safety::entry_problem(s[at], at, policy) is Some,
    ensures
        fs_safety::listing_problem(s, policy, k) is Some,
    decreases at - k,
{
    if k < at {
        lemma_listing_problem(s, policy, k + 1, at);
    }
}

/// A directory of a service that holds a link is not read.
pub proof fn law_link_below_a_service_is_refused(
    directory: Seq<char>,
    before: fs_safety::FileGeneration,
    listing: Seq<fs_safety::ScannedEntry>,
    after: Option<fs_safety::Observed>,
    k: int,
)
    requires
        0 <= k < listing.len(),
        listing[k].seen is Some,
        listing[k].seen->0.kind.is_link(),
    ensures
        fs_safety::reading(
            directory,
            fs_safety::DirectoryPolicy::SyncedProjection,
            before,
            listing,
            after,
        ) is Err,
{
    lemma_listing_problem(listing, fs_safety::DirectoryPolicy::SyncedProjection, 0, k);
}

/// A second capture of an unchanged service lists the same.
pub proof fn law_second_capture_is_equal(
    disk: spec_fn(Seq<char>) -> Seq<EntryModel>,
    root: Seq<char>,
    s: Seq<WalkModel>,
    t: Seq<WalkModel>,
)
    requires
        is_walk(disk, root, s),
        is_walk(disk, root, t),
    ensures
        by_relative(s.last().entries) == by_relative(t.last().entries),
{
    let k = if s.len() <= t.len() {
        s.len() - 1
    } else {
        t.len() - 1
    };
    lemma_same_states(disk, root, s, t, k);
    if s.len() < t.len() {
        assert(t[k].stack.len() > 0);
    }
    if t.len() < s.len() {
        assert(s[k].stack.len() > 0);
    }
}

/// What a capture of a service finds, on a disk that does not change meanwhile.
pub struct ServiceDisk {
    /// The path of the service and what was seen of it, unless it is missing.
    pub at: Option<(Seq<char>, fs_safety::FileGeneration)>,
    /// What a directory holds, in the order in which it is listed.
    pub listing: spec_fn(Seq<char>) -> Seq<fs_safety::ScannedEntry>,
    /// What is seen of a directory before and after it is listed.
    pub before: spec_fn(Seq<char>) -> fs_safety::FileGeneration,
    pub after: spec_fn(Seq<char>) -> Option<fs_safety::Observed>,
    /// Whether the project file in a directory may stay there; true where there
    /// is none.
    pub project_allowed: spec_fn(Seq<char>) -> bool,
}

impl ServiceDisk {
    /// The entries of a directory, where it can be read.
    pub open spec fn read(&self, path: Seq<char>) -> Option<Seq<EntryModel>> {
        match fs_safety::reading(
            path,
            fs_safety::DirectoryPolicy::SyncedProjection,
            (self.before)(path),
            (self.listing)(path),
            (self.after)(path),
        ) {
            Ok(index) => if (self.project_allowed)(path) {
                Some(index.entries)
            } else {
                None
            },
            Err(_) => None,
        }
    }

    /// The entries of each directory, none where it cannot be read.
    pub open spec fn entries(&self) -> spec_fn(Seq<char>) -> Seq<EntryModel> {
        |path: Seq<char>|
            match self.read(path) {
                Some(found) => found,
                None => Seq::empty(),
            }
    }

    /// Whether the next directory of a capture is not too deep, can be read, and
    /// does not hold too much.
    pub open spec fn goes_on(&self, w: WalkModel) -> bool {
        &&& w.stack.len() > 0
        &&& w.stack.last().depth <= fs_safety::MAX_SERVICE_TREE_DEPTH
        &&& self.read(w.stack.last().path) matches Some(found) && w.visited(found).entries.len()
            <= fs_safety::MAX_SERVICE_TREE_NODES
    }

    /// Whether the states are those of a capture, from its start as far as it
    /// gets.
    pub open spec fn is_run(&self, root: Seq<char>, states: Seq<WalkModel>) -> bool {
        &&& states.len() > 0
        &&& states[0] == fresh_walk(root)
        &&& forall|i: int|
            0 <= i < states.len() - 1 ==> {
                &&& self.goes_on(#[trigger] states[i])
                &&& states[i + 1] == states[i].visited((self.entries())(states[i].stack.last().path))
            }
        &&& !self.goes_on(states.last())
    }

    /// Whether a capture of the service comes to that: nothing where it fails.
    pub open spec fn is_capture(
        &self,
        service: Seq<char>,
        states: Seq<WalkModel>,
        outcome: Option<fs_safety::TreeModel>,
    ) -> bool {
        match self.at {
            None => outcome == Some(
                fs_safety::TreeModel {
                    service,
                    present: false,
                    root_generation: None,
                    entries: Seq::empty(),
                },
            ),
            Some((path, root)) => {
                &&& self.is_run(path, states)
                &&& outcome == (if states.last().stack.len() > 0 {
                    None
                } else {
                    Some(
                        fs_safety::TreeModel {
                            service,
                            present: true,
                            root_generation: Some(root),
                            entries: by_relative(states.last().entries),
                        },
                    )
                })
            },
        }
    }

    /// Whether the `k`-th thing that a directory below the service holds is a
    /// link.
    pub open spec fn has_link(&self, names: Seq<Seq<char>>, k: int) -> bool {
        &&& self.at matches Some((path, _)) && {
            let listing = (self.listing)(path_of(path, names));
            &&& is_directory(self.entries(), path, names)
            &&& 0 <= k < listing.len()
            &&& listing[k].seen matches Some(seen) && seen.kind.is_link()
        }
    }
}

/// What lies on the stack is read before a capture ends.
proof fn lemma_popped(
    disk: spec_fn(Seq<char>) -> Seq<EntryModel>,
    root: Seq<char>,
    states: Seq<WalkModel>,
    i: int,
    q: int,
) -> (j: int)
    requires
        is_walk(disk, root, states),
        0 <= i < states.len(),
        0 <= q < states[i].stack.len(),
    ensures
        i <= j < states.len() - 1,
        states[j].stack.len() > 0,
        states[j].stack.last() == states[i].stack[q],
    decreases states.len() - i,
{
    if states[i].stack.len() == q + 1 {
        i
    } else {
        let next = states[i + 1];
        assert(states[i].stack.len() > 0);
        assert(next.stack[q] == states[i].stack[q]);
        lemma_popped(disk, root, states, i + 1, q)
    }
}

/// Each directory below the root is read at some step of a capture.
proof fn lemma_directory_read(
    disk: spec_fn(Seq<char>) -> Seq<EntryModel>,
    root: Seq<char>,
    states: Seq<WalkModel>,
    names: Seq<Seq<char>>,
) -> (j: int)
    requires
        is_walk(disk, root, states),
        is_directory(disk, root, names),
    ensures
        0 <= j < states.len() - 1,
        states[j].stack.len() > 0,
        states[j].stack.last().path == path_of(root, names),
    decreases names.len(),
{
    if names.len() == 0 {
        assert(states[0].stack[0].path == root);
        lemma_popped(disk, root, states, 0, 0)
    } else {
        let up = names.drop_last();
        let i = lemma_directory_read(disk, root, states, up);
        let d = states[i].stack.last();
        let found = disk(d.path);
        let e = choose|e: EntryModel| #[trigger]
            disk(path_of(root, up)).contains(e) && e.fragment == names.last() && e.kind
                == SafeEntryKind::Directory;
        let at = choose|at: int| 0 <= at < found.len() && found[at] == e;
        lemma_directory_places(d, found, 0);
        let places = directory_places(found, 0);
        assert(found[at].kind == SafeEntryKind::Directory);
        let x = choose|x: int| 0 <= x < places.len() && places[x] == at;
        let q = states[i].stack.len() - 1 + x;
        assert(states[i + 1] == states[i].visited(found));
        assert(states[i + 1].stack[q] == opened(d, found, 0)[x]);
        lemma_popped(disk, root, states, i + 1, q)
    }
}

proof fn lemma_same_run(
    disk: ServiceDisk,
    root: Seq<char>,
    s: Seq<WalkModel>,
    t: Seq<WalkModel>,
    k: int,
)
    requires
        disk.is_run(root, s),
        disk.is_run(root, t),
        0 <= k < s.len(),
        k < t.len(),
    ensures
        s[k] == t[k],
    decreases k,
{
    if k > 0 {
        lemma_same_run(disk, root, s, t, k - 1);
        assert(disk.goes_on(s[k - 1]) && disk.goes_on(t[k - 1]));
        assert(s[k - 1 + 1] == s[k]);
        assert(t[k - 1 + 1] == t[k]);
    }
}

/// A capture of a service. A missing service is captured as one that is not
/// there and has no entries. Otherwise the capture, if it comes to an end, lists
/// exactly the files and directories below the service, each once, in strictly
/// ascending order of their relative paths. A link anywhere below the service
/// makes it fail. A second capture comes to the same.
pub proof fn law_capture(
    disk: ServiceDisk,
    service: Seq<char>,
    states: Seq<WalkModel>,
    outcome: Option<fs_safety::TreeModel>,
    states_again: Seq<WalkModel>,
    outcome_again: Option<fs_safety::TreeModel>,
)
    requires
        is_disk(disk.entries()),
        disk.is_capture(service, states, outcome),
        disk.is_capture(service, states_again, outcome_again),
    ensures
        disk.at is None ==> outcome == Some(
            fs_safety::TreeModel {
                service,
                present: false,
                root_generation: None,
                entries: Seq::empty(),
            },
        ),
        disk.at is Some && outcome is Some ==> {
            let (path, root) = disk.at->0;
            let t = outcome->0;
            &&& t.service == service && t.present && t.root_generation == Some(root)
            &&& forall|i: int|
                0 <= i < t.entries.len() ==> is_below(disk.entries(), path, #[trigger] t.entries[i])
            &&& forall|names: Seq<Seq<char>>, e: EntryModel| #[trigger]
                lies(disk.entries(), path, names, e) ==> t.entries.contains(
                    entry_at(path, names, e),
                )
            &&& forall|i: int, j: int|
                0 <= i < j < t.entries.len() ==> relative_less(
                    (#[trigger] t.entries[i]).relative,
                    (#[trigger] t.entries[j]).relative,
                )
        },
        forall|names: Seq<Seq<char>>, k: int| #[trigger]
            disk.has_link(names, k) ==> outcome is None,
        outcome_again == outcome,
{
    if disk.at is Some {
        let (path, root) = disk.at->0;
        let entries = disk.entries();
        let n: int = if states.len() <= states_again.len() {
            states.len() - 1
        } else {
            states_again.len() - 1
        };
        lemma_same_run(disk, path, states, states_again, n);
        assert(states.len() == states_again.len()) by {
            if states.len() < states_again.len() {
                assert(disk.goes_on(states_again[n]));
            }
            if states_again.len() < states.len() {
                assert(disk.goes_on(states[n]));
            }
        }
        if outcome is Some {
            assert(is_walk(entries, path, states)) by {
                assert forall|i: int| 0 <= i < states.len() - 1 implies ({
                    &&& (#[trigger] states[i]).stack.len() > 0
                    &&& states[i + 1] == states[i].visited(entries(states[i].stack.last().path))
                }) by {
                    assert(disk.goes_on(states[i]));
                }
            }
            law_capture_lists_each_entry_once(entries, path, states);
            assert forall|names: Seq<Seq<char>>, k: int| #[trigger]
                disk.has_link(names, k) implies false by {
                let j = lemma_directory_read(entries, path, states, names);
                assert(disk.goes_on(states[j]));
                let at = path_of(path, names);
                law_link_below_a_service_is_refused(
                    at,
                    (disk.before)(at),
                    (disk.listing)(at),
                    (disk.after)(at),
                    k,
                );
            }
        }
    }
}

/// Whether those are all the files and directories below a root, each once.
pub open spec fn is_inventory(
    disk: spec_fn(Seq<char>) -> Seq<EntryModel>,
    root: Seq<char>,
    names: Seq<Seq<Seq<char>>>,
    entries: Seq<EntryModel>,
) -> bool {
    &&& names.len() == entries.len()
    &&& forall|i: int|
        0 <= i < names.len() ==> lies(disk, root, #[trigger] names[i], entries[i])
    &&& forall|i: int, j: int|
        0 <= i < j < names.len() ==> #[trigger] names[i] != #[trigger] names[j]
    &&& forall|at: Seq<Seq<char>>, e: EntryModel| #[trigger]
        lies(disk, root, at, e) ==> exists|i: int|
            0 <= i < names.len() && #[trigger] names[i] == at && entries[i] == e
}

/// How many of the entries from `k` on are scripts of their own.
pub open spec fn scripts_from(entries: Seq<EntryModel>, k: int) -> int
    decreases entries.len() - k,
{
    if k < 0 || k >= entries.len() {
        0
    } else {
        scripts_from(entries, k + 1) + (if initial_sync::is_counted_script(entries[k]) {
            1int
        } else {
            0int
        })
    }
}

/// How many of the entries from `k` on are directories that stand for an instance.
pub open spec fn folders_from(entries: Seq<EntryModel>, k: int) -> int
    decreases entries.len() - k,
{
    if k < 0 || k >= entries.len() {
        0
    } else {
        folders_from(entries, k + 1) + (if entries[k].kind == SafeEntryKind::Directory
            && entries[k].fragment != fs_map::meta_file() {
            1int
        } else {
            0int
        })
    }
}

/// What a count has come to, and what it has still to read.
pub struct CountModel {
    pub tally: Tally,
    pub stack: Seq<CountedModel>,
}

/// Whether the states are those of a whole count of a service on an unchanging disk.
pub open spec fn is_count(
    disk: spec_fn(Seq<char>) -> Seq<EntryModel>,
    root: Seq<char>,
    states: Seq<CountModel>,
) -> bool {
    &&& states.len() > 0
    &&& states[0].stack == seq![CountedModel { path: root, depth: 0, counts: false }]
    &&& states.last().stack.len() == 0
    &&& forall|i: int|
        0 <= i < states.len() - 1 ==> {
            let d = (#[trigger] states[i]).stack.last();
            &&& states[i].stack.len() > 0
            &&& tally_directory(d, disk(d.path), states[i].tally) == Ok::<
                Tally,
                initial_sync::StatsProblem,
            >(states[i + 1].tally)
            &&& states[i + 1].stack == states[i].stack.drop_last() + counted_below(
                d,
                disk(d.path),
                0,
            )
        }
}

/// How many of the directories that are still to be read will be counted.
spec fn pending(stack: Seq<CountedModel>) -> int
    decreases stack.len(),
{
    if stack.len() == 0 {
        0
    } else {
        pending(stack.drop_last()) + (if stack.last().counts {
            1int
        } else {
            0int
        })
    }
}

proof fn lemma_pending(a: Seq<CountedModel>, b: Seq<CountedModel>)
    ensures
        pending(a + b) == pending(a) + pending(b),
    decreases b.len(),
{
    if b.len() == 0 {
        assert(a + b =~= a);
    } else {
        lemma_pending(a, b.drop_last());
        assert((a + b).drop_last() =~= a + b.drop_last());
        assert((a + b).last() == b.last());
    }
}

proof fn lemma_from(a: Seq<EntryModel>, b: Seq<EntryModel>, k: int)
    requires
        0 <= k <= a.len() + b.len(),
    ensures
        scripts_from(a + b, k) == (if k <= a.len() {
            scripts_from(a, k) + scripts_from(b, 0)
        } else {
            scripts_from(b, k - a.len())
        }),
        folders_from(a + b, k) == (if k <= a.len() {
            folders_from(a, k) + folders_from(b, 0)
        } else {
            folders_from(b, k - a.len())
        }),
    decreases a.len() + b.len() - k,
{
    if k < a.len() + b.len() {
        lemma_from(a, b, k + 1);
        if k < a.len() {
            assert((a + b)[k] == a[k]);
        } else {
            assert((a + b)[k] == b[k - a.len()]);
        }
    }
}

proof fn lemma_tally(entries: Seq<EntryModel>, k: int, t: Tally)
    requires
        0 <= k <= entries.len(),
        tally_from(entries, k, t) is Ok,
    ensures
        tally_from(entries, k, t)->Ok_0.scripts == t.scripts + scripts_from(entries, k),
        tally_from(entries, k, t)->Ok_0.instances == t.instances + scripts_from(entries, k),
    decreases entries.len() - k,
{
    if k < entries.len() {
        if initial_sync::is_counted_script(entries[k]) {
            lemma_tally(
                entries,
                k + 1,
                Tally {
                    scripts: (t.scripts + 1) as u32,
                    instances: (t.instances + 1) as u32,
                    visited: (t.visited + 1) as usize,
                },
            );
        } else {
            lemma_tally(entries, k + 1, Tally { visited: (t.visited + 1) as usize, ..t });
        }
    }
}

/// A count and a capture go through the same directories.
proof fn lemma_below(d: OpenModel, c: CountedModel, entries: Seq<EntryModel>, k: int)
    requires
        0 <= k <= entries.len(),
        d.path == c.path,
    ensures
        opened(d, entries, k).len() == counted_below(c, entries, k).len(),
        forall|i: int|
            0 <= i < opened(d, entries, k).len() ==> (#[trigger] opened(d, entries, k)[i]).path
                == counted_below(c, entries, k)[i].path,
        pending(counted_below(c, entries, k)) == folders_from(entries, k),
    decreases entries.len() - k,
{
    if k < entries.len() {
        lemma_below(d, c, entries, k + 1);
        let rest = counted_below(c, entries, k + 1);
        if entries[k].kind == SafeEntryKind::Directory {
            assert(counted_below(c, entries, k).drop_last() =~= rest);
        }
    }
}

spec fn in_step(a: Seq<OpenModel>, b: Seq<CountedModel>) -> bool {
    &&& a.len() == b.len()
    &&& forall|i: int| 0 <= i < a.len() ==> (#[trigger] a[i]).path == b[i].path
}

proof fn lemma_count_state(
    disk: spec_fn(Seq<char>) -> Seq<EntryModel>,
    root: Seq<char>,
    states: Seq<CountModel>,
    k: int,
) -> (r: (WalkModel, Seq<(Seq<Seq<char>>, EntryModel)>, Seq<Seq<Seq<char>>>))
    requires
        is_disk(disk),
        is_count(disk, root, states),
        0 <= k < states.len(),
    ensures
        keeps(disk, root, r.0, r.1, r.2),
        in_step(r.0.stack, states[k].stack),
        states[k].tally.scripts == states[0].tally.scripts + scripts_from(entries_of(r.1), 0),
        states[k].tally.instances + pending(states[k].stack) == states[0].tally.instances
            + scripts_from(entries_of(r.1), 0) + folders_from(entries_of(r.1), 0),
    decreases k,
{
    if k == 0 {
        let open = seq![Seq::<Seq<char>>::empty()];
        let listed = Seq::<(Seq<Seq<char>>, EntryModel)>::empty();
        let w = fresh_walk(root);
        lemma_fresh(disk, root);
        let stack = states[0].stack;
        assert(stack.drop_last() =~= Seq::<CountedModel>::empty());
        assert(pending(stack.drop_last()) == 0);
        assert(!stack.last().counts);
        (w, listed, open)
    } else {
        let (w, listed, open) = lemma_count_state(disk, root, states, k - 1);
        let before = states[k - 1];
        assert(states[k - 1 + 1].stack == before.stack.drop_last() + counted_below(
            before.stack.last(),
            disk(before.stack.last().path),
            0,
        ));
        let c = before.stack.last();
        let d = w.stack.last();
        assert(d == w.stack[w.stack.len() - 1]);
        let found = disk(d.path);
        let next = w.visited(found);
        let (l, o) = lemma_step(disk, root, w, listed, open);
        lemma_below(d, c, found, 0);
        lemma_from(entries_of(listed), found, 0);
        lemma_pending(before.stack.drop_last(), counted_below(c, found, 0));
        let start = if c.counts {
            Tally { instances: (before.tally.instances + 1) as u32, ..before.tally }
        } else {
            before.tally
        };
        assert(tally_directory(c, found, before.tally) == Ok::<
            Tally,
            initial_sync::StatsProblem,
        >(states[k - 1 + 1].tally));
        lemma_tally(found, 0, start);
        assert(in_step(next.stack, states[k].stack)) by {
            let rest = w.stack.drop_last();
            assert forall|i: int| 0 <= i < next.stack.len() implies (#[trigger] next.stack[i]).path
                == states[k].stack[i].path by {
                if i < rest.len() {
                    assert(next.stack[i] == w.stack[i]);
                } else {
                    assert(next.stack[i] == opened(d, found, 0)[i - rest.len()]);
                }
            }
        }
        (next, l, o)
    }
}

/// A whole count of a service counts each script below it, and each directory for
/// an instance, once.
pub proof fn law_count_is_of_each_entry_once(
    disk: spec_fn(Seq<char>) -> Seq<EntryModel>,
    root: Seq<char>,
    states: Seq<CountModel>,
)
    requires
        is_disk(disk),
        is_count(disk, root, states),
    ensures
        exists|names: Seq<Seq<Seq<char>>>, entries: Seq<EntryModel>| #[trigger]
            is_inventory(disk, root, names, entries) && states.last().tally.scripts
                == states[0].tally.scripts + scripts_from(entries, 0)
                && states.last().tally.instances == states[0].tally.instances + scripts_from(
                entries,
                0,
            ) + folders_from(entries, 0),
{
    let (w, listed, open) = lemma_count_state(disk, root, states, states.len() - 1);
    let names = Seq::new(listed.len(), |i: int| listed[i].0);
    let entries = entries_of(listed);
    assert forall|i: int| 0 <= i < names.len() implies lies(
        disk,
        root,
        #[trigger] names[i],
        entries[i],
    ) by {
        assert(lies(disk, root, listed[i].0, listed[i].1));
    }
    assert forall|i: int, j: int| 0 <= i < j < names.len() implies #[trigger] names[i]
        != #[trigger] names[j] by {
        assert(listed[i].0 != listed[j].0);
    }
    assert forall|at: Seq<Seq<char>>, e: EntryModel| #[trigger]
        lies(disk, root, at, e) implies exists|i: int|
        0 <= i < names.len() && #[trigger] names[i] == at && entries[i] == e by {
        assert(listed.contains((at, e)));
        let i = choose|i: int| 0 <= i < listed.len() && listed[i] == (at, e);
        assert(names[i] == at && entries[i] == e);
    }
    assert(is_inventory(disk, root, names, entries));
}

} // verus!
