//! Lists of paths that a request names: ordered, without repetitions, checked.
use vstd::prelude::*;
use vstd::utf8::*;

use crate::disk_index;
use crate::preparation;
use crate::ranking;
use crate::ranking::{rank, Row};
use crate::sync_scope;
use crate::sync_scope::synced_service;
use crate::text;
use crate::text::{chars_of, find_from, owned, same, split_chars, string_of, string_of_range};
use crate::text_map::TextMap;

verus! {

pub const MAX_AVOID_SYNC_PATHS: usize = 100_000;

pub const MAX_AVOID_SYNC_DEPTH: usize = 256;

pub const MAX_AVOID_SYNC_PATH_BYTES: usize = 4096;

pub const MAX_SELECTED_PATHS: usize = 100_000;

pub const MAX_SELECTED_PATH_BYTES: usize = 4096;

/// One path of a request, as it was sent.
#[derive(Debug)]
pub enum RawPath {
    NotAnArray,
    /// The segments; nothing for one that is no text.
    Segments(Vec<Option<String>>),
}

/// Why a list of paths that are not synchronised is refused.
#[derive(Debug, Clone, Copy, PartialEq, Eq, Structural)]
pub enum AvoidPathProblem {
    TooMany,
    NotAnArray,
    Depth,
    NotText,
    /// A segment is empty or holds a NUL.
    Segment,
    TooLong,
    /// A path is below no service.
    OutsideService,
}

/// What is wrong with the segments from `k` on, after `bytes` bytes.
pub open spec fn segments_problem(s: Seq<Option<String>>, k: int, bytes: int) -> Option<
    AvoidPathProblem,
>
    decreases s.len() - k,
{
    if k < 0 || k >= s.len() {
        None
    } else {
        match s[k] {
            None => Some(AvoidPathProblem::NotText),
            Some(segment) => if segment@.len() == 0 || segment@.contains('\0') {
                Some(AvoidPathProblem::Segment)
            } else if bytes + encode_utf8(segment@).len() > MAX_AVOID_SYNC_PATH_BYTES {
                Some(AvoidPathProblem::TooLong)
            } else {
                segments_problem(s, k + 1, bytes + encode_utf8(segment@).len())
            },
        }
    }
}

/// What is wrong with one path.
pub open spec fn path_problem(p: RawPath) -> Option<AvoidPathProblem> {
    match p {
        RawPath::NotAnArray => Some(AvoidPathProblem::NotAnArray),
        RawPath::Segments(s) => if s@.len() == 0 || s@.len() > MAX_AVOID_SYNC_DEPTH {
            Some(AvoidPathProblem::Depth)
        } else {
            match segments_problem(s@, 0, 0) {
                Some(problem) => Some(problem),
                None => if !sync_scope::is_synced_service(s@[0]->0@) {
                    Some(AvoidPathProblem::OutsideService)
                } else {
                    None
                },
            }
        },
    }
}

pub open spec fn paths_problem(s: Seq<RawPath>, k: int) -> Option<AvoidPathProblem>
    decreases s.len() - k,
{
    if k < 0 || k >= s.len() {
        None
    } else {
        match path_problem(s[k]) {
            Some(problem) => Some(problem),
            None => paths_problem(s, k + 1),
        }
    }
}

/// The texts of a path.
pub open spec fn segment_texts(p: RawPath) -> Seq<Seq<char>> {
    match p {
        RawPath::NotAnArray => Seq::empty(),
        RawPath::Segments(s) => Seq::new(s@.len(), |i: int| s@[i]->0@),
    }
}

/// The bytes by which a path of segments without NUL is ordered segment by
/// segment.
pub open spec fn segments_key(s: Seq<Seq<char>>, n: int) -> Seq<u8>
    decreases n,
{
    if n <= 0 {
        Seq::empty()
    } else if n == 1 {
        encode_utf8(s[0])
    } else {
        segments_key(s, n - 1) + seq![0u8] + encode_utf8(s[n - 1])
    }
}

pub open spec fn path_rows(s: Seq<Seq<Seq<char>>>) -> Seq<ranking::RowModel> {
    Seq::new(
        s.len(),
        |i: int|
            ranking::RowModel { key: segments_key(s[i], s[i].len() as int), content: Seq::empty() },
    )
}

pub open spec fn sorted_paths(s: Seq<Seq<Seq<char>>>) -> Seq<Seq<Seq<char>>> {
    let order = ranking::ranking(path_rows(s));
    Seq::new(order.len(), |i: int| s[order[i]])
}

/// The first `n` elements without those that equal the one before.
pub open spec fn deduped<A>(s: Seq<A>, n: int) -> Seq<A>
    decreases n,
{
    if n <= 0 {
        Seq::empty()
    } else if n > 1 && s[n - 1] == s[n - 2] {
        deduped(s, n - 1)
    } else {
        deduped(s, n - 1).push(s[n - 1])
    }
}

pub open spec fn path_models(v: Seq<Vec<String>>) -> Seq<Seq<Seq<char>>> {
    Seq::new(v.len(), |i: int| disk_index::texts(v[i]@))
}

fn holds_nul(s: &str) -> (r: bool)
    ensures
        r == s@.contains('\0'),
{
    let chars = chars_of(s);
    let k = find_from(&chars, 0, '\0');
    if k < chars.len() {
        assert(s@[k as int] == '\0');
        true
    } else {
        assert forall|j: int| 0 <= j < s@.len() implies s@[j] != '\0' by {
            assert(chars@[j] != '\0');
        }
        false
    }
}

fn read_path(p: &RawPath) -> (r: Result<Vec<String>, AvoidPathProblem>)
    ensures
        match r {
            Err(problem) => path_problem(*p) == Some(problem),
            Ok(path) => path_problem(*p) is None && disk_index::texts(path@) == segment_texts(*p)
                && path@.len() > 0,
        },
{
    let segments = match p {
        RawPath::NotAnArray => return Err(AvoidPathProblem::NotAnArray),
        RawPath::Segments(segments) => segments,
    };
    if segments.len() == 0 || segments.len() > MAX_AVOID_SYNC_DEPTH {
        return Err(AvoidPathProblem::Depth);
    }
    let mut path: Vec<String> = Vec::new();
    let mut bytes: usize = 0;
    let mut k: usize = 0;
    while k < segments.len()
        invariant
            k <= segments@.len(),
            bytes <= MAX_AVOID_SYNC_PATH_BYTES,
            *p == RawPath::Segments(*segments),
            0 < segments@.len() <= MAX_AVOID_SYNC_DEPTH,
            path@.len() == k,
            forall|j: int| 0 <= j < k ==> (#[trigger] segments@[j]) is Some,
            forall|j: int| 0 <= j < k ==> (#[trigger] path@[j])@ == segments@[j]->0@,
            segments_problem(segments@, 0, 0) == segments_problem(
                segments@,
                k as int,
                bytes as int,
            ),
        decreases segments@.len() - k,
    {
        let segment: &str = match &segments[k] {
            None => return Err(AvoidPathProblem::NotText),
            Some(segment) => segment.as_str(),
        };
        let len: usize = segment.as_bytes().len();
        proof {
            assert(segment@.len() == 0 ==> segment@ =~= Seq::<char>::empty());
            if segment@.len() > 0 {
                crate::escape::lemma_utf8_step(segment@);
            }
        }
        if len == 0 || holds_nul(segment) {
            return Err(AvoidPathProblem::Segment);
        }
        if len > MAX_AVOID_SYNC_PATH_BYTES - bytes {
            return Err(AvoidPathProblem::TooLong);
        }
        bytes = bytes + len;
        path.push(owned(segment));
        k += 1;
    }
    if !synced_service(path[0].as_str()) {
        return Err(AvoidPathProblem::OutsideService);
    }
    proof {
        assert(disk_index::texts(path@) =~= segment_texts(*p));
    }
    Ok(path)
}

fn key_of_path(path: &Vec<String>) -> (key: Vec<u8>)
    requires
        path@.len() > 0,
    ensures
        key@ == segments_key(disk_index::texts(path@), path@.len() as int),
{
    let ghost s = disk_index::texts(path@);
    let mut key: Vec<u8> = Vec::new();
    let mut k: usize = 0;
    while k < path.len()
        invariant
            k <= path@.len(),
            s == disk_index::texts(path@),
            key@ == segments_key(s, k as int),
        decreases path@.len() - k,
    {
        let ghost before = key@;
        if k > 0 {
            key.push(0);
        }
        let ghost start = key@;
        let bytes = path[k].as_str().as_bytes();
        let mut i: usize = 0;
        proof {
            assert(start + bytes@.take(0) =~= start);
        }
        while i < bytes.len()
            invariant
                i <= bytes@.len(),
                key@ == start + bytes@.take(i as int),
            decreases bytes@.len() - i,
        {
            proof {
                assert(start + bytes@.take(i + 1) =~= (start + bytes@.take(i as int)).push(
                    bytes@[i as int],
                ));
            }
            key.push(bytes[i]);
            i += 1;
        }
        proof {
            assert(bytes@.take(i as int) =~= bytes@);
            assert(s[k as int] == path@[k as int]@);
            if k == 0 {
                assert(key@ =~= encode_utf8(s[0]));
            } else {
                assert(start =~= before + seq![0u8]);
            }
            assert(key@ =~= segments_key(s, k + 1));
        }
        k += 1;
    }
    key
}

fn copy_path(path: &Vec<String>) -> (out: Vec<String>)
    ensures
        disk_index::texts(out@) == disk_index::texts(path@),
{
    let mut out: Vec<String> = Vec::new();
    let mut k: usize = 0;
    while k < path.len()
        invariant
            k <= path@.len(),
            out@.len() == k,
            forall|j: int| 0 <= j < k ==> (#[trigger] out@[j])@ == path@[j]@,
        decreases path@.len() - k,
    {
        out.push(owned(path[k].as_str()));
        k += 1;
    }
    proof {
        assert(disk_index::texts(out@) =~= disk_index::texts(path@));
    }
    out
}

/// Paths in order, each once.
pub fn sort_paths(found: &Vec<Vec<String>>) -> (out: Vec<Vec<String>>)
    requires
        forall|i: int| 0 <= i < found@.len() ==> (#[trigger] found@[i])@.len() > 0,
    ensures
        path_models(out@) == deduped(
            sorted_paths(path_models(found@)),
            found@.len() as int,
        ),
{
    let ghost whole = path_models(found@);
    let mut rows: Vec<Row> = Vec::new();
    let mut i: usize = 0;
    while i < found.len()
        invariant
            i <= found@.len(),
            rows@.len() == i,
            whole == path_models(found@),
            forall|j: int| 0 <= j < found@.len() ==> (#[trigger] found@[j])@.len() > 0,
            forall|j: int| 0 <= j < i ==> (#[trigger] rows@[j])@ == path_rows(whole)[j],
        decreases found@.len() - i,
    {
        let row = Row { key: key_of_path(&found[i]), content: Vec::new() };
        proof {
            assert(row@.content =~= Seq::<u8>::empty());
        }
        rows.push(row);
        i += 1;
    }
    proof {
        assert(ranking::models(rows@) =~= path_rows(whole));
    }
    let order = rank(&rows);
    let ghost r = ranking::ranking(path_rows(whole));
    let ghost sorted = sorted_paths(whole);
    let mut out: Vec<Vec<String>> = Vec::new();
    let mut k: usize = 0;
    proof {
        assert(path_models(out@) =~= deduped(sorted, 0));
    }
    while k < order.len()
        invariant
            k <= order@.len(),
            order@.len() == r.len(),
            r.len() == found@.len(),
            whole == path_models(found@),
            sorted == sorted_paths(whole),
            r == ranking::ranking(path_rows(whole)),
            forall|j: int| 0 <= j < order@.len() ==> (#[trigger] order@[j]) as int == r[j],
            forall|j: int| 0 <= j < order@.len() ==> (#[trigger] order@[j]) < found@.len(),
            path_models(out@) == deduped(sorted, k as int),
        decreases order@.len() - k,
    {
        let path = &found[order[k]];
        proof {
            assert(sorted[k as int] == disk_index::texts(path@));
        }
        let again = k > 0 && crate::timed_store::same_key(path, &found[order[k - 1]]);
        proof {
            if k > 0 {
                assert(sorted[k - 1] == disk_index::texts(found@[order@[k - 1] as int]@));
            }
        }
        if !again {
            let ghost before = out@;
            out.push(copy_path(path));
            proof {
                assert(path_models(out@) =~= path_models(before).push(sorted[k as int]));
            }
        }
        k += 1;
    }
    out
}

/// Checks, orders and thins out the paths that are not synchronised.
pub fn compact_avoid_sync_paths(raw: &Vec<RawPath>) -> (r: Result<
    Vec<Vec<String>>,
    AvoidPathProblem,
>)
    ensures
        ({
            let found = Seq::new(raw@.len(), |i: int| segment_texts(raw@[i]));
            match r {
                Err(p) => if raw@.len() > MAX_AVOID_SYNC_PATHS {
                    p == AvoidPathProblem::TooMany
                } else {
                    paths_problem(raw@, 0) == Some(p)
                },
                Ok(out) => {
                    &&& raw@.len() <= MAX_AVOID_SYNC_PATHS
                    &&& paths_problem(raw@, 0) is None
                    &&& path_models(out@) == deduped(sorted_paths(found), found.len() as int)
                },
            }
        }),
{
    if raw.len() > MAX_AVOID_SYNC_PATHS {
        return Err(AvoidPathProblem::TooMany);
    }
    let mut found: Vec<Vec<String>> = Vec::new();
    let mut k: usize = 0;
    while k < raw.len()
        invariant
            k <= raw@.len(),
            raw@.len() <= MAX_AVOID_SYNC_PATHS,
            paths_problem(raw@, 0) == paths_problem(raw@, k as int),
            found@.len() == k,
            forall|j: int|
                0 <= j < k ==> disk_index::texts((#[trigger] found@[j])@) == segment_texts(raw@[j])
                    && found@[j]@.len() > 0,
        decreases raw@.len() - k,
    {
        match read_path(&raw[k]) {
            Err(p) => return Err(p),
            Ok(path) => {
                found.push(path);
            },
        }
        k += 1;
    }
    proof {
        assert(path_models(found@) =~= Seq::new(raw@.len(), |i: int| segment_texts(raw@[i])));
    }
    Ok(sort_paths(&found))
}

/// Why a selected path is refused.
#[derive(Debug, Clone, Copy, PartialEq, Eq, Structural)]
pub enum SelectProblem {
    NoPaths,
    TooMany,
    TooLong,
    /// A path has one segment, or an empty one.
    Invalid,
    OutsideService,
}

/// Paths by the number of their segments, then by their text.
pub open spec fn depth_rows(s: Seq<Seq<char>>) -> Seq<ranking::RowModel> {
    Seq::new(
        s.len(),
        |i: int|
            ranking::RowModel {
                key: preparation::id_key(text::split(s[i], '/').len() as u64),
                content: encode_utf8(s[i]),
            },
    )
}

pub open spec fn by_depth(s: Seq<Seq<char>>) -> Seq<Seq<char>> {
    let order = ranking::ranking(depth_rows(s));
    Seq::new(order.len(), |i: int| s[order[i]])
}

/// What is wrong with a selected path.
pub open spec fn selected_problem(p: Seq<char>) -> Option<SelectProblem> {
    let parts = text::split(p, '/');
    if encode_utf8(p).len() > MAX_SELECTED_PATH_BYTES {
        Some(SelectProblem::TooLong)
    } else if parts.len() < 2 || exists|k: int| 0 <= k < parts.len() && (#[trigger] parts[k]).len() == 0 {
        Some(SelectProblem::Invalid)
    } else if !sync_scope::is_synced_service(parts[0]) {
        Some(SelectProblem::OutsideService)
    } else {
        None
    }
}

/// The first selected path that is wrong, from the `k`-th on.
pub open spec fn selection_problem(s: Seq<Seq<char>>, k: int) -> Option<(SelectProblem, Seq<char>)>
    decreases s.len() - k,
{
    if k < 0 || k >= s.len() {
        None
    } else {
        match selected_problem(s[k]) {
            Some(p) => Some((p, s[k])),
            None => selection_problem(s, k + 1),
        }
    }
}

/// Whether `a` is the path of something that holds what `p` names.
pub open spec fn is_ancestor(a: Seq<char>, p: Seq<char>) -> bool {
    a.len() < p.len() && p[a.len() as int] == '/' && a == p.take(a.len() as int)
}

/// Whether one of the paths holds what `p` names.
pub open spec fn covered_above(s: Seq<Seq<char>>, p: Seq<char>) -> bool {
    exists|k: int| 0 <= k < s.len() && is_ancestor(#[trigger] s[k], p)
}

/// The first `n` paths without those below another one.
pub open spec fn outermost(s: Seq<Seq<char>>, n: int) -> Seq<Seq<char>>
    decreases n,
{
    if n <= 0 {
        Seq::empty()
    } else {
        let before = outermost(s, n - 1);
        if covered_above(before, s[n - 1]) {
            before
        } else {
            before.push(s[n - 1])
        }
    }
}

fn check_selected(p: &str) -> (r: Option<SelectProblem>)
    ensures
        r == selected_problem(p@),
{
    if p.as_bytes().len() > MAX_SELECTED_PATH_BYTES {
        return Some(SelectProblem::TooLong);
    }
    let chars = chars_of(p);
    let parts = split_chars(&chars, '/');
    let ghost s = text::split(p@, '/');
    if parts.len() < 2 {
        return Some(SelectProblem::Invalid);
    }
    let mut k: usize = 0;
    while k < parts.len()
        invariant
            k <= parts@.len(),
            parts@.len() == s.len(),
            parts@.len() >= 2,
            s == text::split(p@, '/'),
            encode_utf8(p@).len() <= MAX_SELECTED_PATH_BYTES,
            forall|j: int| 0 <= j < parts@.len() ==> (#[trigger] parts@[j])@ == s[j],
            forall|j: int| 0 <= j < k ==> (#[trigger] s[j]).len() > 0,
        decreases parts@.len() - k,
    {
        if parts[k].len() == 0 {
            assert(s[k as int].len() == 0);
            return Some(SelectProblem::Invalid);
        }
        assert(s[k as int].len() > 0);
        k += 1;
    }
    let first = string_of(&parts[0]);
    if !synced_service(first.as_str()) {
        return Some(SelectProblem::OutsideService);
    }
    None
}

/// Whether an earlier path in the map holds what `p` names.
fn find_ancestor(known: &TextMap<usize>, p: &str, Ghost(s): Ghost<Seq<Seq<char>>>) -> (r: bool)
    requires
        known.wf(),
        forall|key: Seq<char>| #[trigger]
            known@.contains_key(key) <==> exists|k: int| 0 <= k < s.len() && #[trigger] s[k] == key,
    ensures
        r == covered_above(s, p@),
{
    let chars = chars_of(p);
    let mut i: usize = 0;
    while i < chars.len()
        invariant
            i <= chars@.len(),
            chars@ == p@,
            known.wf(),
            forall|key: Seq<char>| #[trigger]
                known@.contains_key(key) <==> exists|k: int|
                    0 <= k < s.len() && #[trigger] s[k] == key,
            forall|k: int|
                0 <= k < s.len() && (#[trigger] s[k]).len() < i ==> !is_ancestor(s[k], p@),
        decreases chars@.len() - i,
    {
        if chars[i] == '/' {
            let head = string_of_range(&chars, 0, i);
            proof {
                assert(head@ =~= p@.take(i as int));
            }
            if known.contains(head.as_str()) {
                proof {
                    let k = choose|k: int| 0 <= k < s.len() && #[trigger] s[k] == head@;
                    assert(is_ancestor(s[k], p@));
                }
                return true;
            }
            proof {
                assert forall|k: int| 0 <= k < s.len() && (#[trigger] s[k]).len() < i + 1 implies !is_ancestor(
                    s[k],
                    p@,
                ) by {
                    if s[k].len() == i && is_ancestor(s[k], p@) {
                        assert(s[k] == head@);
                        assert(known@.contains_key(head@));
                    }
                }
            }
        }
        i += 1;
    }
    false
}

fn row_of_depth(p: &str) -> (row: Row)
    ensures
        row@ == (ranking::RowModel {
            key: preparation::id_key(text::split(p@, '/').len() as u64),
            content: encode_utf8(p@),
        }),
{
    let chars = chars_of(p);
    let parts = split_chars(&chars, '/');
    let bytes = p.as_bytes();
    let mut content: Vec<u8> = Vec::new();
    let mut i: usize = 0;
    while i < bytes.len()
        invariant
            i <= bytes@.len(),
            content@ == bytes@.take(i as int),
        decreases bytes@.len() - i,
    {
        proof {
            assert(bytes@.take(i + 1) =~= bytes@.take(i as int).push(bytes@[i as int]));
        }
        content.push(bytes[i]);
        i += 1;
    }
    proof {
        assert(bytes@.take(i as int) =~= bytes@);
    }
    Row { key: crate::preparation::key_of_id(parts.len() as u64), content }
}

fn sort_by_depth(paths: &Vec<String>) -> (out: Vec<String>)
    ensures
        disk_index::texts(out@) == by_depth(disk_index::texts(paths@)),
        out@.len() == paths@.len(),
{
    let ghost whole = disk_index::texts(paths@);
    let mut rows: Vec<Row> = Vec::new();
    let mut i: usize = 0;
    while i < paths.len()
        invariant
            i <= paths@.len(),
            rows@.len() == i,
            whole == disk_index::texts(paths@),
            forall|j: int| 0 <= j < i ==> (#[trigger] rows@[j])@ == depth_rows(whole)[j],
        decreases paths@.len() - i,
    {
        rows.push(row_of_depth(paths[i].as_str()));
        i += 1;
    }
    proof {
        assert(ranking::models(rows@) =~= depth_rows(whole));
    }
    let order = rank(&rows);
    let ghost r = ranking::ranking(depth_rows(whole));
    let mut out: Vec<String> = Vec::new();
    let mut k: usize = 0;
    while k < order.len()
        invariant
            k <= order@.len(),
            out@.len() == k,
            order@.len() == r.len(),
            r.len() == paths@.len(),
            whole == disk_index::texts(paths@),
            forall|j: int| 0 <= j < order@.len() ==> (#[trigger] order@[j]) as int == r[j],
            forall|j: int| 0 <= j < order@.len() ==> (#[trigger] order@[j]) < paths@.len(),
            forall|j: int| 0 <= j < k ==> (#[trigger] out@[j])@ == whole[r[j]],
        decreases order@.len() - k,
    {
        out.push(owned(paths[order[k]].as_str()));
        k += 1;
    }
    proof {
        assert(disk_index::texts(out@) =~= by_depth(whole));
    }
    out
}

/// Checks the selected paths and drops those below another one.
pub fn compact_selected_paths(paths: &Vec<String>) -> (r: Result<
    Vec<String>,
    (SelectProblem, String),
>)
    ensures
        ({
            let all = disk_index::texts(paths@);
            let ordered = deduped(by_depth(all), all.len() as int);
            match r {
                Err((p, path)) => if paths@.len() == 0 {
                    p == SelectProblem::NoPaths && path@.len() == 0
                } else if paths@.len() > MAX_SELECTED_PATHS {
                    p == SelectProblem::TooMany && path@.len() == 0
                } else {
                    selection_problem(ordered, 0) == Some((p, path@))
                },
                Ok(out) => {
                    &&& 0 < paths@.len() <= MAX_SELECTED_PATHS
                    &&& selection_problem(ordered, 0) is None
                    &&& disk_index::texts(out@) == outermost(ordered, ordered.len() as int)
                },
            }
        }),
{
    if paths.len() == 0 {
        return Err((SelectProblem::NoPaths, String::new()));
    }
    if paths.len() > MAX_SELECTED_PATHS {
        return Err((SelectProblem::TooMany, String::new()));
    }
    let ghost all = disk_index::texts(paths@);
    let sorted = sort_by_depth(paths);
    let ghost whole = by_depth(all);
    let mut ordered: Vec<String> = Vec::new();
    let mut i: usize = 0;
    proof {
        assert(disk_index::texts(ordered@) =~= deduped(whole, 0));
    }
    while i < sorted.len()
        invariant
            i <= sorted@.len(),
            whole == disk_index::texts(sorted@),
            disk_index::texts(ordered@) == deduped(whole, i as int),
        decreases sorted@.len() - i,
    {
        let again = i > 0 && same(sorted[i].as_str(), sorted[i - 1].as_str());
        proof {
            assert(whole[i as int] == sorted@[i as int]@);
            if i > 0 {
                assert(whole[i - 1] == sorted@[i - 1]@);
            }
        }
        if !again {
            let ghost before = ordered@;
            ordered.push(owned(sorted[i].as_str()));
            proof {
                assert(disk_index::texts(ordered@) =~= disk_index::texts(before).push(
                    whole[i as int],
                ));
            }
        }
        i += 1;
    }
    let ghost s = disk_index::texts(ordered@);
    let mut known: TextMap<usize> = TextMap::new();
    let mut out: Vec<String> = Vec::new();
    let mut k: usize = 0;
    proof {
        assert(disk_index::texts(out@) =~= outermost(s, 0));
    }
    while k < ordered.len()
        invariant
            k <= ordered@.len(),
            s == disk_index::texts(ordered@),
            s == deduped(by_depth(all), all.len() as int),
            all == disk_index::texts(paths@),
            0 < paths@.len() <= MAX_SELECTED_PATHS,
            known.wf(),
            selection_problem(s, 0) == selection_problem(s, k as int),
            disk_index::texts(out@) == outermost(s, k as int),
            forall|key: Seq<char>| #[trigger]
                known@.contains_key(key) <==> exists|j: int|
                    0 <= j < disk_index::texts(out@).len() && #[trigger] disk_index::texts(out@)[j]
                        == key,
        decreases ordered@.len() - k,
    {
        let path = ordered[k].as_str();
        proof {
            assert(s[k as int] == path@);
        }
        if let Some(p) = check_selected(path) {
            return Err((p, owned(path)));
        }
        let ghost before = disk_index::texts(out@);
        if !find_ancestor(&known, path, Ghost(before)) {
            let ghost known_before = known@;
            known.insert(owned(path), k);
            out.push(owned(path));
            proof {
                let after = disk_index::texts(out@);
                assert(after =~= before.push(path@));
                assert forall|key: Seq<char>| #[trigger] known@.contains_key(key) <==> exists|
                    j: int,
                |
                    0 <= j < after.len() && #[trigger] after[j] == key by {
                    if known@.contains_key(key) {
                        if key == path@ {
                            assert(after[before.len() as int] == key);
                        } else {
                            assert(known_before.contains_key(key));
                            let j = choose|j: int|
                                0 <= j < before.len() && #[trigger] before[j] == key;
                            assert(after[j] == key);
                        }
                    }
                    if exists|j: int| 0 <= j < after.len() && #[trigger] after[j] == key {
                        let j = choose|j: int| 0 <= j < after.len() && #[trigger] after[j] == key;
                        if j < before.len() {
                            assert(before[j] == key);
                            assert(known_before.contains_key(key));
                        }
                    }
                }
            }
        }
        k += 1;
    }
    Ok(out)
}

/// Every selected path is kept, or lies below one that is.
pub proof fn law_selected_paths_stay_covered(s: Seq<Seq<char>>, n: int, i: int)
    requires
        0 <= i < n <= s.len(),
    ensures
        outermost(s, n).contains(s[i]) || covered_above(outermost(s, n), s[i]),
    decreases n,
{
    let before = outermost(s, n - 1);
    let all = outermost(s, n);
    assert(forall|k: int| 0 <= k < before.len() ==> before[k] == #[trigger] all[k]);
    if i < n - 1 {
        law_selected_paths_stay_covered(s, n - 1, i);
        if before.contains(s[i]) {
            let k = choose|k: int| 0 <= k < before.len() && before[k] == s[i];
            assert(all[k] == s[i]);
        } else {
            let k = choose|k: int| 0 <= k < before.len() && is_ancestor(#[trigger] before[k], s[i]);
            assert(is_ancestor(all[k], s[i]));
        }
    } else if covered_above(before, s[i]) {
        let k = choose|k: int| 0 <= k < before.len() && is_ancestor(#[trigger] before[k], s[i]);
        assert(is_ancestor(all[k], s[i]));
    } else {
        assert(all[before.len() as int] == s[i]);
    }
}

/// Dropping an element that equals the one before loses no element and brings
/// none in.
pub proof fn lemma_deduped<A>(s: Seq<A>, n: int, x: A)
    requires
        0 <= n <= s.len(),
    ensures
        deduped(s, n).contains(x) == s.take(n).contains(x),
    decreases n,
{
    if n > 0 {
        let before = deduped(s, n - 1);
        lemma_deduped(s, n - 1, x);
        let was = s.take(n - 1);
        let is = s.take(n);
        assert(is =~= was.push(s[n - 1]));
        assert(is.contains(x) <==> was.contains(x) || x == s[n - 1]) by {
            if was.contains(x) {
                let i = choose|i: int| 0 <= i < was.len() && was[i] == x;
                assert(is[i] == x);
            }
            assert(is[n - 1] == s[n - 1]);
        }
        if n > 1 && s[n - 1] == s[n - 2] {
            assert(was[n - 2] == s[n - 1]);
        } else {
            let all = before.push(s[n - 1]);
            assert(all.contains(x) <==> before.contains(x) || x == s[n - 1]) by {
                if before.contains(x) {
                    let i = choose|i: int| 0 <= i < before.len() && before[i] == x;
                    assert(all[i] == x);
                }
                assert(all[before.len() as int] == s[n - 1]);
            }
        }
    }
}

/// A sorted list of paths without repetitions holds the paths of the list that
/// it was made of, and no others.
pub proof fn law_sorted_list_holds_the_same_paths(s: Seq<Seq<Seq<char>>>, path: Seq<Seq<char>>)
    ensures
        deduped(sorted_paths(s), s.len() as int).contains(path) == s.contains(path),
{
    let order = ranking::ranking(path_rows(s));
    let all = sorted_paths(s);
    ranking::lemma_ranking(path_rows(s));
    lemma_deduped(all, s.len() as int, path);
    assert(all.take(s.len() as int) =~= all);
    if s.contains(path) {
        let at = choose|at: int| 0 <= at < s.len() && s[at] == path;
        assert(order.contains(at));
        let i = choose|i: int| 0 <= i < order.len() && order[i] == at;
        assert(all[i] == path);
    }
    if all.contains(path) {
        let i = choose|i: int| 0 <= i < all.len() && all[i] == path;
        assert(s[order[i]] == path);
    }
}

/// The paths that a project keeps from being synced.
#[derive(Debug)]
pub struct AvoidSyncCache {
    pub root: String,
    pub paths: Vec<Vec<String>>,
}

/// Remembers the paths of a project in place of those that were known.
pub fn set_avoid_sync_paths(cache: &mut Option<AvoidSyncCache>, root: &str, paths: Vec<Vec<String>>)
    ensures
        *final(cache) matches Some(kept) && kept.root@ == root@ && kept.paths == paths,
{
    *cache = Some(AvoidSyncCache { root: crate::text::owned(root), paths });
}

} // verus!
