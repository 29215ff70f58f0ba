//! The contents on which both sides agreed, and the digests of files.
use vstd::prelude::*;

use crate::conflict;
use crate::conflict::ConflictEngine;
use crate::fs_map;
use crate::fs_map::{classify_script_file, is_init_file, normalize_line_endings};
use crate::fs_safety;
use crate::fs_safety::{same_generation, FileGeneration, SafeEntryKind, SafeTreeEntry, TreeGeneration};
use crate::path_text;
use crate::path_text::plain_path;
use crate::sync_scope;
use crate::sync_scope::service_at;
use crate::text::same;
use crate::text_map::TextMap;

verus! {

/// How many digests of files are kept.
pub const CONTENT_HASH_CACHE_MAX_ENTRIES: usize = 65_536;

/// A script on disk whose content was read.
#[derive(Debug)]
pub struct StagedScriptBaseline {
    pub path: String,
    pub source_hash: crate::conflict::Hash,
    pub fs_mtime: u64,
    pub generation: FileGeneration,
}

/// Why a file that was read is not used.
#[derive(Debug, Clone, Copy, PartialEq, Eq, Structural)]
pub enum BaselineProblem {
    Changed,
}

/// The baseline of a file that was seen before and after its content was
/// digested.
pub fn prepare_one_staged_script_baseline(
    path: String,
    before: FileGeneration,
    digest: crate::conflict::Hash,
    after: FileGeneration,
    fs_mtime: u64,
) -> (r: Result<StagedScriptBaseline, BaselineProblem>)
    ensures
        r == (if before == after {
            Ok::<StagedScriptBaseline, BaselineProblem>(
                StagedScriptBaseline {
                    path,
                    source_hash: digest,
                    fs_mtime,
                    generation: before,
                },
            )
        } else {
            Err(BaselineProblem::Changed)
        }),
{
    if !same_generation(&before, &after) {
        return Err(BaselineProblem::Changed);
    }
    Ok(StagedScriptBaseline { path, source_hash: digest, fs_mtime, generation: before })
}

/// The digests of files by the one spelling of their path, each with the
/// generation that it is of.
#[derive(Debug)]
pub struct ContentHashCache {
    pub entries: TextMap<(FileGeneration, crate::conflict::Hash)>,
}

impl ContentHashCache {
    pub open spec fn wf(&self) -> bool {
        &&& self.entries.wf()
        &&& self.entries.entries@.len() <= CONTENT_HASH_CACHE_MAX_ENTRIES
    }

    pub fn new() -> (c: Self)
        ensures
            c.wf(),
            c.entries@ == Map::<Seq<char>, (FileGeneration, crate::conflict::Hash)>::empty(),
    {
        ContentHashCache { entries: TextMap::new() }
    }

    /// The digest of a file, unless the file is of another generation.
    pub fn lookup_cached_content_hash(&self, path: &str, generation: &FileGeneration) -> (r: Option<
        crate::conflict::Hash,
    >)
        requires
            self.wf(),
        ensures
            ({
                let key = path_text::plain(path@);
                r == (if self.entries@.contains_key(key) && self.entries@[key].0 == *generation {
                    Some(self.entries@[key].1)
                } else {
                    None
                })
            }),
    {
        let key = plain_path(path);
        match self.entries.get(key.as_str()) {
            Some(entry) => if same_generation(&entry.0, generation) {
                Some(entry.1)
            } else {
                None
            },
            None => None,
        }
    }

    /// Keeps a digest. A full cache that does not hold the path is emptied
    /// first.
    pub fn store_cached_content_hash(
        &mut self,
        path: &str,
        generation: FileGeneration,
        digest: crate::conflict::Hash,
    )
        requires
            old(self).wf(),
        ensures
            final(self).wf(),
            ({
                let key = path_text::plain(path@);
                let full = old(self).entries.entries@.len() >= CONTENT_HASH_CACHE_MAX_ENTRIES
                    && !old(self).entries@.contains_key(key);
                let kept = if full {
                    Map::empty()
                } else {
                    old(self).entries@
                };
                final(self).entries@ == kept.insert(key, (generation, digest))
            }),
    {
        let key = plain_path(path);
        if self.entries.len() >= CONTENT_HASH_CACHE_MAX_ENTRIES && !self.entries.contains(
            key.as_str(),
        ) {
            self.entries = TextMap::new();
        }
        self.entries.insert(key, (generation, digest));
    }

    /// Forgets the digest of a path.
    pub fn invalidate_cached_content_hash(&mut self, path: &str)
        requires
            old(self).wf(),
        ensures
            final(self).wf(),
            final(self).entries@ == old(self).entries@.remove(path_text::plain(path@)),
    {
        let ghost before = self.entries;
        let key = plain_path(path);
        let found = self.entries.remove(key.as_str());
        proof {
            before.lemma_len();
            self.entries.lemma_len();
            if found {
                assert(self.entries@.dom() =~= before@.dom().remove(key@));
            } else {
                assert(self.entries@.dom() =~= before@.dom());
            }
        }
    }
}

/// A digest that was kept is found for the generation that it is of, and for no
/// other.
pub proof fn law_cache_never_serves_another_generation(
    kept: Map<Seq<char>, (FileGeneration, crate::conflict::Hash)>,
    path: Seq<char>,
    stored: FileGeneration,
    asked: FileGeneration,
    digest: crate::conflict::Hash,
)
    ensures
        ({
            let m = kept.insert(path, (stored, digest));
            &&& m.contains_key(path)
            &&& m[path].0 == asked <==> stored == asked
            &&& m[path].1 == digest
        }),
{
}

/// The digest of a file's content, whatever its line endings.
pub fn normalized_file_hash(bytes: &[u8]) -> (h: crate::conflict::Hash)
    ensures
        h@ == conflict::sha256(fs_map::normalized(bytes@)),
{
    let plain = normalize_line_endings(bytes);
    let slice: &[u8] = match &plain {
        std::borrow::Cow::Borrowed(b) => *b,
        std::borrow::Cow::Owned(v) => v.as_slice(),
    };
    crate::conflict::hash(slice)
}

/// Takes the digest of a file that was seen before and after it was read, and
/// keeps it; that of a file that changed meanwhile is not used.
pub fn normalized_file_hash_cached(
    cache: &mut ContentHashCache,
    path: &str,
    before: FileGeneration,
    digest: crate::conflict::Hash,
    after: FileGeneration,
) -> (r: Result<crate::conflict::Hash, BaselineProblem>)
    requires
        old(cache).wf(),
    ensures
        final(cache).wf(),
        if before == after {
            let key = path_text::plain(path@);
            let full = old(cache).entries.entries@.len() >= CONTENT_HASH_CACHE_MAX_ENTRIES
                && !old(cache).entries@.contains_key(key);
            let kept = if full {
                Map::empty()
            } else {
                old(cache).entries@
            };
            r == Ok::<crate::conflict::Hash, BaselineProblem>(digest) && final(cache).entries@
                == kept.insert(key, (before, digest))
        } else {
            r == Err::<crate::conflict::Hash, BaselineProblem>(BaselineProblem::Changed)
                && *final(cache) == *old(cache)
        },
{
    if !same_generation(&before, &after) {
        return Err(BaselineProblem::Changed);
    }
    cache.store_cached_content_hash(path, before, digest);
    Ok(digest)
}

/// Folds line endings in pieces of a file as they are read.
///
/// A carriage return is held back until the next byte shows whether it belongs
/// to a line ending.
#[derive(Debug)]
pub struct LineFolder {
    pub pending_cr: bool,
}

/// The bytes that a folder gives for more input: what it held back and the new
/// bytes, normalised, without a carriage return at the very end.
pub open spec fn held(pending: bool, bytes: Seq<u8>) -> Seq<u8> {
    if pending {
        seq![13u8] + bytes
    } else {
        bytes
    }
}

impl LineFolder {
    pub fn new() -> (f: Self)
        ensures
            !f.pending_cr,
    {
        LineFolder { pending_cr: false }
    }

    /// Folds the next piece.
    pub fn fold(&mut self, bytes: &[u8]) -> (out: Vec<u8>)
        ensures
            ({
                let input = held(old(self).pending_cr, bytes@);
                &&& final(self).pending_cr == (input.len() > 0 && input.last() == 13)
                &&& out@ == fs_map::normalized(
                    if final(self).pending_cr {
                        input.drop_last()
                    } else {
                        input
                    },
                )
            }),
    {
        let ghost input = held(self.pending_cr, bytes@);
        let mut out: Vec<u8> = Vec::new();
        let mut pending = self.pending_cr;
        let mut i: usize = 0;
        let ghost mut seen: Seq<u8> = held(self.pending_cr, Seq::empty());
        proof {
            assert(seen.drop_last() =~= Seq::<u8>::empty() || seen.len() == 0);
            assert(fs_map::normalized(Seq::<u8>::empty()) =~= Seq::<u8>::empty());
            if pending {
                assert(seen.drop_last() =~= Seq::<u8>::empty());
            } else {
                assert(seen =~= Seq::<u8>::empty());
            }
            assert(seen =~= input.take(seen.len() as int));
        }
        while i < bytes.len()
            invariant
                i <= bytes@.len(),
                input == held(old(self).pending_cr, bytes@),
                seen == held(old(self).pending_cr, bytes@.take(i as int)),
                pending == (seen.len() > 0 && seen.last() == 13),
                out@ == fs_map::normalized(
                    if pending {
                        seen.drop_last()
                    } else {
                        seen
                    },
                ),
            decreases bytes@.len() - i,
        {
            let b: u8 = bytes[i];
            let ghost before = seen;
            proof {
                assert(bytes@.take(i + 1) =~= bytes@.take(i as int).push(b));
                seen = held(old(self).pending_cr, bytes@.take(i + 1));
                assert(seen =~= before.push(b));
                lemma_normalized_push(before, b);
            }
            if pending && b != 10 {
                out.push(13);
            }
            if b != 13 {
                out.push(b);
            }
            pending = b == 13;
            i += 1;
        }
        proof {
            assert(bytes@.take(i as int) =~= bytes@);
        }
        self.pending_cr = pending;
        out
    }

    /// What is held back at the end.
    pub fn finish(&self) -> (out: Vec<u8>)
        ensures
            out@ == (if self.pending_cr {
                seq![13u8]
            } else {
                Seq::empty()
            }),
    {
        let mut out: Vec<u8> = Vec::new();
        if self.pending_cr {
            out.push(13);
        }
        proof {
            assert(self.pending_cr ==> out@ =~= seq![13u8]);
            assert(!self.pending_cr ==> out@ =~= Seq::<u8>::empty());
        }
        out
    }
}

/// How normalising goes on with one more byte.
proof fn lemma_normalized_push(s: Seq<u8>, b: u8)
    ensures
        ({
            let pending = s.len() > 0 && s.last() == 13;
            let out = fs_map::normalized(
                if pending {
                    s.drop_last()
                } else {
                    s
                },
            );
            let next = s.push(b);
            let with_cr = if pending && b != 10 {
                out.push(13)
            } else {
                out
            };
            fs_map::normalized(
                if b == 13 {
                    next.drop_last()
                } else {
                    next
                },
            ) == (if b == 13 {
                with_cr
            } else {
                with_cr.push(b)
            })
        }),
{
    let pending = s.len() > 0 && s.last() == 13;
    assert(s.push(b).drop_last() =~= s);
    if pending {
        let head = s.drop_last();
        assert(s =~= head.push(13));
        if b == 13 {
            lemma_normalized_end(head);
        } else {
            assert(s.push(b) =~= head + seq![13u8, b]);
            lemma_normalized_tail(head, seq![13u8, b]);
            lemma_normalized_pair(b);
            if b == 10 {
                assert(fs_map::normalized(head) + seq![10u8] =~= fs_map::normalized(head).push(
                    10,
                ));
            } else {
                assert(fs_map::normalized(head) + seq![13u8, b] =~= fs_map::normalized(head).push(
                    13,
                ).push(b));
            }
        }
    } else if b != 13 {
        assert(s.push(b) =~= s + seq![b]);
        lemma_normalized_tail(s, seq![b]);
        lemma_normalized_one(b);
        assert(fs_map::normalized(s) + seq![b] =~= fs_map::normalized(s).push(b));
    }
}

proof fn lemma_normalized_one(b: u8)
    ensures
        fs_map::normalized(seq![b]) == seq![b],
{
    reveal_with_fuel(fs_map::normalized, 3);
    assert(seq![b].skip(1) =~= Seq::<u8>::empty());
    assert(fs_map::normalized(seq![b]) =~= seq![b]);
}

proof fn lemma_normalized_pair(b: u8)
    requires
        b != 13,
    ensures
        fs_map::normalized(seq![13u8, b]) == (if b == 10 {
            seq![10u8]
        } else {
            seq![13u8, b]
        }),
{
    lemma_normalized_one(b);
    reveal_with_fuel(fs_map::normalized, 3);
    assert(seq![13u8, b].skip(1) =~= seq![b]);
    assert(seq![13u8, b].skip(2) =~= Seq::<u8>::empty());
    assert(seq![13u8] + seq![b] =~= seq![13u8, b]);
    assert(fs_map::normalized(seq![13u8, b]) =~= (if b == 10 {
        seq![10u8]
    } else {
        seq![13u8, b]
    }));
}

/// A carriage return at the very end stays.
proof fn lemma_normalized_end(s: Seq<u8>)
    ensures
        fs_map::normalized(s.push(13)) == fs_map::normalized(s).push(13),
{
    lemma_normalized_tail(s, seq![13u8]);
    lemma_normalized_one(13);
    assert(s.push(13) =~= s + seq![13u8]);
    assert(fs_map::normalized(s) + seq![13u8] =~= fs_map::normalized(s).push(13));
}

/// Two pieces are normalised apart unless a line ending lies across them.
proof fn lemma_normalized_tail(s: Seq<u8>, t: Seq<u8>)
    requires
        t.len() > 0 && t[0] == 10 ==> !(s.len() > 0 && s.last() == 13),
    ensures
        fs_map::normalized(s + t) == fs_map::normalized(s) + fs_map::normalized(t),
    decreases s.len(),
{
    if s.len() == 0 {
        assert(s + t =~= t);
        assert(fs_map::normalized(s) =~= Seq::<u8>::empty());
        assert(fs_map::normalized(s) + fs_map::normalized(t) =~= fs_map::normalized(t));
    } else if s[0] == 13 && s.len() > 1 && s[1] == 10 {
        let rest = s.skip(2);
        assert((s + t).skip(2) =~= rest + t);
        assert((s + t)[0] == s[0] && (s + t)[1] == s[1]);
        if rest.len() > 0 {
            assert(rest.last() == s.last());
        }
        lemma_normalized_tail(rest, t);
        assert(seq![10u8] + (fs_map::normalized(rest) + fs_map::normalized(t)) =~= (seq![10u8]
            + fs_map::normalized(rest)) + fs_map::normalized(t));
    } else {
        let rest = s.skip(1);
        assert((s + t).skip(1) =~= rest + t);
        assert((s + t)[0] == s[0]);
        if s.len() > 1 {
            assert((s + t)[1] == s[1]);
            assert(rest.last() == s.last());
        } else if t.len() > 0 {
            assert((s + t)[1] == t[0]);
            assert(s.last() == s[0]);
        }
        lemma_normalized_tail(rest, t);
        assert(seq![s[0]] + (fs_map::normalized(rest) + fs_map::normalized(t)) =~= (seq![s[0]]
            + fs_map::normalized(rest)) + fs_map::normalized(t));
    }
}

/// The place of the first of two lists of services that differs from the
/// other.
pub open spec fn first_changed(
    expected: Seq<TreeGeneration>,
    current: Seq<TreeGeneration>,
    k: int,
) -> Option<int>
    decreases expected.len() - k,
{
    if k < 0 || k >= expected.len() {
        None
    } else if expected[k]@ != current[k]@ {
        Some(k)
    } else {
        first_changed(expected, current, k + 1)
    }
}

/// Holds staged services against what they are now.
pub fn find_changed_service(expected: &Vec<TreeGeneration>, current: &Vec<TreeGeneration>) -> (r:
    Option<usize>)
    requires
        expected@.len() == current@.len(),
    ensures
        match r {
            Some(k) => first_changed(expected@, current@, 0) == Some(k as int),
            None => first_changed(expected@, current@, 0) is None,
        },
{
    let mut k: usize = 0;
    while k < expected.len()
        invariant
            k <= expected@.len(),
            expected@.len() == current@.len(),
            first_changed(expected@, current@, 0) == first_changed(expected@, current@, k as int),
        decreases expected@.len() - k,
    {
        if !expected[k].same(&current[k]) {
            return Some(k);
        }
        k += 1;
    }
    None
}

/// Why a comparison is out of date.
#[derive(Debug, Clone, Copy, PartialEq, Eq, Structural)]
pub enum FenceProblem {
    /// Not every service was captured.
    Incomplete,
    /// Another service stands at this place.
    OtherService(usize),
    /// The service at this place changed.
    Changed(usize),
}

/// What is wrong with the captured services from `k` on.
pub open spec fn fence_problem(
    expected: Seq<TreeGeneration>,
    current: Seq<TreeGeneration>,
    k: int,
) -> Option<FenceProblem>
    decreases expected.len() - k,
{
    if k < 0 || k >= expected.len() {
        None
    } else if Some(expected[k].service@) != sync_scope::service_text(k) {
        Some(FenceProblem::OtherService(k as usize))
    } else if current[k]@ != expected[k]@ {
        Some(FenceProblem::Changed(k as usize))
    } else {
        fence_problem(expected, current, k + 1)
    }
}

/// Holds the captured services of a comparison against what they are now.
pub fn revalidate_initial_service_generations(
    expected: &Vec<TreeGeneration>,
    current: &Vec<TreeGeneration>,
) -> (r: Result<(), FenceProblem>)
    requires
        expected@.len() == sync_scope::SYNCED_SERVICE_COUNT ==> current@.len() == expected@.len(),
    ensures
        match r {
            Err(p) => if expected@.len() != sync_scope::SYNCED_SERVICE_COUNT {
                p == FenceProblem::Incomplete
            } else {
                fence_problem(expected@, current@, 0) == Some(p)
            },
            Ok(()) => expected@.len() == sync_scope::SYNCED_SERVICE_COUNT && fence_problem(
                expected@,
                current@,
                0,
            ) is None,
        },
{
    if expected.len() != sync_scope::SYNCED_SERVICE_COUNT {
        return Err(FenceProblem::Incomplete);
    }
    let mut k: usize = 0;
    while k < expected.len()
        invariant
            k <= expected@.len(),
            expected@.len() == sync_scope::SYNCED_SERVICE_COUNT,
            expected@.len() == current@.len(),
            fence_problem(expected@, current@, 0) == fence_problem(
                expected@,
                current@,
                k as int,
            ),
        decreases expected@.len() - k,
    {
        let named = match service_at(k) {
            Some(name) => same(expected[k].service.as_str(), name),
            None => false,
        };
        if !named {
            return Err(FenceProblem::OtherService(k));
        }
        if !expected[k].same(&current[k]) {
            return Err(FenceProblem::Changed(k));
        }
        k += 1;
    }
    Ok(())
}

/// A fence that holds covers every service, unchanged.
pub proof fn law_fence_means_unchanged(
    expected: Seq<TreeGeneration>,
    current: Seq<TreeGeneration>,
    k: int,
)
    requires
        expected.len() == sync_scope::SYNCED_SERVICE_COUNT,
        current.len() == expected.len(),
        fence_problem(expected, current, 0) is None,
        0 <= k < sync_scope::SYNCED_SERVICE_COUNT,
    ensures
        current[k]@ == expected[k]@,
        sync_scope::service_text(k) == Some(expected[k].service@),
{
    lemma_fence_from(expected, current, 0, k);
}

proof fn lemma_fence_from(
    expected: Seq<TreeGeneration>,
    current: Seq<TreeGeneration>,
    j: int,
    k: int,
)
    requires
        0 <= j <= k < expected.len(),
        fence_problem(expected, current, j) is None,
    ensures
        current[k]@ == expected[k]@,
        sync_scope::service_text(k) == Some(expected[k].service@),
    decreases k - j,
{
    if j < k {
        lemma_fence_from(expected, current, j + 1, k);
    }
}

/// The agreed contents after the first `n` baselines were recorded.
pub open spec fn recorded_baselines(
    s: conflict::EngineModel,
    baselines: Seq<StagedScriptBaseline>,
    n: int,
) -> conflict::EngineModel
    decreases n,
{
    if n <= 0 {
        s
    } else {
        let before = recorded_baselines(s, baselines, n - 1);
        let b = baselines[n - 1];
        conflict::EngineModel {
            baselines: before.baselines.insert(
                path_text::plain(b.path@),
                (b.source_hash@, b.fs_mtime),
            ),
            conflicts: before.conflicts,
        }
    }
}

/// Records the contents of a clean comparison as agreed.
pub fn record_baselines(engine: &mut ConflictEngine, baselines: &Vec<StagedScriptBaseline>)
    requires
        old(engine).wf(),
    ensures
        final(engine).wf(),
        final(engine)@ == recorded_baselines(
            old(engine)@,
            baselines@,
            baselines@.len() as int,
        ),
{
    let ghost start = engine@;
    let mut k: usize = 0;
    while k < baselines.len()
        invariant
            k <= baselines@.len(),
            engine.wf(),
            engine@ == recorded_baselines(start, baselines@, k as int),
        decreases baselines@.len() - k,
    {
        let b = &baselines[k];
        engine.record_sync(b.path.as_str(), b.source_hash, b.fs_mtime);
        k += 1;
    }
}

/// Whether the content of a captured entry is agreed on after a clean
/// comparison.
pub open spec fn is_seeded(e: fs_safety::TreeEntryModel, name: Seq<char>) -> bool {
    &&& e.kind == SafeEntryKind::File
    &&& (fs_map::classified(name) is Some || fs_map::init_parts(name) is Some || fs_map::plain_init(
        name,
    ) is Some)
}

/// Whether the script file of that name is seeded.
pub fn seeds_baseline(entry: &SafeTreeEntry, name: &str) -> (r: bool)
    ensures
        r == is_seeded(entry@, name@),
{
    entry.kind == SafeEntryKind::File && (classify_script_file(name).is_some() || is_init_file(
        name,
    ))
}

} // verus!
