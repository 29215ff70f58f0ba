//! The exact state of a service on disk, and what is done to move one safely.
use vstd::prelude::*;
use vstd::utf8::*;

use crate::conflict;
use crate::conflict::same_hash;
use crate::decimal;
use crate::decimal::write_decimal;
use crate::fs_safety;
use crate::fs_safety::{
    same_generation, FileGeneration, ObjectKind, Observed, SafeEntryKind, SafeTreeEntry,
    TreeGeneration,
};
use crate::text::{append, owned, same, string_of};

verus! {

/// A service with the digest of all its files.
#[derive(Debug)]
pub struct ExactTreeFingerprint {
    pub metadata: TreeGeneration,
    pub content_hash: crate::conflict::Hash,
}

#[verifier::ext_equal]
pub struct FingerprintModel {
    pub metadata: fs_safety::TreeModel,
    pub content_hash: Seq<u8>,
}

impl ExactTreeFingerprint {
    pub open spec fn view(&self) -> FingerprintModel {
        FingerprintModel { metadata: self.metadata@, content_hash: self.content_hash@ }
    }

    /// Whether the service is exactly as it was.
    pub fn same(&self, other: &ExactTreeFingerprint) -> (r: bool)
        ensures
            r == (self@ == other@),
    {
        self.metadata.same(&other.metadata) && same_hash(&self.content_hash, &other.content_hash)
    }
}

/// A number as eight bytes, the lowest first.
pub open spec fn little_endian(x: u64) -> Seq<u8> {
    seq![
        (x % 256) as u8,
        ((x / 256) % 256) as u8,
        ((x / 65536) % 256) as u8,
        ((x / 16777216) % 256) as u8,
        ((x / 4294967296) % 256) as u8,
        ((x / 1099511627776) % 256) as u8,
        ((x / 281474976710656) % 256) as u8,
        (x / 72057594037927936) as u8,
    ]
}

fn push_little_endian(out: &mut Vec<u8>, x: u64)
    ensures
        final(out)@ == old(out)@ + little_endian(x),
{
    let ghost before = out@;
    out.push((x % 256) as u8);
    out.push(((x / 256) % 256) as u8);
    out.push(((x / 65536) % 256) as u8);
    out.push(((x / 16777216) % 256) as u8);
    out.push(((x / 4294967296) % 256) as u8);
    out.push(((x / 1099511627776) % 256) as u8);
    out.push(((x / 281474976710656) % 256) as u8);
    out.push((x / 72057594037927936) as u8);
    proof {
        assert(out@ =~= before + little_endian(x));
    }
}

fn push_all(out: &mut Vec<u8>, bytes: &[u8])
    ensures
        final(out)@ == old(out)@ + bytes@,
{
    let ghost before = out@;
    let mut k: usize = 0;
    proof {
        assert(before + bytes@.take(0) =~= before);
    }
    while k < bytes.len()
        invariant
            k <= bytes@.len(),
            out@ == before + bytes@.take(k as int),
        decreases bytes@.len() - k,
    {
        proof {
            assert(before + bytes@.take(k + 1) =~= (before + bytes@.take(k as int)).push(
                bytes@[k as int],
            ));
        }
        out.push(bytes[k]);
        k += 1;
    }
    proof {
        assert(bytes@.take(k as int) =~= bytes@);
    }
}

/// What stands for one file in the digest of a service.
pub open spec fn framed(relative: Seq<char>, len: u64, contents: Seq<u8>) -> Seq<u8> {
    little_endian(encode_utf8(relative).len() as u64) + encode_utf8(relative) + little_endian(len)
        + contents
}

/// Why a service has no fingerprint.
#[derive(Debug, Clone, Copy, PartialEq, Eq, Structural)]
pub enum FingerprintProblem {
    /// A file changed before it was read.
    ChangedBefore,
    /// A file changed while it was read.
    ChangedWhile,
    /// The service changed meanwhile.
    ServiceChanged,
}

/// The digest of a service, file by file.
#[derive(Debug)]
pub struct TreeHasher {
    pub bytes: Vec<u8>,
}

impl TreeHasher {
    pub fn new() -> (h: Self)
        ensures
            h.bytes@.len() == 0,
    {
        TreeHasher { bytes: Vec::new() }
    }

    /// Takes the next file, which was seen before and after it was read.
    pub fn add_file(
        &mut self,
        entry: &SafeTreeEntry,
        before: FileGeneration,
        contents: &[u8],
        after: FileGeneration,
    ) -> (r: Result<(), FingerprintProblem>)
        ensures
            if before != entry.generation {
                r == Err::<(), FingerprintProblem>(FingerprintProblem::ChangedBefore)
                    && final(self).bytes@ == old(self).bytes@
            } else if after != entry.generation {
                r == Err::<(), FingerprintProblem>(FingerprintProblem::ChangedWhile)
                    && final(self).bytes@ == old(self).bytes@
            } else {
                r is Ok && final(self).bytes@ == old(self).bytes@ + framed(
                    entry.relative@,
                    entry.generation.len,
                    contents@,
                )
            },
    {
        if !same_generation(&before, &entry.generation) {
            return Err(FingerprintProblem::ChangedBefore);
        }
        if !same_generation(&after, &entry.generation) {
            return Err(FingerprintProblem::ChangedWhile);
        }
        let ghost start = self.bytes@;
        let relative = entry.relative.as_str().as_bytes();
        push_little_endian(&mut self.bytes, relative.len() as u64);
        push_all(&mut self.bytes, relative);
        push_little_endian(&mut self.bytes, entry.generation.len);
        push_all(&mut self.bytes, contents);
        proof {
            assert(self.bytes@ =~= start + framed(
                entry.relative@,
                entry.generation.len,
                contents@,
            ));
        }
        Ok(())
    }

    pub fn finish(&self) -> (h: crate::conflict::Hash)
        ensures
            h@ == conflict::sha256(self.bytes@),
    {
        crate::conflict::hash(self.bytes.as_slice())
    }
}

/// The bytes that stand for the files among the first `n` entries, whose
/// contents are given in the same order.
pub open spec fn framed_tree(
    entries: Seq<fs_safety::TreeEntryModel>,
    contents: Seq<Seq<u8>>,
    n: int,
) -> Seq<u8>
    decreases n,
{
    if n <= 0 {
        Seq::empty()
    } else if entries[n - 1].kind == SafeEntryKind::File {
        framed_tree(entries, contents, n - 1) + framed(
            entries[n - 1].relative,
            entries[n - 1].generation.len,
            contents[n - 1],
        )
    } else {
        framed_tree(entries, contents, n - 1)
    }
}

pub open spec fn byte_texts(v: Seq<Vec<u8>>) -> Seq<Seq<u8>> {
    Seq::new(v.len(), |i: int| v[i]@)
}

/// The digest of a captured service from the contents of its entries; that of a
/// directory is not looked at.
pub fn hash_tree_contents(generation: &TreeGeneration, contents: &Vec<Vec<u8>>) -> (h: crate::conflict::Hash)
    requires
        contents@.len() == generation.entries@.len(),
    ensures
        h@ == conflict::sha256(
            framed_tree(
                generation@.entries,
                byte_texts(contents@),
                generation@.entries.len() as int,
            ),
        ),
{
    let ghost entries = generation@.entries;
    let ghost files = byte_texts(contents@);
    let mut hasher = TreeHasher::new();
    let mut k: usize = 0;
    proof {
        assert(hasher.bytes@ =~= framed_tree(entries, files, 0));
    }
    while k < generation.entries.len()
        invariant
            k <= generation.entries@.len(),
            contents@.len() == generation.entries@.len(),
            entries == generation@.entries,
            files == byte_texts(contents@),
            hasher.bytes@ == framed_tree(entries, files, k as int),
        decreases generation.entries@.len() - k,
    {
        let entry = &generation.entries[k];
        proof {
            assert(entries[k as int] == entry@);
            assert(files[k as int] == contents@[k as int]@);
        }
        if entry.kind == SafeEntryKind::File {
            let _ = hasher.add_file(
                entry,
                entry.generation,
                contents[k].as_slice(),
                entry.generation,
            );
        }
        k += 1;
    }
    hasher.finish()
}

/// The fingerprint of a service that was captured before and after its files
/// were read.
pub fn capture_exact_tree_fingerprint(
    before: TreeGeneration,
    content_hash: crate::conflict::Hash,
    after: &TreeGeneration,
) -> (r: Result<ExactTreeFingerprint, FingerprintProblem>)
    ensures
        r == (if before@ == after@ {
            Ok::<ExactTreeFingerprint, FingerprintProblem>(
                ExactTreeFingerprint { metadata: before, content_hash },
            )
        } else {
            Err(FingerprintProblem::ServiceChanged)
        }),
{
    if !before.same(after) {
        return Err(FingerprintProblem::ServiceChanged);
    }
    Ok(ExactTreeFingerprint { metadata: before, content_hash })
}

/// What was seen of an entry while it was copied; of a directory nothing is
/// looked at.
#[derive(Debug)]
pub struct CopiedEntry {
    pub before: FileGeneration,
    pub contents: Vec<u8>,
    pub after: FileGeneration,
}

pub open spec fn copied_contents(v: Seq<CopiedEntry>) -> Seq<Seq<u8>> {
    Seq::new(v.len(), |i: int| v[i].contents@)
}

/// What first went wrong with the files among the first `n` entries.
pub open spec fn copy_problem(
    entries: Seq<fs_safety::TreeEntryModel>,
    copied: Seq<CopiedEntry>,
    n: int,
) -> Option<FingerprintProblem>
    decreases n,
{
    if n <= 0 {
        None
    } else if copy_problem(entries, copied, n - 1) is Some {
        copy_problem(entries, copied, n - 1)
    } else if entries[n - 1].kind != SafeEntryKind::File {
        None
    } else if copied[n - 1].before != entries[n - 1].generation {
        Some(FingerprintProblem::ChangedBefore)
    } else if copied[n - 1].after != entries[n - 1].generation {
        Some(FingerprintProblem::ChangedWhile)
    } else {
        None
    }
}

/// Checks that a captured service was copied without a change, and gives the
/// digest of the copy.
pub fn copy_fenced_service_to_stage(generation: &TreeGeneration, copied: &Vec<CopiedEntry>) -> (r:
    Result<crate::conflict::Hash, FingerprintProblem>)
    requires
        copied@.len() == generation.entries@.len(),
    ensures
        ({
            let n = generation@.entries.len() as int;
            match r {
                Err(p) => copy_problem(generation@.entries, copied@, n) == Some(p),
                Ok(h) => {
                    &&& copy_problem(generation@.entries, copied@, n) is None
                    &&& h@ == conflict::sha256(
                        framed_tree(generation@.entries, copied_contents(copied@), n),
                    )
                },
            }
        }),
{
    let ghost entries = generation@.entries;
    let ghost files = copied_contents(copied@);
    let mut hasher = TreeHasher::new();
    let mut k: usize = 0;
    proof {
        assert(hasher.bytes@ =~= framed_tree(entries, files, 0));
    }
    while k < generation.entries.len()
        invariant
            k <= generation.entries@.len(),
            copied@.len() == generation.entries@.len(),
            entries == generation@.entries,
            entries.len() == generation.entries@.len(),
            files == copied_contents(copied@),
            copy_problem(entries, copied@, k as int) is None,
            hasher.bytes@ == framed_tree(entries, files, k as int),
        decreases generation.entries@.len() - k,
    {
        let entry = &generation.entries[k];
        proof {
            assert(entries[k as int] == entry@);
            assert(files[k as int] == copied@[k as int].contents@);
        }
        if entry.kind == SafeEntryKind::File {
            match hasher.add_file(
                entry,
                copied[k].before,
                copied[k].contents.as_slice(),
                copied[k].after,
            ) {
                Err(p) => {
                    proof {
                        lemma_copy_problem_stays(
                            entries,
                            copied@,
                            k + 1,
                            entries.len() as int,
                        );
                    }
                    return Err(p);
                },
                Ok(()) => {},
            }
        }
        k += 1;
    }
    Ok(hasher.finish())
}

proof fn lemma_copy_problem_stays(
    entries: Seq<fs_safety::TreeEntryModel>,
    copied: Seq<CopiedEntry>,
    m: int,
    n: int,
)
    requires
        0 <= m <= n,
        copy_problem(entries, copied, m) is Some,
    ensures
        copy_problem(entries, copied, n) == copy_problem(entries, copied, m),
    decreases n,
{
    if m < n {
        lemma_copy_problem_stays(entries, copied, m, n - 1);
    }
}

/// Whether a service is the same but for where it stands.
pub open spec fn relocated(a: fs_safety::TreeModel, b: fs_safety::TreeModel) -> bool {
    &&& a.service == b.service
    &&& a.present == b.present
    &&& a.root_generation == b.root_generation
    &&& a.entries.len() == b.entries.len()
    &&& forall|k: int|
        0 <= k < a.entries.len() ==> {
            let x = #[trigger] a.entries[k];
            let y = b.entries[k];
            x.relative == y.relative && x.kind == y.kind && x.generation == y.generation
        }
}

pub fn relocated_tree_generation_matches(expected: &TreeGeneration, actual: &TreeGeneration) -> (r:
    bool)
    ensures
        r == relocated(expected@, actual@),
{
    let roots = match (&expected.root_generation, &actual.root_generation) {
        (Some(a), Some(b)) => same_generation(a, b),
        (None, None) => true,
        _ => false,
    };
    proof {
        assert(expected@.entries.len() == expected.entries@.len());
        assert(actual@.entries.len() == actual.entries@.len());
    }
    if !same(expected.service.as_str(), actual.service.as_str()) || expected.present
        != actual.present || !roots || expected.entries.len() != actual.entries.len() {
        return false;
    }
    let mut k: usize = 0;
    while k < expected.entries.len()
        invariant
            k <= expected.entries@.len(),
            expected.entries@.len() == actual.entries@.len(),
            forall|j: int|
                0 <= j < k ==> {
                    let x = #[trigger] expected@.entries[j];
                    let y = actual@.entries[j];
                    x.relative == y.relative && x.kind == y.kind && x.generation == y.generation
                },
        decreases expected.entries@.len() - k,
    {
        let a = &expected.entries[k];
        let b = &actual.entries[k];
        proof {
            assert(expected@.entries[k as int] == a@);
            assert(actual@.entries[k as int] == b@);
        }
        if !same(a.relative.as_str(), b.relative.as_str()) || a.kind != b.kind || !same_generation(
            &a.generation,
            &b.generation,
        ) {
            return false;
        }
        k += 1;
    }
    true
}

pub fn relocated_fingerprint_matches(
    expected: &ExactTreeFingerprint,
    actual: &ExactTreeFingerprint,
) -> (r: bool)
    ensures
        r == (expected.content_hash@ == actual.content_hash@ && relocated(
            expected.metadata@,
            actual.metadata@,
        )),
{
    same_hash(&expected.content_hash, &actual.content_hash) && relocated_tree_generation_matches(
        &expected.metadata,
        &actual.metadata,
    )
}

/// A service that did not change matches itself wherever it stands.
pub proof fn law_unmoved_is_relocated(a: fs_safety::TreeModel)
    ensures
        relocated(a, a),
{
}

/// The name of the directory that takes the backups of one transfer.
pub open spec fn backup_name(stamp: u64, sequence: u64) -> Seq<char> {
    "stream-"@ + decimal::decimal_text(stamp as nat) + "-"@ + decimal::decimal_text(sequence as nat)
}

pub fn backup_transaction_name(stamp: u64, sequence: u64) -> (out: String)
    ensures
        out@ == backup_name(stamp, sequence),
{
    let mut out = owned("stream-");
    let first = string_of(&write_decimal(stamp));
    append(&mut out, first.as_str());
    append(&mut out, "-");
    let second = string_of(&write_decimal(sequence));
    append(&mut out, second.as_str());
    out
}

/// Why a backup directory is not cleaned away.
#[derive(Debug, Clone, Copy, PartialEq, Eq, Structural)]
pub enum CleanupProblem {
    Linked,
    NotADirectory,
    NotEmpty,
    Changed,
}

/// Whether an empty backup directory is to be removed. It was seen, then
/// captured before and after it was listed.
pub fn cleanup_empty_stream_backup_transaction(
    seen: Option<Observed>,
    before: FileGeneration,
    holds_entry: bool,
    after: FileGeneration,
) -> (r: Result<bool, CleanupProblem>)
    ensures
        r == (match seen {
            None => Ok::<bool, CleanupProblem>(false),
            Some(o) => if o.kind.is_link() {
                Err(CleanupProblem::Linked)
            } else if o.kind != ObjectKind::Directory {
                Err(CleanupProblem::NotADirectory)
            } else if holds_entry {
                Err(CleanupProblem::NotEmpty)
            } else if before != after {
                Err(CleanupProblem::Changed)
            } else {
                Ok(true)
            },
        }),
{
    let object = match seen {
        None => return Ok(false),
        Some(object) => object,
    };
    if object.kind.linked() {
        return Err(CleanupProblem::Linked);
    }
    if object.kind != ObjectKind::Directory {
        return Err(CleanupProblem::NotADirectory);
    }
    if holds_entry {
        return Err(CleanupProblem::NotEmpty);
    }
    if !same_generation(&before, &after) {
        return Err(CleanupProblem::Changed);
    }
    Ok(true)
}

} // verus!
