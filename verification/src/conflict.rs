//! Which side of a file changed since both last agreed, and what to do when
//! both did.
//!
//! Per file the engine keeps the content that both sides last agreed on. A
//! conflict is parked when the file on disk and the pushed content both differ
//! from it.
//!
//! A file is known by the spelling of its path: doubled slashes, single dots and
//! a slash at the end make no other path. Each call gets the canonical path and
//! the path as it was given.
use sha2::{Digest, Sha256};
use vstd::prelude::*;

use crate::hex;
use crate::path_text;
use crate::path_text::{path_components, plain_path, spell};
use crate::text::owned;
use crate::text_map::TextMap;

verus! {

pub type Hash = [u8; 32];

/// The SHA-256 digest of a byte sequence.
pub uninterp spec fn sha256(bytes: Seq<u8>) -> Seq<u8>;

/// `sha2::Sha256`: the digest of `bytes` depends on the bytes alone and has a
/// name.
#[verifier::external_body]
pub fn hash(bytes: &[u8]) -> (h: Hash)
    ensures
        h@ == sha256(bytes@),
{
    let mut h = Sha256::new();
    h.update(bytes);
    h.finalize().into()
}

/// Whether two digests are the same.
pub fn same_hash(a: &Hash, b: &Hash) -> (r: bool)
    ensures
        r == (a@ == b@),
{
    let mut i: usize = 0;
    while i < 32
        invariant
            i <= 32,
            forall|j: int| 0 <= j < i ==> a@[j] == b@[j],
        decreases 32 - i,
    {
        if a[i] != b[i] {
            return false;
        }
        i += 1;
    }
    proof {
        assert(a@ =~= b@);
    }
    true
}

#[derive(Debug, Clone, Copy, PartialEq, Eq, Structural)]
pub enum Resolution {
    KeepLocal,
    KeepStudio,
}

/// The content that both sides last agreed on.
#[derive(Debug, Clone, Copy)]
pub struct Baseline {
    pub fs_mtime: u64,
    pub last_plugin_push_hash: Hash,
}

/// Both versions of a file, until one is chosen.
#[derive(Debug)]
pub struct ParkedConflict {
    /// The path as it was spelled when the conflict was first parked.
    pub path: String,
    pub fs_bytes: Vec<u8>,
    pub fs_hash: Hash,
    pub fs_mtime: u64,
    pub studio_bytes: Vec<u8>,
    pub studio_hash: Hash,
    pub studio_mtime: u64,
}

/// What is reported of a parked conflict.
#[derive(Debug, Clone)]
pub struct Conflict {
    pub path: String,
    pub fs_hash: String,
    pub fs_mtime: u64,
    pub studio_hash: String,
    pub studio_mtime: u64,
}

#[derive(Debug, Clone, Copy, PartialEq, Eq, Structural)]
pub enum FsDecision {
    /// The content matches the baseline: nothing changed.
    NoChange,
    /// The file changed, and Studio should learn of it.
    Propagate,
    /// Studio has a parked push that differs from the file.
    Conflict,
}

#[derive(Debug, Clone, Copy, PartialEq, Eq, Structural)]
pub enum StudioDecision {
    /// The file still matches the baseline: write the push.
    Apply,
    /// The push is what is on disk.
    NoChange,
    /// The file drifted from the baseline: the push was parked.
    Conflict,
}

#[derive(Debug)]
pub enum Resolved {
    /// Write these bytes to the file.
    WriteFs(Vec<u8>),
    /// Push these bytes to Studio.
    PushStudio(Vec<u8>),
}

/// What a resolution asks for.
pub enum ResolvedModel {
    WriteFs(Seq<u8>),
    PushStudio(Seq<u8>),
}

impl Resolved {
    pub open spec fn view(&self) -> ResolvedModel {
        match self {
            Resolved::WriteFs(bytes) => ResolvedModel::WriteFs(bytes@),
            Resolved::PushStudio(bytes) => ResolvedModel::PushStudio(bytes@),
        }
    }
}

/// A parked conflict without the digests, which the bytes decide.
pub struct ParkedModel {
    pub path: Seq<char>,
    pub fs_bytes: Seq<u8>,
    pub fs_mtime: u64,
    pub studio_bytes: Seq<u8>,
    pub studio_mtime: u64,
}

impl ParkedConflict {
    pub open spec fn view(&self) -> ParkedModel {
        ParkedModel {
            path: self.path@,
            fs_bytes: self.fs_bytes@,
            fs_mtime: self.fs_mtime,
            studio_bytes: self.studio_bytes@,
            studio_mtime: self.studio_mtime,
        }
    }

    /// The digests are those of the bytes, and the two versions differ.
    pub open spec fn wf(&self) -> bool {
        &&& self.fs_hash@ == sha256(self.fs_bytes@)
        &&& self.studio_hash@ == sha256(self.studio_bytes@)
        &&& self.fs_hash@ != self.studio_hash@
    }
}

/// What the engine knows: the agreed digest and time of each file, and the
/// parked conflicts.
#[verifier::ext_equal]
pub struct EngineModel {
    pub baselines: Map<Seq<char>, (Seq<u8>, u64)>,
    pub conflicts: Map<Seq<char>, ParkedModel>,
}

/// The nearest known path at or above the one with these components.
pub open spec fn nearest(
    known: Set<Seq<char>>,
    rooted: bool,
    components: Seq<Seq<char>>,
) -> Option<Seq<char>>
    decreases components.len(),
{
    if known.contains(path_text::spelling(rooted, components)) {
        Some(path_text::spelling(rooted, components))
    } else if components.len() == 0 {
        None
    } else {
        nearest(known, rooted, components.drop_last())
    }
}

/// The key under which a path is looked up: the nearest known path at or above
/// the canonical one, else the path as given.
pub open spec fn resolved_key(
    known: Set<Seq<char>>,
    canonical: Seq<char>,
    given: Seq<char>,
) -> Seq<char> {
    match nearest(known, path_text::path_value(canonical).0, path_text::path_value(canonical).1) {
        Some(key) => key,
        None => path_text::plain(given),
    }
}

/// The effect and answer of a change on disk.
pub open spec fn fs_change(
    s: EngineModel,
    canonical: Seq<char>,
    given: Seq<char>,
    bytes: Seq<u8>,
    mtime: u64,
) -> (EngineModel, FsDecision) {
    let parked_key = resolved_key(s.conflicts.dom(), canonical, given);
    let base_key = resolved_key(s.baselines.dom(), canonical, given);
    let agreed = s.baselines.insert(path_text::plain(canonical), (sha256(bytes), mtime));
    if s.conflicts.contains_key(parked_key) {
        let parked = s.conflicts[parked_key];
        if sha256(parked.studio_bytes) == sha256(bytes) {
            (
                EngineModel { baselines: agreed, conflicts: s.conflicts.remove(parked_key) },
                FsDecision::NoChange,
            )
        } else {
            (
                EngineModel {
                    baselines: s.baselines,
                    conflicts: s.conflicts.insert(
                        parked_key,
                        ParkedModel { fs_bytes: bytes, fs_mtime: mtime, ..parked },
                    ),
                },
                FsDecision::Conflict,
            )
        }
    } else if s.baselines.contains_key(base_key) && s.baselines[base_key].0 == sha256(bytes) {
        (EngineModel { baselines: agreed, conflicts: s.conflicts }, FsDecision::NoChange)
    } else {
        (s, FsDecision::Propagate)
    }
}

/// The effect and answer of a push from Studio at the time `now`.
pub open spec fn studio_push(
    s: EngineModel,
    canonical: Seq<char>,
    given: Seq<char>,
    bytes: Seq<u8>,
    current: Option<(Seq<u8>, u64)>,
    now: u64,
) -> (EngineModel, StudioDecision) {
    let base_key = resolved_key(s.baselines.dom(), canonical, given);
    match current {
        None => (s, StudioDecision::Apply),
        Some((fs, mtime)) => {
            if sha256(fs) == sha256(bytes) {
                (
                    EngineModel {
                        baselines: s.baselines.insert(path_text::plain(canonical), (sha256(bytes), mtime)),
                        conflicts: s.conflicts,
                    },
                    StudioDecision::NoChange,
                )
            } else if !s.baselines.contains_key(base_key) || s.baselines[base_key].0 == sha256(fs) {
                (s, StudioDecision::Apply)
            } else {
                (
                    EngineModel {
                        baselines: s.baselines,
                        conflicts: s.conflicts.insert(
                            path_text::plain(canonical),
                            ParkedModel {
                                path: if s.conflicts.contains_key(path_text::plain(canonical)) {
                                    s.conflicts[path_text::plain(canonical)].path
                                } else {
                                    canonical
                                },
                                fs_bytes: fs,
                                fs_mtime: mtime,
                                studio_bytes: bytes,
                                studio_mtime: now,
                            },
                        ),
                    },
                    StudioDecision::Conflict,
                )
            }
        },
    }
}

/// The effect and answer of choosing a side.
pub open spec fn resolution_of(
    s: EngineModel,
    canonical: Seq<char>,
    given: Seq<char>,
    resolution: Resolution,
) -> (EngineModel, Option<ResolvedModel>) {
    let key = resolved_key(s.conflicts.dom(), canonical, given);
    if s.conflicts.contains_key(key) {
        (
            EngineModel { baselines: s.baselines, conflicts: s.conflicts.remove(key) },
            Some(
                match resolution {
                    Resolution::KeepLocal => ResolvedModel::PushStudio(s.conflicts[key].fs_bytes),
                    Resolution::KeepStudio => ResolvedModel::WriteFs(s.conflicts[key].studio_bytes),
                },
            ),
        )
    } else {
        (s, None)
    }
}

/// The key of `map` under which a path is found, or the path as given.
pub fn resolve_key<V>(map: &TextMap<V>, canonical: &str, given: &str) -> (key: String)
    requires
        map.wf(),
    ensures
        key@ == resolved_key(map@.dom(), canonical@, given@),
{
    let (rooted, mut components) = path_components(canonical);
    let ghost start = nearest(map@.dom(), rooted, path_text::path_value(canonical@).1);
    proof {
        assert(path_text::pieces_of(components@) =~= path_text::path_value(canonical@).1);
    }
    loop
        invariant
            map.wf(),
            rooted == path_text::path_value(canonical@).0,
            start == nearest(map@.dom(), rooted, path_text::path_value(canonical@).1),
            start == nearest(map@.dom(), rooted, path_text::pieces_of(components@)),
        decreases components@.len(),
    {
        let key = spell(rooted, &components);
        if map.contains(key.as_str()) {
            return key;
        }
        let ghost whole = components@;
        match components.pop() {
            Some(_) => {
                proof {
                    assert(path_text::pieces_of(components@) =~= path_text::pieces_of(whole).drop_last());
                }
            },
            None => {
                return plain_path(given);
            },
        }
    }
}

fn copy_bytes(bytes: &[u8]) -> (out: Vec<u8>)
    ensures
        out@ == bytes@,
{
    let mut out: Vec<u8> = Vec::new();
    let mut i: usize = 0;
    while i < bytes.len()
        invariant
            i <= bytes@.len(),
            out@ == bytes@.take(i as int),
        decreases bytes@.len() - i,
    {
        proof {
            assert(bytes@.take(i + 1) =~= bytes@.take(i as int).push(bytes@[i as int]));
        }
        out.push(bytes[i]);
        i += 1;
    }
    proof {
        assert(bytes@.take(bytes@.len() as int) =~= bytes@);
    }
    out
}

#[derive(Debug)]
pub struct ConflictEngine {
    pub baselines: TextMap<Baseline>,
    pub conflicts: TextMap<ParkedConflict>,
}

impl ConflictEngine {
    pub open spec fn view(&self) -> EngineModel {
        EngineModel {
            baselines: Map::new(
                |k: Seq<char>| self.baselines@.contains_key(k),
                |k: Seq<char>|
                    (self.baselines@[k].last_plugin_push_hash@, self.baselines@[k].fs_mtime),
            ),
            conflicts: Map::new(
                |k: Seq<char>| self.conflicts@.contains_key(k),
                |k: Seq<char>| self.conflicts@[k]@,
            ),
        }
    }

    pub open spec fn wf(&self) -> bool {
        &&& self.baselines.wf()
        &&& self.conflicts.wf()
        &&& forall|k: Seq<char>| #[trigger]
            self.conflicts@.contains_key(k) ==> self.conflicts@[k].wf() && path_text::plain(
                self.conflicts@[k].path@,
            ) == k
    }

    pub fn new() -> (e: Self)
        ensures
            e.wf(),
            e@.baselines == Map::<Seq<char>, (Seq<u8>, u64)>::empty(),
            e@.conflicts == Map::<Seq<char>, ParkedModel>::empty(),
    {
        let e = ConflictEngine { baselines: TextMap::new(), conflicts: TextMap::new() };
        proof {
            assert(e@.baselines =~= Map::<Seq<char>, (Seq<u8>, u64)>::empty());
            assert(e@.conflicts =~= Map::<Seq<char>, ParkedModel>::empty());
        }
        e
    }

    /// Notes the content that both sides now agree on.
    pub fn record_sync(&mut self, canonical: &str, content_hash: Hash, fs_mtime: u64)
        requires
            old(self).wf(),
        ensures
            final(self).wf(),
            final(self)@ == (EngineModel {
                baselines: old(self)@.baselines.insert(
                    path_text::plain(canonical@),
                    (content_hash@, fs_mtime),
                ),
                conflicts: old(self)@.conflicts,
            }),
    {
        let ghost before = *self;
        let baseline = Baseline { fs_mtime, last_plugin_push_hash: content_hash };
        self.baselines.insert(plain_path(canonical), baseline);
        proof {
            assert(self@.baselines =~= before@.baselines.insert(
                path_text::plain(canonical@),
                (content_hash@, fs_mtime),
            ));
            assert(self@.conflicts =~= before@.conflicts);
        }
    }

    /// A file changed on disk.
    pub fn on_fs_change(
        &mut self,
        canonical: &str,
        given: &str,
        fs_bytes: &[u8],
        fs_mtime: u64,
    ) -> (r: FsDecision)
        requires
            old(self).wf(),
        ensures
            final(self).wf(),
            (final(self)@, r) == fs_change(old(self)@, canonical@, given@, fs_bytes@, fs_mtime),
    {
        let fs_hash = hash(fs_bytes);
        let ghost before = *self;
        proof {
            assert(self@.conflicts.dom() =~= self.conflicts@.dom());
            assert(self@.baselines.dom() =~= self.baselines@.dom());
        }
        let key = resolve_key(&self.conflicts, canonical, given);
        if let Some(parked) = self.conflicts.get(key.as_str()) {
            if same_hash(&parked.studio_hash, &fs_hash) {
                self.conflicts.remove(key.as_str());
                let ghost middle = *self;
                proof {
                    assert(self@.conflicts =~= before@.conflicts.remove(key@));
                    assert(self@.baselines =~= before@.baselines);
                }
                self.record_sync(canonical, fs_hash, fs_mtime);
                return FsDecision::NoChange;
            }
            let fresh = ParkedConflict {
                path: owned(parked.path.as_str()),
                fs_bytes: copy_bytes(fs_bytes),
                fs_hash,
                fs_mtime,
                studio_bytes: copy_bytes(&parked.studio_bytes),
                studio_hash: parked.studio_hash,
                studio_mtime: parked.studio_mtime,
            };
            let ghost want = fresh@;
            let ghost at = key@;
            self.conflicts.insert(key, fresh);
            proof {
                assert(self@.conflicts =~= before@.conflicts.insert(at, want));
                assert(self@.baselines =~= before@.baselines);
            }
            return FsDecision::Conflict;
        }
        let base_key = resolve_key(&self.baselines, canonical, given);
        let agreed = match self.baselines.get(base_key.as_str()) {
            Some(b) => same_hash(&b.last_plugin_push_hash, &fs_hash),
            None => false,
        };
        if agreed {
            self.record_sync(canonical, fs_hash, fs_mtime);
            FsDecision::NoChange
        } else {
            FsDecision::Propagate
        }
    }

    /// Studio pushed content at the time `now`; `current_fs` is what is on disk.
    pub fn on_studio_push(
        &mut self,
        canonical: &str,
        given: &str,
        studio_bytes: &[u8],
        current_fs: Option<(&[u8], u64)>,
        now: u64,
    ) -> (r: StudioDecision)
        requires
            old(self).wf(),
        ensures
            final(self).wf(),
            (final(self)@, r) == studio_push(
                old(self)@,
                canonical@,
                given@,
                studio_bytes@,
                match current_fs {
                    Some((bytes, mtime)) => Some((bytes@, mtime)),
                    None => None,
                },
                now,
            ),
    {
        let studio_hash = hash(studio_bytes);
        let ghost before = *self;
        proof {
            assert(self@.conflicts.dom() =~= self.conflicts@.dom());
            assert(self@.baselines.dom() =~= self.baselines@.dom());
        }
        let (fs_bytes, fs_mtime) = match current_fs {
            Some((bytes, mtime)) => (bytes, mtime),
            None => return StudioDecision::Apply,
        };
        let fs_hash = hash(fs_bytes);
        if same_hash(&fs_hash, &studio_hash) {
            self.record_sync(canonical, studio_hash, fs_mtime);
            return StudioDecision::NoChange;
        }
        let base_key = resolve_key(&self.baselines, canonical, given);
        let clean = match self.baselines.get(base_key.as_str()) {
            Some(b) => same_hash(&b.last_plugin_push_hash, &fs_hash),
            None => true,
        };
        if clean {
            return StudioDecision::Apply;
        }
        let key = plain_path(canonical);
        let path = match self.conflicts.get(key.as_str()) {
            Some(parked) => owned(parked.path.as_str()),
            None => owned(canonical),
        };
        let parked = ParkedConflict {
            path,
            fs_bytes: copy_bytes(fs_bytes),
            fs_hash,
            fs_mtime,
            studio_bytes: copy_bytes(studio_bytes),
            studio_hash,
            studio_mtime: now,
        };
        let ghost want = parked@;
        self.conflicts.insert(key, parked);
        proof {
            assert(self@.conflicts =~= before@.conflicts.insert(path_text::plain(canonical@), want));
            assert(self@.baselines =~= before@.baselines);
        }
        StudioDecision::Conflict
    }

    /// The parked conflicts, in the order of their paths.
    pub fn list(&self) -> (out: Vec<Conflict>)
        requires
            self.wf(),
        ensures
            out@.len() == self.conflicts.keys().len(),
            forall|i: int|
                0 <= i < out@.len() ==> {
                    let path = self.conflicts.keys()[i];
                    let c = #[trigger] out@[i];
                    &&& self@.conflicts.contains_key(path)
                    &&& c.path@ == self@.conflicts[path].path
                    &&& path_text::plain(c.path@) == path
                    &&& c.fs_hash@ == hex::hex_text(sha256(self@.conflicts[path].fs_bytes))
                    &&& c.fs_mtime == self@.conflicts[path].fs_mtime
                    &&& c.studio_hash@ == hex::hex_text(sha256(self@.conflicts[path].studio_bytes))
                    &&& c.studio_mtime == self@.conflicts[path].studio_mtime
                },
            forall|path: Seq<char>|
                self@.conflicts.contains_key(path) ==> exists|i: int|
                    0 <= i < out@.len() && path_text::plain((#[trigger] out@[i]).path@) == path,
    {
        let mut out: Vec<Conflict> = Vec::new();
        let mut i: usize = 0;
        while i < self.conflicts.len()
            invariant
                self.wf(),
                i <= self.conflicts.entries@.len(),
                out@.len() == i,
                forall|j: int|
                    0 <= j < i ==> {
                        let path = self.conflicts.keys()[j];
                        let c = #[trigger] out@[j];
                        &&& self@.conflicts.contains_key(path)
                        &&& c.path@ == self@.conflicts[path].path
                        &&& path_text::plain(c.path@) == path
                        &&& c.fs_hash@ == hex::hex_text(sha256(self@.conflicts[path].fs_bytes))
                        &&& c.fs_mtime == self@.conflicts[path].fs_mtime
                        &&& c.studio_hash@ == hex::hex_text(
                            sha256(self@.conflicts[path].studio_bytes),
                        )
                        &&& c.studio_mtime == self@.conflicts[path].studio_mtime
                    },
            decreases self.conflicts.entries@.len() - i,
        {
            let entry = &self.conflicts.entries[i];
            proof {
                self.conflicts.lemma_at(i as int);
            }
            out.push(
                Conflict {
                    path: owned(entry.1.path.as_str()),
                    fs_hash: hex::hex(&entry.1.fs_hash),
                    fs_mtime: entry.1.fs_mtime,
                    studio_hash: hex::hex(&entry.1.studio_hash),
                    studio_mtime: entry.1.studio_mtime,
                },
            );
            i += 1;
        }
        proof {
            assert forall|path: Seq<char>| self@.conflicts.contains_key(path) implies exists|i: int|
                0 <= i < out@.len() && path_text::plain((#[trigger] out@[i]).path@) == path by {
                let i = choose|i: int|
                    0 <= i < self.conflicts.keys().len() && self.conflicts.keys()[i] == path;
                assert(path_text::plain(out@[i].path@) == path);
            }
        }
        out
    }

    pub fn has_conflict(&self, canonical: &str, given: &str) -> (r: bool)
        requires
            self.wf(),
        ensures
            r == self@.conflicts.contains_key(
                resolved_key(self@.conflicts.dom(), canonical@, given@),
            ),
    {
        proof {
            assert(self@.conflicts.dom() =~= self.conflicts@.dom());
        }
        let key = resolve_key(&self.conflicts, canonical, given);
        self.conflicts.contains(key.as_str())
    }

    /// Takes a parked conflict out and says what to do for the chosen side.
    pub fn resolve(&mut self, canonical: &str, given: &str, resolution: Resolution) -> (r: Option<
        Resolved,
    >)
        requires
            old(self).wf(),
        ensures
            final(self).wf(),
            final(self)@ == resolution_of(old(self)@, canonical@, given@, resolution).0,
            match r {
                Some(action) => resolution_of(old(self)@, canonical@, given@, resolution).1 == Some(
                    action@,
                ),
                None => resolution_of(old(self)@, canonical@, given@, resolution).1 is None,
            },
    {
        let ghost before = *self;
        proof {
            assert(self@.conflicts.dom() =~= self.conflicts@.dom());
        }
        let key = resolve_key(&self.conflicts, canonical, given);
        let action = match self.conflicts.get(key.as_str()) {
            None => return None,
            Some(parked) => match resolution {
                Resolution::KeepLocal => Resolved::PushStudio(copy_bytes(&parked.fs_bytes)),
                Resolution::KeepStudio => Resolved::WriteFs(copy_bytes(&parked.studio_bytes)),
            },
        };
        self.conflicts.remove(key.as_str());
        proof {
            assert(self@.conflicts =~= before@.conflicts.remove(key@));
            assert(self@.baselines =~= before@.baselines);
        }
        Some(action)
    }
}

/// A path that is itself known is its own key.
pub proof fn law_known_path_is_its_key(
    known: Set<Seq<char>>,
    canonical: Seq<char>,
    given: Seq<char>,
)
    requires
        known.contains(path_text::plain(canonical)),
    ensures
        resolved_key(known, canonical, given) == path_text::plain(canonical),
{
}

/// After both sides agreed on `bytes`, seeing the same bytes on disk is no
/// change, unless a push is parked for the path.
pub proof fn law_agreed_content_is_no_change(
    s: EngineModel,
    canonical: Seq<char>,
    given: Seq<char>,
    bytes: Seq<u8>,
    agreed_at: u64,
    seen_at: u64,
)
    requires
        !s.conflicts.contains_key(resolved_key(s.conflicts.dom(), canonical, given)),
    ensures
        ({
            let agreed = EngineModel {
                baselines: s.baselines.insert(path_text::plain(canonical), (sha256(bytes), agreed_at)),
                conflicts: s.conflicts,
            };
            fs_change(agreed, canonical, given, bytes, seen_at).1 == FsDecision::NoChange
        }),
{
    let agreed = s.baselines.insert(path_text::plain(canonical), (sha256(bytes), agreed_at));
    assert(agreed.dom().contains(path_text::plain(canonical)));
    law_known_path_is_its_key(agreed.dom(), canonical, given);
}

/// A parked push can be had back: keeping Studio's side writes the pushed
/// bytes, keeping the local side pushes the bytes that were on disk, and either
/// way the conflict is gone.
pub proof fn law_parked_versions_are_kept(
    s: EngineModel,
    canonical: Seq<char>,
    given: Seq<char>,
    bytes: Seq<u8>,
    fs: Seq<u8>,
    mtime: u64,
    now: u64,
)
    requires
        studio_push(s, canonical, given, bytes, Some((fs, mtime)), now).1
            == StudioDecision::Conflict,
    ensures
        ({
            let parked = studio_push(s, canonical, given, bytes, Some((fs, mtime)), now).0;
            let studio = resolution_of(parked, canonical, given, Resolution::KeepStudio);
            let local = resolution_of(parked, canonical, given, Resolution::KeepLocal);
            &&& studio.1 == Some(ResolvedModel::WriteFs(bytes))
            &&& local.1 == Some(ResolvedModel::PushStudio(fs))
            &&& !studio.0.conflicts.contains_key(path_text::plain(canonical))
            &&& !local.0.conflicts.contains_key(path_text::plain(canonical))
        }),
{
    let parked = studio_push(s, canonical, given, bytes, Some((fs, mtime)), now).0;
    assert(parked.conflicts.dom().contains(path_text::plain(canonical)));
    law_known_path_is_its_key(parked.conflicts.dom(), canonical, given);
}

/// When the file on disk catches up with a parked push, the conflict is cleared
/// and the content is agreed.
pub proof fn law_catching_up_clears_conflict(
    s: EngineModel,
    canonical: Seq<char>,
    given: Seq<char>,
    bytes: Seq<u8>,
    mtime: u64,
)
    requires
        s.conflicts.contains_key(path_text::plain(canonical)),
        s.conflicts[path_text::plain(canonical)].studio_bytes == bytes,
    ensures
        ({
            let (after, decision) = fs_change(s, canonical, given, bytes, mtime);
            &&& decision == FsDecision::NoChange
            &&& !after.conflicts.contains_key(path_text::plain(canonical))
            &&& after.baselines[path_text::plain(canonical)] == (sha256(bytes), mtime)
        }),
{
    law_known_path_is_its_key(s.conflicts.dom(), canonical, given);
}

/// However its path is spelled, a file is the same file: equal paths find the
/// same entry.
pub proof fn law_equal_paths_share_an_entry(
    known: Set<Seq<char>>,
    canonical: Seq<char>,
    given: Seq<char>,
    canonical_again: Seq<char>,
    given_again: Seq<char>,
)
    requires
        path_text::path_value(canonical) == path_text::path_value(canonical_again),
        path_text::path_value(given) == path_text::path_value(given_again),
    ensures
        path_text::plain(canonical) == path_text::plain(canonical_again),
        resolved_key(known, canonical, given) == resolved_key(
            known,
            canonical_again,
            given_again,
        ),
{
}

/// The first push for a file with no agreed content is applied.
pub proof fn law_first_push_applies(
    s: EngineModel,
    canonical: Seq<char>,
    given: Seq<char>,
    bytes: Seq<u8>,
    fs: Seq<u8>,
    mtime: u64,
    now: u64,
)
    requires
        !s.baselines.contains_key(resolved_key(s.baselines.dom(), canonical, given)),
        sha256(fs) != sha256(bytes),
    ensures
        studio_push(s, canonical, given, bytes, Some((fs, mtime)), now) == (
            s,
            StudioDecision::Apply,
        ),
{
}

/// A file that is saved again while a push for it is parked, with other content
/// than the push, stays in conflict, and the parked version of the disk is the
/// new one: keeping the local side pushes what is on disk now, and keeping
/// Studio's side still writes what was pushed.
pub proof fn law_saving_again_refreshes_the_parked_version(
    s: EngineModel,
    canonical: Seq<char>,
    given: Seq<char>,
    bytes: Seq<u8>,
    mtime: u64,
)
    requires
        s.conflicts.contains_key(resolved_key(s.conflicts.dom(), canonical, given)),
        sha256(s.conflicts[resolved_key(s.conflicts.dom(), canonical, given)].studio_bytes)
            != sha256(bytes),
    ensures
        ({
            let key = resolved_key(s.conflicts.dom(), canonical, given);
            let (after, decision) = fs_change(s, canonical, given, bytes, mtime);
            let local = resolution_of(after, canonical, given, Resolution::KeepLocal);
            let studio = resolution_of(after, canonical, given, Resolution::KeepStudio);
            &&& decision == FsDecision::Conflict
            &&& after.baselines == s.baselines
            &&& after.conflicts.contains_key(key)
            &&& after.conflicts[key].fs_bytes == bytes && after.conflicts[key].fs_mtime == mtime
            &&& after.conflicts[key].studio_bytes == s.conflicts[key].studio_bytes
            &&& after.conflicts[key].studio_mtime == s.conflicts[key].studio_mtime
            &&& after.conflicts[key].path == s.conflicts[key].path
            &&& local.1 == Some(ResolvedModel::PushStudio(bytes))
            &&& studio.1 == Some(ResolvedModel::WriteFs(s.conflicts[key].studio_bytes))
        }),
{
    let key = resolved_key(s.conflicts.dom(), canonical, given);
    let after = fs_change(s, canonical, given, bytes, mtime).0;
    assert(after.conflicts.dom() =~= s.conflicts.dom());
}

/// Without a parked push, a change on disk is no change exactly where the content
/// is the agreed one; any other content, and the content of a file on which
/// nothing was agreed, is to be sent, and nothing is noted before it was.
pub proof fn law_changed_file_is_sent(
    s: EngineModel,
    canonical: Seq<char>,
    given: Seq<char>,
    bytes: Seq<u8>,
    mtime: u64,
)
    requires
        !s.conflicts.contains_key(resolved_key(s.conflicts.dom(), canonical, given)),
    ensures
        ({
            let key = resolved_key(s.baselines.dom(), canonical, given);
            let agreed = s.baselines.contains_key(key) && s.baselines[key].0 == sha256(bytes);
            let (after, decision) = fs_change(s, canonical, given, bytes, mtime);
            &&& agreed ==> decision == FsDecision::NoChange && after.baselines
                == s.baselines.insert(path_text::plain(canonical), (sha256(bytes), mtime))
            &&& !agreed ==> decision == FsDecision::Propagate && after.baselines == s.baselines
            &&& after.conflicts == s.conflicts
        }),
{
}

/// A push is applied where there is no file, or the file still has the agreed
/// content, or nothing was agreed; it is no change where it is what the file
/// holds, which is agreed from then on; and it is parked with both versions where
/// the file has neither its content nor the agreed one. Nothing is lost on the
/// way: only the last of these writes anything down.
pub proof fn law_push_is_applied_or_parked(
    s: EngineModel,
    canonical: Seq<char>,
    given: Seq<char>,
    bytes: Seq<u8>,
    fs: Seq<u8>,
    mtime: u64,
    now: u64,
)
    ensures
        studio_push(s, canonical, given, bytes, None, now) == (s, StudioDecision::Apply),
        ({
            let key = resolved_key(s.baselines.dom(), canonical, given);
            let at = path_text::plain(canonical);
            let (after, decision) = studio_push(s, canonical, given, bytes, Some((fs, mtime)), now);
            let same = sha256(fs) == sha256(bytes);
            let drifted = s.baselines.contains_key(key) && s.baselines[key].0 != sha256(fs);
            &&& decision == StudioDecision::NoChange <==> same
            &&& decision == StudioDecision::Conflict <==> !same && drifted
            &&& decision == StudioDecision::Apply <==> !same && !drifted
            &&& same ==> after.conflicts == s.conflicts && after.baselines == s.baselines.insert(
                at,
                (sha256(bytes), mtime),
            )
            &&& !same ==> after.baselines == s.baselines
            &&& !same && !drifted ==> after.conflicts == s.conflicts
            &&& !same && drifted ==> {
                &&& after.conflicts.dom() == s.conflicts.dom().insert(at)
                &&& after.conflicts[at].fs_bytes == fs && after.conflicts[at].fs_mtime == mtime
                &&& after.conflicts[at].studio_bytes == bytes
                &&& after.conflicts[at].studio_mtime == now
            }
        }),
{
    let at = path_text::plain(canonical);
    let after = studio_push(s, canonical, given, bytes, Some((fs, mtime)), now).0;
    if studio_push(s, canonical, given, bytes, Some((fs, mtime)), now).1
        == StudioDecision::Conflict {
        assert(after.conflicts.dom() =~= s.conflicts.dom().insert(at));
    }
}

/// What happens to one path leaves the others alone: an entry that is not the
/// one the path is found under, nor the one of the path itself, is as it was.
pub proof fn law_other_paths_are_left_alone(
    s: EngineModel,
    canonical: Seq<char>,
    given: Seq<char>,
    bytes: Seq<u8>,
    current: Option<(Seq<u8>, u64)>,
    time: u64,
    resolution: Resolution,
    other: Seq<char>,
)
    requires
        other != path_text::plain(canonical),
        other != resolved_key(s.conflicts.dom(), canonical, given),
    ensures
        ({
            let a = fs_change(s, canonical, given, bytes, time).0;
            let b = studio_push(s, canonical, given, bytes, current, time).0;
            let c = resolution_of(s, canonical, given, resolution).0;
            &&& a.baselines.contains_key(other) == s.baselines.contains_key(other)
            &&& b.baselines.contains_key(other) == s.baselines.contains_key(other)
            &&& c.baselines == s.baselines
            &&& s.baselines.contains_key(other) ==> a.baselines[other] == s.baselines[other]
                && b.baselines[other] == s.baselines[other]
            &&& a.conflicts.contains_key(other) == s.conflicts.contains_key(other)
            &&& b.conflicts.contains_key(other) == s.conflicts.contains_key(other)
            &&& c.conflicts.contains_key(other) == s.conflicts.contains_key(other)
            &&& s.conflicts.contains_key(other) ==> a.conflicts[other] == s.conflicts[other]
                && b.conflicts[other] == s.conflicts[other] && c.conflicts[other]
                == s.conflicts[other]
        }),
{
}

/// A resolution takes the parked conflict out, and gives nothing where none is
/// parked.
pub proof fn law_resolution_takes_the_conflict_out(
    s: EngineModel,
    canonical: Seq<char>,
    given: Seq<char>,
    resolution: Resolution,
)
    ensures
        ({
            let key = resolved_key(s.conflicts.dom(), canonical, given);
            let (after, action) = resolution_of(s, canonical, given, resolution);
            &&& action is Some == s.conflicts.contains_key(key)
            &&& after.conflicts == s.conflicts.remove(key)
            &&& after.baselines == s.baselines
            &&& action is Some && resolution == Resolution::KeepLocal ==> action == Some(
                ResolvedModel::PushStudio(s.conflicts[key].fs_bytes),
            )
            &&& action is Some && resolution == Resolution::KeepStudio ==> action == Some(
                ResolvedModel::WriteFs(s.conflicts[key].studio_bytes),
            )
        }),
{
    let key = resolved_key(s.conflicts.dom(), canonical, given);
    if !s.conflicts.contains_key(key) {
        assert(s.conflicts.remove(key) =~= s.conflicts);
    }
}

/// A path is found under itself, else under the nearest directory above it that
/// is known, else under the path as it was given.
pub proof fn law_path_is_found_under_the_nearest_known(
    known: Set<Seq<char>>,
    canonical: Seq<char>,
    given: Seq<char>,
)
    ensures
        ({
            let (rooted, components) = path_text::path_value(canonical);
            let key = resolved_key(known, canonical, given);
            let up = |n: int| path_text::spelling(rooted, components.take(n));
            ||| exists|n: int|
                0 <= n <= components.len() && key == #[trigger] up(n) && known.contains(key)
                    && forall|m: int|
                    n < m <= components.len() ==> !known.contains(#[trigger] up(m))
            ||| key == path_text::plain(given) && forall|m: int|
                0 <= m <= components.len() ==> !known.contains(#[trigger] up(m))
        }),
{
    let (rooted, components) = path_text::path_value(canonical);
    let up = |n: int| path_text::spelling(rooted, components.take(n));
    lemma_nearest(known, rooted, components, components.len() as int);
    assert(components.take(components.len() as int) =~= components);
    match nearest(known, rooted, components) {
        Some(key) => {
            let n = choose|n: int|
                0 <= n <= components.len() && key == #[trigger] path_text::spelling(
                    rooted,
                    components.take(n),
                ) && known.contains(key) && forall|m: int|
                    n < m <= components.len() ==> !known.contains(
                        #[trigger] path_text::spelling(rooted, components.take(m)),
                    );
            assert(key == up(n));
        },
        None => {},
    }
}

proof fn lemma_nearest(
    known: Set<Seq<char>>,
    rooted: bool,
    components: Seq<Seq<char>>,
    k: int,
)
    requires
        0 <= k <= components.len(),
    ensures
        match nearest(known, rooted, components.take(k)) {
            Some(key) => exists|n: int|
                0 <= n <= k && key == #[trigger] path_text::spelling(rooted, components.take(n))
                    && known.contains(key) && forall|m: int|
                    n < m <= k ==> !known.contains(
                        #[trigger] path_text::spelling(rooted, components.take(m)),
                    ),
            None => forall|m: int|
                0 <= m <= k ==> !known.contains(
                    #[trigger] path_text::spelling(rooted, components.take(m)),
                ),
        },
    decreases k,
{
    let here = components.take(k);
    if known.contains(path_text::spelling(rooted, here)) {
        assert(path_text::spelling(rooted, components.take(k)) == path_text::spelling(
            rooted,
            here,
        ));
    } else if k > 0 {
        assert(here.drop_last() =~= components.take(k - 1));
        lemma_nearest(known, rooted, components, k - 1);
        match nearest(known, rooted, components.take(k - 1)) {
            Some(key) => {
                let n = choose|n: int|
                    0 <= n <= k - 1 && key == #[trigger] path_text::spelling(
                        rooted,
                        components.take(n),
                    ) && known.contains(key) && forall|m: int|
                        n < m <= k - 1 ==> !known.contains(
                            #[trigger] path_text::spelling(rooted, components.take(m)),
                        );
                assert(key == path_text::spelling(rooted, components.take(n)));
                assert forall|m: int| n < m <= k implies !known.contains(
                    #[trigger] path_text::spelling(rooted, components.take(m)),
                ) by {
                    if m == k {
                        assert(components.take(m) =~= here);
                    }
                }
            },
            None => {
                assert forall|m: int| 0 <= m <= k implies !known.contains(
                    #[trigger] path_text::spelling(rooted, components.take(m)),
                ) by {
                    if m == k {
                        assert(components.take(m) =~= here);
                    }
                }
            },
        }
    } else {
        assert forall|m: int| 0 <= m <= k implies !known.contains(
            #[trigger] path_text::spelling(rooted, components.take(m)),
        ) by {
            assert(components.take(m) =~= here);
        }
    }
}

} // verus!
