//! What may be read in a project directory.
//!
//! The sync boundary never follows a link. The caller inspects objects without
//! following links and hands in what it saw; the functions here decide.
use vstd::prelude::*;
use vstd::utf8::*;

use crate::fs_map;
use crate::fs_map::{classify_script_file, decode_name, parse_disambiguated, parse_plain_init_file};
use crate::json;
use crate::json::json_at;
use crate::ranking;
use crate::ranking::{rank, Row};
use crate::sync_scope;
use crate::sync_scope::{same_as_service_ignoring_case, synced_service};
use crate::text;
use crate::text::{
    chars_of, ends_with, lower_text, owned, same, string_of_range, text_from_utf8,
};
use crate::text_map::TextMap;

verus! {

pub const WINDOWS_FILE_ATTRIBUTE_REPARSE_POINT: u32 = 0x400;

pub const MAX_SERVICE_TREE_DEPTH: usize = 256;

pub const MAX_SERVICE_TREE_NODES: usize = 1_000_000;

/// The largest source file that is read.
pub const MAX_SYNCED_SCRIPT_BYTES: u64 = 33_554_432;

pub const MAX_ROJO_PROJECT_BYTES: u64 = 4_194_304;

pub fn attributes_have_reparse_point(attributes: u32) -> (r: bool)
    ensures
        r == (attributes & WINDOWS_FILE_ATTRIBUTE_REPARSE_POINT != 0),
{
    attributes & WINDOWS_FILE_ATTRIBUTE_REPARSE_POINT != 0
}

/// Which physical object a path names.
#[derive(Debug, Clone, Copy, PartialEq, Eq, Structural)]
pub struct FileIdentity {
    pub device: Option<u64>,
    pub file: Option<u64>,
}

/// A physical object at one moment.
#[derive(Debug, Clone, Copy, PartialEq, Eq, Structural)]
pub struct FileGeneration {
    pub len: u64,
    pub modified_ns: Option<u128>,
    pub identity: FileIdentity,
}

fn same_number(a: Option<u64>, b: Option<u64>) -> (r: bool)
    ensures
        r == (a == b),
{
    match (a, b) {
        (Some(x), Some(y)) => x == y,
        (None, None) => true,
        _ => false,
    }
}

pub fn same_identity(a: &FileIdentity, b: &FileIdentity) -> (r: bool)
    ensures
        r == (*a == *b),
{
    same_number(a.device, b.device) && same_number(a.file, b.file)
}

pub fn same_generation(a: &FileGeneration, b: &FileGeneration) -> (r: bool)
    ensures
        r == (*a == *b),
{
    let times = match (a.modified_ns, b.modified_ns) {
        (Some(x), Some(y)) => x == y,
        (None, None) => true,
        _ => false,
    };
    a.len == b.len && times && same_identity(&a.identity, &b.identity)
}

/// What is at a path, seen without following a link.
#[derive(Debug, Clone, Copy, PartialEq, Eq, Structural)]
pub enum ObjectKind {
    SymbolicLink,
    ReparsePoint,
    File,
    Directory,
    /// A socket, a pipe or a device.
    Other,
}

#[derive(Debug, Clone, Copy, PartialEq, Eq, Structural)]
pub struct Observed {
    pub kind: ObjectKind,
    pub generation: FileGeneration,
}

/// Why an object is not used.
#[derive(Debug, Clone, Copy, PartialEq, Eq, Structural)]
pub enum ObjectProblem {
    Missing,
    SymbolicLink,
    ReparsePoint,
    NotAFile,
    NotADirectory,
}

impl ObjectKind {
    pub open spec fn link_problem(self) -> Option<ObjectProblem> {
        match self {
            ObjectKind::SymbolicLink => Some(ObjectProblem::SymbolicLink),
            ObjectKind::ReparsePoint => Some(ObjectProblem::ReparsePoint),
            _ => None,
        }
    }

    pub open spec fn is_link(self) -> bool {
        self.link_problem() is Some
    }

    pub fn linked(self) -> (r: bool)
        ensures
            r == self.is_link(),
    {
        matches!(self, ObjectKind::SymbolicLink | ObjectKind::ReparsePoint)
    }
}

/// What an object is, unless it is a link. `None` means precisely "not found".
pub fn metadata_no_follow(seen: Option<Observed>) -> (r: Result<Option<Observed>, ObjectProblem>)
    ensures
        match seen {
            None => r == Ok::<Option<Observed>, ObjectProblem>(None),
            Some(o) => match o.kind.link_problem() {
                Some(p) => r == Err::<Option<Observed>, ObjectProblem>(p),
                None => r == Ok::<Option<Observed>, ObjectProblem>(seen),
            },
        },
{
    match seen {
        None => Ok(None),
        Some(o) => match o.kind {
            ObjectKind::SymbolicLink => Err(ObjectProblem::SymbolicLink),
            ObjectKind::ReparsePoint => Err(ObjectProblem::ReparsePoint),
            _ => Ok(Some(o)),
        },
    }
}

/// What an object is, which must be there and no link.
pub fn require_metadata_no_follow(seen: Option<Observed>) -> (r: Result<Observed, ObjectProblem>)
    ensures
        match seen {
            None => r == Err::<Observed, ObjectProblem>(ObjectProblem::Missing),
            Some(o) => match o.kind.link_problem() {
                Some(p) => r == Err::<Observed, ObjectProblem>(p),
                None => r == Ok::<Observed, ObjectProblem>(o),
            },
        },
{
    match metadata_no_follow(seen) {
        Err(p) => Err(p),
        Ok(None) => Err(ObjectProblem::Missing),
        Ok(Some(o)) => Ok(o),
    }
}

/// What an object must be to have a generation of the wanted kind.
pub open spec fn generation_problem(seen: Option<Observed>, want: ObjectKind, otherwise: ObjectProblem) -> Option<
    ObjectProblem,
> {
    match seen {
        None => Some(ObjectProblem::Missing),
        Some(o) => match o.kind.link_problem() {
            Some(p) => Some(p),
            None => if o.kind != want {
                Some(otherwise)
            } else {
                None
            },
        },
    }
}

fn generation_of(seen: Option<Observed>, want: ObjectKind, otherwise: ObjectProblem) -> (r: Result<
    FileGeneration,
    ObjectProblem,
>)
    ensures
        match r {
            Err(p) => generation_problem(seen, want, otherwise) == Some(p),
            Ok(g) => generation_problem(seen, want, otherwise) is None && seen is Some && g
                == seen->0.generation,
        },
{
    match metadata_no_follow(seen) {
        Err(p) => Err(p),
        Ok(None) => Err(ObjectProblem::Missing),
        Ok(Some(o)) => if o.kind == want {
            Ok(o.generation)
        } else {
            Err(otherwise)
        },
    }
}

/// The generation of a regular file.
pub fn file_generation_no_follow(seen: Option<Observed>) -> (r: Result<
    FileGeneration,
    ObjectProblem,
>)
    ensures
        match r {
            Err(p) => generation_problem(seen, ObjectKind::File, ObjectProblem::NotAFile) == Some(
                p,
            ),
            Ok(g) => generation_problem(seen, ObjectKind::File, ObjectProblem::NotAFile) is None
                && seen is Some && g == seen->0.generation,
        },
{
    generation_of(seen, ObjectKind::File, ObjectProblem::NotAFile)
}

/// The generation of a directory.
pub fn directory_generation_no_follow(seen: Option<Observed>) -> (r: Result<
    FileGeneration,
    ObjectProblem,
>)
    ensures
        match r {
            Err(p) => generation_problem(seen, ObjectKind::Directory, ObjectProblem::NotADirectory)
                == Some(p),
            Ok(g) => generation_problem(seen, ObjectKind::Directory, ObjectProblem::NotADirectory)
                is None && seen is Some && g == seen->0.generation,
        },
{
    generation_of(seen, ObjectKind::Directory, ObjectProblem::NotADirectory)
}

/// Whether two paths name one physical object. A link on the left is reported
/// before the right is looked at; where either is missing, they do not.
pub fn same_physical_object_no_follow(left: Option<Observed>, right: Option<Observed>) -> (r: Result<
    bool,
    ObjectProblem,
>)
    ensures
        r == (match (left, right) {
            (None, _) => Ok::<bool, ObjectProblem>(false),
            (Some(l), _) if l.kind.is_link() => Err(l.kind.link_problem()->0),
            (Some(_), None) => Ok(false),
            (Some(l), Some(x)) => if x.kind.is_link() {
                Err(x.kind.link_problem()->0)
            } else {
                Ok(l.generation.identity == x.generation.identity)
            },
        }),
{
    let l = match metadata_no_follow(left) {
        Err(p) => return Err(p),
        Ok(None) => return Ok(false),
        Ok(Some(l)) => l,
    };
    match metadata_no_follow(right) {
        Err(p) => Err(p),
        Ok(None) => Ok(false),
        Ok(Some(x)) => Ok(same_identity(&l.generation.identity, &x.generation.identity)),
    }
}

/// Why a file that was read is not used.
#[derive(Debug, Clone, Copy, PartialEq, Eq, Structural)]
pub enum ReadProblem {
    Changed,
    /// The bytes are not UTF-8.
    NotText,
}

/// The text of a file that was read whole.
pub fn read_to_string_no_follow(bytes: Vec<u8>) -> (r: Result<String, ReadProblem>)
    ensures
        match r {
            Ok(text) => valid_utf8(bytes@) && text@ == decode_utf8(bytes@),
            Err(p) => p == ReadProblem::NotText && !valid_utf8(bytes@),
        },
{
    match text_from_utf8(bytes) {
        Some(text) => Ok(text),
        None => Err(ReadProblem::NotText),
    }
}

/// What a bounded read gives. The file was seen at `before`, up to the bound
/// was read, one more byte was asked for, and the file was seen again.
/// `None` means that it is larger than the bound.
pub fn read_file_no_follow_bounded(
    before: FileGeneration,
    bytes: Vec<u8>,
    overflowed: bool,
    after: FileGeneration,
    max_bytes: u64,
) -> (r: Result<Option<Vec<u8>>, ReadProblem>)
    ensures
        before.len > max_bytes || overflowed ==> r == Ok::<Option<Vec<u8>>, ReadProblem>(None),
        before.len <= max_bytes && !overflowed && before != after ==> r == Err::<
            Option<Vec<u8>>,
            ReadProblem,
        >(ReadProblem::Changed),
        before.len <= max_bytes && !overflowed && before == after ==> r == Ok::<
            Option<Vec<u8>>,
            ReadProblem,
        >(Some(bytes)),
{
    if before.len > max_bytes || overflowed {
        return Ok(None);
    }
    if !same_generation(&before, &after) {
        return Err(ReadProblem::Changed);
    }
    Ok(Some(bytes))
}

#[derive(Debug, Clone, Copy, PartialEq, Eq, Structural)]
pub enum SafeEntryKind {
    File,
    Directory,
}

/// How strictly a directory is read.
#[derive(Debug, Clone, Copy, PartialEq, Eq, Structural)]
pub enum DirectoryPolicy {
    /// Only the entries that name a service matter.
    ProjectRoot,
    /// Every entry matters.
    SyncedProjection,
    /// A lookup of one entry.
    RawLookup,
}

/// One entry as the directory listed it.
#[derive(Debug)]
pub struct ScannedEntry {
    /// `None` where the name is not valid UTF-8.
    pub fragment: Option<String>,
    /// `None` where the object was gone when it was looked at.
    pub seen: Option<Observed>,
}

#[derive(Debug)]
pub struct PortableDirectoryEntry {
    pub fragment: String,
    pub kind: SafeEntryKind,
    pub generation: FileGeneration,
}

#[derive(Debug)]
pub struct UnsafeLinkedEntry {
    pub fragment: String,
}

#[verifier::ext_equal]
pub struct EntryModel {
    pub fragment: Seq<char>,
    pub kind: SafeEntryKind,
    pub generation: FileGeneration,
}

impl PortableDirectoryEntry {
    pub open spec fn view(&self) -> EntryModel {
        EntryModel { fragment: self.fragment@, kind: self.kind, generation: self.generation }
    }
}

pub open spec fn entry_models(v: Seq<PortableDirectoryEntry>) -> Seq<EntryModel> {
    Seq::new(v.len(), |i: int| v[i]@)
}

pub open spec fn link_models(v: Seq<UnsafeLinkedEntry>) -> Seq<Seq<char>> {
    Seq::new(v.len(), |i: int| v[i].fragment@)
}

/// Why a directory is not read.
#[derive(Debug, Clone, Copy, PartialEq, Eq, Structural)]
pub enum ScanProblem {
    /// The name at this place of the listing is not valid UTF-8.
    NotUtf8(usize),
    /// The entry at this place of the listing is a link.
    Linked(usize),
    /// The entry at this place is neither a file nor a directory.
    Unsupported(usize),
    /// Two names differ only by ASCII case.
    Collision { first: usize, second: usize },
    /// A marker is not a regular file.
    MarkerNotAFile(usize),
    /// A directory has two source markers.
    TwoMarkers { first: usize, second: usize },
    Object(ObjectProblem),
    /// The directory changed while it was read.
    Changed,
}

/// Whether a link of that name makes the directory unsafe.
pub open spec fn link_matters(fragment: Seq<char>, policy: DirectoryPolicy) -> bool {
    match policy {
        DirectoryPolicy::ProjectRoot => sync_scope::is_service_ignoring_case(fragment),
        DirectoryPolicy::SyncedProjection => true,
        DirectoryPolicy::RawLookup => false,
    }
}

fn link_fragment_is_sync_relevant(fragment: &str, policy: DirectoryPolicy) -> (r: bool)
    ensures
        r == link_matters(fragment@, policy),
{
    match policy {
        DirectoryPolicy::ProjectRoot => same_as_service_ignoring_case(fragment),
        DirectoryPolicy::SyncedProjection => true,
        DirectoryPolicy::RawLookup => false,
    }
}

/// What is wrong with one listed entry.
pub open spec fn entry_problem(e: ScannedEntry, at: int, policy: DirectoryPolicy) -> Option<
    ScanProblem,
> {
    match e.fragment {
        None => Some(ScanProblem::NotUtf8(at as usize)),
        Some(fragment) => match e.seen {
            None => None,
            Some(o) => if o.kind.is_link() && link_matters(fragment@, policy) {
                Some(ScanProblem::Linked(at as usize))
            } else if o.kind == ObjectKind::Other && link_matters(fragment@, policy) {
                Some(ScanProblem::Unsupported(at as usize))
            } else {
                None
            },
        },
    }
}

/// The first thing wrong with the listing from `k` on.
pub open spec fn listing_problem(s: Seq<ScannedEntry>, policy: DirectoryPolicy, k: int) -> Option<
    ScanProblem,
>
    decreases s.len() - k,
{
    if k < 0 || k >= s.len() {
        None
    } else {
        match entry_problem(s[k], k, policy) {
            Some(p) => Some(p),
            None => listing_problem(s, policy, k + 1),
        }
    }
}

/// The entry that is kept of a listed one.
pub open spec fn kept_entry(e: ScannedEntry) -> Option<EntryModel> {
    match (e.fragment, e.seen) {
        (Some(fragment), Some(o)) => match o.kind {
            ObjectKind::File => Some(
                EntryModel {
                    fragment: fragment@,
                    kind: SafeEntryKind::File,
                    generation: o.generation,
                },
            ),
            ObjectKind::Directory => Some(
                EntryModel {
                    fragment: fragment@,
                    kind: SafeEntryKind::Directory,
                    generation: o.generation,
                },
            ),
            _ => None,
        },
        _ => None,
    }
}

/// The entries that are kept of the first `n` listed ones.
pub open spec fn kept_entries(s: Seq<ScannedEntry>, n: int) -> Seq<EntryModel>
    decreases n,
{
    if n <= 0 {
        Seq::empty()
    } else {
        let before = kept_entries(s, n - 1);
        match kept_entry(s[n - 1]) {
            Some(e) => before.push(e),
            None => before,
        }
    }
}

/// The names of the links among the first `n` listed entries.
pub open spec fn kept_links(s: Seq<ScannedEntry>, n: int) -> Seq<Seq<char>>
    decreases n,
{
    if n <= 0 {
        Seq::empty()
    } else {
        let before = kept_links(s, n - 1);
        match (s[n - 1].fragment, s[n - 1].seen) {
            (Some(fragment), Some(o)) => if o.kind.is_link() {
                before.push(fragment@)
            } else {
                before
            },
            _ => before,
        }
    }
}

pub open spec fn name_rows(names: Seq<Seq<char>>) -> Seq<ranking::RowModel> {
    Seq::new(
        names.len(),
        |i: int| ranking::RowModel { key: encode_utf8(names[i]), content: Seq::empty() },
    )
}

pub open spec fn fragments(s: Seq<EntryModel>) -> Seq<Seq<char>> {
    Seq::new(s.len(), |i: int| s[i].fragment)
}

/// The entries in the order of their names.
pub open spec fn by_name(s: Seq<EntryModel>) -> Seq<EntryModel> {
    let order = ranking::ranking(name_rows(fragments(s)));
    Seq::new(order.len(), |i: int| s[order[i]])
}

pub open spec fn names_sorted(s: Seq<Seq<char>>) -> Seq<Seq<char>> {
    let order = ranking::ranking(name_rows(s));
    Seq::new(order.len(), |i: int| s[order[i]])
}

/// Whether a name is a script file with a stem.
pub open spec fn is_script_source(fragment: Seq<char>) -> bool {
    ||| proper_suffix(".server.luau"@, fragment)
    ||| proper_suffix(".client.luau"@, fragment)
    ||| proper_suffix(".server.lua"@, fragment)
    ||| proper_suffix(".client.lua"@, fragment)
    ||| proper_suffix(".luau"@, fragment)
    ||| proper_suffix(".lua"@, fragment)
}

pub open spec fn proper_suffix(suffix: Seq<char>, s: Seq<char>) -> bool {
    suffix.is_suffix_of(s) && suffix.len() < s.len()
}

fn ends_properly(chars: &[char], suffix: &str, n: usize) -> (r: bool)
    requires
        n == suffix@.len(),
    ensures
        r == proper_suffix(suffix@, chars@),
{
    ends_with(chars, suffix) && n < chars.len()
}

pub fn looks_like_script_source(fragment: &str) -> (r: bool)
    ensures
        r == is_script_source(fragment@),
{
    proof {
        reveal_strlit(".server.luau");
        reveal_strlit(".client.luau");
        reveal_strlit(".server.lua");
        reveal_strlit(".client.lua");
        reveal_strlit(".luau");
        reveal_strlit(".lua");
    }
    let chars = chars_of(fragment);
    ends_properly(&chars, ".server.luau", 12) || ends_properly(&chars, ".client.luau", 12)
        || ends_properly(&chars, ".server.lua", 11) || ends_properly(&chars, ".client.lua", 11)
        || ends_properly(&chars, ".luau", 5) || ends_properly(&chars, ".lua", 4)
}

pub fn ascii_fold(fragment: &str) -> (out: String)
    ensures
        out@ == text::lower(fragment@),
{
    lower_text(fragment)
}

/// Whether a second entry of the same folded name would be a collision.
pub open spec fn collides(e: EntryModel, policy: DirectoryPolicy) -> bool {
    match policy {
        DirectoryPolicy::ProjectRoot => sync_scope::is_service_ignoring_case(e.fragment),
        DirectoryPolicy::SyncedProjection => e.kind == SafeEntryKind::Directory
            || is_script_source(e.fragment) || e.fragment == "default.project.json"@,
        DirectoryPolicy::RawLookup => false,
    }
}

fn fragment_is_collision_relevant(e: &PortableDirectoryEntry, policy: DirectoryPolicy) -> (r: bool)
    ensures
        r == collides(e@, policy),
{
    match policy {
        DirectoryPolicy::ProjectRoot => same_as_service_ignoring_case(e.fragment.as_str()),
        DirectoryPolicy::SyncedProjection => e.kind == SafeEntryKind::Directory
            || looks_like_script_source(e.fragment.as_str()) || same(
            e.fragment.as_str(),
            "default.project.json",
        ),
        DirectoryPolicy::RawLookup => false,
    }
}

/// What a marker file name says: the ordinal behind it, and the name inside it
/// where it has one.
pub open spec fn marker_parts(fragment: Seq<char>) -> Option<(Option<nat>, Option<Seq<char>>)> {
    match fs_map::classified(fragment) {
        None => None,
        Some((_, stem)) => {
            let ordinal = match fs_map::ordinal_parts(stem) {
                Some((_, n)) => Some(n),
                None => None,
            };
            let base = fs_map::without_ordinal(stem);
            if text::lower(base) == "init"@ {
                Some((ordinal, None))
            } else if base.len() >= 8 && text::lower(base.take(6)) == "init ("@ && base.last() == ')' {
                Some(
                    (
                        ordinal,
                        Some(
                            fs_map::decoded(fs_map::without_ordinal(base.subrange(6, base.len() - 1))),
                        ),
                    ),
                )
            } else {
                None
            }
        },
    }
}

/// Whether a file describes the directory that holds it.
pub open spec fn describes_directory(directory: Seq<char>, fragment: Seq<char>) -> bool {
    match marker_parts(fragment) {
        Some((None, None)) => fs_map::plain_init(fragment) is Some,
        Some((None, Some(name))) => fs_map::decoded(fs_map::without_ordinal(directory)) == name,
        _ => false,
    }
}

fn without_disambiguation(stem: String) -> (out: String)
    ensures
        out@ == fs_map::without_ordinal(stem@),
{
    match parse_disambiguated(stem.as_str()) {
        Some((name, _)) => name,
        None => stem,
    }
}

pub fn init_source_describes_directory(directory: &str, fragment: &str) -> (r: bool)
    ensures
        r == describes_directory(directory@, fragment@),
{
    proof {
        reveal_strlit("init (");
        reveal_strlit("init");
    }
    let stem = match classify_script_file(fragment) {
        None => return false,
        Some((_, stem)) => stem,
    };
    if parse_disambiguated(stem.as_str()).is_some() {
        return false;
    }
    let folded = lower_text(stem.as_str());
    if same(folded.as_str(), "init") {
        return parse_plain_init_file(fragment).is_some();
    }
    let chars = chars_of(stem.as_str());
    let len: usize = chars.len();
    if len < 8 || chars[len - 1] != ')' {
        return false;
    }
    let head = string_of_range(&chars, 0, 6);
    proof {
        assert(head@ =~= stem@.take(6));
    }
    let folded_head = lower_text(head.as_str());
    if !same(folded_head.as_str(), "init (") {
        return false;
    }
    let inner = string_of_range(&chars, 6, len - 1);
    let inner_name = without_disambiguation(inner);
    let name = decode_name(inner_name.as_str());
    let parent = without_disambiguation(owned(directory));
    let parent_name = decode_name(parent.as_str());
    same(parent_name.as_str(), name.as_str())
}

/// The entry before `i` that has the folded name of `i` and counts as a
/// collision.
pub open spec fn earlier_alias(s: Seq<EntryModel>, policy: DirectoryPolicy, i: int, k: int) -> Option<
    int,
>
    decreases i - k,
{
    if k < 0 || k >= i {
        None
    } else if collides(s[k], policy) && text::lower(s[k].fragment) == text::lower(s[i].fragment) {
        Some(k)
    } else {
        earlier_alias(s, policy, i, k + 1)
    }
}

/// The source marker among the sorted entries from `i` on, given the one
/// before them.
pub open spec fn marker_from(
    s: Seq<EntryModel>,
    directory: Seq<char>,
    policy: DirectoryPolicy,
    i: int,
    marker: Option<int>,
) -> Result<Option<int>, ScanProblem>
    decreases s.len() - i,
{
    if i < 0 || i >= s.len() {
        Ok(marker)
    } else if collides(s[i], policy) && earlier_alias(s, policy, i, 0) is Some {
        Err(
            ScanProblem::Collision {
                first: earlier_alias(s, policy, i, 0)->0 as usize,
                second: i as usize,
            },
        )
    } else if policy == DirectoryPolicy::SyncedProjection && describes_directory(
        directory,
        s[i].fragment,
    ) {
        if s[i].kind != SafeEntryKind::File {
            Err(ScanProblem::MarkerNotAFile(i as usize))
        } else {
            match marker {
                Some(m) => Err(ScanProblem::TwoMarkers { first: m as usize, second: i as usize }),
                None => marker_from(s, directory, policy, i + 1, Some(i)),
            }
        }
    } else {
        marker_from(s, directory, policy, i + 1, marker)
    }
}

/// One deterministic reading of a directory.
#[derive(Debug)]
pub struct PortableDirectoryIndex {
    pub entries: Vec<PortableDirectoryEntry>,
    pub linked: Vec<UnsafeLinkedEntry>,
    pub init_source: Option<usize>,
    pub generation: FileGeneration,
}

#[verifier::ext_equal]
pub struct IndexModel {
    pub entries: Seq<EntryModel>,
    pub linked: Seq<Seq<char>>,
    pub init_source: Option<int>,
    pub generation: FileGeneration,
}

/// What a reading of a directory gives.
pub open spec fn reading(
    directory: Seq<char>,
    policy: DirectoryPolicy,
    before: FileGeneration,
    listing: Seq<ScannedEntry>,
    after: Option<Observed>,
) -> Result<IndexModel, ScanProblem> {
    match listing_problem(listing, policy, 0) {
        Some(p) => Err(p),
        None => {
            let entries = by_name(kept_entries(listing, listing.len() as int));
            match marker_from(entries, directory, policy, 0, None) {
                Err(p) => Err(p),
                Ok(marker) => match generation_problem(
                    after,
                    ObjectKind::Directory,
                    ObjectProblem::NotADirectory,
                ) {
                    Some(p) => Err(ScanProblem::Object(p)),
                    None => if after->0.generation != before {
                        Err(ScanProblem::Changed)
                    } else {
                        Ok(
                            IndexModel {
                                entries,
                                linked: if policy == DirectoryPolicy::RawLookup {
                                    names_sorted(kept_links(listing, listing.len() as int))
                                } else {
                                    Seq::empty()
                                },
                                init_source: marker,
                                generation: before,
                            },
                        )
                    },
                },
            }
        },
    }
}

fn name_row(name: &str) -> (row: Row)
    ensures
        row@ == (ranking::RowModel { key: encode_utf8(name@), content: Seq::empty() }),
{
    let bytes = name.as_bytes();
    let mut key: Vec<u8> = Vec::new();
    let mut i: usize = 0;
    while i < bytes.len()
        invariant
            i <= bytes@.len(),
            key@ == bytes@.take(i as int),
        decreases bytes@.len() - i,
    {
        proof {
            assert(bytes@.take(i + 1) =~= bytes@.take(i as int).push(bytes@[i as int]));
        }
        key.push(bytes[i]);
        i += 1;
    }
    proof {
        assert(bytes@.take(i as int) =~= bytes@);
    }
    let row = Row { key, content: Vec::new() };
    proof {
        assert(row@.content =~= Seq::<u8>::empty());
    }
    row
}

fn sort_entries(found: Vec<PortableDirectoryEntry>) -> (out: Vec<PortableDirectoryEntry>)
    ensures
        entry_models(out@) == by_name(entry_models(found@)),
{
    let ghost whole = entry_models(found@);
    let mut rows: Vec<Row> = Vec::new();
    let mut i: usize = 0;
    while i < found.len()
        invariant
            i <= found@.len(),
            rows@.len() == i,
            whole == entry_models(found@),
            forall|j: int| 0 <= j < i ==> (#[trigger] rows@[j])@ == name_rows(fragments(whole))[j],
        decreases found@.len() - i,
    {
        rows.push(name_row(found[i].fragment.as_str()));
        i += 1;
    }
    proof {
        assert(ranking::models(rows@) =~= name_rows(fragments(whole)));
    }
    let order = rank(&rows);
    let ghost r = ranking::ranking(name_rows(fragments(whole)));
    let mut out: Vec<PortableDirectoryEntry> = Vec::new();
    let mut k: usize = 0;
    while k < order.len()
        invariant
            k <= order@.len(),
            out@.len() == k,
            order@.len() == r.len(),
            r.len() == found@.len(),
            whole == entry_models(found@),
            forall|j: int| 0 <= j < order@.len() ==> (#[trigger] order@[j]) as int == r[j],
            forall|j: int| 0 <= j < order@.len() ==> (#[trigger] order@[j]) < found@.len(),
            forall|j: int| 0 <= j < k ==> (#[trigger] out@[j])@ == whole[r[j]],
        decreases order@.len() - k,
    {
        let e = &found[order[k]];
        out.push(
            PortableDirectoryEntry {
                fragment: owned(e.fragment.as_str()),
                kind: e.kind,
                generation: e.generation,
            },
        );
        k += 1;
    }
    proof {
        assert(entry_models(out@) =~= by_name(whole));
    }
    out
}

fn sort_links(found: Vec<UnsafeLinkedEntry>) -> (out: Vec<UnsafeLinkedEntry>)
    ensures
        link_models(out@) == names_sorted(link_models(found@)),
{
    let ghost whole = link_models(found@);
    let mut rows: Vec<Row> = Vec::new();
    let mut i: usize = 0;
    while i < found.len()
        invariant
            i <= found@.len(),
            rows@.len() == i,
            whole == link_models(found@),
            forall|j: int| 0 <= j < i ==> (#[trigger] rows@[j])@ == name_rows(whole)[j],
        decreases found@.len() - i,
    {
        rows.push(name_row(found[i].fragment.as_str()));
        i += 1;
    }
    proof {
        assert(ranking::models(rows@) =~= name_rows(whole));
    }
    let order = rank(&rows);
    let ghost r = ranking::ranking(name_rows(whole));
    let mut out: Vec<UnsafeLinkedEntry> = Vec::new();
    let mut k: usize = 0;
    while k < order.len()
        invariant
            k <= order@.len(),
            out@.len() == k,
            order@.len() == r.len(),
            r.len() == found@.len(),
            whole == link_models(found@),
            forall|j: int| 0 <= j < order@.len() ==> (#[trigger] order@[j]) as int == r[j],
            forall|j: int| 0 <= j < order@.len() ==> (#[trigger] order@[j]) < found@.len(),
            forall|j: int| 0 <= j < k ==> (#[trigger] out@[j]).fragment@ == whole[r[j]],
        decreases order@.len() - k,
    {
        out.push(UnsafeLinkedEntry { fragment: owned(found[order[k]].fragment.as_str()) });
        k += 1;
    }
    proof {
        assert(link_models(out@) =~= names_sorted(whole));
    }
    out
}

/// Separates what a directory listed into entries and links.
fn sift(listing: Vec<ScannedEntry>, policy: DirectoryPolicy) -> (r: Result<
    (Vec<PortableDirectoryEntry>, Vec<UnsafeLinkedEntry>),
    ScanProblem,
>)
    ensures
        match r {
            Err(p) => listing_problem(listing@, policy, 0) == Some(p),
            Ok((entries, links)) => {
                &&& listing_problem(listing@, policy, 0) is None
                &&& entry_models(entries@) == kept_entries(listing@, listing@.len() as int)
                &&& link_models(links@) == kept_links(listing@, listing@.len() as int)
            },
        },
{
    let mut entries: Vec<PortableDirectoryEntry> = Vec::new();
    let mut links: Vec<UnsafeLinkedEntry> = Vec::new();
    let mut k: usize = 0;
    proof {
        assert(entry_models(entries@) =~= kept_entries(listing@, 0));
        assert(link_models(links@) =~= kept_links(listing@, 0));
    }
    while k < listing.len()
        invariant
            k <= listing@.len(),
            listing_problem(listing@, policy, 0) == listing_problem(listing@, policy, k as int),
            entry_models(entries@) == kept_entries(listing@, k as int),
            link_models(links@) == kept_links(listing@, k as int),
        decreases listing@.len() - k,
    {
        let ghost entries_before = entries@;
        let ghost links_before = links@;
        let fragment: &str = match &listing[k].fragment {
            None => return Err(ScanProblem::NotUtf8(k)),
            Some(fragment) => fragment.as_str(),
        };
        if let Some(o) = listing[k].seen {
            if o.kind.linked() {
                if link_fragment_is_sync_relevant(fragment, policy) {
                    return Err(ScanProblem::Linked(k));
                }
                links.push(UnsafeLinkedEntry { fragment: owned(fragment) });
            } else {
                let kind = match o.kind {
                    ObjectKind::File => Some(SafeEntryKind::File),
                    ObjectKind::Directory => Some(SafeEntryKind::Directory),
                    _ => None,
                };
                match kind {
                    None => {
                        if link_fragment_is_sync_relevant(fragment, policy) {
                            return Err(ScanProblem::Unsupported(k));
                        }
                    },
                    Some(kind) => {
                        entries.push(
                            PortableDirectoryEntry {
                                fragment: owned(fragment),
                                kind,
                                generation: o.generation,
                            },
                        );
                    },
                }
            }
        }
        proof {
            if entries@.len() > entries_before.len() {
                assert(entry_models(entries@) =~= entry_models(entries_before).push(
                    entries@.last()@,
                ));
            }
            if links@.len() > links_before.len() {
                assert(link_models(links@) =~= link_models(links_before).push(
                    links@.last().fragment@,
                ));
            }
        }
        k += 1;
    }
    Ok((entries, links))
}

proof fn lemma_earlier_alias(s: Seq<EntryModel>, policy: DirectoryPolicy, i: int, k: int)
    requires
        0 <= k,
        i <= s.len(),
    ensures
        match earlier_alias(s, policy, i, k) {
            Some(j) => k <= j < i && collides(s[j], policy) && text::lower(s[j].fragment)
                == text::lower(s[i].fragment) && forall|m: int|
                k <= m < j ==> !(collides(#[trigger] s[m], policy) && text::lower(s[m].fragment)
                    == text::lower(s[i].fragment)),
            None => forall|m: int|
                k <= m < i ==> !(collides(#[trigger] s[m], policy) && text::lower(s[m].fragment)
                    == text::lower(s[i].fragment)),
        },
    decreases i - k,
{
    if k < i && !(collides(s[k], policy) && text::lower(s[k].fragment) == text::lower(
        s[i].fragment,
    )) {
        lemma_earlier_alias(s, policy, i, k + 1);
    }
}

/// Looks for collisions and the source marker among the sorted entries.
fn find_marker(entries: &Vec<PortableDirectoryEntry>, directory: &str, policy: DirectoryPolicy) -> (r:
    Result<Option<usize>, ScanProblem>)
    ensures
        match r {
            Err(p) => marker_from(entry_models(entries@), directory@, policy, 0, None) == Err::<
                Option<int>,
                ScanProblem,
            >(p),
            Ok(m) => {
                &&& marker_from(entry_models(entries@), directory@, policy, 0, None) == Ok::<
                    Option<int>,
                    ScanProblem,
                >(
                    match m {
                        Some(i) => Some(i as int),
                        None => None,
                    },
                )
                &&& m is Some ==> m->0 < entries@.len()
            },
        },
{
    let ghost s = entry_models(entries@);
    let mut seen: TextMap<usize> = TextMap::new();
    let mut marker: Option<usize> = None;
    let ghost mut found: Option<int> = None;
    let mut i: usize = 0;
    while i < entries.len()
        invariant
            s == entry_models(entries@),
            i <= entries@.len(),
            seen.wf(),
            forall|key: Seq<char>| #[trigger]
                seen@.contains_key(key) ==> seen@[key] < i && collides(s[seen@[key] as int], policy)
                    && text::lower(s[seen@[key] as int].fragment) == key,
            forall|m: int|
                0 <= m < i && collides(#[trigger] s[m], policy) ==> seen@.contains_key(
                    text::lower(s[m].fragment),
                ),
            forall|key: Seq<char>, m: int|
                #![trigger seen@.contains_key(key), s[m]]
                seen@.contains_key(key) && 0 <= m < seen@[key] ==> !(collides(s[m], policy)
                    && text::lower(s[m].fragment) == key),
            found == (match marker {
                Some(m) => Some(m as int),
                None => None,
            }),
            marker is Some ==> marker->0 < i,
            marker_from(s, directory@, policy, 0, None) == marker_from(
                s,
                directory@,
                policy,
                i as int,
                found,
            ),
        decreases entries@.len() - i,
    {
        let e = &entries[i];
        let ghost seen_before = seen@;
        proof {
            lemma_earlier_alias(s, policy, i as int, 0);
        }
        if fragment_is_collision_relevant(e, policy) {
            let folded = ascii_fold(e.fragment.as_str());
            if let Some(first) = seen.get(folded.as_str()) {
                proof {
                    let j = earlier_alias(s, policy, i as int, 0);
                    assert(s[*first as int] == s[*first as int]);
                    assert(j is Some);
                    if j->0 < *first {
                        assert(s[j->0] == s[j->0]);
                    }
                    assert(j->0 == *first);
                }
                return Err(ScanProblem::Collision { first: *first, second: i });
            }
            proof {
                assert(earlier_alias(s, policy, i as int, 0) is None);
            }
            seen.insert(folded, i);
        }
        if policy == DirectoryPolicy::SyncedProjection && init_source_describes_directory(
            directory,
            e.fragment.as_str(),
        ) {
            if e.kind != SafeEntryKind::File {
                return Err(ScanProblem::MarkerNotAFile(i));
            }
            if let Some(first) = marker {
                return Err(ScanProblem::TwoMarkers { first, second: i });
            }
            marker = Some(i);
            proof {
                found = Some(i as int);
            }
        }
        i += 1;
    }
    Ok(marker)
}

impl PortableDirectoryIndex {
    pub open spec fn view(&self) -> IndexModel {
        IndexModel {
            entries: entry_models(self.entries@),
            linked: link_models(self.linked@),
            init_source: match self.init_source {
                Some(i) => Some(i as int),
                None => None,
            },
            generation: self.generation,
        }
    }

    pub open spec fn wf(&self) -> bool {
        self.init_source is Some ==> self.init_source->0 < self.entries@.len()
    }

    /// Indexes one directory of that name, which was seen before and after it
    /// was listed.
    pub fn read_with_policy(
        directory: &str,
        policy: DirectoryPolicy,
        before: FileGeneration,
        listing: Vec<ScannedEntry>,
        after: Option<Observed>,
    ) -> (r: Result<Self, ScanProblem>)
        ensures
            match r {
                Err(p) => reading(directory@, policy, before, listing@, after) == Err::<
                    IndexModel,
                    ScanProblem,
                >(p),
                Ok(index) => index.wf() && reading(directory@, policy, before, listing@, after)
                    == Ok::<IndexModel, ScanProblem>(index@),
            },
    {
        let (found, links) = match sift(listing, policy) {
            Err(p) => return Err(p),
            Ok(sifted) => sifted,
        };
        let entries = sort_entries(found);
        let init_source = match find_marker(&entries, directory, policy) {
            Err(p) => return Err(p),
            Ok(marker) => marker,
        };
        let generation = match directory_generation_no_follow(after) {
            Err(p) => return Err(ScanProblem::Object(p)),
            Ok(generation) => generation,
        };
        if !same_generation(&before, &generation) {
            return Err(ScanProblem::Changed);
        }
        let linked = if policy == DirectoryPolicy::RawLookup {
            sort_links(links)
        } else {
            Vec::new()
        };
        proof {
            if policy != DirectoryPolicy::RawLookup {
                assert(link_models(linked@) =~= Seq::<Seq<char>>::empty());
            }
        }
        Ok(PortableDirectoryIndex { entries, linked, init_source, generation })
    }

    pub fn entries(&self) -> (r: &[PortableDirectoryEntry])
        ensures
            r@ == self.entries@,
    {
        self.entries.as_slice()
    }

    /// The last entry of exactly that name.
    pub fn exact(&self, fragment: &str) -> (r: Option<usize>)
        ensures
            r == exact_place(self@.entries, fragment@),
            r is Some ==> r->0 < self.entries@.len() && self.entries@[r->0 as int].fragment@
                == fragment@,
    {
        let mut k: usize = self.entries.len();
        while k > 0
            invariant
                k <= self.entries@.len(),
                forall|j: int|
                    k <= j < self.entries@.len() ==> (#[trigger] self@.entries[j]).fragment
                        != fragment@,
            decreases k,
        {
            k -= 1;
            if same(self.entries[k].fragment.as_str(), fragment) {
                proof {
                    lemma_exact_place(self@.entries, fragment@, k as int);
                }
                return Some(k);
            }
        }
        None
    }

    /// The entries of that name but for the case of its letters.
    pub fn folded_matches(&self, fragment: &str) -> (out: Vec<usize>)
        ensures
            out@.len() == folded_places(self@.entries, fragment@, self@.entries.len() as int).len(),
            forall|i: int|
                0 <= i < out@.len() ==> (#[trigger] out@[i]) as int == folded_places(
                    self@.entries,
                    fragment@,
                    self@.entries.len() as int,
                )[i] && out@[i] < self.entries@.len(),
    {
        let mut out: Vec<usize> = Vec::new();
        let mut k: usize = 0;
        while k < self.entries.len()
            invariant
                k <= self.entries@.len(),
                out@.len() == folded_places(self@.entries, fragment@, k as int).len(),
                forall|i: int|
                    0 <= i < out@.len() ==> (#[trigger] out@[i]) as int == folded_places(
                        self@.entries,
                        fragment@,
                        k as int,
                    )[i] && out@[i] < self.entries@.len(),
            decreases self.entries@.len() - k,
        {
            if crate::text::same_ignoring_case(self.entries[k].fragment.as_str(), fragment) {
                out.push(k);
            }
            k += 1;
        }
        out
    }

    /// Whether a link has exactly that name.
    pub fn exact_link(&self, fragment: &str) -> (r: bool)
        ensures
            r == self@.linked.contains(fragment@),
    {
        let mut k: usize = 0;
        while k < self.linked.len()
            invariant
                k <= self.linked@.len(),
                forall|j: int| 0 <= j < k ==> #[trigger] self@.linked[j] != fragment@,
            decreases self.linked@.len() - k,
        {
            if same(self.linked[k].fragment.as_str(), fragment) {
                assert(self@.linked[k as int] == fragment@);
                return true;
            }
            k += 1;
        }
        false
    }

    /// How many links have that name but for the case of its letters.
    pub fn folded_link_matches(&self, fragment: &str) -> (n: usize)
        ensures
            n == folded_links(self@.linked, fragment@, self@.linked.len() as int),
            n <= self.linked@.len(),
    {
        let mut n: usize = 0;
        let mut k: usize = 0;
        while k < self.linked.len()
            invariant
                k <= self.linked@.len(),
                n <= k,
                n == folded_links(self@.linked, fragment@, k as int),
            decreases self.linked@.len() - k,
        {
            if crate::text::same_ignoring_case(self.linked[k].fragment.as_str(), fragment) {
                n += 1;
            }
            k += 1;
        }
        n
    }

    /// The entry that describes the directory.
    pub fn unique_init_source(&self) -> (r: Option<&PortableDirectoryEntry>)
        requires
            self.wf(),
        ensures
            match r {
                Some(e) => self.init_source is Some && *e
                    == self.entries@[self.init_source->0 as int],
                None => self.init_source is None,
            },
    {
        match self.init_source {
            Some(i) => Some(&self.entries[i]),
            None => None,
        }
    }
}

pub open spec fn exact_place(s: Seq<EntryModel>, fragment: Seq<char>) -> Option<usize> {
    if exists|k: int| 0 <= k < s.len() && (#[trigger] s[k]).fragment == fragment {
        Some(
            (choose|k: int|
                0 <= k < s.len() && (#[trigger] s[k]).fragment == fragment && forall|j: int|
                    k < j < s.len() ==> (#[trigger] s[j]).fragment != fragment) as usize,
        )
    } else {
        None
    }
}

proof fn lemma_exact_place(s: Seq<EntryModel>, fragment: Seq<char>, k: int)
    requires
        0 <= k < s.len(),
        s[k].fragment == fragment,
        forall|j: int| k < j < s.len() ==> (#[trigger] s[j]).fragment != fragment,
    ensures
        exact_place(s, fragment) == Some(k as usize),
{
    let c = choose|c: int|
        0 <= c < s.len() && (#[trigger] s[c]).fragment == fragment && forall|j: int|
            c < j < s.len() ==> (#[trigger] s[j]).fragment != fragment;
    assert(s[c].fragment == fragment);
    assert(s[k].fragment == fragment);
}

/// The places, among the first `n`, of that name but for the case of its
/// letters.
pub open spec fn folded_places(s: Seq<EntryModel>, fragment: Seq<char>, n: int) -> Seq<int>
    decreases n,
{
    if n <= 0 {
        Seq::empty()
    } else {
        let before = folded_places(s, fragment, n - 1);
        if text::lower(s[n - 1].fragment) == text::lower(fragment) {
            before.push(n - 1)
        } else {
            before
        }
    }
}

pub open spec fn folded_links(s: Seq<Seq<char>>, fragment: Seq<char>, n: int) -> nat
    decreases n,
{
    if n <= 0 {
        0
    } else {
        folded_links(s, fragment, n - 1) + (if text::lower(s[n - 1]) == text::lower(fragment) {
            1nat
        } else {
            0nat
        })
    }
}

/// Why a path is not used.
#[derive(Debug, Clone, Copy, PartialEq, Eq, Structural)]
pub enum WalkProblem {
    /// The component at this place is empty, leads elsewhere, or is none.
    Component(usize),
    /// The project root is no instance.
    NoService,
    /// The first component is no service.
    NotAService,
    /// The component at this depth is a link.
    Linked(usize),
    /// Several entries have the component's name but for case.
    Aliases(usize),
    /// A link has the component's name but for case.
    LinkedAlias(usize),
    /// An entry has the component's name but for case.
    Alias(usize),
    Missing(usize),
    /// The component is no directory.
    NotADirectory(usize),
    TooDeep,
}

/// What one component of a raw path leads to: `true` for an existing entry,
/// `false` for the start of a missing tail.
pub open spec fn raw_step(
    index: IndexModel,
    fragment: Seq<char>,
    at: usize,
    allow_missing: bool,
) -> Result<bool, WalkProblem> {
    let aliases = folded_places(index.entries, fragment, index.entries.len() as int).len();
    let links = folded_links(index.linked, fragment, index.linked.len() as int);
    if index.linked.contains(fragment) {
        Err(WalkProblem::Linked(at))
    } else if exact_place(index.entries, fragment) is Some {
        Ok(true)
    } else if aliases + links > 1 {
        Err(WalkProblem::Aliases(at))
    } else if links > 0 {
        Err(WalkProblem::LinkedAlias(at))
    } else if aliases > 0 {
        Err(WalkProblem::Alias(at))
    } else if !allow_missing {
        Err(WalkProblem::Missing(at))
    } else {
        Ok(false)
    }
}

/// The same for a path below a service.
pub open spec fn synced_step(
    index: IndexModel,
    fragment: Seq<char>,
    at: usize,
    allow_missing: bool,
) -> Result<bool, WalkProblem> {
    let aliases = folded_places(index.entries, fragment, index.entries.len() as int).len();
    if exact_place(index.entries, fragment) is Some {
        Ok(true)
    } else if aliases > 1 {
        Err(WalkProblem::Aliases(at))
    } else if aliases > 0 {
        Err(WalkProblem::Alias(at))
    } else if !allow_missing {
        Err(WalkProblem::Missing(at))
    } else {
        Ok(false)
    }
}

/// Whether a part of a path names an entry of the directory that it is looked up
/// in: it is not empty, stays neither in place nor leads to the parent, and holds
/// no separator.
pub open spec fn is_normal(part: Seq<char>) -> bool {
    &&& part.len() > 0
    &&& part != "."@
    &&& part != ".."@
    &&& !part.contains('/')
}

/// The first part from `k` on that names no entry.
pub open spec fn abnormal_from(parts: Seq<String>, k: int) -> Option<usize>
    decreases parts.len() - k,
{
    if k < 0 || k >= parts.len() {
        None
    } else if !is_normal(parts[k]@) {
        Some(k as usize)
    } else {
        abnormal_from(parts, k + 1)
    }
}

proof fn lemma_normal_from(parts: Seq<String>, k: int)
    requires
        0 <= k,
    ensures
        abnormal_from(parts, k) is None <==> forall|i: int|
            k <= i < parts.len() ==> is_normal(#[trigger] parts[i]@),
    decreases parts.len() - k,
{
    if k < parts.len() {
        lemma_normal_from(parts, k + 1);
    }
}

proof fn lemma_service_is_normal(service: Seq<char>)
    requires
        sync_scope::is_synced_service(service),
    ensures
        is_normal(service),
{
    reveal_strlit("ReplicatedStorage");
    reveal_strlit("ServerScriptService");
    reveal_strlit("StarterPlayer");
    reveal_strlit("StarterGui");
    reveal_strlit("Workspace");
    reveal_strlit("ReplicatedFirst");
    reveal_strlit("ServerStorage");
    reveal_strlit("Lighting");
    reveal_strlit(".");
    reveal_strlit("..");
    assert forall|i: int| 0 <= i < service.len() implies is_letter(service[i]) by {
        assert(service.len() <= 19);
        assert(i == 0 || i == 1 || i == 2 || i == 3 || i == 4 || i == 5 || i == 6 || i == 7 || i
            == 8 || i == 9 || i == 10 || i == 11 || i == 12 || i == 13 || i == 14 || i == 15 || i
            == 16 || i == 17 || i == 18);
    }
    assert forall|c: char| service.contains(c) implies is_letter(c) by {
        let i = choose|i: int| 0 <= i < service.len() && service[i] == c;
        assert(is_letter(service[i]));
    }
    assert(service.len() > 2);
}

fn normal_component(part: &str) -> (r: bool)
    ensures
        r == is_normal(part@),
{
    let chars = chars_of(part);
    chars.len() > 0 && !same(part, ".") && !same(part, "..") && !holds(&chars, '/')
}

/// Checks that every part of a path names an entry, so that the path leads
/// nowhere but down.
pub fn normal_components(parts: Vec<String>) -> (r: Result<Vec<String>, WalkProblem>)
    ensures
        match abnormal_from(parts@, 0) {
            None => r == Ok::<Vec<String>, WalkProblem>(parts),
            Some(k) => r == Err::<Vec<String>, WalkProblem>(WalkProblem::Component(k)),
        },
        r is Ok <==> forall|i: int| 0 <= i < parts@.len() ==> is_normal(#[trigger] parts@[i]@),
{
    proof {
        lemma_normal_from(parts@, 0);
    }
    let mut k: usize = 0;
    while k < parts.len()
        invariant
            k <= parts@.len(),
            abnormal_from(parts@, 0) == abnormal_from(parts@, k as int),
        decreases parts@.len() - k,
    {
        if !normal_component(parts[k].as_str()) {
            return Err(WalkProblem::Component(k));
        }
        k += 1;
    }
    Ok(parts)
}

/// A path on its way from a trusted base, one directory at a time.
#[derive(Debug)]
pub struct PathWalk {
    pub components: Vec<String>,
    /// How many components exist.
    pub at: usize,
    /// The rest of the path does not exist.
    pub missing: bool,
    pub allow_missing_tail: bool,
    /// Whether the path is one below a service.
    pub synced: bool,
}

/// Starts a walk from a base through components that name no link.
pub fn validate_descendant_no_follow(components: Vec<String>, allow_missing_tail: bool) -> (r:
    Result<PathWalk, WalkProblem>)
    ensures
        match abnormal_from(components@, 0) {
            Some(k) => r == Err::<PathWalk, WalkProblem>(WalkProblem::Component(k)),
            None => r matches Ok(w) && w.wf() && w == (PathWalk {
                components,
                at: 0,
                missing: false,
                allow_missing_tail,
                synced: false,
            }),
        },
{
    match normal_components(components) {
        Err(p) => Err(p),
        Ok(components) => Ok(
            PathWalk { components, at: 0, missing: false, allow_missing_tail, synced: false },
        ),
    }
}

/// What is wrong with the components of a path into a service.
pub open spec fn synced_problem(components: Seq<String>) -> Option<WalkProblem> {
    match abnormal_from(components, 0) {
        Some(k) => Some(WalkProblem::Component(k)),
        None => if components.len() == 0 {
            Some(WalkProblem::NoService)
        } else if !sync_scope::is_synced_service(components[0]@) {
            Some(WalkProblem::NotAService)
        } else {
            None
        },
    }
}

/// Starts a walk from the project root into a service.
pub fn validate_synced_path(components: Vec<String>, allow_missing_tail: bool) -> (r: Result<
    PathWalk,
    WalkProblem,
>)
    ensures
        match synced_problem(components@) {
            Some(p) => r == Err::<PathWalk, WalkProblem>(p),
            None => r matches Ok(w) && w.wf() && w == (PathWalk {
                components,
                at: 0,
                missing: false,
                allow_missing_tail,
                synced: true,
            }),
        },
{
    let components = match normal_components(components) {
        Err(p) => return Err(p),
        Ok(components) => components,
    };
    if components.len() == 0 {
        return Err(WalkProblem::NoService);
    }
    if !synced_service(components[0].as_str()) {
        return Err(WalkProblem::NotAService);
    }
    Ok(PathWalk { components, at: 0, missing: false, allow_missing_tail, synced: true })
}

/// Starts a walk from the project root to a service.
pub fn validate_service_path(service: &str, allow_missing: bool) -> (r: Result<
    PathWalk,
    WalkProblem,
>)
    ensures
        match r {
            Err(p) => p == WalkProblem::NotAService && !sync_scope::is_synced_service(service@),
            Ok(w) => {
                &&& sync_scope::is_synced_service(service@)
                &&& w.components@.len() == 1 && w.components@[0]@ == service@
                &&& w.at == 0 && !w.missing && w.allow_missing_tail == allow_missing && w.synced
                &&& w.wf()
            },
        },
{
    if !synced_service(service) {
        return Err(WalkProblem::NotAService);
    }
    let mut components: Vec<String> = Vec::new();
    components.push(owned(service));
    proof {
        lemma_service_is_normal(service@);
        lemma_normal_from(components@, 0);
    }
    validate_synced_path(components, allow_missing)
}

/// The path of the first `n` components below a base.
pub open spec fn path_below(base: Seq<char>, components: Seq<String>, n: int) -> Seq<char>
    decreases n,
{
    if n <= 0 {
        base
    } else {
        below(path_below(base, components, n - 1), components[n - 1]@)
    }
}

impl PathWalk {
    /// Every component names an entry of the directory before it.
    pub open spec fn wf(&self) -> bool {
        &&& self.at <= self.components@.len()
        &&& forall|i: int|
            0 <= i < self.components@.len() ==> is_normal(#[trigger] self.components@[i]@)
    }

    /// The path of the first `n` components, in the spelling that was asked for.
    pub fn path(&self, base: &str, n: usize) -> (out: String)
        requires
            n <= self.components@.len(),
        ensures
            out@ == path_below(base@, self.components@, n as int),
    {
        let mut out = owned(base);
        let mut k: usize = 0;
        while k < n
            invariant
                k <= n <= self.components@.len(),
                out@ == path_below(base@, self.components@, k as int),
            decreases n - k,
        {
            out = join_path(out.as_str(), self.components[k].as_str());
            k += 1;
        }
        out
    }

    pub open spec fn step_of(&self, index: IndexModel) -> Result<bool, WalkProblem> {
        let fragment = self.components@[self.at as int]@;
        if self.synced {
            synced_step(index, fragment, self.at, self.allow_missing_tail)
        } else {
            raw_step(index, fragment, self.at, self.allow_missing_tail)
        }
    }

    /// How the directory of the components walked so far must be read next;
    /// nothing where the walk is over.
    pub open spec fn wanted(&self) -> Option<DirectoryPolicy> {
        if self.missing || self.at >= self.components@.len() {
            None
        } else if !self.synced {
            Some(DirectoryPolicy::RawLookup)
        } else if self.at == 0 {
            Some(DirectoryPolicy::ProjectRoot)
        } else {
            Some(DirectoryPolicy::SyncedProjection)
        }
    }

    pub fn wants(&self) -> (r: Option<DirectoryPolicy>)
        ensures
            r == self.wanted(),
    {
        if self.missing || self.at >= self.components.len() {
            None
        } else if !self.synced {
            Some(DirectoryPolicy::RawLookup)
        } else if self.at == 0 {
            Some(DirectoryPolicy::ProjectRoot)
        } else {
            Some(DirectoryPolicy::SyncedProjection)
        }
    }

    /// Goes on with the directory that was asked for.
    pub fn step(&mut self, index: &PortableDirectoryIndex) -> (r: Result<(), WalkProblem>)
        requires
            old(self).wf(),
            !old(self).missing,
            old(self).at < old(self).components@.len(),
        ensures
            final(self).wf(),
            match old(self).step_of(index@) {
                Err(p) => r == Err::<(), WalkProblem>(p) && *final(self) == *old(self),
                Ok(true) => r is Ok && *final(self) == (PathWalk {
                    at: (old(self).at + 1) as usize,
                    ..*old(self)
                }),
                Ok(false) => r is Ok && *final(self) == (PathWalk { missing: true, ..*old(self) }),
            },
    {
        let count: usize = self.components.len();
        let fragment: &str = self.components[self.at].as_str();
        if !self.synced && index.exact_link(fragment) {
            return Err(WalkProblem::Linked(self.at));
        }
        if index.exact(fragment).is_some() {
            assert(self.at < count);
            self.at = self.at + 1;
            return Ok(());
        }
        let aliases: usize = index.folded_matches(fragment).len();
        let links: usize = if self.synced {
            0
        } else {
            index.folded_link_matches(fragment)
        };
        if aliases > 1 || links > 1 || (aliases == 1 && links == 1) {
            return Err(WalkProblem::Aliases(self.at));
        }
        if links > 0 {
            return Err(WalkProblem::LinkedAlias(self.at));
        }
        if aliases > 0 {
            return Err(WalkProblem::Alias(self.at));
        }
        if !self.allow_missing_tail {
            return Err(WalkProblem::Missing(self.at));
        }
        self.missing = true;
        Ok(())
    }
}

/// A walk that ends well stays within the spelling that was asked for: an
/// entry that differs only by case never stands in for a component.
pub proof fn law_walk_enters_only_exact_entries(w: PathWalk, index: IndexModel)
    requires
        w.wf(),
        w.at < w.components@.len(),
        w.step_of(index) == Ok::<bool, WalkProblem>(true),
    ensures
        exists|k: int|
            0 <= k < index.entries.len() && (#[trigger] index.entries[k]).fragment
                == w.components@[w.at as int]@,
        !w.synced ==> !index.linked.contains(w.components@[w.at as int]@),
{
}

/// A missing tail begins only where no entry and no link has the component's
/// name, in any case.
pub proof fn law_missing_tail_has_no_alias(w: PathWalk, index: IndexModel, k: int)
    requires
        w.wf(),
        w.at < w.components@.len(),
        w.step_of(index) == Ok::<bool, WalkProblem>(false),
    ensures
        w.allow_missing_tail,
        0 <= k < index.entries.len() ==> text::lower(index.entries[k].fragment) != text::lower(
            w.components@[w.at as int]@,
        ),
        !w.synced && 0 <= k < index.linked.len() ==> text::lower(index.linked[k]) != text::lower(
            w.components@[w.at as int]@,
        ),
{
    let fragment = w.components@[w.at as int]@;
    lemma_no_folded_place(index.entries, fragment, index.entries.len() as int);
    lemma_no_folded_link(index.linked, fragment, index.linked.len() as int);
    if 0 <= k < index.entries.len() {
        assert(index.entries[k] == index.entries[k]);
    }
    if 0 <= k < index.linked.len() {
        assert(index.linked[k] == index.linked[k]);
    }
}

proof fn lemma_no_folded_place(s: Seq<EntryModel>, fragment: Seq<char>, n: int)
    requires
        0 <= n <= s.len(),
    ensures
        folded_places(s, fragment, n).len() == 0 ==> forall|k: int|
            0 <= k < n ==> text::lower((#[trigger] s[k]).fragment) != text::lower(fragment),
    decreases n,
{
    if n > 0 {
        lemma_no_folded_place(s, fragment, n - 1);
    }
}

proof fn lemma_no_folded_link(s: Seq<Seq<char>>, fragment: Seq<char>, n: int)
    requires
        0 <= n <= s.len(),
    ensures
        folded_links(s, fragment, n) == 0 ==> forall|k: int|
            0 <= k < n ==> text::lower(#[trigger] s[k]) != text::lower(fragment),
    decreases n,
{
    if n > 0 {
        lemma_no_folded_link(s, fragment, n - 1);
    }
}

/// Why a Rojo `$path` is not used.
#[derive(Debug, Clone, Copy, PartialEq, Eq, Structural)]
pub enum RojoProblem {
    Rooted,
    DriveRelative,
    /// A segment is empty or leads to the parent.
    Segment,
    Colon,
    NoTarget,
}

pub open spec fn slashed(s: Seq<char>) -> Seq<char> {
    Seq::new(
        s.len(),
        |i: int|
            if s[i] == '\\' {
                '/'
            } else {
                s[i]
            },
    )
}

pub open spec fn is_letter(c: char) -> bool {
    'a' <= c <= 'z' || 'A' <= c <= 'Z'
}

pub open spec fn segments_problem(s: Seq<Seq<char>>, k: int) -> Option<RojoProblem>
    decreases s.len() - k,
{
    if k < 0 || k >= s.len() {
        None
    } else if s[k].len() == 0 || s[k] == ".."@ {
        Some(RojoProblem::Segment)
    } else if s[k].contains(':') {
        Some(RojoProblem::Colon)
    } else {
        segments_problem(s, k + 1)
    }
}

/// The segments, but for the ones that stay in place.
pub open spec fn targets(s: Seq<Seq<char>>, n: int) -> Seq<Seq<char>>
    decreases n,
{
    if n <= 0 {
        Seq::empty()
    } else if s[n - 1] == "."@ {
        targets(s, n - 1)
    } else {
        targets(s, n - 1).push(s[n - 1])
    }
}

/// The components that a Rojo `$path` names.
pub open spec fn rojo_path(raw: Seq<char>) -> Result<Seq<Seq<char>>, RojoProblem> {
    let parts = text::split(slashed(raw), '/');
    if raw.len() == 0 || raw[0] == '/' || raw[0] == '\\' {
        Err(RojoProblem::Rooted)
    } else if raw.len() >= 2 && is_letter(raw[0]) && raw[1] == ':' {
        Err(RojoProblem::DriveRelative)
    } else {
        match segments_problem(parts, 0) {
            Some(p) => Err(p),
            None => if targets(parts, parts.len() as int).len() == 0 {
                Err(RojoProblem::NoTarget)
            } else {
                Ok(targets(parts, parts.len() as int))
            },
        }
    }
}

fn letter(c: char) -> (r: bool)
    ensures
        r == is_letter(c),
{
    ('a' <= c && c <= 'z') || ('A' <= c && c <= 'Z')
}

fn holds(chars: &Vec<char>, c: char) -> (r: bool)
    ensures
        r == chars@.contains(c),
{
    let mut k: usize = 0;
    while k < chars.len()
        invariant
            k <= chars@.len(),
            forall|j: int| 0 <= j < k ==> #[trigger] chars@[j] != c,
        decreases chars@.len() - k,
    {
        if chars[k] == c {
            assert(chars@[k as int] == c);
            return true;
        }
        k += 1;
    }
    false
}

/// Strict lexical parser for Rojo's `$path`.
pub fn parse_rojo_relative_path(raw: &str) -> (r: Result<Vec<String>, RojoProblem>)
    ensures
        match r {
            Err(p) => rojo_path(raw@) == Err::<Seq<Seq<char>>, RojoProblem>(p),
            Ok(out) => rojo_path(raw@) == Ok::<Seq<Seq<char>>, RojoProblem>(
                crate::disk_index::texts(out@),
            ),
        },
{
    let chars = chars_of(raw);
    if chars.len() == 0 || chars[0] == '/' || chars[0] == '\\' {
        return Err(RojoProblem::Rooted);
    }
    if chars.len() >= 2 && letter(chars[0]) && chars[1] == ':' {
        return Err(RojoProblem::DriveRelative);
    }
    let mut plain: Vec<char> = Vec::new();
    let mut i: usize = 0;
    while i < chars.len()
        invariant
            i <= chars@.len(),
            chars@ == raw@,
            plain@ == slashed(raw@).take(i as int),
        decreases chars@.len() - i,
    {
        let c = chars[i];
        proof {
            assert(slashed(raw@).take(i + 1) =~= slashed(raw@).take(i as int).push(
                slashed(raw@)[i as int],
            ));
        }
        plain.push(
            if c == '\\' {
                '/'
            } else {
                c
            },
        );
        i += 1;
    }
    proof {
        assert(slashed(raw@).take(i as int) =~= slashed(raw@));
    }
    let parts = crate::text::split_chars(&plain, '/');
    let ghost s = text::split(slashed(raw@), '/');
    let mut k: usize = 0;
    while k < parts.len()
        invariant
            k <= parts@.len(),
            parts@.len() == s.len(),
            forall|j: int| 0 <= j < parts@.len() ==> (#[trigger] parts@[j])@ == s[j],
            segments_problem(s, 0) == segments_problem(s, k as int),
            s == text::split(slashed(raw@), '/'),
            raw@.len() > 0 && raw@[0] != '/' && raw@[0] != '\\',
            !(raw@.len() >= 2 && is_letter(raw@[0]) && raw@[1] == ':'),
        decreases parts@.len() - k,
    {
        let part = crate::text::string_of(&parts[k]);
        if parts[k].len() == 0 || same(part.as_str(), "..") {
            return Err(RojoProblem::Segment);
        }
        if holds(&parts[k], ':') {
            return Err(RojoProblem::Colon);
        }
        k += 1;
    }
    let mut out: Vec<String> = Vec::new();
    let mut n: usize = 0;
    proof {
        assert(crate::disk_index::texts(out@) =~= targets(s, 0));
    }
    while n < parts.len()
        invariant
            n <= parts@.len(),
            parts@.len() == s.len(),
            forall|j: int| 0 <= j < parts@.len() ==> (#[trigger] parts@[j])@ == s[j],
            crate::disk_index::texts(out@) == targets(s, n as int),
        decreases parts@.len() - n,
    {
        let part = crate::text::string_of(&parts[n]);
        if !same(part.as_str(), ".") {
            let ghost before = out@;
            out.push(part);
            proof {
                assert(crate::disk_index::texts(out@) =~= crate::disk_index::texts(before).push(
                    s[n as int],
                ));
            }
        }
        n += 1;
    }
    proof {
        assert(crate::disk_index::texts(out@).len() == out@.len());
    }
    if out.len() == 0 {
        return Err(RojoProblem::NoTarget);
    }
    Ok(out)
}

/// Starts a walk from a package directory to the target of a Rojo `$path`.
pub fn resolve_rojo_path_no_follow(raw: &str, allow_missing_tail: bool) -> (r: Result<
    PathWalk,
    RojoProblem,
>)
    ensures
        match r {
            Err(p) => rojo_path(raw@) == Err::<Seq<Seq<char>>, RojoProblem>(p),
            Ok(w) => {
                &&& rojo_path(raw@) == Ok::<Seq<Seq<char>>, RojoProblem>(
                    crate::disk_index::texts(w.components@),
                )
                &&& w.at == 0 && !w.missing && !w.synced && w.allow_missing_tail
                    == allow_missing_tail
                &&& w.wf()
            },
        },
{
    match parse_rojo_relative_path(raw) {
        Err(p) => Err(p),
        Ok(components) => {
            proof {
                lemma_normal_from(components@, 0);
                assert forall|i: int| 0 <= i < components@.len() implies is_normal(
                    #[trigger] components@[i]@,
                ) by {
                    law_rojo_path_stays_inside(raw@, i);
                    assert(crate::disk_index::texts(components@)[i] == components@[i]@);
                }
            }
            match validate_descendant_no_follow(components, allow_missing_tail) {
                Ok(walk) => Ok(walk),
                Err(_) => Err(RojoProblem::Segment),
            }
        },
    }
}

/// No component of an accepted `$path` is empty, leads to the parent, or holds
/// a separator or a colon.
pub proof fn law_rojo_path_stays_inside(raw: Seq<char>, k: int)
    requires
        rojo_path(raw) is Ok,
        0 <= k < rojo_path(raw)->Ok_0.len(),
    ensures
        ({
            let part = rojo_path(raw)->Ok_0[k];
            &&& part.len() > 0
            &&& part != ".."@
            &&& part != "."@
            &&& !part.contains(':')
            &&& !part.contains('/')
            &&& !part.contains('\\')
        }),
{
    let parts = text::split(slashed(raw), '/');
    lemma_targets(parts, parts.len() as int, k);
    let j = choose|j: int|
        0 <= j < parts.len() && targets(parts, parts.len() as int)[k] == #[trigger] parts[j]
            && parts[j] != "."@;
    lemma_segments_clean(parts, 0, j);
    lemma_split_clean(slashed(raw), '/', '\\', j);
}

proof fn lemma_targets(s: Seq<Seq<char>>, n: int, k: int)
    requires
        0 <= n <= s.len(),
        0 <= k < targets(s, n).len(),
    ensures
        exists|j: int| 0 <= j < n && targets(s, n)[k] == #[trigger] s[j] && s[j] != "."@,
    decreases n,
{
    if n > 0 {
        if s[n - 1] == "."@ {
            lemma_targets(s, n - 1, k);
        } else if k < targets(s, n - 1).len() {
            lemma_targets(s, n - 1, k);
        } else {
            assert(targets(s, n)[k] == s[n - 1]);
        }
    }
}

proof fn lemma_segments_clean(s: Seq<Seq<char>>, k: int, j: int)
    requires
        segments_problem(s, k) is None,
        0 <= k <= j < s.len(),
    ensures
        s[j].len() > 0,
        s[j] != ".."@,
        !s[j].contains(':'),
    decreases j - k,
{
    if k < j {
        lemma_segments_clean(s, k + 1, j);
    }
}

proof fn lemma_split_clean(s: Seq<char>, sep: char, other: char, j: int)
    requires
        0 <= j < text::split(s, sep).len(),
    ensures
        !text::split(s, sep)[j].contains(sep),
        !s.contains(other) ==> !text::split(s, sep)[j].contains(other),
    decreases s.len(),
{
    let at = text::first_index(s, sep);
    text::lemma_first_index(s, sep);
    if at < s.len() {
        let head = s.take(at);
        let rest = s.skip(at + 1);
        assert forall|c: char| head.contains(c) implies s.contains(c) && c != sep by {
            let i = choose|i: int| 0 <= i < head.len() && head[i] == c;
            assert(s[i] == c);
        }
        assert forall|c: char| rest.contains(c) implies s.contains(c) by {
            let i = choose|i: int| 0 <= i < rest.len() && rest[i] == c;
            assert(s[i + at + 1] == c);
        }
        if j > 0 {
            lemma_split_clean(rest, sep, other, j - 1);
        }
    } else {
        assert forall|i: int| 0 <= i < s.len() implies s[i] != sep by {}
    }
}

/// The identities of the directories from a trusted base to a target's parent.
/// They are verified right before and after the target is read or changed.
#[derive(Debug)]
pub struct PathParentGuard {
    pub parents: Vec<(String, FileIdentity)>,
}

/// Why a guard does not hold.
#[derive(Debug, Clone, Copy, PartialEq, Eq, Structural)]
pub enum GuardProblem {
    Object { parent: usize, problem: ObjectProblem },
    /// Another directory stands at the parent's path.
    Replaced(usize),
}

/// What is wrong with the guarded parents from `k` on.
pub open spec fn guard_problem(
    parents: Seq<(String, FileIdentity)>,
    seen: Seq<Option<Observed>>,
    k: int,
) -> Option<GuardProblem>
    decreases parents.len() - k,
{
    if k < 0 || k >= parents.len() {
        None
    } else {
        match generation_problem(seen[k], ObjectKind::Directory, ObjectProblem::NotADirectory) {
            Some(problem) => Some(GuardProblem::Object { parent: k as usize, problem }),
            None => if seen[k]->0.generation.identity != parents[k].1 {
                Some(GuardProblem::Replaced(k as usize))
            } else {
                guard_problem(parents, seen, k + 1)
            },
        }
    }
}

impl PathParentGuard {
    /// Holds the parents against what stands at their paths now.
    pub fn verify(&self, seen: &[Option<Observed>]) -> (r: Result<(), GuardProblem>)
        requires
            seen@.len() == self.parents@.len(),
        ensures
            match r {
                Err(p) => guard_problem(self.parents@, seen@, 0) == Some(p),
                Ok(()) => guard_problem(self.parents@, seen@, 0) is None,
            },
    {
        let mut k: usize = 0;
        while k < self.parents.len()
            invariant
                k <= self.parents@.len(),
                seen@.len() == self.parents@.len(),
                guard_problem(self.parents@, seen@, 0) == guard_problem(
                    self.parents@,
                    seen@,
                    k as int,
                ),
            decreases self.parents@.len() - k,
        {
            match directory_generation_no_follow(seen[k]) {
                Err(problem) => return Err(GuardProblem::Object { parent: k, problem }),
                Ok(generation) => {
                    if !same_identity(&generation.identity, &self.parents[k].1) {
                        return Err(GuardProblem::Replaced(k));
                    }
                },
            }
            k += 1;
        }
        Ok(())
    }
}

/// A guard that holds is one whose every parent is the same physical directory
/// as when the guard was made.
pub proof fn law_guard_means_same_directories(
    parents: Seq<(String, FileIdentity)>,
    seen: Seq<Option<Observed>>,
    k: int,
)
    requires
        seen.len() == parents.len(),
        guard_problem(parents, seen, 0) is None,
        0 <= k < parents.len(),
    ensures
        seen[k] matches Some(o) && o.kind == ObjectKind::Directory && o.generation.identity
            == parents[k].1,
{
    lemma_guard_from(parents, seen, 0, k);
}

proof fn lemma_guard_from(
    parents: Seq<(String, FileIdentity)>,
    seen: Seq<Option<Observed>>,
    j: int,
    k: int,
)
    requires
        guard_problem(parents, seen, j) is None,
        0 <= j <= k < parents.len(),
    ensures
        seen[k] matches Some(o) && o.kind == ObjectKind::Directory && o.generation.identity
            == parents[k].1,
    decreases k - j,
{
    if j < k {
        lemma_guard_from(parents, seen, j + 1, k);
    }
}

/// The collecting of a guard, one directory at a time, on a path that is walked
/// with the same care as one that is read.
#[derive(Debug)]
pub struct GuardWalk {
    pub guard: PathParentGuard,
    pub walk: PathWalk,
    /// How many of the components are guarded.
    pub count: usize,
    /// The path of the directory to read next.
    pub current: String,
}

fn start_guard(base: String, identity: FileIdentity, walk: PathWalk, count: usize) -> (w: GuardWalk)
    requires
        walk.wf(),
        walk.at == 0,
        !walk.missing,
        count <= walk.components@.len() <= count + 1,
    ensures
        w.starts(base@, identity, walk, count as int),
{
    let mut parents: Vec<(String, FileIdentity)> = Vec::new();
    parents.push((owned(base.as_str()), identity));
    GuardWalk { guard: PathParentGuard { parents }, walk, count, current: base }
}

fn parent_count(walk: &PathWalk) -> (n: usize)
    ensures
        n == parents_of(walk.components@),
{
    if walk.components.len() == 0 {
        0
    } else {
        walk.components.len() - 1
    }
}

/// How many components of a path are parents of its target.
pub open spec fn parents_of(components: Seq<String>) -> int {
    if components.len() == 0 {
        0
    } else {
        components.len() - 1
    }
}

/// Starts to guard the parents of a target below a base.
pub fn guard_descendant_parent_chain(
    base: String,
    identity: FileIdentity,
    components: Vec<String>,
    allow_missing_tail: bool,
) -> (r: Result<GuardWalk, WalkProblem>)
    ensures
        match abnormal_from(components@, 0) {
            Some(k) => r matches Err(p) && p == WalkProblem::Component(k),
            None => r matches Ok(w) && w.starts(
                base@,
                identity,
                PathWalk { components, at: 0, missing: false, allow_missing_tail, synced: false },
                parents_of(components@),
            ),
        },
{
    match validate_descendant_no_follow(components, allow_missing_tail) {
        Err(p) => Err(p),
        Ok(walk) => {
            let count: usize = parent_count(&walk);
            Ok(start_guard(base, identity, walk, count))
        },
    }
}

/// Starts to guard a directory below a base, itself among the guarded.
pub fn guard_descendant_directory_chain(
    base: String,
    identity: FileIdentity,
    components: Vec<String>,
) -> (r: Result<GuardWalk, WalkProblem>)
    ensures
        match abnormal_from(components@, 0) {
            Some(k) => r matches Err(p) && p == WalkProblem::Component(k),
            None => r matches Ok(w) && w.starts(
                base@,
                identity,
                PathWalk {
                    components,
                    at: 0,
                    missing: false,
                    allow_missing_tail: false,
                    synced: false,
                },
                components@.len() as int,
            ),
        },
{
    match validate_descendant_no_follow(components, false) {
        Err(p) => Err(p),
        Ok(walk) => {
            let count: usize = walk.components.len();
            Ok(start_guard(base, identity, walk, count))
        },
    }
}

/// Starts to guard the parents of a target below a service.
pub fn guard_synced_parent_chain(
    root: String,
    identity: FileIdentity,
    components: Vec<String>,
    allow_missing_tail: bool,
) -> (r: Result<GuardWalk, WalkProblem>)
    ensures
        match synced_problem(components@) {
            Some(p) => r matches Err(q) && q == p,
            None => r matches Ok(w) && w.starts(
                root@,
                identity,
                PathWalk { components, at: 0, missing: false, allow_missing_tail, synced: true },
                parents_of(components@),
            ),
        },
{
    match validate_synced_path(components, allow_missing_tail) {
        Err(p) => Err(p),
        Ok(walk) => {
            let count: usize = parent_count(&walk);
            Ok(start_guard(root, identity, walk, count))
        },
    }
}

/// Starts to guard a directory of a service, itself among the guarded.
pub fn guard_synced_directory_chain(
    root: String,
    identity: FileIdentity,
    components: Vec<String>,
) -> (r: Result<GuardWalk, WalkProblem>)
    ensures
        match synced_problem(components@) {
            Some(p) => r matches Err(q) && q == p,
            None => r matches Ok(w) && w.starts(
                root@,
                identity,
                PathWalk {
                    components,
                    at: 0,
                    missing: false,
                    allow_missing_tail: false,
                    synced: true,
                },
                components@.len() as int,
            ),
        },
{
    match validate_synced_path(components, false) {
        Err(p) => Err(p),
        Ok(walk) => {
            let count: usize = walk.components.len();
            Ok(start_guard(root, identity, walk, count))
        },
    }
}

/// A path and one more component.
pub open spec fn below(directory: Seq<char>, fragment: Seq<char>) -> Seq<char> {
    directory + "/"@ + fragment
}

pub fn join_path(directory: &str, fragment: &str) -> (out: String)
    ensures
        out@ == below(directory@, fragment@),
{
    let mut out = owned(directory);
    crate::text::append(&mut out, "/");
    crate::text::append(&mut out, fragment);
    out
}

impl GuardWalk {
    pub open spec fn wf(&self) -> bool {
        &&& self.walk.wf()
        &&& self.count <= self.walk.components@.len()
        &&& self.guard.parents@.len() == 1 + (if self.walk.at <= self.count {
            self.walk.at
        } else {
            self.count
        })
    }

    /// Whether the guard is one that holds a base alone.
    pub open spec fn starts(
        &self,
        base: Seq<char>,
        identity: FileIdentity,
        walk: PathWalk,
        count: int,
    ) -> bool {
        &&& self.wf()
        &&& self.guard.parents@.len() == 1 && self.guard.parents@[0].0@ == base
            && self.guard.parents@[0].1 == identity
        &&& self.walk == walk
        &&& self.count == count
        &&& self.current@ == base
    }

    /// How the current directory must be read; nothing where the guard is
    /// complete.
    pub fn wants(&self) -> (r: Option<DirectoryPolicy>)
        ensures
            r == self.walk.wanted(),
    {
        self.walk.wants()
    }

    /// Goes on with the reading of the current directory. A component that is
    /// guarded must be a directory.
    #[verifier::rlimit(40)]
    #[verifier::spinoff_prover]
    pub fn step(&mut self, index: &PortableDirectoryIndex) -> (r: Result<(), WalkProblem>)
        requires
            old(self).wf(),
            old(self).walk.wanted() is Some,
        ensures
            final(self).wf(),
            final(self).count == old(self).count,
            ({
                let at = old(self).walk.at;
                let fragment = old(self).walk.components@[at as int]@;
                let place = exact_place(index@.entries, fragment);
                match old(self).walk.step_of(index@) {
                    Err(p) => r == Err::<(), WalkProblem>(p) && *final(self) == *old(self),
                    Ok(false) => {
                        &&& r is Ok
                        &&& *final(self) == (GuardWalk {
                            walk: PathWalk { missing: true, ..old(self).walk },
                            ..*old(self)
                        })
                    },
                    Ok(true) => if at >= old(self).count {
                        &&& r is Ok
                        &&& *final(self) == (GuardWalk {
                            walk: PathWalk { at: (at + 1) as usize, ..old(self).walk },
                            ..*old(self)
                        })
                    } else if index@.entries[place->0 as int].kind != SafeEntryKind::Directory {
                        &&& r == Err::<(), WalkProblem>(WalkProblem::NotADirectory(at))
                        &&& *final(self) == *old(self)
                    } else {
                        let parents = final(self).guard.parents@;
                        &&& r is Ok
                        &&& final(self).walk == (PathWalk {
                            at: (at + 1) as usize,
                            ..old(self).walk
                        })
                        &&& final(self).current@ == below(old(self).current@, fragment)
                        &&& parents.len() == old(self).guard.parents@.len() + 1
                        &&& parents.drop_last() == old(self).guard.parents@
                        &&& parents.last().0@ == final(self).current@
                        &&& parents.last().1 == index@.entries[place->0 as int].generation.identity
                    },
                }
            }),
    {
        let at: usize = self.walk.at;
        let total: usize = self.walk.components.len();
        assert(at < total);
        let ghost start = *self;
        let fragment = owned(self.walk.components[at].as_str());
        let place: Option<usize> = index.exact(fragment.as_str());
        let mut next = owned(self.current.as_str());
        if at < self.count {
            if let Some(k) = place {
                let linked = !self.walk.synced && index.exact_link(fragment.as_str());
                if !linked && index.entries[k].kind != SafeEntryKind::Directory {
                    return Err(WalkProblem::NotADirectory(at));
                }
            }
        }
        match self.walk.step(index) {
            Err(p) => return Err(p),
            Ok(()) => {},
        }
        if at < self.count {
            if let Some(k) = place {
                crate::text::append(&mut next, "/");
                crate::text::append(&mut next, fragment.as_str());
                self.guard.parents.push(
                    (owned(next.as_str()), index.entries[k].generation.identity),
                );
                proof {
                    assert(self.guard.parents@.drop_last() =~= start.guard.parents@);
                    assert(next@ =~= below(start.current@, fragment@));
                }
                self.current = next;
            }
        }
        proof {
            assert(self.walk.at == at || self.walk.at == at + 1);
        }
        Ok(())
    }
}

/// Where no missing tail is allowed, a component that is missing, linked or met
/// under another case stops the guard: one that is complete holds the whole
/// path, and each guarded component is a directory.
pub proof fn law_directory_guard_is_whole(w: GuardWalk)
    requires
        w.wf(),
        w.walk.wanted() is None,
        !w.walk.missing,
    ensures
        w.guard.parents@.len() == w.count + 1,
        w.walk.at == w.walk.components@.len(),
{
}

/// A step that goes on without a missing tail met the exact entry of a component,
/// which is a directory where it is guarded.
pub proof fn law_guard_enters_only_exact_directories(w: GuardWalk, index: IndexModel)
    requires
        w.wf(),
        w.walk.wanted() is Some,
        !w.walk.allow_missing_tail,
        w.walk.step_of(index) is Ok,
    ensures
        exact_place(index.entries, w.walk.components@[w.walk.at as int]@) is Some,
        w.walk.step_of(index) == Ok::<bool, WalkProblem>(true),
{
}

#[derive(Debug)]
pub struct SafeTreeEntry {
    pub path: String,
    pub relative: String,
    pub kind: SafeEntryKind,
    pub generation: FileGeneration,
}

#[verifier::ext_equal]
pub struct TreeEntryModel {
    pub path: Seq<char>,
    pub relative: Seq<char>,
    pub kind: SafeEntryKind,
    pub generation: FileGeneration,
}

impl SafeTreeEntry {
    pub open spec fn view(&self) -> TreeEntryModel {
        TreeEntryModel {
            path: self.path@,
            relative: self.relative@,
            kind: self.kind,
            generation: self.generation,
        }
    }
}

pub open spec fn tree_entries(v: Seq<SafeTreeEntry>) -> Seq<TreeEntryModel> {
    Seq::new(v.len(), |i: int| v[i]@)
}

/// A whole service at one moment.
#[derive(Debug)]
pub struct TreeGeneration {
    pub service: String,
    pub present: bool,
    pub root_generation: Option<FileGeneration>,
    pub entries: Vec<SafeTreeEntry>,
}

#[verifier::ext_equal]
pub struct TreeModel {
    pub service: Seq<char>,
    pub present: bool,
    pub root_generation: Option<FileGeneration>,
    pub entries: Seq<TreeEntryModel>,
}

impl TreeGeneration {
    pub open spec fn view(&self) -> TreeModel {
        TreeModel {
            service: self.service@,
            present: self.present,
            root_generation: self.root_generation,
            entries: tree_entries(self.entries@),
        }
    }

    pub fn entries(&self) -> (r: &[SafeTreeEntry])
        ensures
            r@ == self.entries@,
    {
        self.entries.as_slice()
    }

    /// Whether the service is as it was.
    pub fn same(&self, other: &TreeGeneration) -> (r: bool)
        ensures
            r == (self@ == other@),
    {
        let roots = match (&self.root_generation, &other.root_generation) {
            (Some(a), Some(b)) => same_generation(a, b),
            (None, None) => true,
            _ => false,
        };
        if !same(self.service.as_str(), other.service.as_str()) || self.present != other.present
            || !roots || self.entries.len() != other.entries.len() {
            proof {
                assert(tree_entries(self.entries@).len() == self.entries@.len());
                assert(tree_entries(other.entries@).len() == other.entries@.len());
            }
            return false;
        }
        let mut k: usize = 0;
        while k < self.entries.len()
            invariant
                k <= self.entries@.len(),
                self.entries@.len() == other.entries@.len(),
                forall|j: int| 0 <= j < k ==> (#[trigger] self.entries@[j])@ == other.entries@[j]@,
            decreases self.entries@.len() - k,
        {
            let a = &self.entries[k];
            let b = &other.entries[k];
            if !same(a.path.as_str(), b.path.as_str()) || !same(
                a.relative.as_str(),
                b.relative.as_str(),
            ) || a.kind != b.kind || !same_generation(&a.generation, &b.generation) {
                proof {
                    assert(tree_entries(self.entries@)[k as int] == a@);
                    assert(tree_entries(other.entries@)[k as int] == b@);
                }
                return false;
            }
            k += 1;
        }
        proof {
            assert(tree_entries(self.entries@) =~= tree_entries(other.entries@));
        }
        true
    }
}

/// The generation of a service that is not there.
pub fn absent_generation(service: &str) -> (t: TreeGeneration)
    ensures
        t@ == (TreeModel {
            service: service@,
            present: false,
            root_generation: None,
            entries: Seq::empty(),
        }),
{
    let t = TreeGeneration {
        service: owned(service),
        present: false,
        root_generation: None,
        entries: Vec::new(),
    };
    proof {
        assert(t@.entries =~= Seq::<TreeEntryModel>::empty());
    }
    t
}

/// A directory that is still to be read.
#[derive(Debug)]
pub struct OpenDirectory {
    pub path: String,
    pub relative: String,
    pub depth: usize,
}

#[verifier::ext_equal]
pub struct OpenModel {
    pub path: Seq<char>,
    pub relative: Seq<char>,
    pub depth: int,
}

impl OpenDirectory {
    pub open spec fn view(&self) -> OpenModel {
        OpenModel { path: self.path@, relative: self.relative@, depth: self.depth as int }
    }
}

pub open spec fn open_models(v: Seq<OpenDirectory>) -> Seq<OpenModel> {
    Seq::new(v.len(), |i: int| v[i]@)
}

/// Why a service is not captured.
#[derive(Debug, Clone, Copy, PartialEq, Eq, Structural)]
pub enum TreeProblem {
    TooDeep,
    TooManyNodes,
}

/// The capture of a whole service, one directory at a time.
#[derive(Debug)]
pub struct TreeWalk {
    pub service: String,
    pub root: FileGeneration,
    pub entries: Vec<SafeTreeEntry>,
    pub stack: Vec<OpenDirectory>,
}

pub open spec fn relative_below(relative: Seq<char>, fragment: Seq<char>) -> Seq<char> {
    if relative.len() == 0 {
        fragment
    } else {
        below(relative, fragment)
    }
}

fn join_relative(relative: &str, fragment: &str) -> (out: String)
    ensures
        out@ == relative_below(relative@, fragment@),
{
    let chars = chars_of(relative);
    if chars.len() == 0 {
        owned(fragment)
    } else {
        join_path(relative, fragment)
    }
}

/// The captured entries of one directory.
pub open spec fn captured(d: OpenModel, entries: Seq<EntryModel>) -> Seq<TreeEntryModel> {
    Seq::new(
        entries.len(),
        |i: int|
            TreeEntryModel {
                path: below(d.path, entries[i].fragment),
                relative: relative_below(d.relative, entries[i].fragment),
                kind: entries[i].kind,
                generation: entries[i].generation,
            },
    )
}

/// The directories among the first `n` entries, the first one last.
pub open spec fn opened(d: OpenModel, entries: Seq<EntryModel>, k: int) -> Seq<OpenModel>
    decreases entries.len() - k,
{
    if k < 0 || k >= entries.len() {
        Seq::empty()
    } else {
        let rest = opened(d, entries, k + 1);
        if entries[k].kind == SafeEntryKind::Directory {
            rest.push(
                OpenModel {
                    path: below(d.path, entries[k].fragment),
                    relative: relative_below(d.relative, entries[k].fragment),
                    depth: d.depth + 1,
                },
            )
        } else {
            rest
        }
    }
}

/// What a capture has listed, and what it has still to read.
#[verifier::ext_equal]
pub struct WalkModel {
    pub entries: Seq<TreeEntryModel>,
    pub stack: Seq<OpenModel>,
}

impl WalkModel {
    /// The capture after the next directory was read.
    pub open spec fn visited(self, found: Seq<EntryModel>) -> WalkModel {
        let d = self.stack.last();
        WalkModel {
            entries: self.entries + captured(d, found),
            stack: self.stack.drop_last() + opened(d, found, 0),
        }
    }
}

/// A capture of which nothing was read yet.
pub open spec fn fresh_walk(path: Seq<char>) -> WalkModel {
    WalkModel {
        entries: Seq::empty(),
        stack: seq![OpenModel { path, relative: Seq::empty(), depth: 0 }],
    }
}

/// Starts to capture a service whose root directory was seen.
pub fn capture_tree_metadata(service: &str, path: String, root: FileGeneration) -> (w: TreeWalk)
    ensures
        w.service@ == service@,
        w.root == root,
        w@ == fresh_walk(path@),
        w.wf(),
{
    let ghost whole = path@;
    let mut stack: Vec<OpenDirectory> = Vec::new();
    stack.push(OpenDirectory { path, relative: String::new(), depth: 0 });
    proof {
        assert(open_models(stack@) =~= seq![
            OpenModel { path: whole, relative: Seq::empty(), depth: 0 },
        ]);
    }
    let w = TreeWalk { service: owned(service), root, entries: Vec::new(), stack };
    proof {
        assert(w@ =~= fresh_walk(whole));
    }
    w
}

impl TreeWalk {
    pub open spec fn view(&self) -> WalkModel {
        WalkModel { entries: tree_entries(self.entries@), stack: open_models(self.stack@) }
    }

    pub open spec fn wf(&self) -> bool {
        &&& self.entries@.len() <= MAX_SERVICE_TREE_NODES
        &&& forall|i: int|
            0 <= i < self.stack@.len() ==> (#[trigger] self.stack@[i]).depth
                <= MAX_SERVICE_TREE_DEPTH + 1
    }

    /// The directory to read next, or why it may not be read.
    pub fn next(&self) -> (r: Result<Option<&OpenDirectory>, TreeProblem>)
        ensures
            match r {
                Ok(None) => self.stack@.len() == 0,
                Ok(Some(d)) => self.stack@.len() > 0 && *d == self.stack@.last() && d.depth
                    <= MAX_SERVICE_TREE_DEPTH,
                Err(p) => p == TreeProblem::TooDeep && self.stack@.len() > 0
                    && self.stack@.last().depth > MAX_SERVICE_TREE_DEPTH,
            },
    {
        let n: usize = self.stack.len();
        if n == 0 {
            return Ok(None);
        }
        let d = &self.stack[n - 1];
        if d.depth > MAX_SERVICE_TREE_DEPTH {
            return Err(TreeProblem::TooDeep);
        }
        Ok(Some(d))
    }

    /// Takes the reading of that directory.
    pub fn visit(&mut self, index: &PortableDirectoryIndex) -> (r: Result<(), TreeProblem>)
        requires
            old(self).wf(),
            old(self).stack@.len() > 0,
            old(self).stack@.last().depth <= MAX_SERVICE_TREE_DEPTH,
        ensures
            final(self).wf(),
            final(self).service == old(self).service,
            final(self).root == old(self).root,
            if old(self)@.visited(index@.entries).entries.len() > MAX_SERVICE_TREE_NODES {
                r == Err::<(), TreeProblem>(TreeProblem::TooManyNodes)
            } else {
                r is Ok && final(self)@ == old(self)@.visited(index@.entries)
            },
    {
        let ghost before = self.entries@;
        let ghost stack_before = open_models(self.stack@);
        let directory = match self.stack.pop() {
            None => return Ok(()),
            Some(directory) => directory,
        };
        let ghost d = directory@;
        let ghost found = index@.entries;
        proof {
            assert(d == stack_before.last());
            assert(open_models(self.stack@) =~= stack_before.drop_last());
        }
        let ghost rest = self.stack@;
        let n: usize = index.entries.len();
        let mut k: usize = 0;
        proof {
            assert(tree_entries(self.entries@) =~= tree_entries(before) + captured(d, found).take(0));
        }
        while k < n
            invariant
                k <= n,
                n == index.entries@.len(),
                found == index@.entries,
                d == directory@,
                self.service == old(self).service,
                self.root == old(self).root,
                self.stack@ == rest,
                forall|i: int|
                    0 <= i < rest.len() ==> (#[trigger] rest[i]).depth <= MAX_SERVICE_TREE_DEPTH + 1,
                self.entries@.len() <= MAX_SERVICE_TREE_NODES,
                self.entries@.len() == before.len() + k,
                stack_before == open_models(old(self).stack@),
                tree_entries(self.entries@) == tree_entries(before) + captured(d, found).take(
                    k as int,
                ),
                before == old(self).entries@,
                d == open_models(old(self).stack@).last(),
            decreases n - k,
        {
            if self.entries.len() >= MAX_SERVICE_TREE_NODES {
                return Err(TreeProblem::TooManyNodes);
            }
            let e = &index.entries[k];
            let ghost so_far = self.entries@;
            self.entries.push(
                SafeTreeEntry {
                    path: join_path(directory.path.as_str(), e.fragment.as_str()),
                    relative: join_relative(directory.relative.as_str(), e.fragment.as_str()),
                    kind: e.kind,
                    generation: e.generation,
                },
            );
            proof {
                assert(tree_entries(self.entries@) =~= tree_entries(so_far).push(
                    self.entries@.last()@,
                ));
                assert(captured(d, found).take(k + 1) =~= captured(d, found).take(k as int).push(
                    captured(d, found)[k as int],
                ));
                assert(tree_entries(self.entries@) =~= tree_entries(before) + captured(
                    d,
                    found,
                ).take(k + 1));
            }
            k += 1;
        }
        proof {
            assert(captured(d, found).take(n as int) =~= captured(d, found));
        }
        let mut j: usize = n;
        proof {
            assert(opened(d, found, n as int) =~= Seq::<OpenModel>::empty());
            assert(open_models(self.stack@) =~= open_models(rest) + opened(d, found, n as int));
        }
        while j > 0
            invariant
                j <= n,
                n == index.entries@.len(),
                found == index@.entries,
                d == directory@,
                d == stack_before.last(),
                stack_before == open_models(old(self).stack@),
                before == old(self).entries@,
                open_models(rest) == stack_before.drop_last(),
                d.depth <= MAX_SERVICE_TREE_DEPTH,
                self.service == old(self).service,
                self.root == old(self).root,
                self.entries@.len() <= MAX_SERVICE_TREE_NODES,
                tree_entries(self.entries@) == tree_entries(before) + captured(d, found),
                forall|i: int|
                    0 <= i < self.stack@.len() ==> (#[trigger] self.stack@[i]).depth
                        <= MAX_SERVICE_TREE_DEPTH + 1,
                open_models(self.stack@) == open_models(rest) + opened(d, found, j as int),
            decreases j,
        {
            j -= 1;
            let e = &index.entries[j];
            if e.kind == SafeEntryKind::Directory {
                let ghost so_far = self.stack@;
                self.stack.push(
                    OpenDirectory {
                        path: join_path(directory.path.as_str(), e.fragment.as_str()),
                        relative: join_relative(directory.relative.as_str(), e.fragment.as_str()),
                        depth: directory.depth + 1,
                    },
                );
                proof {
                    assert(open_models(self.stack@) =~= open_models(so_far).push(
                        self.stack@.last()@,
                    ));
                    assert(open_models(self.stack@) =~= open_models(rest) + opened(
                        d,
                        found,
                        j as int,
                    ));
                }
            }
        }
        Ok(())
    }

    /// The captured service, its entries in the order of their relative paths.
    pub fn finish(self) -> (t: TreeGeneration)
        ensures
            t@ == (TreeModel {
                service: self.service@,
                present: true,
                root_generation: Some(self.root),
                entries: by_relative(self@.entries),
            }),
    {
        let found = self.entries;
        let ghost whole = tree_entries(found@);
        let mut rows: Vec<Row> = Vec::new();
        let mut i: usize = 0;
        while i < found.len()
            invariant
                i <= found@.len(),
                rows@.len() == i,
                whole == tree_entries(found@),
                forall|j: int|
                    0 <= j < i ==> (#[trigger] rows@[j])@ == relative_rows(whole)[j],
            decreases found@.len() - i,
        {
            rows.push(relative_row(found[i].relative.as_str()));
            i += 1;
        }
        proof {
            assert(ranking::models(rows@) =~= relative_rows(whole));
        }
        let order = rank(&rows);
        let ghost r = ranking::ranking(relative_rows(whole));
        let mut entries: Vec<SafeTreeEntry> = Vec::new();
        let mut k: usize = 0;
        while k < order.len()
            invariant
                k <= order@.len(),
                entries@.len() == k,
                order@.len() == r.len(),
                r.len() == found@.len(),
                whole == tree_entries(found@),
                forall|j: int| 0 <= j < order@.len() ==> (#[trigger] order@[j]) as int == r[j],
                forall|j: int| 0 <= j < order@.len() ==> (#[trigger] order@[j]) < found@.len(),
                forall|j: int| 0 <= j < k ==> (#[trigger] entries@[j])@ == whole[r[j]],
            decreases order@.len() - k,
        {
            let e = &found[order[k]];
            entries.push(
                SafeTreeEntry {
                    path: owned(e.path.as_str()),
                    relative: owned(e.relative.as_str()),
                    kind: e.kind,
                    generation: e.generation,
                },
            );
            k += 1;
        }
        proof {
            assert(tree_entries(entries@) =~= by_relative(whole));
        }
        TreeGeneration {
            service: self.service,
            present: true,
            root_generation: Some(self.root),
            entries,
        }
    }
}

/// The bytes by which a path is ordered component by component: no other byte
/// of a path comes before its separator.
pub open spec fn component_key(b: Seq<u8>) -> Seq<u8> {
    Seq::new(
        b.len(),
        |i: int|
            if b[i] == 47 {
                0u8
            } else {
                b[i]
            },
    )
}

pub open spec fn relative_rows(s: Seq<TreeEntryModel>) -> Seq<ranking::RowModel> {
    Seq::new(
        s.len(),
        |i: int|
            ranking::RowModel {
                key: component_key(encode_utf8(s[i].relative)),
                content: Seq::empty(),
            },
    )
}

pub open spec fn by_relative(s: Seq<TreeEntryModel>) -> Seq<TreeEntryModel> {
    let order = ranking::ranking(relative_rows(s));
    Seq::new(order.len(), |i: int| s[order[i]])
}

fn relative_row(relative: &str) -> (row: Row)
    ensures
        row@ == (ranking::RowModel {
            key: component_key(encode_utf8(relative@)),
            content: Seq::empty(),
        }),
{
    let bytes = relative.as_bytes();
    let mut key: Vec<u8> = Vec::new();
    let mut i: usize = 0;
    while i < bytes.len()
        invariant
            i <= bytes@.len(),
            key@ == component_key(bytes@).take(i as int),
        decreases bytes@.len() - i,
    {
        proof {
            assert(component_key(bytes@).take(i + 1) =~= component_key(bytes@).take(i as int).push(
                component_key(bytes@)[i as int],
            ));
        }
        let b: u8 = bytes[i];
        key.push(
            if b == 47 {
                0
            } else {
                b
            },
        );
        i += 1;
    }
    proof {
        assert(component_key(bytes@).take(i as int) =~= component_key(bytes@));
    }
    let row = Row { key, content: Vec::new() };
    proof {
        assert(row@.content =~= Seq::<u8>::empty());
    }
    row
}

/// What a parsed Rojo project says of its `tree.$path`: nothing where the text
/// is no JSON, else the text where there is one.
pub open spec fn rojo_target(project: Seq<char>) -> Option<Option<Seq<char>>> {
    match json::json_value(project, "/tree/$path"@) {
        None => None,
        Some(part) => Some(json::text_of(part)),
    }
}

fn read_rojo_target(project: &str) -> (r: Option<Option<String>>)
    ensures
        match r {
            None => rojo_target(project@) is None,
            Some(None) => rojo_target(project@) == Some(None::<Seq<char>>),
            Some(Some(path)) => rojo_target(project@) == Some(Some(path@)),
        },
{
    match json_at(project, "/tree/$path") {
        None => None,
        Some(None) => Some(None),
        Some(Some(part)) => Some(part.text),
    }
}

/// Why a Rojo project file is refused.
#[derive(Debug, Clone, Copy, PartialEq, Eq, Structural)]
pub enum RojoProjectProblem {
    TooLarge,
    NotJson,
    Path(RojoProblem),
}

/// What is to be done about the target of a parsed project: nothing, or a walk
/// to it.
pub open spec fn rojo_outcome(target: Option<Option<Seq<char>>>) -> Result<
    Option<Seq<Seq<char>>>,
    RojoProjectProblem,
> {
    match target {
        None => Err(RojoProjectProblem::NotJson),
        Some(None) => Ok(None),
        Some(Some(raw)) => match rojo_path(raw) {
            Err(p) => Err(RojoProjectProblem::Path(p)),
            Ok(components) => Ok(Some(components)),
        },
    }
}

/// The walk that a parsed project calls for.
pub fn rojo_walk(target: Option<Option<String>>) -> (r: Result<Option<PathWalk>, RojoProjectProblem>)
    ensures
        ({
            let view = match target {
                None => None,
                Some(None) => Some(None),
                Some(Some(t)) => Some(Some(t@)),
            };
            match r {
                Err(p) => rojo_outcome(view) == Err::<Option<Seq<Seq<char>>>, RojoProjectProblem>(
                    p,
                ),
                Ok(None) => rojo_outcome(view) == Ok::<
                    Option<Seq<Seq<char>>>,
                    RojoProjectProblem,
                >(None),
                Ok(Some(w)) => rojo_outcome(view) == Ok::<
                    Option<Seq<Seq<char>>>,
                    RojoProjectProblem,
                >(Some(crate::disk_index::texts(w.components@))) && w.at == 0 && !w.missing
                    && !w.synced && w.allow_missing_tail,
            }
        }),
{
    match target {
        None => Err(RojoProjectProblem::NotJson),
        Some(None) => Ok(None),
        Some(Some(raw)) => match resolve_rojo_path_no_follow(raw.as_str(), true) {
            Err(p) => Err(RojoProjectProblem::Path(p)),
            Ok(walk) => Ok(Some(walk)),
        },
    }
}

/// Checks a `default.project.json` of that length and text.
pub fn validate_rojo_project_file(len: u64, project: &str) -> (r: Result<
    Option<PathWalk>,
    RojoProjectProblem,
>)
    ensures
        if len > MAX_ROJO_PROJECT_BYTES {
            r == Err::<Option<PathWalk>, RojoProjectProblem>(RojoProjectProblem::TooLarge)
        } else {
            match r {
                Err(p) => rojo_outcome(rojo_target(project@)) == Err::<
                    Option<Seq<Seq<char>>>,
                    RojoProjectProblem,
                >(p),
                Ok(None) => rojo_outcome(rojo_target(project@)) == Ok::<
                    Option<Seq<Seq<char>>>,
                    RojoProjectProblem,
                >(None),
                Ok(Some(w)) => rojo_outcome(rojo_target(project@)) == Ok::<
                    Option<Seq<Seq<char>>>,
                    RojoProjectProblem,
                >(Some(crate::disk_index::texts(w.components@))) && w.at == 0 && !w.missing
                    && !w.synced && w.allow_missing_tail,
            }
        },
{
    if len > MAX_ROJO_PROJECT_BYTES {
        return Err(RojoProjectProblem::TooLarge);
    }
    rojo_walk(read_rojo_target(project))
}

/// The place of the project file that must be read in a directory; nothing where
/// the directory has none.
pub fn validate_rojo_project_in_index(index: &PortableDirectoryIndex) -> (r: Result<
    Option<usize>,
    RojoProjectProblem,
>)
    ensures
        ({
            let place = exact_place(index@.entries, "default.project.json"@);
            if place is Some && index.entries@[place->0 as int].generation.len
                > MAX_ROJO_PROJECT_BYTES {
                r == Err::<Option<usize>, RojoProjectProblem>(RojoProjectProblem::TooLarge)
            } else {
                r == Ok::<Option<usize>, RojoProjectProblem>(place)
            }
        }),
        r matches Ok(Some(k)) ==> k < index.entries@.len(),
{
    match index.exact("default.project.json") {
        None => Ok(None),
        Some(k) => if index.entries[k].generation.len > MAX_ROJO_PROJECT_BYTES {
            Err(RojoProjectProblem::TooLarge)
        } else {
            Ok(Some(k))
        },
    }
}

} // verus!
