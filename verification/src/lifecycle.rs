//! Where a daemon keeps its state, the record of a running daemon, and the
//! store of credentials.
//!
//! Paths are texts whose components are separated by slashes.
use vstd::prelude::*;
use vstd::string::*;
use vstd::utf8::*;

use crate::conflict;
use crate::decimal;
use crate::decimal::write_decimal;
use crate::hex;
use crate::text;
use crate::text::{append, chars_of, joined, owned, same, string_of};
use crate::text_map::TextMap;

verus! {

pub const RUNTIME_RECORD_VERSION: u32 = 1;

pub const MAX_CREDENTIAL_STORE_BYTES: u64 = 4_194_304;

/// The permissions of other users on a file.
pub const OTHER_USERS: u32 = 0x3f;

/// What a running daemon writes down of itself.
#[derive(Debug, Clone, PartialEq, Eq)]
pub struct RuntimeRecord {
    pub version: u32,
    pub project: String,
    pub canonical_project: String,
    pub pid: u32,
    pub port: u16,
    pub boot_id: String,
    pub control_token: String,
    pub managed_by: String,
    pub log_path: String,
    pub started_at: u64,
}

/// The files of the daemon of one project.
#[derive(Debug, Clone)]
pub struct RuntimePaths {
    pub record: String,
    pub start_lock: String,
    pub log: String,
}

/// A directory and what is in it. Nothing is put between them where the
/// directory ends in a slash or is empty.
pub open spec fn inside(directory: Seq<char>, name: Seq<char>) -> Seq<char> {
    if directory.len() == 0 || directory.last() == '/' {
        directory + name
    } else {
        directory + "/"@ + name
    }
}

pub fn join_inside(directory: &str, name: &str) -> (out: String)
    ensures
        out@ == inside(directory@, name@),
{
    let chars = chars_of(directory);
    let len: usize = chars.len();
    let mut out = owned(directory);
    if len > 0 && chars[len - 1] != '/' {
        append(&mut out, "/");
    }
    append(&mut out, name);
    out
}

/// The name under which the files of a project are kept: the digest of its
/// canonical path.
pub open spec fn key_text(canonical_project: Seq<char>) -> Seq<char> {
    hex::hex_text(conflict::sha256(encode_utf8(canonical_project)))
}

pub fn project_key(canonical_project: &str) -> (out: String)
    ensures
        out@ == key_text(canonical_project@),
{
    let digest = crate::conflict::hash(canonical_project.as_bytes());
    crate::hex::hex(&digest)
}

pub open spec fn daemon_file(state: Seq<char>, project: Seq<char>, suffix: Seq<char>) -> Seq<char> {
    inside(inside(state, "daemons"@), key_text(project) + suffix)
}

/// The files of the daemon of a project.
pub fn runtime_paths(state_dir: &str, canonical_project: &str) -> (r: RuntimePaths)
    ensures
        r.record@ == daemon_file(state_dir@, canonical_project@, ".json"@),
        r.start_lock@ == daemon_file(state_dir@, canonical_project@, ".start.lock"@),
        r.log@ == daemon_file(state_dir@, canonical_project@, ".log"@),
{
    let key = project_key(canonical_project);
    let directory = join_inside(state_dir, "daemons");
    RuntimePaths {
        record: join_inside(directory.as_str(), joined(key.as_str(), ".json").as_str()),
        start_lock: join_inside(directory.as_str(), joined(key.as_str(), ".start.lock").as_str()),
        log: join_inside(directory.as_str(), joined(key.as_str(), ".log").as_str()),
    }
}

/// The file of the credentials.
pub fn credentials_path(state_dir: &str) -> (out: String)
    ensures
        out@ == inside(state_dir@, "secrets.json"@),
{
    join_inside(state_dir, "secrets.json")
}

/// A path that was given by the user.
#[derive(Debug)]
pub struct GivenPath {
    pub text: String,
    pub absolute: bool,
}

/// What decides where the state is kept. The directories that the system does
/// not know are absent.
#[derive(Debug)]
pub struct StateEnvironment {
    pub explicit: Option<GivenPath>,
    /// `ROSYNC_STATE_DIR`.
    pub configured: Option<GivenPath>,
    pub current_dir: Option<String>,
    pub linux: bool,
    /// `XDG_STATE_HOME`.
    pub xdg_state: Option<String>,
    pub home: Option<String>,
    pub data_local: Option<String>,
}

/// Why the state has no place.
#[derive(Debug, Clone, Copy, PartialEq, Eq, Structural)]
pub enum StateDirProblem {
    NoCurrentDirectory,
    NoHome,
}

pub open spec fn absolute(given: GivenPath, current: Option<Seq<char>>) -> Result<
    Seq<char>,
    StateDirProblem,
> {
    if given.absolute {
        Ok(given.text@)
    } else {
        match current {
            Some(directory) => Ok(inside(directory, given.text@)),
            None => Err(StateDirProblem::NoCurrentDirectory),
        }
    }
}

pub open spec fn is_given(o: Option<Seq<char>>) -> bool {
    o is Some && o->0.len() > 0
}

/// Where the state is kept: where the user says, else where the system keeps
/// such things, else in the home directory.
pub open spec fn state_place(env: StateEnvironment) -> Result<Seq<char>, StateDirProblem> {
    let current = text::option_text(env.current_dir);
    let home = text::option_text(env.home);
    if env.explicit is Some {
        absolute(env.explicit->0, current)
    } else if env.configured is Some && env.configured->0.text@.len() > 0 {
        absolute(env.configured->0, current)
    } else if env.linux && is_given(text::option_text(env.xdg_state)) {
        Ok(inside(text::option_text(env.xdg_state)->0, "rosync"@))
    } else if env.linux && home is Some {
        Ok(inside(inside(inside(home->0, ".local"@), "state"@), "rosync"@))
    } else if !env.linux && env.data_local is Some {
        Ok(inside(env.data_local->0@, "RoSync"@))
    } else if home is Some {
        Ok(inside(home->0, ".rosync"@))
    } else {
        Err(StateDirProblem::NoHome)
    }
}

fn make_absolute(given: &GivenPath, current: &Option<String>) -> (r: Result<String, StateDirProblem>)
    ensures
        match r {
            Ok(path) => absolute(*given, text::option_text(*current)) == Ok::<
                Seq<char>,
                StateDirProblem,
            >(path@),
            Err(p) => absolute(*given, text::option_text(*current)) == Err::<
                Seq<char>,
                StateDirProblem,
            >(p),
        },
{
    if given.absolute {
        return Ok(owned(given.text.as_str()));
    }
    match current {
        Some(directory) => Ok(join_inside(directory.as_str(), given.text.as_str())),
        None => Err(StateDirProblem::NoCurrentDirectory),
    }
}

/// Picks the directory of the state.
pub fn state_dir(env: &StateEnvironment) -> (r: Result<String, StateDirProblem>)
    ensures
        match r {
            Ok(path) => state_place(*env) == Ok::<Seq<char>, StateDirProblem>(path@),
            Err(p) => state_place(*env) == Err::<Seq<char>, StateDirProblem>(p),
        },
{
    if let Some(given) = &env.explicit {
        return make_absolute(given, &env.current_dir);
    }
    if let Some(given) = &env.configured {
        if chars_of(given.text.as_str()).len() > 0 {
            return make_absolute(given, &env.current_dir);
        }
    }
    if env.linux {
        if let Some(base) = &env.xdg_state {
            if chars_of(base.as_str()).len() > 0 {
                return Ok(join_inside(base.as_str(), "rosync"));
            }
        }
        if let Some(home) = &env.home {
            let local = join_inside(home.as_str(), ".local");
            let state = join_inside(local.as_str(), "state");
            return Ok(join_inside(state.as_str(), "rosync"));
        }
    } else {
        if let Some(base) = &env.data_local {
            return Ok(join_inside(base.as_str(), "RoSync"));
        }
    }
    match &env.home {
        Some(home) => Ok(join_inside(home.as_str(), ".rosync")),
        None => Err(StateDirProblem::NoHome),
    }
}

/// Where the widget kept its files before.
pub fn legacy_widget_dir(home: Option<&str>) -> (r: Option<String>)
    ensures
        text::option_text(r) == match home {
            Some(home) => Some(
                inside(inside(inside(home@, ".terminal64"@), "widgets"@), "ro-sync"@),
            ),
            None => None,
        },
{
    match home {
        None => None,
        Some(home) => {
            let terminal = join_inside(home, ".terminal64");
            let widgets = join_inside(terminal.as_str(), "widgets");
            Some(join_inside(widgets.as_str(), "ro-sync"))
        },
    }
}

/// Why a file of secrets is not read.
#[derive(Debug, Clone, Copy, PartialEq, Eq, Structural)]
pub enum SecretFileProblem {
    TooLarge,
    /// Other users can reach the file.
    NotPrivate,
}

/// What is wrong with a file of that size and, where the system has them, those
/// permissions.
pub open spec fn secret_file_problem(len: int, mode: Option<u32>) -> Option<SecretFileProblem> {
    if len > MAX_CREDENTIAL_STORE_BYTES {
        Some(SecretFileProblem::TooLarge)
    } else if mode is Some && mode->0 & OTHER_USERS != 0 {
        Some(SecretFileProblem::NotPrivate)
    } else {
        None
    }
}

/// Checks a file of secrets before it is read.
pub fn check_secret_file(len: u64, mode: Option<u32>) -> (r: Result<(), SecretFileProblem>)
    ensures
        match r {
            Ok(()) => secret_file_problem(len as int, mode) is None,
            Err(p) => secret_file_problem(len as int, mode) == Some(p),
        },
{
    if len > MAX_CREDENTIAL_STORE_BYTES {
        return Err(SecretFileProblem::TooLarge);
    }
    match mode {
        Some(mode) => if mode & OTHER_USERS != 0 {
            Err(SecretFileProblem::NotPrivate)
        } else {
            Ok(())
        },
        None => Ok(()),
    }
}

/// The credentials, by their keys.
#[derive(Debug)]
pub struct CredentialStore {
    pub entries: TextMap<String>,
}

/// A credential without a key or a value.
#[derive(Debug, Clone, Copy, PartialEq, Eq, Structural)]
pub enum CredentialProblem {
    Empty,
}

/// What is to be done with the file after a credential was taken out.
#[derive(Debug, Clone, Copy, PartialEq, Eq, Structural)]
pub enum RemoveOutcome {
    /// There was no such credential.
    Missing,
    /// It was the last one: the file goes.
    Emptied,
    /// The file is written again.
    Kept,
}

impl CredentialStore {
    pub open spec fn wf(&self) -> bool {
        self.entries.wf()
    }

    pub open spec fn view(&self) -> Map<Seq<char>, Seq<char>> {
        Map::new(|k: Seq<char>| self.entries@.contains_key(k), |k: Seq<char>| self.entries@[k]@)
    }

    pub fn new() -> (s: CredentialStore)
        ensures
            s.wf(),
            s@ == Map::<Seq<char>, Seq<char>>::empty(),
    {
        let s = CredentialStore { entries: TextMap::new() };
        proof {
            assert(s@ =~= Map::<Seq<char>, Seq<char>>::empty());
        }
        s
    }
}

/// The credential under a key.
pub fn read_credential(store: &CredentialStore, key: &str) -> (r: Option<String>)
    requires
        store.wf(),
    ensures
        text::option_text(r) == (if store@.contains_key(key@) {
            Some(store@[key@])
        } else {
            None
        }),
{
    match store.entries.get(key) {
        Some(value) => Some(owned(value.as_str())),
        None => None,
    }
}

/// Puts a credential under a key.
pub fn write_credential(store: &mut CredentialStore, key: &str, value: &str) -> (r: Result<(), CredentialProblem>)
    requires
        old(store).wf(),
    ensures
        final(store).wf(),
        if key@.len() == 0 || value@.len() == 0 {
            r == Err::<(), CredentialProblem>(CredentialProblem::Empty) && *final(store)
                == *old(store)
        } else {
            r is Ok && final(store)@ == old(store)@.insert(key@, value@)
        },
{
    if chars_of(key).len() == 0 || chars_of(value).len() == 0 {
        return Err(CredentialProblem::Empty);
    }
    let ghost before = *store;
    let kept = owned(value);
    store.entries.insert(owned(key), kept);
    proof {
        assert(store@ =~= before@.insert(key@, value@));
    }
    Ok(())
}

/// Takes out the credential under a key.
pub fn remove_credential(store: &mut CredentialStore, key: &str) -> (r: RemoveOutcome)
    requires
        old(store).wf(),
    ensures
        final(store).wf(),
        final(store)@ == old(store)@.remove(key@),
        r == (if !old(store)@.contains_key(key@) {
            RemoveOutcome::Missing
        } else if final(store)@ == Map::<Seq<char>, Seq<char>>::empty() {
            RemoveOutcome::Emptied
        } else {
            RemoveOutcome::Kept
        }),
{
    let ghost before = *store;
    let found = store.entries.remove(key);
    proof {
        assert(store@ =~= before@.remove(key@));
    }
    if !found {
        return RemoveOutcome::Missing;
    }
    if store.entries.len() == 0 {
        proof {
            assert(store.entries.keys() =~= Seq::<Seq<char>>::empty());
            assert(store@ =~= Map::<Seq<char>, Seq<char>>::empty());
        }
        RemoveOutcome::Emptied
    } else {
        proof {
            let first = store.entries.keys()[0];
            assert(store.entries.keys().contains(first));
            assert(store@.contains_key(first));
        }
        RemoveOutcome::Kept
    }
}

/// A credential that was written is read back, and other keys keep theirs.
pub proof fn law_credential_reads_back(
    store: Map<Seq<char>, Seq<char>>,
    key: Seq<char>,
    value: Seq<char>,
    other: Seq<char>,
)
    ensures
        store.insert(key, value).contains_key(key),
        store.insert(key, value)[key] == value,
        other != key ==> (store.insert(key, value).contains_key(other) <==> store.contains_key(
            other,
        )),
        other != key && store.contains_key(other) ==> store.insert(key, value)[other]
            == store[other],
        !store.insert(key, value).remove(key).contains_key(key),
{
}

/// A record of another version.
#[derive(Debug, Clone, Copy, PartialEq, Eq, Structural)]
pub enum RecordProblem {
    Version(u32),
}

/// Accepts a record that was read.
pub fn read_record(record: RuntimeRecord) -> (r: Result<RuntimeRecord, RecordProblem>)
    ensures
        match r {
            Ok(kept) => record.version == RUNTIME_RECORD_VERSION && kept == record,
            Err(p) => record.version != RUNTIME_RECORD_VERSION && p == RecordProblem::Version(
                record.version,
            ),
        },
{
    if record.version != RUNTIME_RECORD_VERSION {
        return Err(RecordProblem::Version(record.version));
    }
    Ok(record)
}

/// Whether a record is that of a boot, so that the boot may remove it.
pub fn remove_record_if_boot(record: Option<&RuntimeRecord>, boot_id: &str) -> (r: bool)
    ensures
        r == (record is Some && record->0.boot_id@ == boot_id@),
{
    match record {
        Some(record) => same(record.boot_id.as_str(), boot_id),
        None => false,
    }
}

/// A record that goes with the daemon that wrote it.
#[derive(Debug)]
pub struct RuntimeRecordGuard {
    pub path: String,
    pub boot_id: String,
}

impl RuntimeRecordGuard {
    pub fn new(path: String, boot_id: String) -> (g: Self)
        ensures
            g.path == path,
            g.boot_id == boot_id,
    {
        Self { path, boot_id }
    }

    /// Whether the record that is there goes with this daemon.
    pub fn removes(&self, record: Option<&RuntimeRecord>) -> (r: bool)
        ensures
            r == (record is Some && record->0.boot_id@ == self.boot_id@),
    {
        remove_record_if_boot(record, self.boot_id.as_str())
    }
}

/// `n` in decimal.
pub fn number_text(n: u64) -> (out: String)
    ensures
        out@ == decimal::decimal_text(n as nat),
{
    string_of(&write_decimal(n))
}

/// The name of the file that is written before it takes the place of another.
pub fn temporary_name(file_name: &str, pid: u32, nonce: &str) -> (out: String)
    ensures
        out@ == "."@ + file_name@ + "."@ + decimal::decimal_text(pid as nat) + "-"@ + nonce@
            + ".tmp"@,
{
    let mut out = owned(".");
    append(&mut out, file_name);
    append(&mut out, ".");
    append(&mut out, number_text(pid as u64).as_str());
    append(&mut out, "-");
    append(&mut out, nonce);
    append(&mut out, ".tmp");
    out
}

/// What a lock file says of its holder.
pub fn lock_text(pid: u32, acquired_at: u64) -> (out: String)
    ensures
        out@ == "pid="@ + decimal::decimal_text(pid as nat) + "\nacquiredAt="@
            + decimal::decimal_text(acquired_at as nat) + "\n"@,
{
    let mut out = owned("pid=");
    append(&mut out, number_text(pid as u64).as_str());
    append(&mut out, "\nacquiredAt=");
    append(&mut out, number_text(acquired_at).as_str());
    append(&mut out, "\n");
    out
}

} // verus!
