//! Starting, finding and stopping the daemon of a project: what is concluded
//! from its record, from what answers on its port, and from its log.
use vstd::prelude::*;
use vstd::string::*;
use vstd::utf8::*;

use crate::access::constant_time_text_eq;
use crate::decimal;
use crate::json;
use crate::json::{flag_at, number_at, text_at};
use crate::lifecycle;
use crate::lifecycle::{check_secret_file, number_text, RuntimeRecord, SecretFileProblem};
use crate::text;
use crate::text::{chars_of, joined, owned, same, trim_text};

verus! {

/// What is known of the daemon of a project.
#[derive(Debug, Clone)]
pub struct DaemonLifecycleStatus {
    pub ok: bool,
    pub running: bool,
    /// Its port is taken, but it did not say who it is in time.
    pub unresponsive: bool,
    pub managed: bool,
    pub managed_by: Option<String>,
    pub project: String,
    pub canonical_project: String,
    pub pid: Option<u32>,
    pub port: Option<u16>,
    pub base_url: Option<String>,
    pub boot_id: Option<String>,
    pub log_path: Option<String>,
    pub started_at: Option<u64>,
    pub plugin_connected: Option<bool>,
    pub stale: bool,
    pub externally_managed: bool,
}

#[verifier::ext_equal]
pub struct StatusModel {
    pub ok: bool,
    pub running: bool,
    pub unresponsive: bool,
    pub managed: bool,
    pub managed_by: Option<Seq<char>>,
    pub project: Seq<char>,
    pub canonical_project: Seq<char>,
    pub pid: Option<u32>,
    pub port: Option<u16>,
    pub base_url: Option<Seq<char>>,
    pub boot_id: Option<Seq<char>>,
    pub log_path: Option<Seq<char>>,
    pub started_at: Option<u64>,
    pub plugin_connected: Option<bool>,
    pub stale: bool,
    pub externally_managed: bool,
}

impl DaemonLifecycleStatus {
    pub open spec fn view(&self) -> StatusModel {
        StatusModel {
            ok: self.ok,
            running: self.running,
            unresponsive: self.unresponsive,
            managed: self.managed,
            managed_by: text::option_text(self.managed_by),
            project: self.project@,
            canonical_project: self.canonical_project@,
            pid: self.pid,
            port: self.port,
            base_url: text::option_text(self.base_url),
            boot_id: text::option_text(self.boot_id),
            log_path: text::option_text(self.log_path),
            started_at: self.started_at,
            plugin_connected: self.plugin_connected,
            stale: self.stale,
            externally_managed: self.externally_managed,
        }
    }
}

/// What a daemon says of itself, and whether that is the project asked for.
#[derive(Debug)]
pub struct Hello {
    pub text: String,
    pub serves_project: bool,
}

/// Whether a reading of the parent's input says that the parent is gone: its
/// end, or an error other than an interruption.
#[derive(Debug)]
pub enum ParentRead {
    Bytes(usize),
    Interrupted,
    Failed,
}

pub fn parent_is_gone(read: &ParentRead) -> (r: bool)
    ensures
        r == match read {
            ParentRead::Bytes(n) => *n == 0,
            ParentRead::Interrupted => false,
            ParentRead::Failed => true,
        },
{
    match read {
        ParentRead::Bytes(n) => *n == 0,
        ParentRead::Interrupted => false,
        ParentRead::Failed => true,
    }
}

/// Why a secret is refused.
#[derive(Debug, Clone, Copy, PartialEq, Eq, Structural)]
pub enum SecretProblem {
    Empty,
    TwoSources,
    /// The variable's name is malformed.
    BadName,
    /// The variable is missing, or no text.
    Missing,
    /// The variable is empty.
    EmptyVariable,
}

/// Where a secret comes from.
#[derive(Debug)]
pub enum SecretSource {
    Absent,
    Direct(String),
    /// From the environment variable or the file of that name.
    Named(String),
}

/// Picks the source of a secret: given directly, or under a name.
pub fn resolve_optional_secret(direct: Option<String>, name: Option<&str>) -> (r: Result<
    SecretSource,
    SecretProblem,
>)
    ensures
        match (direct, name) {
            (Some(value), None) => if value@.len() > 0 {
                r == Ok::<SecretSource, SecretProblem>(SecretSource::Direct(value))
            } else {
                r == Err::<SecretSource, SecretProblem>(SecretProblem::Empty)
            },
            (None, Some(n)) => r matches Ok(SecretSource::Named(kept)) && kept@ == n@,
            (None, None) => r == Ok::<SecretSource, SecretProblem>(SecretSource::Absent),
            (Some(_), Some(_)) => r == Err::<SecretSource, SecretProblem>(
                SecretProblem::TwoSources,
            ),
        },
{
    match (direct, name) {
        (Some(value), None) => if chars_of(value.as_str()).len() > 0 {
            Ok(SecretSource::Direct(value))
        } else {
            Err(SecretProblem::Empty)
        },
        (None, Some(n)) => Ok(SecretSource::Named(owned(n))),
        (None, None) => Ok(SecretSource::Absent),
        (Some(_), Some(_)) => Err(SecretProblem::TwoSources),
    }
}

pub open spec fn is_alphanumeric(c: char) -> bool {
    ||| 'a' <= c && c <= 'z'
    ||| 'A' <= c && c <= 'Z'
    ||| '0' <= c && c <= '9'
}

fn alphanumeric(c: char) -> (r: bool)
    ensures
        r == is_alphanumeric(c),
{
    ('a' <= c && c <= 'z') || ('A' <= c && c <= 'Z') || ('0' <= c && c <= '9')
}

/// The name of an environment variable.
pub open spec fn is_variable_name(s: Seq<char>) -> bool {
    &&& s.len() > 0
    &&& forall|i: int| 0 <= i < s.len() ==> is_alphanumeric(#[trigger] s[i]) || s[i] == '_'
}

/// Whether an environment variable may be asked for a secret.
pub fn check_secret_name(name: &str) -> (r: Result<(), SecretProblem>)
    ensures
        r == (if is_variable_name(name@) {
            Ok::<(), SecretProblem>(())
        } else {
            Err(SecretProblem::BadName)
        }),
{
    let chars = chars_of(name);
    if chars.len() == 0 {
        return Err(SecretProblem::BadName);
    }
    let mut k: usize = 0;
    while k < chars.len()
        invariant
            k <= chars@.len(),
            chars@ == name@,
            forall|i: int|
                0 <= i < k ==> is_alphanumeric(#[trigger] chars@[i]) || chars@[i] == '_',
        decreases chars@.len() - k,
    {
        if !alphanumeric(chars[k]) && chars[k] != '_' {
            assert(!(is_alphanumeric(name@[k as int]) || name@[k as int] == '_'));
            return Err(SecretProblem::BadName);
        }
        k += 1;
    }
    Ok(())
}

/// Takes what a variable of a good name holds.
pub fn read_named_secret_env(name: &str, value: Option<String>) -> (r: Result<
    String,
    SecretProblem,
>)
    ensures
        if !is_variable_name(name@) {
            r == Err::<String, SecretProblem>(SecretProblem::BadName)
        } else {
            match value {
                None => r == Err::<String, SecretProblem>(SecretProblem::Missing),
                Some(held) => if held@.len() == 0 {
                    r == Err::<String, SecretProblem>(SecretProblem::EmptyVariable)
                } else {
                    r == Ok::<String, SecretProblem>(held)
                },
            }
        },
{
    match check_secret_name(name) {
        Err(p) => return Err(p),
        Ok(()) => {},
    }
    match value {
        None => Err(SecretProblem::Missing),
        Some(held) => if chars_of(held.as_str()).len() == 0 {
            Err(SecretProblem::EmptyVariable)
        } else {
            Ok(held)
        },
    }
}

/// Picks the source of the widget's token: given directly, or in a state file.
pub fn resolve_widget_owner_token(direct: Option<String>, state_file: Option<&str>) -> (r: Result<
    SecretSource,
    SecretProblem,
>)
    ensures
        match (direct, state_file) {
            (Some(value), None) => if value@.len() > 0 {
                r == Ok::<SecretSource, SecretProblem>(SecretSource::Direct(value))
            } else {
                r == Err::<SecretSource, SecretProblem>(SecretProblem::Empty)
            },
            (None, Some(path)) => r matches Ok(SecretSource::Named(kept)) && kept@ == path@,
            (None, None) => r == Ok::<SecretSource, SecretProblem>(SecretSource::Absent),
            (Some(_), Some(_)) => r == Err::<SecretSource, SecretProblem>(
                SecretProblem::TwoSources,
            ),
        },
{
    resolve_optional_secret(direct, state_file)
}

/// A token that the widget may have written down.
pub open spec fn is_owner_token(s: Seq<char>) -> bool {
    &&& 16 <= s.len() <= 512
    &&& forall|i: int|
        0 <= i < s.len() ==> is_alphanumeric(#[trigger] s[i]) || s[i] == '-' || s[i] == '_' || s[i]
            == '.' || s[i] == '~'
}

pub fn owner_token_is_valid(token: &str) -> (r: bool)
    ensures
        r == is_owner_token(token@),
{
    let chars = chars_of(token);
    if chars.len() < 16 || chars.len() > 512 {
        return false;
    }
    let mut k: usize = 0;
    while k < chars.len()
        invariant
            k <= chars@.len(),
            chars@ == token@,
            forall|i: int|
                0 <= i < k ==> is_alphanumeric(#[trigger] chars@[i]) || chars@[i] == '-'
                    || chars@[i] == '_' || chars@[i] == '.' || chars@[i] == '~',
        decreases chars@.len() - k,
    {
        let c = chars[k];
        if !(alphanumeric(c) || c == '-' || c == '_' || c == '.' || c == '~') {
            assert(!(is_alphanumeric(token@[k as int]) || token@[k as int] == '-' || token@[k as int]
                == '_' || token@[k as int] == '.' || token@[k as int] == '~'));
            return false;
        }
        k += 1;
    }
    true
}

/// Why a state file gives no token.
#[derive(Debug, Clone, Copy, PartialEq, Eq, Structural)]
pub enum OwnerTokenProblem {
    TooLarge,
    /// Other users can reach the file.
    NotPrivate,
    NotJson,
    NoToken,
}

/// The token in what was read of a state file.
pub open spec fn owner_token(
    found: Option<Option<(Option<Seq<char>>, Option<u64>, Option<bool>, bool, bool, Seq<char>)>>,
) -> Result<Seq<char>, OwnerTokenProblem> {
    match found {
        None => Err(OwnerTokenProblem::NotJson),
        Some(part) => match json::text_of(part) {
            Some(token) => if is_owner_token(token) {
                Ok(token)
            } else {
                Err(OwnerTokenProblem::NoToken)
            },
            None => Err(OwnerTokenProblem::NoToken),
        },
    }
}

/// The token of a state file with those permissions and that text: a file too
/// large, or one that other users can reach, gives none.
pub open spec fn state_file_token(mode: Option<u32>, state: Seq<char>) -> Result<
    Seq<char>,
    OwnerTokenProblem,
> {
    match lifecycle::secret_file_problem(encode_utf8(state).len() as int, mode) {
        Some(SecretFileProblem::TooLarge) => Err(OwnerTokenProblem::TooLarge),
        Some(SecretFileProblem::NotPrivate) => Err(OwnerTokenProblem::NotPrivate),
        None => owner_token(json::json_value(state, "/state/daemonOwnerToken"@)),
    }
}

/// Reads the token of the widget out of its state file, given the file's
/// permissions, where the system has them, and its text.
pub fn read_widget_owner_token_state_file(mode: Option<u32>, state: &str) -> (r: Result<
    String,
    OwnerTokenProblem,
>)
    ensures
        match r {
            Ok(token) => state_file_token(mode, state@) == Ok::<Seq<char>, OwnerTokenProblem>(
                token@,
            ),
            Err(p) => state_file_token(mode, state@) == Err::<Seq<char>, OwnerTokenProblem>(p),
        },
{
    let bytes = state.as_bytes();
    let len: usize = bytes.len();
    match check_secret_file(len as u64, mode) {
        Err(SecretFileProblem::TooLarge) => return Err(OwnerTokenProblem::TooLarge),
        Err(SecretFileProblem::NotPrivate) => return Err(OwnerTokenProblem::NotPrivate),
        Ok(()) => {},
    }
    match crate::json::json_at(state, "/state/daemonOwnerToken") {
        None => Err(OwnerTokenProblem::NotJson),
        Some(None) => Err(OwnerTokenProblem::NoToken),
        Some(Some(part)) => match part.text {
            Some(token) => if owner_token_is_valid(token.as_str()) {
                Ok(token)
            } else {
                Err(OwnerTokenProblem::NoToken)
            },
            None => Err(OwnerTokenProblem::NoToken),
        },
    }
}

/// A blank value.
#[derive(Debug, Clone, Copy, PartialEq, Eq, Structural)]
pub enum MetadataProblem {
    Blank,
}

/// A value without the white space around it.
pub fn normalize_optional_metadata(value: Option<&str>) -> (r: Result<
    Option<String>,
    MetadataProblem,
>)
    ensures
        match value {
            None => r == Ok::<Option<String>, MetadataProblem>(None),
            Some(given) => if text::trimmed(given@).len() == 0 {
                r == Err::<Option<String>, MetadataProblem>(MetadataProblem::Blank)
            } else {
                r matches Ok(Some(kept)) && kept@ == text::trimmed(given@)
            },
        },
{
    match value {
        None => Ok(None),
        Some(given) => {
            let kept = trim_text(given);
            if chars_of(kept.as_str()).len() == 0 {
                Err(MetadataProblem::Blank)
            } else {
                Ok(Some(kept))
            }
        },
    }
}

/// The daemon belongs to another manager.
#[derive(Debug, Clone, Copy, PartialEq, Eq, Structural)]
pub enum OwnerProblem {
    OtherOwner,
}

/// Accepts a caller who gives no token, or that of the daemon.
pub fn validate_existing_daemon_owner(record: &RuntimeRecord, supplied: Option<&str>) -> (r: Result<
    (),
    OwnerProblem,
>)
    ensures
        r == (if supplied is None || supplied->0@ == record.control_token@ {
            Ok::<(), OwnerProblem>(())
        } else {
            Err(OwnerProblem::OtherOwner)
        }),
{
    match supplied {
        None => Ok(()),
        Some(token) => if constant_time_text_eq(record.control_token.as_str(), token) {
            Ok(())
        } else {
            Err(OwnerProblem::OtherOwner)
        },
    }
}

/// Whether a daemon runs for another manager.
pub open spec fn other_manager(status: StatusModel, manager: Seq<char>) -> bool {
    status.running && status.managed && status.managed_by != Some(manager)
}

/// Marks a daemon that runs for another manager, and keeps its log to itself.
pub fn classify_running_daemon_for_manager(
    status: &mut DaemonLifecycleStatus,
    requested_manager: &str,
)
    ensures
        final(status)@ == (if other_manager(old(status)@, requested_manager@) {
            StatusModel { externally_managed: true, log_path: None, ..old(status)@ }
        } else {
            old(status)@
        }),
{
    let same_manager = match &status.managed_by {
        Some(manager) => same(manager.as_str(), requested_manager),
        None => false,
    };
    if status.running && status.managed && !same_manager {
        status.externally_managed = true;
        status.log_path = None;
    }
}

/// Whether a daemon that answered is the one of the record.
pub open spec fn same_boot(record: RuntimeRecord, hello: Hello) -> bool {
    let said = hello.text@;
    &&& hello.serves_project
    &&& json::text_of(json::value_at(said, "/bootId"@)) == Some(record.boot_id@)
    &&& json::number_of(json::value_at(said, "/pid"@)) == Some(record.pid as u64)
    &&& json::number_of(json::value_at(said, "/port"@)) == Some(record.port as u64)
}

pub fn daemon_record_matches_hello(record: &RuntimeRecord, hello: &Hello) -> (r: bool)
    ensures
        r == same_boot(*record, *hello),
{
    if !hello.serves_project {
        return false;
    }
    let said = hello.text.as_str();
    let boot = match text_at(said, "/bootId") {
        Some(boot) => same(boot.as_str(), record.boot_id.as_str()),
        None => false,
    };
    let pid = match number_at(said, "/pid") {
        Some(pid) => pid == record.pid as u64,
        None => false,
    };
    let port = match number_at(said, "/port") {
        Some(port) => port == record.port as u64,
        None => false,
    };
    boot && pid && port
}

/// The address of a port on this machine.
pub open spec fn url_of(port: u16) -> Seq<char> {
    "http://127.0.0.1:"@ + decimal::decimal_text(port as nat)
}

fn base_url(port: u16) -> (out: String)
    ensures
        out@ == url_of(port),
{
    joined("http://127.0.0.1:", number_text(port as u64).as_str())
}

/// Whether a daemon that answered says that the plugin is connected.
pub open spec fn plugin_of(hello: Option<Hello>) -> Option<bool> {
    match hello {
        Some(h) => json::flag_of(json::value_at(h.text@, "/pluginConnected"@)),
        None => None,
    }
}

pub open spec fn hello_model(hello: Option<&Hello>) -> Option<Hello> {
    match hello {
        Some(h) => Some(*h),
        None => None,
    }
}

/// What a record says of its daemon.
pub open spec fn record_status(
    record: RuntimeRecord,
    plugin_connected: Option<bool>,
    running: bool,
    stale: bool,
) -> StatusModel {
    StatusModel {
        ok: true,
        running,
        unresponsive: false,
        managed: true,
        managed_by: Some(record.managed_by@),
        project: record.project@,
        canonical_project: record.canonical_project@,
        pid: Some(record.pid),
        port: Some(record.port),
        base_url: Some(url_of(record.port)),
        boot_id: Some(record.boot_id@),
        log_path: Some(record.log_path@),
        started_at: Some(record.started_at),
        plugin_connected,
        stale,
        externally_managed: false,
    }
}

pub fn daemon_status_from_record(
    record: &RuntimeRecord,
    hello: Option<&Hello>,
    running: bool,
    stale: bool,
) -> (s: DaemonLifecycleStatus)
    ensures
        s@ == record_status(*record, plugin_of(hello_model(hello)), running, stale),
{
    let plugin_connected = match hello {
        Some(h) => flag_at(h.text.as_str(), "/pluginConnected"),
        None => None,
    };
    DaemonLifecycleStatus {
        ok: true,
        running,
        unresponsive: false,
        managed: true,
        managed_by: Some(owned(record.managed_by.as_str())),
        project: owned(record.project.as_str()),
        canonical_project: owned(record.canonical_project.as_str()),
        pid: Some(record.pid),
        port: Some(record.port),
        base_url: Some(base_url(record.port)),
        boot_id: Some(owned(record.boot_id.as_str())),
        log_path: Some(owned(record.log_path.as_str())),
        started_at: Some(record.started_at),
        plugin_connected,
        stale,
        externally_managed: false,
    }
}

/// The status of a daemon whose port is taken but which does not answer.
pub fn unresponsive_daemon_status(record: &RuntimeRecord) -> (s: DaemonLifecycleStatus)
    ensures
        s@ == (StatusModel { unresponsive: true, ..record_status(*record, None, true, false) }),
{
    let mut status = daemon_status_from_record(record, None, true, false);
    status.unresponsive = true;
    status
}

/// A number as a process id, where it is one.
pub open spec fn pid_of(n: Option<u64>) -> Option<u32> {
    match n {
        Some(n) => if n <= u32::MAX {
            Some(n as u32)
        } else {
            None
        },
        None => None,
    }
}

/// The first of two values that is there.
pub open spec fn first_flag(a: Option<bool>, b: Option<bool>) -> bool {
    match a {
        Some(x) => x,
        None => b == Some(true),
    }
}

/// What a daemon without a record of ours says of itself.
pub open spec fn external_status(project: Seq<char>, port: u16, said: Seq<char>) -> StatusModel {
    StatusModel {
        ok: true,
        running: true,
        unresponsive: false,
        managed: first_flag(
            json::flag_of(json::value_at(said, "/managed"@)),
            json::flag_of(json::value_at(said, "/widgetOwned"@)),
        ),
        managed_by: json::text_of(json::value_at(said, "/managedBy"@)),
        project: match json::text_of(json::value_at(said, "/project"@)) {
            Some(named) => named,
            None => project,
        },
        canonical_project: project,
        pid: pid_of(json::number_of(json::value_at(said, "/pid"@))),
        port: Some(port),
        base_url: Some(url_of(port)),
        boot_id: json::text_of(json::value_at(said, "/bootId"@)),
        log_path: None,
        started_at: json::number_of(json::value_at(said, "/startedAt"@)),
        plugin_connected: json::flag_of(json::value_at(said, "/pluginConnected"@)),
        stale: false,
        externally_managed: true,
    }
}

pub fn external_daemon_status(canonical_project: &str, port: u16, hello: &str) -> (s:
    DaemonLifecycleStatus)
    ensures
        s@ == external_status(canonical_project@, port, hello@),
{
    let managed = match flag_at(hello, "/managed") {
        Some(managed) => managed,
        None => match flag_at(hello, "/widgetOwned") {
            Some(widget) => widget,
            None => false,
        },
    };
    let project = match text_at(hello, "/project") {
        Some(project) => project,
        None => owned(canonical_project),
    };
    let pid = match number_at(hello, "/pid") {
        Some(pid) => if pid <= u32::MAX as u64 {
            Some(pid as u32)
        } else {
            None
        },
        None => None,
    };
    DaemonLifecycleStatus {
        ok: true,
        running: true,
        unresponsive: false,
        managed,
        managed_by: text_at(hello, "/managedBy"),
        project,
        canonical_project: owned(canonical_project),
        pid,
        port: Some(port),
        base_url: Some(base_url(port)),
        boot_id: text_at(hello, "/bootId"),
        log_path: None,
        started_at: number_at(hello, "/startedAt"),
        plugin_connected: flag_at(hello, "/pluginConnected"),
        stale: false,
        externally_managed: true,
    }
}

/// The status of a daemon without a record of ours, if it serves the project.
pub fn matching_external_daemon_status(canonical_project: &str, port: u16, hello: &Hello) -> (r:
    Option<DaemonLifecycleStatus>)
    ensures
        match r {
            Some(s) => hello.serves_project && s@ == external_status(
                canonical_project@,
                port,
                hello.text@,
            ),
            None => !hello.serves_project,
        },
{
    if hello.serves_project {
        Some(external_daemon_status(canonical_project, port, hello.text.as_str()))
    } else {
        None
    }
}

pub open spec fn stopped_status(project: Seq<char>) -> StatusModel {
    StatusModel {
        ok: true,
        running: false,
        unresponsive: false,
        managed: false,
        managed_by: None,
        project,
        canonical_project: project,
        pid: None,
        port: None,
        base_url: None,
        boot_id: None,
        log_path: None,
        started_at: None,
        plugin_connected: None,
        stale: false,
        externally_managed: false,
    }
}

pub fn stopped_daemon_status(canonical_project: &str) -> (s: DaemonLifecycleStatus)
    ensures
        s@ == stopped_status(canonical_project@),
{
    DaemonLifecycleStatus {
        ok: true,
        running: false,
        unresponsive: false,
        managed: false,
        managed_by: None,
        project: owned(canonical_project),
        canonical_project: owned(canonical_project),
        pid: None,
        port: None,
        base_url: None,
        boot_id: None,
        log_path: None,
        started_at: None,
        plugin_connected: None,
        stale: false,
        externally_managed: false,
    }
}

/// What became of the daemon of a record.
#[derive(Debug, Clone, Copy, PartialEq, Eq, Structural)]
pub enum ManagedRecordProbe {
    /// It answers.
    Exact,
    /// Another daemon answers on its port.
    Different,
    /// Nothing answers, but the port is taken.
    Unresponsive,
    /// Nothing answers, and the port is free.
    Stale,
}

pub open spec fn probe_outcome(
    record: RuntimeRecord,
    hello: Option<Hello>,
    port_free: bool,
) -> ManagedRecordProbe {
    match hello {
        Some(h) => if same_boot(record, h) {
            ManagedRecordProbe::Exact
        } else {
            ManagedRecordProbe::Different
        },
        None => if port_free {
            ManagedRecordProbe::Stale
        } else {
            ManagedRecordProbe::Unresponsive
        },
    }
}

/// Concludes from what answered on the port of a record, and, where nothing
/// did, from whether the port is free.
pub fn probe_managed_record(record: &RuntimeRecord, hello: Option<&Hello>, port_free: bool) -> (r:
    ManagedRecordProbe)
    ensures
        r == probe_outcome(*record, hello_model(hello), port_free),
{
    match hello {
        Some(h) => if daemon_record_matches_hello(record, h) {
            ManagedRecordProbe::Exact
        } else {
            ManagedRecordProbe::Different
        },
        None => if port_free {
            ManagedRecordProbe::Stale
        } else {
            ManagedRecordProbe::Unresponsive
        },
    }
}

/// What comes after the record of a project was probed.
#[derive(Debug)]
pub enum StatusStep {
    Report(DaemonLifecycleStatus),
    /// The record is out of date; other ports are asked for the project.
    Scan,
}

/// Concludes from a probe. Whatever is reported of a record that is out of date,
/// the record may be removed.
pub fn status_after_probe(
    record: &RuntimeRecord,
    probe: ManagedRecordProbe,
    hello: Option<&Hello>,
    canonical_project: &str,
) -> (r: StatusStep)
    ensures
        match probe {
            ManagedRecordProbe::Exact => r matches StatusStep::Report(s) && s@ == record_status(
                *record,
                plugin_of(hello_model(hello)),
                true,
                false,
            ),
            ManagedRecordProbe::Unresponsive => r matches StatusStep::Report(s) && s@ == (
            StatusModel { unresponsive: true, ..record_status(*record, None, true, false) }),
            ManagedRecordProbe::Different => if hello is Some && hello->0.serves_project {
                r matches StatusStep::Report(s) && s@ == external_status(
                    canonical_project@,
                    record.port,
                    hello->0.text@,
                )
            } else {
                r is Scan
            },
            ManagedRecordProbe::Stale => r is Scan,
        },
{
    match probe {
        ManagedRecordProbe::Exact => StatusStep::Report(
            daemon_status_from_record(record, hello, true, false),
        ),
        ManagedRecordProbe::Unresponsive => StatusStep::Report(unresponsive_daemon_status(record)),
        ManagedRecordProbe::Different => match hello {
            Some(h) => match matching_external_daemon_status(canonical_project, record.port, h) {
                Some(status) => StatusStep::Report(status),
                None => StatusStep::Scan,
            },
            None => StatusStep::Scan,
        },
        ManagedRecordProbe::Stale => StatusStep::Scan,
    }
}

/// The status after the other ports were asked: of the daemon that was found,
/// else of the record that is out of date, else of no daemon.
pub open spec fn scanned_status(
    record: Option<RuntimeRecord>,
    hello: Option<Hello>,
    found: Option<(u16, Seq<char>)>,
    project: Seq<char>,
) -> StatusModel {
    match found {
        Some(at) => external_status(project, at.0, at.1),
        None => match record {
            Some(record) => record_status(record, plugin_of(hello), false, true),
            None => stopped_status(project),
        },
    }
}

pub fn status_after_scan(
    record: Option<&RuntimeRecord>,
    hello: Option<&Hello>,
    found: Option<(u16, &str)>,
    canonical_project: &str,
) -> (s: DaemonLifecycleStatus)
    ensures
        s@ == scanned_status(
            match record {
                Some(r) => Some(*r),
                None => None,
            },
            hello_model(hello),
            match found {
                Some(at) => Some((at.0, at.1@)),
                None => None,
            },
            canonical_project@,
        ),
{
    match found {
        Some(at) => external_daemon_status(canonical_project, at.0, at.1),
        None => match record {
            Some(record) => daemon_status_from_record(record, hello, false, true),
            None => stopped_daemon_status(canonical_project),
        },
    }
}

} // verus!
