//! What a start or a stop of a daemon does next, and what its log and its
//! status say.
use vstd::prelude::*;
use vstd::string::*;
use vstd::utf8::*;

use crate::access;
use crate::access::WidgetControlBody;
use crate::compare_session;
use crate::daemon_manager;
use crate::daemon_manager::{
    daemon_record_matches_hello, daemon_status_from_record, matching_external_daemon_status,
    stopped_daemon_status, validate_existing_daemon_owner, DaemonLifecycleStatus, Hello,
    ManagedRecordProbe, StatusModel,
};
use crate::decimal;
use crate::fs_map;
use crate::json;
use crate::json::flag_at;
use crate::lifecycle;
use crate::lifecycle::{join_inside, number_text, RuntimePaths, RuntimeRecord};
use crate::path_text;
use crate::path_text::same_path;
use crate::text;
use crate::text::{
    append, chars_of, joined, owned, same, split_chars, starts_with, string_of, string_of_range,
    trim_chars,
};

verus! {

/// Why a daemon is not started.
#[derive(Debug, Clone, Copy, PartialEq, Eq, Structural)]
pub enum StartProblem {
    /// The daemon on that port does not answer.
    Unresponsive(u16),
    /// The daemon runs, but its record is gone.
    NoRecord,
    OtherOwner,
    /// The daemon runs with another root of projects.
    OtherRoot,
    /// The daemon runs on another port, and the one asked for is taken.
    OtherPort,
    /// The port serves another project.
    PortTaken,
}

/// What a start does.
#[derive(Debug, Clone, Copy, PartialEq, Eq, Structural)]
pub enum StartStep {
    Launch,
    /// The daemon of another manager is reported, and nothing is written.
    Reuse,
    /// The daemon is reported once the metadata was written.
    ReuseAfterMetadata,
}

/// Whether the daemon serves the root of projects that was asked for.
pub open spec fn serves_root(requested: Seq<char>, advertised: Option<Seq<char>>) -> bool {
    advertised is Some && path_text::path_value(advertised->0) == path_text::path_value(requested)
}

/// What a start does about the daemon that there is.
pub open spec fn start_outcome(
    status: StatusModel,
    control_token: Option<Seq<char>>,
    supplied: Option<Seq<char>>,
    requested_root: Option<Seq<char>>,
    advertised_root: Option<Seq<char>>,
    requested_port: Option<u16>,
    requested_port_answers: bool,
) -> Result<StartStep, StartProblem> {
    if status.unresponsive {
        Err(
            StartProblem::Unresponsive(
                match status.port {
                    Some(port) => port,
                    None => 0,
                },
            ),
        )
    } else if !status.running {
        Ok(StartStep::Launch)
    } else if status.externally_managed {
        Ok(StartStep::Reuse)
    } else if control_token is None {
        Err(StartProblem::NoRecord)
    } else if supplied is Some && supplied != control_token {
        Err(StartProblem::OtherOwner)
    } else if requested_root is Some && !serves_root(requested_root->0, advertised_root) {
        Err(StartProblem::OtherRoot)
    } else if requested_port is Some && status.port != requested_port && requested_port_answers {
        Err(StartProblem::OtherPort)
    } else {
        Ok(StartStep::ReuseAfterMetadata)
    }
}

/// Decides what a start does about the daemon that there is.
pub fn daemon_start(
    status: &DaemonLifecycleStatus,
    record: Option<&RuntimeRecord>,
    supplied: Option<&str>,
    requested_root: Option<&str>,
    advertised_root: Option<&str>,
    requested_port: Option<u16>,
    requested_port_answers: bool,
) -> (r: Result<StartStep, StartProblem>)
    ensures
        r == start_outcome(
            status@,
            match record {
                Some(r) => Some(r.control_token@),
                None => None,
            },
            compare_session::option_str(supplied),
            compare_session::option_str(requested_root),
            compare_session::option_str(advertised_root),
            requested_port,
            requested_port_answers,
        ),
{
    if status.unresponsive {
        let port: u16 = match status.port {
            Some(port) => port,
            None => 0,
        };
        return Err(StartProblem::Unresponsive(port));
    }
    if !status.running {
        return Ok(StartStep::Launch);
    }
    if status.externally_managed {
        return Ok(StartStep::Reuse);
    }
    let record = match record {
        None => return Err(StartProblem::NoRecord),
        Some(record) => record,
    };
    if validate_existing_daemon_owner(record, supplied).is_err() {
        return Err(StartProblem::OtherOwner);
    }
    if let Some(wanted) = requested_root {
        let kept = match advertised_root {
            Some(root) => same_path(root, wanted),
            None => false,
        };
        if !kept {
            return Err(StartProblem::OtherRoot);
        }
    }
    if let Some(wanted) = requested_port {
        let kept = match status.port {
            Some(port) => port == wanted,
            None => false,
        };
        if !kept && requested_port_answers {
            return Err(StartProblem::OtherPort);
        }
    }
    Ok(StartStep::ReuseAfterMetadata)
}

/// Where a new daemon listens.
#[derive(Debug)]
pub enum PortChoice {
    /// A daemon already serves the project there.
    Existing(DaemonLifecycleStatus),
    /// Any free port.
    Ephemeral,
    Exact(u16),
    /// The first free port of the range.
    Scan,
}

/// Picks the port of a new daemon; `hello` is what answers on the port asked
/// for.
pub fn choose_daemon_port(requested: Option<u16>, hello: Option<&Hello>, canonical_project: &str) -> (r:
    Result<PortChoice, StartProblem>)
    ensures
        match requested {
            None => r matches Ok(PortChoice::Scan),
            Some(port) => match hello {
                Some(h) => if h.serves_project {
                    r matches Ok(PortChoice::Existing(s)) && s@ == daemon_manager::external_status(
                        canonical_project@,
                        port,
                        h.text@,
                    )
                } else {
                    r matches Err(p) && p == StartProblem::PortTaken
                },
                None => if port == 0 {
                    r matches Ok(PortChoice::Ephemeral)
                } else {
                    r matches Ok(PortChoice::Exact(p)) && p == port
                },
            },
        },
{
    let port: u16 = match requested {
        None => return Ok(PortChoice::Scan),
        Some(port) => port,
    };
    match hello {
        Some(h) => match matching_external_daemon_status(canonical_project, port, h) {
            Some(status) => Ok(PortChoice::Existing(status)),
            None => Err(StartProblem::PortTaken),
        },
        None => if port == 0 {
            Ok(PortChoice::Ephemeral)
        } else {
            Ok(PortChoice::Exact(port))
        },
    }
}

/// How far a path goes without the slashes at its end.
pub open spec fn path_end(path: Seq<char>, n: int) -> int
    decreases n,
{
    if n > 0 && path[n - 1] == '/' {
        path_end(path, n - 1)
    } else {
        n
    }
}

/// Where the directory of a file ends: before the last slash.
pub open spec fn parent_end(path: Seq<char>, n: int) -> int
    decreases n,
{
    if n <= 0 {
        0
    } else if path[n - 1] == '/' {
        n - 1
    } else {
        parent_end(path, n - 1)
    }
}

/// The directory of a file; a path of slashes alone has none.
pub open spec fn parent_of(path: Seq<char>) -> Option<Seq<char>> {
    let end = path_end(path, path.len() as int);
    let parent = path_end(path, parent_end(path, end));
    if end <= 0 {
        None
    } else if parent == 0 && path[0] == '/' {
        Some("/"@)
    } else {
        Some(path.take(parent))
    }
}

/// The lock under which ports are given out, beside the lock of the project.
pub fn daemon_port_allocation_lock_path(paths: &RuntimePaths) -> (r: Option<String>)
    ensures
        text::option_text(r) == match parent_of(paths.start_lock@) {
            Some(directory) => Some(lifecycle::inside(directory, "ports.start.lock"@)),
            None => None,
        },
{
    let chars = chars_of(paths.start_lock.as_str());
    let len: usize = chars.len();
    let end = skip_slashes(&chars, len);
    if end == 0 {
        return None;
    }
    let mut n: usize = end;
    while n > 0 && chars[n - 1] != '/'
        invariant
            n <= end <= len,
            len == chars@.len(),
            parent_end(chars@, end as int) == parent_end(chars@, n as int),
        decreases n,
    {
        n -= 1;
    }
    let last: usize = if n > 0 {
        n - 1
    } else {
        0
    };
    let parent = skip_slashes(&chars, last);
    let directory = if parent == 0 && chars[0] == '/' {
        owned("/")
    } else {
        string_of_range(&chars, 0, parent)
    };
    proof {
        assert(chars@.subrange(0, parent as int) =~= chars@.take(parent as int));
    }
    Some(join_inside(directory.as_str(), "ports.start.lock"))
}

fn skip_slashes(chars: &Vec<char>, from: usize) -> (end: usize)
    requires
        from <= chars@.len(),
    ensures
        end == path_end(chars@, from as int),
        end <= from,
{
    let mut n: usize = from;
    while n > 0 && chars[n - 1] == '/'
        invariant
            n <= from <= chars@.len(),
            path_end(chars@, from as int) == path_end(chars@, n as int),
        decreases n,
    {
        n -= 1;
    }
    n
}

/// The lock of the ports stands in the same directory as the locks of all
/// projects of a state directory, so that all of them wait for it.
pub proof fn law_port_lock_is_shared(state: Seq<char>, project: Seq<char>)
    ensures
        ({
            let path = lifecycle::daemon_file(state, project, ".start.lock"@);
            parent_of(path) == Some(lifecycle::inside(state, "daemons"@))
        }),
{
    reveal_strlit("daemons");
    reveal_strlit("/");
    reveal_strlit(".start.lock");
    let directory = lifecycle::inside(state, "daemons"@);
    let name = lifecycle::key_text(project) + ".start.lock"@;
    let path = lifecycle::daemon_file(state, project, ".start.lock"@);
    assert(directory.last() == 's');
    assert(path == directory + "/"@ + name);
    assert forall|i: int| 0 <= i < name.len() implies #[trigger] name[i] != '/' by {
        if i < lifecycle::key_text(project).len() {
            let digest = crate::conflict::sha256(encode_utf8(project));
            let digit = if i % 2 == 0 {
                digest[i / 2] as int / 16
            } else {
                digest[i / 2] as int % 16
            };
            assert(0 <= digit < 16);
            assert(name[i] == crate::hex::hex_digit(digit));
        }
    }
    lemma_parent_end(path, directory.len() as int, path.len() as int);
    assert(path[directory.len() - 1] == directory.last());
    assert(path.take(directory.len() as int) =~= directory);
}

proof fn lemma_parent_end(path: Seq<char>, k: int, n: int)
    requires
        0 <= k < n <= path.len(),
        path[k] == '/',
        forall|i: int| k < i < n ==> #[trigger] path[i] != '/',
    ensures
        parent_end(path, n) == k,
    decreases n,
{
    if n - 1 > k {
        lemma_parent_end(path, k, n - 1);
    }
}

/// What became of the wait for a new daemon.
#[derive(Debug)]
pub enum SpawnStep {
    Ready(DaemonLifecycleStatus),
    /// The daemon answers, but wrote no record.
    NoRecord,
    /// The record is that of another daemon: the child is ended.
    OtherRecord,
    /// The child ended.
    Exited,
    /// The time is over: the child is ended.
    TimedOut,
    Wait,
}

pub open spec fn records_same_boot(a: RuntimeRecord, b: RuntimeRecord) -> bool {
    a.boot_id@ == b.boot_id@ && a.pid == b.pid && a.port == b.port
}

/// Looks after a new daemon whose record is to be `expected`.
pub fn spawned_daemon(
    expected: &RuntimeRecord,
    hello: Option<&Hello>,
    record: Option<&RuntimeRecord>,
    exited: bool,
    deadline_passed: bool,
) -> (r: SpawnStep)
    ensures
        if hello is Some && daemon_manager::same_boot(*expected, *hello->0) {
            match record {
                None => r is NoRecord,
                Some(found) => if records_same_boot(*found, *expected) {
                    r matches SpawnStep::Ready(s) && s@ == daemon_manager::record_status(
                        *found,
                        daemon_manager::plugin_of(daemon_manager::hello_model(hello)),
                        true,
                        false,
                    )
                } else {
                    r is OtherRecord
                },
            }
        } else if exited {
            r is Exited
        } else if deadline_passed {
            r is TimedOut
        } else {
            r is Wait
        },
{
    if let Some(h) = hello {
        if daemon_record_matches_hello(expected, h) {
            let found = match record {
                None => return SpawnStep::NoRecord,
                Some(found) => found,
            };
            if !same(found.boot_id.as_str(), expected.boot_id.as_str()) || found.pid
                != expected.pid || found.port != expected.port {
                return SpawnStep::OtherRecord;
            }
            return SpawnStep::Ready(daemon_status_from_record(found, hello, true, false));
        }
    }
    if exited {
        SpawnStep::Exited
    } else if deadline_passed {
        SpawnStep::TimedOut
    } else {
        SpawnStep::Wait
    }
}

/// A line without the carriage return at its end.
pub open spec fn without_return(line: Seq<char>) -> Seq<char> {
    if line.len() > 0 && line.last() == '\r' {
        line.drop_last()
    } else {
        line
    }
}

/// The first `n` lines of a text that was cut at its line feeds. What follows
/// the last one is a line unless it is empty, and keeps its carriage return.
pub open spec fn lines_of(pieces: Seq<Seq<char>>, n: int) -> Seq<Seq<char>>
    decreases n,
{
    if n <= 0 {
        Seq::empty()
    } else {
        let before = lines_of(pieces, n - 1);
        if n < pieces.len() {
            before.push(without_return(pieces[n - 1]))
        } else if pieces[n - 1].len() > 0 {
            before.push(pieces[n - 1])
        } else {
            before
        }
    }
}

/// The lines of a text.
pub open spec fn lines(s: Seq<char>) -> Seq<Seq<char>> {
    let pieces = text::split(s, '\n');
    lines_of(pieces, pieces.len() as int)
}

/// Cuts a text into its lines.
pub fn split_lines(s: &str) -> (out: Vec<Vec<char>>)
    ensures
        out@.len() == lines(s@).len(),
        forall|i: int| 0 <= i < out@.len() ==> (#[trigger] out@[i])@ == lines(s@)[i],
{
    let chars = chars_of(s);
    let pieces = split_chars(&chars, '\n');
    let ghost models = text::split(s@, '\n');
    let count: usize = pieces.len();
    let mut out: Vec<Vec<char>> = Vec::new();
    let mut n: usize = 0;
    while n < count
        invariant
            n <= count,
            count == pieces@.len() && count == models.len(),
            forall|i: int| 0 <= i < count ==> (#[trigger] pieces@[i])@ == models[i],
            out@.len() == lines_of(models, n as int).len(),
            forall|i: int|
                0 <= i < out@.len() ==> (#[trigger] out@[i])@ == lines_of(models, n as int)[i],
        decreases count - n,
    {
        let piece = &pieces[n];
        let len: usize = piece.len();
        let ghost model = models[n as int];
        assert(piece@ == model);
        let ghost before = out@;
        if n + 1 < count {
            let kept: usize = if len > 0 && piece[len - 1] == '\r' {
                len - 1
            } else {
                len
            };
            let line = copy_range(piece, kept);
            proof {
                assert(line@ =~= without_return(model));
            }
            out.push(line);
        } else if len > 0 {
            let line = copy_range(piece, len);
            proof {
                assert(line@ =~= model);
            }
            out.push(line);
        }
        proof {
            assert forall|i: int| 0 <= i < out@.len() implies (#[trigger] out@[i])@ == lines_of(
                models,
                n + 1,
            )[i] by {
                if i < before.len() {
                    assert(out@[i] == before[i]);
                }
            }
        }
        n += 1;
    }
    out
}

fn copy_range(chars: &Vec<char>, to: usize) -> (out: Vec<char>)
    requires
        to <= chars@.len(),
    ensures
        out@ == chars@.take(to as int),
{
    let mut out: Vec<char> = Vec::new();
    let mut k: usize = 0;
    while k < to
        invariant
            k <= to <= chars@.len(),
            out@ == chars@.take(k as int),
        decreases to - k,
    {
        proof {
            assert(chars@.take(k + 1) =~= chars@.take(k as int).push(chars@[k as int]));
        }
        out.push(chars[k]);
        k += 1;
    }
    out
}

/// What a line says went wrong.
pub open spec fn error_detail(line: Seq<char>) -> Option<Seq<char>> {
    let said = text::trimmed(line);
    if "Error: "@.is_prefix_of(said) {
        Some(said.skip(7))
    } else {
        None
    }
}

/// What the last of the first `n` lines that names an error says.
pub open spec fn last_error(all: Seq<Seq<char>>, n: int) -> Option<Seq<char>>
    decreases n,
{
    if n <= 0 {
        None
    } else if error_detail(all[n - 1]) is Some {
        error_detail(all[n - 1])
    } else {
        last_error(all, n - 1)
    }
}

/// The message about a daemon that ended while it was started.
pub open spec fn exit_message(child_pid: u32, exit: Seq<char>, tail: Seq<char>) -> Seq<char> {
    let all = lines(tail);
    let detail = last_error(all, all.len() as int);
    if detail is Some && detail->0.len() > 0 {
        "daemon start: "@ + detail->0
    } else {
        "daemon start: child "@ + decimal::decimal_text(child_pid as nat) + " exited with "@ + exit
            + " before the exact handshake"@ + (if tail.len() == 0 {
            Seq::empty()
        } else {
            "\n"@ + tail
        })
    }
}

fn find_last_error(tail: &str) -> (r: Option<String>)
    ensures
        text::option_text(r) == last_error(lines(tail@), lines(tail@).len() as int),
{
    let all = split_lines(tail);
    let ghost models = lines(tail@);
    let mut n: usize = all.len();
    while n > 0
        invariant
            n <= all@.len(),
            models == lines(tail@),
            all@.len() == models.len(),
            forall|i: int| 0 <= i < models.len() ==> (#[trigger] all@[i])@ == models[i],
            last_error(models, models.len() as int) == last_error(models, n as int),
        decreases n,
    {
        let said = trim_chars(&all[n - 1]);
        assert(said@ == text::trimmed(models[n - 1]));
        if starts_with(&said, "Error: ") {
            proof {
                reveal_strlit("Error: ");
            }
            let detail = string_of_range(&said, 7, said.len());
            proof {
                assert(detail@ =~= said@.skip(7));
            }
            return Some(detail);
        }
        n -= 1;
    }
    None
}

/// Says why a daemon ended while it was started: what its log names as the
/// error, else how it ended.
pub fn managed_start_exit_message(child_pid: u32, exit: &str, tail: &str) -> (out: String)
    ensures
        out@ == exit_message(child_pid, exit@, tail@),
{
    if let Some(detail) = find_last_error(tail) {
        if chars_of(detail.as_str()).len() > 0 {
            return joined("daemon start: ", detail.as_str());
        }
    }
    let mut out = owned("daemon start: child ");
    append(&mut out, number_text(child_pid as u64).as_str());
    append(&mut out, " exited with ");
    append(&mut out, exit);
    append(&mut out, " before the exact handshake");
    if chars_of(tail).len() > 0 {
        append(&mut out, "\n");
        append(&mut out, tail);
        proof {
            let head = "daemon start: child "@ + decimal::decimal_text(child_pid as nat)
                + " exited with "@ + exit@ + " before the exact handshake"@;
            assert(head + "\n"@ + tail@ =~= head + ("\n"@ + tail@));
        }
    } else {
        proof {
            let head = "daemon start: child "@ + decimal::decimal_text(child_pid as nat)
                + " exited with "@ + exit@ + " before the exact handshake"@;
            assert(head + Seq::<char>::empty() =~= head);
        }
    }
    out
}

/// Lines with a line feed between each two.
pub open spec fn joined_lines(all: Seq<Seq<char>>, from: int, n: int) -> Seq<char>
    decreases n - from,
{
    if n <= from {
        Seq::empty()
    } else if n == from + 1 {
        all[from]
    } else {
        joined_lines(all, from, n - 1) + "\n"@ + all[n - 1]
    }
}

/// The last lines of a text.
pub open spec fn tail_text(s: Seq<char>, count: int) -> Seq<char> {
    let all = lines(s);
    let from = if all.len() > count {
        all.len() - count
    } else {
        0
    };
    joined_lines(all, from, all.len() as int)
}

/// The last lines of a log, of whose bytes those that are no UTF-8 are replaced.
pub fn read_log_tail(bytes: &[u8], count: usize) -> (out: String)
    ensures
        out@ == tail_text(fs_map::text_of_bytes(bytes@), count as int),
{
    let text = crate::fs_map::text_from_utf8_lossy(bytes);
    let all = split_lines(text.as_str());
    let ghost models = lines(text@);
    let len: usize = all.len();
    let from: usize = if len > count {
        len - count
    } else {
        0
    };
    let mut out = owned("");
    proof {
        reveal_strlit("");
        assert(out@ =~= Seq::<char>::empty());
    }
    let mut n: usize = from;
    while n < len
        invariant
            from <= n <= len,
            len == all@.len() && len == models.len(),
            forall|i: int| 0 <= i < models.len() ==> (#[trigger] all@[i])@ == models[i],
            out@ == joined_lines(models, from as int, n as int),
        decreases len - n,
    {
        let line = string_of(&all[n]);
        assert(line@ == models[n as int]);
        if n > from {
            append(&mut out, "\n");
        }
        append(&mut out, line.as_str());
        proof {
            if n == from {
                assert(out@ =~= line@);
            }
        }
        n += 1;
    }
    out
}

/// Where the reading of a log starts: at its beginning where it became shorter.
pub fn log_start(length: u64, start_offset: u64) -> (r: u64)
    ensures
        r == (if length < start_offset {
            0
        } else {
            start_offset
        }),
{
    if length < start_offset {
        0
    } else {
        start_offset
    }
}

/// The request that ends the daemon of a record.
pub fn managed_daemon_close_request(record: &RuntimeRecord, reason: &str) -> (r: WidgetControlBody)
    ensures
        text::option_text(r.token) == Some(record.control_token@),
        text::option_text(r.reason) == Some(reason@),
        text::option_text(r.expected_boot_id) == Some(record.boot_id@),
        r.expected_pid == Some(record.pid),
        r.expected_port == Some(record.port),
        text::option_text(r.expected_canonical_project) == Some(record.canonical_project@),
{
    WidgetControlBody {
        token: Some(owned(record.control_token.as_str())),
        reason: Some(owned(reason)),
        expected_boot_id: Some(owned(record.boot_id.as_str())),
        expected_pid: Some(record.pid),
        expected_port: Some(record.port),
        expected_canonical_project: Some(owned(record.canonical_project.as_str())),
    }
}

/// A daemon accepts the request to close that is made from its own record.
pub proof fn law_close_request_is_accepted(
    record: RuntimeRecord,
    daemon: access::DaemonIdentity,
    body: WidgetControlBody,
)
    requires
        daemon.boot_id@ == record.boot_id@,
        daemon.process_id == record.pid,
        daemon.listen_port == record.port,
        daemon.canonical_project@ == record.canonical_project@,
        text::option_text(body.token) == Some(record.control_token@),
        text::option_text(body.expected_boot_id) == Some(record.boot_id@),
        body.expected_pid == Some(record.pid),
        body.expected_port == Some(record.port),
        text::option_text(body.expected_canonical_project) == Some(record.canonical_project@),
    ensures
        access::token_problem(
            true,
            Some(record.control_token@),
            text::option_text(body.token),
        ) is None,
        access::identity_problem(daemon, body) is None,
{
}

/// Why a daemon is not stopped.
#[derive(Debug, Clone, Copy, PartialEq, Eq, Structural)]
pub enum StopProblem {
    /// A daemon without a record runs on that port.
    Unmanaged(u16),
    /// The record is that of another project.
    ForeignRecord,
    /// The daemon on that port does not answer.
    Unresponsive(u16),
    /// The daemon refused.
    Refused,
    /// The daemon still runs.
    TimedOut,
}

/// What a stop does.
#[derive(Debug)]
pub enum StopStep {
    Report(DaemonLifecycleStatus),
    /// The record is out of date and goes.
    RemoveAndReport(DaemonLifecycleStatus),
    /// The daemon is asked to close.
    Close,
}

/// Decides what a stop does: about a daemon without a record, or about the
/// record and what its port showed.
pub fn daemon_stop(
    record: Option<&RuntimeRecord>,
    record_is_project: bool,
    found_port: Option<u16>,
    probe: ManagedRecordProbe,
    hello: Option<&Hello>,
    canonical_project: &str,
) -> (r: Result<StopStep, StopProblem>)
    ensures
        match record {
            None => match found_port {
                Some(port) => r matches Err(p) && p == StopProblem::Unmanaged(port),
                None => r matches Ok(StopStep::Report(s)) && s@ == daemon_manager::stopped_status(
                    canonical_project@,
                ),
            },
            Some(found) => if !record_is_project {
                r matches Err(p) && p == StopProblem::ForeignRecord
            } else {
                match probe {
                    ManagedRecordProbe::Exact => r matches Ok(StopStep::Close),
                    ManagedRecordProbe::Unresponsive => r matches Err(p) && p
                        == StopProblem::Unresponsive(found.port),
                    ManagedRecordProbe::Different => r matches Ok(StopStep::RemoveAndReport(s))
                        && s@ == daemon_manager::record_status(
                        *found,
                        daemon_manager::plugin_of(daemon_manager::hello_model(hello)),
                        false,
                        true,
                    ),
                    ManagedRecordProbe::Stale => r matches Ok(StopStep::RemoveAndReport(s)) && s@
                        == daemon_manager::record_status(*found, None, false, true),
                }
            },
        },
{
    let found = match record {
        None => match found_port {
            Some(port) => return Err(StopProblem::Unmanaged(port)),
            None => return Ok(StopStep::Report(stopped_daemon_status(canonical_project))),
        },
        Some(found) => found,
    };
    if !record_is_project {
        return Err(StopProblem::ForeignRecord);
    }
    match probe {
        ManagedRecordProbe::Exact => Ok(StopStep::Close),
        ManagedRecordProbe::Unresponsive => Err(StopProblem::Unresponsive(found.port)),
        ManagedRecordProbe::Different => Ok(
            StopStep::RemoveAndReport(daemon_status_from_record(found, hello, false, true)),
        ),
        ManagedRecordProbe::Stale => Ok(
            StopStep::RemoveAndReport(daemon_status_from_record(found, None, false, true)),
        ),
    }
}

/// Whether the daemon said that it closes.
pub fn close_was_accepted(response: &str) -> (r: Result<(), StopProblem>)
    ensures
        r == (if json::flag_of(json::value_at(response@, "/ok"@)) == Some(true) {
            Ok::<(), StopProblem>(())
        } else {
            Err(StopProblem::Refused)
        }),
{
    match flag_at(response, "/ok") {
        Some(true) => Ok(()),
        _ => Err(StopProblem::Refused),
    }
}

/// Looks after a daemon that said that it closes. Reports it once its port shows
/// another daemon or none.
pub fn closing_daemon(
    record: &RuntimeRecord,
    probe: ManagedRecordProbe,
    response: &str,
    deadline_passed: bool,
) -> (r: Result<Option<DaemonLifecycleStatus>, StopProblem>)
    ensures
        if probe != ManagedRecordProbe::Exact && probe != ManagedRecordProbe::Unresponsive {
            r matches Ok(Some(s)) && s@ == daemon_manager::record_status(
                *record,
                json::flag_of(json::value_at(response@, "/pluginConnected"@)),
                false,
                false,
            )
        } else if deadline_passed {
            r matches Err(p) && p == StopProblem::TimedOut
        } else {
            r matches Ok(None)
        },
{
    if probe != ManagedRecordProbe::Exact && probe != ManagedRecordProbe::Unresponsive {
        let mut status = daemon_status_from_record(record, None, false, false);
        status.plugin_connected = flag_at(response, "/pluginConnected");
        return Ok(Some(status));
    }
    if deadline_passed {
        Err(StopProblem::TimedOut)
    } else {
        Ok(None)
    }
}

/// The line that tells the user of a daemon.
pub open spec fn status_text(s: StatusModel) -> Seq<char> {
    if s.running && s.unresponsive {
        "Ro Sync has an unresponsive managed daemon for "@ + s.canonical_project + " on "@ + (
        match s.base_url {
            Some(url) => url,
            None => "the recorded local port"@,
        }) + "; its runtime state was preserved."@
    } else if s.running {
        "Ro Sync is running for "@ + s.canonical_project + " on "@ + (match s.base_url {
            Some(url) => url,
            None => "unknown address"@,
        }) + " ("@ + (if s.externally_managed {
            "external"@
        } else if s.managed {
            "managed"@
        } else {
            "manual"@
        }) + ")."@
    } else if s.stale {
        "Ro Sync is not running for "@ + s.canonical_project + " (removed stale runtime state)."@
    } else {
        "Ro Sync is not running for "@ + s.canonical_project + "."@
    }
}

/// How a daemon is started anew.
#[derive(Debug, Clone, Copy, PartialEq, Eq, Structural)]
pub struct RestartPlan {
    /// A daemon or its record is left, which is ended first.
    pub stop_first: bool,
    /// The port that is asked for.
    pub port: Option<u16>,
}

/// The port that the caller gives counts, else the one of the record.
pub fn restart_plan(
    status: &DaemonLifecycleStatus,
    requested: Option<u16>,
    recorded: Option<u16>,
) -> (r: RestartPlan)
    ensures
        r == (RestartPlan {
            stop_first: status.running || status.stale,
            port: if requested is Some {
                requested
            } else {
                recorded
            },
        }),
{
    let port = match requested {
        Some(port) => Some(port),
        None => recorded,
    };
    RestartPlan { stop_first: status.running || status.stale, port }
}

/// Tells the user of a daemon.
pub fn daemon_status_line(status: &DaemonLifecycleStatus) -> (out: String)
    ensures
        out@ == status_text(status@),
{
    let mut out = owned(
        if status.running {
            if status.unresponsive {
                "Ro Sync has an unresponsive managed daemon for "
            } else {
                "Ro Sync is running for "
            }
        } else {
            "Ro Sync is not running for "
        },
    );
    append(&mut out, status.canonical_project.as_str());
    if status.running {
        append(&mut out, " on ");
        match &status.base_url {
            Some(url) => {
                append(&mut out, url.as_str());
            },
            None => {
                append(
                    &mut out,
                    if status.unresponsive {
                        "the recorded local port"
                    } else {
                        "unknown address"
                    },
                );
            },
        }
        if status.unresponsive {
            append(&mut out, "; its runtime state was preserved.");
        } else {
            append(&mut out, " (");
            append(
                &mut out,
                if status.externally_managed {
                    "external"
                } else if status.managed {
                    "managed"
                } else {
                    "manual"
                },
            );
            append(&mut out, ").");
        }
    } else if status.stale {
        append(&mut out, " (removed stale runtime state).");
    } else {
        append(&mut out, ".");
    }
    out
}

} // verus!
