//! What holds of the daemon's life: when it is started, found and stopped, and what
//! its log says.
use vstd::prelude::*;

use crate::daemon_control;
use crate::daemon_control::{StartProblem, StartStep};
use crate::daemon_manager;
use crate::daemon_manager::{Hello, ManagedRecordProbe, StatusModel};
use crate::json;
use crate::lifecycle::RuntimeRecord;
use crate::path_text;
use crate::text;

verus! {

/// A daemon is launched exactly where none runs, and one of another manager is used as
/// it is; one that does not answer is left alone.
pub proof fn law_daemon_is_launched_once(
    status: StatusModel,
    token: Option<Seq<char>>,
    supplied: Option<Seq<char>>,
    root: Option<Seq<char>>,
    advertised: Option<Seq<char>>,
    port: Option<u16>,
    answers: bool,
)
    ensures
        ({
            let r = daemon_control::start_outcome(
                status,
                token,
                supplied,
                root,
                advertised,
                port,
                answers,
            );
            let ours = !status.unresponsive && status.running && !status.externally_managed;
            let known = token is Some && (supplied is None || supplied == token);
            let rooted = root is None || (advertised is Some && path_text::path_value(
                advertised->0,
            ) == path_text::path_value(root->0));
            let placed = port is None || status.port == port || !answers;
            &&& r == Ok::<StartStep, StartProblem>(StartStep::Launch) <==> !status.unresponsive
                && !status.running
            &&& r == Ok::<StartStep, StartProblem>(StartStep::Reuse) <==> !status.unresponsive
                && status.running && status.externally_managed
            &&& r == Ok::<StartStep, StartProblem>(StartStep::ReuseAfterMetadata) <==> ours && known
                && rooted && placed
            &&& r == Err::<StartStep, StartProblem>(StartProblem::OtherOwner) <==> ours && token
                is Some && supplied is Some && supplied != token
            &&& status.unresponsive ==> r is Err
        }),
{
}

/// A record is that of the daemon that answers exactly where the project, the boot id,
/// the process and the port are its own.
pub proof fn law_record_is_of_the_daemon_that_answers(record: RuntimeRecord, hello: Hello)
    ensures
        daemon_manager::same_boot(record, hello) <==> {
            let said = hello.text@;
            let pid = json::number_of(json::value_at(said, "/pid"@));
            let port = json::number_of(json::value_at(said, "/port"@));
            &&& hello.serves_project
            &&& json::text_of(json::value_at(said, "/bootId"@)) == Some(record.boot_id@)
            &&& pid is Some && pid->0 == record.pid
            &&& port is Some && port->0 == record.port
        },
{
}

/// A record is stale only where nothing answers and its port is free.
pub proof fn law_record_is_stale_only_with_a_free_port(
    record: RuntimeRecord,
    hello: Option<Hello>,
    free: bool,
)
    ensures
        ({
            let r = daemon_manager::probe_outcome(record, hello, free);
            &&& r == ManagedRecordProbe::Stale <==> hello is None && free
            &&& r == ManagedRecordProbe::Unresponsive <==> hello is None && !free
            &&& r == ManagedRecordProbe::Exact <==> hello is Some && daemon_manager::same_boot(
                record,
                hello->0,
            )
        }),
{
}

/// What was recorded of a daemon is what is reported of it.
pub proof fn law_recorded_daemon_is_reported(
    record: RuntimeRecord,
    plugin: Option<bool>,
    running: bool,
    stale: bool,
)
    ensures
        ({
            let s = daemon_manager::record_status(record, plugin, running, stale);
            &&& s.ok && s.managed && !s.unresponsive && !s.externally_managed
            &&& s.running == running && s.stale == stale && s.plugin_connected == plugin
            &&& s.pid == Some(record.pid) && s.port == Some(record.port)
            &&& s.boot_id == Some(record.boot_id@) && s.log_path == Some(record.log_path@)
            &&& s.project == record.project@ && s.canonical_project == record.canonical_project@
            &&& s.managed_by == Some(record.managed_by@) && s.started_at == Some(record.started_at)
            &&& s.base_url == Some(
                "http://127.0.0.1:"@ + crate::decimal::decimal_text(record.port as nat),
            )
        }),
{
}

/// A daemon that was found is reported as running and as that of another manager; the
/// project is the one that was asked about.
pub proof fn law_found_daemon_is_reported(project: Seq<char>, port: u16, said: Seq<char>)
    ensures
        ({
            let s = daemon_manager::external_status(project, port, said);
            let pid = json::number_of(json::value_at(said, "/pid"@));
            let managed = json::flag_of(json::value_at(said, "/managed"@));
            &&& s.ok && s.running && s.externally_managed && !s.stale && !s.unresponsive
            &&& s.canonical_project == project && s.port == Some(port)
            &&& s.log_path is None
            &&& s.boot_id == json::text_of(json::value_at(said, "/bootId"@))
            &&& pid is Some && pid->0 <= u32::MAX ==> s.pid == Some(pid->0 as u32)
            &&& pid is None || pid->0 > u32::MAX ==> s.pid is None
            &&& managed is Some ==> s.managed == managed->0
            &&& managed is None ==> s.managed == (json::flag_of(
                json::value_at(said, "/widgetOwned"@),
            ) == Some(true))
            &&& json::text_of(json::value_at(said, "/project"@)) is None ==> s.project == project
        }),
{
}

/// After a search, a daemon is reported as running exactly where one was found; a
/// record without a daemon is reported as stale.
pub proof fn law_search_decides_what_runs(
    record: Option<RuntimeRecord>,
    hello: Option<Hello>,
    found: Option<(u16, Seq<char>)>,
    project: Seq<char>,
)
    ensures
        ({
            let s = daemon_manager::scanned_status(record, hello, found, project);
            &&& s.ok
            &&& s.running <==> found is Some
            &&& s.stale <==> found is None && record is Some
            &&& found is None && record is None ==> s.port is None && s.pid is None && !s.managed
                && s.canonical_project == project
        }),
{
}

/// A daemon that another manager runs is another's, and only a running one is.
pub proof fn law_other_managers_daemon(s: StatusModel, manager: Seq<char>)
    ensures
        daemon_manager::other_manager(s, manager) <==> s.running && s.managed && (s.managed_by is None
            || s.managed_by->0 != manager),
{
}

/// A token of an owner has 16 to 512 characters, of those that need no escaping.
pub proof fn law_owner_token_needs_no_escaping(s: Seq<char>)
    ensures
        daemon_manager::is_owner_token(s) <==> 16 <= s.len() <= 512 && forall|i: int|
            0 <= i < s.len() ==> ('a' <= #[trigger] s[i] && s[i] <= 'z') || ('A' <= s[i] && s[i]
                <= 'Z') || ('0' <= s[i] && s[i] <= '9') || s[i] == '-' || s[i] == '_' || s[i]
                == '.' || s[i] == '~',
        daemon_manager::is_variable_name(s) <==> s.len() > 0 && forall|i: int|
            0 <= i < s.len() ==> ('a' <= #[trigger] s[i] && s[i] <= 'z') || ('A' <= s[i] && s[i]
                <= 'Z') || ('0' <= s[i] && s[i] <= '9') || s[i] == '_',
{
}

/// The line end of another system is dropped with the line.
pub proof fn law_line_ends_are_dropped(line: Seq<char>)
    ensures
        daemon_control::without_return(line + seq!['\r']) == line,
        line.len() == 0 || line.last() != '\r' ==> daemon_control::without_return(line) == line,
{
    assert((line + seq!['\r']).drop_last() =~= line);
}

/// The last line with an error is the one that is told.
pub proof fn law_last_error_is_told(all: Seq<Seq<char>>, n: int, k: int)
    requires
        0 <= k < n <= all.len(),
        daemon_control::error_detail(all[k]) is Some,
        forall|j: int| k < j < n ==> daemon_control::error_detail(#[trigger] all[j]) is None,
    ensures
        daemon_control::last_error(all, n) == daemon_control::error_detail(all[k]),
    decreases n,
{
    if k < n - 1 {
        assert(daemon_control::error_detail(all[n - 1]) is None);
        law_last_error_is_told(all, n - 1, k);
    }
}

/// What an error line tells is what follows its first word.
pub proof fn law_error_line_tells_its_detail(line: Seq<char>)
    ensures
        daemon_control::error_detail(line) matches Some(d) ==> text::trimmed(line) == "Error: "@
            + d,
        daemon_control::error_detail(line) is None ==> !"Error: "@.is_prefix_of(
            text::trimmed(line),
        ),
{
    reveal_strlit("Error: ");
    let said = text::trimmed(line);
    if "Error: "@.is_prefix_of(said) {
        assert(said =~= "Error: "@ + said.skip(7));
    }
}

/// Lines are put together with one line end between each two.
pub proof fn law_lines_are_put_together(all: Seq<Seq<char>>, from: int, mid: int, n: int)
    requires
        0 <= from < mid < n <= all.len(),
    ensures
        daemon_control::joined_lines(all, from, n) == daemon_control::joined_lines(all, from, mid)
            + seq!['\n'] + daemon_control::joined_lines(all, mid, n),
        daemon_control::joined_lines(all, from, from + 1) == all[from],
    decreases n,
{
    reveal_strlit("\n");
    assert("\n"@ =~= seq!['\n']);
    reveal_with_fuel(daemon_control::joined_lines, 2);
    if mid < n - 1 {
        law_lines_are_put_together(all, from, mid, n - 1);
        let a = daemon_control::joined_lines(all, from, mid);
        let b = daemon_control::joined_lines(all, mid, n - 1);
        assert(a + seq!['\n'] + b + "\n"@ + all[n - 1] =~= a + seq!['\n'] + (b + "\n"@ + all[n
            - 1]));
    }
}

/// The tail of a log is its last lines, as many as are asked for or all.
pub proof fn law_tail_is_of_the_last_lines(s: Seq<char>, count: int)
    requires
        count >= 0,
    ensures
        ({
            let all = daemon_control::lines(s);
            &&& all.len() <= count ==> daemon_control::tail_text(s, count)
                == daemon_control::joined_lines(all, 0, all.len() as int)
            &&& all.len() > count ==> daemon_control::tail_text(s, count)
                == daemon_control::joined_lines(all, all.len() - count, all.len() as int)
        }),
{
}

} // verus!
