use rosync::access::{manager_close, CloseReply, DaemonIdentity};
use rosync::daemon_control::{
    choose_daemon_port, close_was_accepted, closing_daemon, daemon_port_allocation_lock_path,
    daemon_start, daemon_status_line, daemon_stop, log_start, managed_daemon_close_request,
    managed_start_exit_message, read_log_tail, restart_plan, spawned_daemon, PortChoice,
    RestartPlan, SpawnStep, StartProblem, StartStep, StopProblem, StopStep,
};
use rosync::daemon_manager::{
    check_secret_name, classify_running_daemon_for_manager, daemon_record_matches_hello,
    daemon_status_from_record, external_daemon_status, matching_external_daemon_status,
    normalize_optional_metadata, owner_token_is_valid, parent_is_gone, probe_managed_record,
    read_named_secret_env, read_widget_owner_token_state_file, resolve_optional_secret,
    resolve_widget_owner_token, status_after_probe, status_after_scan, stopped_daemon_status,
    unresponsive_daemon_status, validate_existing_daemon_owner, Hello, ManagedRecordProbe,
    MetadataProblem, OwnerProblem, OwnerTokenProblem, ParentRead, SecretProblem, SecretSource,
    StatusStep,
};
use rosync::lifecycle::{runtime_paths, RuntimeRecord, RUNTIME_RECORD_VERSION};
use rosync::path_text::same_path;

fn record() -> RuntimeRecord {
    RuntimeRecord {
        version: RUNTIME_RECORD_VERSION,
        project: "p".into(),
        canonical_project: "/p".into(),
        pid: 42,
        port: 49_123,
        boot_id: "boot-a".into(),
        control_token: "token".into(),
        managed_by: "test".into(),
        log_path: "/tmp/daemon.log".into(),
        started_at: 123,
    }
}

fn hello(boot: &str) -> Hello {
    Hello {
        text: format!(
            r#"{{"bootId":"{boot}","pid":42,"port":49123,"pluginConnected":true}}"#
        ),
        serves_project: true,
    }
}

#[test]
fn a_record_names_one_boot() {
    assert!(daemon_record_matches_hello(&record(), &hello("boot-a")));
    assert!(!daemon_record_matches_hello(&record(), &hello("boot-b")));
    let mut elsewhere = hello("boot-a");
    elsewhere.serves_project = false;
    assert!(!daemon_record_matches_hello(&record(), &elsewhere));
    assert!(matches!(
        probe_managed_record(&record(), Some(&hello("boot-a")), false),
        ManagedRecordProbe::Exact
    ));
    assert!(matches!(
        probe_managed_record(&record(), Some(&hello("boot-b")), false),
        ManagedRecordProbe::Different
    ));
    assert!(matches!(
        probe_managed_record(&record(), None, false),
        ManagedRecordProbe::Unresponsive
    ));
    assert!(matches!(
        probe_managed_record(&record(), None, true),
        ManagedRecordProbe::Stale
    ));
}

#[test]
fn a_status_tells_of_its_daemon() {
    let status = daemon_status_from_record(&record(), Some(&hello("boot-a")), true, false);
    assert_eq!(status.base_url.as_deref(), Some("http://127.0.0.1:49123"));
    assert_eq!(status.plugin_connected, Some(true));
    assert_eq!(
        daemon_status_line(&status),
        "Ro Sync is running for /p on http://127.0.0.1:49123 (managed)."
    );
    assert_eq!(
        daemon_status_line(&unresponsive_daemon_status(&record())),
        "Ro Sync has an unresponsive managed daemon for /p on http://127.0.0.1:49123; its \
         runtime state was preserved."
    );
    assert_eq!(
        daemon_status_line(&stopped_daemon_status("/p")),
        "Ro Sync is not running for /p."
    );
    let external = external_daemon_status("/p", 8000, r#"{"managed":false,"pid":7}"#);
    assert!(external.running && !external.managed);
    assert_eq!(external.pid, Some(7));
    assert!(matching_external_daemon_status("/p", 8000, &hello("boot-b")).is_some());
}

#[test]
fn daemons_of_other_managers_keep_their_logs() {
    let mut status = daemon_status_from_record(&record(), None, true, false);
    classify_running_daemon_for_manager(&mut status, "test");
    assert!(!status.externally_managed && status.log_path.is_some());
    classify_running_daemon_for_manager(&mut status, "other");
    assert!(status.externally_managed && status.log_path.is_none());
}

#[test]
fn secrets_have_one_source() {
    assert!(matches!(resolve_optional_secret(None, None), Ok(SecretSource::Absent)));
    assert!(matches!(
        resolve_optional_secret(Some("s".into()), None),
        Ok(SecretSource::Direct(_))
    ));
    assert!(matches!(
        resolve_widget_owner_token(None, Some("/state.json")),
        Ok(SecretSource::Named(_))
    ));
    assert_eq!(
        resolve_optional_secret(Some("s".into()), Some("N")).unwrap_err(),
        SecretProblem::TwoSources
    );
    assert_eq!(
        resolve_optional_secret(Some(String::new()), None).unwrap_err(),
        SecretProblem::Empty
    );
    assert!(check_secret_name("MY_SECRET_1").is_ok());
    assert_eq!(check_secret_name("MY-SECRET").unwrap_err(), SecretProblem::BadName);
    assert_eq!(read_named_secret_env("A", None).unwrap_err(), SecretProblem::Missing);
    assert_eq!(
        read_named_secret_env("A", Some(String::new())).unwrap_err(),
        SecretProblem::EmptyVariable
    );
    assert_eq!(read_named_secret_env("A", Some("v".into())).unwrap(), "v");
}

#[test]
fn owner_tokens_are_read_from_the_state_file() {
    let token = "abcdefghij-_.~0123";
    assert!(owner_token_is_valid(token));
    assert!(!owner_token_is_valid("short"));
    assert!(!owner_token_is_valid("abcdefghij 0123456789"));
    let state = format!(r#"{{"state":{{"daemonOwnerToken":"{token}"}}}}"#);
    assert_eq!(read_widget_owner_token_state_file(Some(0o600), &state).unwrap(), token);
    assert_eq!(read_widget_owner_token_state_file(None, &state).unwrap(), token);
    assert_eq!(
        read_widget_owner_token_state_file(None, "{}").unwrap_err(),
        OwnerTokenProblem::NoToken
    );
    assert_eq!(
        read_widget_owner_token_state_file(None, "{").unwrap_err(),
        OwnerTokenProblem::NotJson
    );
    assert_eq!(
        read_widget_owner_token_state_file(Some(0o640), &state).unwrap_err(),
        OwnerTokenProblem::NotPrivate
    );
    let huge = format!("{state}{}", " ".repeat(4 * 1024 * 1024));
    assert_eq!(
        read_widget_owner_token_state_file(Some(0o600), &huge).unwrap_err(),
        OwnerTokenProblem::TooLarge
    );
}

#[test]
fn a_caller_without_the_token_is_no_owner() {
    assert!(validate_existing_daemon_owner(&record(), None).is_ok());
    assert!(validate_existing_daemon_owner(&record(), Some("token")).is_ok());
    assert_eq!(
        validate_existing_daemon_owner(&record(), Some("else")).unwrap_err(),
        OwnerProblem::OtherOwner
    );
    assert_eq!(normalize_optional_metadata(Some(" a ")).unwrap().as_deref(), Some("a"));
    assert_eq!(normalize_optional_metadata(Some("  ")).unwrap_err(), MetadataProblem::Blank);
    assert!(parent_is_gone(&ParentRead::Bytes(0)));
    assert!(!parent_is_gone(&ParentRead::Bytes(3)));
    assert!(!parent_is_gone(&ParentRead::Interrupted));
    assert!(parent_is_gone(&ParentRead::Failed));
}

#[test]
fn a_running_daemon_is_reused_by_its_owner() {
    let stopped = stopped_daemon_status("/p");
    let running = daemon_status_from_record(&record(), Some(&hello("boot-a")), true, false);
    assert_eq!(
        daemon_start(&stopped, None, None, None, None, None, false).unwrap(),
        StartStep::Launch
    );
    let kept = record();
    assert_eq!(
        daemon_start(&running, Some(&kept), Some("token"), None, None, None, false).unwrap(),
        StartStep::ReuseAfterMetadata
    );
    assert_eq!(
        daemon_start(&running, Some(&kept), Some("else"), None, None, None, false).unwrap_err(),
        StartProblem::OtherOwner
    );
    assert_eq!(
        daemon_start(&running, Some(&kept), None, Some("/r"), None, None, false).unwrap_err(),
        StartProblem::OtherRoot
    );
    let rooted = |advertised: &str| {
        daemon_start(&running, Some(&kept), None, Some("/r/s"), Some(advertised), None, false)
    };
    for same in ["/r/s", "/r/s/", "/r//s", "/r/./s/."] {
        assert_eq!(rooted(same).unwrap(), StartStep::ReuseAfterMetadata);
    }
    for other in ["r/s", "/r", "/r/s/t", "/r/../s", "/R/s"] {
        assert_eq!(rooted(other).unwrap_err(), StartProblem::OtherRoot);
    }
    assert!(same_path("./a", "./a/") && !same_path("./a", "a"));
    let mut external = daemon_status_from_record(&kept, None, true, false);
    external.externally_managed = true;
    assert_eq!(
        daemon_start(&external, None, Some("else"), None, None, None, false).unwrap(),
        StartStep::Reuse
    );
    assert_eq!(
        daemon_start(&running, None, None, None, None, None, false).unwrap_err(),
        StartProblem::NoRecord
    );
    assert_eq!(
        daemon_start(&running, Some(&kept), None, None, None, Some(1), true).unwrap_err(),
        StartProblem::OtherPort
    );
    assert_eq!(
        daemon_start(
            &unresponsive_daemon_status(&kept),
            Some(&kept),
            None,
            None,
            None,
            None,
            false
        )
        .unwrap_err(),
        StartProblem::Unresponsive(49_123)
    );
}

#[test]
fn ports_are_given_out_under_one_lock() {
    let first = daemon_port_allocation_lock_path(&runtime_paths("/state", "/one"));
    let second = daemon_port_allocation_lock_path(&runtime_paths("/state", "/two"));
    assert_eq!(first.as_deref(), Some("/state/daemons/ports.start.lock"));
    assert_eq!(first, second);
    assert!(matches!(choose_daemon_port(None, None, "/p"), Ok(PortChoice::Scan)));
    assert!(matches!(choose_daemon_port(Some(0), None, "/p"), Ok(PortChoice::Ephemeral)));
    assert!(matches!(choose_daemon_port(Some(9), None, "/p"), Ok(PortChoice::Exact(9))));
    let mut other = hello("boot-a");
    other.serves_project = false;
    assert_eq!(
        choose_daemon_port(Some(9), Some(&other), "/p").unwrap_err(),
        StartProblem::PortTaken
    );
}

#[test]
fn a_new_daemon_is_awaited() {
    let expected = record();
    assert!(matches!(
        spawned_daemon(&expected, Some(&hello("boot-a")), Some(&expected), false, false),
        SpawnStep::Ready(_)
    ));
    assert!(matches!(
        spawned_daemon(&expected, Some(&hello("boot-a")), None, false, false),
        SpawnStep::NoRecord
    ));
    assert!(matches!(
        spawned_daemon(&expected, None, None, true, false),
        SpawnStep::Exited
    ));
    assert!(matches!(
        spawned_daemon(&expected, None, None, false, true),
        SpawnStep::TimedOut
    ));
    assert!(matches!(spawned_daemon(&expected, None, None, false, false), SpawnStep::Wait));
}

#[test]
fn an_early_exit_says_why() {
    assert_eq!(
        managed_start_exit_message(7, "exit status: 1", "noise\nError: port taken\r\nmore"),
        "daemon start: port taken"
    );
    assert_eq!(
        managed_start_exit_message(7, "exit status: 1", ""),
        "daemon start: child 7 exited with exit status: 1 before the exact handshake"
    );
    assert_eq!(read_log_tail(b"a\nb\r\nc\xff\n", 2), "b\nc\u{fffd}");
    assert_eq!(read_log_tail(b"", 2), "");
    assert_eq!(log_start(10, 4), 4);
    assert_eq!(log_start(10, 40), 0);
}

#[test]
fn the_close_request_of_a_record_is_accepted() {
    let record = record();
    let request = managed_daemon_close_request(&record, "stop");
    let daemon = DaemonIdentity {
        boot_id: record.boot_id.clone(),
        process_id: record.pid,
        listen_port: record.port,
        canonical_project: record.canonical_project.clone(),
    };
    match manager_close(true, Some("token"), &daemon, &request) {
        CloseReply::Closing(reason) => assert_eq!(reason, "stop"),
        _ => panic!("the request was refused"),
    }
}

#[test]
fn only_our_daemon_is_stopped() {
    let kept = record();
    assert_eq!(
        daemon_stop(None, false, Some(9), ManagedRecordProbe::Stale, None, "/p").unwrap_err(),
        StopProblem::Unmanaged(9)
    );
    assert!(matches!(
        daemon_stop(None, false, None, ManagedRecordProbe::Stale, None, "/p"),
        Ok(StopStep::Report(_))
    ));
    assert_eq!(
        daemon_stop(Some(&kept), false, None, ManagedRecordProbe::Exact, None, "/p").unwrap_err(),
        StopProblem::ForeignRecord
    );
    assert!(matches!(
        daemon_stop(
            Some(&kept),
            true,
            None,
            ManagedRecordProbe::Exact,
            Some(&hello("boot-a")),
            "/p"
        ),
        Ok(StopStep::Close)
    ));
    assert_eq!(
        daemon_stop(Some(&kept), true, None, ManagedRecordProbe::Unresponsive, None, "/p")
            .unwrap_err(),
        StopProblem::Unresponsive(49_123)
    );
    assert!(matches!(
        daemon_stop(Some(&kept), true, None, ManagedRecordProbe::Stale, None, "/p"),
        Ok(StopStep::RemoveAndReport(_))
    ));
    assert!(close_was_accepted(r#"{"ok":true}"#).is_ok());
    assert_eq!(close_was_accepted(r#"{"ok":false}"#).unwrap_err(), StopProblem::Refused);
    let said = r#"{"ok":true}"#;
    assert!(closing_daemon(&kept, ManagedRecordProbe::Exact, said, false).unwrap().is_none());
    assert!(closing_daemon(&kept, ManagedRecordProbe::Stale, said, false).unwrap().is_some());
    assert_eq!(
        closing_daemon(&kept, ManagedRecordProbe::Exact, said, true).unwrap_err(),
        StopProblem::TimedOut
    );
}

#[test]
fn the_status_comes_from_the_record_or_a_scan() {
    let kept = record();
    assert!(matches!(
        status_after_probe(&kept, ManagedRecordProbe::Exact, Some(&hello("boot-a")), "/p"),
        StatusStep::Report(_)
    ));
    assert!(matches!(
        status_after_probe(&kept, ManagedRecordProbe::Stale, None, "/p"),
        StatusStep::Scan
    ));
    let found = status_after_scan(None, None, Some((8000, "{}")), "/p");
    assert!(found.running);
    assert_eq!(found.port, Some(8000));
    let none = status_after_scan(None, None, None, "/p");
    assert!(!none.running && !none.stale);
}

#[test]
fn a_restart_ends_what_is_left_and_keeps_the_port() {
    let stopped = stopped_daemon_status("/p");
    assert_eq!(
        restart_plan(&stopped, None, Some(7)),
        RestartPlan { stop_first: false, port: Some(7) }
    );
    assert_eq!(
        restart_plan(&stopped, Some(9), Some(7)),
        RestartPlan { stop_first: false, port: Some(9) }
    );
    let running = daemon_status_from_record(&record(), None, true, false);
    assert!(restart_plan(&running, None, None).stop_first);
    let stale = daemon_status_from_record(&record(), None, false, true);
    assert_eq!(
        restart_plan(&stale, None, None),
        RestartPlan { stop_first: true, port: None }
    );
}
