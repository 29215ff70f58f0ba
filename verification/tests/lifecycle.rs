use rosync::lifecycle::{
    check_secret_file, credentials_path, legacy_widget_dir, lock_text, number_text, project_key,
    read_credential, read_record, remove_credential, remove_record_if_boot, runtime_paths,
    state_dir, temporary_name, write_credential, CredentialProblem, CredentialStore, GivenPath,
    RecordProblem, RemoveOutcome, RuntimeRecord, RuntimeRecordGuard, SecretFileProblem,
    StateDirProblem, StateEnvironment, MAX_CREDENTIAL_STORE_BYTES, RUNTIME_RECORD_VERSION,
};

#[test]
fn project_key_is_stable_and_path_specific() {
    let first = project_key("/tmp/one");
    let repeated = project_key("/tmp/one");
    let second = project_key("/tmp/two");
    assert_eq!(first, repeated);
    assert_ne!(first, second);
    assert_eq!(first.len(), 64);
}

fn record() -> RuntimeRecord {
    RuntimeRecord {
        version: RUNTIME_RECORD_VERSION,
        project: "/tmp/project".into(),
        canonical_project: "/tmp/project".into(),
        pid: 42,
        port: 49_123,
        boot_id: "boot-a".into(),
        control_token: "token".into(),
        managed_by: "test".into(),
        log_path: "/tmp/daemon.log".into(),
        started_at: 123,
    }
}

#[test]
fn runtime_record_round_trips_and_guard_respects_boot_identity() {
    let record = record();
    assert_eq!(read_record(record.clone()).unwrap(), record);
    assert!(!remove_record_if_boot(Some(&record), "boot-b"));
    assert!(remove_record_if_boot(Some(&record), "boot-a"));
    assert!(!remove_record_if_boot(None, "boot-a"));
    let guard = RuntimeRecordGuard::new("/tmp/daemon.json".into(), "boot-a".into());
    assert!(guard.removes(Some(&record)));
    let other = RuntimeRecordGuard::new("/tmp/daemon.json".into(), "boot-b".into());
    assert!(!other.removes(Some(&record)));
}

#[test]
fn records_of_another_version_are_refused() {
    let mut newer = record();
    newer.version = RUNTIME_RECORD_VERSION + 1;
    assert_eq!(
        read_record(newer).unwrap_err(),
        RecordProblem::Version(RUNTIME_RECORD_VERSION + 1)
    );
}

#[test]
fn runtime_files_of_a_project_share_its_key() {
    let paths = runtime_paths("/state", "/tmp/one");
    let key = project_key("/tmp/one");
    assert_eq!(paths.record, format!("/state/daemons/{key}.json"));
    assert_eq!(paths.start_lock, format!("/state/daemons/{key}.start.lock"));
    assert_eq!(paths.log, format!("/state/daemons/{key}.log"));
    assert_eq!(credentials_path("/state"), "/state/secrets.json");
}

fn environment() -> StateEnvironment {
    StateEnvironment {
        explicit: None,
        configured: None,
        current_dir: Some("/work".to_string()),
        linux: true,
        xdg_state: None,
        home: Some("/home/u".to_string()),
        data_local: Some("/data".to_string()),
    }
}

#[test]
fn the_state_directory_is_chosen_in_order() {
    let mut env = environment();
    assert_eq!(state_dir(&env).unwrap(), "/home/u/.local/state/rosync");
    env.xdg_state = Some("/xdg".to_string());
    assert_eq!(state_dir(&env).unwrap(), "/xdg/rosync");
    env.configured = Some(GivenPath { text: "/configured".to_string(), absolute: true });
    assert_eq!(state_dir(&env).unwrap(), "/configured");
    env.explicit = Some(GivenPath { text: "here".to_string(), absolute: false });
    assert_eq!(state_dir(&env).unwrap(), "/work/here");
    env.current_dir = None;
    assert_eq!(state_dir(&env).unwrap_err(), StateDirProblem::NoCurrentDirectory);
    let mut nowhere = environment();
    nowhere.home = None;
    assert_eq!(state_dir(&nowhere).unwrap_err(), StateDirProblem::NoHome);
}

#[test]
fn secrets_are_private_and_small() {
    assert!(check_secret_file(10, Some(0o600)).is_ok());
    assert!(check_secret_file(10, None).is_ok());
    assert_eq!(check_secret_file(10, Some(0o644)).unwrap_err(), SecretFileProblem::NotPrivate);
    assert_eq!(
        check_secret_file(MAX_CREDENTIAL_STORE_BYTES + 1, Some(0o600)).unwrap_err(),
        SecretFileProblem::TooLarge
    );
}

#[test]
fn a_written_credential_reads_back_until_it_is_removed() {
    let mut store = CredentialStore::new();
    assert_eq!(read_credential(&store, "api"), None);
    assert_eq!(write_credential(&mut store, "api", "").unwrap_err(), CredentialProblem::Empty);
    assert!(write_credential(&mut store, "api", "one").is_ok());
    assert!(write_credential(&mut store, "other", "two").is_ok());
    assert!(write_credential(&mut store, "api", "three").is_ok());
    assert_eq!(read_credential(&store, "api").as_deref(), Some("three"));
    assert_eq!(read_credential(&store, "other").as_deref(), Some("two"));
    assert_eq!(remove_credential(&mut store, "none"), RemoveOutcome::Missing);
    assert_eq!(remove_credential(&mut store, "api"), RemoveOutcome::Kept);
    assert_eq!(read_credential(&store, "api"), None);
    assert_eq!(remove_credential(&mut store, "other"), RemoveOutcome::Emptied);
}

#[test]
fn small_texts_are_made_of_numbers() {
    assert_eq!(number_text(0), "0");
    assert_eq!(number_text(90210), "90210");
    assert_eq!(lock_text(42, 123), "pid=42\nacquiredAt=123\n");
    assert_eq!(temporary_name("daemon.json", 42, "n"), ".daemon.json.42-n.tmp");
    assert_eq!(
        legacy_widget_dir(Some("/home/u")).as_deref(),
        Some("/home/u/.terminal64/widgets/ro-sync")
    );
    assert_eq!(legacy_widget_dir(None), None);
}
