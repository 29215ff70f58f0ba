use rosync::access::{
    authorize_destructive_identity, authorize_manager_control, authorize_widget_control,
    close_reason, constant_time_text_eq, find_query_value, is_authorized_widget_browser_request,
    is_trusted_local_app_origin, manager_close, origin_is_loopback, project_init_inner,
    widget_close, CloseReply, ControlProblem, DaemonIdentity, OriginParts, ProjectInitProblem,
    WidgetControlBody,
};

#[test]
fn only_local_origins_are_trusted() {
    assert!(is_trusted_local_app_origin(Some("http://localhost:3000")));
    assert!(is_trusted_local_app_origin(Some("http://127.0.0.1:8080")));
    assert!(is_trusted_local_app_origin(Some("tauri://localhost")));
    assert!(!is_trusted_local_app_origin(Some("https://example.com")));
    assert!(!is_trusted_local_app_origin(Some("http://localhost.example.com")));
    assert!(!is_trusted_local_app_origin(Some("http://user@localhost")));
    assert!(!is_trusted_local_app_origin(Some("not a url")));
    assert!(!is_trusted_local_app_origin(None));
}

#[test]
fn loopback_is_read_off_the_parts_of_an_origin() {
    let mut parts = OriginParts {
        scheme: "http".to_string(),
        username: String::new(),
        has_password: false,
        host: Some("localhost".to_string()),
    };
    assert!(origin_is_loopback(&parts));
    parts.has_password = true;
    assert!(!origin_is_loopback(&parts));
    parts.has_password = false;
    parts.host = None;
    assert!(!origin_is_loopback(&parts));
}

#[test]
fn query_values_are_found_by_key() {
    assert_eq!(find_query_value("a=1&b=2", "b").as_deref(), Some("2"));
    assert_eq!(find_query_value("a=1&a=2", "a").as_deref(), Some("1"));
    assert_eq!(find_query_value("ab=1", "a"), None);
}

#[test]
fn a_browser_needs_the_token() {
    let origin = Some("http://localhost:3000");
    let query = Some("widgetToken=secret");
    assert!(is_authorized_widget_browser_request(origin, query, true, Some("secret")));
    assert!(!is_authorized_widget_browser_request(origin, query, true, Some("other")));
    assert!(!is_authorized_widget_browser_request(origin, None, true, Some("secret")));
    assert!(!is_authorized_widget_browser_request(origin, query, false, Some("secret")));
    assert!(is_authorized_widget_browser_request(Some("null"), query, true, Some("secret")));
    let outside = Some("https://example.com");
    assert!(!is_authorized_widget_browser_request(outside, query, true, Some("secret")));
}

#[test]
fn texts_are_compared_as_a_whole() {
    assert!(constant_time_text_eq("abc", "abc"));
    assert!(!constant_time_text_eq("abc", "abd"));
    assert!(!constant_time_text_eq("abc", "ab"));
    assert!(constant_time_text_eq("", ""));
}

#[test]
fn control_needs_an_owner_and_its_token() {
    assert!(authorize_widget_control(true, Some("t"), Some("t")).is_ok());
    assert_eq!(
        authorize_widget_control(false, Some("t"), Some("t")).unwrap_err(),
        ControlProblem::NotOwned
    );
    assert_eq!(
        authorize_widget_control(true, None, Some("t")).unwrap_err(),
        ControlProblem::NoToken
    );
    assert_eq!(
        authorize_manager_control(true, Some("t"), Some("u")).unwrap_err(),
        ControlProblem::WrongToken
    );
    assert!(authorize_manager_control(true, Some("t"), Some("t")).is_ok());
}

fn daemon() -> DaemonIdentity {
    DaemonIdentity {
        boot_id: "boot".to_string(),
        process_id: 42,
        listen_port: 8080,
        canonical_project: "/p".to_string(),
    }
}

fn body() -> WidgetControlBody {
    WidgetControlBody {
        token: Some("t".to_string()),
        reason: Some("  done  ".to_string()),
        expected_boot_id: Some("boot".to_string()),
        expected_pid: Some(42),
        expected_port: Some(8080),
        expected_canonical_project: Some("/p".to_string()),
    }
}

#[test]
fn closing_needs_the_identity_of_the_daemon() {
    assert!(authorize_destructive_identity(&daemon(), &body()).is_ok());
    let mut incomplete = body();
    incomplete.expected_pid = None;
    assert_eq!(
        authorize_destructive_identity(&daemon(), &incomplete).unwrap_err(),
        ControlProblem::NoIdentity
    );
    let mut other = body();
    other.expected_boot_id = Some("earlier".to_string());
    assert_eq!(
        authorize_destructive_identity(&daemon(), &other).unwrap_err(),
        ControlProblem::OtherIdentity
    );
    assert!(matches!(
        manager_close(true, Some("t"), &daemon(), &other),
        CloseReply::Refused(ControlProblem::OtherIdentity)
    ));
    match manager_close(true, Some("t"), &daemon(), &body()) {
        CloseReply::Closing(reason) => assert_eq!(reason, "  done  "),
        _ => panic!("not closing"),
    }
}

#[test]
fn a_widget_does_not_close_under_a_connected_plugin() {
    assert!(matches!(
        widget_close(true, Some("t"), &daemon(), &body(), true),
        CloseReply::KeptAlive(_)
    ));
    assert!(matches!(
        widget_close(true, Some("t"), &daemon(), &body(), false),
        CloseReply::Closing(_)
    ));
    assert!(matches!(
        widget_close(true, Some("other"), &daemon(), &body(), false),
        CloseReply::Refused(ControlProblem::WrongToken)
    ));
}

#[test]
fn a_close_has_a_reason() {
    assert_eq!(close_reason(Some(" why "), "default"), " why ");
    assert_eq!(close_reason(Some("  "), "default"), "default");
    assert_eq!(close_reason(None, "default"), "default");
}

#[test]
fn projects_are_made_for_the_plugin_alone() {
    assert_eq!(
        project_init_inner(false, Some("secret"), "secret").unwrap_err(),
        ProjectInitProblem::Unavailable
    );
    assert_eq!(
        project_init_inner(true, None, "secret").unwrap_err(),
        ProjectInitProblem::BadRequest
    );
    assert_eq!(
        project_init_inner(true, Some("other"), "secret").unwrap_err(),
        ProjectInitProblem::Unauthorized
    );
    assert!(project_init_inner(true, Some("secret"), "secret").is_ok());
}
