use rosync::img_upload::{
    bearer_token, default_display_name, extract_asset_id, initial_operation_done,
    operation_error, operation_path_from, operation_polled, operation_url, parse_creator,
    upload_started, upload_timed_out, validate_file, AssetFileProblem, Creator, CreatorProblem,
    UploadStep, MAX_ASSET_BYTES,
};
use rosync::json::{flag_at, json_scalar_to_string, number_at, read_at, text_at};

#[test]
fn parses_creator_targets() {
    assert_eq!(parse_creator("user:123").unwrap(), Creator::User("123".to_string()));
    assert_eq!(parse_creator("g:456").unwrap(), Creator::Group("456".to_string()));
    assert!(parse_creator("place:789").is_err());
    assert!(parse_creator("user:abc").is_err());
}

#[test]
fn creators_are_refused_for_their_form() {
    assert_eq!(parse_creator("123").unwrap_err(), CreatorProblem::Form);
    assert_eq!(parse_creator("user:abc").unwrap_err(), CreatorProblem::Id);
    assert_eq!(parse_creator("user:").unwrap_err(), CreatorProblem::Id);
    assert_eq!(parse_creator("place:789").unwrap_err(), CreatorProblem::Kind);
}

#[test]
fn builds_operation_urls() {
    assert_eq!(
        operation_url("operations/abc"),
        "https://apis.roblox.com/assets/v1/operations/abc"
    );
    assert_eq!(
        operation_url("assets/v1/operations/abc"),
        "https://apis.roblox.com/assets/v1/operations/abc"
    );
}

#[test]
fn extracts_asset_ids() {
    let value = r#"{ "response": { "asset": { "assetId": 12345 } } }"#;
    assert_eq!(extract_asset_id(value).as_deref(), Some("12345"));
    assert_eq!(extract_asset_id(r#"{"response":{"assetId":"77"}}"#).as_deref(), Some("77"));
    assert_eq!(extract_asset_id("{}"), None);
}

#[test]
fn operations_are_read_for_their_parts() {
    assert_eq!(
        operation_path_from(r#"{"path":"operations/abc"}"#).as_deref(),
        Some("operations/abc")
    );
    assert!(initial_operation_done(r#"{"done":true}"#));
    assert!(!initial_operation_done(r#"{"done":false}"#));
    assert!(operation_error(r#"{"error":{"code":3}}"#).is_some());
    assert_eq!(operation_error(r#"{"done":true}"#), None);
}

#[test]
fn an_upload_is_polled_until_it_is_done() {
    let started = r#"{"path":"operations/a","done":true,"response":{"assetId":5}}"#;
    match upload_started(started, false) {
        UploadStep::Finished(state) => {
            assert!(state.done);
            assert_eq!(state.asset_id.as_deref(), Some("5"));
            assert_eq!(state.asset_uri.as_deref(), Some("rbxassetid://5"));
        }
        _ => panic!("not finished"),
    }
    match upload_started(r#"{"path":"operations/a"}"#, true) {
        UploadStep::Poll(path) => assert_eq!(path, "operations/a"),
        _ => panic!("not polled"),
    }
    match upload_started(r#"{"path":"operations/a"}"#, false) {
        UploadStep::Finished(state) => assert!(!state.done),
        _ => panic!("a request that does not wait is answered at once"),
    }
    assert!(matches!(
        operation_polled(r#"{"done":true,"error":{"message":"no"}}"#, "operations/a"),
        UploadStep::Failed(_)
    ));
    assert!(matches!(
        operation_polled(r#"{"done":false}"#, "operations/a"),
        UploadStep::Poll(_)
    ));
}

#[test]
fn files_and_times_are_bounded() {
    assert!(validate_file(true, MAX_ASSET_BYTES).is_ok());
    assert_eq!(
        validate_file(true, MAX_ASSET_BYTES + 1).unwrap_err(),
        AssetFileProblem::TooLarge(MAX_ASSET_BYTES + 1)
    );
    assert_eq!(validate_file(false, 0).unwrap_err(), AssetFileProblem::NotAFile);
    assert!(!upload_timed_out(9, 10));
    assert!(!upload_timed_out(10, 10));
    assert!(upload_timed_out(11, 10));
}

#[test]
fn display_names_and_tokens_have_defaults() {
    assert_eq!(default_display_name(Some("icon.png")), "icon");
    assert_eq!(default_display_name(None), "Ro Sync Asset");
    assert_eq!(bearer_token("abc"), "abc");
    assert_eq!(bearer_token("Bearer abc "), "abc");
}

#[test]
fn json_parts_are_found_by_pointer() {
    let text = r#"{"a":{"b":"x","n":7,"f":true}}"#;
    assert_eq!(text_at(text, "/a/b").as_deref(), Some("x"));
    assert_eq!(number_at(text, "/a/n"), Some(7));
    assert_eq!(flag_at(text, "/a/f"), Some(true));
    assert_eq!(text_at(text, "/a/n"), None);
    assert_eq!(json_scalar_to_string(&read_at(text, "/a/n")).as_deref(), Some("7"));
    assert!(read_at("not json", "/a").is_none());
    assert!(read_at(text, "/missing").is_none());
}
