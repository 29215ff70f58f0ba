use rosync::capture::{
    ArtifactProblem, CaptureLimits, CapturePhotoArgs, CapturePhotoUiMode, PhotoChunk,
    PhotoProblem, PictureProblem, SizeProblem,
};
use rosync::capture_flow::{
    PhotoEvent, PhotoFailure, PhotoRun, PhotoStage, ScreenEvent, ScreenFailure, ScreenRequest,
    ScreenRun, ScreenStage,
};

const LIMITS: CaptureLimits = CaptureLimits {
    max_dimension: 4096,
    max_pixels: 4_000_000,
    max_bytes: 16_000_000,
    photo_max_dimension: 2048,
    photo_max_pixels: 2_000_000,
};

fn args(focus: bool) -> CapturePhotoArgs {
    CapturePhotoArgs {
        focus: if focus { Some("Workspace/House".to_string()) } else { None },
        region: None,
        size: None,
        isometric: true,
        direction: None,
        camera_cframe: None,
        usual_padding: true,
        transparent: true,
        alpha_bleed: false,
        include_world: false,
        no_tight_crop: false,
        ui: None,
        ui_target: None,
        include_ui: false,
    }
}

fn photo() -> PhotoRun {
    PhotoRun::start(args(false), CapturePhotoUiMode::Hidden, LIMITS)
}

fn taken(width: u32, byte_length: usize) -> PhotoEvent {
    PhotoEvent::Prepared { session: "s".to_string(), width, height: 1, byte_length }
}

fn chunk(bytes_base64: &str) -> PhotoEvent {
    PhotoEvent::Chunk(PhotoChunk {
        offset: 0,
        next_offset: 4,
        eof: true,
        bytes_base64: bytes_base64.to_string(),
    })
}

#[test]
fn a_photo_is_read_written_and_closed() {
    let mut run = photo();
    assert_eq!(run.stage, PhotoStage::Prepare);
    run.happened(taken(1, 4));
    assert_eq!(run.stage, PhotoStage::Read);
    run.happened(chunk("AQIDBA=="));
    assert_eq!(run.stage, PhotoStage::Write);
    let picture = run.photo.as_ref().unwrap();
    assert_eq!(picture.bytes[..4], [137, 80, 78, 71]);
    assert_eq!(picture.sha256.len(), 64);
    run.happened(PhotoEvent::Written);
    assert_eq!(run.stage, PhotoStage::Close);
    run.happened(PhotoEvent::Closed);
    assert_eq!(run.stage, PhotoStage::Over);
    assert_eq!((run.failure, run.closed), (None, Some(true)));
    assert_eq!(run.pixels.as_ref().unwrap().rgba, [1, 2, 3, 4]);
    assert_eq!(run.photo.as_ref().unwrap().bytes[..4], [137, 80, 78, 71]);
}

#[test]
fn a_photo_that_fails_is_closed_all_the_same() {
    let mut run = photo();
    run.happened(taken(1, 4));
    run.happened(chunk("?"));
    assert_eq!(run.stage, PhotoStage::Close);
    assert_eq!(run.failure, Some(PhotoFailure::Photo(PhotoProblem::ChunkNotBase64)));
    run.happened(PhotoEvent::Failed);
    assert_eq!(run.stage, PhotoStage::Over);
    assert_eq!(run.closed, Some(false));
    assert_eq!(run.failure, Some(PhotoFailure::Photo(PhotoProblem::ChunkNotBase64)));

    let mut wrong = photo();
    wrong.happened(taken(1, 5));
    assert_eq!(wrong.stage, PhotoStage::Close);
    assert_eq!(wrong.failure, Some(PhotoFailure::Photo(PhotoProblem::Length)));

    let mut unreadable = photo();
    unreadable.happened(PhotoEvent::Unreadable { session: Some("s".to_string()) });
    assert_eq!(unreadable.stage, PhotoStage::Close);
}

#[test]
fn without_a_kept_photo_there_is_nothing_to_close() {
    let mut run = photo();
    run.happened(PhotoEvent::Failed);
    assert_eq!((run.stage, run.closed), (PhotoStage::Over, None));
    let mut unreadable = photo();
    unreadable.happened(PhotoEvent::Unreadable { session: None });
    assert_eq!(unreadable.stage, PhotoStage::Over);
}

#[test]
fn the_plugin_is_asked_what_it_can_do() {
    let start = || PhotoRun::start(args(true), CapturePhotoUiMode::Hidden, LIMITS);
    let mut able = start();
    assert_eq!(able.stage, PhotoStage::Capabilities);
    able.happened(PhotoEvent::Capabilities(
        r#"{"features":{"photoInstanceTightCrop":true}}"#.to_string(),
    ));
    assert_eq!(able.stage, PhotoStage::Prepare);
    let mut unable = start();
    unable.happened(PhotoEvent::Capabilities("{}".to_string()));
    assert_eq!(unable.stage, PhotoStage::Over);
    assert_eq!(unable.failure, Some(PhotoFailure::Photo(PhotoProblem::NoCropFeature)));
}

const REQUEST: ScreenRequest = ScreenRequest {
    macos: true,
    ui_all: true,
    has_focus: false,
    has_view: false,
    has_padding: false,
};

fn screen() -> ScreenRun {
    ScreenRun::start(REQUEST, LIMITS)
}

fn prepared(width: u32) -> ScreenEvent {
    ScreenEvent::Prepared { session: "s".to_string(), width, height: 10, byte_length: 100 }
}

fn id() -> String {
    "0123456789abcdef".repeat(3)
}

fn leased() -> ScreenRun {
    let mut run = screen();
    run.happened(prepared(10));
    assert_eq!(run.stage, ScreenStage::Lease);
    let reply = format!(r#"{{"ok":true,"lease":{{"id":"{}","token":"t"}}}}"#, id());
    run.happened(ScreenEvent::Leased(reply));
    assert_eq!(run.stage, ScreenStage::Export);
    assert_eq!(run.lease, Some((id(), "t".to_string())));
    run
}

fn materialized(consumed: bool) -> ScreenRun {
    let mut run = leased();
    run.happened(ScreenEvent::Exported(format!(r#"{{"id":"{}"}}"#, id())));
    assert_eq!(run.stage, ScreenStage::Materialize);
    run.happened(ScreenEvent::Materialized { consumed });
    assert_eq!(run.stage, ScreenStage::Close);
    run
}

#[test]
fn a_capture_is_leased_exported_and_given_back() {
    let mut run = materialized(true);
    run.happened(ScreenEvent::Failed);
    assert_eq!(run.stage, ScreenStage::Over);
    assert!(run.consumed && run.failure.is_none());

    let mut later = materialized(false);
    later.happened(ScreenEvent::Done);
    assert_eq!(later.stage, ScreenStage::Consume);
    later.happened(ScreenEvent::Done);
    assert_eq!(later.stage, ScreenStage::Over);
    assert!(later.consumed);

    let mut never = materialized(false);
    never.happened(ScreenEvent::Done);
    never.happened(ScreenEvent::Failed);
    assert_eq!(never.stage, ScreenStage::Cleanup);
    never.happened(ScreenEvent::Done);
    assert_eq!(never.stage, ScreenStage::Over);
    assert!(!never.consumed && never.failure.is_none());
}

#[test]
fn a_failed_capture_gives_its_place_up() {
    let mut run = leased();
    let other = "f".repeat(48);
    run.happened(ScreenEvent::Exported(format!(r#"{{"id":"{other}"}}"#)));
    assert_eq!(run.failure, Some(ScreenFailure::OtherLease));
    assert_eq!(run.stage, ScreenStage::Close);
    run.happened(ScreenEvent::Done);
    assert_eq!(run.stage, ScreenStage::Cleanup);
    run.happened(ScreenEvent::Failed);
    assert_eq!(run.stage, ScreenStage::Over);
    assert_eq!(run.failure, Some(ScreenFailure::OtherLease));

    let mut unplaced = screen();
    unplaced.happened(prepared(5000));
    assert_eq!(
        unplaced.failure,
        Some(ScreenFailure::Artifact(ArtifactProblem::Picture(PictureProblem::Size(
            SizeProblem::Dimension
        ))))
    );
    unplaced.happened(ScreenEvent::Done);
    assert_eq!(unplaced.stage, ScreenStage::Over);
}

#[test]
fn leases_are_refused_for_their_form() {
    let refused = |reply: &str| {
        let mut run = screen();
        run.happened(prepared(10));
        run.happened(ScreenEvent::Leased(reply.to_string()));
        assert_eq!(run.stage, ScreenStage::Close);
        run.failure.unwrap()
    };
    assert_eq!(refused(r#"{"ok":false}"#), ScreenFailure::LeaseRejected);
    assert_eq!(refused(r#"{"ok":true}"#), ScreenFailure::NoLease);
    assert_eq!(
        refused(r#"{"ok":true,"lease":{}}"#),
        ScreenFailure::Artifact(ArtifactProblem::NoId)
    );
    assert_eq!(
        refused(r#"{"ok":true,"lease":{"id":"x"}}"#),
        ScreenFailure::Artifact(ArtifactProblem::BadId)
    );
    let blank = format!(r#"{{"ok":true,"lease":{{"id":"{}","token":""}}}}"#, id());
    assert_eq!(refused(&blank), ScreenFailure::NoToken);
}

#[test]
fn the_window_stands_in_for_studio() {
    let error = "studio screenshot provider is unsupported after explicit capture authorization \
                 (Feature not supported yet)";
    let mut run = screen();
    run.happened(ScreenEvent::Refused { error: error.to_string() });
    assert_eq!(run.stage, ScreenStage::Fallback);
    run.happened(ScreenEvent::Done);
    assert_eq!((run.stage, run.failure), (ScreenStage::Over, None));
    let mut focused =
        ScreenRun::start(ScreenRequest { has_focus: true, ..REQUEST }, LIMITS);
    focused.happened(ScreenEvent::Refused { error: error.to_string() });
    assert_eq!(focused.stage, ScreenStage::Over);
    assert_eq!(focused.failure, Some(ScreenFailure::Outside));
}
