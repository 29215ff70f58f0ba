use rosync::capture::{
    asks_for_native_permission, capture_authorization, capture_deadline_remaining,
    capture_effective_provider, capture_error_allows_macos_window_fallback,
    capture_photo_uses_tight_crop, capture_scene_photo_args, capture_work_deadline,
    check_artifact_metadata, check_capture_file, check_native_capture, check_photo_features,
    check_photo_options, check_picture_size, check_prepared_capture, compare_features,
    encode_photo_png, finish_photo, materialize_capture_artifact, needs_features,
    parse_capture_region, parse_capture_size, photo_frame, plugin_artifact_id, screen_frame,
    validate_artifact_id, validate_capture_dimensions, validate_photo_dimensions,
    verify_capture_png, ArtifactMetadata, ArtifactProblem, Authorization, CaptureLimits,
    CapturePhotoArgs, CapturePhotoUiMode, CaptureSceneArgs, DeadlineProblem, FrameProblem,
    NativeProblem, PhotoChunk, PhotoPixels, PhotoProblem, PictureProblem, SizeProblem,
};
use rosync::hex::hex;

const LIMITS: CaptureLimits = CaptureLimits {
    max_dimension: 4096,
    max_pixels: 4_000_000,
    max_bytes: 16_000_000,
    photo_max_dimension: 2048,
    photo_max_pixels: 2_000_000,
};

fn args() -> CapturePhotoArgs {
    CapturePhotoArgs {
        focus: None,
        region: None,
        size: None,
        isometric: true,
        direction: None,
        camera_cframe: None,
        usual_padding: true,
        transparent: true,
        alpha_bleed: false,
        include_world: false,
        no_tight_crop: false,
        ui: None,
        ui_target: None,
        include_ui: false,
    }
}

fn text(s: &str) -> Option<String> {
    Some(s.to_string())
}

#[test]
fn regions_are_four_numbers() {
    let region = parse_capture_region(" 1, -2,30 ,40").unwrap();
    assert_eq!((region.x, region.y, region.width, region.height), (1, -2, 30, 40));
    assert_eq!(parse_capture_region("1,2,3").unwrap_err(), FrameProblem::Form);
    assert_eq!(parse_capture_region("a,2,3,4").unwrap_err(), FrameProblem::X);
    assert_eq!(parse_capture_region("1,b,3,4").unwrap_err(), FrameProblem::Y);
    assert_eq!(parse_capture_region("1,2,-3,4").unwrap_err(), FrameProblem::Width);
    assert_eq!(parse_capture_region("1,2,3,4294967296").unwrap_err(), FrameProblem::Height);
    assert_eq!(parse_capture_region("1,2,0,4").unwrap_err(), FrameProblem::Empty);
}

#[test]
fn sizes_are_two_numbers() {
    assert_eq!(parse_capture_size("640x480").unwrap(), (640, 480));
    assert_eq!(parse_capture_size(" 640 X 480 ").unwrap(), (640, 480));
    assert_eq!(parse_capture_size("640").unwrap_err(), FrameProblem::Form);
    assert_eq!(parse_capture_size("ax480").unwrap_err(), FrameProblem::Width);
    assert_eq!(parse_capture_size("640x").unwrap_err(), FrameProblem::Height);
    assert_eq!(parse_capture_size("0x480").unwrap_err(), FrameProblem::Empty);
}

#[test]
fn dimensions_are_bounded() {
    assert!(validate_capture_dimensions(4096, 900, &LIMITS).is_ok());
    assert_eq!(
        validate_capture_dimensions(4097, 1, &LIMITS).unwrap_err(),
        SizeProblem::Dimension
    );
    assert_eq!(
        validate_capture_dimensions(4096, 4096, &LIMITS).unwrap_err(),
        SizeProblem::Pixels
    );
    assert!(validate_photo_dimensions(1024, 1024, &LIMITS).is_ok());
    assert_eq!(validate_photo_dimensions(0, 4, &LIMITS).unwrap_err(), SizeProblem::Empty);
    assert_eq!(
        validate_photo_dimensions(2049, 4, &LIMITS).unwrap_err(),
        SizeProblem::PhotoDimension
    );
    assert_eq!(
        validate_photo_dimensions(2048, 1024, &LIMITS).unwrap_err(),
        SizeProblem::PhotoPixels
    );
}

#[test]
fn a_scene_is_a_tight_transparent_photo() {
    let photo = capture_scene_photo_args(CaptureSceneArgs {
        focus: "Workspace/House".to_string(),
        size: "640x480".to_string(),
        isometric: true,
        usual_padding: true,
        no_tight_crop: false,
    });
    assert_eq!(photo.focus.as_deref(), Some("Workspace/House"));
    assert!(photo.transparent && photo.alpha_bleed && !photo.include_world);
    assert!(capture_photo_uses_tight_crop(&photo));
    assert_eq!(check_photo_options(&photo).unwrap(), CapturePhotoUiMode::Hidden);
}

#[test]
fn photo_options_exclude_each_other() {
    let refused = |change: fn(&mut CapturePhotoArgs)| {
        let mut given = args();
        change(&mut given);
        check_photo_options(&given).unwrap_err()
    };
    assert_eq!(refused(|a| a.no_tight_crop = true), PhotoProblem::CropWithoutFocus);
    assert_eq!(refused(|a| a.ui_target = text(" ")), PhotoProblem::BlankTarget);
    assert_eq!(
        refused(|a| {
            a.ui_target = text("t");
            a.ui = Some(CapturePhotoUiMode::Overlay);
        }),
        PhotoProblem::TargetWithOtherUi
    );
    assert_eq!(
        refused(|a| {
            a.ui_target = text("t");
            a.include_ui = true;
        }),
        PhotoProblem::TargetWithIncludeUi
    );
    assert_eq!(
        refused(|a| {
            a.ui_target = text("t");
            a.focus = text("f");
        }),
        PhotoProblem::TargetWithFocus
    );
    assert_eq!(
        refused(|a| {
            a.ui_target = text("t");
            a.transparent = false;
        }),
        PhotoProblem::TargetNotTransparent
    );
    assert_eq!(
        refused(|a| {
            a.ui = Some(CapturePhotoUiMode::Only);
            a.focus = text("f");
        }),
        PhotoProblem::UiOnlyWithFocus
    );
    assert_eq!(
        refused(|a| {
            a.ui = Some(CapturePhotoUiMode::Only);
            a.transparent = false;
        }),
        PhotoProblem::UiOnlyNotTransparent
    );
    assert_eq!(refused(|a| a.camera_cframe = text("c")), PhotoProblem::CameraWithoutFocus);
    assert_eq!(
        refused(|a| {
            a.camera_cframe = text("c");
            a.focus = text("f");
            a.direction = text("d");
        }),
        PhotoProblem::CameraWithOtherView
    );
    assert_eq!(refused(|a| a.include_world = true), PhotoProblem::ViewWithoutFocus);
    assert_eq!(
        refused(|a| {
            a.focus = text("f");
            a.region = text("0,0,1,1");
        }),
        PhotoProblem::RegionWithFocus
    );
}

#[test]
fn frames_have_a_region_or_a_size() {
    let mut given = args();
    given.region = text("1,2,30,40");
    let frame = photo_frame(&given, &LIMITS).unwrap();
    assert_eq!(frame.region.unwrap().width, 30);
    assert_eq!(frame.size, None);
    given.region = text("-1,2,30,40");
    assert_eq!(photo_frame(&given, &LIMITS).unwrap_err(), PhotoProblem::NegativeRegion);
    given.region = text("1");
    assert_eq!(
        photo_frame(&given, &LIMITS).unwrap_err(),
        PhotoProblem::Region(FrameProblem::Form)
    );
    let mut focused = args();
    focused.focus = text("f");
    assert_eq!(photo_frame(&focused, &LIMITS).unwrap().size, Some((1024, 1024)));
    focused.size = text("4x");
    assert_eq!(
        photo_frame(&focused, &LIMITS).unwrap_err(),
        PhotoProblem::Size(FrameProblem::Height)
    );
    focused.size = text("2049x1");
    assert_eq!(
        photo_frame(&focused, &LIMITS).unwrap_err(),
        PhotoProblem::Dimensions(SizeProblem::PhotoDimension)
    );
    assert!(screen_frame(Some("-1,2,30,40"), Some("30x40"), &LIMITS).is_ok());
}

#[test]
fn a_photo_needs_what_the_plugin_can_do() {
    let mut given = args();
    assert!(!needs_features(&given, CapturePhotoUiMode::Hidden));
    given.focus = text("f");
    assert!(needs_features(&given, CapturePhotoUiMode::Hidden));
    let nothing = r#"{"features":{}}"#;
    let cropping = r#"{"features":{"photoInstanceTightCrop":true}}"#;
    assert_eq!(
        check_photo_features(&given, CapturePhotoUiMode::Hidden, nothing),
        Some(PhotoProblem::NoCropFeature)
    );
    assert_eq!(check_photo_features(&given, CapturePhotoUiMode::Hidden, cropping), None);
    given.camera_cframe = text("c");
    assert_eq!(
        check_photo_features(&given, CapturePhotoUiMode::Hidden, cropping),
        Some(PhotoProblem::NoCameraFeature)
    );
    let mut target = args();
    target.ui_target = text("t");
    assert_eq!(
        compare_features(&target, CapturePhotoUiMode::Only, true, false, true, true),
        Some(PhotoProblem::NoTargetFeature)
    );
    assert_eq!(
        compare_features(&target, CapturePhotoUiMode::Only, true, true, false, true),
        Some(PhotoProblem::NoUiOnlyFeature)
    );
}

fn chunk(offset: usize, next_offset: usize, eof: bool, bytes_base64: &str) -> PhotoChunk {
    PhotoChunk { offset, next_offset, eof, bytes_base64: bytes_base64.to_string() }
}

#[test]
fn chunks_complete_the_photo() {
    let mut pixels = PhotoPixels::await_pixels(1, 2, 8, &LIMITS).unwrap();
    assert_eq!(pixels.next_offset(), Some(0));
    assert!(pixels.take_chunk(&chunk(0, 6, false, "AQIDBAUG")).is_ok());
    assert_eq!(pixels.next_offset(), Some(6));
    assert_eq!(
        pixels.take_chunk(&chunk(0, 6, false, "AQIDBAUG")).unwrap_err(),
        PhotoProblem::ChunkRange
    );
    assert_eq!(
        pixels.take_chunk(&chunk(6, 8, true, "?")).unwrap_err(),
        PhotoProblem::ChunkNotBase64
    );
    assert_eq!(
        pixels.take_chunk(&chunk(6, 8, true, "Bw==")).unwrap_err(),
        PhotoProblem::ChunkLength
    );
    assert_eq!(
        pixels.take_chunk(&chunk(6, 8, false, "Bwg=")).unwrap_err(),
        PhotoProblem::ChunkEnd
    );
    assert!(pixels.take_chunk(&chunk(6, 8, true, "Bwg=")).is_ok());
    assert_eq!(pixels.next_offset(), None);
    assert_eq!(pixels.rgba, vec![1, 2, 3, 4, 5, 6, 7, 8]);

    let photo = finish_photo(&pixels, &LIMITS).unwrap();
    assert_eq!(verify_capture_png(&photo.bytes, Some((1, 2)), &LIMITS).unwrap(), (1, 2));
    assert_eq!(photo.sha256.len(), 64);
}

#[test]
fn a_prepared_photo_has_the_length_of_its_pixels() {
    assert_eq!(
        PhotoPixels::await_pixels(1, 2, 9, &LIMITS).unwrap_err(),
        PhotoProblem::Length
    );
    assert_eq!(
        PhotoPixels::await_pixels(0, 2, 0, &LIMITS).unwrap_err(),
        PhotoProblem::Dimensions(SizeProblem::Empty)
    );
    assert!(check_prepared_capture(10, 10, 100, &LIMITS).is_ok());
    assert!(check_prepared_capture(5000, 10, 100, &LIMITS).is_err());
}

#[test]
fn pictures_are_checked_before_they_are_kept() {
    let png = encode_photo_png(2, 1, &[9, 9, 9, 255, 8, 8, 8, 255]).unwrap();
    assert_eq!(png[..4], [137, 80, 78, 71]);
    assert_eq!(verify_capture_png(&png, None, &LIMITS).unwrap(), (2, 1));
    assert_eq!(
        verify_capture_png(&png, Some((1, 1)), &LIMITS).unwrap_err(),
        PictureProblem::OtherSize(2, 1)
    );
    assert_eq!(
        verify_capture_png(b"not a picture", None, &LIMITS).unwrap_err(),
        PictureProblem::NotPng
    );
    assert_eq!(
        verify_capture_png(&png[..10], None, &LIMITS).unwrap_err(),
        PictureProblem::Header
    );
    let cut = &png[..png.len() - 20];
    assert_eq!(verify_capture_png(cut, None, &LIMITS).unwrap_err(), PictureProblem::Rows);
    assert_eq!(
        check_picture_size(true, Some((5000, 1)), None, &LIMITS).unwrap_err(),
        PictureProblem::Size(SizeProblem::Dimension)
    );
    assert_eq!(encode_photo_png(2, 1, &[1, 2]).unwrap_err(), PhotoProblem::PixelCount);
}

fn metadata(bytes: &[u8]) -> ArtifactMetadata {
    ArtifactMetadata {
        id: "ab".repeat(24),
        mime: "image/png".to_string(),
        size: bytes.len() as u64,
        sha256: hex(&rosync::conflict::hash(bytes)),
        path_is_absolute: true,
    }
}

#[test]
fn artifacts_are_held_to_their_metadata() {
    let png = encode_photo_png(1, 1, &[1, 2, 3, 4]).unwrap();
    let said = metadata(&png);
    let id = said.id.clone();
    assert!(check_artifact_metadata(&id, &said, &LIMITS).is_ok());
    assert_eq!(
        check_artifact_metadata("other", &said, &LIMITS).unwrap_err(),
        ArtifactProblem::OtherId
    );
    let changed = |change: fn(&mut ArtifactMetadata)| {
        let mut said = metadata(b"x");
        change(&mut said);
        check_artifact_metadata(&"ab".repeat(24), &said, &LIMITS).unwrap_err()
    };
    assert_eq!(changed(|m| m.mime = "image/jpeg".to_string()), ArtifactProblem::NotPng);
    assert_eq!(changed(|m| m.size = 0), ArtifactProblem::SizeLimit);
    assert_eq!(changed(|m| m.sha256 = "zz".repeat(32)), ArtifactProblem::BadDigest);
    assert_eq!(changed(|m| m.path_is_absolute = false), ArtifactProblem::RelativePath);

    let checked = materialize_capture_artifact(&png, &said, None, Some((1, 1)), &LIMITS).unwrap();
    assert_eq!((checked.width, checked.height, checked.size), (1, 1, png.len()));
    assert!(materialize_capture_artifact(&png, &said, Some(1), None, &LIMITS).is_err());
    let mut forged = metadata(&png);
    forged.sha256 = "00".repeat(32);
    assert_eq!(
        materialize_capture_artifact(&png, &forged, None, None, &LIMITS).unwrap_err(),
        ArtifactProblem::DigestMismatch
    );
    assert_eq!(check_capture_file(5, true, 5, &LIMITS).unwrap(), 5);
    assert_eq!(check_capture_file(5, false, 5, &LIMITS).unwrap_err(), ArtifactProblem::NotAFile);
    assert_eq!(check_capture_file(5, true, 6, &LIMITS).unwrap_err(), ArtifactProblem::FileSize);
}

#[test]
fn artifact_ids_are_hexadecimal() {
    let id = "0123456789abcdef".repeat(3);
    assert!(validate_artifact_id(&id).is_ok());
    assert_eq!(validate_artifact_id("12").unwrap_err(), ArtifactProblem::BadId);
    assert_eq!(plugin_artifact_id(&format!(r#"{{"id":"{id}"}}"#)).unwrap(), id);
    assert_eq!(plugin_artifact_id("{}").unwrap_err(), ArtifactProblem::NoId);
    assert_eq!(plugin_artifact_id(r#"{"id":"x"}"#).unwrap_err(), ArtifactProblem::BadId);
}

#[test]
fn native_captures_may_not_change() {
    let png = encode_photo_png(1, 1, &[1, 2, 3, 4]).unwrap();
    let digest = hex(&rosync::conflict::hash(&png));
    assert_eq!(check_native_capture(&png, png.len(), &digest, (1, 1), &LIMITS).unwrap(), (1, 1));
    assert_eq!(
        check_native_capture(&png, 1, &digest, (1, 1), &LIMITS).unwrap_err(),
        NativeProblem::ChangedSize
    );
    assert_eq!(
        check_native_capture(&png, png.len(), "other", (1, 1), &LIMITS).unwrap_err(),
        NativeProblem::ChangedDigest
    );
    assert!(matches!(
        check_native_capture(&png, png.len(), &digest, (2, 1), &LIMITS),
        Err(NativeProblem::Picture(PictureProblem::OtherSize(1, 1)))
    ));
}

#[test]
fn time_is_kept_for_cleaning_up() {
    assert_eq!(capture_deadline_remaining(10, 4).unwrap(), 6);
    assert_eq!(capture_deadline_remaining(10, 10).unwrap_err(), DeadlineProblem::Expired);
    assert_eq!(capture_work_deadline(100, 0, 5), 95);
    assert_eq!(capture_work_deadline(100, 50, 50), 90);
    assert_eq!(capture_work_deadline(100, 200, 50), 100);
}

#[test]
fn permission_comes_from_studio_or_the_system() {
    assert_eq!(capture_effective_provider(true, true, true, true), "studio");
    assert_eq!(capture_effective_provider(false, true, true, true), "macos-window");
    assert_eq!(capture_effective_provider(false, false, true, true), "none");
    assert_eq!(capture_authorization(false, true, false, false), Authorization::Unsupported);
    assert_eq!(capture_authorization(false, true, true, false), Authorization::SystemDenied);
    assert_eq!(capture_authorization(false, false, true, true), Authorization::StudioDenied);
    assert!(asks_for_native_permission(true, true, false));
    assert!(!asks_for_native_permission(true, true, true));
    let said = "Studio screenshot provider is unsupported after explicit capture authorization: \
                Feature not supported yet";
    assert!(capture_error_allows_macos_window_fallback(true, true, false, false, false, said));
    assert!(!capture_error_allows_macos_window_fallback(false, true, false, false, false, said));
    assert!(!capture_error_allows_macos_window_fallback(true, true, true, false, false, said));
    assert!(!capture_error_allows_macos_window_fallback(true, true, false, false, false, "no"));
}
