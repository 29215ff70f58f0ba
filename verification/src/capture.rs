//! Captures of Studio: what a capture may be asked for, how its pixels are put
//! together, and how a picture is checked before it is kept.
//!
//! Times are in nanoseconds.
use vstd::prelude::*;
use vstd::string::*;
use vstd::utf8::*;

use crate::artifacts;
use crate::artifacts::decode_standard;
use crate::conflict;
use crate::decimal;
use crate::decimal::{read_signed_32, read_unsigned};
use crate::hex;
use crate::hex::only_hex;
use crate::json;
use crate::json::{flag_at, text_at};
use crate::text;
use crate::text::{
    chars_of, find_from, lower_text, same, same_ignoring_case, split_chars, string_of_range,
    text_holds, trim_chars, trim_text,
};

verus! {

/// The most bytes that one chunk of a photo brings.
pub const PHOTO_CHUNK_BYTES: usize = 393_216;

/// How large a capture may be.
#[derive(Debug, Clone, Copy, PartialEq, Eq, Structural)]
pub struct CaptureLimits {
    pub max_dimension: u32,
    pub max_pixels: u64,
    pub max_bytes: u64,
    pub photo_max_dimension: u32,
    pub photo_max_pixels: u64,
}

/// A part of the viewport.
#[derive(Debug, Clone, Copy, PartialEq, Eq, Structural)]
pub struct CaptureRegion {
    pub x: i32,
    pub y: i32,
    pub width: u32,
    pub height: u32,
}

/// Why a text names no region or size.
#[derive(Debug, Clone, Copy, PartialEq, Eq, Structural)]
pub enum FrameProblem {
    /// There are too few or too many parts.
    Form,
    X,
    Y,
    Width,
    Height,
    /// A side has no length.
    Empty,
}

/// The number of 32 bits that a text names.
pub open spec fn number_32(s: Seq<char>) -> Option<nat> {
    decimal::parse_unsigned(s, 0xffff_ffff)
}

/// The region that four numbers name.
pub open spec fn region_of(fields: Seq<Seq<char>>) -> Result<CaptureRegion, FrameProblem> {
    if fields.len() != 4 {
        Err(FrameProblem::Form)
    } else {
        let x = decimal::parse_signed_32(text::trimmed(fields[0]));
        let y = decimal::parse_signed_32(text::trimmed(fields[1]));
        let width = number_32(text::trimmed(fields[2]));
        let height = number_32(text::trimmed(fields[3]));
        if x is None {
            Err(FrameProblem::X)
        } else if y is None {
            Err(FrameProblem::Y)
        } else if width is None {
            Err(FrameProblem::Width)
        } else if height is None {
            Err(FrameProblem::Height)
        } else if width->0 == 0 || height->0 == 0 {
            Err(FrameProblem::Empty)
        } else {
            Ok(
                CaptureRegion {
                    x: x->0 as i32,
                    y: y->0 as i32,
                    width: width->0 as u32,
                    height: height->0 as u32,
                },
            )
        }
    }
}

fn read_32(chars: &Vec<char>) -> (r: Option<u32>)
    ensures
        match r {
            Some(n) => number_32(text::trimmed(chars@)) == Some(n as nat),
            None => number_32(text::trimmed(chars@)) is None,
        },
{
    match read_unsigned(&trim_chars(chars), 0xffff_ffff) {
        Some(n) => Some(n as u32),
        None => None,
    }
}

/// Reads a region from `x,y,width,height`.
pub fn parse_capture_region(value: &str) -> (r: Result<CaptureRegion, FrameProblem>)
    ensures
        r == region_of(text::split(value@, ',')),
{
    let chars = chars_of(value);
    let fields = split_chars(&chars, ',');
    let ghost models = text::split(value@, ',');
    if fields.len() != 4 {
        return Err(FrameProblem::Form);
    }
    assert(fields@[0]@ == models[0] && fields@[1]@ == models[1]);
    assert(fields@[2]@ == models[2] && fields@[3]@ == models[3]);
    let x: i32 = match read_signed_32(&trim_chars(&fields[0])) {
        None => return Err(FrameProblem::X),
        Some(x) => x,
    };
    let y: i32 = match read_signed_32(&trim_chars(&fields[1])) {
        None => return Err(FrameProblem::Y),
        Some(y) => y,
    };
    let width: u32 = match read_32(&fields[2]) {
        None => return Err(FrameProblem::Width),
        Some(width) => width,
    };
    let height: u32 = match read_32(&fields[3]) {
        None => return Err(FrameProblem::Height),
        Some(height) => height,
    };
    if width == 0 || height == 0 {
        return Err(FrameProblem::Empty);
    }
    Ok(CaptureRegion { x, y, width, height })
}

/// The size that a width, an `x` and a height name.
pub open spec fn size_of(value: Seq<char>) -> Result<(u32, u32), FrameProblem> {
    let normalized = text::lower(text::trimmed(value));
    let k = text::first_index(normalized, 'x');
    if k >= normalized.len() {
        Err(FrameProblem::Form)
    } else {
        let width = number_32(text::trimmed(normalized.take(k)));
        let height = number_32(text::trimmed(normalized.skip(k + 1)));
        if width is None {
            Err(FrameProblem::Width)
        } else if height is None {
            Err(FrameProblem::Height)
        } else if width->0 == 0 || height->0 == 0 {
            Err(FrameProblem::Empty)
        } else {
            Ok((width->0 as u32, height->0 as u32))
        }
    }
}

/// Reads a size from `WIDTHxHEIGHT`.
pub fn parse_capture_size(value: &str) -> (r: Result<(u32, u32), FrameProblem>)
    ensures
        r == size_of(value@),
{
    let normalized = lower_text(trim_text(value).as_str());
    let chars = chars_of(normalized.as_str());
    let ghost model = chars@;
    proof {
        assert(model.skip(0) =~= model);
    }
    let k = find_from(&chars, 0, 'x');
    if k >= chars.len() {
        return Err(FrameProblem::Form);
    }
    let left = chars_of(string_of_range(&chars, 0, k).as_str());
    let right = chars_of(string_of_range(&chars, k + 1, chars.len()).as_str());
    proof {
        assert(left@ =~= model.take(k as int));
        assert(right@ =~= model.skip(k + 1));
    }
    let width: u32 = match read_32(&left) {
        None => return Err(FrameProblem::Width),
        Some(width) => width,
    };
    let height: u32 = match read_32(&right) {
        None => return Err(FrameProblem::Height),
        Some(height) => height,
    };
    if width == 0 || height == 0 {
        return Err(FrameProblem::Empty);
    }
    Ok((width, height))
}

/// Why a capture is too large.
#[derive(Debug, Clone, Copy, PartialEq, Eq, Structural)]
pub enum SizeProblem {
    /// A side has no length.
    Empty,
    Dimension,
    Pixels,
    PhotoDimension,
    PhotoPixels,
}

/// What is wrong with the size of a capture.
pub open spec fn capture_size_problem(
    width: u32,
    height: u32,
    limits: CaptureLimits,
) -> Option<SizeProblem> {
    if width > limits.max_dimension || height > limits.max_dimension {
        Some(SizeProblem::Dimension)
    } else if width * height > limits.max_pixels {
        Some(SizeProblem::Pixels)
    } else {
        None
    }
}

/// What is wrong with the size of a photo.
pub open spec fn photo_size_problem(
    width: u32,
    height: u32,
    limits: CaptureLimits,
) -> Option<SizeProblem> {
    if width == 0 || height == 0 {
        Some(SizeProblem::Empty)
    } else if capture_size_problem(width, height, limits) is Some {
        capture_size_problem(width, height, limits)
    } else if width > limits.photo_max_dimension || height > limits.photo_max_dimension {
        Some(SizeProblem::PhotoDimension)
    } else if width * height > limits.photo_max_pixels {
        Some(SizeProblem::PhotoPixels)
    } else {
        None
    }
}

fn pixels(width: u32, height: u32) -> (r: u64)
    ensures
        r == width * height,
{
    assert(width * height <= 0xffff_ffff * 0xffff_ffff) by (nonlinear_arith)
        requires
            width <= 0xffff_ffff,
            height <= 0xffff_ffff,
    ;
    width as u64 * height as u64
}

pub fn validate_capture_dimensions(width: u32, height: u32, limits: &CaptureLimits) -> (r: Result<
    (),
    SizeProblem,
>)
    ensures
        match r {
            Ok(()) => capture_size_problem(width, height, *limits) is None,
            Err(p) => capture_size_problem(width, height, *limits) == Some(p),
        },
{
    if width > limits.max_dimension || height > limits.max_dimension {
        return Err(SizeProblem::Dimension);
    }
    if pixels(width, height) > limits.max_pixels {
        return Err(SizeProblem::Pixels);
    }
    Ok(())
}

pub fn validate_photo_dimensions(width: u32, height: u32, limits: &CaptureLimits) -> (r: Result<
    (),
    SizeProblem,
>)
    ensures
        match r {
            Ok(()) => photo_size_problem(width, height, *limits) is None,
            Err(p) => photo_size_problem(width, height, *limits) == Some(p),
        },
{
    if width == 0 || height == 0 {
        return Err(SizeProblem::Empty);
    }
    match validate_capture_dimensions(width, height, limits) {
        Err(p) => return Err(p),
        Ok(()) => {},
    }
    if width > limits.photo_max_dimension || height > limits.photo_max_dimension {
        return Err(SizeProblem::PhotoDimension);
    }
    if pixels(width, height) > limits.photo_max_pixels {
        return Err(SizeProblem::PhotoPixels);
    }
    Ok(())
}

/// What a photo shows of the user interface.
#[derive(Debug, Clone, Copy, PartialEq, Eq, Structural)]
pub enum CapturePhotoUiMode {
    /// Nothing of it.
    Hidden,
    Overlay,
    Only,
}

/// What a photo is asked for, but for its numbers with fractions: of those, only
/// whether the padding is the usual one.
#[derive(Debug)]
pub struct CapturePhotoArgs {
    pub focus: Option<String>,
    pub region: Option<String>,
    pub size: Option<String>,
    pub isometric: bool,
    pub direction: Option<String>,
    pub camera_cframe: Option<String>,
    pub usual_padding: bool,
    pub transparent: bool,
    pub alpha_bleed: bool,
    pub include_world: bool,
    pub no_tight_crop: bool,
    pub ui: Option<CapturePhotoUiMode>,
    pub ui_target: Option<String>,
    pub include_ui: bool,
}

/// What a picture of one instance is asked for.
#[derive(Debug)]
pub struct CaptureSceneArgs {
    pub focus: String,
    pub size: String,
    pub isometric: bool,
    pub usual_padding: bool,
    pub no_tight_crop: bool,
}

/// The photo that a picture of one instance is.
pub fn capture_scene_photo_args(args: CaptureSceneArgs) -> (r: CapturePhotoArgs)
    ensures
        r.focus == Some(args.focus),
        r.region is None,
        r.size == Some(args.size),
        r.isometric == args.isometric,
        r.direction is None && r.camera_cframe is None,
        r.usual_padding == args.usual_padding,
        r.transparent && r.alpha_bleed && !r.include_world,
        r.no_tight_crop == args.no_tight_crop,
        r.ui is None && r.ui_target is None && !r.include_ui,
{
    CapturePhotoArgs {
        focus: Some(args.focus),
        region: None,
        size: Some(args.size),
        isometric: args.isometric,
        direction: None,
        camera_cframe: None,
        usual_padding: args.usual_padding,
        transparent: true,
        alpha_bleed: true,
        include_world: false,
        no_tight_crop: args.no_tight_crop,
        ui: None,
        ui_target: None,
        include_ui: false,
    }
}

/// Whether a photo is cropped to its subject.
pub open spec fn tight_crop(args: CapturePhotoArgs) -> bool {
    args.focus is Some && !args.include_world && !args.no_tight_crop && args.transparent
}

pub fn capture_photo_uses_tight_crop(args: &CapturePhotoArgs) -> (r: bool)
    ensures
        r == tight_crop(*args),
{
    args.focus.is_some() && !args.include_world && !args.no_tight_crop && args.transparent
}

/// Why a photo is not taken.
#[derive(Debug, Clone, Copy, PartialEq, Eq, Structural)]
pub enum PhotoProblem {
    CropWithoutFocus,
    BlankTarget,
    TargetWithOtherUi,
    TargetWithIncludeUi,
    TargetWithFocus,
    TargetNotTransparent,
    UiOnlyWithFocus,
    UiOnlyNotTransparent,
    CameraWithoutFocus,
    CameraWithOtherView,
    ViewWithoutFocus,
    RegionWithFocus,
    Region(FrameProblem),
    NegativeRegion,
    Size(FrameProblem),
    Dimensions(SizeProblem),
    /// The plugin cannot do what is asked for.
    NoCameraFeature,
    NoTargetFeature,
    NoUiOnlyFeature,
    NoCropFeature,
    /// The length of the pixels is not a number of the machine.
    LengthOverflow,
    /// The plugin reports another length than the size of the photo calls for.
    Length,
    ChunkRange,
    ChunkNotBase64,
    ChunkLength,
    ChunkEnd,
    /// The pixels do not fill the picture.
    PixelCount,
    Encode,
    /// The picture is larger than an artifact may be.
    TooLarge,
    Picture(PictureProblem),
}

/// What a photo shows of the user interface.
pub open spec fn ui_mode_of(args: CapturePhotoArgs) -> CapturePhotoUiMode {
    if args.ui_target is Some {
        CapturePhotoUiMode::Only
    } else {
        match args.ui {
            Some(mode) => mode,
            None => if args.include_ui {
                CapturePhotoUiMode::Overlay
            } else {
                CapturePhotoUiMode::Hidden
            },
        }
    }
}

/// What is wrong with the target that a photo names.
pub open spec fn target_problem(args: CapturePhotoArgs) -> Option<PhotoProblem> {
    if args.ui_target is None {
        None
    } else if text::trimmed(args.ui_target->0@).len() == 0 {
        Some(PhotoProblem::BlankTarget)
    } else if args.ui is Some && args.ui->0 != CapturePhotoUiMode::Only {
        Some(PhotoProblem::TargetWithOtherUi)
    } else if args.include_ui {
        Some(PhotoProblem::TargetWithIncludeUi)
    } else if args.focus is Some {
        Some(PhotoProblem::TargetWithFocus)
    } else if !args.transparent {
        Some(PhotoProblem::TargetNotTransparent)
    } else {
        None
    }
}

/// What is wrong with a photo that is asked for, apart from its frame.
pub open spec fn options_problem(args: CapturePhotoArgs) -> Option<PhotoProblem> {
    if args.no_tight_crop && args.focus is None {
        Some(PhotoProblem::CropWithoutFocus)
    } else if target_problem(args) is Some {
        target_problem(args)
    } else if ui_mode_of(args) == CapturePhotoUiMode::Only && args.focus is Some {
        Some(PhotoProblem::UiOnlyWithFocus)
    } else if ui_mode_of(args) == CapturePhotoUiMode::Only && !args.transparent {
        Some(PhotoProblem::UiOnlyNotTransparent)
    } else if args.camera_cframe is Some && args.focus is None {
        Some(PhotoProblem::CameraWithoutFocus)
    } else if args.camera_cframe is Some && (args.direction is Some || !args.isometric
        || !args.usual_padding) {
        Some(PhotoProblem::CameraWithOtherView)
    } else if args.focus is None && (args.direction is Some || args.include_world
        || !args.isometric) {
        Some(PhotoProblem::ViewWithoutFocus)
    } else if args.focus is Some && args.region is Some {
        Some(PhotoProblem::RegionWithFocus)
    } else {
        None
    }
}

fn check_target(args: &CapturePhotoArgs) -> (r: Option<PhotoProblem>)
    ensures
        r == target_problem(*args),
{
    let target = match &args.ui_target {
        None => return None,
        Some(target) => target,
    };
    if chars_of(trim_text(target.as_str()).as_str()).len() == 0 {
        return Some(PhotoProblem::BlankTarget);
    }
    if let Some(mode) = args.ui {
        if mode != CapturePhotoUiMode::Only {
            return Some(PhotoProblem::TargetWithOtherUi);
        }
    }
    if args.include_ui {
        return Some(PhotoProblem::TargetWithIncludeUi);
    }
    if args.focus.is_some() {
        return Some(PhotoProblem::TargetWithFocus);
    }
    if !args.transparent {
        return Some(PhotoProblem::TargetNotTransparent);
    }
    None
}

/// Checks what a photo is asked for, apart from its frame; gives what it shows
/// of the user interface.
pub fn check_photo_options(args: &CapturePhotoArgs) -> (r: Result<CapturePhotoUiMode, PhotoProblem>)
    ensures
        r == match options_problem(*args) {
            Some(p) => Err::<CapturePhotoUiMode, PhotoProblem>(p),
            None => Ok(ui_mode_of(*args)),
        },
{
    if args.no_tight_crop && args.focus.is_none() {
        return Err(PhotoProblem::CropWithoutFocus);
    }
    if let Some(p) = check_target(args) {
        return Err(p);
    }
    let mode = if args.ui_target.is_some() {
        CapturePhotoUiMode::Only
    } else {
        match args.ui {
            Some(mode) => mode,
            None => if args.include_ui {
                CapturePhotoUiMode::Overlay
            } else {
                CapturePhotoUiMode::Hidden
            },
        }
    };
    if mode == CapturePhotoUiMode::Only {
        if args.focus.is_some() {
            return Err(PhotoProblem::UiOnlyWithFocus);
        }
        if !args.transparent {
            return Err(PhotoProblem::UiOnlyNotTransparent);
        }
    }
    if args.camera_cframe.is_some() && args.focus.is_none() {
        return Err(PhotoProblem::CameraWithoutFocus);
    }
    if args.camera_cframe.is_some() && (args.direction.is_some() || !args.isometric
        || !args.usual_padding) {
        return Err(PhotoProblem::CameraWithOtherView);
    }
    if args.focus.is_none() && (args.direction.is_some() || args.include_world || !args.isometric) {
        return Err(PhotoProblem::ViewWithoutFocus);
    }
    if args.focus.is_some() && args.region.is_some() {
        return Err(PhotoProblem::RegionWithFocus);
    }
    Ok(mode)
}

/// The frame of a photo.
#[derive(Debug, Clone, Copy, PartialEq, Eq)]
pub struct PhotoFrame {
    pub region: Option<CaptureRegion>,
    pub size: Option<(u32, u32)>,
}

/// What is wrong with a region of a photo, or the region.
pub open spec fn photo_region(value: Option<Seq<char>>, limits: CaptureLimits) -> Result<
    Option<CaptureRegion>,
    PhotoProblem,
> {
    match value {
        None => Ok(None),
        Some(given) => match region_of(text::split(given, ',')) {
            Err(p) => Err(PhotoProblem::Region(p)),
            Ok(region) => if region.x < 0 || region.y < 0 {
                Err(PhotoProblem::NegativeRegion)
            } else {
                match photo_size_problem(region.width, region.height, limits) {
                    Some(p) => Err(PhotoProblem::Dimensions(p)),
                    None => Ok(Some(region)),
                }
            },
        },
    }
}

/// What is wrong with the size of a photo, or the size. A photo of an instance
/// has one in any case.
pub open spec fn photo_size(
    value: Option<Seq<char>>,
    has_focus: bool,
    limits: CaptureLimits,
) -> Result<Option<(u32, u32)>, PhotoProblem> {
    let size = match value {
        Some(given) => match size_of(given) {
            Err(p) => Err(PhotoProblem::Size(p)),
            Ok(size) => Ok(Some(size)),
        },
        None => if has_focus {
            Ok(Some((1024u32, 1024u32)))
        } else {
            Ok(None)
        },
    };
    match size {
        Ok(Some(size)) => match photo_size_problem(size.0, size.1, limits) {
            Some(p) => Err(PhotoProblem::Dimensions(p)),
            None => Ok(Some(size)),
        },
        other => other,
    }
}

/// The frame of a photo, or what is wrong with it: first with its region.
pub open spec fn frame_of(args: CapturePhotoArgs, limits: CaptureLimits) -> Result<
    PhotoFrame,
    PhotoProblem,
> {
    match photo_region(text::option_text(args.region), limits) {
        Err(p) => Err(p),
        Ok(region) => match photo_size(text::option_text(args.size), args.focus is Some, limits) {
            Err(p) => Err(p),
            Ok(size) => Ok(PhotoFrame { region, size }),
        },
    }
}

/// Reads the frame of a photo.
pub fn photo_frame(args: &CapturePhotoArgs, limits: &CaptureLimits) -> (r: Result<
    PhotoFrame,
    PhotoProblem,
>)
    ensures
        r == frame_of(*args, *limits),
{
    let region = match &args.region {
        None => None,
        Some(given) => {
            let region = match parse_capture_region(given.as_str()) {
                Err(p) => return Err(PhotoProblem::Region(p)),
                Ok(region) => region,
            };
            if region.x < 0 || region.y < 0 {
                return Err(PhotoProblem::NegativeRegion);
            }
            match validate_photo_dimensions(region.width, region.height, limits) {
                Err(p) => return Err(PhotoProblem::Dimensions(p)),
                Ok(()) => {},
            }
            Some(region)
        },
    };
    let size = match &args.size {
        Some(given) => match parse_capture_size(given.as_str()) {
            Err(p) => return Err(PhotoProblem::Size(p)),
            Ok(size) => Some(size),
        },
        None => if args.focus.is_some() {
            Some((1024u32, 1024u32))
        } else {
            None
        },
    };
    if let Some(given) = size {
        match validate_photo_dimensions(given.0, given.1, limits) {
            Err(p) => return Err(PhotoProblem::Dimensions(p)),
            Ok(()) => {},
        }
    }
    Ok(PhotoFrame { region, size })
}

/// Reads the frame of a capture of the screen: both parts are read before
/// either is measured.
pub fn screen_frame(region: Option<&str>, size: Option<&str>, limits: &CaptureLimits) -> (r: Result<
    PhotoFrame,
    PhotoProblem,
>)
    ensures
        r == screen_frame_of(
            crate::compare_session::option_str(region),
            crate::compare_session::option_str(size),
            *limits,
        ),
{
    let region = match region {
        None => None,
        Some(given) => match parse_capture_region(given) {
            Err(p) => return Err(PhotoProblem::Region(p)),
            Ok(region) => Some(region),
        },
    };
    let size = match size {
        None => None,
        Some(given) => match parse_capture_size(given) {
            Err(p) => return Err(PhotoProblem::Size(p)),
            Ok(size) => Some(size),
        },
    };
    if let Some(part) = region {
        match validate_capture_dimensions(part.width, part.height, limits) {
            Err(p) => return Err(PhotoProblem::Dimensions(p)),
            Ok(()) => {},
        }
    }
    if let Some(given) = size {
        match validate_capture_dimensions(given.0, given.1, limits) {
            Err(p) => return Err(PhotoProblem::Dimensions(p)),
            Ok(()) => {},
        }
    }
    Ok(PhotoFrame { region, size })
}

/// The frame of a capture of the screen, or what is wrong with it.
pub open spec fn screen_frame_of(
    region: Option<Seq<char>>,
    size: Option<Seq<char>>,
    limits: CaptureLimits,
) -> Result<PhotoFrame, PhotoProblem> {
    let part = match region {
        None => Ok(None),
        Some(given) => match region_of(text::split(given, ',')) {
            Ok(part) => Ok(Some(part)),
            Err(p) => Err(p),
        },
    };
    let output = match size {
        None => Ok(None),
        Some(given) => match size_of(given) {
            Ok(output) => Ok(Some(output)),
            Err(p) => Err(p),
        },
    };
    match (part, output) {
        (Err(p), _) => Err(PhotoProblem::Region(p)),
        (Ok(_), Err(p)) => Err(PhotoProblem::Size(p)),
        (Ok(part), Ok(output)) => {
            let first = match part {
                Some(q) => capture_size_problem(q.width, q.height, limits),
                None => None,
            };
            let second = match output {
                Some(q) => capture_size_problem(q.0, q.1, limits),
                None => None,
            };
            if first is Some {
                Err(PhotoProblem::Dimensions(first->0))
            } else if second is Some {
                Err(PhotoProblem::Dimensions(second->0))
            } else {
                Ok(PhotoFrame { region: part, size: output })
            }
        },
    }
}

/// Whether a photo needs more of the plugin than every plugin can do.
pub fn needs_features(args: &CapturePhotoArgs, mode: CapturePhotoUiMode) -> (r: bool)
    ensures
        r == (mode == CapturePhotoUiMode::Only || args.camera_cframe is Some || args.ui_target
            is Some || tight_crop(*args)),
{
    mode == CapturePhotoUiMode::Only || args.camera_cframe.is_some() || args.ui_target.is_some()
        || capture_photo_uses_tight_crop(args)
}

/// Whether the plugin says that it can do something.
pub open spec fn can(capabilities: Seq<char>, pointer: Seq<char>) -> bool {
    json::flag_of(json::value_at(capabilities, pointer)) == Some(true)
}

fn plugin_can(capabilities: &str, pointer: &str) -> (r: bool)
    ensures
        r == can(capabilities@, pointer@),
{
    match flag_at(capabilities, pointer) {
        Some(able) => able,
        None => false,
    }
}

/// What the plugin lacks for a photo, of what it says of the camera, of targets,
/// of the user interface alone and of cropping.
pub open spec fn feature_problem(
    args: CapturePhotoArgs,
    mode: CapturePhotoUiMode,
    camera: bool,
    target: bool,
    ui_only: bool,
    crop: bool,
) -> Option<PhotoProblem> {
    if args.camera_cframe is Some && !camera {
        Some(PhotoProblem::NoCameraFeature)
    } else if args.ui_target is Some && !target {
        Some(PhotoProblem::NoTargetFeature)
    } else if mode == CapturePhotoUiMode::Only && !ui_only {
        Some(PhotoProblem::NoUiOnlyFeature)
    } else if tight_crop(args) && !crop {
        Some(PhotoProblem::NoCropFeature)
    } else {
        None
    }
}

/// Compares what a photo needs with what the plugin can do.
pub fn compare_features(
    args: &CapturePhotoArgs,
    mode: CapturePhotoUiMode,
    camera: bool,
    target: bool,
    ui_only: bool,
    crop: bool,
) -> (r: Option<PhotoProblem>)
    ensures
        r == feature_problem(*args, mode, camera, target, ui_only, crop),
{
    if args.camera_cframe.is_some() && !camera {
        return Some(PhotoProblem::NoCameraFeature);
    }
    if args.ui_target.is_some() && !target {
        return Some(PhotoProblem::NoTargetFeature);
    }
    if mode == CapturePhotoUiMode::Only && !ui_only {
        return Some(PhotoProblem::NoUiOnlyFeature);
    }
    if capture_photo_uses_tight_crop(args) && !crop {
        return Some(PhotoProblem::NoCropFeature);
    }
    None
}

/// Compares what a photo needs with the capabilities of the plugin, a JSON text.
pub fn check_photo_features(
    args: &CapturePhotoArgs,
    mode: CapturePhotoUiMode,
    capabilities: &str,
) -> (r: Option<PhotoProblem>)
    ensures
        r == feature_problem(
            *args,
            mode,
            can(capabilities@, "/features/photoCameraCFrame"@),
            can(capabilities@, "/features/photoUiTarget"@),
            can(capabilities@, "/features/photoUiOnly"@),
            can(capabilities@, "/features/photoInstanceTightCrop"@),
        ),
{
    compare_features(
        args,
        mode,
        plugin_can(capabilities, "/features/photoCameraCFrame"),
        plugin_can(capabilities, "/features/photoUiTarget"),
        plugin_can(capabilities, "/features/photoUiOnly"),
        plugin_can(capabilities, "/features/photoInstanceTightCrop"),
    )
}

/// One chunk of the pixels of a photo.
#[derive(Debug)]
pub struct PhotoChunk {
    pub offset: usize,
    pub next_offset: usize,
    pub eof: bool,
    pub bytes_base64: String,
}

/// The pixels of a photo as they come in, four bytes for each.
#[derive(Debug)]
pub struct PhotoPixels {
    pub width: u32,
    pub height: u32,
    pub expected: usize,
    pub rgba: Vec<u8>,
}

/// The number of bytes of a picture.
pub open spec fn rgba_len(width: u32, height: u32) -> int {
    width * height * 4
}

/// What is wrong with a photo that the plugin prepared.
pub open spec fn prepared_problem(
    width: u32,
    height: u32,
    byte_length: usize,
    limits: CaptureLimits,
) -> Option<PhotoProblem> {
    let len = rgba_len(width, height);
    match photo_size_problem(width, height, limits) {
        Some(p) => Some(PhotoProblem::Dimensions(p)),
        None => if len > u64::MAX || len > usize::MAX {
            Some(PhotoProblem::LengthOverflow)
        } else if len > limits.max_bytes || byte_length != len {
            Some(PhotoProblem::Length)
        } else {
            None
        },
    }
}

/// What becomes of a chunk whose text was decoded to that, after `at` of
/// `expected` bytes.
pub open spec fn chunk_problem(
    offset: usize,
    next_offset: usize,
    eof: bool,
    decoded: Option<Seq<u8>>,
    at: int,
    expected: int,
) -> Option<PhotoProblem> {
    if offset != at || next_offset <= offset || next_offset > expected {
        Some(PhotoProblem::ChunkRange)
    } else {
        match decoded {
            None => Some(PhotoProblem::ChunkNotBase64),
            Some(bytes) => if bytes.len() != next_offset - offset || bytes.len()
                > PHOTO_CHUNK_BYTES {
                Some(PhotoProblem::ChunkLength)
            } else if eof != (next_offset == expected) {
                Some(PhotoProblem::ChunkEnd)
            } else {
                None
            },
        }
    }
}

fn rgba_length(width: u32, height: u32) -> (r: Option<usize>)
    ensures
        match r {
            Some(n) => n == rgba_len(width, height) && n <= u64::MAX,
            None => rgba_len(width, height) > u64::MAX || rgba_len(width, height) > usize::MAX,
        },
{
    let count: u64 = pixels(width, height);
    match count.checked_mul(4) {
        Some(len) => if len <= usize::MAX as u64 {
            Some(len as usize)
        } else {
            None
        },
        None => None,
    }
}

impl PhotoPixels {
    pub open spec fn wf(&self) -> bool {
        &&& self.rgba@.len() <= self.expected
        &&& self.expected == rgba_len(self.width, self.height)
    }

    /// Awaits the pixels of a photo that the plugin prepared.
    pub fn await_pixels(width: u32, height: u32, byte_length: usize, limits: &CaptureLimits) -> (r:
        Result<PhotoPixels, PhotoProblem>)
        ensures
            match prepared_problem(width, height, byte_length, *limits) {
                Some(p) => r matches Err(q) && q == p,
                None => r matches Ok(s) && {
                    &&& s.wf()
                    &&& s.width == width && s.height == height
                    &&& s.expected == byte_length
                    &&& s.rgba@.len() == 0
                },
            },
    {
        match validate_photo_dimensions(width, height, limits) {
            Err(p) => return Err(PhotoProblem::Dimensions(p)),
            Ok(()) => {},
        }
        let expected: usize = match rgba_length(width, height) {
            None => return Err(PhotoProblem::LengthOverflow),
            Some(expected) => expected,
        };
        if expected as u64 > limits.max_bytes || byte_length != expected {
            return Err(PhotoProblem::Length);
        }
        Ok(PhotoPixels { width, height, expected, rgba: Vec::new() })
    }

    /// Where the next chunk begins; nothing when all pixels are there.
    pub fn next_offset(&self) -> (r: Option<usize>)
        requires
            self.wf(),
        ensures
            r == (if self.rgba@.len() < self.expected {
                Some(self.rgba@.len() as usize)
            } else {
                None
            }),
    {
        if self.rgba.len() < self.expected {
            Some(self.rgba.len())
        } else {
            None
        }
    }

    /// Takes a chunk whose text was decoded to that.
    pub fn take_decoded(
        &mut self,
        offset: usize,
        next_offset: usize,
        eof: bool,
        decoded: Option<Vec<u8>>,
    ) -> (r: Result<(), PhotoProblem>)
        requires
            old(self).wf(),
        ensures
            final(self).wf(),
            ({
                let bytes = match decoded {
                    Some(b) => Some(b@),
                    None => None,
                };
                let problem = chunk_problem(
                    offset,
                    next_offset,
                    eof,
                    bytes,
                    old(self).rgba@.len() as int,
                    old(self).expected as int,
                );
                match problem {
                    Some(p) => r == Err::<(), PhotoProblem>(p) && *final(self) == *old(self),
                    None => {
                        &&& r is Ok
                        &&& final(self).rgba@ == old(self).rgba@ + bytes->0
                        &&& *final(self) == (PhotoPixels { rgba: final(self).rgba, ..*old(self) })
                    },
                }
            }),
    {
        if offset != self.rgba.len() || next_offset <= offset || next_offset > self.expected {
            return Err(PhotoProblem::ChunkRange);
        }
        let mut bytes = match decoded {
            None => return Err(PhotoProblem::ChunkNotBase64),
            Some(bytes) => bytes,
        };
        if bytes.len() != next_offset - offset || bytes.len() > PHOTO_CHUNK_BYTES {
            return Err(PhotoProblem::ChunkLength);
        }
        if eof != (next_offset == self.expected) {
            return Err(PhotoProblem::ChunkEnd);
        }
        self.rgba.append(&mut bytes);
        Ok(())
    }

    /// Takes a chunk.
    pub fn take_chunk(&mut self, chunk: &PhotoChunk) -> (r: Result<(), PhotoProblem>)
        requires
            old(self).wf(),
        ensures
            final(self).wf(),
            ({
                let bytes = artifacts::standard_bytes(chunk.bytes_base64@);
                let problem = chunk_problem(
                    chunk.offset,
                    chunk.next_offset,
                    chunk.eof,
                    bytes,
                    old(self).rgba@.len() as int,
                    old(self).expected as int,
                );
                match problem {
                    Some(p) => r == Err::<(), PhotoProblem>(p) && *final(self) == *old(self),
                    None => {
                        &&& r is Ok
                        &&& final(self).rgba@ == old(self).rgba@ + bytes->0
                        &&& *final(self) == (PhotoPixels { rgba: final(self).rgba, ..*old(self) })
                    },
                }
            }),
    {
        let decoded = decode_standard(chunk.bytes_base64.as_str());
        self.take_decoded(chunk.offset, chunk.next_offset, chunk.eof, decoded)
    }
}

/// A chunk that is taken brings the photo forward, and the one that says that it
/// is the last completes it.
pub proof fn law_chunks_complete_the_photo(
    offset: usize,
    next_offset: usize,
    eof: bool,
    bytes: Seq<u8>,
    at: int,
    expected: int,
)
    requires
        chunk_problem(offset, next_offset, eof, Some(bytes), at, expected) is None,
    ensures
        bytes.len() > 0,
        at + bytes.len() == next_offset,
        at + bytes.len() <= expected,
        eof <==> at + bytes.len() == expected,
{
}

/// The picture that `png` makes of pixels of eight bits and four channels with
/// its fast compression.
pub uninterp spec fn encoded_png(width: u32, height: u32, rgba: Seq<u8>) -> Seq<u8>;

/// `png::Encoder` over a `Vec`, for RGBA of eight bits with `Compression::Fast`:
/// `write_header` and `write_image_data`. With pixels that fill a picture that
/// is not empty it succeeds, and the picture depends on the arguments alone; of
/// an empty picture the header is refused. The bytes themselves are left unsaid.
#[verifier::external_body]
fn encode_png(width: u32, height: u32, rgba: &[u8]) -> (r: Option<Vec<u8>>)
    requires
        rgba@.len() == rgba_len(width, height),
    ensures
        match r {
            Some(bytes) => width > 0 && height > 0 && bytes@ == encoded_png(width, height, rgba@),
            None => width == 0 || height == 0,
        },
{
    let mut bytes = Vec::new();
    {
        let mut encoder = png::Encoder::new(&mut bytes, width, height);
        encoder.set_color(png::ColorType::Rgba);
        encoder.set_depth(png::BitDepth::Eight);
        encoder.set_compression(png::Compression::Fast);
        encoder.write_header().ok()?.write_image_data(rgba).ok()?;
    }
    Some(bytes)
}

/// Makes a picture of pixels.
pub fn encode_photo_png(width: u32, height: u32, rgba: &[u8]) -> (r: Result<
    Vec<u8>,
    PhotoProblem,
>)
    ensures
        match r {
            Ok(bytes) => {
                &&& rgba@.len() == rgba_len(width, height)
                &&& width > 0 && height > 0
                &&& bytes@ == encoded_png(width, height, rgba@)
            },
            Err(p) => p == (if rgba_len(width, height) > usize::MAX || rgba_len(width, height)
                > u64::MAX {
                PhotoProblem::LengthOverflow
            } else if rgba@.len() != rgba_len(width, height) {
                PhotoProblem::PixelCount
            } else {
                PhotoProblem::Encode
            }) && (rgba@.len() == rgba_len(width, height) ==> width == 0 || height == 0),
        },
{
    let expected: usize = match rgba_length(width, height) {
        None => {
            assert(rgba@.len() == rgba.len());
            return Err(PhotoProblem::LengthOverflow);
        },
        Some(expected) => expected,
    };
    if rgba.len() != expected {
        return Err(PhotoProblem::PixelCount);
    }
    match encode_png(width, height, rgba) {
        Some(bytes) => Ok(bytes),
        None => Err(PhotoProblem::Encode),
    }
}

/// The width and the height in the header of a picture that `png` can read.
pub uninterp spec fn png_size(bytes: Seq<u8>) -> Option<(u32, u32)>;

/// Whether `png` can read every row of a picture.
pub uninterp spec fn png_rows(bytes: Seq<u8>) -> bool;

/// `png::Decoder::read_info` and the size that `png::Reader::info` tells, which
/// depend on the bytes alone.
#[verifier::external_body]
fn read_png_size(bytes: &[u8]) -> (r: Option<(u32, u32)>)
    ensures
        r == png_size(bytes@),
{
    match png::Decoder::new(std::io::Cursor::new(bytes)).read_info() {
        Ok(reader) => Some((reader.info().width, reader.info().height)),
        Err(_) => None,
    }
}

/// `png::Reader::next_row` until there is no other row: whether all of them can
/// be read, which depends on the bytes alone.
#[verifier::external_body]
fn read_png_rows(bytes: &[u8]) -> (r: bool)
    ensures
        r == png_rows(bytes@),
{
    let mut reader = match png::Decoder::new(std::io::Cursor::new(bytes)).read_info() {
        Ok(reader) => reader,
        Err(_) => return false,
    };
    loop {
        match reader.next_row() {
            Ok(Some(_)) => {},
            Ok(None) => return true,
            Err(_) => return false,
        }
    }
}

/// Why a picture is not kept.
#[derive(Debug, Clone, Copy, PartialEq, Eq, Structural)]
pub enum PictureProblem {
    NotPng,
    Header,
    Size(SizeProblem),
    /// The picture has another size than was reported.
    OtherSize(u32, u32),
    Rows,
}

/// The first bytes of every PNG.
pub open spec fn png_signature() -> Seq<u8> {
    seq![137u8, 80, 78, 71, 13, 10, 26, 10]
}

/// What is wrong with a picture of which that was read, or its size.
pub open spec fn picture_outcome(
    signed: bool,
    size: Option<(u32, u32)>,
    rows: bool,
    expected: Option<(u32, u32)>,
    limits: CaptureLimits,
) -> Result<(u32, u32), PictureProblem> {
    match (signed, size) {
        (false, _) => Err(PictureProblem::NotPng),
        (true, None) => Err(PictureProblem::Header),
        (true, Some(found)) => match capture_size_problem(found.0, found.1, limits) {
            Some(p) => Err(PictureProblem::Size(p)),
            None => if expected is Some && expected->0 != found {
                Err(PictureProblem::OtherSize(found.0, found.1))
            } else if !rows {
                Err(PictureProblem::Rows)
            } else {
                Ok(found)
            },
        },
    }
}

/// Checks the size of a picture before its rows are read.
pub fn check_picture_size(
    signed: bool,
    size: Option<(u32, u32)>,
    expected: Option<(u32, u32)>,
    limits: &CaptureLimits,
) -> (r: Result<(u32, u32), PictureProblem>)
    ensures
        r == picture_outcome(signed, size, true, expected, *limits),
{
    if !signed {
        return Err(PictureProblem::NotPng);
    }
    let found = match size {
        None => return Err(PictureProblem::Header),
        Some(found) => found,
    };
    match validate_capture_dimensions(found.0, found.1, limits) {
        Err(p) => return Err(PictureProblem::Size(p)),
        Ok(()) => {},
    }
    if let Some(wanted) = expected {
        if wanted.0 != found.0 || wanted.1 != found.1 {
            return Err(PictureProblem::OtherSize(found.0, found.1));
        }
    }
    Ok(found)
}

fn has_signature(bytes: &[u8]) -> (r: bool)
    ensures
        r == png_signature().is_prefix_of(bytes@),
{
    let signature: [u8; 8] = [137, 80, 78, 71, 13, 10, 26, 10];
    proof {
        assert(signature@ =~= png_signature());
    }
    if bytes.len() < 8 {
        return false;
    }
    let mut k: usize = 0;
    while k < 8
        invariant
            k <= 8,
            bytes@.len() >= 8,
            signature@ == png_signature(),
            forall|j: int| 0 <= j < k ==> signature@[j] == #[trigger] bytes@[j],
        decreases 8 - k,
    {
        if signature[k] != bytes[k] {
            assert(bytes@.subrange(0, 8)[k as int] != png_signature()[k as int]);
            return false;
        }
        k += 1;
    }
    proof {
        assert(bytes@.subrange(0, 8) =~= png_signature());
    }
    true
}

/// Checks that bytes are a whole picture, of that size where one is given.
pub fn verify_capture_png(bytes: &[u8], expected: Option<(u32, u32)>, limits: &CaptureLimits) -> (r:
    Result<(u32, u32), PictureProblem>)
    ensures
        r == picture_outcome(
            png_signature().is_prefix_of(bytes@),
            png_size(bytes@),
            png_rows(bytes@),
            expected,
            *limits,
        ),
{
    let signed = has_signature(bytes);
    let size = read_png_size(bytes);
    let found = match check_picture_size(signed, size, expected, limits) {
        Err(p) => return Err(p),
        Ok(found) => found,
    };
    if !read_png_rows(bytes) {
        return Err(PictureProblem::Rows);
    }
    Ok(found)
}

/// A photo, ready to be written.
#[derive(Debug)]
pub struct FinishedPhoto {
    pub bytes: Vec<u8>,
    pub sha256: String,
}

/// What is wrong with the picture that was made of the pixels.
pub open spec fn finished_problem(
    bytes: Seq<u8>,
    picture: Result<(u32, u32), PictureProblem>,
    limits: CaptureLimits,
) -> Option<PhotoProblem> {
    if bytes.len() > limits.max_bytes {
        Some(PhotoProblem::TooLarge)
    } else {
        match picture {
            Ok(_) => None,
            Err(p) => Some(PhotoProblem::Picture(p)),
        }
    }
}

/// Makes the picture of a photo whose pixels are all there, and checks it.
pub fn finish_photo(pixels: &PhotoPixels, limits: &CaptureLimits) -> (r: Result<
    FinishedPhoto,
    PhotoProblem,
>)
    requires
        pixels.wf(),
        pixels.rgba@.len() == pixels.expected,
        pixels.width > 0 && pixels.height > 0,
    ensures
        ({
            let bytes = encoded_png(pixels.width, pixels.height, pixels.rgba@);
            let picture = picture_outcome(
                png_signature().is_prefix_of(bytes),
                png_size(bytes),
                png_rows(bytes),
                Some((pixels.width, pixels.height)),
                *limits,
            );
            match finished_problem(bytes, picture, *limits) {
                Some(p) => r matches Err(q) && q == p,
                None => r matches Ok(photo) && photo.bytes@ == bytes && photo.sha256@
                    == hex::hex_text(conflict::sha256(bytes)),
            }
        }),
{
    let bytes = match encode_photo_png(pixels.width, pixels.height, pixels.rgba.as_slice()) {
        Err(p) => return Err(p),
        Ok(bytes) => bytes,
    };
    if bytes.len() as u64 > limits.max_bytes {
        return Err(PhotoProblem::TooLarge);
    }
    match verify_capture_png(bytes.as_slice(), Some((pixels.width, pixels.height)), limits) {
        Err(p) => return Err(PhotoProblem::Picture(p)),
        Ok(_) => {},
    }
    let digest = crate::conflict::hash(bytes.as_slice());
    let sha256 = crate::hex::hex(&digest);
    Ok(FinishedPhoto { bytes, sha256 })
}

/// The time is over.
#[derive(Debug, Clone, Copy, PartialEq, Eq, Structural)]
pub enum DeadlineProblem {
    Expired,
}

/// How much time is left until a deadline.
pub fn capture_deadline_remaining(deadline: u64, now: u64) -> (r: Result<u64, DeadlineProblem>)
    ensures
        r == (if now < deadline {
            Ok::<u64, DeadlineProblem>((deadline - now) as u64)
        } else {
            Err(DeadlineProblem::Expired)
        }),
{
    if now < deadline {
        Ok(deadline - now)
    } else {
        Err(DeadlineProblem::Expired)
    }
}

/// When the work must be done, so that a fifth of the time that is left, at most
/// `reserve`, remains for cleaning up.
pub open spec fn work_deadline(deadline: u64, now: u64, reserve: u64) -> u64 {
    let left = if now < deadline {
        deadline - now
    } else {
        0
    };
    if left / 5 <= reserve {
        (deadline - left / 5) as u64
    } else {
        (deadline - reserve) as u64
    }
}

pub fn capture_work_deadline(deadline: u64, now: u64, reserve: u64) -> (r: u64)
    ensures
        r == work_deadline(deadline, now, reserve),
{
    let left: u64 = if now < deadline {
        deadline - now
    } else {
        0
    };
    let fifth: u64 = left / 5;
    let kept: u64 = if fifth <= reserve {
        fifth
    } else {
        reserve
    };
    deadline - kept
}

/// The work is due before the deadline, and while there is time there is time
/// for the work.
pub proof fn law_work_ends_before_the_deadline(deadline: u64, now: u64, reserve: u64)
    ensures
        work_deadline(deadline, now, reserve) <= deadline,
        now < deadline ==> now < work_deadline(deadline, now, reserve),
        deadline - work_deadline(deadline, now, reserve) <= reserve,
{
}

/// Why an artifact is refused.
#[derive(Debug, Clone, Copy, PartialEq, Eq, Structural)]
pub enum ArtifactProblem {
    BadId,
    NoId,
    OtherId,
    NotPng,
    SizeLimit,
    BadDigest,
    RelativePath,
    /// The size does not fit the machine.
    TooLong,
    NotAFile,
    /// The file has another size.
    FileSize,
    /// Another number of bytes was read.
    ReadSize,
    /// The artifact has another size than was reported.
    OtherSize,
    DigestMismatch,
    Picture(PictureProblem),
}

/// The id of an artifact.
pub open spec fn is_artifact_id(s: Seq<char>) -> bool {
    s.len() == 48 && hex::all_hex(s)
}

pub fn validate_artifact_id(id: &str) -> (r: Result<(), ArtifactProblem>)
    ensures
        r == (if is_artifact_id(id@) {
            Ok::<(), ArtifactProblem>(())
        } else {
            Err(ArtifactProblem::BadId)
        }),
{
    let chars = chars_of(id);
    if chars.len() == 48 && only_hex(&chars) {
        Ok(())
    } else {
        Err(ArtifactProblem::BadId)
    }
}

/// The id in what a plugin or the daemon says of an artifact.
pub open spec fn named_id(id: Option<Seq<char>>) -> Result<Seq<char>, ArtifactProblem> {
    match id {
        None => Err(ArtifactProblem::NoId),
        Some(id) => if is_artifact_id(id) {
            Ok(id)
        } else {
            Err(ArtifactProblem::BadId)
        },
    }
}

/// Reads the id of an artifact from what is said of it, a JSON text.
pub fn plugin_artifact_id(artifact: &str) -> (r: Result<String, ArtifactProblem>)
    ensures
        ({
            let outcome = named_id(json::text_of(json::value_at(artifact@, "/id"@)));
            match r {
                Ok(id) => outcome == Ok::<Seq<char>, ArtifactProblem>(id@),
                Err(p) => outcome == Err::<Seq<char>, ArtifactProblem>(p),
            }
        }),
{
    match text_at(artifact, "/id") {
        None => Err(ArtifactProblem::NoId),
        Some(id) => match validate_artifact_id(id.as_str()) {
            Ok(()) => Ok(id),
            Err(p) => Err(p),
        },
    }
}

/// What the daemon says of an artifact.
#[derive(Debug)]
pub struct ArtifactMetadata {
    pub id: String,
    pub mime: String,
    pub size: u64,
    pub sha256: String,
    pub path_is_absolute: bool,
}

/// What is wrong with what the daemon says of the artifact of that id.
pub open spec fn metadata_problem(
    id: Seq<char>,
    metadata: ArtifactMetadata,
    limits: CaptureLimits,
) -> Option<ArtifactProblem> {
    if metadata.id@ != id {
        Some(ArtifactProblem::OtherId)
    } else if metadata.mime@ != "image/png"@ {
        Some(ArtifactProblem::NotPng)
    } else if metadata.size == 0 || metadata.size > limits.max_bytes {
        Some(ArtifactProblem::SizeLimit)
    } else if metadata.sha256@.len() != 64 || !hex::all_hex(metadata.sha256@) {
        Some(ArtifactProblem::BadDigest)
    } else if !metadata.path_is_absolute {
        Some(ArtifactProblem::RelativePath)
    } else {
        None
    }
}

pub fn check_artifact_metadata(id: &str, metadata: &ArtifactMetadata, limits: &CaptureLimits) -> (r:
    Result<(), ArtifactProblem>)
    ensures
        match r {
            Ok(()) => metadata_problem(id@, *metadata, *limits) is None,
            Err(p) => metadata_problem(id@, *metadata, *limits) == Some(p),
        },
{
    if !same(metadata.id.as_str(), id) {
        return Err(ArtifactProblem::OtherId);
    }
    if !same(metadata.mime.as_str(), "image/png") {
        return Err(ArtifactProblem::NotPng);
    }
    if metadata.size == 0 || metadata.size > limits.max_bytes {
        return Err(ArtifactProblem::SizeLimit);
    }
    let digest = chars_of(metadata.sha256.as_str());
    if digest.len() != 64 || !only_hex(&digest) {
        return Err(ArtifactProblem::BadDigest);
    }
    if !metadata.path_is_absolute {
        return Err(ArtifactProblem::RelativePath);
    }
    Ok(())
}

/// Checks the file of an artifact before it is read; gives how many bytes it
/// must have.
pub fn check_capture_file(size: u64, is_file: bool, file_len: u64, limits: &CaptureLimits) -> (r:
    Result<usize, ArtifactProblem>)
    ensures
        r == (if size == 0 || size > limits.max_bytes {
            Err::<usize, ArtifactProblem>(ArtifactProblem::SizeLimit)
        } else if size > usize::MAX {
            Err(ArtifactProblem::TooLong)
        } else if !is_file {
            Err(ArtifactProblem::NotAFile)
        } else if file_len != size {
            Err(ArtifactProblem::FileSize)
        } else {
            Ok(size as usize)
        }),
{
    if size == 0 || size > limits.max_bytes {
        return Err(ArtifactProblem::SizeLimit);
    }
    if size > usize::MAX as u64 {
        return Err(ArtifactProblem::TooLong);
    }
    if !is_file {
        return Err(ArtifactProblem::NotAFile);
    }
    if file_len != size {
        return Err(ArtifactProblem::FileSize);
    }
    Ok(size as usize)
}

/// A capture that was checked.
#[derive(Debug)]
pub struct CheckedCapture {
    pub size: usize,
    pub sha256: String,
    pub width: u32,
    pub height: u32,
}

/// What is wrong with the bytes of an artifact, or their size as a picture.
pub open spec fn capture_outcome(
    bytes: Seq<u8>,
    size: u64,
    sha256: Seq<char>,
    expected_size: Option<u64>,
    picture: Result<(u32, u32), PictureProblem>,
) -> Result<(u32, u32), ArtifactProblem> {
    if expected_size is Some && expected_size->0 != size {
        Err(ArtifactProblem::OtherSize)
    } else if bytes.len() != size {
        Err(ArtifactProblem::ReadSize)
    } else if text::lower(hex::hex_text(conflict::sha256(bytes))) != text::lower(sha256) {
        Err(ArtifactProblem::DigestMismatch)
    } else {
        match picture {
            Ok(found) => Ok(found),
            Err(p) => Err(ArtifactProblem::Picture(p)),
        }
    }
}

/// Checks the bytes that were read of an artifact: their number, their digest and
/// the picture that they are.
pub fn materialize_capture_artifact(
    bytes: &[u8],
    metadata: &ArtifactMetadata,
    expected_size: Option<u64>,
    expected_dimensions: Option<(u32, u32)>,
    limits: &CaptureLimits,
) -> (r: Result<CheckedCapture, ArtifactProblem>)
    ensures
        ({
            let picture = picture_outcome(
                png_signature().is_prefix_of(bytes@),
                png_size(bytes@),
                png_rows(bytes@),
                expected_dimensions,
                *limits,
            );
            let outcome = capture_outcome(
                bytes@,
                metadata.size,
                metadata.sha256@,
                expected_size,
                picture,
            );
            match r {
                Err(p) => outcome == Err::<(u32, u32), ArtifactProblem>(p),
                Ok(c) => {
                    &&& outcome == Ok::<(u32, u32), ArtifactProblem>((c.width, c.height))
                    &&& c.size == bytes@.len()
                    &&& c.sha256@ == hex::hex_text(conflict::sha256(bytes@))
                },
            }
        }),
{
    if let Some(wanted) = expected_size {
        if wanted != metadata.size {
            return Err(ArtifactProblem::OtherSize);
        }
    }
    if bytes.len() as u64 != metadata.size {
        return Err(ArtifactProblem::ReadSize);
    }
    let digest = crate::conflict::hash(bytes);
    let sha256 = crate::hex::hex(&digest);
    if !same_ignoring_case(sha256.as_str(), metadata.sha256.as_str()) {
        return Err(ArtifactProblem::DigestMismatch);
    }
    match verify_capture_png(bytes, expected_dimensions, limits) {
        Err(p) => Err(ArtifactProblem::Picture(p)),
        Ok(found) => Ok(
            CheckedCapture { size: bytes.len(), sha256, width: found.0, height: found.1 },
        ),
    }
}

/// Why the picture of a window is not kept.
#[derive(Debug, Clone, Copy, PartialEq, Eq, Structural)]
pub enum NativeProblem {
    ChangedSize,
    Picture(PictureProblem),
    ChangedDigest,
}

/// What is wrong with the bytes of a picture of a window.
pub open spec fn native_outcome(
    bytes: Seq<u8>,
    size: usize,
    sha256: Seq<char>,
    picture: Result<(u32, u32), PictureProblem>,
    limits: CaptureLimits,
) -> Result<(u32, u32), NativeProblem> {
    if bytes.len() != size || bytes.len() == 0 || bytes.len() > limits.max_bytes {
        Err(NativeProblem::ChangedSize)
    } else {
        match picture {
            Err(p) => Err(NativeProblem::Picture(p)),
            Ok(found) => if hex::hex_text(conflict::sha256(bytes)) != sha256 {
                Err(NativeProblem::ChangedDigest)
            } else {
                Ok(found)
            },
        }
    }
}

/// Checks the picture of a window as it was written: what was reported of it must
/// still hold.
pub fn check_native_capture(
    bytes: &[u8],
    size: usize,
    sha256: &str,
    dimensions: (u32, u32),
    limits: &CaptureLimits,
) -> (r: Result<(u32, u32), NativeProblem>)
    ensures
        r == native_outcome(
            bytes@,
            size,
            sha256@,
            picture_outcome(
                png_signature().is_prefix_of(bytes@),
                png_size(bytes@),
                png_rows(bytes@),
                Some(dimensions),
                *limits,
            ),
            *limits,
        ),
{
    if bytes.len() != size || bytes.len() == 0 || bytes.len() as u64 > limits.max_bytes {
        return Err(NativeProblem::ChangedSize);
    }
    let found = match verify_capture_png(bytes, Some(dimensions), limits) {
        Err(p) => return Err(NativeProblem::Picture(p)),
        Ok(found) => found,
    };
    let digest = crate::conflict::hash(bytes);
    if !same(crate::hex::hex(&digest).as_str(), sha256) {
        return Err(NativeProblem::ChangedDigest);
    }
    Ok(found)
}

/// What takes the captures.
pub open spec fn provider_of(
    studio_authorized: bool,
    provider_unsupported: bool,
    native_available: bool,
    native_authorized: bool,
) -> Seq<char> {
    if studio_authorized {
        "studio"@
    } else if provider_unsupported && native_available && native_authorized {
        "macos-window"@
    } else {
        "none"@
    }
}

pub fn capture_effective_provider(
    studio_authorized: bool,
    provider_unsupported: bool,
    native_available: bool,
    native_authorized: bool,
) -> (r: &'static str)
    ensures
        r@ == provider_of(
            studio_authorized,
            provider_unsupported,
            native_available,
            native_authorized,
        ),
{
    if studio_authorized {
        "studio"
    } else if provider_unsupported && native_available && native_authorized {
        "macos-window"
    } else {
        "none"
    }
}

/// What became of the request for permission.
#[derive(Debug, Clone, Copy, PartialEq, Eq, Structural)]
pub enum Authorization {
    Studio,
    Window,
    /// Studio cannot take captures, and neither can the system.
    Unsupported,
    /// The system did not permit it.
    SystemDenied,
    /// Studio did not permit it.
    StudioDenied,
}

/// What became of the request for permission.
pub fn capture_authorization(
    studio_authorized: bool,
    provider_unsupported: bool,
    native_available: bool,
    native_authorized: bool,
) -> (r: Authorization)
    ensures
        r == (if studio_authorized {
            Authorization::Studio
        } else if provider_unsupported && native_available && native_authorized {
            Authorization::Window
        } else if provider_unsupported && !native_available {
            Authorization::Unsupported
        } else if provider_unsupported {
            Authorization::SystemDenied
        } else {
            Authorization::StudioDenied
        }),
{
    if studio_authorized {
        Authorization::Studio
    } else if provider_unsupported && native_available && native_authorized {
        Authorization::Window
    } else if provider_unsupported && !native_available {
        Authorization::Unsupported
    } else if provider_unsupported {
        Authorization::SystemDenied
    } else {
        Authorization::StudioDenied
    }
}

/// Whether the system is asked for its permission.
pub fn asks_for_native_permission(
    provider_unsupported: bool,
    native_available: bool,
    native_authorized: bool,
) -> (r: bool)
    ensures
        r == (provider_unsupported && native_available && !native_authorized),
{
    provider_unsupported && native_available && !native_authorized
}

/// Whether a window is captured in place of Studio, which said why it could not.
pub open spec fn window_fallback(plain: bool, error: Seq<char>) -> bool {
    let said = text::lower(error);
    &&& plain
    &&& text::holds(
        said,
        "studio screenshot provider is unsupported after explicit capture authorization"@,
    )
    &&& text::holds(said, "feature not supported yet"@)
}

/// Decides whether a window is captured in place of Studio: only on macOS, of
/// the whole user interface, without a focus, a view or a padding, and only
/// where Studio said that it cannot.
pub fn capture_error_allows_macos_window_fallback(
    macos: bool,
    ui_all: bool,
    has_focus: bool,
    has_view: bool,
    has_padding: bool,
    error: &str,
) -> (r: bool)
    ensures
        r == window_fallback(
            macos && ui_all && !has_focus && !has_view && !has_padding,
            error@,
        ),
{
    if !macos || !ui_all || has_focus || has_view || has_padding {
        return false;
    }
    let said = chars_of(lower_text(error).as_str());
    text_holds(
        &said,
        "studio screenshot provider is unsupported after explicit capture authorization",
    ) && text_holds(&said, "feature not supported yet")
}

/// Checks a capture that the plugin prepared.
pub fn check_prepared_capture(width: u32, height: u32, byte_length: u64, limits: &CaptureLimits) -> (r:
    Result<(), ArtifactProblem>)
    ensures
        r == match capture_size_problem(width, height, *limits) {
            Some(p) => Err::<(), ArtifactProblem>(
                ArtifactProblem::Picture(PictureProblem::Size(p)),
            ),
            None => if byte_length == 0 || byte_length > limits.max_bytes {
                Err(ArtifactProblem::SizeLimit)
            } else {
                Ok(())
            },
        },
{
    match validate_capture_dimensions(width, height, limits) {
        Err(p) => return Err(ArtifactProblem::Picture(PictureProblem::Size(p))),
        Ok(()) => {},
    }
    if byte_length == 0 || byte_length > limits.max_bytes {
        return Err(ArtifactProblem::SizeLimit);
    }
    Ok(())
}

} // verus!
