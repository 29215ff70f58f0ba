//! What holds of captures as a whole: the frame that a text asks for is the frame
//! that is taken, and what is kept is what was asked for.
use vstd::prelude::*;

use crate::capture;
use crate::capture::{
    ArtifactMetadata, CaptureLimits, CapturePhotoArgs, CapturePhotoUiMode, CaptureRegion,
    FrameProblem, PhotoFrame, PhotoProblem, PictureProblem,
};
use crate::conflict;
use crate::decimal;
use crate::hex;
use crate::text;

verus! {

/// A number as a signed numeral.
pub open spec fn signed_text(n: int) -> Seq<char> {
    if n < 0 {
        seq!['-'] + decimal::decimal_text((-n) as nat)
    } else {
        decimal::decimal_text(n as nat)
    }
}

proof fn lemma_numeral(n: nat)
    ensures
        ({
            let s = decimal::decimal_text(n);
            &&& s.len() > 0
            &&& text::trimmed(s) == s
            &&& text::lower(s) == s
            &&& !s.contains('x') && !s.contains(',') && !s.contains('X')
            &&& decimal::is_digit(s[0]) && decimal::is_digit(s.last())
        }),
{
    let s = decimal::decimal_text(n);
    decimal::lemma_decimal_text(n);
    assert forall|i: int| 0 <= i < s.len() implies decimal::is_digit(#[trigger] s[i]) by {}
    assert(decimal::is_digit(s[s.len() - 1]));
    text::lemma_plain_ends(s);
    assert(text::lower(s) =~= s);
}

proof fn lemma_signed_numeral(n: int)
    requires
        -0x8000_0000 <= n <= 0x7fff_ffff,
    ensures
        ({
            let s = signed_text(n);
            &&& text::trimmed(s) == s
            &&& !s.contains(',')
            &&& decimal::parse_signed_32(s) == Some(n)
        }),
{
    let s = signed_text(n);
    if n < 0 {
        let m = (-n) as nat;
        let d = decimal::decimal_text(m);
        lemma_numeral(m);
        decimal::lemma_decimal_text(m);
        assert(s.drop_first() =~= d);
        assert(s[0] == '-');
        assert(s.last() == d.last());
        text::lemma_plain_ends(s);
        assert(!s.contains(',')) by {
            if s.contains(',') {
                let i = choose|i: int| 0 <= i < s.len() && s[i] == ',';
                assert(d[i - 1] == ',');
            }
        }
    } else {
        lemma_numeral(n as nat);
        decimal::lemma_decimal_round_trip(n as nat, 0x7fff_ffff);
        assert(decimal::is_digit(s[0]));
    }
}

/// A size reads back from its text: the number before the `x` is the width, the
/// one after it the height.
pub proof fn law_size_text_reads_back(width: u32, height: u32, cross: char)
    requires
        width > 0,
        height > 0,
        cross == 'x' || cross == 'X',
    ensures
        capture::size_of(
            decimal::decimal_text(width as nat).push(cross) + decimal::decimal_text(height as nat),
        ) == Ok::<(u32, u32), FrameProblem>((width, height)),
{
    let w = decimal::decimal_text(width as nat);
    let h = decimal::decimal_text(height as nat);
    let value = w.push(cross) + h;
    lemma_numeral(width as nat);
    lemma_numeral(height as nat);
    assert(value[0] == w[0] && value.last() == h.last());
    text::lemma_plain_ends(value);
    let normal = w.push('x') + h;
    assert(text::lower(value) =~= normal) by {
        assert forall|i: int| 0 <= i < value.len() implies text::lower_char(value[i])
            == #[trigger] normal[i] by {
            if i < w.len() {
                assert(text::lower(w)[i] == w[i]);
            } else if i > w.len() {
                assert(text::lower(h)[i - w.len() - 1] == h[i - w.len() - 1]);
            }
        }
    }
    assert forall|j: int| 0 <= j < w.len() implies #[trigger] normal[j] != 'x' by {
        assert(w.contains(w[j]));
    }
    text::lemma_first_index_is(normal, 'x', w.len() as int);
    assert(normal.take(w.len() as int) =~= w);
    assert(normal.skip(w.len() as int + 1) =~= h);
    decimal::lemma_decimal_round_trip(width as nat, 0xffff_ffff);
    decimal::lemma_decimal_round_trip(height as nat, 0xffff_ffff);
}

/// The text of a region.
pub open spec fn region_text(region: CaptureRegion) -> Seq<char> {
    signed_text(region.x as int).push(',') + (signed_text(region.y as int).push(',') + (
    decimal::decimal_text(region.width as nat).push(',') + decimal::decimal_text(
        region.height as nat,
    )))
}

/// A region reads back from its text: its corner, its width and its height, in
/// this order.
pub proof fn law_region_text_reads_back(region: CaptureRegion)
    requires
        region.width > 0,
        region.height > 0,
    ensures
        capture::region_of(text::split(region_text(region), ',')) == Ok::<
            CaptureRegion,
            FrameProblem,
        >(region),
{
    let x = signed_text(region.x as int);
    let y = signed_text(region.y as int);
    let w = decimal::decimal_text(region.width as nat);
    let h = decimal::decimal_text(region.height as nat);
    lemma_signed_numeral(region.x as int);
    lemma_signed_numeral(region.y as int);
    lemma_numeral(region.width as nat);
    lemma_numeral(region.height as nat);
    text::lemma_split_first(h, ',', Seq::empty());
    text::lemma_split_first(w, ',', h);
    text::lemma_split_first(y, ',', w.push(',') + h);
    text::lemma_split_first(x, ',', y.push(',') + (w.push(',') + h));
    decimal::lemma_decimal_round_trip(region.width as nat, 0xffff_ffff);
    decimal::lemma_decimal_round_trip(region.height as nat, 0xffff_ffff);
    let fields = text::split(region_text(region), ',');
    assert(fields =~= seq![x, y, w, h]);
}

/// What a size may be: neither side longer than the limit, and no more pixels.
/// A photo has its own limits beside those, and no side of it is empty.
pub proof fn law_sizes_within_the_limits_pass(width: u32, height: u32, limits: CaptureLimits)
    ensures
        capture::capture_size_problem(width, height, limits) is None <==> width
            <= limits.max_dimension && height <= limits.max_dimension && width * height
            <= limits.max_pixels,
        capture::photo_size_problem(width, height, limits) is None <==> 0 < width <= limits.max_dimension
            && 0 < height <= limits.max_dimension && width <= limits.photo_max_dimension && height
            <= limits.photo_max_dimension && width * height <= limits.max_pixels && width * height
            <= limits.photo_max_pixels,
        capture::capture_size_problem(width, height, limits) == capture::capture_size_problem(
            height,
            width,
            limits,
        ),
        capture::photo_size_problem(width, height, limits) == capture::photo_size_problem(
            height,
            width,
            limits,
        ),
{
    assert(width * height == height * width) by (nonlinear_arith);
}

/// A photo is taken in the frame that is asked for: of the size that the text
/// gives, the width first; of the usual size where none is given and an instance
/// is in focus; and of the given part of the viewport.
pub proof fn law_photo_has_the_frame_that_is_asked_for(
    args: CapturePhotoArgs,
    limits: CaptureLimits,
    frame: PhotoFrame,
    width: u32,
    height: u32,
    cross: char,
    region: CaptureRegion,
)
    requires
        capture::frame_of(args, limits) == Ok::<PhotoFrame, PhotoProblem>(frame),
    ensures
        args.size is Some && 0 < width && 0 < height && (cross == 'x' || cross == 'X')
            && args.size->0@ == decimal::decimal_text(width as nat).push(cross)
            + decimal::decimal_text(height as nat) ==> frame.size == Some((width, height)),
        args.size is Some ==> frame.size is Some,
        args.size is None && args.focus is Some ==> frame.size == Some((1024u32, 1024u32)),
        args.size is None && args.focus is None ==> frame.size is None,
        args.region is None <==> frame.region is None,
        args.region is Some && 0 < region.width && 0 < region.height && args.region->0@
            == region_text(region) ==> frame.region == Some(region),
        frame.region is Some ==> frame.region->0.x >= 0 && frame.region->0.y >= 0
            && capture::photo_size_problem(
            frame.region->0.width,
            frame.region->0.height,
            limits,
        ) is None,
        frame.size matches Some((wide, high)) ==> capture::photo_size_problem(wide, high, limits)
            is None,
{
    if 0 < width && 0 < height && (cross == 'x' || cross == 'X') {
        law_size_text_reads_back(width, height, cross);
    }
    if 0 < region.width && 0 < region.height {
        law_region_text_reads_back(region);
    }
}

/// A photo whose size and region are within the limits gets its frame, and one
/// that is not within them is refused for it.
pub proof fn law_photo_frame_is_refused_for_its_size_only(
    args: CapturePhotoArgs,
    limits: CaptureLimits,
    width: u32,
    height: u32,
    region: CaptureRegion,
)
    requires
        0 < width && 0 < height && 0 < region.width && 0 < region.height,
        args.size is Some ==> args.size->0@ == decimal::decimal_text(width as nat).push('x')
            + decimal::decimal_text(height as nat),
        args.size is None && args.focus is Some ==> width == 1024 && height == 1024,
        args.region is Some ==> args.region->0@ == region_text(region),
    ensures
        ({
            let wide = args.size is Some || args.focus is Some;
            let fits = capture::photo_size_problem(width, height, limits);
            let part = capture::photo_size_problem(region.width, region.height, limits);
            capture::frame_of(args, limits) == (if args.region is Some && (region.x < 0 || region.y
                < 0) {
                Err::<PhotoFrame, PhotoProblem>(PhotoProblem::NegativeRegion)
            } else if args.region is Some && part is Some {
                Err(PhotoProblem::Dimensions(part->0))
            } else if wide && fits is Some {
                Err(PhotoProblem::Dimensions(fits->0))
            } else {
                Ok(
                    PhotoFrame {
                        region: if args.region is Some {
                            Some(region)
                        } else {
                            None
                        },
                        size: if wide {
                            Some((width, height))
                        } else {
                            None
                        },
                    },
                )
            })
        }),
{
    law_size_text_reads_back(width, height, 'x');
    law_region_text_reads_back(region);
}

/// A capture of the screen is taken in the frame that is asked for, and refused
/// only where that frame is too large.
pub proof fn law_capture_has_the_frame_that_is_asked_for(
    limits: CaptureLimits,
    width: u32,
    height: u32,
    cross: char,
    region: CaptureRegion,
)
    requires
        0 < width && 0 < height && 0 < region.width && 0 < region.height,
        cross == 'x' || cross == 'X',
    ensures
        ({
            let size = decimal::decimal_text(width as nat).push(cross) + decimal::decimal_text(
                height as nat,
            );
            let part = region_text(region);
            let large = width > limits.max_dimension || height > limits.max_dimension || width
                * height > limits.max_pixels;
            let wide = region.width > limits.max_dimension || region.height
                > limits.max_dimension || region.width * region.height > limits.max_pixels;
            &&& capture::screen_frame_of(None, None, limits) == Ok::<PhotoFrame, PhotoProblem>(
                PhotoFrame { region: None, size: None },
            )
            &&& !large ==> capture::screen_frame_of(None, Some(size), limits) == Ok::<
                PhotoFrame,
                PhotoProblem,
            >(PhotoFrame { region: None, size: Some((width, height)) })
            &&& !wide ==> capture::screen_frame_of(Some(part), None, limits) == Ok::<
                PhotoFrame,
                PhotoProblem,
            >(PhotoFrame { region: Some(region), size: None })
            &&& !wide && !large ==> capture::screen_frame_of(Some(part), Some(size), limits)
                == Ok::<PhotoFrame, PhotoProblem>(
                PhotoFrame { region: Some(region), size: Some((width, height)) },
            )
            &&& large ==> capture::screen_frame_of(None, Some(size), limits) is Err
            &&& large ==> capture::screen_frame_of(Some(part), Some(size), limits) is Err
            &&& wide ==> capture::screen_frame_of(Some(part), None, limits) is Err
            &&& wide ==> capture::screen_frame_of(Some(part), Some(size), limits) is Err
        }),
{
    law_size_text_reads_back(width, height, cross);
    law_region_text_reads_back(region);
}

/// Which options of a photo go together. The user interface alone is shown, or a
/// target in it, only with transparency and without an instance in focus; a
/// camera, a direction, the world around and an unusual view need an instance in
/// focus; a camera rules the other ways to choose a view out; and an instance in
/// focus rules a part of the viewport out.
pub proof fn law_photo_options_go_together(args: CapturePhotoArgs)
    ensures
        capture::options_problem(args) is None <==> ({
            let target = args.ui_target is Some;
            let only = target || args.ui == Some(CapturePhotoUiMode::Only);
            let focus = args.focus is Some;
            &&& target ==> text::trimmed(args.ui_target->0@).len() > 0 && (args.ui is None
                || args.ui == Some(CapturePhotoUiMode::Only)) && !args.include_ui
            &&& only ==> args.transparent && !focus
            &&& !focus ==> args.isometric && !args.no_tight_crop && !args.include_world
                && args.direction is None && args.camera_cframe is None
            &&& args.camera_cframe is Some ==> args.direction is None && args.isometric
                && args.usual_padding
            &&& focus ==> args.region is None
        }),
        args.ui_target is Some ==> capture::ui_mode_of(args) == CapturePhotoUiMode::Only,
        args.ui_target is None && args.ui is Some ==> capture::ui_mode_of(args) == args.ui->0,
        args.ui_target is None && args.ui is None ==> (capture::ui_mode_of(args)
            == CapturePhotoUiMode::Overlay <==> args.include_ui) && capture::ui_mode_of(args)
            != CapturePhotoUiMode::Only,
        capture::tight_crop(args) ==> args.focus is Some && args.transparent && !args.include_world
            && !args.no_tight_crop,
        args.focus is Some && args.transparent && !args.include_world && !args.no_tight_crop
            ==> capture::tight_crop(args),
{
}

/// A plugin is refused for a photo exactly where it lacks something that the
/// photo needs: the camera, a target, the user interface alone, or the crop.
pub proof fn law_plugin_can_take_the_photo(
    args: CapturePhotoArgs,
    mode: CapturePhotoUiMode,
    camera: bool,
    target: bool,
    ui_only: bool,
    crop: bool,
)
    ensures
        capture::feature_problem(args, mode, camera, target, ui_only, crop) is None <==> (
        args.camera_cframe is Some ==> camera) && (args.ui_target is Some ==> target) && (mode
            == CapturePhotoUiMode::Only ==> ui_only) && (capture::tight_crop(args) ==> crop),
        capture::feature_problem(args, mode, true, true, true, true) is None,
{
}

/// A prepared photo is awaited exactly where it has four bytes for each of its
/// pixels, neither more nor fewer, and is within the limits.
pub proof fn law_prepared_photo_has_four_bytes_for_each_pixel(
    width: u32,
    height: u32,
    byte_length: usize,
    limits: CaptureLimits,
)
    ensures
        capture::prepared_problem(width, height, byte_length, limits) is None <==> byte_length
            == 4 * (width * height) && byte_length <= limits.max_bytes && capture::photo_size_problem(
            width,
            height,
            limits,
        ) is None,
{
    assert(width * height * 4 == 4 * (width * height)) by (nonlinear_arith);
    assert(byte_length <= u64::MAX);
}

/// A chunk is taken exactly where it continues the pixels that are there, brings
/// as many bytes as it says and not too many, does not go past the end, and says
/// that it is the last where it is.
pub proof fn law_chunk_continues_the_photo(
    offset: usize,
    next_offset: usize,
    eof: bool,
    decoded: Option<Seq<u8>>,
    at: int,
    expected: int,
)
    ensures
        capture::chunk_problem(offset, next_offset, eof, decoded, at, expected) is None <==> ({
            &&& decoded is Some && offset == at
            &&& 0 < decoded->0.len() <= 393_216
            &&& next_offset == at + decoded->0.len()
            &&& next_offset <= expected
            &&& eof == (next_offset == expected)
        }),
        decoded is None && offset == at && offset < next_offset <= expected
            ==> capture::chunk_problem(offset, next_offset, eof, decoded, at, expected) == Some(
            PhotoProblem::ChunkNotBase64,
        ),
{
}

/// A picture is kept exactly where it begins as a PNG does, has a size within the
/// limits, which is the expected one where one is expected, and all of its rows
/// can be read; and the size that is reported is that of the picture.
pub proof fn law_whole_picture_is_kept(
    signed: bool,
    size: Option<(u32, u32)>,
    rows: bool,
    expected: Option<(u32, u32)>,
    limits: CaptureLimits,
)
    ensures
        ({
            let outcome = capture::picture_outcome(signed, size, rows, expected, limits);
            &&& outcome is Ok <==> signed && rows && (expected is None || expected == size) && (
            size matches Some((wide, high)) && wide <= limits.max_dimension && high
                <= limits.max_dimension && wide * high <= limits.max_pixels)
            &&& outcome is Ok ==> Some(outcome->Ok_0) == size
            &&& !signed ==> outcome == Err::<(u32, u32), PictureProblem>(PictureProblem::NotPng)
        }),
        capture::png_signature() == seq![137u8, 80u8, 78u8, 71u8, 13u8, 10u8, 26u8, 10u8],
{
}

/// An artifact is what the daemon says exactly where it has the id that was asked
/// for, is a PNG of a size within the limit, comes with a digest in hexadecimal
/// and lies at an absolute path.
pub proof fn law_artifact_is_the_one_asked_for(
    id: Seq<char>,
    metadata: ArtifactMetadata,
    limits: CaptureLimits,
)
    ensures
        capture::metadata_problem(id, metadata, limits) is None <==> ({
            &&& metadata.id@ == id
            &&& metadata.mime@ == "image/png"@
            &&& 0 < metadata.size <= limits.max_bytes
            &&& metadata.sha256@.len() == 64 && hex::all_hex(metadata.sha256@)
            &&& metadata.path_is_absolute
        }),
{
}

/// The bytes of an artifact are kept exactly where there are as many of them as
/// was said, also beforehand, their digest is the one that was said, whatever the
/// case of its letters, and they are the picture; and the size of the picture is
/// reported as it is.
pub proof fn law_artifact_bytes_are_those_announced(
    bytes: Seq<u8>,
    size: u64,
    sha256: Seq<char>,
    expected_size: Option<u64>,
    picture: Result<(u32, u32), PictureProblem>,
    limits: CaptureLimits,
)
    ensures
        ({
            let outcome = capture::capture_outcome(bytes, size, sha256, expected_size, picture);
            &&& outcome is Ok <==> bytes.len() == size && (expected_size is None || expected_size
                == Some(size)) && text::lower(hex::hex_text(conflict::sha256(bytes)))
                == text::lower(sha256) && picture is Ok
            &&& outcome is Ok ==> outcome->Ok_0 == picture->Ok_0
        }),
        ({
            let outcome = capture::native_outcome(bytes, size as usize, sha256, picture, limits);
            size <= usize::MAX ==> {
                &&& outcome is Ok <==> bytes.len() == size && 0 < size <= limits.max_bytes
                    && hex::hex_text(conflict::sha256(bytes)) == sha256 && picture is Ok
                &&& outcome is Ok ==> outcome->Ok_0 == picture->Ok_0
            }
        }),
{
}

/// Studio takes the captures wherever it may; a window is captured only where
/// Studio cannot, the system can, and the user has permitted it.
pub proof fn law_studio_takes_captures_where_it_may(
    unsupported: bool,
    available: bool,
    permitted: bool,
)
    ensures
        capture::provider_of(true, unsupported, available, permitted) == "studio"@,
        capture::provider_of(false, unsupported, available, permitted) == "macos-window"@ <==> (
        unsupported && available && permitted),
        capture::provider_of(false, unsupported, available, permitted) == "none"@ <==> !(
        unsupported && available && permitted),
{
    reveal_strlit("studio");
    reveal_strlit("macos-window");
    reveal_strlit("none");
    assert("none"@.len() == 4 && "macos-window"@.len() == 12);
}

/// A fifth of the time that is left is kept back for cleaning up, and never more
/// than the reserve.
pub proof fn law_a_fifth_of_the_time_is_kept_back(deadline: u64, now: u64, reserve: u64)
    requires
        now <= deadline,
    ensures
        ({
            let kept = deadline - capture::work_deadline(deadline, now, reserve);
            &&& 0 <= kept <= reserve
            &&& kept < reserve ==> 5 * kept <= deadline - now < 5 * kept + 5
            &&& 5 * kept <= deadline - now
        }),
{
}

} // verus!
