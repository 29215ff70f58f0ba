//! The course of a capture: what is done next, after what came of the last step.
//!
//! The steps themselves talk to the plugin, to the daemon and to the file
//! system. A step that failed there is reported as such; its words stay with the
//! one who took it.
use vstd::prelude::*;

use crate::artifacts;
use crate::capture;
use crate::capture::{
    capture_error_allows_macos_window_fallback, check_photo_features, check_prepared_capture,
    finish_photo, needs_features, plugin_artifact_id, validate_artifact_id, ArtifactProblem, CaptureLimits,
    CapturePhotoArgs, CapturePhotoUiMode, FinishedPhoto, PhotoChunk, PhotoPixels, PhotoProblem,
};
use crate::hex;
use crate::json;
use crate::json::{flag_at, read_at, text_at};
use crate::text::{chars_of, same};

verus! {

/// The next step of a photo.
#[derive(Debug, Clone, Copy, PartialEq, Eq, Structural)]
pub enum PhotoStage {
    /// The plugin is asked what it can do.
    Capabilities,
    /// The plugin is asked to take the photo.
    Prepare,
    /// The plugin is asked for the next pixels.
    Read,
    /// The picture is written.
    Write,
    /// The plugin is asked to forget the photo.
    Close,
    Over,
}

/// Why there is no photo.
#[derive(Debug, Clone, Copy, PartialEq, Eq, Structural)]
pub enum PhotoFailure {
    /// A step failed.
    Outside,
    Photo(PhotoProblem),
}

/// What came of a step.
#[derive(Debug)]
pub enum PhotoEvent {
    /// What the plugin says that it can do, a JSON text.
    Capabilities(String),
    /// The plugin took the photo.
    Prepared { session: String, width: u32, height: u32, byte_length: usize },
    /// The plugin took the photo, but what it says of it cannot be read.
    Unreadable { session: Option<String> },
    Chunk(PhotoChunk),
    Written,
    /// The plugin forgot the photo.
    Closed,
    /// The step failed.
    Failed,
}

/// The course of a photo.
#[derive(Debug)]
pub struct PhotoRun {
    pub args: CapturePhotoArgs,
    pub mode: CapturePhotoUiMode,
    pub limits: CaptureLimits,
    pub stage: PhotoStage,
    /// The photo that the plugin still keeps.
    pub session: Option<String>,
    pub pixels: Option<PhotoPixels>,
    pub photo: Option<FinishedPhoto>,
    pub failure: Option<PhotoFailure>,
    /// Whether the plugin forgot the photo, where it was asked to.
    pub closed: Option<bool>,
}

/// Whether an event can come of a step.
pub open spec fn photo_event_fits(stage: PhotoStage, event: PhotoEvent) -> bool {
    match event {
        PhotoEvent::Capabilities(_) => stage == PhotoStage::Capabilities,
        PhotoEvent::Prepared { .. } => stage == PhotoStage::Prepare,
        PhotoEvent::Unreadable { .. } => stage == PhotoStage::Prepare,
        PhotoEvent::Chunk(_) => stage == PhotoStage::Read,
        PhotoEvent::Written => stage == PhotoStage::Write,
        PhotoEvent::Closed => stage == PhotoStage::Close,
        PhotoEvent::Failed => stage != PhotoStage::Over,
    }
}

/// The picture of all pixels, or what is wrong with it.
pub open spec fn picture_problem(width: u32, height: u32, rgba: Seq<u8>, limits: CaptureLimits) -> Option<
    PhotoProblem,
> {
    let bytes = capture::encoded_png(width, height, rgba);
    capture::finished_problem(
        bytes,
        capture::picture_outcome(
            capture::png_signature().is_prefix_of(bytes),
            capture::png_size(bytes),
            capture::png_rows(bytes),
            Some((width, height)),
            limits,
        ),
        limits,
    )
}

pub open spec fn as_failure(problem: Option<PhotoProblem>) -> Option<PhotoFailure> {
    match problem {
        Some(p) => Some(PhotoFailure::Photo(p)),
        None => None,
    }
}

impl PhotoRun {
    pub open spec fn wf(&self) -> bool {
        &&& self.session is Some <==> (self.stage == PhotoStage::Read || self.stage
            == PhotoStage::Write || self.stage == PhotoStage::Close)
        &&& self.stage == PhotoStage::Read ==> self.pixels is Some && {
            let p = self.pixels->0;
            p.wf() && p.rgba@.len() < p.expected && p.width > 0 && p.height > 0
        }
        &&& self.stage == PhotoStage::Write ==> self.holds_picture()
        &&& (self.stage == PhotoStage::Close || self.stage == PhotoStage::Over) && self.failure is None
            ==> self.holds_picture()
        &&& self.stage != PhotoStage::Close && self.stage != PhotoStage::Over ==> self.failure is None
    }

    /// Whether all pixels are there and the photo is their picture, found to be
    /// sound, with its digest.
    pub open spec fn holds_picture(&self) -> bool {
        let p = self.pixels->0;
        let bytes = capture::encoded_png(p.width, p.height, p.rgba@);
        &&& self.pixels is Some && self.photo is Some
        &&& p.rgba@.len() == p.expected
        &&& picture_problem(p.width, p.height, p.rgba@, self.limits) is None
        &&& self.photo->0.bytes@ == bytes
        &&& self.photo->0.sha256@ == hex::hex_text(crate::conflict::sha256(bytes))
    }

    /// What is wrong with a chunk; with the last one, also with the picture.
    pub open spec fn read_problem(&self, chunk: PhotoChunk) -> Option<PhotoProblem> {
        let p = self.pixels->0;
        let bytes = artifacts::standard_bytes(chunk.bytes_base64@);
        let problem = capture::chunk_problem(
            chunk.offset,
            chunk.next_offset,
            chunk.eof,
            bytes,
            p.rgba@.len() as int,
            p.expected as int,
        );
        if problem is Some {
            problem
        } else if chunk.next_offset < p.expected {
            None
        } else {
            picture_problem(p.width, p.height, p.rgba@ + bytes->0, self.limits)
        }
    }

    /// The pixels after a chunk.
    pub open spec fn pixels_after(&self, chunk: PhotoChunk) -> Seq<u8> {
        let p = self.pixels->0;
        let bytes = artifacts::standard_bytes(chunk.bytes_base64@);
        if capture::chunk_problem(
            chunk.offset,
            chunk.next_offset,
            chunk.eof,
            bytes,
            p.rgba@.len() as int,
            p.expected as int,
        ) is Some {
            p.rgba@
        } else {
            p.rgba@ + bytes->0
        }
    }

    /// Whether the pixels after a chunk are those of `before` with the chunk.
    pub open spec fn read_on(&self, before: PhotoRun, chunk: PhotoChunk) -> bool {
        let p = self.pixels->0;
        &&& self.pixels is Some
        &&& p == (PhotoPixels { rgba: p.rgba, ..before.pixels->0 })
        &&& p.rgba@ == before.pixels_after(chunk)
        &&& self.stage != PhotoStage::Write ==> self.photo == before.photo
    }

    /// The failure that an event brings.
    pub open spec fn brings(&self, event: PhotoEvent) -> Option<PhotoFailure> {
        match event {
            PhotoEvent::Failed => Some(PhotoFailure::Outside),
            PhotoEvent::Unreadable { .. } => Some(PhotoFailure::Outside),
            PhotoEvent::Capabilities(said) => as_failure(
                capture::feature_problem(
                    self.args,
                    self.mode,
                    capture::can(said@, "/features/photoCameraCFrame"@),
                    capture::can(said@, "/features/photoUiTarget"@),
                    capture::can(said@, "/features/photoUiOnly"@),
                    capture::can(said@, "/features/photoInstanceTightCrop"@),
                ),
            ),
            PhotoEvent::Prepared { width, height, byte_length, .. } => as_failure(
                capture::prepared_problem(width, height, byte_length, self.limits),
            ),
            PhotoEvent::Chunk(chunk) => as_failure(self.read_problem(chunk)),
            PhotoEvent::Written => None,
            PhotoEvent::Closed => None,
        }
    }

    /// Whether the plugin keeps a photo after an event.
    pub open spec fn keeps_session(&self, event: PhotoEvent) -> bool {
        match event {
            PhotoEvent::Prepared { .. } => true,
            PhotoEvent::Unreadable { session } => session is Some,
            _ => self.session is Some,
        }
    }

    /// The step after an event. A photo that the plugin keeps is closed in any
    /// case.
    pub open spec fn next_stage(&self, event: PhotoEvent) -> PhotoStage {
        if self.stage == PhotoStage::Close {
            PhotoStage::Over
        } else if self.brings(event) is Some {
            if self.keeps_session(event) {
                PhotoStage::Close
            } else {
                PhotoStage::Over
            }
        } else {
            match event {
                PhotoEvent::Capabilities(_) => PhotoStage::Prepare,
                PhotoEvent::Prepared { .. } => PhotoStage::Read,
                PhotoEvent::Chunk(chunk) => if chunk.next_offset < self.pixels->0.expected {
                    PhotoStage::Read
                } else {
                    PhotoStage::Write
                },
                _ => PhotoStage::Close,
            }
        }
    }

    /// Starts a photo of which the options were checked.
    pub fn start(args: CapturePhotoArgs, mode: CapturePhotoUiMode, limits: CaptureLimits) -> (run:
        PhotoRun)
        ensures
            run.wf(),
            run.args == args && run.mode == mode && run.limits == limits,
            run.stage == (if mode == CapturePhotoUiMode::Only || args.camera_cframe is Some
                || args.ui_target is Some || capture::tight_crop(args) {
                PhotoStage::Capabilities
            } else {
                PhotoStage::Prepare
            }),
            run.session is None && run.pixels is None && run.photo is None && run.failure is None
                && run.closed is None,
    {
        let stage = if needs_features(&args, mode) {
            PhotoStage::Capabilities
        } else {
            PhotoStage::Prepare
        };
        PhotoRun {
            args,
            mode,
            limits,
            stage,
            session: None,
            pixels: None,
            photo: None,
            failure: None,
            closed: None,
        }
    }

    fn fail(&mut self, failure: PhotoFailure)
        requires
            old(self).stage != PhotoStage::Close && old(self).stage != PhotoStage::Over,
        ensures
            *final(self) == (PhotoRun {
                stage: if old(self).session is Some {
                    PhotoStage::Close
                } else {
                    PhotoStage::Over
                },
                failure: Some(failure),
                ..*old(self)
            }),
    {
        self.stage = if self.session.is_some() {
            PhotoStage::Close
        } else {
            PhotoStage::Over
        };
        self.failure = Some(failure);
    }

    fn take(&mut self, chunk: PhotoChunk)
        requires
            old(self).wf(),
            old(self).stage == PhotoStage::Read,
        ensures
            final(self).wf(),
            final(self).stage == old(self).next_stage(PhotoEvent::Chunk(chunk)),
            final(self).failure == old(self).brings(PhotoEvent::Chunk(chunk)),
            final(self).session == old(self).session && final(self).closed == old(self).closed,
            final(self).args == old(self).args && final(self).mode == old(self).mode
                && final(self).limits == old(self).limits,
            final(self).read_on(*old(self), chunk),
    {
        let mut pixels = match self.pixels.take() {
            None => return ,
            Some(pixels) => pixels,
        };
        let taken = pixels.take_chunk(&chunk);
        if let Err(p) = taken {
            self.pixels = Some(pixels);
            self.fail(PhotoFailure::Photo(p));
            return ;
        }
        if pixels.next_offset().is_some() {
            self.pixels = Some(pixels);
            return ;
        }
        let finished = finish_photo(&pixels, &self.limits);
        self.pixels = Some(pixels);
        match finished {
            Err(p) => self.fail(PhotoFailure::Photo(p)),
            Ok(photo) => {
                self.photo = Some(photo);
                self.stage = PhotoStage::Write;
            },
        }
    }

    /// Goes on after an event.
    pub fn happened(&mut self, event: PhotoEvent)
        requires
            old(self).wf(),
            photo_event_fits(old(self).stage, event),
        ensures
            final(self).wf(),
            final(self).args == old(self).args && final(self).mode == old(self).mode
                && final(self).limits == old(self).limits,
            final(self).stage == old(self).next_stage(event),
            final(self).failure == (if old(self).stage == PhotoStage::Close {
                old(self).failure
            } else {
                old(self).brings(event)
            }),
            final(self).closed == (if old(self).stage == PhotoStage::Close {
                Some(event is Closed)
            } else {
                old(self).closed
            }),
            match event {
                PhotoEvent::Prepared { session, .. } => final(self).session == Some(session),
                PhotoEvent::Unreadable { session } => final(self).session == session,
                _ => final(self).session == (if old(self).stage == PhotoStage::Close {
                    None
                } else {
                    old(self).session
                }),
            },
            match event {
                PhotoEvent::Chunk(chunk) => final(self).read_on(*old(self), chunk),
                PhotoEvent::Prepared { width, height, .. } => {
                    &&& final(self).photo == old(self).photo
                    &&& final(self).stage == PhotoStage::Read ==> {
                        let p = final(self).pixels->0;
                        p.width == width && p.height == height && p.rgba@.len() == 0
                    }
                    &&& final(self).stage != PhotoStage::Read ==> final(self).pixels
                        == old(self).pixels
                },
                _ => final(self).pixels == old(self).pixels && final(self).photo == old(self).photo,
            },
    {
        if self.stage == PhotoStage::Close {
            let confirmed = matches!(event, PhotoEvent::Closed);
            self.stage = PhotoStage::Over;
            self.session = None;
            self.closed = Some(confirmed);
            return ;
        }
        match event {
            PhotoEvent::Capabilities(said) => match check_photo_features(
                &self.args,
                self.mode,
                said.as_str(),
            ) {
                Some(p) => self.fail(PhotoFailure::Photo(p)),
                None => self.stage = PhotoStage::Prepare,
            },
            PhotoEvent::Prepared { session, width, height, byte_length } => {
                self.session = Some(session);
                match PhotoPixels::await_pixels(width, height, byte_length, &self.limits) {
                    Err(p) => self.fail(PhotoFailure::Photo(p)),
                    Ok(pixels) => {
                        assert(pixels.expected > 0) by (nonlinear_arith)
                            requires
                                width > 0,
                                height > 0,
                                pixels.expected == width * height * 4,
                        ;
                        self.pixels = Some(pixels);
                        self.stage = PhotoStage::Read;
                    },
                }
            },
            PhotoEvent::Unreadable { session } => {
                self.session = session;
                self.fail(PhotoFailure::Outside);
            },
            PhotoEvent::Chunk(chunk) => self.take(chunk),
            PhotoEvent::Written => self.stage = PhotoStage::Close,
            PhotoEvent::Closed => {},
            PhotoEvent::Failed => self.fail(PhotoFailure::Outside),
        }
    }
}

/// A photo that the plugin keeps is closed before the course is over.
pub proof fn law_kept_photo_is_closed(run: PhotoRun, event: PhotoEvent)
    requires
        run.wf(),
        photo_event_fits(run.stage, event),
        run.keeps_session(event),
    ensures
        run.next_stage(event) == PhotoStage::Over ==> run.stage == PhotoStage::Close,
{
}

/// A course that ends without a failure leaves the picture of all pixels, found
/// to be sound.
pub proof fn law_photo_without_failure_is_whole(run: PhotoRun)
    requires
        run.wf(),
        run.stage == PhotoStage::Over,
        run.failure is None,
    ensures
        run.photo is Some,
        ({
            let p = run.pixels->0;
            &&& run.pixels is Some
            &&& p.rgba@.len() == p.expected
            &&& run.photo->0.bytes@ == capture::encoded_png(p.width, p.height, p.rgba@)
            &&& picture_problem(p.width, p.height, p.rgba@, run.limits) is None
        }),
{
}

/// The next step of a capture of the screen.
#[derive(Debug, Clone, Copy, PartialEq, Eq, Structural)]
pub enum ScreenStage {
    /// The plugin is asked to take the capture.
    Prepare,
    /// The window is captured in place of Studio.
    Fallback,
    /// The daemon is asked for a place to put the capture.
    Lease,
    /// The plugin is asked to put the capture there.
    Export,
    /// The capture is fetched, checked and written.
    Materialize,
    /// The plugin is asked to forget the capture.
    Close,
    /// The daemon is asked to forget the capture.
    Consume,
    /// The daemon is asked to give the place up.
    Cleanup,
    Over,
}

/// Why there is no capture of the screen.
#[derive(Debug, Clone, Copy, PartialEq, Eq, Structural)]
pub enum ScreenFailure {
    /// A step failed.
    Outside,
    LeaseRejected,
    NoLease,
    NoToken,
    /// The plugin put another capture in place.
    OtherLease,
    Artifact(ArtifactProblem),
}

/// What came of a step.
#[derive(Debug)]
pub enum ScreenEvent {
    Prepared { session: String, width: u32, height: u32, byte_length: u64 },
    /// The plugin says why it took no capture.
    Refused { error: String },
    /// What the plugin says of the capture cannot be read.
    Unreadable { session: Option<String> },
    /// What the daemon answers to the request for a place, a JSON text.
    Leased(String),
    /// What the plugin says of the capture that it put in place, a JSON text.
    Exported(String),
    /// The capture was written, and the daemon forgot it or not.
    Materialized { consumed: bool },
    /// The step was done.
    Done,
    /// The step failed.
    Failed,
}

/// What was asked for, as far as the course depends on it.
#[derive(Debug, Clone, Copy, PartialEq, Eq, Structural)]
pub struct ScreenRequest {
    pub macos: bool,
    pub ui_all: bool,
    pub has_focus: bool,
    pub has_view: bool,
    pub has_padding: bool,
}

/// The course of a capture of the screen.
#[derive(Debug)]
pub struct ScreenRun {
    pub request: ScreenRequest,
    pub limits: CaptureLimits,
    pub stage: ScreenStage,
    /// The capture that the plugin keeps.
    pub session: Option<String>,
    /// The id and the token of the place for the capture.
    pub lease: Option<(String, String)>,
    pub failure: Option<ScreenFailure>,
    /// Whether the daemon forgot the capture.
    pub consumed: bool,
}

/// Whether an event can come of a step.
pub open spec fn screen_event_fits(stage: ScreenStage, event: ScreenEvent) -> bool {
    match event {
        ScreenEvent::Prepared { .. } => stage == ScreenStage::Prepare,
        ScreenEvent::Refused { .. } => stage == ScreenStage::Prepare,
        ScreenEvent::Unreadable { .. } => stage == ScreenStage::Prepare,
        ScreenEvent::Leased(_) => stage == ScreenStage::Lease,
        ScreenEvent::Exported(_) => stage == ScreenStage::Export,
        ScreenEvent::Materialized { .. } => stage == ScreenStage::Materialize,
        ScreenEvent::Done => stage == ScreenStage::Fallback || stage == ScreenStage::Close || stage
            == ScreenStage::Consume || stage == ScreenStage::Cleanup,
        ScreenEvent::Failed => stage != ScreenStage::Over,
    }
}

/// The id and the token in what the daemon answers to the request for a place,
/// or what is wrong with it.
pub open spec fn lease_of(reply: Seq<char>) -> Result<(Seq<char>, Seq<char>), ScreenFailure> {
    let token = json::text_of(json::value_at(reply, "/lease/token"@));
    if json::flag_of(json::value_at(reply, "/ok"@)) != Some(true) {
        Err(ScreenFailure::LeaseRejected)
    } else if json::value_at(reply, "/lease"@) is None {
        Err(ScreenFailure::NoLease)
    } else {
        match capture::named_id(json::text_of(json::value_at(reply, "/lease/id"@))) {
            Err(p) => Err(ScreenFailure::Artifact(p)),
            Ok(id) => if token is None || token->0.len() == 0 {
                Err(ScreenFailure::NoToken)
            } else {
                Ok((id, token->0))
            },
        }
    }
}

pub open spec fn lease_texts(lease: Option<(String, String)>) -> Option<(Seq<char>, Seq<char>)> {
    match lease {
        Some((id, token)) => Some((id@, token@)),
        None => None,
    }
}

fn read_lease(reply: &str) -> (r: Result<(String, String), ScreenFailure>)
    ensures
        match r {
            Ok(lease) => lease_of(reply@) == Ok::<(Seq<char>, Seq<char>), ScreenFailure>(
                (lease.0@, lease.1@),
            ),
            Err(p) => lease_of(reply@) == Err::<(Seq<char>, Seq<char>), ScreenFailure>(p),
        },
{
    let accepted = match flag_at(reply, "/ok") {
        Some(ok) => ok,
        None => false,
    };
    if !accepted {
        return Err(ScreenFailure::LeaseRejected);
    }
    if read_at(reply, "/lease").is_none() {
        return Err(ScreenFailure::NoLease);
    }
    let id = match text_at(reply, "/lease/id") {
        None => return Err(ScreenFailure::Artifact(ArtifactProblem::NoId)),
        Some(id) => id,
    };
    if let Err(p) = validate_artifact_id(id.as_str()) {
        return Err(ScreenFailure::Artifact(p));
    }
    match text_at(reply, "/lease/token") {
        None => Err(ScreenFailure::NoToken),
        Some(token) => if chars_of(token.as_str()).len() == 0 {
            Err(ScreenFailure::NoToken)
        } else {
            Ok((id, token))
        },
    }
}

/// What is wrong with the capture that the plugin put in place.
pub open spec fn export_problem(said: Seq<char>, lease_id: Seq<char>) -> Option<ScreenFailure> {
    match capture::named_id(json::text_of(json::value_at(said, "/id"@))) {
        Err(p) => Some(ScreenFailure::Artifact(p)),
        Ok(id) => if id != lease_id {
            Some(ScreenFailure::OtherLease)
        } else {
            None
        },
    }
}

fn check_export(said: &str, lease_id: &str) -> (r: Option<ScreenFailure>)
    ensures
        r == export_problem(said@, lease_id@),
{
    match plugin_artifact_id(said) {
        Err(p) => Some(ScreenFailure::Artifact(p)),
        Ok(id) => if same(id.as_str(), lease_id) {
            None
        } else {
            Some(ScreenFailure::OtherLease)
        },
    }
}

/// What is wrong with a capture that the plugin prepared.
pub open spec fn prepared_failure(
    width: u32,
    height: u32,
    byte_length: u64,
    limits: CaptureLimits,
) -> Option<ScreenFailure> {
    match capture::capture_size_problem(width, height, limits) {
        Some(p) => Some(
            ScreenFailure::Artifact(
                ArtifactProblem::Picture(capture::PictureProblem::Size(p)),
            ),
        ),
        None => if byte_length == 0 || byte_length > limits.max_bytes {
            Some(ScreenFailure::Artifact(ArtifactProblem::SizeLimit))
        } else {
            None
        },
    }
}

impl ScreenRun {
    pub open spec fn wf(&self) -> bool {
        &&& (self.stage == ScreenStage::Export || self.stage == ScreenStage::Materialize)
            ==> self.lease is Some
        &&& (self.stage == ScreenStage::Lease || self.stage == ScreenStage::Export || self.stage
            == ScreenStage::Materialize || self.stage == ScreenStage::Close) ==> self.session is Some
        &&& (self.stage == ScreenStage::Consume || self.stage == ScreenStage::Cleanup)
            ==> self.lease is Some
        &&& self.lease is Some ==> self.session is Some
        &&& self.stage == ScreenStage::Close && self.failure is None ==> self.lease is Some
        &&& (self.stage == ScreenStage::Prepare || self.stage == ScreenStage::Fallback || self.stage
            == ScreenStage::Lease || self.stage == ScreenStage::Export || self.stage
            == ScreenStage::Materialize || self.stage == ScreenStage::Consume) ==> self.failure is None
        &&& (self.stage == ScreenStage::Prepare || self.stage == ScreenStage::Fallback)
            ==> self.session is None
    }

    /// Whether the window is captured in place of Studio.
    pub open spec fn falls_back(&self, error: Seq<char>) -> bool {
        let q = self.request;
        capture::window_fallback(
            q.macos && q.ui_all && !q.has_focus && !q.has_view && !q.has_padding,
            error,
        )
    }

    /// The failure that an event brings while the capture is made.
    pub open spec fn brings(&self, event: ScreenEvent) -> Option<ScreenFailure> {
        match event {
            ScreenEvent::Failed => Some(ScreenFailure::Outside),
            ScreenEvent::Unreadable { .. } => Some(ScreenFailure::Outside),
            ScreenEvent::Refused { error } => if self.falls_back(error@) {
                None
            } else {
                Some(ScreenFailure::Outside)
            },
            ScreenEvent::Prepared { width, height, byte_length, .. } => prepared_failure(
                width,
                height,
                byte_length,
                self.limits,
            ),
            ScreenEvent::Leased(reply) => match lease_of(reply@) {
                Ok(_) => None,
                Err(p) => Some(p),
            },
            ScreenEvent::Exported(said) => {
                let (id, token) = self.lease->0;
                export_problem(said@, id@)
            },
            ScreenEvent::Materialized { .. } => None,
            ScreenEvent::Done => None,
        }
    }

    /// Whether the plugin keeps a capture after an event.
    pub open spec fn keeps_session(&self, event: ScreenEvent) -> bool {
        match event {
            ScreenEvent::Prepared { .. } => true,
            ScreenEvent::Unreadable { session } => session is Some,
            _ => self.session is Some,
        }
    }

    /// The step after an event. A capture that the plugin keeps is closed in any
    /// case, and a place for it is given up where the daemon did not forget it.
    pub open spec fn next_stage(&self, event: ScreenEvent) -> ScreenStage {
        match self.stage {
            ScreenStage::Close => if self.failure is Some {
                if self.lease is Some {
                    ScreenStage::Cleanup
                } else {
                    ScreenStage::Over
                }
            } else if self.consumed {
                ScreenStage::Over
            } else {
                ScreenStage::Consume
            },
            ScreenStage::Consume => if event is Failed {
                ScreenStage::Cleanup
            } else {
                ScreenStage::Over
            },
            ScreenStage::Cleanup => ScreenStage::Over,
            ScreenStage::Fallback => ScreenStage::Over,
            _ => if self.brings(event) is Some {
                if self.keeps_session(event) {
                    ScreenStage::Close
                } else {
                    ScreenStage::Over
                }
            } else {
                match event {
                    ScreenEvent::Refused { .. } => ScreenStage::Fallback,
                    ScreenEvent::Prepared { .. } => ScreenStage::Lease,
                    ScreenEvent::Leased(_) => ScreenStage::Export,
                    ScreenEvent::Exported(_) => ScreenStage::Materialize,
                    _ => ScreenStage::Close,
                }
            },
        }
    }

    /// The failure after an event.
    pub open spec fn next_failure(&self, event: ScreenEvent) -> Option<ScreenFailure> {
        match self.stage {
            ScreenStage::Close => self.failure,
            ScreenStage::Consume => self.failure,
            ScreenStage::Cleanup => self.failure,
            _ => self.brings(event),
        }
    }

    /// Whether the daemon forgot the capture after an event.
    pub open spec fn next_consumed(&self, event: ScreenEvent) -> bool {
        match event {
            ScreenEvent::Materialized { consumed } => consumed,
            ScreenEvent::Done => self.consumed || self.stage == ScreenStage::Consume,
            _ => self.consumed,
        }
    }

    /// Starts a capture.
    pub fn start(request: ScreenRequest, limits: CaptureLimits) -> (run: ScreenRun)
        ensures
            run.wf(),
            run.request == request && run.limits == limits,
            run.stage == ScreenStage::Prepare,
            run.session is None && run.lease is None && run.failure is None && !run.consumed,
    {
        ScreenRun {
            request,
            limits,
            stage: ScreenStage::Prepare,
            session: None,
            lease: None,
            failure: None,
            consumed: false,
        }
    }

    fn fail(&mut self, failure: ScreenFailure)
        ensures
            *final(self) == (ScreenRun {
                stage: if old(self).session is Some {
                    ScreenStage::Close
                } else {
                    ScreenStage::Over
                },
                failure: Some(failure),
                ..*old(self)
            }),
    {
        self.stage = if self.session.is_some() {
            ScreenStage::Close
        } else {
            ScreenStage::Over
        };
        self.failure = Some(failure);
    }

    /// Goes on after an event.
    pub fn happened(&mut self, event: ScreenEvent)
        requires
            old(self).wf(),
            screen_event_fits(old(self).stage, event),
        ensures
            final(self).wf(),
            final(self).request == old(self).request && final(self).limits == old(self).limits,
            final(self).stage == old(self).next_stage(event),
            final(self).failure == old(self).next_failure(event),
            final(self).consumed == old(self).next_consumed(event),
            match event {
                ScreenEvent::Prepared { session, .. } => final(self).session == Some(session),
                ScreenEvent::Unreadable { session } => final(self).session == session,
                _ => final(self).session == old(self).session,
            },
            event matches ScreenEvent::Leased(reply) ==> match lease_of(reply@) {
                Ok(given) => lease_texts(final(self).lease) == Some(given),
                Err(_) => final(self).lease == old(self).lease,
            },
            !(event is Leased) ==> final(self).lease == old(self).lease,
    {
        match self.stage {
            ScreenStage::Close => {
                self.stage = if self.failure.is_some() {
                    if self.lease.is_some() {
                        ScreenStage::Cleanup
                    } else {
                        ScreenStage::Over
                    }
                } else if self.consumed {
                    ScreenStage::Over
                } else {
                    ScreenStage::Consume
                };
                return ;
            },
            ScreenStage::Consume => {
                if matches!(event, ScreenEvent::Failed) {
                    self.stage = ScreenStage::Cleanup;
                } else {
                    self.consumed = true;
                    self.stage = ScreenStage::Over;
                }
                return ;
            },
            ScreenStage::Cleanup => {
                self.stage = ScreenStage::Over;
                return ;
            },
            ScreenStage::Fallback => {
                self.stage = ScreenStage::Over;
                if matches!(event, ScreenEvent::Failed) {
                    self.failure = Some(ScreenFailure::Outside);
                }
                return ;
            },
            _ => {},
        }
        match event {
            ScreenEvent::Prepared { session, width, height, byte_length } => {
                self.session = Some(session);
                match check_prepared_capture(width, height, byte_length, &self.limits) {
                    Err(p) => self.fail(ScreenFailure::Artifact(p)),
                    Ok(()) => self.stage = ScreenStage::Lease,
                }
            },
            ScreenEvent::Refused { error } => {
                let q = self.request;
                if capture_error_allows_macos_window_fallback(
                    q.macos,
                    q.ui_all,
                    q.has_focus,
                    q.has_view,
                    q.has_padding,
                    error.as_str(),
                ) {
                    self.stage = ScreenStage::Fallback;
                } else {
                    self.fail(ScreenFailure::Outside);
                }
            },
            ScreenEvent::Unreadable { session } => {
                self.session = session;
                self.fail(ScreenFailure::Outside);
            },
            ScreenEvent::Leased(reply) => match read_lease(reply.as_str()) {
                Err(p) => self.fail(p),
                Ok(lease) => {
                    self.lease = Some(lease);
                    self.stage = ScreenStage::Export;
                },
            },
            ScreenEvent::Exported(said) => {
                let problem = match &self.lease {
                    Some((id, _)) => check_export(said.as_str(), id.as_str()),
                    None => Some(ScreenFailure::NoLease),
                };
                match problem {
                    Some(p) => self.fail(p),
                    None => self.stage = ScreenStage::Materialize,
                }
            },
            ScreenEvent::Materialized { consumed } => {
                self.consumed = consumed;
                self.stage = ScreenStage::Close;
            },
            ScreenEvent::Done => {},
            ScreenEvent::Failed => self.fail(ScreenFailure::Outside),
        }
    }
}

/// A capture that the plugin keeps is closed before the course is over.
pub proof fn law_kept_capture_is_closed(run: ScreenRun, event: ScreenEvent)
    requires
        run.wf(),
        screen_event_fits(run.stage, event),
        run.keeps_session(event),
    ensures
        run.next_stage(event) == ScreenStage::Over ==> run.stage == ScreenStage::Close || run.stage
            == ScreenStage::Consume || run.stage == ScreenStage::Cleanup,
        (run.next_stage(event) == ScreenStage::Consume || run.next_stage(event)
            == ScreenStage::Cleanup) ==> run.stage == ScreenStage::Close || run.stage
            == ScreenStage::Consume,
{
}

/// A place that the daemon gave for a capture is given back before the course is
/// over: the daemon forgot the capture, or was asked to give the place up.
pub proof fn law_lease_is_given_back(run: ScreenRun, event: ScreenEvent)
    requires
        run.wf(),
        screen_event_fits(run.stage, event),
        run.lease is Some,
        run.next_stage(event) == ScreenStage::Over,
    ensures
        run.next_consumed(event) || run.stage == ScreenStage::Cleanup,
{
}

} // verus!
