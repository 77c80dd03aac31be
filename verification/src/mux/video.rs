//! Encoder of files with video alone.
use crate::container::v1::syntax;
use crate::container::v1::wire;
use crate::container::v1::{Packet, StreamDesc};
use crate::mux::assemble;
use crate::mux::coder;
use crate::mux::coder::FrameCoder;
use crate::mux::epoch;
use crate::mux::epoch::{video_packets, write_epoch, EncodedFrame};
use crate::mux::{MuxError, Settings};
use crate::video::v1::EncoderPreset;
use vstd::prelude::*;

verus! {

/// Codes frames as they come and keeps the epochs until the file is finished.
#[derive(Debug)]
pub struct VideoEncoderState {
    pub video: FrameCoder,
    pub epoch_start_frame: u64,
    pub epoch_id: u32,
    pub pending: Vec<EncodedFrame>,
    pub epochs: Vec<(u32, u64, u32, Vec<u8>)>,
    pub output: Vec<u8>,
    pub finished: bool,
}

/// The state of the encoder.
#[verifier::ext_equal]
pub struct VideoModel {
    pub coding: coder::Coding,
    pub epoch_start: u64,
    pub epoch_id: u32,
    pub pending: Seq<syntax::PacketModel>,
    pub epochs: Seq<syntax::EpochRange>,
    pub output: Seq<u8>,
    pub finished: bool,
}

impl VideoModel {
    pub open spec fn start(settings: Settings) -> VideoModel {
        VideoModel {
            coding: coder::Coding::start(settings),
            epoch_start: 0,
            epoch_id: 0,
            pending: Seq::empty(),
            epochs: Seq::empty(),
            output: Seq::empty(),
            finished: false,
        }
    }

    pub open spec fn span(self, settings: Settings) -> Result<(u64, u32), MuxError> {
        assemble::epoch_span(self.epoch_start, self.coding.frame_index, settings.frame_us)
    }

    /// The epoch of the frames that wait.
    pub open spec fn epoch(self, settings: Settings) -> Result<syntax::EpochRange, MuxError> {
        match self.span(settings) {
            Err(e) => Err(e),
            Ok((pts, duration)) => match epoch::epoch_bytes(
                self.epoch_id,
                pts,
                duration,
                self.pending,
                Seq::empty(),
            ) {
                Err(e) => Err(e),
                Ok(bytes) => Ok(syntax::EpochRange { id: self.epoch_id, pts, duration, bytes }),
            },
        }
    }

    /// Why the epoch cannot be closed, if it cannot.
    pub open spec fn close_error(self, settings: Settings) -> Option<MuxError> {
        if self.pending.len() == 0 {
            None
        } else {
            match self.epoch(settings) {
                Err(e) => Some(e),
                Ok(_) => if self.epoch_id == u32::MAX {
                    Some(MuxError::EpochIdentifier)
                } else {
                    None
                },
            }
        }
    }

    /// The next frame starts an epoch: it may be predicted from nothing.
    pub open spec fn opened(self) -> VideoModel {
        VideoModel {
            epoch_start: self.coding.frame_index,
            coding: coder::Coding { references: Seq::empty(), ..self.coding },
            ..self
        }
    }

    /// The state after the epoch was closed, or could not be.
    pub open spec fn closed(self, settings: Settings) -> VideoModel {
        if self.pending.len() == 0 {
            self.opened()
        } else if self.span(settings) is Err {
            self
        } else {
            let taken = VideoModel { pending: Seq::empty(), ..self };
            match self.epoch(settings) {
                Err(_) => taken,
                Ok(range) => {
                    let added = VideoModel { epochs: self.epochs.push(range), ..taken };
                    if self.epoch_id == u32::MAX {
                        added
                    } else {
                        VideoModel { epoch_id: (self.epoch_id + 1) as u32, ..added }.opened()
                    }
                },
            }
        }
    }

    /// The epoch has as many frames as it may.
    pub open spec fn full(self, settings: Settings) -> bool {
        self.coding.frame_index - self.epoch_start >= settings.epoch_frames
    }

    /// The state in which the next frame is coded, or why it cannot be.
    pub open spec fn ready(self, settings: Settings) -> Result<VideoModel, MuxError> {
        if self.finished {
            Err(MuxError::Finished)
        } else if !self.full(settings) {
            Ok(self)
        } else {
            match self.close_error(settings) {
                Some(e) => Err(e),
                None => Ok(self.closed(settings)),
            }
        }
    }

    /// Why a frame is refused, if it is.
    pub open spec fn push_error(self, settings: Settings) -> Option<MuxError> {
        match self.ready(settings) {
            Err(e) => Some(e),
            Ok(m) => m.coding.error(settings),
        }
    }

    /// The state after a frame, coded or refused.
    pub open spec fn pushed(self, settings: Settings) -> VideoModel {
        match self.ready(settings) {
            Err(_) => if self.finished {
                self
            } else {
                self.closed(settings)
            },
            Ok(m) => {
                let coded = VideoModel { coding: m.coding.next(settings), ..m };
                if m.coding.error(settings) is Some {
                    coded
                } else {
                    VideoModel {
                        pending: m.pending.push(
                            epoch::video_packet(
                                (m.coding.frame_index * settings.frame_us) as u64,
                                settings.frame_us as u32,
                                m.coding.payload(settings),
                            ),
                        ),
                        ..coded
                    }
                }
            },
        }
    }

    /// What the file is, or why it cannot be finished.
    pub open spec fn file(self, settings: Settings) -> Result<Seq<u8>, MuxError> {
        if self.coding.frame_index == 0 {
            Err(MuxError::Empty)
        } else {
            match self.close_error(settings) {
                Some(e) => Err(e),
                None => assemble::output_of(settings.stream_list(), self.closed(settings).epochs),
            }
        }
    }

    /// The state after the file was finished, or could not be.
    pub open spec fn ended(self, settings: Settings) -> VideoModel {
        if self.finished || self.coding.frame_index == 0 {
            self
        } else if self.close_error(settings) is Some {
            self.closed(settings)
        } else {
            let taken = VideoModel { epochs: Seq::empty(), ..self.closed(settings) };
            match self.file(settings) {
                Err(_) => taken,
                Ok(file) => VideoModel { output: file, finished: true, ..taken },
            }
        }
    }
}

impl VideoEncoderState {
    pub open spec fn wf(&self) -> bool {
        &&& self.video.wf()
        &&& self.video.settings.audio is None
        &&& self.epoch_start_frame <= self.video.frame_index
    }

    pub open spec fn model(&self) -> VideoModel {
        VideoModel {
            coding: self.video.model(),
            epoch_start: self.epoch_start_frame,
            epoch_id: self.epoch_id,
            pending: epoch::models(self.pending@),
            epochs: wire::ranges(self.epochs@),
            output: self.output@,
            finished: self.finished,
        }
    }

    /// Creates an encoder of frames of one size and rate.
    pub fn new(
        width: u32,
        height: u32,
        fps_flags: u32,
        qstep: u16,
        preset: EncoderPreset,
        epoch_frames: u64,
        meta0: u32,
    ) -> (r: Result<Self, MuxError>)
        ensures
            match crate::mux::video_error(width, height, fps_flags, qstep, epoch_frames, meta0) {
                Some(e) => r == Err::<Self, MuxError>(e),
                None => match r {
                    Err(e) => e == MuxError::AddressSpace && width * height + width * height / 2
                        > usize::MAX,
                    Ok(s) => {
                        &&& s.wf()
                        &&& s.model() == VideoModel::start(s.video.settings)
                        &&& s.video.settings.width == width
                        &&& s.video.settings.height == height
                        &&& s.video.settings.fps_flags == fps_flags
                        &&& s.video.settings.meta0 == meta0
                        &&& s.video.settings.frame_us == crate::mux::frame_duration(fps_flags)
                        &&& s.video.settings.epoch_frames == epoch_frames
                        &&& s.video.settings.options == crate::mux::preset_options(qstep, preset)
                    },
                },
            },
    {
        let settings: Settings = match Settings::new(
            width,
            height,
            fps_flags,
            qstep,
            preset,
            epoch_frames,
            meta0,
            0,
            0,
            0,
        ) {
            Ok(settings) => settings,
            Err(e) => {
                return Err(e);
            },
        };
        let r: VideoEncoderState = VideoEncoderState {
            video: FrameCoder::new(settings),
            epoch_start_frame: 0,
            epoch_id: 0,
            pending: Vec::new(),
            epochs: Vec::new(),
            output: Vec::new(),
            finished: false,
        };
        assert(r.model() =~= VideoModel::start(settings));
        Ok(r)
    }

    /// Closes the epoch: its frames become one range of packets.
    fn finish_epoch(&mut self) -> (r: Result<(), MuxError>)
        requires
            old(self).wf(),
        ensures
            final(self).wf(),
            final(self).video.settings == old(self).video.settings,
            final(self).model() == old(self).model().closed(old(self).video.settings),
            match r {
                Ok(()) => old(self).model().close_error(old(self).video.settings) is None,
                Err(e) => old(self).model().close_error(old(self).video.settings) == Some(e),
            },
    {
        let ghost before = self.model();
        let ghost settings = self.video.settings;
        if self.pending.len() == 0 {
            self.epoch_start_frame = self.video.frame_index;
            self.video.restart();
            assert(self.model() =~= before.closed(settings));
            return Ok(());
        }
        assert(before.pending.len() > 0);
        let (pts, duration): (u64, u32) = match assemble::span(
            self.epoch_start_frame,
            self.video.frame_index,
            self.video.settings.frame_us,
        ) {
            Ok(span) => span,
            Err(e) => {
                return Err(e);
            },
        };
        let mut frames: Vec<EncodedFrame> = Vec::new();
        std::mem::swap(&mut frames, &mut self.pending);
        let packets: Vec<Packet> = video_packets(frames);
        let none: Vec<Packet> = Vec::new();
        assert(epoch::contents(none@) =~= Seq::empty());
        let bytes: Vec<u8> = match write_epoch(self.epoch_id, pts, duration, packets, none) {
            Ok(bytes) => bytes,
            Err(e) => {
                assert(self.model() =~= before.closed(settings));
                return Err(e);
            },
        };
        let ghost added = self.epochs@.push((self.epoch_id, pts, duration, bytes));
        self.epochs.push((self.epoch_id, pts, duration, bytes));
        proof {
            assert(wire::ranges(added) =~= before.epochs.push(
                before.epoch(settings)->Ok_0,
            ));
        }
        if self.epoch_id == u32::MAX {
            assert(self.model() =~= before.closed(settings));
            return Err(MuxError::EpochIdentifier);
        }
        self.epoch_id = self.epoch_id + 1;
        self.epoch_start_frame = self.video.frame_index;
        self.video.restart();
        assert(self.model() =~= before.closed(settings));
        Ok(())
    }

    /// Codes the frame in the input buffer.
    pub fn push_frame(&mut self) -> (r: Result<(), MuxError>)
        requires
            old(self).wf(),
        ensures
            final(self).wf(),
            final(self).video.settings == old(self).video.settings,
            final(self).model() == old(self).model().pushed(old(self).video.settings),
            match r {
                Ok(()) => old(self).model().push_error(old(self).video.settings) is None,
                Err(e) => old(self).model().push_error(old(self).video.settings) == Some(e),
            },
    {
        let ghost before = self.model();
        let ghost settings = self.video.settings;
        if self.finished {
            return Err(MuxError::Finished);
        }
        if self.video.frame_index - self.epoch_start_frame >= self.video.settings.epoch_frames {
            match self.finish_epoch() {
                Ok(()) => {},
                Err(e) => {
                    return Err(e);
                },
            }
        }
        let ghost ready = self.model();
        let frame: EncodedFrame = match self.video.code() {
            Ok(frame) => frame,
            Err(e) => {
                assert(self.model() =~= before.pushed(settings));
                return Err(e);
            },
        };
        let ghost model = frame.model();
        self.pending.push(frame);
        assert(epoch::models(self.pending@) =~= ready.pending.push(model));
        assert(self.model() =~= before.pushed(settings));
        Ok(())
    }

    /// Closes the last epoch and builds the file. A finished encoder stays as it is.
    pub fn finish(&mut self) -> (r: Result<(), MuxError>)
        requires
            old(self).wf(),
        ensures
            final(self).wf(),
            final(self).video.settings == old(self).video.settings,
            final(self).model() == old(self).model().ended(old(self).video.settings),
            match r {
                Ok(()) => old(self).finished || old(self).model().file(
                    old(self).video.settings,
                ) is Ok,
                Err(e) => !old(self).finished && old(self).model().file(old(self).video.settings)
                    == Err::<Seq<u8>, MuxError>(e),
            },
    {
        let ghost before = self.model();
        let ghost settings = self.video.settings;
        if self.finished {
            return Ok(());
        }
        if self.video.frame_index == 0 {
            return Err(MuxError::Empty);
        }
        match self.finish_epoch() {
            Ok(()) => {},
            Err(e) => {
                return Err(e);
            },
        }
        let streams: Vec<StreamDesc> = self.video.settings.streams();
        let mut epochs: Vec<(u32, u64, u32, Vec<u8>)> = Vec::new();
        std::mem::swap(&mut epochs, &mut self.epochs);
        assert(wire::ranges(self.epochs@) =~= Seq::empty());
        match assemble::build_output(streams, epochs) {
            Ok(file) => {
                self.output = file;
                self.finished = true;
                assert(self.model() =~= before.ended(settings));
                Ok(())
            },
            Err(e) => {
                assert(self.model() =~= before.ended(settings));
                Err(e)
            },
        }
    }
}

} // verus!
