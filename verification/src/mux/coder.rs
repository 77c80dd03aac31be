//! Coding of the frames that an encoder is handed, one after the other.
use crate::mux::epoch::EncodedFrame;
use crate::mux::{MuxError, Settings};
use crate::video::v1::history;
use crate::video::v1::packets;
use crate::video::v1::prediction;
use crate::video::v1::syntax;
use crate::video::v1::{Frame420, SharedEncodedFrame, VideoEncoder, VideoError};
use vstd::prelude::*;

verus! {

/// The next frame to be coded, and what it may be predicted from.
#[derive(Debug)]
pub struct FrameCoder {
    pub settings: Settings,
    pub encoder: VideoEncoder,
    /// Number of frames coded so far.
    pub frame_index: u64,
    /// The next frame, tightly packed.
    pub input: Vec<u8>,
}

/// What tightly packed samples show.
pub open spec fn shown(width: int, height: int, data: Seq<u8>) -> syntax::Picture {
    let luma = width * height;
    let chroma = width * height / 4;
    syntax::Picture {
        width,
        height,
        y: data.subrange(0, luma),
        u: data.subrange(luma, luma + chroma),
        v: data.subrange(luma + chroma, luma + 2 * chroma),
    }
}

/// The state of a coder.
#[verifier::ext_equal]
pub struct Coding {
    pub references: Seq<(u64, syntax::Picture)>,
    pub frame_index: u64,
    pub input: Seq<u8>,
}

impl Coding {
    pub open spec fn start(settings: Settings) -> Coding {
        Coding {
            references: Seq::empty(),
            frame_index: 0,
            input: Seq::new(settings.frame_bytes as nat, |i: int| 0u8),
        }
    }

    pub open spec fn picture(self, settings: Settings) -> syntax::Picture {
        shown(settings.width as int, settings.height as int, self.input)
    }

    /// The references that the next frame is coded with.
    pub open spec fn considered(self, settings: Settings) -> Seq<(u64, syntax::Picture)> {
        packets::considered(self.references.reverse(), settings.options)
    }

    /// The picture cannot be coded, and why.
    pub open spec fn refused(self, settings: Settings) -> Option<VideoError> {
        history::refused_next(
            self.frame_index,
            self.picture(settings),
            self.references,
            settings.options,
            67_108_864,
        )
    }

    /// The packet of the next frame.
    pub open spec fn payload(self, settings: Settings) -> Seq<u8> {
        packets::packet_bytes(
            self.frame_index,
            self.picture(settings),
            self.considered(settings),
            settings.options,
        )
    }

    /// Why the next frame cannot be coded, if it cannot.
    pub open spec fn error(self, settings: Settings) -> Option<MuxError> {
        if !syntax::dimensions_ok(settings.width as int, settings.height as int) {
            Some(MuxError::Video(VideoError::BadDimensions))
        } else {
            match self.refused(settings) {
                Some(e) => Some(MuxError::Video(e)),
                None => if self.frame_index * settings.frame_us > u64::MAX {
                    Some(MuxError::FrameTimestamp)
                } else if self.frame_index == u64::MAX {
                    Some(MuxError::FrameIndex)
                } else {
                    None
                },
            }
        }
    }

    /// The state after the next frame. Dimensions that no frame can have clear the input; a
    /// picture that is coded is remembered, even where its timestamp overflows.
    pub open spec fn next(self, settings: Settings) -> Coding {
        if !syntax::dimensions_ok(settings.width as int, settings.height as int) {
            Coding { input: Seq::new(settings.frame_bytes as nat, |i: int| 0u8), ..self }
        } else if self.refused(settings) is Some {
            self
        } else {
            Coding {
                references: history::extended(
                    self.references,
                    self.frame_index,
                    packets::reconstruction(
                        self.picture(settings),
                        self.considered(settings),
                        settings.options,
                    ),
                ),
                frame_index: if self.error(settings) is None {
                    (self.frame_index + 1) as u64
                } else {
                    self.frame_index
                },
                input: self.input,
            }
        }
    }
}

impl FrameCoder {
    pub open spec fn wf(&self) -> bool {
        &&& self.settings.wf()
        &&& self.encoder.wf()
        &&& self.encoder.options == self.settings.options
        &&& self.encoder.max_frame_pixels == 67_108_864
        &&& self.input@.len() == self.settings.frame_bytes
    }

    pub open spec fn model(&self) -> Coding {
        Coding {
            references: self.encoder.references(),
            frame_index: self.frame_index,
            input: self.input@,
        }
    }

    pub fn new(settings: Settings) -> (r: Self)
        requires
            settings.wf(),
        ensures
            r.wf(),
            r.settings == settings,
            r.model() == Coding::start(settings),
    {
        let r: FrameCoder = FrameCoder {
            settings,
            encoder: VideoEncoder::new(settings.options),
            frame_index: 0,
            input: vec![0u8; settings.frame_bytes],
        };
        assert(r.model() =~= Coding::start(settings));
        r
    }

    /// Forgets every reference.
    pub fn restart(&mut self)
        requires
            old(self).wf(),
        ensures
            final(self).wf(),
            final(self).settings == old(self).settings,
            final(self).model() == (Coding { references: Seq::empty(), ..old(self).model() }),
    {
        self.encoder = VideoEncoder::new(self.settings.options);
    }

    /// Codes the frame that was handed in.
    pub fn code(&mut self) -> (r: Result<EncodedFrame, MuxError>)
        requires
            old(self).wf(),
        ensures
            final(self).wf(),
            final(self).settings == old(self).settings,
            final(self).model() == old(self).model().next(old(self).settings),
            match r {
                Ok(frame) => {
                    &&& old(self).model().error(old(self).settings) is None
                    &&& frame.frame_id == old(self).frame_index
                    &&& frame.pts == old(self).frame_index * old(self).settings.frame_us
                    &&& frame.duration == old(self).settings.frame_us
                    &&& frame.payload@ == old(self).model().payload(old(self).settings)
                },
                Err(e) => old(self).model().error(old(self).settings) == Some(e),
            },
    {
        let ghost before = *self;
        let mut input: Vec<u8> = Vec::new();
        std::mem::swap(&mut input, &mut self.input);
        let ghost data = input@;
        proof {
            if syntax::dimensions_ok(self.settings.width as int, self.settings.height as int) {
                let (w, h) = (self.settings.width as int, self.settings.height as int);
                prediction::lemma_plane_size(w, h);
                assert(w * h == 4 * ((w / 2) * (h / 2))) by (nonlinear_arith)
                    requires
                        w == 2 * (w / 2),
                        h == 2 * (h / 2),
                ;
            }
        }
        let frame: Frame420 = match Frame420::from_tightly_packed(
            self.settings.width,
            self.settings.height,
            input,
        ) {
            Ok(frame) => frame,
            Err(e) => {
                self.input = vec![0u8; self.settings.frame_bytes];
                assert(self.model() =~= before.model().next(before.settings));
                return Err(MuxError::Video(e));
            },
        };
        proof {
            let (y, u, v) = (frame.y_samples(), frame.u_samples(), frame.v_samples());
            let want = shown(self.settings.width as int, self.settings.height as int, data);
            assert(want.y =~= y);
            assert(want.u =~= u);
            assert(want.v =~= v);
            assert(frame.picture() == before.model().picture(before.settings));
        }
        let frame_id: u64 = self.frame_index;
        let encoded: Result<SharedEncodedFrame, VideoError> = self.encoder.encode_shared(
            frame_id,
            &frame,
        );
        self.input = frame.into_tightly_packed();
        assert(self.input@ =~= data);
        let encoded: SharedEncodedFrame = match encoded {
            Ok(encoded) => encoded,
            Err(e) => {
                assert(self.model() =~= before.model().next(before.settings));
                return Err(MuxError::Video(e));
            },
        };
        let pts: u64 = match frame_id.checked_mul(self.settings.frame_us) {
            Some(pts) => pts,
            None => {
                assert(self.model() =~= before.model().next(before.settings));
                return Err(MuxError::FrameTimestamp);
            },
        };
        if frame_id == u64::MAX {
            assert(self.model() =~= before.model().next(before.settings));
            return Err(MuxError::FrameIndex);
        }
        self.frame_index = frame_id + 1;
        assert(self.model() =~= before.model().next(before.settings));
        Ok(
            EncodedFrame {
                frame_id,
                pts,
                duration: self.settings.frame_us as u32,
                payload: encoded.packet,
            },
        )
    }
}

} // verus!
