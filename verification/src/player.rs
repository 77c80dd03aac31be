//! A decoder for callers that hand over bytes and look at planes and samples.
use crate::audio;
use crate::media::decode;
use crate::media::decode::{oldest_frames, remember};
use crate::media::encode;
use crate::reference;
use crate::reference::frame::Frame420;
use crate::video::v1::history;
use crate::video::v1::syntax::Picture;
use std::collections::VecDeque;
use vstd::prelude::*;

verus! {

/// The decoder: its input, the frames it may predict from, and what it made last.
#[derive(Debug)]
pub struct Player {
    pub input: Vec<u8>,
    /// The last frames, the oldest first.
    pub frames: VecDeque<(u64, Frame420)>,
    pub video_width: u32,
    pub video_height: u32,
    pub audio: Vec<i16>,
    pub audio_rate: u32,
    pub audio_channels: u32,
    /// What the last call returned.
    pub last_error: i32,
}

/// The state of a player.
#[verifier::ext_equal]
pub struct PlayerModel {
    pub input: Seq<u8>,
    pub frames: Seq<(u64, Picture)>,
    pub video_width: u32,
    pub video_height: u32,
    pub audio: Seq<i16>,
    pub audio_rate: u32,
    pub audio_channels: u32,
    pub last_error: int,
}

/// Bytes cut or filled with zeros to a length.
pub open spec fn resized(s: Seq<u8>, n: int) -> Seq<u8> {
    Seq::new(
        n as nat,
        |i: int|
            if i < s.len() {
                s[i]
            } else {
                0
            },
    )
}

impl PlayerModel {
    pub open spec fn start() -> PlayerModel {
        PlayerModel {
            input: Seq::empty(),
            frames: Seq::empty(),
            video_width: 0,
            video_height: 0,
            audio: Seq::empty(),
            audio_rate: 0,
            audio_channels: 0,
            last_error: 0,
        }
    }

    /// After the first bytes of the input were decoded as a video packet: too little input and a
    /// packet that is refused change nothing but the error.
    pub open spec fn shown(self, len: u32) -> PlayerModel {
        if len > self.input.len() {
            PlayerModel { last_error: -1, ..self }
        } else {
            match reference::video_decoder::decoded_frame(self.input.take(len as int), self.frames) {
                Err(_) => PlayerModel { last_error: -2, ..self },
                Ok((id, picture, ids)) => PlayerModel {
                    frames: history::extended(self.frames, id, picture),
                    video_width: picture.width as u32,
                    video_height: picture.height as u32,
                    last_error: 0,
                    ..self
                },
            }
        }
    }

    /// After the first bytes of the input were decoded as an audio packet.
    pub open spec fn heard(self, len: u32) -> PlayerModel {
        if len > self.input.len() {
            PlayerModel { last_error: -1, ..self }
        } else {
            match audio::v1::syntax::decoded_packet(
                self.input.take(len as int),
                reference::audio::bounds(),
            ) {
                Err(_) => PlayerModel { last_error: -3, ..self },
                Ok((rate, channels, samples)) => PlayerModel {
                    audio: samples,
                    audio_rate: rate,
                    audio_channels: channels as u32,
                    last_error: 0,
                    ..self
                },
            }
        }
    }
}

impl Player {
    pub open spec fn wf(&self) -> bool {
        self.frames@.len() <= 4 && decode::reference_ready(self.frames@)
    }

    pub open spec fn model(&self) -> PlayerModel {
        PlayerModel {
            input: self.input@,
            frames: encode::remembered(self.frames@),
            video_width: self.video_width,
            video_height: self.video_height,
            audio: self.audio@,
            audio_rate: self.audio_rate,
            audio_channels: self.audio_channels,
            last_error: self.last_error as int,
        }
    }

    pub fn new() -> (r: Self)
        ensures
            r.wf(),
            r.model() == PlayerModel::start(),
    {
        let r: Player = Player {
            input: Vec::new(),
            frames: VecDeque::new(),
            video_width: 0,
            video_height: 0,
            audio: Vec::new(),
            audio_rate: 0,
            audio_channels: 0,
            last_error: 0,
        };
        assert(r.model() =~= PlayerModel::start());
        r
    }

    /// Clears video reference history, decoded audio, and the last error code.
    pub fn reset(&mut self)
        ensures
            final(self).wf(),
            final(self).model() == (PlayerModel {
                frames: Seq::empty(),
                audio: Seq::empty(),
                last_error: 0,
                ..old(self).model()
            }),
    {
        let ghost before = self.model();
        self.frames = VecDeque::new();
        self.audio = Vec::new();
        self.last_error = 0;
        assert(self.model() =~= (PlayerModel {
            frames: Seq::empty(),
            audio: Seq::empty(),
            last_error: 0,
            ..before
        }));
    }

    /// Cuts or fills the input to a length.
    pub fn resize_input(&mut self, len: u32)
        requires
            old(self).wf(),
        ensures
            final(self).wf(),
            final(self).model() == (PlayerModel {
                input: resized(old(self).model().input, len as int),
                ..old(self).model()
            }),
    {
        let ghost before = self.model();
        self.input.resize(len as usize, 0);
        assert(self.model() =~= (PlayerModel { input: resized(before.input, len as int), ..before }));
    }

    /// Decodes the first `len` bytes of the input as one video packet.
    pub fn decode_video_input(&mut self, len: u32) -> (r: i32)
        requires
            old(self).wf(),
        ensures
            final(self).wf(),
            final(self).model() == old(self).model().shown(len),
            r == final(self).last_error,
    {
        let ghost before = self.model();
        if len as usize > self.input.len() {
            self.last_error = -1;
            return -1;
        }
        let refs: Vec<(u64, &Frame420)> = oldest_frames(&self.frames);
        let data: &[u8] = &self.input.as_slice()[0..len as usize];
        assert(data@ =~= before.input.take(len as int));
        let decoded: Result<(u64, Frame420, Vec<u64>), reference::video_decoder::Error> =
            reference::video_decoder::decode(data, refs.as_slice());
        match decoded {
            Ok((id, frame, _)) => {
                self.video_width = frame.width;
                self.video_height = frame.height;
                remember(&mut self.frames, id, frame);
                self.last_error = 0;
                assert(self.model() =~= before.shown(len));
                0
            },
            Err(_) => {
                self.last_error = -2;
                assert(self.model() =~= before.shown(len));
                -2
            },
        }
    }

    /// Decodes the first `len` bytes of the input as one audio packet.
    pub fn decode_audio_input(&mut self, len: u32) -> (r: i32)
        requires
            old(self).wf(),
        ensures
            final(self).wf(),
            final(self).model() == old(self).model().heard(len),
            r == final(self).last_error,
    {
        let ghost before = self.model();
        if len as usize > self.input.len() {
            self.last_error = -1;
            return -1;
        }
        let data: &[u8] = &self.input.as_slice()[0..len as usize];
        assert(data@ =~= before.input.take(len as int));
        match reference::audio::decode(data) {
            Ok((rate, channels, samples)) => {
                self.audio_rate = rate;
                self.audio_channels = channels as u32;
                self.audio = samples;
                self.last_error = 0;
                assert(self.model() =~= before.heard(len));
                0
            },
            Err(_) => {
                self.last_error = -3;
                assert(self.model() =~= before.heard(len));
                -3
            },
        }
    }

    /// A plane of the last frame: 0 is luma, 1 and any other number the two of chroma.
    pub fn last_plane(&self, which: u8) -> (r: Option<&[u8]>)
        ensures
            match r {
                None => self.model().frames.len() == 0,
                Some(plane) => self.model().frames.len() > 0 && plane@
                    == self.model().frames.last().1.plane(which as int),
            },
    {
        let n: usize = self.frames.len();
        if n == 0 {
            return None;
        }
        let entry: &(u64, Frame420) = &self.frames[n - 1];
        assert(self.model().frames.last() == (entry.0, entry.1.picture()));
        Some(reference::frame::plane(&entry.1, which as usize))
    }
}

} // verus!
