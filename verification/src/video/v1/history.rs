//! Stateful video coding: the reference pictures that are kept from frame to frame.
use crate::config;
use crate::config::{kernel_set, BackendUnavailable, Config};
use crate::kernels::KernelSet;
use crate::limits::Limits;
use crate::video::v1::decoder;
use crate::video::v1::decoder::{decode_with_limits, PlaneEntropyScratch};
use crate::video::v1::frame::Frame420;
use crate::video::v1::packets;
use crate::video::v1::packets::encode_with_pool;
use crate::video::v1::prediction;
use crate::video::v1::syntax;
use crate::video::v1::{EncodeOptions, EncodedFrame, VideoError};
use std::collections::VecDeque;
use std::sync::Arc;
use vstd::prelude::*;

verus! {

/// What references show.
pub open spec fn shown(frames: Seq<(u64, Arc<Frame420>)>) -> Seq<(u64, syntax::Picture)> {
    Seq::new(frames.len(), |i: int| (frames[i].0, frames[i].1.picture()))
}

/// The history with one more picture; of four, the oldest goes.
pub open spec fn extended(history: Seq<(u64, syntax::Picture)>, id: u64, picture: syntax::Picture) -> Seq<
    (u64, syntax::Picture),
> {
    if history.len() < 4 {
        history.push((id, picture))
    } else {
        history.drop_first().push((id, picture))
    }
}

/// Some picture of the history has this id.
pub open spec fn remembers(history: Seq<(u64, syntax::Picture)>, id: u64) -> bool {
    exists|i: int| 0 <= i < history.len() && #[trigger] history[i].0 == id
}

/// No two pictures share an id.
pub open spec fn distinct(history: Seq<(u64, syntax::Picture)>) -> bool {
    forall|i: int, j: int|
        0 <= i < j < history.len() ==> (#[trigger] history[i]).0 != (#[trigger] history[j]).0
}

/// `std::sync::Arc::try_unwrap`: the value, if nothing else holds it; otherwise the pointer, as it
/// was. Which of the two depends on who else holds the pointer, and is left open.
#[verifier::external_body]
fn unwrap_unshared(frame: Arc<Frame420>) -> (r: Result<Frame420, Arc<Frame420>>)
    ensures
        match r {
            Ok(value) => value == *frame,
            Err(pointer) => pointer == frame,
        },
{
    Arc::try_unwrap(frame)
}

/// The pool after a frame was given up: it may have joined, if there was room.
pub open spec fn pool_grew(old_pool: Seq<Frame420>, new_pool: Seq<Frame420>, frame: Frame420) -> bool {
    new_pool == old_pool || (old_pool.len() < 4 && new_pool == old_pool.push(frame))
}

/// The pool after a frame of this size was taken out of it for reuse and its picture remembered.
/// While there are fewer than four pictures none is given up, and nothing joins.
pub open spec fn pool_moved(history: History, pool: Seq<Frame420>, w: u32, h: u32) -> bool {
    let taken = decoder::pool_after(history.pool@, w, h);
    if history.frames@.len() < 4 {
        pool == taken
    } else {
        pool_grew(taken, pool, *history.frames@[0].1)
    }
}

/// The pool after an attempt to take a frame out of its pointer: the frame joins if it came out and
/// there is room.
pub open spec fn pool_with(pool: Seq<Frame420>, released: Result<Frame420, Arc<Frame420>>) -> Seq<
    Frame420,
> {
    match released {
        Ok(frame) => if pool.len() < 4 {
            pool.push(frame)
        } else {
            pool
        },
        Err(_) => pool,
    }
}

/// Up to four reference pictures, and frames to reuse.
#[derive(Debug)]
pub struct History {
    pub frames: VecDeque<(u64, Arc<Frame420>)>,
    pub pool: Vec<Frame420>,
}

impl History {
    /// At most four pictures that can be predicted from, and at most four frames to reuse.
    pub open spec fn wf(&self) -> bool {
        &&& self.frames@.len() <= 4
        &&& self.pool@.len() <= 4
        &&& forall|i: int|
            0 <= i < self.frames@.len() ==> (#[trigger] self.frames@[i]).1.picture().valid()
    }

    pub open spec fn model(&self) -> Seq<(u64, syntax::Picture)> {
        shown(self.frames@)
    }

    pub fn new() -> (r: Self)
        ensures
            r.wf(),
            r.frames@ == Seq::<(u64, Arc<Frame420>)>::empty(),
            r.pool@ == Seq::<Frame420>::empty(),
    {
        History { frames: VecDeque::with_capacity(4), pool: Vec::with_capacity(4) }
    }

    /// Keeps the frame for reuse if nothing else holds it and there is room. Whether anything else
    /// does is known to `std::sync::Arc` alone; [`Self::keep`] says what follows either way.
    fn recycle(&mut self, frame: Arc<Frame420>)
        requires
            old(self).wf(),
        ensures
            final(self).wf(),
            final(self).frames@ == old(self).frames@,
            pool_grew(old(self).pool@, final(self).pool@, *frame),
    {
        if self.pool.len() >= 4 {
            return ;
        }
        self.keep(unwrap_unshared(frame));
    }

    /// Keeps a frame for reuse that came out of its pointer, if there is room.
    pub fn keep(&mut self, released: Result<Frame420, Arc<Frame420>>)
        requires
            old(self).wf(),
        ensures
            final(self).wf(),
            final(self).frames@ == old(self).frames@,
            final(self).pool@ == pool_with(old(self).pool@, released),
    {
        if self.pool.len() >= 4 {
            return ;
        }
        match released {
            Ok(frame) => {
                self.pool.push(frame);
            },
            Err(_) => {},
        }
    }

    /// Forgets all pictures.
    pub fn reset(&mut self)
        requires
            old(self).wf(),
        ensures
            final(self).wf(),
            final(self).frames@ == Seq::<(u64, Arc<Frame420>)>::empty(),
            old(self).pool@.len() <= final(self).pool@.len() <= old(self).pool@.len() + old(
                self,
            ).frames@.len(),
            final(self).pool@.take(old(self).pool@.len() as int) == old(self).pool@,
    {
        let ghost kept = self.pool@;
        assert(self.pool@.take(kept.len() as int) =~= kept);
        while self.frames.len() > 0
            invariant
                self.wf(),
                kept == old(self).pool@,
                kept.len() <= self.pool@.len(),
                self.pool@.len() + self.frames@.len() <= kept.len() + old(self).frames@.len(),
                self.pool@.take(kept.len() as int) == kept,
            decreases self.frames@.len(),
        {
            let ghost before = self.pool@;
            if let Some((_, frame)) = self.frames.pop_front() {
                assert(self.wf());
                self.recycle(frame);
                assert(self.pool@.take(kept.len() as int) =~= before.take(kept.len() as int));
            }
        }
        assert(self.frames@ =~= Seq::<(u64, Arc<Frame420>)>::empty());
    }

    /// Adds a picture; of more than four, the oldest goes.
    fn remember(&mut self, id: u64, frame: Arc<Frame420>)
        requires
            old(self).wf(),
            frame.picture().valid(),
        ensures
            final(self).wf(),
            final(self).model() == extended(old(self).model(), id, frame.picture()),
            old(self).frames@.len() < 4 ==> final(self).pool@ == old(self).pool@,
            old(self).frames@.len() == 4 ==> pool_grew(
                old(self).pool@,
                final(self).pool@,
                *old(self).frames@[0].1,
            ),
    {
        if self.frames.len() >= 4 {
            if let Some((_, frame)) = self.frames.pop_front() {
                self.recycle(frame);
            }
        }
        self.frames.push_back((id, frame));
        assert(self.model() =~= extended(old(self).model(), id, frame.picture()));
    }

    fn holds(&self, id: u64) -> (r: bool)
        ensures
            r == remembers(self.model(), id),
    {
        let mut i: usize = 0;
        while i < self.frames.len()
            invariant
                i <= self.frames@.len(),
                forall|j: int| 0 <= j < i ==> (#[trigger] self.model()[j]).0 != id,
            decreases self.frames@.len() - i,
        {
            let entry: &(u64, Arc<Frame420>) = &self.frames[i];
            assert(self.model()[i as int].0 == entry.0);
            if entry.0 == id {
                return true;
            }
            i = i + 1;
        }
        false
    }
}

/// The pictures, the oldest first.
pub(crate) fn oldest_first(frames: &VecDeque<(u64, Arc<Frame420>)>) -> (r: Vec<(u64, &Frame420)>)
    ensures
        decoder::numbered(r@) == shown(frames@),
        forall|i: int| 0 <= i < r@.len() ==> *(#[trigger] r@[i]).1 == *frames@[i].1,
        r@.len() == frames@.len(),
{
    let mut r: Vec<(u64, &Frame420)> = Vec::new();
    let mut i: usize = 0;
    while i < frames.len()
        invariant
            i <= frames@.len(),
            r@.len() == i,
            forall|j: int|
                0 <= j < i ==> (#[trigger] r@[j]).0 == frames@[j].0 && *r@[j].1
                    == *frames@[j].1,
        decreases frames@.len() - i,
    {
        let entry: &(u64, Arc<Frame420>) = &frames[i];
        r.push((entry.0, &*entry.1));
        i = i + 1;
    }
    assert(decoder::numbered(r@) =~= shown(frames@));
    r
}

/// The pictures, the newest first.
fn newest_first(frames: &VecDeque<(u64, Arc<Frame420>)>) -> (r: Vec<(u64, &Frame420)>)
    ensures
        decoder::numbered(r@) == shown(frames@).reverse(),
{
    let mut r: Vec<(u64, &Frame420)> = Vec::new();
    let mut i: usize = frames.len();
    while i > 0
        invariant
            i <= frames@.len(),
            r@.len() == frames@.len() - i,
            forall|j: int|
                0 <= j < r@.len() ==> (#[trigger] r@[j]).0 == frames@[frames@.len() - 1
                    - j].0 && *r@[j].1 == *frames@[frames@.len() - 1 - j].1,
        decreases i,
    {
        i = i - 1;
        let entry: &(u64, Arc<Frame420>) = &frames[i];
        r.push((entry.0, &*entry.1));
    }
    assert(decoder::numbered(r@) =~= shown(frames@).reverse());
    r
}

/// Stateful decoder that keeps up to four reference pictures.
#[derive(Debug)]
pub struct VideoDecoder {
    pub history: History,
    pub kernels: KernelSet,
    pub max_frame_pixels: u64,
    pub max_entropy_bytes: usize,
    pub expected_dimensions: Option<(u32, u32)>,
    pub entropy: PlaneEntropyScratch,
}

impl Default for VideoDecoder {
    fn default() -> (r: Self)
        ensures
            r.wf(),
            r.references() == Seq::<(u64, syntax::Picture)>::empty(),
            r.bounds() == decoder::bounds(67_108_864, 8_388_608, None),
    {
        VideoDecoder::new()
    }
}

impl VideoDecoder {
    pub open spec fn wf(&self) -> bool {
        self.history.wf()
    }

    /// The pictures that a packet may predict from, the oldest first.
    pub open spec fn references(&self) -> Seq<(u64, syntax::Picture)> {
        self.history.model()
    }

    pub open spec fn bounds(&self) -> syntax::Bounds {
        decoder::bounds(self.max_frame_pixels, self.max_entropy_bytes, self.expected_dimensions)
    }

    /// Creates an empty decoder state for one container epoch.
    pub fn new() -> (r: Self)
        ensures
            r.wf(),
            r.references() == Seq::<(u64, syntax::Picture)>::empty(),
            r.history.pool@ == Seq::<Frame420>::empty(),
            r.bounds() == decoder::bounds(67_108_864, 8_388_608, None),
    {
        let limits: Limits = Limits::default();
        let history: History = History::new();
        assert(history.model() =~= Seq::<(u64, syntax::Picture)>::empty());
        VideoDecoder {
            history,
            kernels: KernelSet::auto(),
            max_frame_pixels: limits.max_frame_pixels,
            max_entropy_bytes: limits.max_entropy_bytes,
            expected_dimensions: None,
            entropy: PlaneEntropyScratch::new(),
        }
    }

    /// Creates a decoder with an explicit configuration.
    pub fn with_config(config: Config) -> (r: Result<Self, BackendUnavailable>)
        ensures
            match r {
                Ok(decoder) => {
                    &&& config::available(config.cpu)
                    &&& decoder.wf()
                    &&& decoder.references() == Seq::<(u64, syntax::Picture)>::empty()
                    &&& decoder.history.pool@ == Seq::<Frame420>::empty()
                    &&& decoder.bounds() == decoder::bounds(
                        config.limits.max_frame_pixels,
                        config.limits.max_entropy_bytes,
                        None,
                    )
                },
                Err(e) => !config::available(config.cpu) && e == BackendUnavailable(config.cpu),
            },
    {
        let kernels: KernelSet = match kernel_set(config.cpu) {
            Ok(kernels) => kernels,
            Err(e) => {
                return Err(e);
            },
        };
        let history: History = History::new();
        assert(history.model() =~= Seq::<(u64, syntax::Picture)>::empty());
        Ok(
            VideoDecoder {
                history,
                kernels,
                max_frame_pixels: config.limits.max_frame_pixels,
                max_entropy_bytes: config.limits.max_entropy_bytes,
                expected_dimensions: None,
                entropy: PlaneEntropyScratch::new(),
            },
        )
    }

    /// Creates a decoder for a stream that declares its picture size: no other size is taken.
    pub fn for_stream(config: Config, width: u32, height: u32) -> (r: Result<
        Self,
        BackendUnavailable,
    >)
        ensures
            match r {
                Ok(decoder) => {
                    &&& config::available(config.cpu)
                    &&& decoder.wf()
                    &&& decoder.references() == Seq::<(u64, syntax::Picture)>::empty()
                    &&& decoder.history.pool@ == Seq::<Frame420>::empty()
                    &&& decoder.expected_dimensions == Some((width, height))
                    &&& decoder.max_entropy_bytes == config.limits.max_entropy_bytes
                    &&& decoder.max_frame_pixels == if width * height
                        < config.limits.max_frame_pixels {
                        width * height
                    } else {
                        config.limits.max_frame_pixels as int
                    }
                },
                Err(e) => !config::available(config.cpu) && e == BackendUnavailable(config.cpu),
            },
    {
        proof {
            assert(width * height <= 0xffff_ffff * 0xffff_ffff) by (nonlinear_arith)
                requires
                    0 <= width <= 0xffff_ffff,
                    0 <= height <= 0xffff_ffff,
            ;
        }
        let pixels: u64 = width as u64 * height as u64;
        let mut config: Config = config;
        if pixels < config.limits.max_frame_pixels {
            config.limits.max_frame_pixels = pixels;
        }
        match VideoDecoder::with_config(config) {
            Ok(mut decoder) => {
                decoder.expected_dimensions = Some((width, height));
                Ok(decoder)
            },
            Err(e) => Err(e),
        }
    }

    /// Drops all reference pictures, as required at an epoch boundary or seek reset.
    pub fn reset_epoch(&mut self)
        requires
            old(self).wf(),
        ensures
            final(self).wf(),
            final(self).references() == Seq::<(u64, syntax::Picture)>::empty(),
            final(self).bounds() == old(self).bounds(),
            old(self).history.pool@.len() <= final(self).history.pool@.len() <= 4,
    {
        self.history.reset();
        assert(self.references() =~= Seq::<(u64, syntax::Picture)>::empty());
    }

    /// Number of reusable frame allocations currently retained by this decoder.
    pub fn pooled_frame_count(&self) -> (r: usize)
        ensures
            r == self.history.pool@.len(),
    {
        self.history.pool.len()
    }

    /// Number of retained reference pictures.
    pub fn reference_count(&self) -> (r: usize)
        ensures
            r == self.references().len(),
    {
        self.history.frames.len()
    }

    /// Decodes one frame and shares its allocation with the retained reference history.
    pub fn decode_shared(&mut self, packet: &[u8]) -> (r: Result<
        (u64, Arc<Frame420>, Vec<u64>),
        VideoError,
    >)
        requires
            old(self).wf(),
        ensures
            final(self).wf(),
            final(self).bounds() == old(self).bounds(),
            ({
                let result = decoded_next(packet@, old(self).references(), old(self).bounds());
                match r {
                    Ok((id, frame, ids)) => {
                        &&& result == Ok::<(u64, syntax::Picture, Seq<u64>), VideoError>(
                            (id, frame.picture(), ids@),
                        )
                        &&& frame.picture().valid()
                        &&& final(self).references() == extended(
                            old(self).references(),
                            id,
                            frame.picture(),
                        )
                        &&& pool_moved(
                            old(self).history,
                            final(self).history.pool@,
                            frame.width,
                            frame.height,
                        )
                    },
                    Err(e) => {
                        &&& result == Err::<(u64, syntax::Picture, Seq<u64>), VideoError>(e)
                        &&& final(self).references() == old(self).references()
                        &&& final(self).history.pool@.len() <= old(self).history.pool@.len()
                            <= final(self).history.pool@.len() + 1
                    },
                }
            }),
    {
        proof {
            decoder::lemma_pool_after(self.history.pool@);
        }
        let refs: Vec<(u64, &Frame420)> = oldest_first(&self.history.frames);
        let (id, frame, ids): (u64, Frame420, Vec<u64>) = match decode_with_limits(
            packet,
            refs.as_slice(),
            &mut self.entropy,
            self.kernels,
            &mut self.history.pool,
            self.max_frame_pixels,
            self.max_entropy_bytes,
            self.expected_dimensions,
        ) {
            Ok(decoded) => decoded,
            Err(e) => {
                return Err(e);
            },
        };
        if self.history.holds(id) {
            return Err(VideoError::BadHeader);
        }
        let frame: Arc<Frame420> = Arc::new(frame);
        self.history.remember(id, frame.clone());
        Ok((id, frame, ids))
    }

    /// Decodes one frame and hands out a copy.
    pub fn decode(&mut self, packet: &[u8]) -> (r: Result<(u64, Frame420, Vec<u64>), VideoError>)
        requires
            old(self).wf(),
        ensures
            final(self).wf(),
            final(self).bounds() == old(self).bounds(),
            ({
                let result = decoded_next(packet@, old(self).references(), old(self).bounds());
                match r {
                    Ok((id, frame, ids)) => {
                        &&& result == Ok::<(u64, syntax::Picture, Seq<u64>), VideoError>(
                            (id, frame.picture(), ids@),
                        )
                        &&& frame.picture().valid()
                        &&& final(self).references() == extended(
                            old(self).references(),
                            id,
                            frame.picture(),
                        )
                        &&& pool_moved(
                            old(self).history,
                            final(self).history.pool@,
                            frame.width,
                            frame.height,
                        )
                    },
                    Err(e) => {
                        &&& result == Err::<(u64, syntax::Picture, Seq<u64>), VideoError>(e)
                        &&& final(self).references() == old(self).references()
                        &&& final(self).history.pool@.len() <= old(self).history.pool@.len()
                            <= final(self).history.pool@.len() + 1
                    },
                }
            }),
    {
        match self.decode_shared(packet) {
            Ok((id, frame, ids)) => Ok((id, (*frame).clone(), ids)),
            Err(e) => Err(e),
        }
    }
}

/// What a decoder with this history makes of a packet: no id may come twice.
pub open spec fn decoded_next(
    packet: Seq<u8>,
    history: Seq<(u64, syntax::Picture)>,
    bounds: syntax::Bounds,
) -> Result<(u64, syntax::Picture, Seq<u64>), VideoError> {
    match syntax::decoded_frame(packet, history, bounds) {
        Err(e) => Err(e),
        Ok((id, picture, ids)) => if remembers(history, id) {
            Err(VideoError::BadHeader)
        } else {
            Ok((id, picture, ids))
        },
    }
}

/// Result of stateful encoding: the reconstruction is shared with the encoder's history.
#[derive(Debug)]
pub struct SharedEncodedFrame {
    /// Complete ALV1 frame packet payload.
    pub packet: Vec<u8>,
    /// Encoder reconstruction.
    pub reconstructed: Arc<Frame420>,
    /// Exact immutable frame ids needed to decode this packet.
    pub dependencies: Vec<u64>,
}

/// Stateful encoder that keeps up to four reconstructed reference pictures.
#[derive(Debug)]
pub struct VideoEncoder {
    pub history: History,
    pub options: EncodeOptions,
    pub kernels: KernelSet,
    pub max_frame_pixels: u64,
}

/// Why an encoder with this history refuses a frame, if it does.
pub open spec fn refused_next(
    frame_id: u64,
    picture: syntax::Picture,
    history: Seq<(u64, syntax::Picture)>,
    opt: EncodeOptions,
    max_pixels: int,
) -> Option<VideoError> {
    if picture.valid() && picture.width * picture.height > max_pixels {
        Some(VideoError::OutputTooLarge)
    } else {
        packets::encode_error(frame_id, picture, history.reverse(), opt)
    }
}

impl VideoEncoder {
    pub open spec fn wf(&self) -> bool {
        self.history.wf()
    }

    /// The reconstructions that a frame may be predicted from, the oldest first.
    pub open spec fn references(&self) -> Seq<(u64, syntax::Picture)> {
        self.history.model()
    }

    /// Creates an encoder with these search and quantization options.
    pub fn new(options: EncodeOptions) -> (r: Self)
        ensures
            r.wf(),
            r.references() == Seq::<(u64, syntax::Picture)>::empty(),
            r.history.pool@ == Seq::<Frame420>::empty(),
            r.options == options,
            r.max_frame_pixels == 67_108_864,
    {
        let limits: Limits = Limits::default();
        let history: History = History::new();
        assert(history.model() =~= Seq::<(u64, syntax::Picture)>::empty());
        VideoEncoder {
            history,
            options,
            kernels: KernelSet::auto(),
            max_frame_pixels: limits.max_frame_pixels,
        }
    }

    /// Creates an encoder with an explicit configuration.
    pub fn with_config(options: EncodeOptions, config: Config) -> (r: Result<
        Self,
        BackendUnavailable,
    >)
        ensures
            match r {
                Ok(encoder) => {
                    &&& config::available(config.cpu)
                    &&& encoder.wf()
                    &&& encoder.references() == Seq::<(u64, syntax::Picture)>::empty()
                    &&& encoder.history.pool@ == Seq::<Frame420>::empty()
                    &&& encoder.options == options
                    &&& encoder.max_frame_pixels == config.limits.max_frame_pixels
                },
                Err(e) => !config::available(config.cpu) && e == BackendUnavailable(config.cpu),
            },
    {
        let kernels: KernelSet = match kernel_set(config.cpu) {
            Ok(kernels) => kernels,
            Err(e) => {
                return Err(e);
            },
        };
        let mut encoder: VideoEncoder = VideoEncoder::new(options);
        encoder.kernels = kernels;
        encoder.max_frame_pixels = config.limits.max_frame_pixels;
        Ok(encoder)
    }

    /// Drops reference history at an explicit epoch boundary.
    pub fn reset_epoch(&mut self)
        requires
            old(self).wf(),
        ensures
            final(self).wf(),
            final(self).references() == Seq::<(u64, syntax::Picture)>::empty(),
            final(self).options == old(self).options,
            final(self).max_frame_pixels == old(self).max_frame_pixels,
            old(self).history.pool@.len() <= final(self).history.pool@.len() <= 4,
    {
        self.history.reset();
        assert(self.references() =~= Seq::<(u64, syntax::Picture)>::empty());
    }

    /// Number of reusable reconstruction allocations retained by the encoder.
    pub fn pooled_frame_count(&self) -> (r: usize)
        ensures
            r == self.history.pool@.len(),
    {
        self.history.pool.len()
    }

    /// Updates encoder policy for future frames; reconstructed references stay as they are.
    pub fn set_options(&mut self, options: EncodeOptions)
        ensures
            final(self).options == options,
            final(self).history == old(self).history,
            final(self).max_frame_pixels == old(self).max_frame_pixels,
    {
        self.options = options;
    }

    /// Encodes a frame and shares its reconstruction allocation with reference history.
    pub fn encode_shared(&mut self, frame_id: u64, frame: &Frame420) -> (r: Result<
        SharedEncodedFrame,
        VideoError,
    >)
        requires
            old(self).wf(),
        ensures
            final(self).wf(),
            final(self).options == old(self).options,
            final(self).max_frame_pixels == old(self).max_frame_pixels,
            ({
                let refused = refused_next(
                    frame_id,
                    frame.picture(),
                    old(self).references(),
                    old(self).options,
                    old(self).max_frame_pixels as int,
                );
                match r {
                    Ok(encoded) => {
                        &&& refused is None
                        &&& packets::encode_result(
                            frame_id,
                            frame.picture(),
                            old(self).references().reverse(),
                            old(self).options,
                            encoded.packet@,
                            encoded.reconstructed.picture(),
                            encoded.dependencies@,
                        )
                        &&& encoded.reconstructed.picture().valid()
                        &&& final(self).references() == extended(
                            old(self).references(),
                            frame_id,
                            encoded.reconstructed.picture(),
                        )
                        &&& pool_moved(
                            old(self).history,
                            final(self).history.pool@,
                            frame.width,
                            frame.height,
                        )
                    },
                    Err(e) => {
                        &&& refused == Some(e)
                        &&& final(self).references() == old(self).references()
                        &&& final(self).history.pool@ == old(self).history.pool@
                    },
                }
            }),
    {
        match frame.validate() {
            Ok(()) => {},
            Err(e) => {
                return Err(e);
            },
        }
        proof {
            prediction::lemma_plane_size(frame.width as int, frame.height as int);
            decoder::lemma_pool_after(self.history.pool@);
        }
        if frame.width as u64 * frame.height as u64 > self.max_frame_pixels {
            return Err(VideoError::OutputTooLarge);
        }
        let refs: Vec<(u64, &Frame420)> = newest_first(&self.history.frames);
        let encoded: EncodedFrame = match encode_with_pool(
            frame_id,
            frame,
            refs.as_slice(),
            self.options,
            self.kernels,
            &mut self.history.pool,
        ) {
            Ok(encoded) => encoded,
            Err(e) => {
                return Err(e);
            },
        };
        proof {
            packets::law_reconstruction_valid(
                frame_id,
                frame.picture(),
                self.references().reverse(),
                self.options,
            );
        }
        let reconstructed: Arc<Frame420> = Arc::new(encoded.reconstructed);
        self.history.remember(frame_id, reconstructed.clone());
        Ok(
            SharedEncodedFrame {
                packet: encoded.packet,
                reconstructed,
                dependencies: encoded.dependencies,
            },
        )
    }

    /// Encodes a frame and hands out a copy of its reconstruction.
    pub fn encode(&mut self, frame_id: u64, frame: &Frame420) -> (r: Result<
        EncodedFrame,
        VideoError,
    >)
        requires
            old(self).wf(),
        ensures
            final(self).wf(),
            final(self).options == old(self).options,
            final(self).max_frame_pixels == old(self).max_frame_pixels,
            ({
                let refused = refused_next(
                    frame_id,
                    frame.picture(),
                    old(self).references(),
                    old(self).options,
                    old(self).max_frame_pixels as int,
                );
                match r {
                    Ok(encoded) => {
                        &&& refused is None
                        &&& packets::encode_result(
                            frame_id,
                            frame.picture(),
                            old(self).references().reverse(),
                            old(self).options,
                            encoded.packet@,
                            encoded.reconstructed.picture(),
                            encoded.dependencies@,
                        )
                        &&& encoded.reconstructed.picture().valid()
                        &&& final(self).references() == extended(
                            old(self).references(),
                            frame_id,
                            encoded.reconstructed.picture(),
                        )
                        &&& pool_moved(
                            old(self).history,
                            final(self).history.pool@,
                            frame.width,
                            frame.height,
                        )
                    },
                    Err(e) => {
                        &&& refused == Some(e)
                        &&& final(self).references() == old(self).references()
                        &&& final(self).history.pool@ == old(self).history.pool@
                    },
                }
            }),
    {
        match self.encode_shared(frame_id, frame) {
            Ok(encoded) => Ok(
                EncodedFrame {
                    packet: encoded.packet,
                    reconstructed: (*encoded.reconstructed).clone(),
                    dependencies: encoded.dependencies,
                },
            ),
            Err(e) => Err(e),
        }
    }
}

// ---------------------------------------------------------------------------------------------
// Laws

pub proof fn lemma_find(history: Seq<(u64, syntax::Picture)>, k: int, i: int)
    requires
        distinct(history),
        0 <= i <= k < history.len(),
    ensures
        syntax::find_reference(history, history[k].0, i) == Some(history[k].1),
    decreases k - i,
{
    if i < k {
        assert(history[i].0 != history[k].0);
        lemma_find(history, k, i + 1);
    }
}

/// An encoder and a decoder that start from the same history stay together: the decoder takes
/// the encoder's packet, shows what the encoder reconstructed, and both extend the history in the
/// same way. At a quantizer step of one what is shown is the picture that was encoded.
pub proof fn law_encoder_decoder_agree(
    frame_id: u64,
    picture: syntax::Picture,
    history: Seq<(u64, syntax::Picture)>,
    opt: EncodeOptions,
    max_pixels: int,
    bounds: syntax::Bounds,
)
    requires
        history.len() <= 4,
        distinct(history),
        !remembers(history, frame_id),
        refused_next(frame_id, picture, history, opt, max_pixels) is None,
        packets::admitted(picture, packets::considered(history.reverse(), opt), opt, bounds),
    ensures
        ({
            let refs = packets::considered(history.reverse(), opt);
            let recon = packets::reconstruction(picture, refs, opt);
            &&& decoded_next(packets::packet_bytes(frame_id, picture, refs, opt), history, bounds)
                == Ok::<(u64, syntax::Picture, Seq<u64>), VideoError>(
                (
                    frame_id,
                    recon,
                    packets::dependencies_of(refs, packets::used_by_any(picture, refs, opt)),
                ),
            )
            &&& distinct(extended(history, frame_id, recon))
            &&& opt.qstep == 1 ==> recon == picture
        }),
{
    let newest = history.reverse();
    let refs = packets::considered(newest, opt);
    assert forall|i: int|
        0 <= i < refs.len() && #[trigger] packets::used_by_any(picture, refs, opt)[i] implies syntax::find_reference(
        history,
        refs[i].0,
        0,
    ) == Some(refs[i].1) by {
        assert(refs[i] == history[history.len() - 1 - i]);
        lemma_find(history, history.len() - 1 - i, 0);
    }
    packets::law_frame_decodes(frame_id, picture, newest, opt, history, bounds);
    let recon = packets::reconstruction(picture, refs, opt);
    let after = extended(history, frame_id, recon);
    assert forall|i: int, j: int| 0 <= i < j < after.len() implies (#[trigger] after[i]).0 != (
    #[trigger] after[j]).0 by {
        let shift: int = if history.len() < 4 {
            0
        } else {
            1
        };
        assert(after[i] == history[i + shift]);
        if j < after.len() - 1 {
            assert(after[j] == history[j + shift]);
        }
    }
    if opt.qstep == 1 {
        packets::law_frame_lossless(frame_id, picture, newest, opt);
    }
}

} // verus!
