//! Files to hold decoders to: a clip of four frames and a run of samples, coded with and without
//! loss, and what comes out of them.
use crate::container::v1::{ChromaLocation, ColorMatrix, ColorPrimaries, ColorTransfer, VideoMeta};
use crate::media::decode;
use crate::media::decode::decode_video_frames;
use crate::media::encode;
use crate::media::encode::{encode_av, Recipe};
use crate::media::examine;
use crate::media::examine::verify_video_with_reference_decoder;
use crate::media::pcm;
use crate::media::pcm::bytes_from_samples;
use crate::media::scene;
use crate::media::y4m;
use crate::media::y4m::emit_y4m;
use crate::media::{Backend, Clip, ClipModel, MediaError};
use crate::reference;
use crate::reference::audio::EncodeOptions;
use crate::reference::frame::Frame420;
use crate::video::v1::syntax::Picture;
use crate::video::v1::EncoderPreset;
use vstd::prelude::*;

verus! {

// ---------------------------------------------------------------------------------------------
// Sources

/// A slope over 32 by 24 samples.
pub open spec fn slope() -> Seq<u8> {
    Seq::new(768, |i: int| ((i % 32 * 9 + i / 32 * 13) % 256) as u8)
}

/// The slope moved right by one sample.
pub open spec fn moved() -> Seq<u8> {
    Seq::new(
        768,
        |i: int|
            if i % 32 == 0 {
                slope()[i]
            } else {
                slope()[i - 1]
            },
    )
}

/// Stripes of four values.
pub open spec fn stripes() -> Seq<u8> {
    Seq::new(768, |i: int| stripe((i / 8 + i % 8) % 4))
}

pub open spec fn stripe(k: int) -> u8 {
    if k == 0 {
        16
    } else if k == 1 {
        64
    } else if k == 2 {
        160
    } else {
        235
    }
}

pub open spec fn even(v: u8) -> Seq<u8> {
    Seq::new(192, |i: int| v)
}

pub open spec fn framed(y: Seq<u8>, u: u8, v: u8) -> Picture {
    Picture { width: 32, height: 24, y, u: even(u), v: even(v) }
}

/// Rec. 709 throughout, limited range, chroma to the left.
pub open spec fn source_meta() -> VideoMeta {
    VideoMeta {
        matrix: ColorMatrix::Bt709,
        transfer: ColorTransfer::Bt709,
        primaries: ColorPrimaries::Bt709,
        full_range: false,
        chroma: ChromaLocation::Left,
    }
}

/// The clip that is coded.
pub open spec fn source_clip() -> ClipModel {
    ClipModel {
        width: 32,
        height: 24,
        fps_n: 30,
        fps_d: 1,
        meta0: source_meta().packed() as u32,
        frames: seq![
            framed(slope(), 96, 160),
            framed(moved(), 96, 160),
            framed(slope(), 96, 160),
            framed(stripes(), 128, 128),
        ],
    }
}

/// The samples that are coded.
pub open spec fn source_samples() -> Seq<i16> {
    Seq::new(1920, |i: int| (i * 127 % 60000 - 30000) as i16)
}

/// A plane of 192 samples of one value.
fn even_plane(v: u8) -> (r: Vec<u8>)
    ensures
        r@ == even(v),
{
    let r: Vec<u8> = vec![v; 192];
    assert(r@ =~= even(v));
    r
}

fn slope_plane() -> (r: Vec<u8>)
    ensures
        r@ == slope(),
{
    let mut r: Vec<u8> = Vec::new();
    let mut i: u32 = 0;
    while i < 768
        invariant
            i <= 768,
            r@ == slope().take(i as int),
        decreases 768 - i,
    {
        r.push((((i % 32) * 9 + (i / 32) * 13) % 256) as u8);
        assert(r@ =~= slope().take(i + 1));
        i = i + 1;
    }
    assert(r@ =~= slope());
    r
}

fn moved_plane(plane: &Vec<u8>) -> (r: Vec<u8>)
    requires
        plane@ == slope(),
    ensures
        r@ == moved(),
{
    let mut r: Vec<u8> = Vec::new();
    let mut i: usize = 0;
    while i < 768
        invariant
            plane@ == slope(),
            i <= 768,
            r@ == moved().take(i as int),
        decreases 768 - i,
    {
        r.push(
            if i % 32 == 0 {
                plane[i]
            } else {
                plane[i - 1]
            },
        );
        assert(r@ =~= moved().take(i + 1));
        i = i + 1;
    }
    assert(r@ =~= moved());
    r
}

fn striped_plane() -> (r: Vec<u8>)
    ensures
        r@ == stripes(),
{
    let mut r: Vec<u8> = Vec::new();
    let mut i: u32 = 0;
    while i < 768
        invariant
            i <= 768,
            r@ == stripes().take(i as int),
        decreases 768 - i,
    {
        let k: u32 = (i / 8 + i % 8) % 4;
        r.push(
            if k == 0 {
                16
            } else if k == 1 {
                64
            } else if k == 2 {
                160
            } else {
                235
            },
        );
        assert(r@ =~= stripes().take(i + 1));
        i = i + 1;
    }
    assert(r@ =~= stripes());
    r
}

fn frame_of(y: Vec<u8>, u: u8, v: u8) -> (r: Frame420)
    ensures
        r.picture() == framed(y@, u, v),
{
    Frame420 { width: 32, height: 24, y, u: even_plane(u), v: even_plane(v) }
}

/// Makes the clip that is coded.
pub fn make_clip() -> (r: Clip)
    ensures
        r.model() == source_clip(),
{
    let first: Vec<u8> = slope_plane();
    let second: Vec<u8> = moved_plane(&first);
    let meta: VideoMeta = VideoMeta {
        matrix: ColorMatrix::Bt709,
        transfer: ColorTransfer::Bt709,
        primaries: ColorPrimaries::Bt709,
        full_range: false,
        chroma: ChromaLocation::Left,
    };
    let mut frames: Vec<Frame420> = Vec::new();
    frames.push(frame_of(first, 96, 160));
    frames.push(frame_of(second, 96, 160));
    frames.push(frame_of(slope_plane(), 96, 160));
    frames.push(frame_of(striped_plane(), 128, 128));
    let r: Clip = Clip { width: 32, height: 24, fps_n: 30, fps_d: 1, meta0: meta.pack(), frames };
    assert(r.model().frames =~= source_clip().frames);
    r
}

/// Makes the samples that are coded.
pub fn make_samples() -> (r: Vec<i16>)
    ensures
        r@ == source_samples(),
{
    let mut r: Vec<i16> = Vec::new();
    let mut i: i32 = 0;
    while i < 1920
        invariant
            0 <= i <= 1920,
            r@ == source_samples().take(i as int),
        decreases 1920 - i,
    {
        r.push((i * 127 % 60000 - 30000) as i16);
        assert(r@ =~= source_samples().take(i + 1));
        i = i + 1;
    }
    assert(r@ =~= source_samples());
    r
}

// ---------------------------------------------------------------------------------------------
// Vectors

/// How the clip is coded.
pub open spec fn recipe(q: u16) -> Recipe {
    Recipe {
        backend: Backend::Production,
        preset: EncoderPreset::Quality,
        video_q: q,
        audio_q: 1,
        epoch_frames: 60,
    }
}

/// How the samples are coded.
pub open spec fn sample_options(q: u16) -> EncodeOptions {
    EncodeOptions { sample_rate: 48_000, channels: 2, qstep: q, mid_side: true }
}

/// A file of the clip and the clip that comes out of it.
#[derive(Debug)]
pub struct VideoVector {
    pub file: Vec<u8>,
    pub clip: Clip,
}

/// The file of the clip and the clip that comes out of it, if the two decoders agree on it.
#[verifier::opaque]
pub open spec fn video_made(q: u16) -> Result<(Seq<u8>, ClipModel), MediaError> {
    match encode::clip_file(recipe(q), source_clip(), None) {
        Err(e) => Err(e),
        Ok(file) => match decode::file_packets(file) {
            Err(e) => Err(e),
            Ok((front, packets, n)) => match examine::compared(
                packets,
                Seq::empty(),
                Seq::empty(),
            ) {
                Err(e) => Err(e),
                Ok(_) => match decode::file_clip(Backend::Production, file) {
                    Err(e) => Err(e),
                    Ok(clip) => Ok((file, clip)),
                },
            },
        },
    }
}

/// Codes the clip, holds the decoders to one another, and decodes it.
pub fn make_video(q: u16) -> (r: Result<VideoVector, MediaError>)
    ensures
        match r {
            Ok(made) => video_made(q) == Ok::<(Seq<u8>, ClipModel), MediaError>(
                (made.file@, made.clip.model()),
            ),
            Err(e) => video_made(q) == Err::<(Seq<u8>, ClipModel), MediaError>(e),
        },
{
    proof {
        reveal(video_made);
    }
    let clip: Clip = make_clip();
    assert(scene::comparable(clip.model().frames));
    let file: Vec<u8> = match encode_av(
        &clip,
        None,
        Recipe {
            backend: Backend::Production,
            preset: EncoderPreset::Quality,
            video_q: q,
            audio_q: 1,
            epoch_frames: 60,
        },
    ) {
        Ok(encoded) => encoded.file,
        Err(e) => {
            return Err(e);
        },
    };
    match verify_video_with_reference_decoder(file.as_slice()) {
        Ok(()) => {},
        Err(e) => {
            return Err(e);
        },
    }
    match decode_video_frames(file.as_slice(), Backend::Production) {
        Ok(clip) => Ok(VideoVector { file, clip }),
        Err(e) => Err(e),
    }
}

/// A packet of samples and the samples that come out of it.
#[derive(Debug)]
pub struct AudioVector {
    pub packet: Vec<u8>,
    pub samples: Vec<i16>,
}

/// The packet of the samples and the samples that come out of it.
#[verifier::opaque]
pub open spec fn audio_made(q: u16) -> Result<(Seq<u8>, Seq<i16>), MediaError> {
    match encode::coded_samples(Backend::Reference, source_samples(), sample_options(q)) {
        Err(e) => Err(e),
        Ok(packet) => match decode::heard_packet(Backend::Reference, packet) {
            Err(e) => Err(e),
            Ok((rate, channels, samples)) => Ok((packet, samples)),
        },
    }
}

/// Codes the samples and decodes them.
pub fn make_audio(q: u16) -> (r: Result<AudioVector, MediaError>)
    ensures
        match r {
            Ok(made) => audio_made(q) == Ok::<(Seq<u8>, Seq<i16>), MediaError>(
                (made.packet@, made.samples@),
            ),
            Err(e) => audio_made(q) == Err::<(Seq<u8>, Seq<i16>), MediaError>(e),
        },
{
    proof {
        reveal(audio_made);
        reveal(decode::heard_packet);
    }
    let samples: Vec<i16> = make_samples();
    let packet: Vec<u8> = match reference::audio::encode(
        samples.as_slice(),
        EncodeOptions { sample_rate: 48_000, channels: 2, qstep: q, mid_side: true },
    ) {
        Ok(packet) => packet,
        Err(e) => {
            return Err(MediaError::AudioEncode(e));
        },
    };
    match reference::audio::decode(packet.as_slice()) {
        Ok((_, _, samples)) => Ok(AudioVector { packet, samples }),
        Err(e) => Err(MediaError::AudioDecode(e)),
    }
}

/// Whether a clip shows the frames that were coded.
pub fn same_frames(a: &Clip, b: &Clip) -> (r: bool)
    ensures
        r == (a.model().frames == b.model().frames),
{
    if a.frames.len() != b.frames.len() {
        assert(a.model().frames.len() != b.model().frames.len());
        return false;
    }
    let mut i: usize = 0;
    while i < a.frames.len()
        invariant
            i <= a.frames@.len(),
            a.frames@.len() == b.frames@.len(),
            forall|j: int|
                0 <= j < i ==> (#[trigger] a.model().frames[j]) == b.model().frames[j],
        decreases a.frames@.len() - i,
    {
        let (x, y): (&Frame420, &Frame420) = (&a.frames[i], &b.frames[i]);
        proof {
            assert(a.model().frames[i as int] == x.picture());
            assert(b.model().frames[i as int] == y.picture());
        }
        if !(x.width == y.width && x.height == y.height && examine::same_bytes(
            x.y.as_slice(),
            y.y.as_slice(),
        ) && examine::same_bytes(x.u.as_slice(), y.u.as_slice()) && examine::same_bytes(
            x.v.as_slice(),
            y.v.as_slice(),
        )) {
            return false;
        }
        i = i + 1;
    }
    assert(a.model().frames =~= b.model().frames);
    true
}

/// Whether two runs of samples are the same.
pub fn same_samples(a: &Vec<i16>, b: &Vec<i16>) -> (r: bool)
    ensures
        r == (a@ == b@),
{
    if a.len() != b.len() {
        return false;
    }
    let mut i: usize = 0;
    while i < a.len()
        invariant
            i <= a@.len(),
            a@.len() == b@.len(),
            forall|j: int| 0 <= j < i ==> a@[j] == b@[j],
        decreases a@.len() - i,
    {
        if a[i] != b[i] {
            return false;
        }
        i = i + 1;
    }
    assert(a@ =~= b@);
    true
}

/// The bytes with the top bit of the last one flipped.
pub open spec fn damaged(b: Seq<u8>) -> Seq<u8> {
    if b.len() == 0 {
        b
    } else {
        b.update(b.len() - 1, b.last() ^ 0x80u8)
    }
}

/// Copies bytes and flips the top bit of the last one.
pub fn damage(b: &Vec<u8>) -> (r: Vec<u8>)
    ensures
        r@ == damaged(b@),
{
    let mut r: Vec<u8> = Vec::new();
    crate::bytes::put_slice(b, &mut r);
    assert(r@ =~= b@);
    if r.len() > 0 {
        let k: usize = r.len() - 1;
        let v: u8 = r[k];
        r[k] = v ^ 0x80u8;
        assert(r@ =~= damaged(b@));
    }
    r
}

/// Everything there is to hold a decoder to.
#[derive(Debug)]
pub struct Vectors {
    pub video_lossless: Vec<u8>,
    pub video_lossless_y4m: Vec<u8>,
    pub video_lossy: Vec<u8>,
    pub video_lossy_y4m: Vec<u8>,
    pub audio_lossless: Vec<u8>,
    pub audio_lossless_pcm: Vec<u8>,
    pub audio_lossy: Vec<u8>,
    pub audio_lossy_pcm: Vec<u8>,
    /// A file that must be refused.
    pub corrupt: Vec<u8>,
}

/// What vectors are.
#[verifier::ext_equal]
pub struct VectorsModel {
    pub video_lossless: Seq<u8>,
    pub video_lossless_y4m: Seq<u8>,
    pub video_lossy: Seq<u8>,
    pub video_lossy_y4m: Seq<u8>,
    pub audio_lossless: Seq<u8>,
    pub audio_lossless_pcm: Seq<u8>,
    pub audio_lossy: Seq<u8>,
    pub audio_lossy_pcm: Seq<u8>,
    pub corrupt: Seq<u8>,
}

impl Vectors {
    pub open spec fn model(&self) -> VectorsModel {
        VectorsModel {
            video_lossless: self.video_lossless@,
            video_lossless_y4m: self.video_lossless_y4m@,
            video_lossy: self.video_lossy@,
            video_lossy_y4m: self.video_lossy_y4m@,
            audio_lossless: self.audio_lossless@,
            audio_lossless_pcm: self.audio_lossless_pcm@,
            audio_lossy: self.audio_lossy@,
            audio_lossy_pcm: self.audio_lossy_pcm@,
            corrupt: self.corrupt@,
        }
    }
}

/// All vectors, or why there are none. What was coded without loss must come back.
pub open spec fn vectors_made() -> Result<VectorsModel, MediaError> {
    match video_made(1) {
        Err(e) => Err(e),
        Ok((file, clip)) => if clip.frames != source_clip().frames {
            Err(MediaError::LosslessVideo)
        } else {
            match video_made(128) {
                Err(e) => Err(e),
                Ok((lossy, lossy_clip)) => match audio_made(1) {
                    Err(e) => Err(e),
                    Ok((packet, samples)) => if samples != source_samples() {
                        Err(MediaError::LosslessAudio)
                    } else {
                        match audio_made(256) {
                            Err(e) => Err(e),
                            Ok((rough, rough_samples)) => Ok(
                                VectorsModel {
                                    video_lossless: file,
                                    video_lossless_y4m: y4m::emitted(source_clip()),
                                    video_lossy: lossy,
                                    video_lossy_y4m: y4m::emitted(lossy_clip),
                                    audio_lossless: packet,
                                    audio_lossless_pcm: pcm::spelled(source_samples()),
                                    audio_lossy: rough,
                                    audio_lossy_pcm: pcm::spelled(rough_samples),
                                    corrupt: damaged(file),
                                },
                            ),
                        }
                    },
                },
            }
        },
    }
}

/// Makes all vectors.
pub fn make_vectors() -> (r: Result<Vectors, MediaError>)
    ensures
        match r {
            Ok(made) => vectors_made() == Ok::<VectorsModel, MediaError>(made.model()),
            Err(e) => vectors_made() == Err::<VectorsModel, MediaError>(e),
        },
{
    let clip: Clip = make_clip();
    let lossless: VideoVector = match make_video(1) {
        Ok(made) => made,
        Err(e) => {
            return Err(e);
        },
    };
    if !same_frames(&lossless.clip, &clip) {
        return Err(MediaError::LosslessVideo);
    }
    let lossy: VideoVector = match make_video(128) {
        Ok(made) => made,
        Err(e) => {
            return Err(e);
        },
    };
    let samples: Vec<i16> = make_samples();
    let exact: AudioVector = match make_audio(1) {
        Ok(made) => made,
        Err(e) => {
            return Err(e);
        },
    };
    if !same_samples(&exact.samples, &samples) {
        return Err(MediaError::LosslessAudio);
    }
    let rough: AudioVector = match make_audio(256) {
        Ok(made) => made,
        Err(e) => {
            return Err(e);
        },
    };
    let corrupt: Vec<u8> = damage(&lossless.file);
    Ok(
        Vectors {
            video_lossless: lossless.file,
            video_lossless_y4m: emit_y4m(&clip),
            video_lossy: lossy.file,
            video_lossy_y4m: emit_y4m(&lossy.clip),
            audio_lossless: exact.packet,
            audio_lossless_pcm: bytes_from_samples(samples.as_slice()),
            audio_lossy: rough.packet,
            audio_lossy_pcm: bytes_from_samples(rough.samples.as_slice()),
            corrupt,
        },
    )
}

} // verus!
