//! What a player does with its input.
use crate::audio;
use crate::player::PlayerModel;
use crate::reference;
use vstd::prelude::*;

verus! {

/// Less input than asked for is error -1, a video packet that is refused -2 and an audio packet that is
/// refused -3; all three leave everything else as it was.
pub proof fn law_player_errors(m: PlayerModel, len: u32)
    ensures
        len > m.input.len() ==> m.shown(len) == (PlayerModel { last_error: -1, ..m }) && m.heard(len)
            == (PlayerModel { last_error: -1, ..m }),
        len <= m.input.len() && reference::video_decoder::decoded_frame(
            m.input.take(len as int),
            m.frames,
        ) is Err ==> m.shown(len) == (PlayerModel { last_error: -2, ..m }),
        len <= m.input.len() && audio::v1::syntax::decoded_packet(
            m.input.take(len as int),
            reference::audio::bounds(),
        ) is Err ==> m.heard(len) == (PlayerModel { last_error: -3, ..m }),
{
}

/// A video packet that is taken shows its picture: it is the newest of at most four, its dimensions are
/// told, and sound and input stay as they were.
pub proof fn law_player_shows(
    m: PlayerModel,
    len: u32,
    id: u64,
    picture: crate::video::v1::syntax::Picture,
    ids: Seq<u64>,
)
    requires
        m.frames.len() <= 4,
        len <= m.input.len(),
        reference::video_decoder::decoded_frame(m.input.take(len as int), m.frames) == Ok::<
            (u64, crate::video::v1::syntax::Picture, Seq<u64>),
            crate::video::v1::VideoError,
        >((id, picture, ids)),
        0 <= picture.width <= u32::MAX,
        0 <= picture.height <= u32::MAX,
    ensures
        ({
            let next = m.shown(len);
            let n = next.frames.len() as int;
            &&& next.last_error == 0
            &&& next.video_width == picture.width && next.video_height == picture.height
            &&& n == if m.frames.len() < 4 {
                m.frames.len() + 1
            } else {
                4
            }
            &&& next.frames[n - 1] == (id, picture)
            &&& forall|k: int|
                0 <= k < n - 1 ==> #[trigger] next.frames[k] == m.frames[k + m.frames.len() + 1 - n]
            &&& next.audio == m.audio && next.input == m.input && next.audio_rate == m.audio_rate
                && next.audio_channels == m.audio_channels
        }),
{
}

/// An audio packet that is taken replaces the samples; pictures and input stay as they were.
pub proof fn law_player_sounds(m: PlayerModel, len: u32, rate: u32, channels: u8, pcm: Seq<i16>)
    requires
        len <= m.input.len(),
        audio::v1::syntax::decoded_packet(m.input.take(len as int), reference::audio::bounds()) == Ok::<
            (u32, u8, Seq<i16>),
            audio::v1::AudioError,
        >((rate, channels, pcm)),
    ensures
        ({
            let next = m.heard(len);
            &&& next.last_error == 0
            &&& next.audio == pcm && next.audio_rate == rate && next.audio_channels == channels
            &&& next.frames == m.frames && next.input == m.input && next.video_width == m.video_width
                && next.video_height == m.video_height
        }),
{
}

/// Input that is made longer keeps its bytes and gets zeros behind them; made shorter it keeps the first
/// ones.
pub proof fn law_resized(s: Seq<u8>, n: int, i: int)
    requires
        0 <= i < n,
    ensures
        crate::player::resized(s, n).len() == n,
        i < s.len() ==> crate::player::resized(s, n)[i] == s[i],
        i >= s.len() ==> crate::player::resized(s, n)[i] == 0,
{
}

} // verus!
