//! Values behind small numbers, for callers that cannot hold them.
use crate::video::v1::EncoderPreset;
use vstd::prelude::*;

verus! {

/// Values by handle. A handle is one more than the place of its value; zero is no handle.
#[derive(Debug)]
pub struct Slots<T> {
    pub slots: Vec<Option<T>>,
}

/// The first empty place from `i` on, or the end.
pub open spec fn vacant<T>(slots: Seq<Option<T>>, i: int) -> int
    decreases slots.len() - i,
{
    if 0 <= i < slots.len() && slots[i] is Some {
        vacant(slots, i + 1)
    } else {
        i
    }
}

/// A handle has a value.
pub open spec fn occupied<T>(slots: Seq<Option<T>>, handle: u32) -> bool {
    1 <= handle <= slots.len() && slots[handle - 1] is Some
}

/// The handle of a place, or zero where it does not fit 32 bits.
pub open spec fn handle_of(place: int) -> int {
    if place + 1 <= u32::MAX {
        place + 1
    } else {
        0
    }
}

impl<T> Slots<T> {
    pub fn new() -> (r: Self)
        ensures
            r.slots@ == Seq::<Option<T>>::empty(),
    {
        Slots { slots: Vec::new() }
    }

    /// Keeps a value in the first empty place and returns its handle.
    pub fn insert(&mut self, value: T) -> (r: u32)
        ensures
            ({
                let place = vacant(old(self).slots@, 0);
                &&& r == handle_of(place)
                &&& final(self).slots@ == if place < old(self).slots@.len() {
                    old(self).slots@.update(place, Some(value))
                } else {
                    old(self).slots@.push(Some(value))
                }
            }),
    {
        let mut i: usize = 0;
        while i < self.slots.len() && self.slots[i].is_some()
            invariant
                self.slots@ == old(self).slots@,
                i <= self.slots@.len(),
                vacant(self.slots@, 0) == vacant(self.slots@, i as int),
            decreases self.slots@.len() - i,
        {
            i = i + 1;
        }
        if i < self.slots.len() {
            self.slots[i] = Some(value);
        } else {
            self.slots.push(Some(value));
        }
        if i < 0xffff_ffff {
            i as u32 + 1
        } else {
            0
        }
    }

    /// Drops the value of a handle. Tells whether there was one.
    pub fn remove(&mut self, handle: u32) -> (r: bool)
        ensures
            r == occupied(old(self).slots@, handle),
            final(self).slots@ == if r {
                old(self).slots@.update(handle - 1, None)
            } else {
                old(self).slots@
            },
    {
        if handle == 0 || handle as usize > self.slots.len() {
            return false;
        }
        let i: usize = handle as usize - 1;
        if self.slots[i].is_none() {
            return false;
        }
        self.slots[i] = None;
        true
    }

    /// The value of a handle, to be changed.
    pub fn get_mut(&mut self, handle: u32) -> (r: Option<&mut T>)
        ensures
            match r {
                Some(value) => {
                    &&& occupied(old(self).slots@, handle)
                    &&& old(self).slots@[handle - 1] == Some(*value)
                    &&& final(self).slots@ == old(self).slots@.update(
                        handle - 1,
                        Some(*final(value)),
                    )
                },
                None => !occupied(old(self).slots@, handle) && final(self).slots@ == old(
                    self,
                ).slots@,
            },
    {
        if handle == 0 || handle as usize > self.slots.len() {
            return None;
        }
        let i: usize = handle as usize - 1;
        match &mut self.slots[i] {
            Some(value) => Some(value),
            None => None,
        }
    }
}

/// A handle that was given out leads to its value, and no handle that led to a value before is
/// given out anew.
pub proof fn law_handles_fresh<T>(slots: Seq<Option<T>>, value: T)
    requires
        slots.len() < u32::MAX,
    ensures
        ({
            let place = vacant(slots, 0);
            let after = if place < slots.len() {
                slots.update(place, Some(value))
            } else {
                slots.push(Some(value))
            };
            let handle = handle_of(place) as u32;
            &&& !occupied(slots, handle)
            &&& occupied(after, handle)
            &&& after[handle - 1] == Some(value)
            &&& forall|h: u32| #[trigger]
                occupied(slots, h) ==> occupied(after, h) && after[h - 1] == slots[h - 1]
        }),
{
    lemma_vacant(slots, 0);
}

proof fn lemma_vacant<T>(slots: Seq<Option<T>>, i: int)
    requires
        0 <= i <= slots.len(),
    ensures
        i <= vacant(slots, i) <= slots.len(),
        vacant(slots, i) < slots.len() ==> slots[vacant(slots, i)] is None,
    decreases slots.len() - i,
{
    if i < slots.len() && slots[i] is Some {
        lemma_vacant(slots, i + 1);
    }
}

// ---------------------------------------------------------------------------------------------
// Arguments

/// Why the arguments of an encoder are refused before it looks at them.
#[derive(Debug, Clone, Copy, PartialEq, Eq, Structural)]
pub enum ArgumentError {
    /// No preset has this number.
    Preset,
    /// The video quantizer step does not fit 16 bits.
    VideoQuantizer,
    /// The audio quantizer step does not fit 16 bits.
    AudioQuantizer,
}

/// The preset of a number.
pub open spec fn preset_of(v: u32) -> Option<EncoderPreset> {
    if v == 0 {
        Some(EncoderPreset::Fast)
    } else if v == 1 {
        Some(EncoderPreset::Balanced)
    } else if v == 2 {
        Some(EncoderPreset::Quality)
    } else {
        None
    }
}

/// The preset of a number.
pub fn preset_from(v: u32) -> (r: Option<EncoderPreset>)
    ensures
        r == preset_of(v),
{
    match v {
        0 => Some(EncoderPreset::Fast),
        1 => Some(EncoderPreset::Balanced),
        2 => Some(EncoderPreset::Quality),
        _ => None,
    }
}

/// The arguments of a video encoder: the preset is looked at first.
pub fn video_arguments(qstep: u32, preset: u32) -> (r: Result<(u16, EncoderPreset), ArgumentError>)
    ensures
        match r {
            Ok((q, p)) => q == qstep && preset_of(preset) == Some(p),
            Err(e) => if preset_of(preset) is None {
                e == ArgumentError::Preset
            } else {
                qstep > 65535 && e == ArgumentError::VideoQuantizer
            },
        },
{
    match preset_from(preset) {
        None => Err(ArgumentError::Preset),
        Some(p) => if qstep > 65535 {
            Err(ArgumentError::VideoQuantizer)
        } else {
            Ok((qstep as u16, p))
        },
    }
}

/// The arguments of an encoder of video and audio: the quantizer steps are looked at first.
pub fn av_arguments(video_qstep: u32, audio_qstep: u32, preset: u32) -> (r: Result<
    (u16, u16, EncoderPreset),
    ArgumentError,
>)
    ensures
        match r {
            Ok((v, a, p)) => v == video_qstep && a == audio_qstep && preset_of(preset) == Some(p),
            Err(e) => if video_qstep > 65535 {
                e == ArgumentError::VideoQuantizer
            } else if audio_qstep > 65535 {
                e == ArgumentError::AudioQuantizer
            } else {
                preset_of(preset) is None && e == ArgumentError::Preset
            },
        },
{
    if video_qstep > 65535 {
        return Err(ArgumentError::VideoQuantizer);
    }
    if audio_qstep > 65535 {
        return Err(ArgumentError::AudioQuantizer);
    }
    match preset_from(preset) {
        None => Err(ArgumentError::Preset),
        Some(p) => Ok((video_qstep as u16, audio_qstep as u16, p)),
    }
}

} // verus!
