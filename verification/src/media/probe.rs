//! Video metadata as `ffprobe` tells it.
use crate::container::v1::{ChromaLocation, ColorMatrix, ColorPrimaries, ColorTransfer, VideoMeta};
use crate::media::text::{is_word, part, spelled_out};
use crate::media::y4m;
use crate::media::y4m::unpack_meta;
use vstd::prelude::*;

verus! {

/// The first newline from `i` on, or the end.
pub open spec fn line_break(s: Seq<char>, i: int) -> int
    decreases s.len() - i,
{
    if 0 <= i < s.len() && s[i] != '\n' {
        line_break(s, i + 1)
    } else {
        i
    }
}

/// The line from `i` to `e`; a return before the newline that ends it does not count.
pub open spec fn line(s: Seq<char>, i: int, e: int) -> Seq<char> {
    if i < e && e < s.len() && s[e - 1] == '\r' {
        s.subrange(i, e - 1)
    } else {
        s.subrange(i, e)
    }
}

/// The first equals sign from `i` on, or the end.
pub open spec fn equals(s: Seq<char>, i: int) -> int
    decreases s.len() - i,
{
    if 0 <= i < s.len() && s[i] != '=' {
        equals(s, i + 1)
    } else {
        i
    }
}

/// The matrix of this name.
pub open spec fn matrix(name: Seq<char>) -> ColorMatrix {
    if name == "bt709"@ {
        ColorMatrix::Bt709
    } else if name == "bt2020nc"@ {
        ColorMatrix::Bt2020Ncl
    } else if name == "smpte170m"@ || name == "bt470bg"@ {
        ColorMatrix::Bt601
    } else {
        ColorMatrix::Unspecified
    }
}

/// The transfer function of this name.
pub open spec fn transfer(name: Seq<char>) -> ColorTransfer {
    if name == "bt709"@ {
        ColorTransfer::Bt709
    } else if name == "iec61966-2-1"@ {
        ColorTransfer::Srgb
    } else if name == "smpte2084"@ {
        ColorTransfer::Pq
    } else if name == "arib-std-b67"@ {
        ColorTransfer::Hlg
    } else {
        ColorTransfer::Unspecified
    }
}

/// The primaries of this name.
pub open spec fn primaries(name: Seq<char>) -> ColorPrimaries {
    if name == "bt709"@ {
        ColorPrimaries::Bt709
    } else if name == "bt2020"@ {
        ColorPrimaries::Bt2020
    } else if name == "smpte170m"@ || name == "bt470bg"@ {
        ColorPrimaries::Bt601
    } else {
        ColorPrimaries::Unspecified
    }
}

/// The chroma location of this name.
pub open spec fn chroma(name: Seq<char>) -> ChromaLocation {
    if name == "left"@ {
        ChromaLocation::Left
    } else if name == "center"@ {
        ChromaLocation::Center
    } else {
        ChromaLocation::Unspecified
    }
}

/// Metadata after one more line: a key, an equals sign and a value. Other lines say nothing.
pub open spec fn told(m: VideoMeta, s: Seq<char>) -> VideoMeta {
    let at = equals(s, 0);
    let key = s.take(at);
    let value = s.skip(at + 1);
    if at >= s.len() {
        m
    } else if key == "color_range"@ {
        VideoMeta { full_range: value == "pc"@ || value == "jpeg"@, ..m }
    } else if key == "color_space"@ {
        VideoMeta { matrix: matrix(value), ..m }
    } else if key == "color_transfer"@ {
        VideoMeta { transfer: transfer(value), ..m }
    } else if key == "color_primaries"@ {
        VideoMeta { primaries: primaries(value), ..m }
    } else if key == "chroma_location"@ {
        VideoMeta { chroma: chroma(value), ..m }
    } else {
        m
    }
}

/// Metadata after the lines from `i` on.
pub open spec fn heard(m: VideoMeta, s: Seq<char>, i: int) -> VideoMeta
    decreases s.len() - i,
    when 0 <= i
    via heard_decreases
{
    if i >= s.len() {
        m
    } else {
        let e = line_break(s, i);
        let next = told(m, line(s, i, e));
        if e >= s.len() {
            next
        } else {
            heard(next, s, e + 1)
        }
    }
}

#[via_fn]
proof fn heard_decreases(m: VideoMeta, s: Seq<char>, i: int) {
    lemma_line_break(s, i);
}

proof fn lemma_line_break(s: Seq<char>, i: int)
    requires
        0 <= i,
    ensures
        i <= line_break(s, i),
        i <= s.len() ==> line_break(s, i) <= s.len(),
    decreases s.len() - i,
{
    if i < s.len() {
        lemma_line_break(s, i + 1);
    }
}

fn matrix_named(name: &Vec<char>) -> (r: ColorMatrix)
    ensures
        r == matrix(name@),
{
    if is_word(name, "bt709") {
        ColorMatrix::Bt709
    } else if is_word(name, "bt2020nc") {
        ColorMatrix::Bt2020Ncl
    } else if is_word(name, "smpte170m") || is_word(name, "bt470bg") {
        ColorMatrix::Bt601
    } else {
        ColorMatrix::Unspecified
    }
}

fn transfer_named(name: &Vec<char>) -> (r: ColorTransfer)
    ensures
        r == transfer(name@),
{
    if is_word(name, "bt709") {
        ColorTransfer::Bt709
    } else if is_word(name, "iec61966-2-1") {
        ColorTransfer::Srgb
    } else if is_word(name, "smpte2084") {
        ColorTransfer::Pq
    } else if is_word(name, "arib-std-b67") {
        ColorTransfer::Hlg
    } else {
        ColorTransfer::Unspecified
    }
}

fn primaries_named(name: &Vec<char>) -> (r: ColorPrimaries)
    ensures
        r == primaries(name@),
{
    if is_word(name, "bt709") {
        ColorPrimaries::Bt709
    } else if is_word(name, "bt2020") {
        ColorPrimaries::Bt2020
    } else if is_word(name, "smpte170m") || is_word(name, "bt470bg") {
        ColorPrimaries::Bt601
    } else {
        ColorPrimaries::Unspecified
    }
}

fn chroma_named(name: &Vec<char>) -> (r: ChromaLocation)
    ensures
        r == chroma(name@),
{
    if is_word(name, "left") {
        ChromaLocation::Left
    } else if is_word(name, "center") {
        ChromaLocation::Center
    } else {
        ChromaLocation::Unspecified
    }
}

/// Takes one more line.
fn tell(m: VideoMeta, s: &Vec<char>) -> (r: VideoMeta)
    ensures
        r == told(m, s@),
{
    let mut at: usize = 0;
    while at < s.len() && s[at] != '='
        invariant
            at <= s@.len(),
            equals(s@, 0) == equals(s@, at as int),
        decreases s@.len() - at,
    {
        at = at + 1;
    }
    let mut m: VideoMeta = m;
    if at >= s.len() {
        return m;
    }
    let key: Vec<char> = part(s, 0, at);
    assert(key@ =~= s@.take(at as int));
    let value: Vec<char> = part(s, at + 1, s.len());
    assert(value@ =~= s@.skip(at + 1));
    if is_word(&key, "color_range") {
        m.full_range = is_word(&value, "pc") || is_word(&value, "jpeg");
    } else if is_word(&key, "color_space") {
        m.matrix = matrix_named(&value);
    } else if is_word(&key, "color_transfer") {
        m.transfer = transfer_named(&value);
    } else if is_word(&key, "color_primaries") {
        m.primaries = primaries_named(&value);
    } else if is_word(&key, "chroma_location") {
        m.chroma = chroma_named(&value);
    }
    m
}

/// The packed metadata that lines of `key=value` tell of.
pub fn probe_video_meta(output: &str) -> (r: u32)
    ensures
        r == heard(y4m::plain_meta(), output@, 0).packed(),
{
    let s: Vec<char> = spelled_out(output);
    let mut m: VideoMeta = VideoMeta {
        matrix: ColorMatrix::Unspecified,
        transfer: ColorTransfer::Unspecified,
        primaries: ColorPrimaries::Unspecified,
        full_range: false,
        chroma: ChromaLocation::Unspecified,
    };
    let mut i: usize = 0;
    while i < s.len()
        invariant
            s@ == output@,
            i <= s@.len(),
            heard(y4m::plain_meta(), s@, 0) == heard(m, s@, i as int),
        decreases s@.len() - i,
    {
        let mut e: usize = i;
        while e < s.len() && s[e] != '\n'
            invariant
                i <= e <= s@.len(),
                line_break(s@, i as int) == line_break(s@, e as int),
            decreases s@.len() - e,
        {
            e = e + 1;
        }
        let end: usize = if i < e && e < s.len() && s[e - 1] == '\r' {
            e - 1
        } else {
            e
        };
        m = tell(m, &part(&s, i, end));
        i = if e < s.len() {
            e + 1
        } else {
            e
        };
    }
    m.pack()
}

/// Metadata of a file and of its frames as one: what the file says counts, but for a chroma
/// location that it leaves open.
pub open spec fn merged(probed: u32, own: u32) -> int {
    if probed == 0 {
        own as int
    } else {
        let (p, y) = (y4m::meta_of(probed), y4m::meta_of(own));
        VideoMeta {
            chroma: if p.chroma == ChromaLocation::Unspecified {
                y.chroma
            } else {
                p.chroma
            },
            ..p
        }.packed() as int
    }
}

/// Metadata of a file and of its frames as one.
pub fn merge_video_meta(probed: u32, own: u32) -> (r: u32)
    ensures
        r == merged(probed, own),
{
    if probed == 0 {
        return own;
    }
    let mut p: VideoMeta = unpack_meta(probed);
    let y: VideoMeta = unpack_meta(own);
    if p.chroma == ChromaLocation::Unspecified {
        p.chroma = y.chroma;
    }
    p.pack()
}

} // verus!
