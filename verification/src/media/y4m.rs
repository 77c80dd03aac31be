//! Clips as Y4M text and raw samples.
use crate::bytes;
use crate::container::v1;
use crate::container::v1::{ChromaLocation, ColorMatrix, ColorPrimaries, ColorTransfer, VideoMeta};
use crate::media;
use crate::media::text;
use crate::media::text::{characters, parse_number, part, spelled_out, split_words, starts_with};
use crate::media::{Clip, ClipModel};
use crate::reference::frame::Frame420;
use crate::video::v1::syntax::Picture;
use vstd::prelude::*;

verus! {

/// Why bytes are no Y4M clip.
#[derive(Debug, PartialEq, Eq)]
pub enum Y4mError {
    /// There is no header line.
    MissingHeader,
    /// The header is not UTF-8.
    Utf8,
    /// The header does not start with `YUV4MPEG2`.
    Signature,
    /// The width is no number of 32 bits.
    Width,
    /// The height is no number of 32 bits.
    Height,
    /// The frame rate is no pair of numbers of 32 bits.
    FrameRate,
    /// The samples are not 8-bit 4:2:0; the text names what they are.
    Chroma(Vec<char>),
    /// There is no width.
    NoWidth,
    /// There is no height.
    NoHeight,
    /// 4:2:0 dimensions must be even.
    OddDimensions,
    /// A frame should start at this position.
    ExpectedFrame(usize),
    /// A frame header has no end.
    TruncatedFrameHeader,
    /// A frame has too few samples.
    TruncatedFrame,
}

/// Why bytes are no Y4M clip.
pub enum Y4mFault {
    MissingHeader,
    Utf8,
    Signature,
    Width,
    Height,
    FrameRate,
    Chroma(Seq<char>),
    NoWidth,
    NoHeight,
    OddDimensions,
    ExpectedFrame(int),
    TruncatedFrameHeader,
    TruncatedFrame,
}

impl Y4mError {
    pub open spec fn fault(self) -> Y4mFault {
        match self {
            Y4mError::MissingHeader => Y4mFault::MissingHeader,
            Y4mError::Utf8 => Y4mFault::Utf8,
            Y4mError::Signature => Y4mFault::Signature,
            Y4mError::Width => Y4mFault::Width,
            Y4mError::Height => Y4mFault::Height,
            Y4mError::FrameRate => Y4mFault::FrameRate,
            Y4mError::Chroma(name) => Y4mFault::Chroma(name@),
            Y4mError::NoWidth => Y4mFault::NoWidth,
            Y4mError::NoHeight => Y4mFault::NoHeight,
            Y4mError::OddDimensions => Y4mFault::OddDimensions,
            Y4mError::ExpectedFrame(at) => Y4mFault::ExpectedFrame(at as int),
            Y4mError::TruncatedFrameHeader => Y4mFault::TruncatedFrameHeader,
            Y4mError::TruncatedFrame => Y4mFault::TruncatedFrame,
        }
    }
}

// ---------------------------------------------------------------------------------------------
// Header

/// What the words of a header have said so far.
#[verifier::ext_equal]
pub struct HeaderModel {
    pub width: Option<u32>,
    pub height: Option<u32>,
    pub fps_n: u32,
    pub fps_d: u32,
    pub chroma: Seq<char>,
    pub meta: VideoMeta,
}

/// Metadata that says nothing.
pub open spec fn plain_meta() -> VideoMeta {
    VideoMeta {
        matrix: ColorMatrix::Unspecified,
        transfer: ColorTransfer::Unspecified,
        primaries: ColorPrimaries::Unspecified,
        full_range: false,
        chroma: ChromaLocation::Unspecified,
    }
}

pub open spec fn fresh_header() -> HeaderModel {
    HeaderModel {
        width: None,
        height: None,
        fps_n: 30,
        fps_d: 1,
        chroma: "420"@,
        meta: plain_meta(),
    }
}

/// The first colon from `i` on, or the end.
pub open spec fn colon(s: Seq<char>, i: int) -> int
    decreases s.len() - i,
{
    if 0 <= i < s.len() && s[i] != ':' {
        colon(s, i + 1)
    } else {
        i
    }
}

/// The frame rate that text spells: a number, or two with a colon between them.
pub open spec fn rate(s: Seq<char>) -> Option<(u32, u32)> {
    let a = colon(s, 0);
    match text::number(s.take(a)) {
        None => None,
        Some(n) => if a >= s.len() {
            Some((n, 1))
        } else {
            match text::number(s.subrange(a + 1, colon(s, a + 1))) {
                None => None,
                Some(d) => Some((n, d)),
            }
        },
    }
}

/// Where chroma samples lie, by the name of the format.
pub open spec fn location(name: Seq<char>) -> ChromaLocation {
    if text::begins(name, "420mpeg2"@) {
        ChromaLocation::Left
    } else if text::begins(name, "420jpeg"@) || text::begins(
        name,
        "420paldv"@,
    ) {
        ChromaLocation::Center
    } else {
        ChromaLocation::Unspecified
    }
}

/// `FULL`, in capitals or not.
pub open spec fn is_full(s: Seq<char>) -> bool {
    &&& s.len() == 4
    &&& s[0] == 'F' || s[0] == 'f'
    &&& s[1] == 'U' || s[1] == 'u'
    &&& s[2] == 'L' || s[2] == 'l'
    &&& s[3] == 'L' || s[3] == 'l'
}

impl HeaderModel {
    /// With one more word.
    pub open spec fn told(self, word: Seq<char>) -> Result<HeaderModel, Y4mFault> {
        let rest = word.skip(1);
        if word.len() == 0 {
            Ok(self)
        } else if word[0] == 'W' {
            match text::number(rest) {
                None => Err(Y4mFault::Width),
                Some(v) => Ok(HeaderModel { width: Some(v), ..self }),
            }
        } else if word[0] == 'H' {
            match text::number(rest) {
                None => Err(Y4mFault::Height),
                Some(v) => Ok(HeaderModel { height: Some(v), ..self }),
            }
        } else if word[0] == 'F' {
            match rate(rest) {
                None => Err(Y4mFault::FrameRate),
                Some((n, d)) => Ok(HeaderModel { fps_n: n, fps_d: d, ..self }),
            }
        } else if word[0] == 'C' {
            Ok(
                HeaderModel {
                    chroma: rest,
                    meta: VideoMeta { chroma: location(rest), ..self.meta },
                    ..self
                },
            )
        } else if text::begins(word, "XCOLORRANGE="@) {
            Ok(
                HeaderModel {
                    meta: VideoMeta { full_range: is_full(word.skip(12)), ..self.meta },
                    ..self
                },
            )
        } else {
            Ok(self)
        }
    }

    /// With the words from `i` on.
    pub open spec fn heard(self, list: Seq<Seq<char>>, i: int) -> Result<HeaderModel, Y4mFault>
        decreases list.len() - i,
    {
        if i < 0 || i >= list.len() {
            Ok(self)
        } else {
            match self.told(list[i]) {
                Err(e) => Err(e),
                Ok(next) => next.heard(list, i + 1),
            }
        }
    }

    /// The dimensions, if the header is complete and in order.
    pub open spec fn dimensions(self) -> Result<(u32, u32), Y4mFault> {
        if !text::begins(self.chroma, "420"@) {
            Err(Y4mFault::Chroma(self.chroma))
        } else if self.width is None {
            Err(Y4mFault::NoWidth)
        } else if self.height is None {
            Err(Y4mFault::NoHeight)
        } else if self.width->0 % 2 != 0 || self.height->0 % 2 != 0 {
            Err(Y4mFault::OddDimensions)
        } else {
            Ok((self.width->0, self.height->0))
        }
    }
}

/// What a header line says.
pub open spec fn header_of(line: Seq<u8>) -> Result<HeaderModel, Y4mFault> {
    if !vstd::utf8::valid_utf8(line) {
        Err(Y4mFault::Utf8)
    } else {
        let chars = vstd::utf8::decode_utf8(line);
        if !text::begins(chars, "YUV4MPEG2 "@) {
            Err(Y4mFault::Signature)
        } else {
            fresh_header().heard(text::words(chars, 0), 1)
        }
    }
}

/// What the words of a header have said so far.
pub struct Header {
    pub width: Option<u32>,
    pub height: Option<u32>,
    pub fps_n: u32,
    pub fps_d: u32,
    pub chroma: Vec<char>,
    pub meta: VideoMeta,
}

/// Finds the first colon from `from` on.
fn find_colon(s: &Vec<char>, from: usize) -> (r: usize)
    requires
        from <= s@.len(),
    ensures
        r == colon(s@, from as int),
        from <= r <= s@.len(),
{
    let mut i: usize = from;
    while i < s.len() && s[i] != ':'
        invariant
            from <= i <= s@.len(),
            colon(s@, from as int) == colon(s@, i as int),
        decreases s@.len() - i,
    {
        i = i + 1;
    }
    i
}

fn parse_rate(s: &Vec<char>) -> (r: Option<(u32, u32)>)
    ensures
        r == rate(s@),
{
    let a: usize = find_colon(s, 0);
    let first: Vec<char> = part(s, 0, a);
    assert(first@ =~= s@.take(a as int));
    let n: u32 = match parse_number(&first) {
        Some(n) => n,
        None => {
            return None;
        },
    };
    if a >= s.len() {
        return Some((n, 1));
    }
    let e: usize = find_colon(s, a + 1);
    match parse_number(&part(s, a + 1, e)) {
        Some(d) => Some((n, d)),
        None => None,
    }
}

fn chroma_location(name: &Vec<char>) -> (r: ChromaLocation)
    ensures
        r == location(name@),
{
    if starts_with(name, "420mpeg2") {
        ChromaLocation::Left
    } else if starts_with(name, "420jpeg") || starts_with(name, "420paldv") {
        ChromaLocation::Center
    } else {
        ChromaLocation::Unspecified
    }
}

fn full(s: &Vec<char>) -> (r: bool)
    ensures
        r == is_full(s@),
{
    s.len() == 4 && (s[0] == 'F' || s[0] == 'f') && (s[1] == 'U' || s[1] == 'u') && (s[2] == 'L'
        || s[2] == 'l') && (s[3] == 'L' || s[3] == 'l')
}

impl Header {
    pub open spec fn model(&self) -> HeaderModel {
        HeaderModel {
            width: self.width,
            height: self.height,
            fps_n: self.fps_n,
            fps_d: self.fps_d,
            chroma: self.chroma@,
            meta: self.meta,
        }
    }

    /// Takes one more word.
    fn tell(&mut self, word: &Vec<char>) -> (r: Result<(), Y4mError>)
        ensures
            match r {
                Ok(()) => old(self).model().told(word@) == Ok::<HeaderModel, Y4mFault>(
                    final(self).model(),
                ),
                Err(e) => old(self).model().told(word@) == Err::<HeaderModel, Y4mFault>(e.fault()),
            },
    {
        if word.len() == 0 {
            return Ok(());
        }
        let rest: Vec<char> = part(word, 1, word.len());
        assert(rest@ =~= word@.skip(1));
        let first: char = word[0];
        if first == 'W' {
            match parse_number(&rest) {
                Some(v) => {
                    self.width = Some(v);
                },
                None => {
                    return Err(Y4mError::Width);
                },
            }
        } else if first == 'H' {
            match parse_number(&rest) {
                Some(v) => {
                    self.height = Some(v);
                },
                None => {
                    return Err(Y4mError::Height);
                },
            }
        } else if first == 'F' {
            match parse_rate(&rest) {
                Some((n, d)) => {
                    self.fps_n = n;
                    self.fps_d = d;
                },
                None => {
                    return Err(Y4mError::FrameRate);
                },
            }
        } else if first == 'C' {
            self.meta.chroma = chroma_location(&rest);
            self.chroma = rest;
        } else if starts_with(word, "XCOLORRANGE=") {
            proof {
                reveal_strlit("XCOLORRANGE=");
            }
            let value: Vec<char> = part(word, 12, word.len());
            assert(value@ =~= word@.skip(12));
            self.meta.full_range = full(&value);
        }
        Ok(())
    }

    /// The dimensions, if the header is complete and in order.
    fn size(self) -> (r: Result<(u32, u32), Y4mError>)
        ensures
            match r {
                Ok(size) => self.model().dimensions() == Ok::<(u32, u32), Y4mFault>(size),
                Err(e) => self.model().dimensions() == Err::<(u32, u32), Y4mFault>(e.fault()),
            },
    {
        if !starts_with(&self.chroma, "420") {
            return Err(Y4mError::Chroma(self.chroma));
        }
        let w: u32 = match self.width {
            Some(w) => w,
            None => {
                return Err(Y4mError::NoWidth);
            },
        };
        let h: u32 = match self.height {
            Some(h) => h,
            None => {
                return Err(Y4mError::NoHeight);
            },
        };
        if w % 2 != 0 || h % 2 != 0 {
            return Err(Y4mError::OddDimensions);
        }
        Ok((w, h))
    }
}

/// Reads a header line.
fn parse_header(line: &[u8]) -> (r: Result<Header, Y4mError>)
    ensures
        match r {
            Ok(header) => header_of(line@) == Ok::<HeaderModel, Y4mFault>(header.model()),
            Err(e) => header_of(line@) == Err::<HeaderModel, Y4mFault>(e.fault()),
        },
{
    let chars: Vec<char> = match characters(line) {
        Some(chars) => chars,
        None => {
            return Err(Y4mError::Utf8);
        },
    };
    if !starts_with(&chars, "YUV4MPEG2 ") {
        return Err(Y4mError::Signature);
    }
    let list: Vec<Vec<char>> = split_words(&chars);
    let ghost all = text::texts(list@);
    let mut header: Header = Header {
        width: None,
        height: None,
        fps_n: 30,
        fps_d: 1,
        chroma: spelled_out("420"),
        meta: VideoMeta {
            matrix: ColorMatrix::Unspecified,
            transfer: ColorTransfer::Unspecified,
            primaries: ColorPrimaries::Unspecified,
            full_range: false,
            chroma: ChromaLocation::Unspecified,
        },
    };
    assert(header.model() =~= fresh_header());
    let ghost want = fresh_header().heard(all, 1);
    let mut i: usize = 1;
    while i < list.len()
        invariant
            1 <= i,
            all == text::texts(list@),
            all == text::words(chars@, 0),
            vstd::utf8::valid_utf8(line@),
            chars@ == vstd::utf8::decode_utf8(line@),
            text::begins(chars@, "YUV4MPEG2 "@),
            want == fresh_header().heard(all, 1),
            want == header.model().heard(all, i as int),
        decreases list@.len() - i,
    {
        assert(all[i as int] == list@[i as int]@);
        match header.tell(&list[i]) {
            Ok(()) => {},
            Err(e) => {
                return Err(e);
            },
        }
        i = i + 1;
    }
    Ok(header)
}

// ---------------------------------------------------------------------------------------------
// Frames

/// The first newline from `p` on, or the end.
pub open spec fn line_end(b: Seq<u8>, p: int) -> int
    decreases b.len() - p,
{
    if 0 <= p < b.len() && b[p] != 10 {
        line_end(b, p + 1)
    } else {
        p
    }
}

/// `FRAME`.
pub open spec fn frame_tag() -> Seq<u8> {
    seq![70, 82, 65, 77, 69]
}

/// The picture whose samples start at `p`.
pub open spec fn picture_at(b: Seq<u8>, p: int, w: int, h: int) -> Picture {
    let y = w * h;
    let c = w * h / 4;
    Picture {
        width: w,
        height: h,
        y: b.subrange(p, p + y),
        u: b.subrange(p + y, p + y + c),
        v: b.subrange(p + y + c, p + y + 2 * c),
    }
}

/// The frames from `p` on.
pub open spec fn frames_at(b: Seq<u8>, p: int, w: int, h: int) -> Result<Seq<Picture>, Y4mFault>
    decreases b.len() - p,
    when 0 <= p && 0 <= w && 0 <= h
    via frames_decreases
{
    if p >= b.len() {
        Ok(Seq::empty())
    } else if p + 5 > b.len() || b.subrange(p, p + 5) != frame_tag() {
        Err(Y4mFault::ExpectedFrame(p))
    } else if line_end(b, p) >= b.len() {
        Err(Y4mFault::TruncatedFrameHeader)
    } else {
        let start = line_end(b, p) + 1;
        let end = start + w * h + 2 * (w * h / 4);
        if b.len() < end {
            Err(Y4mFault::TruncatedFrame)
        } else {
            match frames_at(b, end, w, h) {
                Err(e) => Err(e),
                Ok(rest) => Ok(seq![picture_at(b, start, w, h)] + rest),
            }
        }
    }
}

#[via_fn]
proof fn frames_decreases(b: Seq<u8>, p: int, w: int, h: int) {
    lemma_line_end(b, p);
    lemma_area(w, h);
}

pub proof fn lemma_area(w: int, h: int)
    requires
        0 <= w,
        0 <= h,
    ensures
        0 <= w * h,
{
    assert(0 <= w * h) by (nonlinear_arith)
        requires
            0 <= w,
            0 <= h,
    ;
}

pub proof fn lemma_line_end(b: Seq<u8>, p: int)
    requires
        0 <= p,
    ensures
        p <= line_end(b, p),
        p <= b.len() ==> line_end(b, p) <= b.len(),
    decreases b.len() - p,
{
    if p < b.len() {
        lemma_line_end(b, p + 1);
    }
}

/// The clip that bytes hold, or why they hold none.
pub open spec fn parsed(b: Seq<u8>) -> Result<ClipModel, Y4mFault> {
    let nl = line_end(b, 0);
    if nl >= b.len() {
        Err(Y4mFault::MissingHeader)
    } else {
        match header_of(b.take(nl)) {
            Err(e) => Err(e),
            Ok(header) => match header.dimensions() {
                Err(e) => Err(e),
                Ok((w, h)) => match frames_at(b, nl + 1, w as int, h as int) {
                    Err(e) => Err(e),
                    Ok(frames) => Ok(
                        ClipModel {
                            width: w,
                            height: h,
                            fps_n: header.fps_n,
                            fps_d: header.fps_d,
                            meta0: header.meta.packed() as u32,
                            frames,
                        },
                    ),
                },
            },
        }
    }
}

/// Finds the first newline from `from` on.
fn find_line_end(b: &[u8], from: usize) -> (r: usize)
    requires
        from <= b@.len(),
    ensures
        r == line_end(b@, from as int),
        from <= r <= b@.len(),
{
    let mut i: usize = from;
    while i < b.len() && b[i] != 10
        invariant
            from <= i <= b@.len(),
            line_end(b@, from as int) == line_end(b@, i as int),
        decreases b@.len() - i,
    {
        i = i + 1;
    }
    i
}

/// Copies the bytes from `a` to `e`.
fn copied(b: &[u8], a: usize, e: usize) -> (r: Vec<u8>)
    requires
        a <= e <= b@.len(),
    ensures
        r@ == b@.subrange(a as int, e as int),
{
    let mut r: Vec<u8> = Vec::new();
    bytes::put_slice(&b[a..e], &mut r);
    assert(r@ =~= b@.subrange(a as int, e as int));
    r
}

/// Whether a frame header starts at `p`.
fn has_frame_tag(b: &[u8], p: usize) -> (r: bool)
    requires
        p <= b@.len(),
    ensures
        r == (p + 5 <= b@.len() && b@.subrange(p as int, p + 5) == frame_tag()),
{
    if b.len() - p < 5 {
        return false;
    }
    let r: bool = b[p] == 70 && b[p + 1] == 82 && b[p + 2] == 65 && b[p + 3] == 77 && b[p + 4] == 69;
    proof {
        let s = b@.subrange(p as int, p + 5);
        if r {
            assert(s =~= frame_tag());
        } else {
            assert(s[0] != 70 || s[1] != 82 || s[2] != 65 || s[3] != 77 || s[4] != 69);
        }
    }
    r
}

/// Reads the frames from `from` on.
fn parse_frames(b: &[u8], from: usize, w: u32, h: u32) -> (r: Result<Vec<Frame420>, Y4mError>)
    requires
        from <= b@.len(),
    ensures
        match r {
            Ok(frames) => frames_at(b@, from as int, w as int, h as int) == Ok::<
                Seq<Picture>,
                Y4mFault,
            >(media::pictures(frames@)),
            Err(e) => frames_at(b@, from as int, w as int, h as int) == Err::<
                Seq<Picture>,
                Y4mFault,
            >(e.fault()),
        },
{
    let ghost want = frames_at(b@, from as int, w as int, h as int);
    let mut frames: Vec<Frame420> = Vec::new();
    let mut p: usize = from;
    proof {
        assert(0 <= w * h <= 0xffff_ffff * 0xffff_ffff) by (nonlinear_arith)
            requires
                0 <= w <= 0xffff_ffff,
                0 <= h <= 0xffff_ffff,
        ;
        if let Ok(all) = want {
            assert(media::pictures(frames@) + all =~= all);
        }
    }
    let luma: u64 = w as u64 * h as u64;
    let chroma: u64 = luma / 4;
    while p < b.len()
        invariant
            from <= p <= b@.len(),
            want == frames_at(b@, from as int, w as int, h as int),
            luma == w * h,
            chroma == w * h / 4,
            match frames_at(b@, p as int, w as int, h as int) {
                Ok(rest) => want == Ok::<Seq<Picture>, Y4mFault>(media::pictures(frames@) + rest),
                Err(e) => want == Err::<Seq<Picture>, Y4mFault>(e),
            },
        decreases b@.len() - p,
    {
        if !has_frame_tag(b, p) {
            return Err(Y4mError::ExpectedFrame(p));
        }
        let nl: usize = find_line_end(b, p);
        if nl >= b.len() {
            return Err(Y4mError::TruncatedFrameHeader);
        }
        let start: usize = nl + 1;
        if ((b.len() - start) as u128) < luma as u128 + 2 * chroma as u128 {
            return Err(Y4mError::TruncatedFrame);
        }
        let (l, c): (usize, usize) = (luma as usize, chroma as usize);
        let frame: Frame420 = Frame420 {
            width: w,
            height: h,
            y: copied(b, start, start + l),
            u: copied(b, start + l, start + l + c),
            v: copied(b, start + l + c, start + l + 2 * c),
        };
        let ghost before = media::pictures(frames@);
        let ghost shown = frame.picture();
        let ghost end = start + l + 2 * c;
        frames.push(frame);
        proof {
            assert(shown == picture_at(b@, start as int, w as int, h as int));
            assert(media::pictures(frames@) =~= before.push(shown));
            if let Ok(rest) = frames_at(b@, end, w as int, h as int) {
                assert(before + (seq![shown] + rest) =~= media::pictures(frames@) + rest);
            }
        }
        p = start + l + 2 * c;
    }
    assert(media::pictures(frames@) + Seq::<Picture>::empty() =~= media::pictures(frames@));
    Ok(frames)
}

/// Reads a clip from Y4M.
pub fn parse_y4m(b: &[u8]) -> (r: Result<Clip, Y4mError>)
    ensures
        match r {
            Ok(clip) => parsed(b@) == Ok::<ClipModel, Y4mFault>(clip.model()),
            Err(e) => parsed(b@) == Err::<ClipModel, Y4mFault>(e.fault()),
        },
{
    let nl: usize = find_line_end(b, 0);
    if nl >= b.len() {
        return Err(Y4mError::MissingHeader);
    }
    let line: &[u8] = &b[0..nl];
    assert(line@ =~= b@.take(nl as int));
    let header: Header = match parse_header(line) {
        Ok(header) => header,
        Err(e) => {
            return Err(e);
        },
    };
    let (fps_n, fps_d): (u32, u32) = (header.fps_n, header.fps_d);
    let meta: VideoMeta = header.meta;
    let (w, h): (u32, u32) = match header.size() {
        Ok(size) => size,
        Err(e) => {
            return Err(e);
        },
    };
    let frames: Vec<Frame420> = match parse_frames(b, nl + 1, w, h) {
        Ok(frames) => frames,
        Err(e) => {
            return Err(e);
        },
    };
    Ok(Clip { width: w, height: h, fps_n, fps_d, meta0: meta.pack(), frames })
}

// ---------------------------------------------------------------------------------------------
// Writing

/// The decimal digits of a number.
pub open spec fn decimal(n: int) -> Seq<u8>
    decreases n,
{
    if n < 10 {
        seq![(48 + n) as u8]
    } else {
        decimal(n / 10).push((48 + n % 10) as u8)
    }
}

/// Appends a number in decimal.
fn put_decimal(n: u32, out: &mut Vec<u8>)
    ensures
        final(out)@ == old(out)@ + decimal(n as int),
    decreases n,
{
    if n >= 10 {
        put_decimal(n / 10, out);
    }
    out.push((48 + n % 10) as u8);
    assert(out@ =~= old(out)@ + decimal(n as int));
}

/// The metadata that a word stands for; plain metadata where there is none.
pub open spec fn meta_of(v: u32) -> VideoMeta {
    if v1::meta_ok(v as int) {
        choose|m: VideoMeta| #[trigger] m.packed() == v
    } else {
        plain_meta()
    }
}

/// Unpacks metadata.
pub fn unpack_meta(v: u32) -> (r: VideoMeta)
    ensures
        r == meta_of(v),
{
    match VideoMeta::unpack(v) {
        Ok(m) => {
            proof {
                let chosen = choose|m: VideoMeta| #[trigger] m.packed() == v;
                m.law_pack_injective(chosen);
            }
            m
        },
        Err(_) => VideoMeta {
            matrix: ColorMatrix::Unspecified,
            transfer: ColorTransfer::Unspecified,
            primaries: ColorPrimaries::Unspecified,
            full_range: false,
            chroma: ChromaLocation::Unspecified,
        },
    }
}

/// The header line of a clip.
pub open spec fn header_line(clip: ClipModel) -> Seq<u8> {
    let meta = meta_of(clip.meta0);
    // YUV4MPEG2 W
    seq![89u8, 85, 86, 52, 77, 80, 69, 71, 50, 32, 87] + decimal(clip.width as int)
    // _H
     + seq![32u8, 72] + decimal(clip.height as int)
    // _F
     + seq![32u8, 70] + decimal(clip.fps_n as int) + seq![58u8] + decimal(clip.fps_d as int)
    // _Ip A1:1 C420
     + seq![32u8, 73, 112, 32, 65, 49, 58, 49, 32, 67, 52, 50, 48] + (if meta.chroma
        == ChromaLocation::Left {
        // mpeg2
        seq![109u8, 112, 101, 103, 50]
    } else {
        // jpeg
        seq![106u8, 112, 101, 103]
    })
    // _XCOLORRANGE=
     + seq![32u8, 88, 67, 79, 76, 79, 82, 82, 65, 78, 71, 69, 61] + (if meta.full_range {
        // FULL
        seq![70u8, 85, 76, 76]
    } else {
        // LIMITED
        seq![76u8, 73, 77, 73, 84, 69, 68]
    })
}

/// The first `k` frames of a clip, each with its header.
pub open spec fn frame_bytes(frames: Seq<Picture>, k: int) -> Seq<u8>
    decreases k,
{
    if k <= 0 {
        Seq::empty()
    } else {
        frame_bytes(frames, k - 1) + (frame_tag().push(10) + frames[k - 1].y + frames[k - 1].u
            + frames[k - 1].v)
    }
}

/// A clip as Y4M.
pub open spec fn emitted(clip: ClipModel) -> Seq<u8> {
    header_line(clip).push(10) + frame_bytes(clip.frames, clip.frames.len() as int)
}

/// Appends the header line of a clip.
fn put_header(clip: &Clip, out: &mut Vec<u8>)
    requires
        old(out)@.len() == 0,
    ensures
        final(out)@ == header_line(clip.model()),
{
    let meta: VideoMeta = unpack_meta(clip.meta0);
    bytes::put_slice(&vec![89u8, 85, 86, 52, 77, 80, 69, 71, 50, 32, 87], out);
    put_decimal(clip.width, out);
    bytes::put_slice(&vec![32u8, 72], out);
    put_decimal(clip.height, out);
    bytes::put_slice(&vec![32u8, 70], out);
    put_decimal(clip.fps_n, out);
    bytes::put_slice(&vec![58u8], out);
    put_decimal(clip.fps_d, out);
    bytes::put_slice(&vec![32u8, 73, 112, 32, 65, 49, 58, 49, 32, 67, 52, 50, 48], out);
    if meta.chroma == ChromaLocation::Left {
        bytes::put_slice(&vec![109u8, 112, 101, 103, 50], out);
    } else {
        bytes::put_slice(&vec![106u8, 112, 101, 103], out);
    }
    bytes::put_slice(&vec![32u8, 88, 67, 79, 76, 79, 82, 82, 65, 78, 71, 69, 61], out);
    if meta.full_range {
        bytes::put_slice(&vec![70u8, 85, 76, 76], out);
    } else {
        bytes::put_slice(&vec![76u8, 73, 77, 73, 84, 69, 68], out);
    }
    assert(out@ =~= header_line(clip.model()));
}

/// Writes a clip as Y4M.
pub fn emit_y4m(clip: &Clip) -> (r: Vec<u8>)
    ensures
        r@ == emitted(clip.model()),
{
    let mut out: Vec<u8> = Vec::new();
    put_header(clip, &mut out);
    out.push(10);
    let ghost head = out@;
    let ghost all = clip.model().frames;
    let tag: Vec<u8> = vec![70, 82, 65, 77, 69, 10];
    assert(tag@ =~= frame_tag().push(10));
    let mut k: usize = 0;
    assert(out@ =~= head + frame_bytes(all, 0));
    while k < clip.frames.len()
        invariant
            k <= clip.frames@.len(),
            all == clip.model().frames,
            tag@ == frame_tag().push(10),
            out@ == head + frame_bytes(all, k as int),
        decreases clip.frames@.len() - k,
    {
        let frame: &Frame420 = &clip.frames[k];
        bytes::put_slice(&tag, &mut out);
        bytes::put_slice(&frame.y, &mut out);
        bytes::put_slice(&frame.u, &mut out);
        bytes::put_slice(&frame.v, &mut out);
        proof {
            assert(all[k as int] == frame.picture());
            assert(out@ =~= head + frame_bytes(all, k + 1));
        }
        k = k + 1;
    }
    out
}

} // verus!
