//! What Y4M keeps of a clip.
use crate::container::v1::{ChromaLocation, VideoMeta};
use crate::media::scene;
use crate::media::text;
use crate::media::y4m;
use crate::media::y4m::{HeaderModel, Y4mFault};
use crate::media::ClipModel;
use crate::video::v1::syntax::Picture;
use vstd::prelude::*;

verus! {

/// Every frame has the clip's dimensions and as many samples as these ask for.
pub open spec fn uniform(clip: ClipModel) -> bool {
    forall|i: int|
        0 <= i < clip.frames.len() ==> {
            &&& (#[trigger] clip.frames[i]).width == clip.width
            &&& clip.frames[i].height == clip.height
            &&& clip.frames[i].sized()
        }
}

// ---------------------------------------------------------------------------------------------
// Clips that were read

proof fn lemma_frames_uniform(b: Seq<u8>, p: int, w: int, h: int)
    requires
        0 <= p,
        0 <= w,
        0 <= h,
        y4m::frames_at(b, p, w, h) is Ok,
    ensures
        forall|i: int|
            0 <= i < y4m::frames_at(b, p, w, h)->Ok_0.len() ==> {
                let frame = #[trigger] y4m::frames_at(b, p, w, h)->Ok_0[i];
                frame.width == w && frame.height == h && frame.sized()
            },
    decreases b.len() - p,
{
    if p < b.len() {
        y4m::lemma_line_end(b, p);
        y4m::lemma_area(w, h);
        let start = y4m::line_end(b, p) + 1;
        let end = start + w * h + 2 * (w * h / 4);
        lemma_frames_uniform(b, end, w, h);
        let rest = y4m::frames_at(b, end, w, h)->Ok_0;
        let all = y4m::frames_at(b, p, w, h)->Ok_0;
        assert(all == seq![y4m::picture_at(b, start, w, h)] + rest);
        assert forall|i: int| 0 <= i < all.len() implies {
            let frame = #[trigger] all[i];
            frame.width == w && frame.height == h && frame.sized()
        } by {
            if i > 0 {
                assert(all[i] == rest[i - 1]);
            }
        }
    }
}

/// A clip that was read from Y4M has even dimensions, and all its frames have them: the clip can be
/// divided into epochs.
pub proof fn law_parsed_uniform(b: Seq<u8>)
    requires
        y4m::parsed(b) is Ok,
    ensures
        ({
            let clip = y4m::parsed(b)->Ok_0;
            &&& clip.width % 2 == 0
            &&& clip.height % 2 == 0
            &&& uniform(clip)
            &&& scene::comparable(clip.frames)
        }),
{
    let nl = y4m::line_end(b, 0);
    let clip = y4m::parsed(b)->Ok_0;
    y4m::lemma_line_end(b, 0);
    lemma_frames_uniform(b, nl + 1, clip.width as int, clip.height as int);
    assert forall|i: int| 0 < i < clip.frames.len() implies clip.frames[i - 1].y.len() <= (
    #[trigger] clip.frames[i]).y.len() by {
        assert(clip.frames[i - 1].sized());
        assert(clip.frames[i].sized());
    }
}

// ---------------------------------------------------------------------------------------------
// Words

/// Bytes as characters.
pub open spec fn letters(b: Seq<u8>) -> Seq<char> {
    Seq::new(b.len(), |i: int| b[i] as char)
}

/// Visible ASCII, without spaces.
pub open spec fn visible(b: Seq<u8>) -> bool {
    forall|i: int| 0 <= i < b.len() ==> 32 < #[trigger] b[i] < 127
}

/// Words with a space between each two, from word `i` on.
pub open spec fn line(list: Seq<Seq<u8>>, i: int) -> Seq<u8>
    decreases list.len() - i,
{
    if i < 0 || i >= list.len() {
        Seq::empty()
    } else if i + 1 == list.len() {
        list[i]
    } else {
        list[i] + (seq![32u8] + line(list, i + 1))
    }
}

/// Words that a line keeps apart.
pub open spec fn separable(list: Seq<Seq<u8>>) -> bool {
    forall|i: int| 0 <= i < list.len() ==> (#[trigger] list[i]).len() > 0 && visible(list[i])
}

proof fn lemma_ascii(b: Seq<u8>)
    requires
        forall|i: int| 0 <= i < b.len() ==> #[trigger] b[i] < 128,
    ensures
        vstd::utf8::valid_utf8(b),
        vstd::utf8::decode_utf8(b) == letters(b),
{
    let s = letters(b);
    assert(vstd::utf8::is_ascii_chars(s)) by {
        assert forall|i: int| 0 <= i < s.len() implies '\0' <= #[trigger] s[i] <= '\u{7f}' by {
            assert(b[i] < 128);
        }
    }
    vstd::utf8::is_ascii_chars_encode_utf8(s);
    assert(vstd::utf8::encode_utf8(s) =~= b) by {
        assert forall|i: int| 0 <= i < b.len() implies vstd::utf8::encode_utf8(s)[i] == b[i] by {
            assert(s[i] as u8 == vstd::utf8::encode_utf8(s)[i]);
            assert(s[i] == b[i] as char);
        }
    }
    vstd::utf8::encode_utf8_valid_utf8(s);
    vstd::utf8::encode_utf8_decode_utf8(s);
}

proof fn lemma_line_bytes(list: Seq<Seq<u8>>, i: int)
    requires
        separable(list),
        0 <= i,
    ensures
        forall|j: int| 0 <= j < line(list, i).len() ==> 32 <= #[trigger] line(list, i)[j] < 127,
        i < list.len() ==> line(list, i).len() > 0 && line(list, i)[0] == list[i][0],
    decreases list.len() - i,
{
    if i < list.len() {
        assert(visible(list[i]));
        lemma_line_bytes(list, i + 1);
    }
}

proof fn lemma_shift_ends(a: Seq<char>, b: Seq<char>, i: int)
    requires
        0 <= i,
    ensures
        text::word_start(a + b, a.len() + i) == a.len() + text::word_start(b, i),
        text::word_end(a + b, a.len() + i) == a.len() + text::word_end(b, i),
    decreases b.len() - i,
{
    if i < b.len() {
        assert((a + b)[a.len() + i] == b[i]);
        lemma_shift_ends(a, b, i + 1);
    }
}

/// The words behind some text are those of the text behind it.
proof fn lemma_shift_words(a: Seq<char>, b: Seq<char>, i: int)
    requires
        0 <= i <= b.len(),
    ensures
        text::words(a + b, a.len() + i) == text::words(b, i),
    decreases b.len() - i,
{
    lemma_shift_ends(a, b, i);
    text::lemma_word_bounds(b, i);
    let from = text::word_start(b, i);
    if from < b.len() {
        lemma_shift_ends(a, b, from);
        text::lemma_word_bounds(b, from);
        text::lemma_word_bounds(b, from + 1);
        let end = text::word_end(b, from);
        lemma_shift_words(a, b, end);
        assert((a + b).subrange(a.len() + from, a.len() + end) =~= b.subrange(from, end));
    }
}

proof fn lemma_word_runs(s: Seq<char>, n: int, i: int)
    requires
        0 <= i <= n <= s.len(),
        forall|j: int| 0 <= j < n ==> !text::is_space(#[trigger] s[j]),
        n < s.len() ==> text::is_space(s[n]),
    ensures
        text::word_end(s, i) == n,
    decreases n - i,
{
    if i < n {
        lemma_word_runs(s, n, i + 1);
    }
}

/// The words of a line are those it was made of.
proof fn lemma_line_words(list: Seq<Seq<u8>>, i: int)
    requires
        separable(list),
        0 <= i < list.len(),
    ensures
        text::words(letters(line(list, i)), 0) == Seq::new(
            (list.len() - i) as nat,
            |j: int| letters(list[i + j]),
        ),
    decreases list.len() - i,
{
    let s = letters(line(list, i));
    let word = letters(list[i]);
    let n = word.len() as int;
    assert(visible(list[i]));
    assert forall|j: int| 0 <= j < n implies !text::is_space(#[trigger] s[j]) by {
        assert(s[j] == list[i][j] as char);
    }
    lemma_word_runs(s, n, 0);
    assert(s.subrange(0, n) =~= word);
    assert(text::word_start(s, 0) == 0);
    assert(text::words(s, 0) == seq![word] + text::words(s, n));
    if i + 1 < list.len() {
        let rest = letters(line(list, i + 1));
        let head = letters(list[i] + seq![32u8]);
        assert(s =~= head + rest);
        assert(text::is_space(s[n]));
        lemma_line_bytes(list, i + 1);
        lemma_shift_words(head, rest, 0);
        assert(text::words(s, n) == text::words(s, n + 1)) by {
            assert(text::word_start(s, n) == text::word_start(s, n + 1));
        }
        lemma_line_words(list, i + 1);
        assert(seq![word] + text::words(rest, 0) =~= Seq::new(
            (list.len() - i) as nat,
            |j: int| letters(list[i + j]),
        ));
    } else {
        assert(text::words(s, n) =~= Seq::empty());
        assert(seq![word] + Seq::empty() =~= Seq::new(
            (list.len() - i) as nat,
            |j: int| letters(list[i + j]),
        ));
    }
}

// ---------------------------------------------------------------------------------------------
// Numbers

proof fn lemma_decimal(n: int)
    requires
        0 <= n,
    ensures
        y4m::decimal(n).len() > 0,
        forall|i: int| 0 <= i < y4m::decimal(n).len() ==> 48 <= #[trigger] y4m::decimal(n)[i] <= 57,
        text::spelled(letters(y4m::decimal(n))) == n,
    decreases n,
{
    let s = letters(y4m::decimal(n));
    if n < 10 {
        assert(s.drop_last() =~= Seq::empty());
        assert(s.last() == (48 + n) as u8 as char);
        assert(text::spelled(s.drop_last()) == 0);
    } else {
        lemma_decimal(n / 10);
        assert(s.drop_last() =~= letters(y4m::decimal(n / 10)));
        assert(s.last() == (48 + n % 10) as u8 as char);
    }
}

/// A number is read as it was written.
pub proof fn law_number(n: u32)
    ensures
        text::number(letters(y4m::decimal(n as int))) == Some(n),
{
    lemma_decimal(n as int);
    let s = letters(y4m::decimal(n as int));
    assert forall|i: int| 0 <= i < s.len() implies text::is_digit(#[trigger] s[i]) by {
        assert(48 <= y4m::decimal(n as int)[i] <= 57);
    }
    assert(text::is_digit(s[0]));
}

proof fn lemma_colon(s: Seq<char>, n: int, i: int)
    requires
        0 <= i <= n <= s.len(),
        forall|j: int| i <= j < n ==> #[trigger] s[j] != ':',
        n < s.len() ==> s[n] == ':',
    ensures
        y4m::colon(s, i) == n,
    decreases n - i,
{
    if i < n {
        lemma_colon(s, n, i + 1);
    }
}

/// A frame rate is read as it was written.
pub proof fn law_rate(n: u32, d: u32)
    ensures
        y4m::rate(letters(y4m::decimal(n as int) + seq![58u8] + y4m::decimal(d as int))) == Some(
            (n, d),
        ),
{
    let (a, b) = (y4m::decimal(n as int), y4m::decimal(d as int));
    let s = letters(a + seq![58u8] + b);
    let k = a.len() as int;
    lemma_decimal(n as int);
    lemma_decimal(d as int);
    assert forall|j: int| 0 <= j < s.len() && j != k implies #[trigger] s[j] != ':' by {
        if j < k {
            assert(s[j] == a[j] as char);
        } else {
            assert(s[j] == b[j - k - 1] as char);
        }
    }
    assert(s[k] == ':');
    lemma_colon(s, k, 0);
    lemma_colon(s, s.len() as int, k + 1);
    assert(s.take(k) =~= letters(a));
    assert(s.subrange(k + 1, s.len() as int) =~= letters(b));
    law_number(n);
    law_number(d);
}

// ---------------------------------------------------------------------------------------------
// Headers

/// What Y4M keeps of metadata: the range, and whether chroma lies to the left.
pub open spec fn kept(meta: VideoMeta) -> VideoMeta {
    VideoMeta {
        full_range: meta.full_range,
        chroma: if meta.chroma == ChromaLocation::Left {
            ChromaLocation::Left
        } else {
            ChromaLocation::Center
        },
        ..y4m::plain_meta()
    }
}

/// `C420mpeg2` or `C420jpeg`.
pub open spec fn chroma_word(left: bool) -> Seq<u8> {
    if left {
        seq![67u8, 52, 50, 48, 109, 112, 101, 103, 50]
    } else {
        seq![67u8, 52, 50, 48, 106, 112, 101, 103]
    }
}

/// `XCOLORRANGE=FULL` or `XCOLORRANGE=LIMITED`.
pub open spec fn range_word(full: bool) -> Seq<u8> {
    seq![88u8, 67, 79, 76, 79, 82, 82, 65, 78, 71, 69, 61] + if full {
        seq![70u8, 85, 76, 76]
    } else {
        seq![76u8, 73, 77, 73, 84, 69, 68]
    }
}

/// The words of a header line.
pub open spec fn header_words(clip: ClipModel) -> Seq<Seq<u8>> {
    let meta = y4m::meta_of(clip.meta0);
    seq![
        seq![89u8, 85, 86, 52, 77, 80, 69, 71, 50],
        seq![87u8] + y4m::decimal(clip.width as int),
        seq![72u8] + y4m::decimal(clip.height as int),
        seq![70u8] + (y4m::decimal(clip.fps_n as int) + seq![58u8] + y4m::decimal(
            clip.fps_d as int,
        )),
        seq![73u8, 112],
        seq![65u8, 49, 58, 49],
        chroma_word(meta.chroma == ChromaLocation::Left),
        range_word(meta.full_range),
    ]
}

proof fn lemma_words_separable(clip: ClipModel)
    ensures
        separable(header_words(clip)),
{
    let list = header_words(clip);
    lemma_decimal(clip.width as int);
    lemma_decimal(clip.height as int);
    lemma_decimal(clip.fps_n as int);
    lemma_decimal(clip.fps_d as int);
    assert forall|i: int| 0 <= i < list.len() implies (#[trigger] list[i]).len() > 0 && visible(
        list[i],
    ) by {}
}

/// The words from the fifth on.
proof fn lemma_line_tail(clip: ClipModel)
    ensures
        ({
            let meta = y4m::meta_of(clip.meta0);
            seq![32u8, 73, 112, 32, 65, 49, 58, 49, 32, 67, 52, 50, 48] + (if meta.chroma
                == ChromaLocation::Left {
                seq![109u8, 112, 101, 103, 50]
            } else {
                seq![106u8, 112, 101, 103]
            }) + seq![32u8, 88, 67, 79, 76, 79, 82, 82, 65, 78, 71, 69, 61] + (
            if meta.full_range {
                seq![70u8, 85, 76, 76]
            } else {
                seq![76u8, 73, 77, 73, 84, 69, 68]
            }) == seq![32u8] + line(header_words(clip), 4)
        }),
{
    let list = header_words(clip);
    let sp = seq![32u8];
    let l6 = list[6] + (sp + list[7]);
    assert(line(list, 7) == list[7]);
    assert(line(list, 6) == l6);
    let l5 = list[5] + (sp + l6);
    assert(line(list, 5) == l5);
    assert(line(list, 4) == list[4] + (sp + l5));
}

/// Pieces are put together in any order.
proof fn lemma_pieces(
    w: Seq<u8>,
    h: Seq<u8>,
    n: Seq<u8>,
    d: Seq<u8>,
    tail: Seq<u8>,
)
    ensures
        ({
            let head = seq![89u8, 85, 86, 52, 77, 80, 69, 71, 50, 32, 87];
            let sp = seq![32u8];
            let l3 = seq![70u8] + (n + seq![58u8] + d) + tail;
            let l2 = (seq![72u8] + h) + (sp + l3);
            let l1 = (seq![87u8] + w) + (sp + l2);
            head + w + seq![32u8, 72] + h + seq![32u8, 70] + n + seq![58u8] + d + tail == seq![
                89u8,
                85,
                86,
                52,
                77,
                80,
                69,
                71,
                50,
            ] + (sp + l1)
        }),
{
    let sp = seq![32u8];
    let l3 = seq![70u8] + (n + seq![58u8] + d) + tail;
    let l2 = (seq![72u8] + h) + (sp + l3);
    let e3 = seq![32u8, 70] + n + seq![58u8] + d + tail;
    assert(e3 =~= sp + l3);
    let e2 = seq![32u8, 72] + h + e3;
    assert(e2 =~= sp + l2);
    let head = seq![89u8, 85, 86, 52, 77, 80, 69, 71, 50, 32, 87];
    let l1 = (seq![87u8] + w) + (sp + l2);
    assert(head + w + e2 =~= seq![89u8, 85, 86, 52, 77, 80, 69, 71, 50] + (sp + l1));
    let front = head + w + seq![32u8, 72] + h;
    assert(front + seq![32u8, 70] + n + seq![58u8] + d + tail =~= front + e3);
    assert(front + e3 =~= head + w + e2);
}

proof fn lemma_header_line(clip: ClipModel)
    ensures
        separable(header_words(clip)),
        y4m::header_line(clip) == line(header_words(clip), 0),
{
    let list = header_words(clip);
    let sp = seq![32u8];
    lemma_words_separable(clip);
    lemma_line_tail(clip);
    let (w, h) = (y4m::decimal(clip.width as int), y4m::decimal(clip.height as int));
    let (n, d) = (y4m::decimal(clip.fps_n as int), y4m::decimal(clip.fps_d as int));
    let tail = sp + line(list, 4);
    lemma_pieces(w, h, n, d, tail);
    assert(line(list, 3) == list[3] + tail);
    assert(line(list, 2) == list[2] + (sp + line(list, 3)));
    assert(line(list, 1) == list[1] + (sp + line(list, 2)));
    assert(line(list, 0) == list[0] + (sp + line(list, 1)));
    let meta = y4m::meta_of(clip.meta0);
    let front = seq![89u8, 85, 86, 52, 77, 80, 69, 71, 50, 32, 87] + w + seq![32u8, 72] + h + seq![
        32u8,
        70,
    ] + n + seq![58u8] + d;
    let x = seq![32u8, 73, 112, 32, 65, 49, 58, 49, 32, 67, 52, 50, 48];
    let c = if meta.chroma == ChromaLocation::Left {
        seq![109u8, 112, 101, 103, 50]
    } else {
        seq![106u8, 112, 101, 103]
    };
    let r = seq![32u8, 88, 67, 79, 76, 79, 82, 82, 65, 78, 71, 69, 61];
    let v = if meta.full_range {
        seq![70u8, 85, 76, 76]
    } else {
        seq![76u8, 73, 77, 73, 84, 69, 68]
    };
    lemma_regroup(front, x, c, r, v);
    assert(y4m::header_line(clip) == front + x + c + r + v);
}

proof fn lemma_regroup(a: Seq<u8>, b: Seq<u8>, c: Seq<u8>, d: Seq<u8>, e: Seq<u8>)
    ensures
        a + b + c + d + e == a + (b + c + d + e),
{
    assert(a + b + c + d + e =~= a + (b + c + d + e));
}

proof fn lemma_chroma_word(header: HeaderModel, left: bool)
    ensures
        ({
            let told = header.told(letters(chroma_word(left)));
            &&& told is Ok
            &&& text::begins(told->Ok_0.chroma, "420"@)
            &&& told->Ok_0 == HeaderModel {
                chroma: told->Ok_0.chroma,
                meta: VideoMeta {
                    chroma: if left {
                        ChromaLocation::Left
                    } else {
                        ChromaLocation::Center
                    },
                    ..header.meta
                },
                ..header
            }
        }),
{
    reveal_strlit("420");
    reveal_strlit("420mpeg2");
    reveal_strlit("420jpeg");
    let s = letters(chroma_word(left));
    let rest = s.skip(1);
    assert(rest.take(3) =~= "420"@);
    if left {
        assert(rest.take(8) =~= "420mpeg2"@);
    } else {
        assert(rest.len() == 7);
        assert(rest.take(7) =~= "420jpeg"@);
    }
}

proof fn lemma_range_word(header: HeaderModel, full: bool)
    ensures
        header.told(letters(range_word(full))) == Ok::<HeaderModel, Y4mFault>(
            HeaderModel { meta: VideoMeta { full_range: full, ..header.meta }, ..header },
        ),
{
    reveal_strlit("XCOLORRANGE=");
    let s = letters(range_word(full));
    assert(s.take(12) =~= "XCOLORRANGE="@);
    let value = s.skip(12);
    if full {
        assert(value[0] == 'F');
        assert(value[1] == 'U');
        assert(value[2] == 'L');
        assert(value[3] == 'L');
    } else {
        assert(value.len() == 7);
    }
}

proof fn lemma_number_word(header: HeaderModel, n: u32)
    ensures
        header.told(letters(seq![87u8] + y4m::decimal(n as int))) == Ok::<HeaderModel, Y4mFault>(
            HeaderModel { width: Some(n), ..header },
        ),
        header.told(letters(seq![72u8] + y4m::decimal(n as int))) == Ok::<HeaderModel, Y4mFault>(
            HeaderModel { height: Some(n), ..header },
        ),
{
    law_number(n);
    let d = letters(y4m::decimal(n as int));
    let w = letters(seq![87u8] + y4m::decimal(n as int));
    let h = letters(seq![72u8] + y4m::decimal(n as int));
    assert(w.skip(1) =~= d);
    assert(h.skip(1) =~= d);
}

proof fn lemma_rate_word(header: HeaderModel, n: u32, d: u32)
    ensures
        header.told(
            letters(seq![70u8] + (y4m::decimal(n as int) + seq![58u8] + y4m::decimal(d as int))),
        ) == Ok::<HeaderModel, Y4mFault>(HeaderModel { fps_n: n, fps_d: d, ..header }),
{
    law_rate(n, d);
    let value = y4m::decimal(n as int) + seq![58u8] + y4m::decimal(d as int);
    assert(letters(seq![70u8] + value).skip(1) =~= letters(value));
}

proof fn lemma_other_words(header: HeaderModel)
    ensures
        header.told(letters(seq![73u8, 112])) == Ok::<HeaderModel, Y4mFault>(header),
        header.told(letters(seq![65u8, 49, 58, 49])) == Ok::<HeaderModel, Y4mFault>(header),
{
    reveal_strlit("XCOLORRANGE=");
}

proof fn lemma_header_heard(clip: ClipModel, list: Seq<Seq<char>>)
    requires
        list.len() == 8,
        forall|i: int| 0 <= i < 8 ==> #[trigger] list[i] == letters(header_words(clip)[i]),
    ensures
        ({
            let heard = y4m::fresh_header().heard(list, 1);
            &&& heard is Ok
            &&& text::begins(heard->Ok_0.chroma, "420"@)
            &&& heard->Ok_0 == HeaderModel {
                width: Some(clip.width),
                height: Some(clip.height),
                fps_n: clip.fps_n,
                fps_d: clip.fps_d,
                chroma: heard->Ok_0.chroma,
                meta: kept(y4m::meta_of(clip.meta0)),
            }
        }),
{
    let meta = y4m::meta_of(clip.meta0);
    let h1 = y4m::fresh_header();
    lemma_number_word(h1, clip.width);
    let h2 = HeaderModel { width: Some(clip.width), ..h1 };
    lemma_number_word(h2, clip.height);
    let h3 = HeaderModel { height: Some(clip.height), ..h2 };
    lemma_rate_word(h3, clip.fps_n, clip.fps_d);
    let h4 = HeaderModel { fps_n: clip.fps_n, fps_d: clip.fps_d, ..h3 };
    lemma_other_words(h4);
    let left = meta.chroma == ChromaLocation::Left;
    lemma_chroma_word(h4, left);
    let h7 = h4.told(letters(chroma_word(left)))->Ok_0;
    lemma_range_word(h7, meta.full_range);
    let h8 = HeaderModel { meta: VideoMeta { full_range: meta.full_range, ..h7.meta }, ..h7 };
    assert(list[1] == letters(seq![87u8] + y4m::decimal(clip.width as int)));
    assert(list[2] == letters(seq![72u8] + y4m::decimal(clip.height as int)));
    assert(list[3] == letters(
        seq![70u8] + (y4m::decimal(clip.fps_n as int) + seq![58u8] + y4m::decimal(
            clip.fps_d as int,
        )),
    ));
    assert(list[4] == letters(seq![73u8, 112]));
    assert(list[5] == letters(seq![65u8, 49, 58, 49]));
    assert(list[6] == letters(chroma_word(left)));
    assert(list[7] == letters(range_word(meta.full_range)));
    assert(h8.heard(list, 8) == Ok::<HeaderModel, Y4mFault>(h8));
    assert(h7.heard(list, 7) == Ok::<HeaderModel, Y4mFault>(h8));
    assert(h4.heard(list, 6) == Ok::<HeaderModel, Y4mFault>(h8));
    assert(h4.heard(list, 5) == Ok::<HeaderModel, Y4mFault>(h8));
    assert(h4.heard(list, 4) == Ok::<HeaderModel, Y4mFault>(h8));
    assert(h3.heard(list, 3) == Ok::<HeaderModel, Y4mFault>(h8));
    assert(h2.heard(list, 2) == Ok::<HeaderModel, Y4mFault>(h8));
    assert(h1.heard(list, 1) == Ok::<HeaderModel, Y4mFault>(h8));
}

/// A header line is read as it was written, but for metadata that it has no words for.
pub proof fn law_header_read_back(clip: ClipModel)
    ensures
        ({
            let heard = y4m::header_of(y4m::header_line(clip));
            &&& heard is Ok
            &&& heard->Ok_0 == HeaderModel {
                width: Some(clip.width),
                height: Some(clip.height),
                fps_n: clip.fps_n,
                fps_d: clip.fps_d,
                chroma: heard->Ok_0.chroma,
                meta: kept(y4m::meta_of(clip.meta0)),
            }
            &&& text::begins(heard->Ok_0.chroma, "420"@)
        }),
{
    let list = header_words(clip);
    let b = y4m::header_line(clip);
    let s = letters(b);
    lemma_header_line(clip);
    lemma_line_bytes(list, 0);
    assert forall|i: int| 0 <= i < b.len() implies #[trigger] b[i] < 128 by {
        assert(line(list, 0)[i] < 127);
    }
    lemma_ascii(b);
    reveal_strlit("YUV4MPEG2 ");
    assert(b == list[0] + (seq![32u8] + line(list, 1)));
    assert(s.take(10) =~= "YUV4MPEG2 "@);
    lemma_line_words(list, 0);
    let words = text::words(s, 0);
    assert forall|i: int| 0 <= i < 8 implies #[trigger] words[i] == letters(list[i]) by {
        assert(words[i] == letters(list[0 + i]));
    }
    lemma_header_heard(clip, words);
}

// ---------------------------------------------------------------------------------------------
// Frames

/// The bytes of one frame, with its header.
pub open spec fn frame_unit(frame: Picture) -> Seq<u8> {
    y4m::frame_tag().push(10) + frame.y + frame.u + frame.v
}

proof fn lemma_frame_bytes(frames: Seq<Picture>, k: int, n: int)
    requires
        0 <= k < n,
    ensures
        y4m::frame_bytes(frames, k).len() + frame_unit(frames[k]).len() <= y4m::frame_bytes(
            frames,
            n,
        ).len(),
        y4m::frame_bytes(frames, n).subrange(
            y4m::frame_bytes(frames, k).len() as int,
            (y4m::frame_bytes(frames, k).len() + frame_unit(frames[k]).len()) as int,
        ) == frame_unit(frames[k]),
        y4m::frame_bytes(frames, k + 1).len() == y4m::frame_bytes(frames, k).len() + frame_unit(
            frames[k],
        ).len(),
    decreases n,
{
    let all = y4m::frame_bytes(frames, n);
    let before = y4m::frame_bytes(frames, n - 1);
    let a = y4m::frame_bytes(frames, k).len() as int;
    let e = a + frame_unit(frames[k]).len();
    assert(all == before + frame_unit(frames[n - 1]));
    assert(y4m::frame_bytes(frames, k + 1) == y4m::frame_bytes(frames, k) + frame_unit(frames[k]));
    if k < n - 1 {
        lemma_frame_bytes(frames, k, n - 1);
        assert(all.subrange(a, e) =~= before.subrange(a, e));
    } else {
        assert(all.subrange(a, e) =~= frame_unit(frames[k]));
    }
}

/// A frame is read where it stands.
proof fn lemma_frame_read(b: Seq<u8>, p: int, frame: Picture)
    requires
        0 <= p,
        0 <= frame.width,
        0 <= frame.height,
        frame.sized(),
        p + frame_unit(frame).len() <= b.len(),
        b.subrange(p, p + frame_unit(frame).len()) == frame_unit(frame),
    ensures
        b.subrange(p, p + 5) == y4m::frame_tag(),
        y4m::line_end(b, p) == p + 5,
        y4m::picture_at(b, p + 6, frame.width, frame.height) == frame,
{
    let unit = frame_unit(frame);
    let (w, h) = (frame.width, frame.height);
    y4m::lemma_area(w, h);
    assert forall|j: int| 0 <= j < unit.len() implies b[p + j] == #[trigger] unit[j] by {
        assert(b.subrange(p, p + unit.len())[j] == b[p + j]);
    }
    let tag = y4m::frame_tag();
    assert(b.subrange(p, p + 5) =~= tag) by {
        assert forall|j: int| 0 <= j < 5 implies b.subrange(p, p + 5)[j] == tag[j] by {
            assert(unit[j] == tag[j]);
        }
    }
    assert(unit[0] == 70 && unit[1] == 82 && unit[2] == 65 && unit[3] == 77 && unit[4] == 69
        && unit[5] == 10);
    assert forall|j: int| p <= j < p + 5 implies #[trigger] b[j] != 10 by {
        assert(b[p + (j - p)] == unit[j - p]);
    }
    lemma_line_found(b, p + 5, p);
    let y = w * h;
    let c = w * h / 4;
    let seen = y4m::picture_at(b, p + 6, w, h);
    assert(seen.y =~= frame.y) by {
        assert forall|j: int| 0 <= j < y implies seen.y[j] == frame.y[j] by {
            assert(unit[6 + j] == frame.y[j]);
        }
    }
    assert(seen.u =~= frame.u) by {
        assert forall|j: int| 0 <= j < c implies seen.u[j] == frame.u[j] by {
            assert(unit[6 + y + j] == frame.u[j]);
        }
    }
    assert(seen.v =~= frame.v) by {
        assert forall|j: int| 0 <= j < c implies seen.v[j] == frame.v[j] by {
            assert(unit[6 + y + c + j] == frame.v[j]);
        }
    }
}

/// One frame more is read where a frame stands before the others.
proof fn lemma_frame_more(b: Seq<u8>, p: int, frame: Picture, rest: Seq<Picture>)
    requires
        0 <= p,
        0 <= frame.width,
        0 <= frame.height,
        frame.sized(),
        p + frame_unit(frame).len() <= b.len(),
        b.subrange(p, p + frame_unit(frame).len()) == frame_unit(frame),
        y4m::frames_at(b, p + frame_unit(frame).len(), frame.width, frame.height) == Ok::<
            Seq<Picture>,
            Y4mFault,
        >(rest),
    ensures
        y4m::frames_at(b, p, frame.width, frame.height) == Ok::<Seq<Picture>, Y4mFault>(
            seq![frame] + rest,
        ),
{
    lemma_frame_read(b, p, frame);
    y4m::lemma_area(frame.width, frame.height);
    let area = frame.width * frame.height;
    assert(frame_unit(frame).len() == 6 + area + 2 * (area / 4));
}

/// The frames from frame `k` on are read where they were written.
proof fn lemma_frames_read(head: Seq<u8>, frames: Seq<Picture>, w: int, h: int, k: int)
    requires
        0 <= w,
        0 <= h,
        forall|i: int|
            0 <= i < frames.len() ==> {
                &&& (#[trigger] frames[i]).width == w
                &&& frames[i].height == h
                &&& frames[i].sized()
            },
        0 <= k <= frames.len(),
    ensures
        y4m::frames_at(
            head + y4m::frame_bytes(frames, frames.len() as int),
            (head.len() + y4m::frame_bytes(frames, k).len()) as int,
            w,
            h,
        ) == Ok::<Seq<Picture>, Y4mFault>(frames.skip(k)),
    decreases frames.len() - k,
{
    let n = frames.len() as int;
    let all = y4m::frame_bytes(frames, n);
    let b = head + all;
    let at = y4m::frame_bytes(frames, k).len() as int;
    let p = head.len() + at;
    if k == n {
        assert(p == b.len());
        assert(frames.skip(k) =~= Seq::empty());
    } else {
        let frame = frames[k];
        let size = frame_unit(frame).len();
        lemma_frame_bytes(frames, k, n);
        lemma_frames_read(head, frames, w, h, k + 1);
        assert(b.subrange(p, p + size) =~= all.subrange(at, at + size));
        lemma_frame_more(b, p, frame, frames.skip(k + 1));
        assert(seq![frame] + frames.skip(k + 1) =~= frames.skip(k));
    }
}

proof fn lemma_line_found(b: Seq<u8>, n: int, i: int)
    requires
        0 <= i <= n < b.len(),
        b[n] == 10,
        forall|j: int| i <= j < n ==> #[trigger] b[j] != 10,
    ensures
        y4m::line_end(b, i) == n,
    decreases n - i,
{
    if i < n {
        lemma_line_found(b, n, i + 1);
    }
}

/// A clip of even dimensions is read from Y4M as it was written, but for metadata that Y4M has no
/// words for.
pub proof fn law_clip_round_trip(clip: ClipModel)
    requires
        clip.width % 2 == 0,
        clip.height % 2 == 0,
        uniform(clip),
    ensures
        y4m::parsed(y4m::emitted(clip)) == Ok::<ClipModel, Y4mFault>(
            ClipModel { meta0: kept(y4m::meta_of(clip.meta0)).packed() as u32, ..clip },
        ),
{
    let b = y4m::emitted(clip);
    let head = y4m::header_line(clip);
    let n = head.len() as int;
    lemma_header_line(clip);
    lemma_line_bytes(header_words(clip), 0);
    assert forall|j: int| 0 <= j < n implies #[trigger] b[j] != 10 by {
        assert(b[j] == line(header_words(clip), 0)[j]);
    }
    assert(b[n] == 10);
    lemma_line_found(b, n, 0);
    assert(b.take(n) =~= head);
    law_header_read_back(clip);
    lemma_frames_read(head.push(10), clip.frames, clip.width as int, clip.height as int, 0);
    assert(clip.frames.skip(0) =~= clip.frames);
}

} // verus!
