//! What the words of a Y4M header say, where its pictures lie, and how samples are spelled.
use crate::container::v1::ChromaLocation;
use crate::media::pcm;
use crate::media::text;
use crate::media::y4m;
use crate::media::y4m::{HeaderModel, Y4mFault};
use vstd::prelude::*;

verus! {

// ---------------------------------------------------------------------------------------------
// Words

/// A word that starts with `W` tells the width, one that starts with `H` the height: the number behind
/// the letter. Anything else behind it is a fault.
pub proof fn law_size_words(h: HeaderModel, rest: Seq<char>)
    ensures
        match (text::number(rest), h.told(seq!['W'] + rest)) {
            (Some(n), Ok(told)) => told == (HeaderModel { width: Some(n), ..h }),
            (None, Err(e)) => e == Y4mFault::Width,
            _ => false,
        },
        match (text::number(rest), h.told(seq!['H'] + rest)) {
            (Some(n), Ok(told)) => told == (HeaderModel { height: Some(n), ..h }),
            (None, Err(e)) => e == Y4mFault::Height,
            _ => false,
        },
{
    assert((seq!['W'] + rest).skip(1) =~= rest);
    assert((seq!['H'] + rest).skip(1) =~= rest);
}

/// There is no colon in the text.
pub open spec fn plain(s: Seq<char>) -> bool {
    forall|i: int| 0 <= i < s.len() ==> #[trigger] s[i] != ':'
}

proof fn lemma_colon(s: Seq<char>, at: int, i: int)
    requires
        0 <= i <= at <= s.len(),
        forall|j: int| i <= j < at ==> #[trigger] s[j] != ':',
        at < s.len() ==> s[at] == ':',
    ensures
        y4m::colon(s, i) == at,
    decreases at - i,
{
    if i < at {
        assert(s[i] != ':');
        lemma_colon(s, at, i + 1);
    }
}

/// A word that starts with `F` tells the frame rate: frames, a colon and seconds.
pub proof fn law_rate_word(h: HeaderModel, a: Seq<char>, b: Seq<char>)
    requires
        plain(a),
        plain(b),
    ensures
        match (text::number(a), text::number(b), h.told(seq!['F'] + a + seq![':'] + b)) {
            (Some(n), Some(d), Ok(told)) => told == (HeaderModel { fps_n: n, fps_d: d, ..h }),
            (Some(_), None, Err(e)) => e == Y4mFault::FrameRate,
            (None, _, Err(e)) => e == Y4mFault::FrameRate,
            _ => false,
        },
{
    let word = seq!['F'] + a + seq![':'] + b;
    let rest = a + seq![':'] + b;
    assert(word.skip(1) =~= rest);
    let k = a.len() as int;
    assert forall|j: int| 0 <= j < k implies #[trigger] rest[j] != ':' by {
        assert(rest[j] == a[j]);
    }
    assert(rest[k] == ':');
    lemma_colon(rest, k, 0);
    assert forall|j: int| k + 1 <= j < rest.len() implies #[trigger] rest[j] != ':' by {
        assert(rest[j] == b[j - k - 1]);
    }
    lemma_colon(rest, rest.len() as int, k + 1);
    assert(rest.take(k) =~= a);
    assert(rest.subrange(k + 1, rest.len() as int) =~= b);
}

/// Without a colon it tells frames in one second.
pub proof fn law_whole_rate_word(h: HeaderModel, a: Seq<char>)
    requires
        plain(a),
    ensures
        match (text::number(a), h.told(seq!['F'] + a)) {
            (Some(n), Ok(told)) => told == (HeaderModel { fps_n: n, fps_d: 1, ..h }),
            (None, Err(e)) => e == Y4mFault::FrameRate,
            _ => false,
        },
{
    assert((seq!['F'] + a).skip(1) =~= a);
    lemma_colon(a, a.len() as int, 0);
    assert(a.take(a.len() as int) =~= a);
}

/// A word that starts with `C` names the chroma format; `420mpeg2` and what it starts puts the samples
/// to the left.
pub proof fn law_left_word(h: HeaderModel, tail: Seq<char>)
    ensures
        ({
            let name = seq!['4', '2', '0', 'm', 'p', 'e', 'g', '2'] + tail;
            h.told(seq!['C'] + name) matches Ok(told) && told.chroma == name && told.meta.chroma
                == ChromaLocation::Left && told == (HeaderModel {
                chroma: name,
                meta: told.meta,
                ..h
            }) && told.meta == (crate::container::v1::VideoMeta {
                chroma: ChromaLocation::Left,
                ..h.meta
            })
        }),
{
    let name = seq!['4', '2', '0', 'm', 'p', 'e', 'g', '2'] + tail;
    assert((seq!['C'] + name).skip(1) =~= name);
    reveal_strlit("420mpeg2");
    assert(name.take(8) =~= "420mpeg2"@);
}

/// `420jpeg` and `420paldv` put them into the middle.
pub proof fn law_center_words(h: HeaderModel, tail: Seq<char>, dv: bool)
    ensures
        ({
            let name = (if dv {
                seq!['4', '2', '0', 'p', 'a', 'l', 'd', 'v']
            } else {
                seq!['4', '2', '0', 'j', 'p', 'e', 'g']
            }) + tail;
            h.told(seq!['C'] + name) matches Ok(told) && told == (HeaderModel {
                chroma: name,
                meta: crate::container::v1::VideoMeta { chroma: ChromaLocation::Center, ..h.meta },
                ..h
            })
        }),
{
    let name = (if dv {
        seq!['4', '2', '0', 'p', 'a', 'l', 'd', 'v']
    } else {
        seq!['4', '2', '0', 'j', 'p', 'e', 'g']
    }) + tail;
    assert((seq!['C'] + name).skip(1) =~= name);
    reveal_strlit("420mpeg2");
    reveal_strlit("420jpeg");
    reveal_strlit("420paldv");
    if dv {
        assert(name.take(8) =~= "420paldv"@);
        assert(name[3] == 'p');
        assert("420mpeg2"@[3] == 'm');
        if text::begins(name, "420mpeg2"@) {
            assert(name.take(8)[3] == name[3]);
        }
    } else {
        assert(name.take(7) =~= "420jpeg"@);
        assert(name[3] == 'j');
        if text::begins(name, "420mpeg2"@) {
            assert(name.take(8)[3] == name[3]);
        }
    }
}

/// Of the other formats it is not told where the samples lie.
pub proof fn law_other_format(h: HeaderModel, name: Seq<char>)
    requires
        name.len() < 4 || name[3] != 'm' && name[3] != 'j' && name[3] != 'p',
    ensures
        h.told(seq!['C'] + name) matches Ok(told) && told == (HeaderModel {
            chroma: name,
            meta: crate::container::v1::VideoMeta { chroma: ChromaLocation::Unspecified, ..h.meta },
            ..h
        }),
{
    assert((seq!['C'] + name).skip(1) =~= name);
    reveal_strlit("420mpeg2");
    reveal_strlit("420jpeg");
    reveal_strlit("420paldv");
    if name.len() >= 8 {
        assert(name.take(8)[3] == name[3]);
    }
    if name.len() >= 7 {
        assert(name.take(7)[3] == name[3]);
    }
}

/// `XCOLORRANGE=FULL`, in capitals or not, tells the full range; any other value tells that it is not.
pub proof fn law_range_word(h: HeaderModel, value: Seq<char>)
    ensures
        ({
            let word = seq!['X', 'C', 'O', 'L', 'O', 'R', 'R', 'A', 'N', 'G', 'E', '='] + value;
            let full = value.len() == 4 && (value[0] == 'F' || value[0] == 'f') && (value[1] == 'U'
                || value[1] == 'u') && (value[2] == 'L' || value[2] == 'l') && (value[3] == 'L'
                || value[3] == 'l');
            h.told(word) matches Ok(told) && told == (HeaderModel {
                meta: crate::container::v1::VideoMeta { full_range: full, ..h.meta },
                ..h
            })
        }),
{
    let word = seq!['X', 'C', 'O', 'L', 'O', 'R', 'R', 'A', 'N', 'G', 'E', '='] + value;
    reveal_strlit("XCOLORRANGE=");
    assert(word.take(12) =~= "XCOLORRANGE="@);
    assert(word.skip(12) =~= value);
    assert(word[0] == 'X');
}

/// Words that start with another letter say nothing, nor do those of one `X` that do not name the range.
pub proof fn law_other_word(h: HeaderModel, word: Seq<char>)
    requires
        word.len() == 0 || word[0] != 'W' && word[0] != 'H' && word[0] != 'F' && word[0] != 'C',
        word.len() < 2 || word[0] != 'X' || word[1] != 'C',
    ensures
        h.told(word) == Ok::<HeaderModel, Y4mFault>(h),
{
    reveal_strlit("XCOLORRANGE=");
    if text::begins(word, "XCOLORRANGE="@) {
        assert(word.take(12)[0] == word[0]);
        assert(word.take(12)[1] == word[1]);
    }
}

/// Before any word: 30 frames a second, `420`, and no dimensions and no metadata.
pub proof fn law_fresh_header()
    ensures
        ({
            let h = y4m::fresh_header();
            &&& h.width is None && h.height is None
            &&& h.fps_n == 30 && h.fps_d == 1
            &&& h.chroma == seq!['4', '2', '0']
            &&& h.meta.packed() == 0
        }),
{
    reveal_strlit("420");
    assert("420"@ =~= seq!['4', '2', '0']);
}

/// A header has dimensions if its format starts with `420`, both are told and both are even.
pub proof fn law_dimensions(h: HeaderModel)
    ensures
        ({
            let plain = h.chroma.len() >= 3 && h.chroma[0] == '4' && h.chroma[1] == '2' && h.chroma[2]
                == '0';
            &&& !plain ==> h.dimensions() == Err::<(u32, u32), Y4mFault>(Y4mFault::Chroma(h.chroma))
            &&& plain && h.width is None ==> h.dimensions() == Err::<(u32, u32), Y4mFault>(
                Y4mFault::NoWidth,
            )
            &&& plain && h.width is Some && h.height is None ==> h.dimensions() == Err::<
                (u32, u32),
                Y4mFault,
            >(Y4mFault::NoHeight)
            &&& plain && h.width is Some && h.height is Some ==> h.dimensions() == if h.width->0 % 2
                == 1 || h.height->0 % 2 == 1 {
                Err::<(u32, u32), Y4mFault>(Y4mFault::OddDimensions)
            } else {
                Ok((h.width->0, h.height->0))
            }
        }),
{
    reveal_strlit("420");
    if h.chroma.len() >= 3 {
        let head = h.chroma.take(3);
        assert(head[0] == h.chroma[0] && head[1] == h.chroma[1] && head[2] == h.chroma[2]);
        if h.chroma[0] == '4' && h.chroma[1] == '2' && h.chroma[2] == '0' {
            assert(head =~= "420"@);
        }
    }
}

proof fn lemma_spelled(s: Seq<char>)
    requires
        text::all_digits(s),
    ensures
        text::spelled(s) >= 0,
    decreases s.len(),
{
    if s.len() > 0 {
        let rest = s.drop_last();
        assert forall|i: int| 0 <= i < rest.len() implies text::is_digit(#[trigger] rest[i]) by {
            assert(text::is_digit(s[i]));
        }
        assert(text::is_digit(s[s.len() - 1]));
        lemma_spelled(rest);
    }
}

/// One more digit makes a number ten times as large, and adds what the digit stands for. A number that
/// does not fit 32 bits is none.
pub proof fn law_digits(s: Seq<char>, c: char, n: u32)
    requires
        text::number(s) == Some(n),
    ensures
        ({
            let d = c as int - 48;
            text::number(s.push(c)) == if 0 <= d <= 9 && 10 * n + d <= u32::MAX {
                Some((10 * n + d) as u32)
            } else {
                None::<u32>
            }
        }),
{
    let digits = text::unsigned(s);
    let more = text::unsigned(s.push(c));
    assert(more =~= digits.push(c));
    assert(more.drop_last() =~= digits);
    if text::is_digit(c) {
        assert forall|i: int| 0 <= i < more.len() implies text::is_digit(#[trigger] more[i]) by {
            if i < digits.len() {
                assert(more[i] == digits[i]);
            }
        }
        assert(text::all_digits(more));
    } else {
        assert(!text::is_digit(more[digits.len() as int]));
        assert(!text::all_digits(more));
    }
    assert(more.last() == c);
    assert(text::spelled(more) == 10 * text::spelled(digits) + (c as int - '0' as int));
    lemma_spelled(digits);
}

/// A number of one digit, with a plus sign or without one.
pub proof fn law_one_digit(c: char)
    ensures
        ({
            let d = c as int - 48;
            &&& text::number(seq![c]) == if 0 <= d <= 9 {
                Some(d as u32)
            } else {
                None::<u32>
            }
            &&& text::number(seq!['+', c]) == if 0 <= d <= 9 {
                Some(d as u32)
            } else {
                None::<u32>
            }
        }),
{
    let s = seq![c];
    assert(seq!['+', c].skip(1) =~= s);
    assert(s.drop_last().len() == 0);
    assert(s.last() == c);
    if text::is_digit(c) {
        assert(text::all_digits(s));
    } else {
        assert(s[0] == c);
        assert(!text::all_digits(s));
    }
    reveal_with_fuel(text::spelled, 2);
}

/// The characters that part words.
pub open spec fn parting() -> Seq<int> {
    seq![
        0x09,
        0x0a,
        0x0b,
        0x0c,
        0x0d,
        0x20,
        0x85,
        0xa0,
        0x1680,
        0x2000,
        0x2001,
        0x2002,
        0x2003,
        0x2004,
        0x2005,
        0x2006,
        0x2007,
        0x2008,
        0x2009,
        0x200a,
        0x2028,
        0x2029,
        0x202f,
        0x205f,
        0x3000,
    ]
}

/// The characters that part words are the white space of Unicode.
pub proof fn law_parting(c: char)
    ensures
        text::is_space(c) <==> parting().contains(c as int),
{
    let list = parting();
    if list.contains(c as int) {
        let i = choose|i: int| 0 <= i < list.len() && list[i] == c as int;
        assert(list[i] == c as int);
    }
    let v = c as int;
    if 9 <= v <= 13 {
        assert(list[v - 9] == v);
    }
    if 0x2000 <= v <= 0x200a {
        assert(list[v - 0x2000 + 9] == v);
    }
    assert(list[5] == 0x20 && list[6] == 0x85 && list[7] == 0xa0 && list[8] == 0x1680 && list[20]
        == 0x2028 && list[21] == 0x2029 && list[22] == 0x202f && list[23] == 0x205f && list[24]
        == 0x3000);
}

proof fn lemma_word_start(s: Seq<char>, k: int, i: int)
    requires
        0 <= k <= i,
    ensures
        text::word_start(s, i) == text::word_start(s.skip(k), i - k) + k || i > s.len(),
        text::word_end(s, i) == text::word_end(s.skip(k), i - k) + k || i > s.len(),
        text::word_start(s, i) >= i,
        text::word_end(s, i) >= i,
    decreases s.len() - i,
{
    if k <= s.len() && i < s.len() {
        assert(s.skip(k)[i - k] == s[i]);
        lemma_word_start(s, k, i + 1);
    }
}

proof fn lemma_words_from(s: Seq<char>, k: int, i: int)
    requires
        0 <= k <= i <= s.len(),
    ensures
        text::words(s, i) == text::words(s.skip(k), i - k),
    decreases s.len() - i,
{
    let t = s.skip(k);
    lemma_word_start(s, k, i);
    let a = text::word_start(s, i);
    lemma_place(s, i);
    if a < s.len() {
        lemma_word_start(s, k, a);
        lemma_place(s, a);
        let e = text::word_end(s, a);
        assert(!text::is_space(s[a]));
        assert(e > a) by {
            lemma_word_start(s, k, a + 1);
        }
        assert(s.subrange(a, e) =~= t.subrange(a - k, e - k));
        lemma_words_from(s, k, e);
    }
}

proof fn lemma_place(s: Seq<char>, i: int)
    requires
        0 <= i <= s.len(),
    ensures
        i <= text::word_start(s, i) <= s.len(),
        i <= text::word_end(s, i) <= s.len(),
        text::word_start(s, i) < s.len() ==> !text::is_space(s[text::word_start(s, i)]),
    decreases s.len() - i,
{
    if i < s.len() {
        lemma_place(s, i + 1);
    }
}

proof fn lemma_word_end(s: Seq<char>, i: int, e: int)
    requires
        0 <= i <= e < s.len(),
        forall|j: int| i <= j < e ==> !text::is_space(#[trigger] s[j]),
        text::is_space(s[e]),
    ensures
        text::word_end(s, i) == e,
    decreases e - i,
{
    if i < e {
        assert(!text::is_space(s[i]));
        lemma_word_end(s, i + 1, e);
    }
}

/// A word ends where white space comes, and what comes behind that are the words of the rest.
pub proof fn law_words(a: Seq<char>, c: char, b: Seq<char>)
    requires
        a.len() > 0,
        forall|j: int| 0 <= j < a.len() ==> !text::is_space(#[trigger] a[j]),
        text::is_space(c),
    ensures
        text::words(a + seq![c] + b, 0) == seq![a] + text::words(b, 0),
{
    let s = a + seq![c] + b;
    let n = a.len() as int;
    assert forall|j: int| 0 <= j < n implies !text::is_space(#[trigger] s[j]) by {
        assert(s[j] == a[j]);
    }
    assert(s[n] == c);
    lemma_word_end(s, 0, n);
    assert(text::word_start(s, 0) == 0);
    assert(s.subrange(0, n) =~= a);
    lemma_words_from(s, n, n);
    let t = s.skip(n);
    assert(t =~= seq![c] + b);
    assert(t.skip(1) =~= b);
    lemma_words_from(t, 1, 1);
    assert(text::word_start(t, 0) == text::word_start(t, 1));
    assert(text::words(t, 0) == text::words(t, 1)) by {
        lemma_place(t, 1);
    }
}

/// Words are heard one after the other, and the first fault counts.
pub proof fn law_words_in_turn(h: HeaderModel, list: Seq<Seq<char>>, word: Seq<char>, i: int)
    requires
        0 <= i <= list.len(),
    ensures
        h.heard(list.push(word), i) == match h.heard(list, i) {
            Ok(next) => next.told(word),
            Err(e) => Err(e),
        },
    decreases list.len() - i,
{
    let more = list.push(word);
    if i < list.len() {
        assert(more[i] == list[i]);
        if let Ok(next) = h.told(list[i]) {
            law_words_in_turn(next, list, word, i + 1);
        }
    } else {
        assert(more[i] == word);
        if let Ok(next) = h.told(word) {
            assert(next.heard(more, i + 1) == Ok::<HeaderModel, Y4mFault>(next));
        }
    }
}

// ---------------------------------------------------------------------------------------------
// Pictures

/// Pictures lie one behind the other, each behind a line that starts with `FRAME`: first all of the
/// luma, then a quarter as many samples of the first chroma plane, then those of the second.
pub proof fn law_pictures(b: Seq<u8>, p: int, w: int, h: int, nl: int)
    requires
        0 <= p,
        p + 5 <= nl < b.len(),
        w > 0,
        h > 0,
        w % 2 == 0,
        h % 2 == 0,
        b[p] == 70,
        b[p + 1] == 82,
        b[p + 2] == 65,
        b[p + 3] == 77,
        b[p + 4] == 69,
        b[nl] == 10,
        forall|i: int| p + 5 <= i < nl ==> #[trigger] b[i] != 10,
    ensures
        ({
            let end = nl + 1 + w * h + 2 * (w * h / 4);
            &&& b.len() < end ==> y4m::frames_at(b, p, w, h) is Err
            &&& b.len() >= end ==> match (y4m::frames_at(b, p, w, h), y4m::frames_at(b, end, w, h)) {
                (Ok(list), Ok(rest)) => {
                    let f = list[0];
                    &&& list.len() == rest.len() + 1
                    &&& list.skip(1) == rest
                    &&& f.width == w && f.height == h
                    &&& f.y.len() == w * h && f.u.len() == w * h / 4 && f.v.len() == w * h / 4
                    &&& forall|i: int| 0 <= i < w * h ==> #[trigger] f.y[i] == b[nl + 1 + i]
                    &&& forall|i: int| 0 <= i < w * h / 4 ==> #[trigger] f.u[i] == b[nl + 1 + w * h + i]
                    &&& forall|i: int|
                        0 <= i < w * h / 4 ==> #[trigger] f.v[i] == b[nl + 1 + w * h + w * h / 4 + i]
                },
                (Err(a), Err(e)) => a == e,
                _ => false,
            }
        }),
{
    y4m::lemma_area(w, h);
    assert(b.subrange(p, p + 5) =~= y4m::frame_tag());
    lemma_line_end(b, p, nl);
    if let Ok(rest) = y4m::frames_at(b, nl + 1 + w * h + 2 * (w * h / 4), w, h) {
        let first = y4m::picture_at(b, nl + 1, w, h);
        assert((seq![first] + rest).skip(1) =~= rest);
    }
}

proof fn lemma_line_end(b: Seq<u8>, p: int, nl: int)
    requires
        0 <= p <= nl < b.len(),
        b[nl] == 10,
        forall|i: int| p <= i < nl ==> #[trigger] b[i] != 10,
    ensures
        y4m::line_end(b, p) == nl,
    decreases nl - p,
{
    if p < nl {
        assert(b[p] != 10);
        lemma_line_end(b, p + 1, nl);
    }
}

// ---------------------------------------------------------------------------------------------
// Samples

/// A sample is spelled by two bytes, the low one first: together they make the sample, or 65536 more
/// where it is negative.
pub proof fn law_sample_bytes(b: Seq<u8>, samples: Seq<i16>, i: int)
    ensures
        pcm::samples_of(b).len() == b.len() / 2,
        0 <= i < b.len() / 2 ==> b[2 * i] + 256 * b[2 * i + 1] == pcm::samples_of(b)[i] + if b[2 * i
            + 1] >= 128 {
            65536int
        } else {
            0
        },
        pcm::spelled(samples).len() == 2 * samples.len(),
        0 <= i < samples.len() ==> pcm::spelled(samples)[2 * i] + 256 * pcm::spelled(samples)[2 * i
            + 1] == samples[i] + if samples[i] < 0 {
            65536int
        } else {
            0
        },
{
}

} // verus!
