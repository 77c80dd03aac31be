//! What the lines of a probe tell, word by word.
use crate::container::v1;
use crate::container::v1::{ChromaLocation, ColorMatrix, ColorPrimaries, ColorTransfer, VideoMeta};
use crate::media::probe;
use crate::media::y4m;
use vstd::prelude::*;

verus! {

// ---------------------------------------------------------------------------------------------
// Lines

proof fn lemma_break(s: Seq<char>, i: int, e: int)
    requires
        0 <= i <= e <= s.len(),
        forall|j: int| i <= j < e ==> #[trigger] s[j] != '\n',
        e < s.len() ==> s[e] == '\n',
    ensures
        probe::line_break(s, i) == e,
    decreases e - i,
{
    if i < e {
        lemma_break(s, i + 1, e);
    }
}

proof fn lemma_break_found(s: Seq<char>, i: int)
    requires
        0 <= i <= s.len(),
    ensures
        ({
            let e = probe::line_break(s, i);
            &&& i <= e <= s.len()
            &&& forall|j: int| i <= j < e ==> #[trigger] s[j] != '\n'
            &&& e < s.len() ==> s[e] == '\n'
        }),
    decreases s.len() - i,
{
    if i < s.len() && s[i] != '\n' {
        lemma_break_found(s, i + 1);
    }
}

/// What is heard behind some text does not depend on the text.
proof fn lemma_shift(m: VideoMeta, head: Seq<char>, s: Seq<char>, i: int)
    requires
        0 <= i <= s.len(),
        head.len() == 0 || head.last() == '\n',
    ensures
        probe::heard(m, head + s, head.len() + i) == probe::heard(m, s, i),
    decreases s.len() - i,
{
    let (all, n) = (head + s, head.len() as int);
    if i < s.len() {
        lemma_break_found(s, i);
        let e = probe::line_break(s, i);
        assert forall|j: int| n + i <= j < n + e implies #[trigger] all[j] != '\n' by {
            assert(s[j - n] != '\n');
        }
        lemma_break(all, n + i, n + e);
        assert(probe::line(all, n + i, n + e) =~= probe::line(s, i, e));
        if e < s.len() {
            lemma_shift(probe::told(m, probe::line(s, i, e)), head, s, e + 1);
        }
    }
}

proof fn lemma_apart(m: VideoMeta, head: Seq<char>, tail: Seq<char>, i: int)
    requires
        0 <= i <= head.len(),
        head.len() > 0,
        head.last() == '\n',
    ensures
        probe::heard(m, head + tail, i) == probe::heard(probe::heard(m, head, i), tail, 0),
    decreases head.len() - i,
{
    let all = head + tail;
    if i == head.len() {
        lemma_shift(m, head, tail, 0);
    } else {
        lemma_break_found(head, i);
        let e = probe::line_break(head, i);
        assert(e < head.len()) by {
            if e >= head.len() {
                assert(head[head.len() - 1] != '\n');
            }
        }
        assert forall|j: int| i <= j < e implies #[trigger] all[j] != '\n' by {
            assert(head[j] != '\n');
        }
        lemma_break(all, i, e);
        assert(probe::line(all, i, e) =~= probe::line(head, i, e));
        lemma_apart(probe::told(m, probe::line(head, i, e)), head, tail, e + 1);
    }
}

/// Lines are heard one after the other: what comes behind a line is heard with what the lines before
/// it have told.
pub proof fn law_lines_in_turn(m: VideoMeta, head: Seq<char>, tail: Seq<char>)
    requires
        head.len() > 0,
        head.last() == '\n',
    ensures
        probe::heard(m, head + tail, 0) == probe::heard(probe::heard(m, head, 0), tail, 0),
{
    lemma_apart(m, head, tail, 0);
}

/// A line tells the same with a newline behind it, with a return and a newline, or with nothing.
pub proof fn law_line_ends(m: VideoMeta, line: Seq<char>)
    requires
        forall|j: int| 0 <= j < line.len() ==> #[trigger] line[j] != '\n' && line[j] != '\r',
    ensures
        probe::heard(m, line, 0) == probe::told(m, line),
        probe::heard(m, line + seq!['\n'], 0) == probe::told(m, line),
        probe::heard(m, line + seq!['\r', '\n'], 0) == probe::told(m, line),
{
    let n = line.len() as int;
    let (a, b) = (line + seq!['\n'], line + seq!['\r', '\n']);
    lemma_break(line, 0, n);
    lemma_break(a, 0, n);
    assert forall|j: int| 0 <= j < n + 1 implies #[trigger] b[j] != '\n' by {
        if j < n {
            assert(b[j] == line[j]);
        }
    }
    lemma_break(b, 0, n + 1);
    assert(probe::line(line, 0, n) =~= line);
    assert(probe::line(a, 0, n) =~= line);
    assert(probe::line(b, 0, n + 1) =~= line);
    assert(line.len() == 0 ==> probe::equals(line, 0) == 0);
    assert(probe::heard(probe::told(m, line), a, n + 1) == probe::told(m, line));
    assert(probe::heard(probe::told(m, line), b, n + 2) == probe::told(m, line));
}

// ---------------------------------------------------------------------------------------------
// Keys and values

proof fn lemma_equals(s: Seq<char>, i: int, e: int)
    requires
        0 <= i <= e < s.len(),
        forall|j: int| i <= j < e ==> #[trigger] s[j] != '=',
        s[e] == '=',
    ensures
        probe::equals(s, i) == e,
    decreases e - i,
{
    if i < e {
        lemma_equals(s, i + 1, e);
    }
}

/// A key, an equals sign and a value are taken apart.
proof fn lemma_parts(key: Seq<char>, value: Seq<char>)
    requires
        forall|j: int| 0 <= j < key.len() ==> #[trigger] key[j] != '=',
    ensures
        ({
            let s = key + seq!['='] + value;
            let n = key.len() as int;
            probe::equals(s, 0) == n && s.take(n) == key && s.skip(n + 1) == value && n < s.len()
        }),
{
    let s = key + seq!['='] + value;
    let n = key.len() as int;
    assert forall|j: int| 0 <= j < n implies #[trigger] s[j] != '=' by {
        assert(s[j] == key[j]);
    }
    lemma_equals(s, 0, n);
    assert(s.take(n) =~= key);
    assert(s.skip(n + 1) =~= value);
}

proof fn lemma_keys()
    ensures
        "color_range"@.len() == 11,
        "color_space"@.len() == 11,
        "color_range"@ != "color_space"@,
        "color_transfer"@.len() == 14,
        "color_primaries"@.len() == 15,
        "chroma_location"@.len() == 15,
        "color_primaries"@ != "chroma_location"@,
        forall|j: int| 0 <= j < 11 ==> #[trigger] "color_range"@[j] != '=',
        forall|j: int| 0 <= j < 11 ==> #[trigger] "color_space"@[j] != '=',
        forall|j: int| 0 <= j < 14 ==> #[trigger] "color_transfer"@[j] != '=',
        forall|j: int| 0 <= j < 15 ==> #[trigger] "color_primaries"@[j] != '=',
        forall|j: int| 0 <= j < 15 ==> #[trigger] "chroma_location"@[j] != '=',
{
    reveal_strlit("color_range");
    reveal_strlit("color_space");
    reveal_strlit("color_transfer");
    reveal_strlit("color_primaries");
    reveal_strlit("chroma_location");
    assert("color_range"@[6] == 'r' && "color_space"@[6] == 's');
    assert("color_primaries"@[1] == 'o' && "chroma_location"@[1] == 'h');
}

proof fn lemma_names()
    ensures
        "bt709"@.len() == 5,
        "bt2020"@.len() == 6,
        "bt2020nc"@.len() == 8,
        "smpte170m"@.len() == 9,
        "smpte2084"@.len() == 9,
        "bt470bg"@.len() == 7,
        "iec61966-2-1"@.len() == 12,
        "arib-std-b67"@.len() == 12,
        "iec61966-2-1"@ != "arib-std-b67"@,
        "left"@.len() == 4,
        "center"@.len() == 6,
        "pc"@.len() == 2,
        "jpeg"@.len() == 4,
{
    reveal_strlit("bt709");
    reveal_strlit("bt2020");
    reveal_strlit("bt2020nc");
    reveal_strlit("smpte170m");
    reveal_strlit("smpte2084");
    reveal_strlit("bt470bg");
    reveal_strlit("iec61966-2-1");
    reveal_strlit("arib-std-b67");
    reveal_strlit("left");
    reveal_strlit("center");
    reveal_strlit("pc");
    reveal_strlit("jpeg");
    assert("iec61966-2-1"@[0] == 'i' && "arib-std-b67"@[0] == 'a');
}

/// A line about the primaries sets them and nothing else.
pub proof fn law_primaries_line(m: VideoMeta, value: Seq<char>)
    ensures
        ({
            let t = probe::told(m, "color_primaries"@ + seq!['='] + value);
            &&& t == (VideoMeta { primaries: t.primaries, ..m })
            &&& value == "bt709"@ ==> t.primaries == ColorPrimaries::Bt709
            &&& value == "bt2020"@ ==> t.primaries == ColorPrimaries::Bt2020
            &&& value == "smpte170m"@ ==> t.primaries == ColorPrimaries::Bt601
            &&& value == "bt470bg"@ ==> t.primaries == ColorPrimaries::Bt601
            &&& value != "bt709"@ && value != "bt2020"@ && value != "smpte170m"@ && value != "bt470bg"@
                ==> t.primaries == ColorPrimaries::Unspecified
        }),
{
    lemma_keys();
    lemma_names();
    lemma_parts("color_primaries"@, value);
}

/// A line about the color space sets the matrix and nothing else.
pub proof fn law_matrix_line(m: VideoMeta, value: Seq<char>)
    ensures
        ({
            let t = probe::told(m, "color_space"@ + seq!['='] + value);
            &&& t == (VideoMeta { matrix: t.matrix, ..m })
            &&& value == "bt709"@ ==> t.matrix == ColorMatrix::Bt709
            &&& value == "bt2020nc"@ ==> t.matrix == ColorMatrix::Bt2020Ncl
            &&& value == "smpte170m"@ ==> t.matrix == ColorMatrix::Bt601
            &&& value == "bt470bg"@ ==> t.matrix == ColorMatrix::Bt601
            &&& value != "bt709"@ && value != "bt2020nc"@ && value != "smpte170m"@ && value
                != "bt470bg"@ ==> t.matrix == ColorMatrix::Unspecified
        }),
{
    lemma_keys();
    lemma_names();
    lemma_parts("color_space"@, value);
}

/// A line about the transfer function sets it and nothing else.
pub proof fn law_transfer_line(m: VideoMeta, value: Seq<char>)
    ensures
        ({
            let t = probe::told(m, "color_transfer"@ + seq!['='] + value);
            &&& t == (VideoMeta { transfer: t.transfer, ..m })
            &&& value == "bt709"@ ==> t.transfer == ColorTransfer::Bt709
            &&& value == "iec61966-2-1"@ ==> t.transfer == ColorTransfer::Srgb
            &&& value == "smpte2084"@ ==> t.transfer == ColorTransfer::Pq
            &&& value == "arib-std-b67"@ ==> t.transfer == ColorTransfer::Hlg
            &&& value != "bt709"@ && value != "iec61966-2-1"@ && value != "smpte2084"@ && value
                != "arib-std-b67"@ ==> t.transfer == ColorTransfer::Unspecified
        }),
{
    lemma_keys();
    lemma_names();
    lemma_parts("color_transfer"@, value);
}

/// A line about the chroma location sets it and nothing else.
pub proof fn law_chroma_line(m: VideoMeta, value: Seq<char>)
    ensures
        ({
            let t = probe::told(m, "chroma_location"@ + seq!['='] + value);
            &&& t == (VideoMeta { chroma: t.chroma, ..m })
            &&& value == "left"@ ==> t.chroma == ChromaLocation::Left
            &&& value == "center"@ ==> t.chroma == ChromaLocation::Center
            &&& value != "left"@ && value != "center"@ ==> t.chroma == ChromaLocation::Unspecified
        }),
{
    lemma_keys();
    lemma_names();
    lemma_parts("chroma_location"@, value);
}

/// A line about the range sets it and nothing else.
pub proof fn law_range_line(m: VideoMeta, value: Seq<char>)
    ensures
        ({
            let t = probe::told(m, "color_range"@ + seq!['='] + value);
            &&& t == (VideoMeta { full_range: t.full_range, ..m })
            &&& t.full_range <==> value == "pc"@ || value == "jpeg"@
        }),
{
    lemma_keys();
    lemma_parts("color_range"@, value);
}

/// Other lines tell nothing.
pub proof fn law_other_line(m: VideoMeta, key: Seq<char>, value: Seq<char>)
    requires
        forall|j: int| 0 <= j < key.len() ==> #[trigger] key[j] != '=',
        key != "color_range"@,
        key != "color_space"@,
        key != "color_transfer"@,
        key != "color_primaries"@,
        key != "chroma_location"@,
    ensures
        probe::told(m, key + seq!['='] + value) == m,
{
    lemma_parts(key, value);
}

/// A line without an equals sign tells nothing.
pub proof fn law_plain_line(m: VideoMeta, line: Seq<char>)
    requires
        forall|j: int| 0 <= j < line.len() ==> #[trigger] line[j] != '=',
    ensures
        probe::told(m, line) == m,
{
    lemma_no_equals(line, 0);
}

proof fn lemma_no_equals(s: Seq<char>, i: int)
    requires
        0 <= i <= s.len(),
        forall|j: int| 0 <= j < s.len() ==> #[trigger] s[j] != '=',
    ensures
        probe::equals(s, i) == s.len(),
    decreases s.len() - i,
{
    if i < s.len() {
        lemma_no_equals(s, i + 1);
    }
}

/// Nothing is known before the first line.
pub proof fn law_nothing_heard()
    ensures
        probe::heard(y4m::plain_meta(), Seq::empty(), 0) == (VideoMeta {
            matrix: ColorMatrix::Unspecified,
            transfer: ColorTransfer::Unspecified,
            primaries: ColorPrimaries::Unspecified,
            full_range: false,
            chroma: ChromaLocation::Unspecified,
        }),
{
}

// ---------------------------------------------------------------------------------------------
// Words of metadata

/// The word that stands for metadata: the matrix in the lowest four bits, then the transfer function
/// and the primaries in four each, the range in one, and the chroma location above.
pub proof fn law_meta_word(m: VideoMeta)
    ensures
        ({
            let v = m.packed();
            &&& 0 <= v < 65536
            &&& v % 16 == match m.matrix {
                ColorMatrix::Unspecified => 0int,
                ColorMatrix::Bt601 => 1,
                ColorMatrix::Bt709 => 2,
                ColorMatrix::Bt2020Ncl => 3,
            }
            &&& v / 16 % 16 == match m.transfer {
                ColorTransfer::Unspecified => 0int,
                ColorTransfer::Bt709 => 1,
                ColorTransfer::Srgb => 2,
                ColorTransfer::Pq => 3,
                ColorTransfer::Hlg => 4,
            }
            &&& v / 256 % 16 == match m.primaries {
                ColorPrimaries::Unspecified => 0int,
                ColorPrimaries::Bt601 => 1,
                ColorPrimaries::Bt709 => 2,
                ColorPrimaries::Bt2020 => 3,
            }
            &&& v / 4096 % 2 == if m.full_range {
                1int
            } else {
                0
            }
            &&& v / 8192 == match m.chroma {
                ChromaLocation::Unspecified => 0int,
                ChromaLocation::Left => 1,
                ChromaLocation::Center => 2,
            }
        }),
{
}

/// Metadata of a file and of its frames become one: all that the file says, and the chroma location
/// of the frames where the file leaves it open; what the frames say where the file says nothing.
pub proof fn law_merged(probed: u32, own: u32)
    requires
        v1::meta_ok(probed as int),
        v1::meta_ok(own as int),
    ensures
        probed == 0 ==> probe::merged(probed, own) == own,
        probed != 0 ==> {
            let r = probe::merged(probed, own);
            &&& r % 8192 == probed % 8192
            &&& r / 8192 == if probed / 8192 == 0 {
                own / 8192
            } else {
                probed / 8192
            } as int
        },
{
    let (p, y) = (y4m::meta_of(probed), y4m::meta_of(own));
    law_meta_word(p);
    law_meta_word(y);
    law_meta_word(VideoMeta { chroma: y.chroma, ..p });
}

} // verus!
